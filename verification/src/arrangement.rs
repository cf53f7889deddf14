//! The planar arrangement of a sketch's profile loops.

use crate::arena::Catalog;
use crate::crossing;
use crate::crossing::some_cross;
use crate::ir::{Sketch, SketchEntity, SketchEntityUse};
use crate::kernel::{Arithmetic, Kernel};
use crate::list::copied;
use crate::ring;
use crate::ring::{ring, Ring, RingView};
use crate::scalar::Scalar;
use vstd::hash_map::StringHashMap;
use vstd::prelude::*;

verus! {

/// Halvings after which the search for a point of a region ends.
pub const PROBE_DEPTH: usize = 24;

/// What a [`Region`] holds.
#[verifier::ext_equal]
pub struct RegionView {
    pub outer: usize,
    pub holes: Seq<usize>,
}

/// One atomic planar region: an exterior loop minus its immediate holes.
///
/// This is the same shape as [`crate::ir::SketchProfileRegion::Loops`], so a
/// resolved selection and an inferred one describe a profile the same way.
pub struct Region {
    pub outer: usize,
    pub holes: Vec<usize>,
}

impl View for Region {
    type V = RegionView;

    open spec fn view(&self) -> RegionView {
        RegionView { outer: self.outer, holes: self.holes@ }
    }
}

impl Region {
    /// A region with the same loops.
    pub fn duplicate(&self) -> (r: Region)
        ensures
            r@ == self@,
    {
        Region { outer: self.outer, holes: copied(&self.holes) }
    }
}

/// What some regions hold.
pub open spec fn region_views(regions: Seq<Region>) -> Seq<RegionView> {
    regions.map_values(|region: Region| region@)
}

/// What some rings hold.
pub open spec fn ring_views(rings: Seq<Ring>) -> Seq<RingView> {
    rings.map_values(|ring: Ring| ring@)
}

/// Whether a ring is larger than another and holds its interior point.
pub open spec fn surrounds(m: Arithmetic, rings: Seq<RingView>, outer: int, inner: int) -> bool {
    &&& outer != inner
    &&& !rings[outer].area.at_most(rings[inner].area)
    &&& ring::inside(m, rings[outer], rings[inner].interior)
}

/// The tightest of the first `n` rings that surround a ring; of several of one
/// area the first.
pub open spec fn tightest(m: Arithmetic, rings: Seq<RingView>, inner: int, n: int) -> Option<int>
    decreases n,
{
    if n <= 0 {
        None
    } else {
        let rest = tightest(m, rings, inner, n - 1);
        if surrounds(m, rings, n - 1, inner) && match rest {
            Some(current) => rings[n - 1].area.below(rings[current].area),
            None => true,
        } {
            Some(n - 1)
        } else {
            rest
        }
    }
}

/// The ring a ring lies in directly.
pub open spec fn parent(m: Arithmetic, rings: Seq<RingView>, inner: int) -> Option<int> {
    tightest(m, rings, inner, rings.len() as int)
}

/// Those of the first `n` rings that lie in a ring directly.
pub open spec fn holes_of(m: Arithmetic, rings: Seq<RingView>, outer: int, n: int) -> Seq<usize>
    decreases n,
{
    if n <= 0 {
        Seq::empty()
    } else if parent(m, rings, n - 1) == Some(outer) {
        holes_of(m, rings, outer, n - 1).push((n - 1) as usize)
    } else {
        holes_of(m, rings, outer, n - 1)
    }
}

/// The region each ring bounds.
pub open spec fn regions_of(m: Arithmetic, rings: Seq<RingView>) -> Seq<RegionView> {
    Seq::new(
        rings.len(),
        |i: int|
            RegionView { outer: i as usize, holes: holes_of(m, rings, i, rings.len() as int) },
    )
}

/// The rings of the first `n` loops; `None` when one of them has none.
pub open spec fn rings_of(
    m: Arithmetic,
    profiles: Seq<Vec<SketchEntityUse>>,
    entities: Seq<SketchEntity>,
    n: int,
) -> Option<Seq<RingView>>
    decreases n,
{
    if n <= 0 {
        Some(Seq::empty())
    } else {
        match (
            rings_of(m, profiles, entities, n - 1),
            ring::ring_of(m, (n - 1) as usize, profiles[n - 1]@, entities),
        ) {
            (Some(rest), Some(ring)) => Some(rest.push(ring)),
            _ => None,
        }
    }
}

/// The ring memberships after a loop's first `n` uses were entered.
pub open spec fn entered(
    members: Map<Seq<char>, usize>,
    uses: Seq<SketchEntityUse>,
    index: usize,
    n: int,
) -> Map<Seq<char>, usize>
    decreases n,
{
    if n <= 0 {
        members
    } else {
        entered(members, uses, index, n - 1).insert(uses[n - 1].entity@, index)
    }
}

/// The ring each entity of the first `n` loops belongs to; of several the last.
pub open spec fn memberships(profiles: Seq<Vec<SketchEntityUse>>, n: int) -> Map<Seq<char>, usize>
    decreases n,
{
    if n <= 0 {
        Map::empty()
    } else {
        entered(
            memberships(profiles, n - 1),
            profiles[n - 1]@,
            (n - 1) as usize,
            profiles[n - 1]@.len() as int,
        )
    }
}

/// What an [`Arrangement`] holds.
#[verifier::ext_equal]
pub struct ArrangementView {
    pub rings: Seq<RingView>,
    pub regions: Seq<RegionView>,
    pub ring_of_entity: Map<Seq<char>, usize>,
}

impl ArrangementView {
    /// Each ring bounds the region of its place, and holes are rings.
    pub open spec fn sound(self) -> bool {
        &&& self.regions.len() == self.rings.len()
        &&& forall|i: int|
            0 <= i < self.rings.len() ==> (#[trigger] self.rings[i]).index == i
        &&& forall|i: int|
            0 <= i < self.regions.len() ==> (#[trigger] self.regions[i]).outer == i
        &&& forall|i: int, j: int|
            0 <= i < self.regions.len() && 0 <= j < self.regions[i].holes.len()
                ==> #[trigger] self.regions[i].holes[j] < self.rings.len()
    }
}

/// The arrangement of some profile loops; `None` when there are none, when one of
/// them has no ring, or when two of them cross.
pub open spec fn arrangement_of(
    m: Arithmetic,
    profiles: Seq<Vec<SketchEntityUse>>,
    entities: Seq<SketchEntity>,
) -> Option<ArrangementView> {
    match rings_of(m, profiles, entities, profiles.len() as int) {
        Some(rings) => if rings.len() == 0 || crossing::any_cross(m, rings) {
            None
        } else {
            Some(
                ArrangementView {
                    rings,
                    regions: regions_of(m, rings),
                    ring_of_entity: memberships(profiles, profiles.len() as int),
                },
            )
        },
        None => None,
    }
}

/// The planar arrangement of one sketch's profile loops.
///
/// Only loop *nesting* is computed, which is what the whole-loop region form
/// encodes. Loops that cross one another need trimmed boundaries and are
/// refused rather than approximated.
pub struct Arrangement {
    pub rings: Vec<Ring>,
    pub regions: Vec<Region>,
    /// Which ring each sketch entity belongs to, for entity-level selections.
    pub ring_of_entity: StringHashMap<usize>,
}

impl View for Arrangement {
    type V = ArrangementView;

    open spec fn view(&self) -> ArrangementView {
        ArrangementView {
            rings: ring_views(self.rings@),
            regions: region_views(self.regions@),
            ring_of_entity: self.ring_of_entity@,
        }
    }
}

proof fn rings_of_stop(
    m: Arithmetic,
    profiles: Seq<Vec<SketchEntityUse>>,
    entities: Seq<SketchEntity>,
    n: int,
    whole: int,
)
    requires
        rings_of(m, profiles, entities, n) is None,
        n <= whole,
    ensures
        rings_of(m, profiles, entities, whole) is None,
    decreases whole - n,
{
    if n < whole {
        assert(rings_of(m, profiles, entities, n + 1) is None);
        rings_of_stop(m, profiles, entities, n + 1, whole);
    }
}

pub proof fn tightest_in_range(m: Arithmetic, rings: Seq<RingView>, inner: int, n: int)
    ensures
        tightest(m, rings, inner, n) matches Some(p) ==> 0 <= p < n && surrounds(
            m,
            rings,
            p,
            inner,
        ),
    decreases n,
{
    if n > 0 {
        tightest_in_range(m, rings, inner, n - 1);
    }
}

pub proof fn holes_in_range(m: Arithmetic, rings: Seq<RingView>, outer: int, n: int)
    requires
        n <= rings.len() <= usize::MAX,
    ensures
        forall|j: int| #![trigger holes_of(m, rings, outer, n)[j]]
            0 <= j < holes_of(m, rings, outer, n).len() ==> {
                &&& holes_of(m, rings, outer, n)[j] < n
                &&& parent(m, rings, holes_of(m, rings, outer, n)[j] as int) == Some(outer)
            },
    decreases n,
{
    if n > 0 {
        holes_in_range(m, rings, outer, n - 1);
        let rest = holes_of(m, rings, outer, n - 1);
        assert forall|j: int| #![trigger holes_of(m, rings, outer, n)[j]]
            0 <= j < holes_of(m, rings, outer, n).len() implies holes_of(m, rings, outer, n)[j] < n
            && parent(m, rings, holes_of(m, rings, outer, n)[j] as int) == Some(outer) by {
            if j < rest.len() {
                assert(holes_of(m, rings, outer, n)[j] == rest[j]);
            }
        }
    }
}

proof fn rings_are_placed(
    m: Arithmetic,
    profiles: Seq<Vec<SketchEntityUse>>,
    entities: Seq<SketchEntity>,
    n: int,
)
    requires
        0 <= n <= usize::MAX,
    ensures
        rings_of(m, profiles, entities, n) matches Some(rings) ==> {
            &&& rings.len() == n
            &&& forall|i: int| 0 <= i < n ==> (#[trigger] rings[i]).index == i
        },
    decreases n,
{
    if n > 0 {
        rings_are_placed(m, profiles, entities, n - 1);
    }
}

/// An arrangement is sound.
pub proof fn arrangement_is_sound(
    m: Arithmetic,
    profiles: Seq<Vec<SketchEntityUse>>,
    entities: Seq<SketchEntity>,
)
    requires
        profiles.len() <= usize::MAX,
    ensures
        arrangement_of(m, profiles, entities) matches Some(view) ==> view.sound(),
{
    rings_are_placed(m, profiles, entities, profiles.len() as int);
    if let Some(view) = arrangement_of(m, profiles, entities) {
        assert forall|i: int, j: int|
            0 <= i < view.regions.len() && 0 <= j < view.regions[i].holes.len() implies
            #[trigger] view.regions[i].holes[j] < view.rings.len() by {
            holes_in_range(m, view.rings, i, view.rings.len() as int);
            assert(view.regions[i].holes == holes_of(m, view.rings, i, view.rings.len() as int));
        }
    }
}

/// No two loops of an arrangement cross.
pub proof fn arranged_loops_do_not_cross(
    m: Arithmetic,
    profiles: Seq<Vec<SketchEntityUse>>,
    entities: Seq<SketchEntity>,
    i: int,
    j: int,
)
    ensures
        arrangement_of(m, profiles, entities) matches Some(view) ==> 0 <= i < j < view.rings.len()
            ==> !crossing::loops_cross(m, view.rings[i], view.rings[j]),
{
}

impl Arrangement {
    /// Nests a sketch's profile loops; `None` when a loop has no ring, when two
    /// loops cross, or when there is no loop.
    pub fn build<K: Kernel>(sketch: &Sketch, entities: &Catalog<SketchEntity>, kernel: &K) -> (r:
        Option<Self>)
        ensures
            match r {
                Some(arrangement) => arrangement_of(kernel.model(), sketch.profiles@, entities@)
                    == Some(arrangement@) && arrangement@.sound(),
                None => arrangement_of(kernel.model(), sketch.profiles@, entities@) is None,
            },
    {
        let ghost m = kernel.model();
        let mut rings: Vec<Ring> = Vec::new();
        let mut ring_of_entity: StringHashMap<usize> = StringHashMap::new();
        let mut index: usize = 0;
        assert(ring_views(rings@) =~= Seq::empty());
        while index < sketch.profiles.len()
            invariant
                index <= sketch.profiles@.len(),
                m == kernel.model(),
                rings_of(m, sketch.profiles@, entities@, index as int) == Some(ring_views(rings@)),
                ring_of_entity@ == memberships(sketch.profiles@, index as int),
            decreases sketch.profiles@.len() - index,
        {
            let loop_uses = &sketch.profiles[index];
            let ghost before = ring_views(rings@);
            match ring(index, loop_uses, entities, kernel) {
                Some(ring) => {
                    let ghost added = ring@;
                    rings.push(ring);
                    assert(ring_views(rings@) =~= before.push(added));
                },
                None => {
                    proof {
                        rings_of_stop(
                            m,
                            sketch.profiles@,
                            entities@,
                            index + 1,
                            sketch.profiles@.len() as int,
                        );
                    }
                    return None;
                },
            }
            let ghost members = ring_of_entity@;
            let mut k: usize = 0;
            while k < loop_uses.len()
                invariant
                    k <= loop_uses@.len(),
                    ring_of_entity@ == entered(members, loop_uses@, index, k as int),
                decreases loop_uses@.len() - k,
            {
                ring_of_entity.insert(loop_uses[k].entity.clone(), index);
                k += 1;
            }
            index += 1;
        }
        if rings.is_empty() || some_cross(&rings, kernel) {
            return None;
        }
        proof {
            assert(rings.len() == sketch.profiles.len()) by {
                rings_are_placed(
                    m,
                    sketch.profiles@,
                    entities@,
                    sketch.profiles.len() as int,
                );
            }
        }
        let regions = nest(&rings, kernel);
        let r = Arrangement { rings, regions, ring_of_entity };
        proof {
            arrangement_is_sound(m, sketch.profiles@, entities@);
            assert(r@.rings == ring_views(rings@));
        }
        Some(r)
    }
}

/// The tightest ring around a ring.
fn enclosing<K: Kernel>(rings: &Vec<Ring>, inner: usize, kernel: &K) -> (r: Option<usize>)
    requires
        inner < rings@.len(),
    ensures
        match r {
            Some(outer) => parent(kernel.model(), ring_views(rings@), inner as int) == Some(
                outer as int,
            ) && outer < rings@.len(),
            None => parent(kernel.model(), ring_views(rings@), inner as int) is None,
        },
{
    let ghost views = ring_views(rings@);
    let mut found: Option<usize> = None;
    let mut outer: usize = 0;
    while outer < rings.len()
        invariant
            outer <= rings@.len(),
            inner < rings@.len(),
            views == ring_views(rings@),
            match found {
                Some(current) => current < outer && tightest(
                    kernel.model(),
                    views,
                    inner as int,
                    outer as int,
                ) == Some(current as int),
                None => tightest(kernel.model(), views, inner as int, outer as int) is None,
            },
        decreases rings@.len() - outer,
    {
        assert(views[outer as int] == rings@[outer as int]@);
        assert(views[inner as int] == rings@[inner as int]@);
        if outer != inner && !rings[outer].area.le(rings[inner].area) && rings[outer].contains(
            rings[inner].interior,
            kernel,
        ) {
            let tighter = match found {
                Some(current) => {
                    assert(views[current as int] == rings@[current as int]@);
                    rings[outer].area.lt(rings[current].area)
                },
                None => true,
            };
            if tighter {
                found = Some(outer);
            }
        }
        outer += 1;
    }
    found
}

/// The region each ring bounds.
fn nest<K: Kernel>(rings: &Vec<Ring>, kernel: &K) -> (r: Vec<Region>)
    ensures
        region_views(r@) == regions_of(kernel.model(), ring_views(rings@)),
{
    let ghost m = kernel.model();
    let ghost views = ring_views(rings@);
    let total: usize = rings.len();
    let mut regions: Vec<Region> = Vec::new();
    let mut outer: usize = 0;
    while outer < total
        invariant
            outer <= total,
            total == rings@.len(),
            views == ring_views(rings@),
            regions@.len() == outer,
            forall|i: int| 0 <= i < outer ==> (#[trigger] regions@[i])@ == (RegionView {
                outer: i as usize,
                holes: holes_of(m, views, i, 0),
            }),
        decreases total - outer,
    {
        let region = Region { outer, holes: Vec::new() };
        assert(region.holes@ =~= holes_of(m, views, outer as int, 0));
        regions.push(region);
        outer += 1;
    }
    let mut inner: usize = 0;
    while inner < total
        invariant
            inner <= total,
            total == rings@.len(),
            m == kernel.model(),
            views == ring_views(rings@),
            regions@.len() == total,
            forall|i: int| 0 <= i < total ==> (#[trigger] regions@[i])@ == (RegionView {
                outer: i as usize,
                holes: holes_of(m, views, i, inner as int),
            }),
        decreases total - inner,
    {
        let ghost before = regions@;
        match enclosing(rings, inner, kernel) {
            Some(outer) => {
                regions[outer].holes.push(inner);
                proof {
                    assert forall|i: int| 0 <= i < total implies (#[trigger] regions@[i])@ == (
                    RegionView {
                        outer: i as usize,
                        holes: holes_of(m, views, i, inner + 1),
                    }) by {
                        assert(before[i]@ == (RegionView {
                            outer: i as usize,
                            holes: holes_of(m, views, i, inner as int),
                        }));
                        if i != outer {
                            assert(regions@[i] == before[i]);
                        }
                    }
                }
            },
            None => {},
        }
        inner += 1;
    }
    assert(region_views(regions@) =~= regions_of(m, views));
    regions
}

// ---------------------------------------------------------------------------
// nesting
// ---------------------------------------------------------------------------

/// The regions reached from a frontier of loops, the last one first, in at most
/// `fuel` steps.
pub open spec fn descend(regions: Seq<RegionView>, frontier: Seq<usize>, fuel: nat) -> Seq<
    RegionView,
>
    decreases fuel,
{
    if fuel == 0 || frontier.len() == 0 {
        Seq::empty()
    } else {
        let region = regions[frontier.last() as int];
        seq![region] + descend(
            regions,
            frontier.drop_last() + region.holes,
            (fuel - 1) as nat,
        )
    }
}

impl ArrangementView {
    /// The region of a loop, followed by those of the loops inside it.
    ///
    /// No loop is reached twice, so as many steps as there are loops reach all;
    /// see [`crate::nesting::every_nested_loop_once`].
    pub open spec fn within(self, outer: int) -> Seq<RegionView> {
        seq![self.regions[outer]] + descend(
            self.regions,
            self.regions[outer].holes,
            (self.regions.len() - 1) as nat,
        )
    }

    /// Whether a point lies in no hole of a region.
    pub open spec fn clear_of_holes(
        self,
        m: Arithmetic,
        region: RegionView,
        point: (Scalar, Scalar),
    ) -> bool {
        forall|j: int|
            0 <= j < region.holes.len() ==> !ring::inside(
                m,
                self.rings[#[trigger] region.holes[j] as int],
                point,
            )
    }

    /// The point between a boundary sample and the interior point that `depth`
    /// halvings towards the sample lead to.
    pub open spec fn probe(self, m: Arithmetic, outer: int, k: int, depth: int) -> (Scalar, Scalar)
        decreases depth,
    {
        let ring = self.rings[outer];
        if depth <= 0 {
            ring.interior
        } else {
            let last = self.probe(m, outer, k, depth - 1);
            (
                m.midpoint(ring.polygon[k].0, last.0),
                m.midpoint(ring.polygon[k].1, last.1),
            )
        }
    }

    /// Whether a point lies in the loop of a region and in none of its holes.
    pub open spec fn has_inside(
        self,
        m: Arithmetic,
        region: RegionView,
        point: (Scalar, Scalar),
    ) -> bool {
        ring::inside(m, self.rings[region.outer as int], point) && self.clear_of_holes(
            m,
            region,
            point,
        )
    }

    /// The first probe that lies in the region, tried from one depth and sample
    /// on: all samples at a depth before the next depth.
    pub open spec fn first_probe(self, m: Arithmetic, region: RegionView, depth: int, k: int) -> Option<
        (Scalar, Scalar),
    >
        decreases PROBE_DEPTH + 1 - depth, self.rings[region.outer as int].polygon.len() - k,
    {
        let outer = region.outer as int;
        if depth > PROBE_DEPTH {
            None
        } else if k >= self.rings[outer].polygon.len() {
            self.first_probe(m, region, depth + 1, 0)
        } else if self.has_inside(m, region, self.probe(m, outer, k, depth)) {
            Some(self.probe(m, outer, k, depth))
        } else {
            self.first_probe(m, region, depth, k + 1)
        }
    }

    /// A point of a region; `None` when none is found.
    pub open spec fn sample_point(self, m: Arithmetic, region: RegionView) -> Option<
        (Scalar, Scalar),
    > {
        let middle = self.rings[region.outer as int].interior;
        if self.has_inside(m, region, middle) {
            Some(middle)
        } else {
            self.first_probe(m, region, 1, 0)
        }
    }

    /// Whether the loops of a region are rings of the arrangement.
    pub open spec fn has_loops(self, region: RegionView) -> bool {
        &&& region.outer < self.rings.len()
        &&& forall|j: int|
            0 <= j < region.holes.len() ==> #[trigger] region.holes[j] < self.rings.len()
    }
}

/// A walk through a sound arrangement only meets regions whose loops are rings.
proof fn descend_has_loops(view: ArrangementView, frontier: Seq<usize>, fuel: nat)
    requires
        view.sound(),
        forall|k: int| 0 <= k < frontier.len() ==> #[trigger] frontier[k] < view.rings.len(),
    ensures
        forall|k: int| #![trigger descend(view.regions, frontier, fuel)[k]]
            0 <= k < descend(view.regions, frontier, fuel).len() ==> view.has_loops(
                descend(view.regions, frontier, fuel)[k],
            ),
    decreases fuel,
{
    if fuel > 0 && frontier.len() > 0 {
        let i = frontier.last() as int;
        let region = view.regions[i];
        let next = frontier.drop_last() + region.holes;
        assert forall|k: int| 0 <= k < next.len() implies #[trigger] next[k] < view.rings.len() by {
            if k < frontier.len() - 1 {
                assert(next[k] == frontier[k]);
            } else {
                assert(next[k] == view.regions[i].holes[k - (frontier.len() - 1)]);
            }
        }
        descend_has_loops(view, next, (fuel - 1) as nat);
        let out = descend(view.regions, frontier, fuel);
        assert forall|k: int| #![trigger out[k]] 0 <= k < out.len() implies view.has_loops(
            out[k],
        ) by {
            if k > 0 {
                assert(out[k] == descend(view.regions, next, (fuel - 1) as nat)[k - 1]);
            } else {
                assert(view.has_loops(region));
            }
        }
    }
}

/// The regions within a loop have rings of the arrangement for loops.
pub proof fn within_has_loops(view: ArrangementView, outer: int)
    requires
        view.sound(),
        0 <= outer < view.regions.len(),
    ensures
        forall|k: int| #![trigger view.within(outer)[k]]
            0 <= k < view.within(outer).len() ==> view.has_loops(view.within(outer)[k]),
{
    let holes = view.regions[outer].holes;
    assert forall|k: int| 0 <= k < holes.len() implies #[trigger] holes[k]
        < view.rings.len() by {
        assert(view.regions[outer].holes[k] < view.rings.len());
    }
    descend_has_loops(view, holes, (view.regions.len() - 1) as nat);
    let rest = descend(view.regions, holes, (view.regions.len() - 1) as nat);
    assert forall|k: int| #![trigger view.within(outer)[k]]
        0 <= k < view.within(outer).len() implies view.has_loops(view.within(outer)[k]) by {
        if k > 0 {
            assert(view.within(outer)[k] == rest[k - 1]);
        } else {
            assert(view.has_loops(view.regions[outer]));
        }
    }
}

impl Arrangement {
    /// Every atomic region contained in a loop, including the loop's own.
    pub fn regions_within(&self, outer: usize) -> (r: Vec<Region>)
        requires
            self@.sound(),
            outer < self.regions@.len(),
        ensures
            region_views(r@) == self@.within(outer as int),
    {
        let ghost view = self@;
        let total: usize = self.regions.len();
        assert(view.regions[outer as int] == self.regions@[outer as int]@);
        let mut out: Vec<Region> = Vec::new();
        out.push(self.regions[outer].duplicate());
        assert(region_views(out@) =~= seq![view.regions[outer as int]]);
        let mut frontier = copied(&self.regions[outer].holes);
        proof {
            assert forall|k: int| 0 <= k < frontier@.len() implies #[trigger] frontier@[k]
                < total by {
                assert(view.regions[outer as int].holes[k] < view.rings.len());
            }
        }
        while out.len() < total && !frontier.is_empty()
            invariant
                view == self@,
                view.sound(),
                total == self.regions@.len(),
                1 <= out@.len() <= total,
                forall|k: int| 0 <= k < frontier@.len() ==> #[trigger] frontier@[k] < total,
                region_views(out@) + descend(
                    view.regions,
                    frontier@,
                    (total - out@.len()) as nat,
                ) == view.within(outer as int),
            decreases total - out@.len(),
        {
            let ghost waiting = frontier@;
            let ghost found = region_views(out@);
            let index: usize = frontier[frontier.len() - 1];
            frontier.pop();
            assert(view.regions[index as int] == self.regions@[index as int]@);
            out.push(self.regions[index].duplicate());
            let mut holes = copied(&self.regions[index].holes);
            frontier.append(&mut holes);
            proof {
                let region = view.regions[index as int];
                assert(region_views(out@) =~= found + seq![region]);
                assert(waiting.drop_last() =~= waiting.subrange(0, waiting.len() - 1));
                assert(frontier@ == waiting.drop_last() + region.holes);
                assert forall|k: int| 0 <= k < frontier@.len() implies #[trigger] frontier@[k]
                    < total by {
                    if k < waiting.len() - 1 {
                        assert(frontier@[k] == waiting[k]);
                    } else {
                        assert(frontier@[k] == view.regions[index as int].holes[k - (waiting.len()
                            - 1)]);
                    }
                }
                let rest = descend(view.regions, frontier@, (total - out@.len()) as nat);
                assert(found + (seq![region] + rest) =~= (found + seq![region]) + rest);
            }
        }
        assert(region_views(out@) =~= view.within(outer as int));
        out
    }

    fn in_no_hole<K: Kernel>(&self, region: &Region, point: (Scalar, Scalar), kernel: &K) -> (r:
        bool)
        requires
            self@.has_loops(region@),
        ensures
            r == self@.clear_of_holes(kernel.model(), region@, point),
    {
        let mut j: usize = 0;
        while j < region.holes.len()
            invariant
                j <= region.holes@.len(),
                self@.has_loops(region@),
                forall|i: int|
                    0 <= i < j ==> !ring::inside(
                        kernel.model(),
                        self@.rings[#[trigger] region@.holes[i] as int],
                        point,
                    ),
            decreases region.holes@.len() - j,
        {
            assert(region@.holes[j as int] < self@.rings.len());
            let ring = &self.rings[region.holes[j]];
            assert(self@.rings[region@.holes[j as int] as int] == ring@);
            if ring.contains(point, kernel) {
                return false;
            }
            j += 1;
        }
        true
    }

    /// The point between a boundary sample and the interior point that `depth`
    /// halvings towards the sample lead to.
    fn probe_at<K: Kernel>(&self, outer: usize, k: usize, depth: usize, kernel: &K) -> (r: (
        Scalar,
        Scalar,
    ))
        requires
            outer < self.rings@.len(),
            k < self.rings@[outer as int].polygon@.len(),
        ensures
            r == self@.probe(kernel.model(), outer as int, k as int, depth as int),
    {
        let ring = &self.rings[outer];
        assert(self@.rings[outer as int] == ring@);
        let sample = ring.polygon[k];
        let mut point = ring.interior;
        let mut step: usize = 0;
        while step < depth
            invariant
                step <= depth,
                k < ring.polygon@.len(),
                self@.rings[outer as int] == ring@,
                sample == ring.polygon@[k as int],
                point == self@.probe(kernel.model(), outer as int, k as int, step as int),
            decreases depth - step,
        {
            point = (kernel.midpoint(sample.0, point.0), kernel.midpoint(sample.1, point.1));
            step += 1;
        }
        point
    }

    fn is_inside<K: Kernel>(&self, region: &Region, point: (Scalar, Scalar), kernel: &K) -> (r:
        bool)
        requires
            self@.has_loops(region@),
        ensures
            r == self@.has_inside(kernel.model(), region@, point),
    {
        assert(self@.rings[region.outer as int] == self.rings@[region.outer as int]@);
        self.rings[region.outer].contains(point, kernel) && self.in_no_hole(region, point, kernel)
    }

    /// A point inside a region and outside all of its holes, or `None` when none
    /// is found.
    pub fn sample<K: Kernel>(&self, region: &Region, kernel: &K) -> (r: Option<(Scalar, Scalar)>)
        requires
            self@.has_loops(region@),
        ensures
            r == self@.sample_point(kernel.model(), region@),
            r matches Some(point) ==> self@.has_inside(kernel.model(), region@, point),
    {
        let ghost m = kernel.model();
        proof {
            sample_is_inside(m, self@, region@);
        }
        let outer = &self.rings[region.outer];
        assert(self@.rings[region.outer as int] == outer@);
        let middle = outer.interior;
        if self.is_inside(region, middle, kernel) {
            return Some(middle);
        }
        // Walk the ring's own samples, ever closer to the boundary: one of the
        // probes lies clear of every hole whenever the region has any area at
        // all.
        let mut depth: usize = 1;
        while depth <= PROBE_DEPTH
            invariant
                1 <= depth <= PROBE_DEPTH + 1,
                m == kernel.model(),
                self@.has_loops(region@),
                self@.rings[region.outer as int] == outer@,
                !self@.has_inside(m, region@, outer.interior),
                self@.first_probe(m, region@, 1, 0) == self@.first_probe(
                    m,
                    region@,
                    depth as int,
                    0,
                ),
                self@.sample_point(m, region@) matches Some(point) ==> self@.has_inside(
                    m,
                    region@,
                    point,
                ),
            decreases PROBE_DEPTH + 1 - depth,
        {
            let mut k: usize = 0;
            while k < outer.polygon.len()
                invariant
                    k <= outer.polygon@.len(),
                    1 <= depth <= PROBE_DEPTH,
                    m == kernel.model(),
                    self@.has_loops(region@),
                    self@.rings[region.outer as int] == outer@,
                    !self@.has_inside(m, region@, outer.interior),
                    self@.first_probe(m, region@, 1, 0) == self@.first_probe(
                        m,
                        region@,
                        depth as int,
                        k as int,
                    ),
                    self@.sample_point(m, region@) matches Some(point) ==> self@.has_inside(
                        m,
                        region@,
                        point,
                    ),
                decreases outer.polygon@.len() - k,
            {
                assert(self.rings@[region.outer as int]@ == outer@);
                let probe = self.probe_at(region.outer, k, depth, kernel);
                if self.is_inside(region, probe, kernel) {
                    return Some(probe);
                }
                k += 1;
            }
            depth += 1;
        }
        None
    }
}

proof fn probe_is_inside(
    m: Arithmetic,
    view: ArrangementView,
    region: RegionView,
    depth: int,
    k: int,
)
    requires
        0 <= k,
    ensures
        match view.first_probe(m, region, depth, k) {
            Some(point) => view.has_inside(m, region, point),
            None => forall|d: int, i: int|
                depth <= d <= PROBE_DEPTH && 0 <= i < view.rings[region.outer as int].polygon.len()
                    && (d == depth ==> k <= i) ==> !view.has_inside(
                    m,
                    region,
                    #[trigger] view.probe(m, region.outer as int, i, d),
                ),
        },
    decreases
            PROBE_DEPTH + 1 - depth,
            view.rings[region.outer as int].polygon.len() - k,
{
    let outer = region.outer as int;
    if depth > PROBE_DEPTH {
    } else if k >= view.rings[outer].polygon.len() {
        probe_is_inside(m, view, region, depth + 1, 0);
    } else if !view.has_inside(m, region, view.probe(m, outer, k, depth)) {
        probe_is_inside(m, view, region, depth, k + 1);
    }
}

/// The sample of a region lies in its loop and outside all of its holes. There
/// is one wherever the middle of the loop, or one of the probes, does.
pub proof fn sample_is_inside(m: Arithmetic, view: ArrangementView, region: RegionView)
    ensures
        match view.sample_point(m, region) {
            Some(point) => view.has_inside(m, region, point),
            None => {
                &&& !view.has_inside(m, region, view.rings[region.outer as int].interior)
                &&& forall|d: int, i: int|
                    1 <= d <= PROBE_DEPTH && 0 <= i < view.rings[
                        region.outer as int
                    ].polygon.len() ==> !view.has_inside(
                        m,
                        region,
                        #[trigger] view.probe(m, region.outer as int, i, d),
                    )
            },
        },
{
    probe_is_inside(m, view, region, 1, 0);
}

} // verus!
