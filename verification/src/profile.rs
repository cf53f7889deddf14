//! Profiles: the regions an extrude sweeps.

use crate::arrangement::{Arrangement, ArrangementView, Region, RegionView};
use crate::arrangement;
use crate::frame::SketchFrame;
use crate::ir::{ProfileRef, SketchProfileRegion};
use crate::kernel::{Arithmetic, Kernel, Vec3};
use crate::meridian::{is_in_span, Meridian, MeridianView};
use crate::meridian;
use crate::ring;
use crate::ring::Ring;
use crate::scalar::Scalar;
use crate::text;
use crate::text::decimal;
use vstd::hash_map::StringHashMap;
use vstd::prelude::*;

verus! {

/// What a [`ResolvedProfile`] holds.
#[verifier::ext_equal]
pub struct ProfileView {
    pub sketch: Seq<char>,
    pub regions: Seq<RegionView>,
    pub inference: Option<Seq<char>>,
}

/// A profile resolved to concrete regions, with how it was arrived at.
pub struct ResolvedProfile {
    pub sketch: String,
    pub regions: Vec<Region>,
    /// `None` when the profile was read from the document rather than inferred.
    pub inference: Option<String>,
}

/// What an optional text holds.
pub open spec fn text_view(text: Option<String>) -> Option<Seq<char>> {
    match text {
        Some(t) => Some(t@),
        None => None,
    }
}

impl View for ResolvedProfile {
    type V = ProfileView;

    open spec fn view(&self) -> ProfileView {
        ProfileView {
            sketch: self.sketch@,
            regions: arrangement::region_views(self.regions@),
            inference: text_view(self.inference),
        }
    }
}

/// What the arrangements of some sketches hold.
pub open spec fn arrangement_views(arrangements: Map<Seq<char>, Arrangement>) -> Map<
    Seq<char>,
    ArrangementView,
> {
    arrangements.map_values(|arrangement: Arrangement| arrangement@)
}

/// Counts of a document as indices.
pub open spec fn indices(values: Seq<u32>) -> Seq<usize> {
    values.map_values(|value: u32| value as usize)
}

/// The first `n` regions a document lists by their loops; `None` when one of
/// them is given by trimmed curves.
pub open spec fn listed(regions: Seq<SketchProfileRegion>, n: int) -> Option<Seq<RegionView>>
    decreases n,
{
    if n <= 0 {
        Some(Seq::empty())
    } else {
        match (listed(regions, n - 1), regions[n - 1]) {
            (Some(rest), SketchProfileRegion::Loops { outer, holes }) => Some(
                rest.push(RegionView { outer: outer as usize, holes: indices(holes@) }),
            ),
            _ => None,
        }
    }
}

/// The regions the first `n` indices name; an index out of range is passed over.
pub open spec fn picked(regions: Seq<RegionView>, profiles: Seq<u32>, n: int) -> Seq<RegionView>
    decreases n,
{
    if n <= 0 {
        Seq::empty()
    } else {
        let rest = picked(regions, profiles, n - 1);
        if profiles[n - 1] < regions.len() {
            rest.push(regions[profiles[n - 1] as int])
        } else {
            rest
        }
    }
}

/// Whether one of some entities belongs to a ring.
pub open spec fn touches(
    ring_of_entity: Map<Seq<char>, usize>,
    entities: Seq<String>,
    ring: usize,
) -> bool {
    exists|e: int|
        0 <= e < entities.len() && ring_of_entity.contains_key((#[trigger] entities[e])@)
            && ring_of_entity[entities[e]@] == ring
}

/// Those of the first `n` regions whose outer loop holds one of some entities.
pub open spec fn selected(arrangement: ArrangementView, entities: Seq<String>, n: int) -> Seq<
    RegionView,
>
    decreases n,
{
    if n <= 0 {
        Seq::empty()
    } else {
        let rest = selected(arrangement, entities, n - 1);
        let region = arrangement.regions[n - 1];
        if touches(arrangement.ring_of_entity, entities, region.outer) {
            rest.push(region)
        } else {
            rest
        }
    }
}

/// Why a trimmed region is refused.
pub open spec fn trimmed_reason() -> Seq<char> {
    "the trimmed-boundary region form needs curve splitting this encoder does not perform"@
}

/// Why a sketch without an arrangement is refused.
pub open spec fn unarranged_reason(sketch: Seq<char>) -> Seq<char> {
    "sketch "@ + sketch + " has no usable planar arrangement"@
}

/// Why entities that close no loop are refused.
pub open spec fn open_reason() -> Seq<char> {
    "the selected sketch entities close no profile loop"@
}

/// Why a native selection is not read.
pub open spec fn selection_reason(sketch: Seq<char>) -> Seq<char> {
    "profile is a native selection in sketch "@ + sketch + "; it needs inference"@
}

/// Why a reference that names no sketch is refused.
pub open spec fn unsupported_reason(description: Seq<char>) -> Seq<char> {
    "unsupported profile reference: "@ + description
}

/// A profile read straight out of a document.
pub open spec fn read_profile(sketch: Seq<char>, regions: Seq<RegionView>) -> ProfileView {
    ProfileView { sketch, regions, inference: None }
}

/// What a profile reference resolves to, or why it does not.
pub open spec fn resolution(
    profile: ProfileRef,
    arrangements: Map<Seq<char>, ArrangementView>,
) -> Result<ProfileView, Seq<char>> {
    match profile {
        ProfileRef::SketchRegions { sketch, regions } => match listed(
            regions@,
            regions@.len() as int,
        ) {
            Some(out) => Ok(read_profile(sketch@, out)),
            None => Err(trimmed_reason()),
        },
        ProfileRef::SketchProfiles { sketch, profiles } => if arrangements.contains_key(sketch@) {
            Ok(
                read_profile(
                    sketch@,
                    picked(arrangements[sketch@].regions, profiles@, profiles@.len() as int),
                ),
            )
        } else {
            Err(unarranged_reason(sketch@))
        },
        ProfileRef::Sketch(sketch) => if arrangements.contains_key(sketch@) {
            Ok(read_profile(sketch@, arrangements[sketch@].regions))
        } else {
            Err(unarranged_reason(sketch@))
        },
        ProfileRef::SketchEntities { sketch, entities } => if arrangements.contains_key(sketch@) {
            let arrangement = arrangements[sketch@];
            let out = selected(arrangement, entities@, arrangement.regions.len() as int);
            if out.len() == 0 {
                Err(open_reason())
            } else {
                Ok(read_profile(sketch@, out))
            }
        } else {
            Err(unarranged_reason(sketch@))
        },
        ProfileRef::SketchSelection { sketch } => Err(selection_reason(sketch@)),
        ProfileRef::Other { description } => Err(unsupported_reason(description@)),
    }
}

fn as_indices(values: &Vec<u32>) -> (r: Vec<usize>)
    ensures
        r@ == indices(values@),
{
    let mut out: Vec<usize> = Vec::new();
    let mut i: usize = 0;
    while i < values.len()
        invariant
            i <= values@.len(),
            out@ =~= indices(values@).take(i as int),
        decreases values@.len() - i,
    {
        out.push(values[i] as usize);
        i += 1;
    }
    assert(out@ =~= indices(values@));
    out
}

proof fn listed_stop(regions: Seq<SketchProfileRegion>, n: int, whole: int)
    requires
        listed(regions, n) is None,
        n <= whole,
    ensures
        listed(regions, whole) is None,
    decreases whole - n,
{
    if n < whole {
        assert(listed(regions, n + 1) is None);
        listed_stop(regions, n + 1, whole);
    }
}

fn listed_regions(regions: &Vec<SketchProfileRegion>) -> (r: Option<Vec<Region>>)
    ensures
        match r {
            Some(out) => listed(regions@, regions@.len() as int) == Some(
                arrangement::region_views(out@),
            ),
            None => listed(regions@, regions@.len() as int) is None,
        },
{
    let mut out: Vec<Region> = Vec::new();
    let mut i: usize = 0;
    assert(arrangement::region_views(out@) =~= Seq::empty());
    while i < regions.len()
        invariant
            i <= regions@.len(),
            listed(regions@, i as int) == Some(arrangement::region_views(out@)),
        decreases regions@.len() - i,
    {
        let ghost before = arrangement::region_views(out@);
        match &regions[i] {
            SketchProfileRegion::Loops { outer, holes } => {
                let region = Region { outer: *outer as usize, holes: as_indices(holes) };
                let ghost added = region@;
                out.push(region);
                assert(arrangement::region_views(out@) =~= before.push(added));
            },
            SketchProfileRegion::Trimmed => {
                proof {
                    listed_stop(regions@, i + 1, regions@.len() as int);
                }
                return None;
            },
        }
        i += 1;
    }
    Some(out)
}

fn picked_regions(regions: &Vec<Region>, profiles: &Vec<u32>) -> (r: Vec<Region>)
    ensures
        arrangement::region_views(r@) == picked(
            arrangement::region_views(regions@),
            profiles@,
            profiles@.len() as int,
        ),
{
    let ghost views = arrangement::region_views(regions@);
    let mut out: Vec<Region> = Vec::new();
    let mut i: usize = 0;
    assert(arrangement::region_views(out@) =~= Seq::empty());
    while i < profiles.len()
        invariant
            i <= profiles@.len(),
            views == arrangement::region_views(regions@),
            arrangement::region_views(out@) == picked(views, profiles@, i as int),
        decreases profiles@.len() - i,
    {
        let ghost before = arrangement::region_views(out@);
        let index: usize = profiles[i] as usize;
        if index < regions.len() {
            out.push(regions[index].duplicate());
            assert(arrangement::region_views(out@) =~= before.push(views[index as int]));
        }
        i += 1;
    }
    out
}

/// Regions with the same contents.
pub fn duplicate_regions(regions: &Vec<Region>) -> (r: Vec<Region>)
    ensures
        arrangement::region_views(r@) == arrangement::region_views(regions@),
{
    let ghost views = arrangement::region_views(regions@);
    let mut out: Vec<Region> = Vec::new();
    let mut i: usize = 0;
    while i < regions.len()
        invariant
            i <= regions@.len(),
            views == arrangement::region_views(regions@),
            arrangement::region_views(out@) =~= views.take(i as int),
        decreases regions@.len() - i,
    {
        let ghost before = arrangement::region_views(out@);
        out.push(regions[i].duplicate());
        assert(arrangement::region_views(out@) =~= before.push(views[i as int]));
        i += 1;
    }
    assert(views.take(i as int) =~= views);
    out
}

fn touched(ring_of_entity: &StringHashMap<usize>, entities: &Vec<String>, ring: usize) -> (r: bool)
    ensures
        r == touches(ring_of_entity@, entities@, ring),
{
    let mut e: usize = 0;
    while e < entities.len()
        invariant
            e <= entities@.len(),
            forall|k: int|
                0 <= k < e ==> !(ring_of_entity@.contains_key((#[trigger] entities@[k])@)
                    && ring_of_entity@[entities@[k]@] == ring),
        decreases entities@.len() - e,
    {
        if let Some(found) = ring_of_entity.get(entities[e].as_str()) {
            if *found == ring {
                assert(ring_of_entity@.contains_key(entities@[e as int]@));
                return true;
            }
        }
        e += 1;
    }
    false
}

fn selected_regions(arrangement: &Arrangement, entities: &Vec<String>) -> (r: Vec<Region>)
    ensures
        arrangement::region_views(r@) == selected(
            arrangement@,
            entities@,
            arrangement@.regions.len() as int,
        ),
{
    let ghost view = arrangement@;
    let mut out: Vec<Region> = Vec::new();
    let mut i: usize = 0;
    assert(arrangement::region_views(out@) =~= Seq::empty());
    while i < arrangement.regions.len()
        invariant
            i <= arrangement.regions@.len(),
            view == arrangement@,
            arrangement::region_views(out@) == selected(view, entities@, i as int),
        decreases arrangement.regions@.len() - i,
    {
        let ghost before = arrangement::region_views(out@);
        let region = &arrangement.regions[i];
        assert(view.regions[i as int] == region@);
        if touched(&arrangement.ring_of_entity, entities, region.outer) {
            out.push(region.duplicate());
            assert(arrangement::region_views(out@) =~= before.push(view.regions[i as int]));
        }
        i += 1;
    }
    out
}

fn unarranged(sketch: &String) -> (r: String)
    ensures
        r@ == unarranged_reason(sketch@),
{
    let mut reason = "sketch ".to_owned();
    reason.append(sketch.as_str());
    reason.append(" has no usable planar arrangement");
    reason
}

fn read(sketch: &String, regions: Vec<Region>) -> (r: ResolvedProfile)
    ensures
        r@ == read_profile(sketch@, arrangement::region_views(regions@)),
{
    ResolvedProfile { sketch: sketch.clone(), regions, inference: None }
}

/// Normalizes any `ProfileRef` into concrete sketch regions.
///
/// The exact variants are read straight through. `SketchSelection` is the one
/// that needs recovering, and it is handled by [`infer_profile`].
pub fn resolve_profile(profile: &ProfileRef, arrangements: &StringHashMap<Arrangement>) -> (r:
    Result<ResolvedProfile, String>)
    ensures
        match r {
            Ok(resolved) => resolution(*profile, arrangement_views(arrangements@)) == Ok::<
                ProfileView,
                Seq<char>,
            >(resolved@),
            Err(reason) => resolution(*profile, arrangement_views(arrangements@)) == Err::<
                ProfileView,
                Seq<char>,
            >(reason@),
        },
{
    match profile {
        ProfileRef::SketchRegions { sketch, regions } => match listed_regions(regions) {
            Some(out) => Ok(read(sketch, out)),
            None => Err(
                "the trimmed-boundary region form needs curve splitting this encoder does not perform".to_owned(),
            ),
        },
        ProfileRef::SketchProfiles { sketch, profiles } => match arrangements.get(
            sketch.as_str(),
        ) {
            Some(arrangement) => Ok(
                read(sketch, picked_regions(&arrangement.regions, profiles)),
            ),
            None => Err(unarranged(sketch)),
        },
        ProfileRef::Sketch(sketch) => match arrangements.get(sketch.as_str()) {
            Some(arrangement) => Ok(read(sketch, duplicate_regions(&arrangement.regions))),
            None => Err(unarranged(sketch)),
        },
        ProfileRef::SketchEntities { sketch, entities } => match arrangements.get(
            sketch.as_str(),
        ) {
            Some(arrangement) => {
                let out = selected_regions(arrangement, entities);
                assert(arrangement::region_views(out@).len() == out@.len());
                if out.is_empty() {
                    Err("the selected sketch entities close no profile loop".to_owned())
                } else {
                    Ok(read(sketch, out))
                }
            },
            None => Err(unarranged(sketch)),
        },
        ProfileRef::SketchSelection { sketch } => {
            let mut reason = "profile is a native selection in sketch ".to_owned();
            reason.append(sketch.as_str());
            reason.append("; it needs inference");
            Err(reason)
        },
        ProfileRef::Other { description } => {
            let mut reason = "unsupported profile reference: ".to_owned();
            reason.append(description.as_str());
            Err(reason)
        },
    }
}

// ---------------------------------------------------------------------------
// inference
// ---------------------------------------------------------------------------

/// What a [`CutVolume`] holds.
#[verifier::ext_equal]
pub struct CutView {
    pub frame: SketchFrame,
    pub span: (Scalar, Scalar),
    pub ring: ring::RingView,
}

/// The volume the exterior loop of a cut sweeps.
pub struct CutVolume {
    pub frame: SketchFrame,
    pub span: (Scalar, Scalar),
    pub ring: Ring,
}

impl View for CutVolume {
    type V = CutView;

    open spec fn view(&self) -> CutView {
        CutView { frame: self.frame, span: self.span, ring: self.ring@ }
    }
}

/// What some cut volumes hold.
pub open spec fn cut_views(cuts: Seq<CutVolume>) -> Seq<CutView> {
    cuts.map_values(|cut: CutVolume| cut@)
}

impl CutView {
    /// Whether a probe point lies in the volume.
    pub open spec fn has_inside(self, m: Arithmetic, probe: Vec3) -> bool {
        &&& meridian::in_span(m, m.dot(probe, self.frame.normal), self.span.0, self.span.1)
        &&& ring::inside(m, self.ring, self.frame.sketch_point(m, probe))
    }
}

/// Whether one of some cut volumes holds a probe point.
pub open spec fn covered(m: Arithmetic, cuts: Seq<CutView>, probe: Vec3) -> bool {
    exists|i: int| 0 <= i < cuts.len() && (#[trigger] cuts[i]).has_inside(m, probe)
}

/// Whether one of some cuts removes a probe point.
pub fn cuts_cover<K: Kernel>(cuts: &Vec<CutVolume>, probe: Vec3, kernel: &K) -> (r: bool)
    ensures
        r == covered(kernel.model(), cut_views(cuts@), probe),
{
    let ghost views = cut_views(cuts@);
    let mut i: usize = 0;
    while i < cuts.len()
        invariant
            i <= cuts@.len(),
            views == cut_views(cuts@),
            forall|k: int| 0 <= k < i ==> !(#[trigger] views[k]).has_inside(kernel.model(), probe),
        decreases cuts@.len() - i,
    {
        let cut = &cuts[i];
        assert(views[i as int] == cut@);
        let station = kernel.dot(probe, cut.frame.normal);
        if is_in_span(station, cut.span.0, cut.span.1, kernel) && cut.ring.contains(
            cut.frame.to_sketch(probe, kernel),
            kernel,
        ) {
            return true;
        }
        i += 1;
    }
    false
}

/// The middle of the column a sketch point sweeps.
pub open spec fn column_middle(
    m: Arithmetic,
    at: (Scalar, Scalar),
    frame: SketchFrame,
    span: (Scalar, Scalar),
) -> Vec3 {
    let point = frame.model_point(m, at.0, at.1);
    m.sum(
        point,
        m.scale(
            frame.normal,
            m.minus(m.midpoint(span.0, span.1), m.dot(point, frame.normal)),
        ),
    )
}

/// Whether a region is kept: its material is in the final solid, or a later cut
/// explains why it is not. A region without a point holds no material. Without a
/// classifier every region is kept.
pub open spec fn is_kept(
    m: Arithmetic,
    arrangement: ArrangementView,
    region: RegionView,
    frame: SketchFrame,
    span: (Scalar, Scalar),
    meridian: Option<MeridianView>,
    cuts: Seq<CutView>,
) -> bool {
    match meridian {
        Some(solid) => match arrangement.sample_point(m, region) {
            Some(at) => {
                let middle = column_middle(m, at, frame, span);
                solid.has_inside(m, middle) || covered(m, cuts, middle)
            },
            None => false,
        },
        None => true,
    }
}

/// Whether a region is kept.
fn keeps<K: Kernel>(
    arrangement: &Arrangement,
    region: &Region,
    frame: &SketchFrame,
    span: (Scalar, Scalar),
    meridian: &Option<Meridian>,
    later_cuts: &Vec<CutVolume>,
    kernel: &K,
) -> (r: bool)
    requires
        arrangement@.has_loops(region@),
    ensures
        r == is_kept(
            kernel.model(),
            arrangement@,
            region@,
            *frame,
            span,
            meridian_view(*meridian),
            cut_views(later_cuts@),
        ),
{
    match meridian {
        Some(classifier) => match arrangement.sample(region, kernel) {
            Some((u, v)) => {
                let point = frame.to_model(u, v, kernel);
                let middle = kernel.sum(
                    point,
                    kernel.scale(
                        frame.normal,
                        kernel.minus(
                            kernel.midpoint(span.0, span.1),
                            kernel.dot(point, frame.normal),
                        ),
                    ),
                );
                classifier.contains(middle, kernel) || cuts_cover(later_cuts, middle, kernel)
            },
            None => false,
        },
        None => true,
    }
}

/// Those of the first `n` regions that are kept.
pub open spec fn kept_regions(
    m: Arithmetic,
    arrangement: ArrangementView,
    candidates: Seq<RegionView>,
    frame: SketchFrame,
    span: (Scalar, Scalar),
    meridian: Option<MeridianView>,
    cuts: Seq<CutView>,
    n: int,
) -> Seq<RegionView>
    decreases n,
{
    if n <= 0 {
        Seq::empty()
    } else {
        let rest = kept_regions(m, arrangement, candidates, frame, span, meridian, cuts, n - 1);
        if is_kept(m, arrangement, candidates[n - 1], frame, span, meridian, cuts) {
            rest.push(candidates[n - 1])
        } else {
            rest
        }
    }
}

/// The rule an inferred profile is reported with.
pub open spec fn inference_rule(outer: nat, kept: nat, total: nat) -> Seq<char> {
    "exterior loop "@ + text::digits(outer) + " attributed to a solved carrier; "@ + text::digits(
        kept,
    ) + " of "@ + text::digits(total) + " atomic regions retained"@
}

/// The profile inferred from an exterior loop: the kept ones of the regions
/// within it, or its own region where none is kept.
pub open spec fn inferred(
    m: Arithmetic,
    sketch: Seq<char>,
    outer: usize,
    arrangement: ArrangementView,
    frame: SketchFrame,
    span: (Scalar, Scalar),
    meridian: Option<MeridianView>,
    cuts: Seq<CutView>,
) -> ProfileView {
    let candidates = arrangement.within(outer as int);
    let kept = kept_regions(
        m,
        arrangement,
        candidates,
        frame,
        span,
        meridian,
        cuts,
        candidates.len() as int,
    );
    let regions = if kept.len() == 0 {
        seq![arrangement.regions[outer as int]]
    } else {
        kept
    };
    ProfileView {
        sketch,
        regions,
        inference: Some(inference_rule(outer as nat, regions.len(), candidates.len())),
    }
}

/// Whether no region within an exterior loop is kept, so that the loop's own
/// region has to stand in.
pub open spec fn none_kept(
    m: Arithmetic,
    outer: usize,
    arrangement: ArrangementView,
    frame: SketchFrame,
    span: (Scalar, Scalar),
    meridian: Option<MeridianView>,
    cuts: Seq<CutView>,
) -> bool {
    forall|k: int|
        0 <= k < arrangement.within(outer as int).len() ==> !is_kept(
            m,
            arrangement,
            #[trigger] arrangement.within(outer as int)[k],
            frame,
            span,
            meridian,
            cuts,
        )
}

/// Whether no region within an exterior loop is kept.
pub fn is_none_kept<K: Kernel>(
    outer: usize,
    arrangement: &Arrangement,
    frame: &SketchFrame,
    span: (Scalar, Scalar),
    meridian: &Option<Meridian>,
    later_cuts: &Vec<CutVolume>,
    kernel: &K,
) -> (r: bool)
    requires
        arrangement@.sound(),
        outer < arrangement@.regions.len(),
    ensures
        r == none_kept(
            kernel.model(),
            outer,
            arrangement@,
            *frame,
            span,
            meridian_view(*meridian),
            cut_views(later_cuts@),
        ),
{
    let candidates = arrangement.regions_within(outer);
    let ghost found = arrangement@.within(outer as int);
    proof {
        arrangement::within_has_loops(arrangement@, outer as int);
    }
    let mut i: usize = 0;
    while i < candidates.len()
        invariant
            i <= candidates@.len(),
            found == arrangement@.within(outer as int),
            found == arrangement::region_views(candidates@),
            forall|k: int| #![trigger found[k]]
                0 <= k < found.len() ==> arrangement@.has_loops(found[k]),
            forall|k: int|
                0 <= k < i ==> !is_kept(
                    kernel.model(),
                    arrangement@,
                    #[trigger] found[k],
                    *frame,
                    span,
                    meridian_view(*meridian),
                    cut_views(later_cuts@),
                ),
        decreases candidates@.len() - i,
    {
        assert(found[i as int] == candidates@[i as int]@);
        if keeps(arrangement, &candidates[i], frame, span, meridian, later_cuts, kernel) {
            return false;
        }
        i += 1;
    }
    assert(found.len() == candidates@.len());
    true
}

/// What an optional classifier holds.
pub open spec fn meridian_view(meridian: Option<Meridian>) -> Option<MeridianView> {
    match meridian {
        Some(solid) => Some(solid@),
        None => None,
    }
}

/// Recovers a native profile selection from the solved body.
///
/// Two steps. The exterior loop comes from [`crate::assign::assign_outer_rings`].
/// Its holes are then found by starting from the filled interior and dropping
/// every atomic region whose material is absent from the final solid and is not
/// explained by a later subtractive feature - a region a later cut removes is
/// kept, because the cut re-creates the void.
///
/// The result reproduces the final solid. It is not a claim about which profile
/// the user originally clicked, and it is reported as inferred for that reason.
pub fn infer_profile<K: Kernel>(
    sketch: &String,
    outer: usize,
    arrangement: &Arrangement,
    frame: &SketchFrame,
    span: (Scalar, Scalar),
    meridian: &Option<Meridian>,
    later_cuts: &Vec<CutVolume>,
    kernel: &K,
) -> (r: ResolvedProfile)
    requires
        arrangement@.sound(),
        outer < arrangement@.regions.len(),
    ensures
        r@ == inferred(
            kernel.model(),
            sketch@,
            outer,
            arrangement@,
            *frame,
            span,
            meridian_view(*meridian),
            cut_views(later_cuts@),
        ),
{
    let ghost m = kernel.model();
    let ghost view = arrangement@;
    let ghost solid = meridian_view(*meridian);
    let ghost cuts = cut_views(later_cuts@);
    let candidates = arrangement.regions_within(outer);
    let ghost found = view.within(outer as int);
    proof {
        arrangement::within_has_loops(view, outer as int);
    }
    let total: usize = candidates.len();
    let mut kept: Vec<Region> = Vec::new();
    let mut i: usize = 0;
    assert(arrangement::region_views(kept@) =~= Seq::empty());
    while i < candidates.len()
        invariant
            i <= candidates@.len(),
            m == kernel.model(),
            view == arrangement@,
            solid == meridian_view(*meridian),
            cuts == cut_views(later_cuts@),
            found == arrangement::region_views(candidates@),
            forall|k: int| #![trigger found[k]] 0 <= k < found.len() ==> view.has_loops(found[k]),
            arrangement::region_views(kept@) == kept_regions(
                m,
                view,
                found,
                *frame,
                span,
                solid,
                cuts,
                i as int,
            ),
        decreases candidates@.len() - i,
    {
        let region = &candidates[i];
        assert(found[i as int] == region@);
        let keep = keeps(arrangement, region, frame, span, meridian, later_cuts, kernel);
        if keep {
            let ghost before = arrangement::region_views(kept@);
            kept.push(region.duplicate());
            assert(arrangement::region_views(kept@) =~= before.push(found[i as int]));
        }
        i += 1;
    }
    assert(arrangement::region_views(kept@).len() == kept@.len());
    if kept.is_empty() {
        kept.push(arrangement.regions[outer].duplicate());
        assert(arrangement::region_views(kept@) =~= seq![view.regions[outer as int]]);
    }
    let mut inference = "exterior loop ".to_owned();
    inference.append(decimal(outer).as_str());
    inference.append(" attributed to a solved carrier; ");
    inference.append(decimal(kept.len()).as_str());
    inference.append(" of ");
    inference.append(decimal(total).as_str());
    inference.append(" atomic regions retained");
    assert(arrangement::region_views(kept@).len() == kept@.len());
    ResolvedProfile { sketch: sketch.clone(), regions: kept, inference: Some(inference) }
}

proof fn kept_are_candidates(
    m: Arithmetic,
    arrangement: ArrangementView,
    candidates: Seq<RegionView>,
    frame: SketchFrame,
    span: (Scalar, Scalar),
    meridian: Option<MeridianView>,
    cuts: Seq<CutView>,
    n: int,
)
    requires
        0 <= n <= candidates.len(),
    ensures
        forall|region: RegionView| #[trigger]
            kept_regions(m, arrangement, candidates, frame, span, meridian, cuts, n).contains(
                region,
            ) <==> exists|k: int|
                0 <= k < n && #[trigger] candidates[k] == region && is_kept(
                    m,
                    arrangement,
                    region,
                    frame,
                    span,
                    meridian,
                    cuts,
                ),
    decreases n,
{
    let kept = kept_regions(m, arrangement, candidates, frame, span, meridian, cuts, n);
    if n > 0 {
        kept_are_candidates(m, arrangement, candidates, frame, span, meridian, cuts, n - 1);
        let rest = kept_regions(m, arrangement, candidates, frame, span, meridian, cuts, n - 1);
        let last = candidates[n - 1];
        if is_kept(m, arrangement, last, frame, span, meridian, cuts) {
            assert(kept[rest.len() as int] == last);
            assert forall|region: RegionView| #[trigger] kept.contains(region) <==> rest.contains(
                region,
            ) || region == last by {
                if rest.contains(region) {
                    let i = choose|i: int| 0 <= i < rest.len() && rest[i] == region;
                    assert(kept[i] == region);
                }
                if kept.contains(region) && region != last {
                    let i = choose|i: int| 0 <= i < kept.len() && kept[i] == region;
                    assert(rest[i] == region);
                }
            }
        }
    }
}

/// An inferred profile is never empty, is reported as inferred, and holds of the
/// regions within the exterior loop exactly the kept ones, unless none is kept
/// and the loop's own region stands in.
pub proof fn inference_keeps_what_is_solid(
    m: Arithmetic,
    sketch: Seq<char>,
    outer: usize,
    arrangement: ArrangementView,
    frame: SketchFrame,
    span: (Scalar, Scalar),
    meridian: Option<MeridianView>,
    cuts: Seq<CutView>,
)
    requires
        arrangement.sound(),
        outer < arrangement.regions.len(),
    ensures
        ({
            let profile = inferred(m, sketch, outer, arrangement, frame, span, meridian, cuts);
            let found = arrangement.within(outer as int);
            let some_kept = !none_kept(
                m,
                outer,
                arrangement,
                frame,
                span,
                meridian,
                cuts,
            );
            &&& profile.regions.len() > 0
            &&& profile.inference is Some
            &&& profile.sketch == sketch
            &&& some_kept ==> forall|region: RegionView| #[trigger]
                profile.regions.contains(region) <==> exists|k: int|
                    0 <= k < found.len() && #[trigger] found[k] == region && is_kept(
                        m,
                        arrangement,
                        region,
                        frame,
                        span,
                        meridian,
                        cuts,
                    )
            &&& !some_kept ==> profile.regions == seq![arrangement.regions[outer as int]]
        }),
{
    let found = arrangement.within(outer as int);
    kept_are_candidates(
        m,
        arrangement,
        found,
        frame,
        span,
        meridian,
        cuts,
        found.len() as int,
    );
    let kept = kept_regions(
        m,
        arrangement,
        found,
        frame,
        span,
        meridian,
        cuts,
        found.len() as int,
    );
    if kept.len() > 0 {
        assert(kept.contains(kept[0]));
    }
    assert forall|k: int|
        0 <= k < found.len() && is_kept(
            m,
            arrangement,
            #[trigger] found[k],
            frame,
            span,
            meridian,
            cuts,
        ) implies kept.len() > 0 by {
        assert(kept.contains(found[k]));
    }
}

/// Without a classifier an inferred profile keeps every region of its exterior
/// loop.
pub proof fn unclassified_keeps_all(
    m: Arithmetic,
    sketch: Seq<char>,
    outer: usize,
    arrangement: ArrangementView,
    frame: SketchFrame,
    span: (Scalar, Scalar),
    cuts: Seq<CutView>,
)
    ensures
        inferred(m, sketch, outer, arrangement, frame, span, None, cuts).regions
            == arrangement.within(outer as int),
{
    let found = arrangement.within(outer as int);
    kept_all(m, arrangement, found, frame, span, cuts, found.len() as int);
    assert(found.take(found.len() as int) =~= found);
}

proof fn kept_all(
    m: Arithmetic,
    arrangement: ArrangementView,
    candidates: Seq<RegionView>,
    frame: SketchFrame,
    span: (Scalar, Scalar),
    cuts: Seq<CutView>,
    n: int,
)
    requires
        0 <= n <= candidates.len(),
    ensures
        kept_regions(m, arrangement, candidates, frame, span, None, cuts, n) == candidates.take(n),
    decreases n,
{
    if n > 0 {
        kept_all(m, arrangement, candidates, frame, span, cuts, n - 1);
        assert(candidates.take(n) =~= candidates.take(n - 1).push(candidates[n - 1]));
    } else {
        assert(candidates.take(0) =~= Seq::empty());
    }
}

/// A resolved reference was read, never inferred, and a native selection is
/// never resolved.
pub proof fn resolution_is_read(
    profile: ProfileRef,
    arrangements: Map<Seq<char>, ArrangementView>,
)
    ensures
        resolution(profile, arrangements) matches Ok(resolved) ==> resolved.inference is None,
        profile is SketchSelection ==> resolution(profile, arrangements) is Err,
{
}

proof fn listed_without_trimmed(regions: Seq<SketchProfileRegion>, n: int)
    requires
        0 <= n <= regions.len(),
    ensures
        listed(regions, n) is None <==> exists|i: int|
            0 <= i < n && #[trigger] regions[i] is Trimmed,
    decreases n,
{
    if n > 0 {
        listed_without_trimmed(regions, n - 1);
        if listed(regions, n - 1) is None {
            let i = choose|i: int| 0 <= i < n - 1 && #[trigger] regions[i] is Trimmed;
            assert(regions[i] is Trimmed);
        } else if regions[n - 1] is Trimmed {
            assert(listed(regions, n) is None);
        }
    }
}

/// A list of regions is read exactly when none of them has trimmed boundaries.
pub proof fn trimmed_regions_are_refused(
    profile: ProfileRef,
    arrangements: Map<Seq<char>, ArrangementView>,
)
    ensures
        profile matches ProfileRef::SketchRegions { regions, .. } ==> if exists|i: int|
            0 <= i < regions@.len() && #[trigger] regions@[i] is Trimmed {
            resolution(profile, arrangements) == Err::<ProfileView, Seq<char>>(trimmed_reason())
        } else {
            resolution(profile, arrangements) is Ok
        },
{
    if let ProfileRef::SketchRegions { regions, .. } = profile {
        listed_without_trimmed(regions@, regions@.len() as int);
    }
}

} // verus!
