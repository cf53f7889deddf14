//! Attribution of solved carriers to profile loops.

use crate::arena;
use crate::arrangement::Arrangement;
use crate::arrangement;
use crate::frame::SketchFrame;
use crate::ir::{Model, SurfaceShape};
use crate::kernel::{Arithmetic, Kernel, ScalarOp, Vec3, VectorOp};
use crate::list::{copied, sort_stable, Ranked};
use crate::list;
use crate::ring::{Ring, RingView};
use crate::scalar::{Scalar, ZERO};
use crate::topo;
use crate::topo::Topology;
use vstd::hash_map::StringHashMap;
use vstd::prelude::*;

verus! {

/// Tolerance for matching a solved radius against a sketch radius, 1e-3.
pub const RADIUS_TOLERANCE: u64 = 0x3f50_624d_d2f1_a9fc;

/// Tolerance for matching a solved span against an expected one, 1e-3.
pub const SPAN_TOLERANCE: u64 = 0x3f50_624d_d2f1_a9fc;

/// What leaving a feature unattributed costs, 1e6.
pub const UNATTRIBUTED_COST: u64 = 0x412e_8480_0000_0000;

/// One candidate attribution of a solved carrier to a profile loop.
#[derive(Clone, Copy, PartialEq, Eq, Structural, Debug)]
pub struct Candidate {
    pub cost: Scalar,
    pub ring: usize,
    /// Place of the carrier in the surface arena.
    pub surface: usize,
}

impl Ranked for Candidate {
    open spec fn before(self, other: Candidate) -> bool {
        self.cost.total_rank() < other.cost.total_rank()
    }

    fn precedes(&self, other: &Candidate) -> bool {
        self.cost.total_lt(other.cost)
    }
}

// ---------------------------------------------------------------------------
// candidates
// ---------------------------------------------------------------------------

/// Whether a carrier is a cylinder about a circle's own axis with its radius.
pub open spec fn wraps(
    m: Arithmetic,
    model: Model,
    i: int,
    center: Vec3,
    radius: Scalar,
    normal: Vec3,
) -> bool {
    let tolerance = Scalar { bits: RADIUS_TOLERANCE };
    let geometry = model.surfaces@[i].geometry;
    match (geometry.shape, geometry.frame) {
        (SurfaceShape::Cylinder { radius: solved }, Some(frame)) => {
            &&& !tolerance.below(m.minus(solved, radius).unsigned())
            &&& m.is_parallel(frame.axis, normal)
            &&& !tolerance.below(
                m.length(m.reject(m.difference(frame.origin, center), frame.axis)),
            )
        },
        _ => false,
    }
}

/// Whether a solved span lies within an expected one, up to the tolerance.
pub open spec fn span_within(
    m: Arithmetic,
    solved: (Scalar, Scalar),
    expected: (Scalar, Scalar),
) -> bool {
    let tolerance = Scalar { bits: SPAN_TOLERANCE };
    &&& !solved.0.below(m.minus(expected.0, tolerance))
    &&& !m.plus(expected.1, tolerance).below(solved.1)
}

/// How far a solved span falls short of an expected one at its two ends.
pub open spec fn shortfall(
    m: Arithmetic,
    solved: (Scalar, Scalar),
    expected: (Scalar, Scalar),
) -> Scalar {
    m.plus(
        m.minus(solved.0, expected.0).unsigned(),
        m.minus(solved.1, expected.1).unsigned(),
    )
}

/// The attribution of a carrier to a circular ring, if the carrier could be the
/// ring's swept boundary.
pub open spec fn candidate_of(
    m: Arithmetic,
    model: Model,
    axis: Vec3,
    ring: RingView,
    frame: SketchFrame,
    span: (Scalar, Scalar),
    i: int,
) -> Option<Candidate> {
    match (ring.circle, topo::surface_span(m, model, model.surfaces@[i].id@, axis)) {
        (Some((center, radius)), Some(solved)) => if wraps(
            m,
            model,
            i,
            frame.model_point(m, center.0, center.1),
            radius,
            frame.normal,
        ) && span_within(m, solved, span) {
            Some(
                Candidate {
                    cost: shortfall(m, solved, span),
                    ring: ring.index,
                    surface: arena::position(
                        model.surfaces@,
                        model.surfaces@[i].id@,
                        model.surfaces@.len() as int,
                    )->0 as usize,
                },
            )
        } else {
            None
        },
        _ => None,
    }
}

/// The attributions of the first `n` carriers to a ring.
pub open spec fn candidates_of(
    m: Arithmetic,
    model: Model,
    axis: Vec3,
    ring: RingView,
    frame: SketchFrame,
    span: (Scalar, Scalar),
    n: int,
) -> Seq<Candidate>
    decreases n,
{
    if n <= 0 {
        Seq::empty()
    } else {
        let rest = candidates_of(m, model, axis, ring, frame, span, n - 1);
        match candidate_of(m, model, axis, ring, frame, span, n - 1) {
            Some(candidate) => rest.push(candidate),
            None => rest,
        }
    }
}

/// Solved carriers that could be the swept boundary of one ring.
pub fn ring_candidates<K: Kernel>(
    ring: &Ring,
    frame: &SketchFrame,
    span: (Scalar, Scalar),
    topo: &Topology,
    axis: Vec3,
    kernel: &K,
) -> (r: Vec<Candidate>)
    ensures
        r@ == candidates_of(
            kernel.model(),
            topo.model(),
            axis,
            ring@,
            *frame,
            span,
            topo.model().surfaces@.len() as int,
        ),
{
    let ghost m = kernel.model();
    let ghost model = topo.model();
    let mut out: Vec<Candidate> = Vec::new();
    let (center, radius) = match ring.circle {
        Some(circle) => circle,
        None => {
            proof {
                no_circle_no_candidates(
                    m,
                    model,
                    axis,
                    ring@,
                    *frame,
                    span,
                    model.surfaces@.len() as int,
                );
            }
            return out;
        },
    };
    let center = frame.to_model(center.0, center.1, kernel);
    let radius_tolerance = Scalar { bits: RADIUS_TOLERANCE };
    let span_tolerance = Scalar { bits: SPAN_TOLERANCE };
    let surfaces = topo.surfaces();
    let mut i: usize = 0;
    while i < surfaces.len()
        invariant
            i <= surfaces@.len(),
            m == kernel.model(),
            model == topo.model(),
            surfaces@ == model.surfaces@,
            ring.circle matches Some(circle) && circle.1 == radius && center
                == frame.model_point(m, circle.0.0, circle.0.1),
            radius_tolerance == (Scalar { bits: RADIUS_TOLERANCE }),
            span_tolerance == (Scalar { bits: SPAN_TOLERANCE }),
            out@ == candidates_of(m, model, axis, ring@, *frame, span, i as int),
        decreases surfaces@.len() - i,
    {
        let surface = &surfaces[i];
        let fits = match (surface.geometry.shape, surface.geometry.frame) {
            (SurfaceShape::Cylinder { radius: solved }, Some(own)) => {
                // The carrier axis must pass through the circle's own centre.
                !radius_tolerance.lt(kernel.minus(solved, radius).abs()) && kernel.parallel(
                    own.axis,
                    frame.normal,
                ) && !radius_tolerance.lt(
                    kernel.scalar(
                        ScalarOp::Length(
                            kernel.vector(
                                VectorOp::Reject(
                                    kernel.difference(own.origin, center),
                                    own.axis,
                                ),
                            ),
                        ),
                    ),
                )
            },
            _ => false,
        };
        assert(fits == wraps(m, model, i as int, center, radius, frame.normal));
        if fits {
            if let Some((low, high)) = topo.surface_span(surface.id.as_str(), axis, kernel) {
                // A later blend can trim the solved face, so containment is the
                // test rather than equality.
                if !low.lt(kernel.minus(span.0, span_tolerance)) && !kernel.plus(
                    span.1,
                    span_tolerance,
                ).lt(high) {
                    let place = match topo.surface_place(surface.id.as_str()) {
                        Some(place) => place,
                        None => i,
                    };
                    proof {
                        arena::position_is_last(
                            model.surfaces@,
                            surface.id@,
                            model.surfaces@.len() as int,
                        );
                    }
                    out.push(
                        Candidate {
                            cost: kernel.plus(
                                kernel.minus(low, span.0).abs(),
                                kernel.minus(high, span.1).abs(),
                            ),
                            ring: ring.index,
                            surface: place,
                        },
                    );
                }
            }
        }
        i += 1;
    }
    out
}

proof fn no_circle_no_candidates(
    m: Arithmetic,
    model: Model,
    axis: Vec3,
    ring: RingView,
    frame: SketchFrame,
    span: (Scalar, Scalar),
    n: int,
)
    requires
        ring.circle is None,
    ensures
        candidates_of(m, model, axis, ring, frame, span, n) == Seq::<Candidate>::empty(),
    decreases n,
{
    if n > 0 {
        no_circle_no_candidates(m, model, axis, ring, frame, span, n - 1);
    }
}

/// What a [`PendingExtrude`] holds.
#[verifier::ext_equal]
pub struct PendingView {
    pub id: Seq<char>,
    pub frame: SketchFrame,
    pub rings: Seq<RingView>,
    pub span: (Scalar, Scalar),
}

/// An extrude whose exterior loop is open.
pub struct PendingExtrude<'a> {
    pub id: &'a String,
    pub frame: SketchFrame,
    pub arrangement: &'a Arrangement,
    pub span: (Scalar, Scalar),
}

impl<'a> View for PendingExtrude<'a> {
    type V = PendingView;

    open spec fn view(&self) -> PendingView {
        PendingView {
            id: self.id@,
            frame: self.frame,
            rings: self.arrangement@.rings,
            span: self.span,
        }
    }
}

/// What some pending extrudes hold.
pub open spec fn pending_views<'a>(pending: Seq<PendingExtrude<'a>>) -> Seq<PendingView> {
    pending.map_values(|extrude: PendingExtrude<'a>| extrude@)
}

/// The attributions to the first `n` rings of an extrude.
pub open spec fn ring_by_ring(
    m: Arithmetic,
    model: Model,
    axis: Vec3,
    extrude: PendingView,
    n: int,
) -> Seq<Candidate>
    decreases n,
{
    if n <= 0 {
        Seq::empty()
    } else {
        ring_by_ring(m, model, axis, extrude, n - 1) + candidates_of(
            m,
            model,
            axis,
            extrude.rings[n - 1],
            extrude.frame,
            extrude.span,
            model.surfaces@.len() as int,
        )
    }
}

/// The attributions to an extrude, cheapest first.
pub open spec fn options_of(m: Arithmetic, model: Model, axis: Vec3, extrude: PendingView) -> Seq<
    Candidate,
> {
    let found = ring_by_ring(m, model, axis, extrude, extrude.rings.len() as int);
    list::stable_order(found, found.len() as int)
}

/// The attributions to each extrude.
pub open spec fn all_options(
    m: Arithmetic,
    model: Model,
    axis: Vec3,
    pending: Seq<PendingView>,
) -> Seq<Seq<Candidate>> {
    pending.map_values(|extrude: PendingView| options_of(m, model, axis, extrude))
}

// ---------------------------------------------------------------------------
// the search
// ---------------------------------------------------------------------------

/// A finished assignment: what it costs and the ring of each feature.
pub type Assignment = Option<(Scalar, Seq<Option<usize>>)>;

/// Whether all candidates name carriers in use.
pub open spec fn all_used(candidates: Seq<Candidate>, used: Seq<usize>) -> bool {
    forall|k: int| 0 <= k < candidates.len() ==> used.contains((#[trigger] candidates[k]).surface)
}

/// The best assignment known once a partial one has been completed in every way
/// that may still improve on the best known before.
pub open spec fn explore(
    m: Arithmetic,
    options: Seq<Seq<Candidate>>,
    depth: int,
    used: Seq<usize>,
    current: Seq<Option<usize>>,
    cost: Scalar,
    best: Assignment,
) -> Assignment
    decreases options.len() - depth, options[depth].len() + 1,
    when 0 <= depth
{
    if best matches Some(known) && known.0.at_most(cost) {
        best
    } else if depth >= options.len() {
        Some((cost, current))
    } else if all_used(options[depth], used) {
        explore(
            m,
            options,
            depth + 1,
            used,
            current.push(None),
            m.plus(cost, Scalar { bits: UNATTRIBUTED_COST }),
            best,
        )
    } else {
        explore_first(m, options, depth, used, current, cost, best, options[depth].len() as int)
    }
}

/// The best assignment known once the first `n` candidates of a feature have
/// been tried.
pub open spec fn explore_first(
    m: Arithmetic,
    options: Seq<Seq<Candidate>>,
    depth: int,
    used: Seq<usize>,
    current: Seq<Option<usize>>,
    cost: Scalar,
    best: Assignment,
    n: int,
) -> Assignment
    decreases options.len() - depth, n,
    when 0 <= depth < options.len() && n <= options[depth].len()
{
    if n <= 0 {
        best
    } else {
        let known = explore_first(m, options, depth, used, current, cost, best, n - 1);
        let candidate = options[depth][n - 1];
        if used.contains(candidate.surface) {
            known
        } else {
            explore(
                m,
                options,
                depth + 1,
                used.push(candidate.surface),
                current.push(Some(candidate.ring)),
                m.plus(cost, candidate.cost),
                known,
            )
        }
    }
}

/// What a best assignment holds.
pub open spec fn assignment_view(best: Option<(Scalar, Vec<Option<usize>>)>) -> Assignment {
    match best {
        Some((cost, rings)) => Some((cost, rings@)),
        None => None,
    }
}

/// What the candidates of some features hold.
pub open spec fn option_views(options: Seq<Vec<Candidate>>) -> Seq<Seq<Candidate>> {
    options.map_values(|candidates: Vec<Candidate>| candidates@)
}

fn in_use(used: &Vec<usize>, surface: usize) -> (r: bool)
    ensures
        r == used@.contains(surface),
{
    let mut i: usize = 0;
    while i < used.len()
        invariant
            i <= used@.len(),
            forall|j: int| 0 <= j < i ==> used@[j] != surface,
        decreases used@.len() - i,
    {
        if used[i] == surface {
            return true;
        }
        i += 1;
    }
    false
}

/// Completes a partial assignment in every way that may improve on the best.
pub fn search<K: Kernel>(
    candidates: &Vec<Vec<Candidate>>,
    depth: usize,
    used: &mut Vec<usize>,
    current: &mut Vec<Option<usize>>,
    cost: Scalar,
    best: &mut Option<(Scalar, Vec<Option<usize>>)>,
    kernel: &K,
)
    requires
        depth <= candidates@.len(),
    ensures
        final(used)@ == old(used)@,
        final(current)@ == old(current)@,
        assignment_view(*final(best)) == explore(
            kernel.model(),
            option_views(candidates@),
            depth as int,
            old(used)@,
            old(current)@,
            cost,
            assignment_view(*old(best)),
        ),
    decreases candidates@.len() - depth,
{
    let ghost m = kernel.model();
    let ghost options = option_views(candidates@);
    let ghost used_before = used@;
    let ghost current_before = current@;
    let ghost best_before = assignment_view(*best);
    let pruned = match &*best {
        Some((best_cost, _)) => best_cost.le(cost),
        None => false,
    };
    if pruned {
        return;
    }
    let total: usize = candidates.len();
    if depth == total {
        *best = Some((cost, copied(&*current)));
        return;
    }
    assert(options[depth as int] == candidates@[depth as int]@);
    let mut placed = false;
    let mut k: usize = 0;
    while k < candidates[depth].len()
        invariant
            depth < total,
            total == candidates@.len(),
            k <= candidates@[depth as int]@.len(),
            m == kernel.model(),
            options == option_views(candidates@),
            options[depth as int] == candidates@[depth as int]@,
            used@ == used_before,
            current@ == current_before,
            !placed ==> forall|j: int|
                0 <= j < k ==> used_before.contains(
                    (#[trigger] options[depth as int][j]).surface,
                ),
            placed ==> !all_used(options[depth as int], used_before),
            assignment_view(*best) == explore_first(
                m,
                options,
                depth as int,
                used_before,
                current_before,
                cost,
                best_before,
                k as int,
            ),
            !placed ==> assignment_view(*best) == best_before,
        decreases candidates@[depth as int]@.len() - k,
    {
        let candidate = candidates[depth][k];
        if !in_use(&*used, candidate.surface) {
            placed = true;
            assert(!used_before.contains(options[depth as int][k as int].surface));
            used.push(candidate.surface);
            current.push(Some(candidate.ring));
            search(
                candidates,
                depth + 1,
                used,
                current,
                kernel.plus(cost, candidate.cost),
                best,
                kernel,
            );
            current.pop();
            used.pop();
            assert(used@ =~= used_before);
            assert(current@ =~= current_before);
        }
        k += 1;
    }
    if !placed {
        // Leaving a feature unattributed is allowed, but costs more than any
        // real assignment so it is only chosen when nothing else fits.
        assert(all_used(options[depth as int], used_before));
        current.push(None);
        search(
            candidates,
            depth + 1,
            used,
            current,
            kernel.plus(cost, Scalar { bits: UNATTRIBUTED_COST }),
            best,
            kernel,
        );
        current.pop();
        assert(current@ =~= current_before);
    }
}

/// The ring attributed to each identity: the assignments of the first `n`
/// features, entered one after the other.
pub open spec fn attributed(
    ids: Seq<Seq<char>>,
    rings: Seq<Option<usize>>,
    n: int,
) -> Map<Seq<char>, usize>
    decreases n,
{
    if n <= 0 {
        Map::empty()
    } else {
        let rest = attributed(ids, rings, n - 1);
        match rings[n - 1] {
            Some(ring) => rest.insert(ids[n - 1], ring),
            None => rest,
        }
    }
}

/// The identities of some pending extrudes.
pub open spec fn pending_ids(pending: Seq<PendingView>) -> Seq<Seq<char>> {
    pending.map_values(|extrude: PendingView| extrude.id)
}

/// The best complete assignment of carriers to extrudes.
pub open spec fn best_assignment(
    m: Arithmetic,
    model: Model,
    axis: Vec3,
    pending: Seq<PendingView>,
) -> Assignment {
    explore(
        m,
        all_options(m, model, axis, pending),
        0,
        Seq::empty(),
        Seq::empty(),
        Scalar { bits: ZERO },
        None,
    )
}

/// The exterior loop attributed to each extrude.
pub open spec fn outer_rings(
    m: Arithmetic,
    model: Model,
    axis: Vec3,
    pending: Seq<PendingView>,
) -> Map<Seq<char>, usize> {
    match best_assignment(m, model, axis, pending) {
        Some((_, rings)) => attributed(pending_ids(pending), rings, pending.len() as int),
        None => Map::empty(),
    }
}

/// The attributions to an extrude, cheapest first.
fn options<K: Kernel>(extrude: &PendingExtrude, topo: &Topology, axis: Vec3, kernel: &K) -> (r: Vec<
    Candidate,
>)
    ensures
        r@ == options_of(kernel.model(), topo.model(), axis, extrude@),
{
    let ghost view = extrude@;
    let mut found: Vec<Candidate> = Vec::new();
    let rings = &extrude.arrangement.rings;
    let mut i: usize = 0;
    while i < rings.len()
        invariant
            i <= rings@.len(),
            view == extrude@,
            view.rings == arrangement::ring_views(rings@),
            found@ == ring_by_ring(kernel.model(), topo.model(), axis, view, i as int),
        decreases rings@.len() - i,
    {
        assert(view.rings[i as int] == rings@[i as int]@);
        let mut more = ring_candidates(&rings[i], &extrude.frame, extrude.span, topo, axis, kernel);
        found.append(&mut more);
        i += 1;
    }
    let sorted = sort_stable(&found);
    let mut out: Vec<Candidate> = Vec::new();
    let mut k: usize = 0;
    while k < sorted.len()
        invariant
            k <= sorted@.len(),
            out@ =~= sorted@.unref().take(k as int),
        decreases sorted@.len() - k,
    {
        out.push(*sorted[k]);
        k += 1;
    }
    assert(sorted@.unref().take(k as int) =~= sorted@.unref());
    out
}

/// Attributes one solved lateral carrier to each extrude, globally.
///
/// A solved face is created by exactly one feature, so this is an assignment
/// problem rather than a per-feature nearest match. Choosing independently lets
/// a shallow cut claim the carrier a deeper extrude needs, which then leaves the
/// deeper one with nothing.
///
/// Returns the chosen ring index per feature id.
pub fn assign_outer_rings<K: Kernel>(
    features: &Vec<PendingExtrude>,
    topo: &Topology,
    axis: Vec3,
    kernel: &K,
) -> (r: StringHashMap<usize>)
    ensures
        r@ == outer_rings(kernel.model(), topo.model(), axis, pending_views(features@)),
{
    let ghost m = kernel.model();
    let ghost model = topo.model();
    let ghost views = pending_views(features@);
    let mut per_feature: Vec<Vec<Candidate>> = Vec::new();
    let mut i: usize = 0;
    while i < features.len()
        invariant
            i <= features@.len(),
            m == kernel.model(),
            model == topo.model(),
            views == pending_views(features@),
            option_views(per_feature@) =~= all_options(m, model, axis, views).take(i as int),
        decreases features@.len() - i,
    {
        let ghost before = option_views(per_feature@);
        assert(views[i as int] == features@[i as int]@);
        let candidates = options(&features[i], topo, axis, kernel);
        per_feature.push(candidates);
        assert(option_views(per_feature@) =~= before.push(
            options_of(m, model, axis, views[i as int]),
        ));
        i += 1;
    }
    assert(option_views(per_feature@) =~= all_options(m, model, axis, views));
    let mut best: Option<(Scalar, Vec<Option<usize>>)> = None;
    let mut used: Vec<usize> = Vec::new();
    let mut current: Vec<Option<usize>> = Vec::new();
    search(&per_feature, 0, &mut used, &mut current, Scalar { bits: ZERO }, &mut best, kernel);
    let mut out: StringHashMap<usize> = StringHashMap::new();
    proof {
        search_answers_each(
            m,
            all_options(m, model, axis, views),
            0,
            Seq::empty(),
            Seq::empty(),
            Scalar { bits: ZERO },
            None,
        );
    }
    if let Some((_, assignment)) = best {
        let ghost ids = pending_ids(views);
        let mut k: usize = 0;
        while k < features.len()
            invariant
                k <= features@.len(),
                views == pending_views(features@),
                ids == pending_ids(views),
                assignment@.len() == features@.len(),
                out@ == attributed(ids, assignment@, k as int),
            decreases features@.len() - k,
        {
            assert(ids[k as int] == features@[k as int].id@);
            if let Some(ring) = assignment[k] {
                out.insert(features[k].id.clone(), ring);
            }
            k += 1;
        }
    }
    out
}

// ---------------------------------------------------------------------------
// laws of the search
// ---------------------------------------------------------------------------

/// Whether each ring of an assignment belongs to a candidate of its feature.
pub open spec fn offered(options: Seq<Seq<Candidate>>, rings: Seq<Option<usize>>) -> bool {
    forall|d: int|
        0 <= d < rings.len() ==> (#[trigger] rings[d] matches Some(ring) ==> exists|k: int|
            0 <= k < options[d].len() && (#[trigger] options[d][k]).ring == ring)
}

/// A search that starts from sensible assignments ends in one: every feature
/// has an answer, and a ring it is given comes from one of its candidates.
pub proof fn search_answers_each(
    m: Arithmetic,
    options: Seq<Seq<Candidate>>,
    depth: int,
    used: Seq<usize>,
    current: Seq<Option<usize>>,
    cost: Scalar,
    best: Assignment,
)
    requires
        0 <= depth <= options.len(),
        current.len() == depth,
        offered(options, current),
        best matches Some(known) ==> known.1.len() == options.len() && offered(options, known.1),
    ensures
        explore(m, options, depth, used, current, cost, best) matches Some(found) && found.1.len()
            == options.len() && offered(options, found.1),
    decreases options.len() - depth, options[depth].len() + 1,
{
    if best matches Some(known) && known.0.at_most(cost) {
    } else if depth >= options.len() {
    } else if all_used(options[depth], used) {
        search_answers_each(
            m,
            options,
            depth + 1,
            used,
            current.push(None),
            m.plus(cost, Scalar { bits: UNATTRIBUTED_COST }),
            best,
        );
    } else {
        search_tries_each(m, options, depth, used, current, cost, best, options[depth].len() as int);
    }
}

proof fn search_tries_each(
    m: Arithmetic,
    options: Seq<Seq<Candidate>>,
    depth: int,
    used: Seq<usize>,
    current: Seq<Option<usize>>,
    cost: Scalar,
    best: Assignment,
    n: int,
)
    requires
        0 <= depth < options.len(),
        0 <= n <= options[depth].len(),
        current.len() == depth,
        offered(options, current),
        best matches Some(known) ==> known.1.len() == options.len() && offered(options, known.1),
    ensures
        ({
            let r = explore_first(m, options, depth, used, current, cost, best, n);
            &&& r matches Some(found) ==> found.1.len() == options.len() && offered(
                options,
                found.1,
            )
            &&& r is None ==> forall|k: int|
                0 <= k < n ==> used.contains((#[trigger] options[depth][k]).surface)
        }),
    decreases options.len() - depth, n,
{
    if n > 0 {
        search_tries_each(m, options, depth, used, current, cost, best, n - 1);
        let known = explore_first(m, options, depth, used, current, cost, best, n - 1);
        let candidate = options[depth][n - 1];
        if !used.contains(candidate.surface) {
            let next = current.push(Some(candidate.ring));
            assert(offered(options, next)) by {
                assert forall|d: int| 0 <= d < next.len() implies (#[trigger] next[d] matches Some(
                    ring,
                ) ==> exists|k: int|
                    0 <= k < options[d].len() && (#[trigger] options[d][k]).ring == ring) by {
                    if d == depth {
                        assert(options[d][n - 1].ring == candidate.ring);
                    } else {
                        assert(next[d] == current[d]);
                    }
                }
            }
            search_answers_each(
                m,
                options,
                depth + 1,
                used.push(candidate.surface),
                next,
                m.plus(cost, candidate.cost),
                known,
            );
        }
    }
}

/// The carriers the first `n` choices take, a choice being the place of a
/// candidate in its feature's list.
pub open spec fn taken(options: Seq<Seq<Candidate>>, choice: Seq<Option<int>>, n: int) -> Seq<usize>
    decreases n,
{
    if n <= 0 {
        Seq::empty()
    } else {
        match choice[n - 1] {
            Some(k) => taken(options, choice, n - 1).push(options[n - 1][k].surface),
            None => taken(options, choice, n - 1),
        }
    }
}

/// What the first `n` choices cost together.
pub open spec fn total(
    m: Arithmetic,
    options: Seq<Seq<Candidate>>,
    choice: Seq<Option<int>>,
    n: int,
) -> Scalar
    decreases n,
{
    if n <= 0 {
        Scalar { bits: ZERO }
    } else {
        match choice[n - 1] {
            Some(k) => m.plus(total(m, options, choice, n - 1), options[n - 1][k].cost),
            None => m.plus(
                total(m, options, choice, n - 1),
                Scalar { bits: UNATTRIBUTED_COST },
            ),
        }
    }
}

/// The ring each of the first `n` choices gives its feature.
pub open spec fn chosen_rings(
    options: Seq<Seq<Candidate>>,
    choice: Seq<Option<int>>,
    n: int,
) -> Seq<Option<usize>>
    decreases n,
{
    if n <= 0 {
        Seq::empty()
    } else {
        chosen_rings(options, choice, n - 1).push(
            match choice[n - 1] {
                Some(k) => Some(options[n - 1][k].ring),
                None => None,
            },
        )
    }
}

/// Whether choices never take a carrier twice, and leave a feature out only
/// where earlier choices took all its carriers.
pub open spec fn admissible(options: Seq<Seq<Candidate>>, choice: Seq<Option<int>>) -> bool {
    &&& choice.len() <= options.len()
    &&& forall|d: int|
        0 <= d < choice.len() ==> match #[trigger] choice[d] {
            Some(k) => 0 <= k < options[d].len() && !taken(options, choice, d).contains(
                options[d][k].surface,
            ),
            None => all_used(options[d], taken(options, choice, d)),
        }
}

/// Whether choices settle every feature, as some first choices do.
pub open spec fn completes(
    options: Seq<Seq<Candidate>>,
    first: Seq<Option<int>>,
    choice: Seq<Option<int>>,
) -> bool {
    &&& admissible(options, choice)
    &&& choice.len() == options.len()
    &&& first.len() <= choice.len()
    &&& forall|i: int| 0 <= i < first.len() ==> #[trigger] choice[i] == first[i]
}

/// Whether choices take an earlier candidate where they first differ.
pub open spec fn tried_before(a: Seq<Option<int>>, b: Seq<Option<int>>) -> bool {
    exists|d: int| #[trigger] differs_at(a, b, d)
}

/// Whether two choices agree before place `d`, where the first takes the earlier
/// candidate.
pub open spec fn differs_at(a: Seq<Option<int>>, b: Seq<Option<int>>, d: int) -> bool {
    &&& 0 <= d < a.len()
    &&& d < b.len()
    &&& forall|i: int| 0 <= i < d ==> #[trigger] a[i] == b[i]
    &&& a[d] matches Some(i) && b[d] matches Some(j) && i < j
}

/// Whether a value is a number and not negative.
pub open spec fn weighs(value: Scalar) -> bool {
    !value.nan() && value.rank() >= 0
}

/// Whether adding weights never makes a sum smaller.
pub open spec fn adds_up(m: Arithmetic) -> bool {
    forall|a: Scalar, b: Scalar|
        weighs(a) && weighs(b) ==> weighs(#[trigger] m.plus(a, b)) && a.at_most(m.plus(a, b))
}

/// Whether every candidate has a weight for a cost.
pub open spec fn priced(options: Seq<Seq<Candidate>>) -> bool {
    forall|d: int, k: int|
        0 <= d < options.len() && 0 <= k < options[d].len() ==> weighs(
            (#[trigger] options[d][k]).cost,
        )
}

proof fn prefix_decides(
    m: Arithmetic,
    options: Seq<Seq<Candidate>>,
    a: Seq<Option<int>>,
    b: Seq<Option<int>>,
    n: int,
)
    requires
        n <= a.len(),
        n <= b.len(),
        forall|i: int| 0 <= i < n ==> #[trigger] a[i] == b[i],
    ensures
        taken(options, a, n) == taken(options, b, n),
        total(m, options, a, n) == total(m, options, b, n),
        chosen_rings(options, a, n) == chosen_rings(options, b, n),
    decreases n,
{
    if n > 0 {
        prefix_decides(m, options, a, b, n - 1);
        assert(a[n - 1] == b[n - 1]);
    }
}

proof fn total_grows(
    m: Arithmetic,
    options: Seq<Seq<Candidate>>,
    choice: Seq<Option<int>>,
    d: int,
    n: int,
)
    requires
        adds_up(m),
        priced(options),
        admissible(options, choice),
        0 <= d <= n <= choice.len(),
    ensures
        weighs(total(m, options, choice, d)),
        weighs(total(m, options, choice, n)),
        total(m, options, choice, d).at_most(total(m, options, choice, n)),
    decreases n,
{
    if n > 0 {
        let before = total(m, options, choice, n - 1);
        if d < n {
            total_grows(m, options, choice, d, n - 1);
        } else {
            total_grows(m, options, choice, n - 1, n - 1);
        }
        match choice[n - 1] {
            Some(k) => {
                assert(weighs(options[n - 1][k].cost));
            },
            None => {
                assert(weighs(Scalar { bits: UNATTRIBUTED_COST }));
            },
        }
    }
}

/// The completions of some first choices; with `n` not negative those that then
/// take one of the first `n` candidates.
spec fn in_pool(
    options: Seq<Seq<Candidate>>,
    first: Seq<Option<int>>,
    n: int,
    choice: Seq<Option<int>>,
) -> bool {
    &&& completes(options, first, choice)
    &&& n < 0 || (choice[first.len() as int] matches Some(k) && k < n)
}

/// Whether a result is the cheapest of a pool and what was known before, the
/// earlier one among equals.
spec fn best_of(
    m: Arithmetic,
    options: Seq<Seq<Candidate>>,
    first: Seq<Option<int>>,
    n: int,
    best: Assignment,
    r: Assignment,
) -> bool {
    let all = options.len() as int;
    &&& r matches Some(found) ==> !found.0.nan()
    &&& best matches Some(known) ==> (r matches Some(found) && found.0.at_most(known.0))
    &&& forall|q: Seq<Option<int>>| #[trigger]
        in_pool(options, first, n, q) ==> (r matches Some(found) && found.0.at_most(
            total(m, options, q, all),
        ))
    &&& r == best || exists|q: Seq<Option<int>>| #[trigger] is_pick(m, options, first, n, best, r, q)
}

/// Whether a result is what some choices of a pool cost and give, all tried
/// earlier being dearer.
spec fn is_pick(
    m: Arithmetic,
    options: Seq<Seq<Candidate>>,
    first: Seq<Option<int>>,
    n: int,
    best: Assignment,
    r: Assignment,
    q: Seq<Option<int>>,
) -> bool {
    let all = options.len() as int;
    &&& in_pool(options, first, n, q)
    &&& r == Some((total(m, options, q, all), chosen_rings(options, q, all)))
    &&& best matches Some(known) ==> total(m, options, q, all).below(known.0)
    &&& forall|o: Seq<Option<int>>| #[trigger]
        in_pool(options, first, n, o) && tried_before(o, q) ==> total(m, options, q, all).below(
            total(m, options, o, all),
        )
}

proof fn explore_finds_best(
    m: Arithmetic,
    options: Seq<Seq<Candidate>>,
    first: Seq<Option<int>>,
    best: Assignment,
)
    requires
        adds_up(m),
        priced(options),
        admissible(options, first),
        best matches Some(known) ==> !known.0.nan(),
    ensures
        best_of(
            m,
            options,
            first,
            -1,
            best,
            explore(
                m,
                options,
                first.len() as int,
                taken(options, first, first.len() as int),
                chosen_rings(options, first, first.len() as int),
                total(m, options, first, first.len() as int),
                best,
            ),
        ),
    decreases options.len() - first.len(), options[first.len() as int].len() + 1,
{
    let depth = first.len() as int;
    let all = options.len() as int;
    let used = taken(options, first, depth);
    let current = chosen_rings(options, first, depth);
    let cost = total(m, options, first, depth);
    let r = explore(m, options, depth, used, current, cost, best);
    total_grows(m, options, first, depth, depth);
    if best matches Some(known) && known.0.at_most(cost) {
        assert forall|q: Seq<Option<int>>| #[trigger] in_pool(options, first, -1, q) implies (
        r matches Some(found) && found.0.at_most(total(m, options, q, all))) by {
            prefix_decides(m, options, first, q, depth);
            total_grows(m, options, q, depth, all);
        }
    } else if depth >= options.len() {
        assert forall|q: Seq<Option<int>>| #[trigger] in_pool(options, first, -1, q) implies q
            == first by {
            assert(q =~= first);
        }
        assert(in_pool(options, first, -1, first));
        assert forall|o: Seq<Option<int>>| #[trigger]
            in_pool(options, first, -1, o) && tried_before(o, first) implies cost.below(
            total(m, options, o, all),
        ) by {
            let d = choose|d: int| #[trigger] differs_at(o, first, d);
            assert(differs_at(first, first, d));
        }
        assert(is_pick(m, options, first, -1, best, r, first));
    } else if all_used(options[depth], used) {
        let next = first.push(None);
        admissible_grows(m, options, first, None);
        explore_finds_best(m, options, next, best);
        assert forall|q: Seq<Option<int>>| #[trigger] in_pool(options, first, -1, q) <==> in_pool(
            options,
            next,
            -1,
            q,
        ) by {
            if in_pool(options, first, -1, q) {
                prefix_decides(m, options, first, q, depth);
                assert(q[depth] is None) by {
                    if let Some(k) = q[depth] {
                        assert(used.contains(options[depth][k].surface));
                    }
                }
                assert forall|i: int| 0 <= i < next.len() implies #[trigger] q[i] == next[i] by {
                    if i < depth {
                        assert(q[i] == first[i]);
                    }
                }
            }
            if in_pool(options, next, -1, q) {
                assert forall|i: int| 0 <= i < first.len() implies #[trigger] q[i] == first[i] by {
                    assert(q[i] == next[i]);
                }
            }
        }
        if r != best {
            let q = choose|q: Seq<Option<int>>| #[trigger]
                is_pick(m, options, next, -1, best, r, q);
            assert(in_pool(options, first, -1, q));
            assert forall|o: Seq<Option<int>>| #[trigger]
                in_pool(options, first, -1, o) && tried_before(o, q) implies total(
                m,
                options,
                q,
                all,
            ).below(total(m, options, o, all)) by {
                assert(in_pool(options, next, -1, o));
            }
            assert(is_pick(m, options, first, -1, best, r, q));
        }
        assert forall|q: Seq<Option<int>>| #[trigger] in_pool(options, first, -1, q) implies (
        r matches Some(found) && found.0.at_most(total(m, options, q, all))) by {
            assert(in_pool(options, next, -1, q));
        }
    } else {
        let n = options[depth].len() as int;
        first_find_best(m, options, first, best, n);
        assert forall|q: Seq<Option<int>>| #[trigger] in_pool(options, first, -1, q) <==> in_pool(
            options,
            first,
            n,
            q,
        ) by {
            if in_pool(options, first, -1, q) {
                prefix_decides(m, options, first, q, depth);
                assert(q[depth] is Some);
            }
        }
        if r != best {
            let q = choose|q: Seq<Option<int>>| #[trigger]
                is_pick(m, options, first, n, best, r, q);
            assert(in_pool(options, first, -1, q));
            assert forall|o: Seq<Option<int>>| #[trigger]
                in_pool(options, first, -1, o) && tried_before(o, q) implies total(
                m,
                options,
                q,
                all,
            ).below(total(m, options, o, all)) by {
                assert(in_pool(options, first, n, o));
            }
            assert(is_pick(m, options, first, -1, best, r, q));
        }
        assert forall|q: Seq<Option<int>>| #[trigger] in_pool(options, first, -1, q) implies (
        r matches Some(found) && found.0.at_most(total(m, options, q, all))) by {
            assert(in_pool(options, first, n, q));
        }
    }
}

proof fn first_find_best(
    m: Arithmetic,
    options: Seq<Seq<Candidate>>,
    first: Seq<Option<int>>,
    best: Assignment,
    n: int,
)
    requires
        adds_up(m),
        priced(options),
        admissible(options, first),
        first.len() < options.len(),
        0 <= n <= options[first.len() as int].len(),
        best matches Some(known) ==> !known.0.nan(),
    ensures
        best_of(
            m,
            options,
            first,
            n,
            best,
            explore_first(
                m,
                options,
                first.len() as int,
                taken(options, first, first.len() as int),
                chosen_rings(options, first, first.len() as int),
                total(m, options, first, first.len() as int),
                best,
                n,
            ),
        ),
    decreases options.len() - first.len(), n,
{
    let depth = first.len() as int;
    let all = options.len() as int;
    let used = taken(options, first, depth);
    let current = chosen_rings(options, first, depth);
    let cost = total(m, options, first, depth);
    let r = explore_first(m, options, depth, used, current, cost, best, n);
    if n > 0 {
        first_find_best(m, options, first, best, n - 1);
        let known = explore_first(m, options, depth, used, current, cost, best, n - 1);
        let candidate = options[depth][n - 1];
        if used.contains(candidate.surface) {
            assert forall|q: Seq<Option<int>>| #[trigger] in_pool(options, first, n, q) <==> in_pool(
                options,
                first,
                n - 1,
                q,
            ) by {
                if in_pool(options, first, n, q) {
                    prefix_decides(m, options, first, q, depth);
                    assert(q[depth] is Some);
                }
            }
            if r != best {
                let q = choose|q: Seq<Option<int>>| #[trigger]
                    is_pick(m, options, first, n - 1, best, r, q);
                assert(in_pool(options, first, n, q));
                assert forall|o: Seq<Option<int>>| #[trigger]
                    in_pool(options, first, n, o) && tried_before(o, q) implies total(
                    m,
                    options,
                    q,
                    all,
                ).below(total(m, options, o, all)) by {
                    assert(in_pool(options, first, n - 1, o));
                }
                assert(is_pick(m, options, first, n, best, r, q));
            }
            assert forall|q: Seq<Option<int>>| #[trigger] in_pool(options, first, n, q) implies (
            r matches Some(found) && found.0.at_most(total(m, options, q, all))) by {
                assert(in_pool(options, first, n - 1, q));
            }
        } else {
            let next = first.push(Some(n - 1));
            admissible_grows(m, options, first, Some(n - 1));
            explore_finds_best(m, options, next, known);
            pools_join(m, options, first, best, known, r, n);
        }
    }
}

/// The best of the first candidates, improved on by the next one, is the best
/// of them all.
proof fn pools_join(
    m: Arithmetic,
    options: Seq<Seq<Candidate>>,
    first: Seq<Option<int>>,
    best: Assignment,
    known: Assignment,
    r: Assignment,
    n: int,
)
    requires
        adds_up(m),
        priced(options),
        admissible(options, first),
        first.len() < options.len(),
        0 < n <= options[first.len() as int].len(),
        best_of(m, options, first, n - 1, best, known),
        best_of(m, options, first.push(Some(n - 1)), -1, known, r),
    ensures
        best_of(m, options, first, n, best, r),
{
    let depth = first.len() as int;
    let all = options.len() as int;
    let next = first.push(Some(n - 1));
    assert forall|q: Seq<Option<int>>| #[trigger] in_pool(options, first, n, q) <==> in_pool(
        options,
        first,
        n - 1,
        q,
    ) || in_pool(options, next, -1, q) by {
        if in_pool(options, first, n, q) && !in_pool(options, first, n - 1, q) {
            assert(q[depth] == Some(n - 1));
            assert forall|i: int| 0 <= i < next.len() implies #[trigger] q[i] == next[i] by {
                if i < depth {
                    assert(q[i] == first[i]);
                }
            }
        }
        if in_pool(options, next, -1, q) {
            assert(q[depth] == next[depth]);
            assert forall|i: int| 0 <= i < first.len() implies #[trigger] q[i] == first[i] by {
                assert(q[i] == next[i]);
            }
        }
    }
    assert forall|q: Seq<Option<int>>| #[trigger] in_pool(options, first, n, q) implies (
    r matches Some(found) && found.0.at_most(total(m, options, q, all))) by {
        if in_pool(options, next, -1, q) {
        } else {
            assert(in_pool(options, first, n - 1, q));
            assert(known is Some);
        }
    }
    if r == known {
        if known != best {
            let q = choose|q: Seq<Option<int>>| #[trigger]
                is_pick(m, options, first, n - 1, best, known, q);
            assert(in_pool(options, first, n, q));
            assert forall|o: Seq<Option<int>>| #[trigger]
                in_pool(options, first, n, o) && tried_before(o, q) implies total(
                m,
                options,
                q,
                all,
            ).below(total(m, options, o, all)) by {
                if in_pool(options, next, -1, o) {
                    let d = choose|d: int| #[trigger] differs_at(o, q, d);
                    assert(o[depth] == next[depth]);
                    if d < depth {
                        assert(o[d] == next[d]);
                        assert(q[d] == first[d]);
                    } else if d > depth {
                        assert(o[depth] == q[depth]);
                    }
                    assert(false);
                } else {
                    assert(in_pool(options, first, n - 1, o));
                }
            }
            assert(is_pick(m, options, first, n, best, r, q));
        }
    } else {
        let q = choose|q: Seq<Option<int>>| #[trigger] is_pick(m, options, next, -1, known, r, q);
        assert(in_pool(options, next, -1, q));
        assert(in_pool(options, first, n, q));
        let price = total(m, options, q, all);
        assert forall|o: Seq<Option<int>>| #[trigger]
            in_pool(options, first, n, o) && tried_before(o, q) implies price.below(
            total(m, options, o, all),
        ) by {
            if in_pool(options, next, -1, o) {
            } else {
                assert(in_pool(options, first, n - 1, o));
                assert(known matches Some(k) && price.below(k.0) && k.0.at_most(
                    total(m, options, o, all),
                ));
            }
        }
        assert(is_pick(m, options, first, n, best, r, q));
    }
}

/// The assignment found is a best one: it belongs to admissible choices for all
/// features, no admissible choices cost less, and those tried earlier all cost
/// more. This asks that costs are numbers that are not negative, and that
/// adding such numbers never gives less than the first of them.
pub proof fn assignment_is_cheapest(
    m: Arithmetic,
    options: Seq<Seq<Candidate>>,
)
    requires
        adds_up(m),
        priced(options),
    ensures
        ({
            let all = options.len() as int;
            let found = explore(
                m,
                options,
                0,
                Seq::empty(),
                Seq::empty(),
                Scalar { bits: ZERO },
                None,
            );
            exists|choice: Seq<Option<int>>|
                {
                    &&& #[trigger] completes(options, Seq::empty(), choice)
                    &&& found == Some(
                        (total(m, options, choice, all), chosen_rings(options, choice, all)),
                    )
                    &&& forall|other: Seq<Option<int>>| #[trigger]
                        completes(options, Seq::empty(), other) ==> {
                            &&& total(m, options, choice, all).at_most(
                                total(m, options, other, all),
                            )
                            &&& tried_before(other, choice) ==> total(
                                m,
                                options,
                                choice,
                                all,
                            ).below(total(m, options, other, all))
                        }
                }
        }),
{
    let none = Seq::<Option<int>>::empty();
    let all = options.len() as int;
    explore_finds_best(m, options, none, None);
    let r = explore(m, options, 0, Seq::empty(), Seq::empty(), Scalar { bits: ZERO }, None);
    search_answers_each(
        m,
        options,
        0,
        Seq::empty(),
        Seq::empty(),
        Scalar { bits: ZERO },
        None,
    );
    let q = choose|q: Seq<Option<int>>| #[trigger] is_pick(m, options, none, -1, None, r, q);
    assert(completes(options, none, q));
    assert forall|other: Seq<Option<int>>| #[trigger] completes(options, none, other) implies {
        &&& total(m, options, q, all).at_most(total(m, options, other, all))
        &&& tried_before(other, q) ==> total(m, options, q, all).below(
            total(m, options, other, all),
        )
    } by {
        assert(in_pool(options, none, -1, other));
    }
}

// ---------------------------------------------------------------------------
// how many features are attributed
// ---------------------------------------------------------------------------

/// How many of the first `n` choices leave their feature out.
pub open spec fn left_out(choice: Seq<Option<int>>, n: int) -> int
    decreases n,
{
    if n <= 0 {
        0
    } else if choice[n - 1] is None {
        left_out(choice, n - 1) + 1
    } else {
        left_out(choice, n - 1)
    }
}

/// What the candidates among the first `n` choices are worth together.
pub open spec fn worth(
    options: Seq<Seq<Candidate>>,
    value: spec_fn(Scalar) -> int,
    choice: Seq<Option<int>>,
    n: int,
) -> int
    decreases n,
{
    if n <= 0 {
        0
    } else {
        match choice[n - 1] {
            Some(k) => worth(options, value, choice, n - 1) + value(options[n - 1][k].cost),
            None => worth(options, value, choice, n - 1),
        }
    }
}

/// Whether whole numbers tell what choices cost: they keep the order of weights,
/// what choices cost together is worth the sum of what each costs, no candidate is
/// worth less than nothing, and leaving one feature out is worth more than all
/// candidates that can be chosen together.
pub open spec fn is_measured(
    m: Arithmetic,
    options: Seq<Seq<Candidate>>,
    value: spec_fn(Scalar) -> int,
) -> bool {
    let omission = value(Scalar { bits: UNATTRIBUTED_COST });
    let all = options.len() as int;
    &&& forall|a: Scalar, b: Scalar|
        weighs(a) && weighs(b) && a.at_most(b) ==> #[trigger] value(a) <= #[trigger] value(b)
    &&& forall|choice: Seq<Option<int>>| #[trigger]
        completes(options, Seq::empty(), choice) ==> {
            &&& value(total(m, options, choice, all)) == worth(options, value, choice, all)
                + left_out(choice, all) * omission
            &&& 0 <= worth(options, value, choice, all) < omission
        }
}

/// Whether choices name candidates, and never two of one carrier.
pub open spec fn is_attribution(options: Seq<Seq<Candidate>>, choice: Seq<Option<int>>) -> bool {
    &&& choice.len() == options.len()
    &&& forall|d: int|
        0 <= d < choice.len() ==> (#[trigger] choice[d] matches Some(k) ==> 0 <= k
            < options[d].len())
    &&& forall|d: int, e: int|
        0 <= d < e < choice.len() && (#[trigger] choice[d]) is Some && (
        #[trigger] choice[e]) is Some ==> options[d][choice[d]->0].surface
            != options[e][choice[e]->0].surface
}

/// What is taken was taken by one of the choices.
pub proof fn taken_by_someone(
    options: Seq<Seq<Candidate>>,
    choice: Seq<Option<int>>,
    n: int,
    surface: usize,
)
    requires
        0 <= n <= choice.len(),
    ensures
        taken(options, choice, n).contains(surface) <==> exists|d: int|
            0 <= d < n && (#[trigger] choice[d] matches Some(k) && options[d][k].surface
                == surface),
    decreases n,
{
    if n > 0 {
        taken_by_someone(options, choice, n - 1, surface);
        let rest = taken(options, choice, n - 1);
        let now = taken(options, choice, n);
        if rest.contains(surface) {
            let i = choose|i: int| 0 <= i < rest.len() && rest[i] == surface;
            assert(now[i] == surface);
        }
        if now.contains(surface) && !rest.contains(surface) {
            let i = choose|i: int| 0 <= i < now.len() && now[i] == surface;
            if i < rest.len() {
                assert(rest[i] == surface);
            }
            assert(choice[n - 1] matches Some(k) && options[n - 1][k].surface == surface);
        }
        if choice[n - 1] matches Some(k) && options[n - 1][k].surface == surface {
            assert(now[rest.len() as int] == surface);
        }
    }
}

proof fn left_out_after(
    choice: Seq<Option<int>>,
    at: int,
    step: Option<int>,
    n: int,
)
    requires
        0 <= at < choice.len(),
        0 <= n <= choice.len(),
    ensures
        left_out(choice.update(at, step), n) == left_out(choice, n) + if at >= n {
            0int
        } else if choice[at] is None && step is Some {
            -1
        } else if choice[at] is Some && step is None {
            1
        } else {
            0
        },
    decreases n,
{
    if n > 0 {
        left_out_after(choice, at, step, n - 1);
    }
}

/// Whether the first `n` choices leave a feature out only where those before took
/// all its carriers.
spec fn is_thorough(options: Seq<Seq<Candidate>>, choice: Seq<Option<int>>, n: int) -> bool {
    forall|d: int|
        0 <= d < n && (#[trigger] choice[d]) is None ==> all_used(
            options[d],
            taken(options, choice, d),
        )
}

/// An attribution can be made thorough without leaving out more features.
proof fn attribution_is_matched(
    m: Arithmetic,
    options: Seq<Seq<Candidate>>,
    choice: Seq<Option<int>>,
    n: int,
) -> (r: Seq<Option<int>>)
    requires
        is_attribution(options, choice),
        0 <= n <= options.len(),
    ensures
        is_attribution(options, r),
        is_thorough(options, r, n),
        left_out(r, options.len() as int) <= left_out(choice, options.len() as int),
    decreases n,
{
    let all = options.len() as int;
    if n <= 0 {
        choice
    } else {
        let before = attribution_is_matched(m, options, choice, n - 1);
        let d = n - 1;
        if before[d] is Some || all_used(options[d], taken(options, before, d)) {
            before
        } else {
            let k = choose|k: int|
                0 <= k < options[d].len() && !taken(options, before, d).contains(
                    (#[trigger] options[d][k]).surface,
                );
            let surface = options[d][k].surface;
            taken_by_someone(options, before, d, surface);
            let settled = before.update(d, Some(k));
            left_out_after(before, d, Some(k), all);
            let r = if exists|j: int|
                d < j < all && (#[trigger] before[j] matches Some(l) && options[j][l].surface
                    == surface) {
                let j = choose|j: int|
                    d < j < all && (#[trigger] before[j] matches Some(l) && options[j][l].surface
                        == surface);
                left_out_after(settled, j, None, all);
                settled.update(j, None)
            } else {
                settled
            };
            assert forall|e: int| 0 <= e < d implies #[trigger] r[e] == before[e] by {}
            assert forall|e: int| 0 <= e < n && (#[trigger] r[e]) is None implies all_used(
                options[e],
                taken(options, r, e),
            ) by {
                assert(r[e] == before[e]);
                prefix_decides(m, options, r, before, e);
            }
            assert forall|a: int, b: int|
                0 <= a < b < r.len() && (#[trigger] r[a]) is Some && (
                #[trigger] r[b]) is Some implies options[a][r[a]->0].surface
                != options[b][r[b]->0].surface by {
                if b == d {
                    assert(r[a] == before[a]);
                    assert(before[a] matches Some(l) ==> options[a][l].surface != surface);
                } else if a == d {
                    assert(r[b] == before[b]);
                    if options[b][before[b]->0].surface == surface {
                        let j = choose|j: int|
                            d < j < all && (#[trigger] before[j] matches Some(l)
                                && options[j][l].surface == surface);
                        if j != b {
                            if j < b {
                                assert(before[j] is Some && before[b] is Some);
                            } else {
                                assert(before[b] is Some && before[j] is Some);
                            }
                        }
                    }
                } else {
                    assert(r[a] == before[a] && r[b] == before[b]);
                }
            }
            r
        }
    }
}

/// A thorough attribution of all features is one the search considers.
proof fn thorough_is_admissible(options: Seq<Seq<Candidate>>, choice: Seq<Option<int>>)
    requires
        is_attribution(options, choice),
        is_thorough(options, choice, options.len() as int),
    ensures
        completes(options, Seq::empty(), choice),
{
    assert forall|d: int| 0 <= d < choice.len() implies match #[trigger] choice[d] {
        Some(k) => 0 <= k < options[d].len() && !taken(options, choice, d).contains(
            options[d][k].surface,
        ),
        None => all_used(options[d], taken(options, choice, d)),
    } by {
        if let Some(k) = choice[d] {
            taken_by_someone(options, choice, d, options[d][k].surface);
            assert forall|e: int| 0 <= e < d implies !(#[trigger] choice[e] matches Some(l)
                && options[e][l].surface == options[d][k].surface) by {
                assert(choice[d] is Some);
            }
        }
    }
}

/// No attribution, whether or not the search considers it, attributes more
/// features than the one found. This asks, besides what makes the one found a
/// cheapest, that costs can be measured.
pub proof fn no_attribution_covers_more(
    m: Arithmetic,
    options: Seq<Seq<Candidate>>,
    value: spec_fn(Scalar) -> int,
    other: Seq<Option<int>>,
)
    requires
        adds_up(m),
        priced(options),
        is_measured(m, options, value),
        is_attribution(options, other),
    ensures
        ({
            let all = options.len() as int;
            let found = explore(
                m,
                options,
                0,
                Seq::empty(),
                Seq::empty(),
                Scalar { bits: ZERO },
                None,
            );
            exists|choice: Seq<Option<int>>| #[trigger]
                is_earned(m, options, choice, found) && left_out(choice, all) <= left_out(
                    other,
                    all,
                )
        }),
{
    let all = options.len() as int;
    let found = explore(m, options, 0, Seq::empty(), Seq::empty(), Scalar { bits: ZERO }, None);
    assignment_is_cheapest(m, options);
    let choice = choose|choice: Seq<Option<int>>|
        {
            &&& #[trigger] completes(options, Seq::empty(), choice)
            &&& found == Some(
                (total(m, options, choice, all), chosen_rings(options, choice, all)),
            )
            &&& forall|rival: Seq<Option<int>>| #[trigger]
                completes(options, Seq::empty(), rival) ==> {
                    &&& total(m, options, choice, all).at_most(total(m, options, rival, all))
                    &&& tried_before(rival, choice) ==> total(m, options, choice, all).below(
                        total(m, options, rival, all),
                    )
                }
        };
    let rival = attribution_is_matched(m, options, other, all);
    thorough_is_admissible(options, rival);
    assert(is_earned(m, options, choice, found));
    totals_weigh(m, options, choice, all);
    totals_weigh(m, options, rival, all);
    let omission = value(Scalar { bits: UNATTRIBUTED_COST });
    let here = left_out(choice, all);
    let there = left_out(rival, all);
    assert(value(total(m, options, choice, all)) <= value(total(m, options, rival, all)));
    if here > there {
        assert(here * omission >= (there + 1) * omission) by (nonlinear_arith)
            requires
                here >= there + 1,
                omission > 0,
        ;
        assert((there + 1) * omission == there * omission + omission) by (nonlinear_arith);
    }
}

proof fn totals_weigh(
    m: Arithmetic,
    options: Seq<Seq<Candidate>>,
    choice: Seq<Option<int>>,
    n: int,
)
    requires
        adds_up(m),
        priced(options),
        admissible(options, choice),
        0 <= n <= choice.len(),
    ensures
        weighs(total(m, options, choice, n)),
    decreases n,
{
    if n > 0 {
        totals_weigh(m, options, choice, n - 1);
        assert(weighs(Scalar { bits: UNATTRIBUTED_COST }));
        if let Some(k) = choice[n - 1] {
            assert(weighs(options[n - 1][k].cost));
        }
    }
}

/// Whether a result is what some choices for all features cost and give.
pub open spec fn is_earned(
    m: Arithmetic,
    options: Seq<Seq<Candidate>>,
    choice: Seq<Option<int>>,
    r: Assignment,
) -> bool {
    let all = options.len() as int;
    &&& completes(options, Seq::empty(), choice)
    &&& r == Some((total(m, options, choice, all), chosen_rings(options, choice, all)))
}

/// Whether a result, if there is one, belongs to some choices.
spec fn earned(m: Arithmetic, options: Seq<Seq<Candidate>>, r: Assignment) -> bool {
    r is Some ==> exists|choice: Seq<Option<int>>| #[trigger] is_earned(m, options, choice, r)
}

/// One more choice that follows the rules keeps choices admissible.
proof fn admissible_grows(
    m: Arithmetic,
    options: Seq<Seq<Candidate>>,
    first: Seq<Option<int>>,
    step: Option<int>,
)
    requires
        admissible(options, first),
        first.len() < options.len(),
        match step {
            Some(k) => 0 <= k < options[first.len() as int].len() && !taken(
                options,
                first,
                first.len() as int,
            ).contains(options[first.len() as int][k].surface),
            None => all_used(
                options[first.len() as int],
                taken(options, first, first.len() as int),
            ),
        },
    ensures
        admissible(options, first.push(step)),
        taken(options, first.push(step), first.len() as int) == taken(
            options,
            first,
            first.len() as int,
        ),
        total(m, options, first.push(step), first.len() as int) == total(
            m,
            options,
            first,
            first.len() as int,
        ),
        chosen_rings(options, first.push(step), first.len() as int) == chosen_rings(
            options,
            first,
            first.len() as int,
        ),
{
    let depth = first.len() as int;
    let next = first.push(step);
    prefix_decides(m, options, first, next, depth);
    assert forall|d: int| 0 <= d < next.len() implies match #[trigger] next[d] {
        Some(k) => 0 <= k < options[d].len() && !taken(options, next, d).contains(
            options[d][k].surface,
        ),
        None => all_used(options[d], taken(options, next, d)),
    } by {
        prefix_decides(m, options, first, next, d);
        if d < depth {
            assert(next[d] == first[d]);
        }
    }
}

proof fn explore_earns(
    m: Arithmetic,
    options: Seq<Seq<Candidate>>,
    first: Seq<Option<int>>,
    best: Assignment,
)
    requires
        admissible(options, first),
        earned(m, options, best),
    ensures
        earned(
            m,
            options,
            explore(
                m,
                options,
                first.len() as int,
                taken(options, first, first.len() as int),
                chosen_rings(options, first, first.len() as int),
                total(m, options, first, first.len() as int),
                best,
            ),
        ),
    decreases options.len() - first.len(), options[first.len() as int].len() + 1,
{
    let depth = first.len() as int;
    let used = taken(options, first, depth);
    let cost = total(m, options, first, depth);
    if best matches Some(known) && known.0.at_most(cost) {
    } else if depth >= options.len() {
        let current = chosen_rings(options, first, depth);
        assert(is_earned(m, options, first, Some((cost, current))));
    } else if all_used(options[depth], used) {
        admissible_grows(m, options, first, None);
        explore_earns(m, options, first.push(None), best);
    } else {
        first_earn(m, options, first, best, options[depth].len() as int);
    }
}

proof fn first_earn(
    m: Arithmetic,
    options: Seq<Seq<Candidate>>,
    first: Seq<Option<int>>,
    best: Assignment,
    n: int,
)
    requires
        admissible(options, first),
        first.len() < options.len(),
        0 <= n <= options[first.len() as int].len(),
        earned(m, options, best),
    ensures
        earned(
            m,
            options,
            explore_first(
                m,
                options,
                first.len() as int,
                taken(options, first, first.len() as int),
                chosen_rings(options, first, first.len() as int),
                total(m, options, first, first.len() as int),
                best,
                n,
            ),
        ),
    decreases options.len() - first.len(), n,
{
    let depth = first.len() as int;
    let used = taken(options, first, depth);
    let current = chosen_rings(options, first, depth);
    let cost = total(m, options, first, depth);
    if n > 0 {
        first_earn(m, options, first, best, n - 1);
        let known = explore_first(m, options, depth, used, current, cost, best, n - 1);
        if !used.contains(options[depth][n - 1].surface) {
            admissible_grows(m, options, first, Some(n - 1));
            explore_earns(m, options, first.push(Some(n - 1)), known);
        }
    }
}

/// Whether no two choices take one carrier.
pub open spec fn carriers_differ(
    options: Seq<Seq<Candidate>>,
    choice: Seq<Option<int>>,
) -> bool {
    forall|c: int, d: int|
        0 <= c < d < choice.len() ==> (#[trigger] choice[c] matches Some(i) ==> (
        #[trigger] choice[d] matches Some(j) ==> options[c][i].surface != options[d][j].surface))
}

/// No carrier is attributed to two features, whatever the costs: the assignment
/// found belongs to choices among the candidates that take no carrier twice, and
/// that leave a feature out only where all its carriers are taken.
pub proof fn no_carrier_twice(m: Arithmetic, options: Seq<Seq<Candidate>>)
    ensures
        exists|choice: Seq<Option<int>>|
            {
                &&& #[trigger] is_earned(
                    m,
                    options,
                    choice,
                    explore(
                        m,
                        options,
                        0,
                        Seq::empty(),
                        Seq::empty(),
                        Scalar { bits: ZERO },
                        None,
                    ),
                )
                &&& carriers_differ(options, choice)
            },
{
    let none = Seq::<Option<int>>::empty();
    let r = explore(m, options, 0, Seq::empty(), Seq::empty(), Scalar { bits: ZERO }, None);
    explore_earns(m, options, none, None);
    search_answers_each(
        m,
        options,
        0,
        Seq::empty(),
        Seq::empty(),
        Scalar { bits: ZERO },
        None,
    );
    let choice = choose|choice: Seq<Option<int>>| #[trigger] is_earned(m, options, choice, r);
    assert(carriers_differ(options, choice)) by {
        assert forall|c: int, d: int| 0 <= c < d < choice.len() implies (
        #[trigger] choice[c] matches Some(i) ==> (#[trigger] choice[d] matches Some(j)
            ==> options[c][i].surface != options[d][j].surface)) by {
            if choice[c] is Some && choice[d] is Some {
                taken_holds(options, choice, c, d);
            }
        }
    }
}

proof fn taken_holds(options: Seq<Seq<Candidate>>, choice: Seq<Option<int>>, c: int, n: int)
    requires
        0 <= c < n <= choice.len(),
        choice[c] is Some,
    ensures
        taken(options, choice, n).contains(options[c][choice[c]->0].surface),
    decreases n,
{
    let surface = options[c][choice[c]->0].surface;
    let now = taken(options, choice, n);
    let before = taken(options, choice, n - 1);
    if c < n - 1 {
        taken_holds(options, choice, c, n - 1);
        let i = choose|i: int| 0 <= i < before.len() && before[i] == surface;
        assert(now[i] == surface);
    } else {
        assert(now[before.len() as int] == surface);
    }
}

} // verus!
