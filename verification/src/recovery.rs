//! What the recovered selections are, in terms of the body they are read from.

use crate::arena;
use crate::arena::Identified;
use crate::arrangement::{ArrangementView, RegionView};
use crate::assign;
use crate::assign::{Candidate, PendingView};
use crate::blend;
use crate::blend::EdgeCircle;
use crate::frame::SketchFrame;
use crate::ir::{Face, Model, SurfaceFrame, SurfaceGeometry};
use crate::kernel::{Arithmetic, Vec3};
use crate::list;
use crate::list::Ranked;
use crate::meridian::MeridianView;
use crate::profile;
use crate::profile::CutView;
use crate::ring;
use crate::ring::RingView;
use crate::scalar::{Scalar, ONE};
use crate::text;
use crate::topo;
use crate::vectors;
use vstd::prelude::*;

verus! {

// ---------------------------------------------------------------------------
// regions
// ---------------------------------------------------------------------------

/// Whether a model point lies over a sketch point, half way along a span.
pub open spec fn is_over(
    m: Arithmetic,
    f: SketchFrame,
    span: (Scalar, Scalar),
    at: (Scalar, Scalar),
    probe: Vec3,
) -> bool {
    &&& m.dot(m.difference(probe, f.origin), f.x_axis) == at.0
    &&& m.dot(m.difference(probe, f.origin), f.y_axis) == at.1
    &&& m.dot(probe, f.normal) == m.midpoint(span.0, span.1)
}

/// Whether a cut removes a model point: its station along the cut's own normal
/// lies in the span swept, up to the slack, and its place in the cut's own sketch
/// lies inside the loop swept.
pub open spec fn is_cut_away(m: Arithmetic, cut: CutView, probe: Vec3) -> bool {
    let station = m.dot(probe, cut.frame.normal);
    let delta = m.difference(probe, cut.frame.origin);
    &&& !station.below(m.minus(cut.span.0, m.direction_tolerance))
    &&& !m.plus(cut.span.1, m.direction_tolerance).below(station)
    &&& ring::inside(
        m,
        cut.ring,
        (m.dot(delta, cut.frame.x_axis), m.dot(delta, cut.frame.y_axis)),
    )
}

/// Whether a step along a frame's normal is measured as the laws of sums and
/// multiples say, and ends where it is meant to.
pub open spec fn rises_to(m: Arithmetic, f: SketchFrame, point: Vec3, station: Scalar) -> bool {
    let height = m.minus(station, m.dot(point, f.normal));
    let end = m.sum(point, m.scale(f.normal, height));
    &&& m.dot(end, f.normal) == m.plus(
        m.dot(point, f.normal),
        m.dot(m.scale(f.normal, height), f.normal),
    )
    &&& vectors::scale_law(m, f.normal, height, f.normal)
    &&& m.plus(m.dot(point, f.normal), m.times(height, Scalar { bits: ONE })) == station
}

/// A region is kept or dropped by what is found at one point: the point over its
/// own sample, half way along the span. It is kept if the solid holds that point or
/// a later cut removes it.
pub proof fn region_is_tested_over_its_sample(
    m: Arithmetic,
    arrangement: ArrangementView,
    region: RegionView,
    f: SketchFrame,
    span: (Scalar, Scalar),
    solid: MeridianView,
    cuts: Seq<CutView>,
    at: (Scalar, Scalar),
)
    requires
        arrangement.sample_point(m, region) == Some(at),
        vectors::is_orthonormal(m, f),
        ({
            let point = m.sum(
                m.sum(f.origin, m.scale(f.x_axis, at.0)),
                m.scale(f.y_axis, at.1),
            );
            let station = m.midpoint(span.0, span.1);
            let height = m.minus(station, m.dot(point, f.normal));
            &&& rises_to(m, f, point, station)
            &&& vectors::is_linear_off(m, f, at.0, at.1, height, f.x_axis)
            &&& vectors::is_linear_off(m, f, at.0, at.1, height, f.y_axis)
            &&& vectors::number_law(m, at.0, at.1)
            &&& vectors::number_law(m, at.1, at.0)
            &&& vectors::number_law(m, at.0, height)
            &&& vectors::number_law(m, at.1, height)
        }),
    ensures
        exists|probe: Vec3| #[trigger]
            is_over(m, f, span, at, probe) && profile::is_kept(
                m,
                arrangement,
                region,
                f,
                span,
                Some(solid),
                cuts,
            ) == (solid.has_inside(m, probe) || exists|c: int|
                0 <= c < cuts.len() && is_cut_away(m, #[trigger] cuts[c], probe)),
{
    let point = m.sum(m.sum(f.origin, m.scale(f.x_axis, at.0)), m.scale(f.y_axis, at.1));
    let station = m.midpoint(span.0, span.1);
    let height = m.minus(station, m.dot(point, f.normal));
    let probe = m.sum(point, m.scale(f.normal, height));
    vectors::sketch_ignores_height(m, f, at.0, at.1, height);
    assert(is_over(m, f, span, at, probe));
    if exists|c: int| 0 <= c < cuts.len() && is_cut_away(m, #[trigger] cuts[c], probe) {
        let c = choose|c: int| 0 <= c < cuts.len() && is_cut_away(m, #[trigger] cuts[c], probe);
        assert(cuts[c].has_inside(m, probe));
    }
    if profile::covered(m, cuts, probe) {
        let c = choose|c: int| 0 <= c < cuts.len() && (#[trigger] cuts[c]).has_inside(m, probe);
        assert(is_cut_away(m, cuts[c], probe));
    }
}

/// Where that point lies in the solid does not change what is kept: a region whose
/// point is cut away later is kept in any case, and one without a point never is.
/// Without a solid to test against every region is.
pub proof fn later_cuts_keep_regions(
    m: Arithmetic,
    arrangement: ArrangementView,
    region: RegionView,
    f: SketchFrame,
    span: (Scalar, Scalar),
    solid: MeridianView,
    cuts: Seq<CutView>,
    more: CutView,
)
    ensures
        profile::is_kept(m, arrangement, region, f, span, None, cuts),
        arrangement.sample_point(m, region) is None ==> !profile::is_kept(
            m,
            arrangement,
            region,
            f,
            span,
            Some(solid),
            cuts,
        ),
        profile::is_kept(m, arrangement, region, f, span, Some(solid), cuts)
            ==> profile::is_kept(
            m,
            arrangement,
            region,
            f,
            span,
            Some(solid),
            cuts.push(more),
        ),
{
    if let Some(at) = arrangement.sample_point(m, region) {
        let probe = profile::column_middle(m, at, f, span);
        if profile::covered(m, cuts, probe) {
            let c = choose|c: int| 0 <= c < cuts.len() && (#[trigger] cuts[c]).has_inside(m, probe);
            assert(cuts.push(more)[c].has_inside(m, probe));
        }
    }
}

proof fn kept_regions_are_filtered(
    m: Arithmetic,
    arrangement: ArrangementView,
    candidates: Seq<RegionView>,
    f: SketchFrame,
    span: (Scalar, Scalar),
    solid: Option<MeridianView>,
    cuts: Seq<CutView>,
    n: int,
)
    requires
        0 <= n <= candidates.len(),
    ensures
        profile::kept_regions(m, arrangement, candidates, f, span, solid, cuts, n)
            == candidates.take(n).filter(
            |region: RegionView| profile::is_kept(m, arrangement, region, f, span, solid, cuts),
        ),
    decreases n,
{
    let keep = |region: RegionView|
        profile::is_kept(m, arrangement, region, f, span, solid, cuts);
    reveal(Seq::filter);
    if n > 0 {
        kept_regions_are_filtered(m, arrangement, candidates, f, span, solid, cuts, n - 1);
        assert(candidates.take(n).drop_last() =~= candidates.take(n - 1));
        assert(candidates.take(n).last() == candidates[n - 1]);
    } else {
        assert(candidates.take(n) =~= Seq::empty());
    }
}

/// An inferred profile holds, in order, those regions within its exterior loop
/// that are kept, or the loop's own region where none is. It is reported with the
/// loop, how many regions were retained and how many there are.
pub proof fn inference_filters_regions(
    m: Arithmetic,
    sketch: Seq<char>,
    outer: usize,
    arrangement: ArrangementView,
    f: SketchFrame,
    span: (Scalar, Scalar),
    solid: Option<MeridianView>,
    cuts: Seq<CutView>,
)
    ensures
        ({
            let found = arrangement.within(outer as int);
            let kept = found.filter(
                |region: RegionView|
                    profile::is_kept(m, arrangement, region, f, span, solid, cuts),
            );
            let profile = profile::inferred(
                m,
                sketch,
                outer,
                arrangement,
                f,
                span,
                solid,
                cuts,
            );
            &&& profile.sketch == sketch
            &&& kept.len() > 0 ==> profile.regions == kept
            &&& kept.len() == 0 ==> profile.regions == seq![arrangement.regions[outer as int]]
            &&& profile.inference == Some(
                "exterior loop "@ + text::digits(outer as nat)
                    + " attributed to a solved carrier; "@ + text::digits(profile.regions.len())
                    + " of "@ + text::digits(found.len()) + " atomic regions retained"@,
            )
        }),
{
    let found = arrangement.within(outer as int);
    kept_regions_are_filtered(m, arrangement, found, f, span, solid, cuts, found.len() as int);
    assert(found.take(found.len() as int) =~= found);
}

// ---------------------------------------------------------------------------
// carriers
// ---------------------------------------------------------------------------

/// Whether a carrier could be the wall a circle sweeps: a cylinder of the circle's
/// radius about the line through its centre along the plane's normal, as far as
/// the tolerances go, that reaches no farther than the sweep.
pub open spec fn is_wall_of(
    m: Arithmetic,
    geometry: SurfaceGeometry,
    solved: (Scalar, Scalar),
    f: SketchFrame,
    center: (Scalar, Scalar),
    radius: Scalar,
    span: (Scalar, Scalar),
) -> bool {
    let slack = Scalar { bits: 0x3f50_624d_d2f1_a9fc };
    let middle = m.sum(
        m.sum(f.origin, m.scale(f.x_axis, center.0)),
        m.scale(f.y_axis, center.1),
    );
    &&& geometry.frame is Some
    &&& geometry.shape is Cylinder
    &&& !slack.below(m.minus(geometry.shape->Cylinder_radius, radius).unsigned())
    &&& m.is_parallel(geometry.frame->0.axis, f.normal)
    &&& !slack.below(
        m.length(
            m.reject(m.difference(geometry.frame->0.origin, middle), geometry.frame->0.axis),
        ),
    )
    &&& !solved.0.below(m.minus(span.0, slack))
    &&& !m.plus(span.1, slack).below(solved.1)
}

/// What it costs to take a carrier for the wall of a sweep: how far it falls short
/// at the lower end and at the upper one.
pub open spec fn falls_short_by(
    m: Arithmetic,
    solved: (Scalar, Scalar),
    span: (Scalar, Scalar),
) -> Scalar {
    m.plus(m.minus(solved.0, span.0).unsigned(), m.minus(solved.1, span.1).unsigned())
}

/// A carrier is a candidate for a ring exactly if the ring is a circle and the
/// carrier could be the wall it sweeps. The candidate names the ring and the
/// carrier, and costs what the carrier falls short by.
pub proof fn candidate_is_a_wall(
    m: Arithmetic,
    model: Model,
    axis: Vec3,
    ring: RingView,
    f: SketchFrame,
    span: (Scalar, Scalar),
    i: int,
)
    requires
        0 <= i < model.surfaces@.len(),
    ensures
        ({
            let surface = model.surfaces@[i];
            let reach = topo::surface_span(m, model, surface.id@, axis);
            match assign::candidate_of(m, model, axis, ring, f, span, i) {
                Some(found) => {
                    &&& ring.circle is Some
                    &&& reach is Some
                    &&& is_wall_of(
                        m,
                        surface.geometry,
                        reach->0,
                        f,
                        (ring.circle->0).0,
                        (ring.circle->0).1,
                        span,
                    )
                    &&& found.ring == ring.index
                    &&& found.cost == falls_short_by(m, reach->0, span)
                    &&& i <= found.surface < model.surfaces@.len()
                    &&& model.surfaces@[found.surface as int].id@ == surface.id@
                    &&& forall|j: int|
                        found.surface < j < model.surfaces@.len() ==> (
                        #[trigger] model.surfaces@[j]).id@ != surface.id@
                },
                None => ring.circle is None || reach is None || !is_wall_of(
                    m,
                    surface.geometry,
                    reach->0,
                    f,
                    (ring.circle->0).0,
                    (ring.circle->0).1,
                    span,
                ),
            }
        }),
{
    let surfaces = model.surfaces@;
    let all = surfaces.len() as int;
    assert(model.surfaces.len() == all);
    assert(surfaces[i].key() == surfaces[i].id@);
    arena::position_is_last(surfaces, surfaces[i].id@, all);
    if let Some(at) = arena::position(surfaces, surfaces[i].id@, all) {
        assert(surfaces[at].key() == surfaces[at].id@);
        assert forall|j: int| at < j < all implies (#[trigger] surfaces[j]).id@ != surfaces[i].id@ by {
            assert(surfaces[j].key() == surfaces[j].id@);
        }
        if i > at {
            assert(surfaces[i].key() != surfaces[i].id@);
        }
    }
}

/// The candidates of a ring are those of the carriers, carrier by carrier.
pub proof fn candidates_run_by_carrier(
    m: Arithmetic,
    model: Model,
    axis: Vec3,
    ring: RingView,
    f: SketchFrame,
    span: (Scalar, Scalar),
    n: int,
)
    requires
        0 <= n < model.surfaces@.len(),
    ensures
        assign::candidates_of(m, model, axis, ring, f, span, 0).len() == 0,
        assign::candidates_of(m, model, axis, ring, f, span, n + 1) == match assign::candidate_of(
            m,
            model,
            axis,
            ring,
            f,
            span,
            n,
        ) {
            Some(found) => assign::candidates_of(m, model, axis, ring, f, span, n).push(found),
            None => assign::candidates_of(m, model, axis, ring, f, span, n),
        },
{
}

/// Whether a carrier could be the wall a loop of an open extrude sweeps.
pub open spec fn is_wall(
    m: Arithmetic,
    model: Model,
    axis: Vec3,
    extrude: PendingView,
    j: int,
    i: int,
) -> bool {
    let reach = topo::surface_span(m, model, model.surfaces@[i].id@, axis);
    &&& 0 <= j < extrude.rings.len()
    &&& 0 <= i < model.surfaces@.len()
    &&& extrude.rings[j].circle is Some
    &&& reach is Some
    &&& is_wall_of(
        m,
        model.surfaces@[i].geometry,
        reach->0,
        extrude.frame,
        (extrude.rings[j].circle->0).0,
        (extrude.rings[j].circle->0).1,
        extrude.span,
    )
}

/// Whether a candidate stands for a wall.
pub open spec fn stands_for(
    m: Arithmetic,
    model: Model,
    axis: Vec3,
    extrude: PendingView,
    candidate: Candidate,
    j: int,
    i: int,
) -> bool {
    let reach = topo::surface_span(m, model, model.surfaces@[i].id@, axis);
    &&& is_wall(m, model, axis, extrude, j, i)
    &&& candidate.ring == extrude.rings[j].index
    &&& candidate.cost == falls_short_by(m, reach->0, extrude.span)
    &&& candidate.surface < model.surfaces@.len()
    &&& model.surfaces@[candidate.surface as int].id@ == model.surfaces@[i].id@
}

/// Whether a candidate stands for some wall of an open extrude.
pub open spec fn stands_for_a_wall(
    m: Arithmetic,
    model: Model,
    axis: Vec3,
    extrude: PendingView,
    candidate: Candidate,
) -> bool {
    exists|j: int, i: int| #[trigger] stands_for(m, model, axis, extrude, candidate, j, i)
}

/// Whether one of some candidates stands for a wall.
pub open spec fn is_offered(
    m: Arithmetic,
    model: Model,
    axis: Vec3,
    extrude: PendingView,
    candidates: Seq<Candidate>,
    j: int,
    i: int,
) -> bool {
    exists|k: int|
        0 <= k < candidates.len() && stands_for(
            m,
            model,
            axis,
            extrude,
            #[trigger] candidates[k],
            j,
            i,
        )
}

proof fn candidates_are_all(
    m: Arithmetic,
    model: Model,
    axis: Vec3,
    ring: RingView,
    f: SketchFrame,
    span: (Scalar, Scalar),
    n: int,
    c: Candidate,
)
    requires
        0 <= n <= model.surfaces@.len(),
    ensures
        assign::candidates_of(m, model, axis, ring, f, span, n).contains(c) <==> exists|i: int|
            0 <= i < n && #[trigger] assign::candidate_of(m, model, axis, ring, f, span, i)
                == Some(c),
    decreases n,
{
    let now = assign::candidates_of(m, model, axis, ring, f, span, n);
    if n > 0 {
        candidates_are_all(m, model, axis, ring, f, span, n - 1, c);
        let rest = assign::candidates_of(m, model, axis, ring, f, span, n - 1);
        let last = assign::candidate_of(m, model, axis, ring, f, span, n - 1);
        if rest.contains(c) {
            let k = choose|k: int| 0 <= k < rest.len() && rest[k] == c;
            assert(now[k] == c);
        }
        if last == Some(c) {
            assert(now[rest.len() as int] == c);
        }
        if now.contains(c) && !rest.contains(c) {
            let k = choose|k: int| 0 <= k < now.len() && now[k] == c;
            if k < rest.len() {
                assert(rest[k] == c);
            }
            assert(last == Some(c));
        }
    }
}

proof fn rings_are_all(
    m: Arithmetic,
    model: Model,
    axis: Vec3,
    extrude: PendingView,
    n: int,
    c: Candidate,
)
    requires
        0 <= n <= extrude.rings.len(),
    ensures
        assign::ring_by_ring(m, model, axis, extrude, n).contains(c) <==> exists|j: int, i: int|
            0 <= j < n && 0 <= i < model.surfaces@.len() && #[trigger] assign::candidate_of(
                m,
                model,
                axis,
                extrude.rings[j],
                extrude.frame,
                extrude.span,
                i,
            ) == Some(c),
    decreases n,
{
    let now = assign::ring_by_ring(m, model, axis, extrude, n);
    if n > 0 {
        rings_are_all(m, model, axis, extrude, n - 1, c);
        let all = model.surfaces@.len() as int;
        let ring = extrude.rings[n - 1];
        candidates_are_all(m, model, axis, ring, extrude.frame, extrude.span, all, c);
        let rest = assign::ring_by_ring(m, model, axis, extrude, n - 1);
        let more = assign::candidates_of(m, model, axis, ring, extrude.frame, extrude.span, all);
        if rest.contains(c) {
            let k = choose|k: int| 0 <= k < rest.len() && rest[k] == c;
            assert(now[k] == c);
        }
        if more.contains(c) {
            let k = choose|k: int| 0 <= k < more.len() && more[k] == c;
            assert(now[rest.len() + k] == c);
        }
        if now.contains(c) {
            let k = choose|k: int| 0 <= k < now.len() && now[k] == c;
            if k < rest.len() {
                assert(rest[k] == c);
            } else {
                assert(more[k - rest.len()] == c);
            }
        }
    }
}

/// The options of an open extrude are its walls, cheapest first: each option stands
/// for a wall, and each wall has an option.
pub proof fn options_are_walls(m: Arithmetic, model: Model, axis: Vec3, extrude: PendingView)
    ensures
        ({
            let options = assign::options_of(m, model, axis, extrude);
            &&& forall|a: int, b: int|
                0 <= a < b < options.len() ==> (#[trigger] options[a]).cost.total_rank() <= (
                #[trigger] options[b]).cost.total_rank()
            &&& forall|k: int|
                0 <= k < options.len() ==> stands_for_a_wall(
                    m,
                    model,
                    axis,
                    extrude,
                    #[trigger] options[k],
                )
            &&& forall|j: int, i: int| #[trigger]
                is_wall(m, model, axis, extrude, j, i) ==> is_offered(
                    m,
                    model,
                    axis,
                    extrude,
                    options,
                    j,
                    i,
                )
        }),
{
    broadcast use vstd::seq_lib::group_to_multiset_ensures;

    let options = assign::options_of(m, model, axis, extrude);
    let all = extrude.rings.len() as int;
    let found = assign::ring_by_ring(m, model, axis, extrude, all);
    assert(list::orderly::<Candidate>()) by {
        assert forall|a: Candidate, b: Candidate, c: Candidate|
            !(#[trigger] b.before(a)) && !(#[trigger] c.before(b)) implies !c.before(a) by {}
    }
    list::stable_order_is_ordered(found, found.len() as int);
    assert(found.take(found.len() as int) =~= found);
    assert forall|a: int, b: int| 0 <= a < b < options.len() implies (
    #[trigger] options[a]).cost.total_rank() <= (#[trigger] options[b]).cost.total_rank() by {
        assert(!options[b].before(options[a]));
    }
    assert forall|k: int| 0 <= k < options.len() implies stands_for_a_wall(
        m,
        model,
        axis,
        extrude,
        #[trigger] options[k],
    ) by {
        let c = options[k];
        assert(options.contains(c));
        assert(found.to_multiset().count(c) > 0);
        assert(found.contains(c));
        rings_are_all(m, model, axis, extrude, all, c);
        let (j, i) = choose|j: int, i: int|
            0 <= j < all && 0 <= i < model.surfaces@.len() && #[trigger] assign::candidate_of(
                m,
                model,
                axis,
                extrude.rings[j],
                extrude.frame,
                extrude.span,
                i,
            ) == Some(c);
        candidate_is_a_wall(m, model, axis, extrude.rings[j], extrude.frame, extrude.span, i);
        assert(stands_for(m, model, axis, extrude, options[k], j, i));
    }
    assert forall|j: int, i: int| #[trigger] is_wall(m, model, axis, extrude, j, i) implies is_offered(
        m,
        model,
        axis,
        extrude,
        options,
        j,
        i,
    ) by {
        candidate_is_a_wall(m, model, axis, extrude.rings[j], extrude.frame, extrude.span, i);
        let c = assign::candidate_of(
            m,
            model,
            axis,
            extrude.rings[j],
            extrude.frame,
            extrude.span,
            i,
        )->0;
        rings_are_all(m, model, axis, extrude, all, c);
        assert(found.contains(c));
        assert(options.to_multiset().count(c) > 0);
        assert(options.contains(c));
        let k = choose|k: int| 0 <= k < options.len() && options[k] == c;
        assert(stands_for(m, model, axis, extrude, options[k], j, i));
    }
}

proof fn chosen_ring_is_own(
    options: Seq<Seq<Candidate>>,
    choice: Seq<Option<int>>,
    n: int,
    k: int,
)
    requires
        0 <= k < n,
    ensures
        assign::chosen_rings(options, choice, n).len() == n,
        assign::chosen_rings(options, choice, n)[k] == match choice[k] {
            Some(c) => Some(options[k][c].ring),
            None => None,
        },
    decreases n,
{
    if n > k + 1 {
        chosen_ring_is_own(options, choice, n - 1, k);
    } else if k > 0 {
        chosen_ring_is_own(options, choice, n - 1, k - 1);
    }
}

proof fn entered_is_own(ids: Seq<Seq<char>>, rings: Seq<Option<usize>>, n: int, k: int)
    requires
        0 <= k < ids.len(),
        0 <= n <= ids.len(),
        forall|j: int| 0 <= j < n && j != k ==> #[trigger] ids[j] != ids[k],
    ensures
        ({
            let map = assign::attributed(ids, rings, n);
            &&& map.contains_key(ids[k]) <==> k < n && rings[k] is Some
            &&& map.contains_key(ids[k]) ==> rings[k] == Some(map[ids[k]])
        }),
    decreases n,
{
    if n > 0 {
        entered_is_own(ids, rings, n - 1, k);
        assert(n - 1 != k ==> ids[n - 1] != ids[k]);
    }
}

/// Whether a wall each is taken for some open extrudes, or none, so that what is
/// attributed to an extrude is the loop of its wall, no carrier is taken twice, and
/// an extrude goes without only if every carrier that is a wall of it is taken for
/// another.
pub open spec fn settles(
    m: Arithmetic,
    model: Model,
    axis: Vec3,
    pending: Seq<PendingView>,
    rings: Map<Seq<char>, usize>,
    taken: Seq<Option<Candidate>>,
) -> bool {
    &&& taken.len() == pending.len()
    &&& forall|k: int| #![trigger taken[k]]
        0 <= k < pending.len() ==> match taken[k] {
            Some(c) => {
                &&& rings.contains_key(pending[k].id)
                &&& rings[pending[k].id] == c.ring
                &&& stands_for_a_wall(m, model, axis, pending[k], c)
            },
            None => !rings.contains_key(pending[k].id),
        }
    &&& forall|a: int, b: int| #![trigger taken[a], taken[b]]
        0 <= a < b < taken.len() && taken[a] is Some && taken[b] is Some
            ==> taken[a]->0.surface != taken[b]->0.surface
    &&& forall|k: int, j: int, i: int|
        0 <= k < pending.len() && taken[k] is None && #[trigger] is_wall(
            m,
            model,
            axis,
            pending[k],
            j,
            i,
        ) ==> is_taken(model, taken, i)
}

/// Whether a carrier is taken for some extrude.
pub open spec fn is_taken(model: Model, taken: Seq<Option<Candidate>>, i: int) -> bool {
    exists|other: int| #![trigger taken[other]]
        0 <= other < taken.len() && taken[other] is Some
            && model.surfaces@[taken[other]->0.surface as int].id@ == model.surfaces@[i].id@
}

/// Attribution gives open extrudes of different identities the loops of walls of
/// their own, no carrier to two of them, and leaves one out only where nothing is
/// left for it.
pub proof fn attribution_takes_walls(
    m: Arithmetic,
    model: Model,
    axis: Vec3,
    pending: Seq<PendingView>,
)
    requires
        forall|a: int, b: int|
            0 <= a < b < pending.len() ==> (#[trigger] pending[a]).id != (#[trigger] pending[b]).id,
    ensures
        exists|taken: Seq<Option<Candidate>>| #[trigger]
            settles(
                m,
                model,
                axis,
                pending,
                assign::outer_rings(m, model, axis, pending),
                taken,
            ),
{
    let options = assign::all_options(m, model, axis, pending);
    let all = pending.len() as int;
    let found = assign::best_assignment(m, model, axis, pending);
    let rings = assign::outer_rings(m, model, axis, pending);
    let ids = assign::pending_ids(pending);
    assign::no_carrier_twice(m, options);
    let choice = choose|choice: Seq<Option<int>>|
        {
            &&& #[trigger] assign::is_earned(m, options, choice, found)
            &&& assign::carriers_differ(options, choice)
        };
    let taken = Seq::new(
        pending.len(),
        |k: int|
            match choice[k] {
                Some(c) => Some(options[k][c]),
                None => None,
            },
    );
    let chosen = assign::chosen_rings(options, choice, all);
    assert(assign::admissible(options, choice));
    assert forall|k: int| #![trigger taken[k]] 0 <= k < all implies match taken[k] {
        Some(c) => {
            &&& rings.contains_key(pending[k].id)
            &&& rings[pending[k].id] == c.ring
            &&& stands_for_a_wall(m, model, axis, pending[k], c)
        },
        None => !rings.contains_key(pending[k].id),
    } by {
        chosen_ring_is_own(options, choice, all, k);
        assert forall|j: int| 0 <= j < ids.len() && j != k implies #[trigger] ids[j] != ids[k] by {
            if j < k {
                assert(pending[j].id != pending[k].id);
            } else {
                assert(pending[k].id != pending[j].id);
            }
        }
        entered_is_own(ids, chosen, all, k);
        assert(ids[k] == pending[k].id);
        options_are_walls(m, model, axis, pending[k]);
        assert(options[k] == assign::options_of(m, model, axis, pending[k]));
        if let Some(c) = choice[k] {
            assert(0 <= c < options[k].len());
            assert(taken[k] == Some(options[k][c]));
        }
    }
    assert forall|a: int, b: int| #![trigger taken[a], taken[b]]
        0 <= a < b < taken.len() && taken[a] is Some && taken[b] is Some implies
        taken[a]->0.surface != taken[b]->0.surface by {
        assert(choice[a] is Some && choice[b] is Some);
    }
    assert forall|k: int, j: int, i: int|
        0 <= k < pending.len() && taken[k] is None && #[trigger] is_wall(
            m,
            model,
            axis,
            pending[k],
            j,
            i,
        ) implies is_taken(model, taken, i) by {
        options_are_walls(m, model, axis, pending[k]);
        let own = options[k];
        assert(own == assign::options_of(m, model, axis, pending[k]));
        let c = choose|c: int|
            0 <= c < own.len() && stands_for(
                m,
                model,
                axis,
                pending[k],
                #[trigger] own[c],
                j,
                i,
            );
        assert(choice[k] is None);
        assert(assign::all_used(own, assign::taken(options, choice, k)));
        assert(assign::taken(options, choice, k).contains(own[c].surface));
        assign::taken_by_someone(options, choice, k, own[c].surface);
        let d = choose|d: int|
            0 <= d < k && (#[trigger] choice[d] matches Some(l) && options[d][l].surface
                == own[c].surface);
        assert(taken[d] is Some);
        assert(taken[d]->0.surface == own[c].surface);
    }
    assert(settles(m, model, axis, pending, rings, taken));
}

/// What choices cost together starts from nothing. Each one that takes a candidate
/// adds what that falls short by, and each that leaves its feature out adds 1e6.
pub proof fn choices_cost_what_they_take(
    m: Arithmetic,
    options: Seq<Seq<Candidate>>,
    choice: Seq<Option<int>>,
    n: int,
)
    requires
        0 <= n < choice.len(),
    ensures
        assign::total(m, options, choice, 0).bits == 0,
        assign::total(m, options, choice, n + 1) == m.plus(
            assign::total(m, options, choice, n),
            if choice[n] is Some {
                options[n][choice[n]->0].cost
            } else {
                Scalar { bits: 0x412e_8480_0000_0000 }
            },
        ),
{
}

// ---------------------------------------------------------------------------
// blends
// ---------------------------------------------------------------------------

/// Whether a face is a blend of a radius: it is built on a torus whose tube has
/// that radius, to within 1e-6 either way.
pub open spec fn is_blend(m: Arithmetic, model: Model, radius: Scalar, face: Face) -> bool {
    let surface = arena::lookup(model.surfaces@, face.surface@);
    &&& surface is Some
    &&& surface->0.geometry.shape is Torus
    &&& !(Scalar { bits: 0x3eb0_c6f7_a0b5_ed8d }).below(
        m.minus(surface->0.geometry.shape->minor_radius.unsigned(), radius).unsigned(),
    )
}

/// How far a circle lies from the centre circle of a torus tube: by its height
/// above the torus and by the difference of the radii.
pub open spec fn tube_gap(
    m: Arithmetic,
    torus: SurfaceFrame,
    major_radius: Scalar,
    circle: EdgeCircle,
) -> Scalar {
    m.hypot(
        m.dot(m.difference(circle.center, torus.origin), torus.axis),
        m.minus(circle.radius, major_radius),
    )
}

/// Whether a circle lies within one tube diameter of a torus tube, and 1e-6.
pub open spec fn is_near(
    m: Arithmetic,
    torus: SurfaceFrame,
    major_radius: Scalar,
    minor_radius: Scalar,
    circle: EdgeCircle,
) -> bool {
    !m.mul_add(
        Scalar { bits: 0x4000_0000_0000_0000 },
        minor_radius.unsigned(),
        Scalar { bits: 0x3eb0_c6f7_a0b5_ed8d },
    ).below(tube_gap(m, torus, major_radius, circle))
}

/// Whether a circle could be the edge a blend face replaced: two of the carriers
/// across the boundary share it, and it is near the face's own torus.
pub open spec fn could_be_replaced(
    m: Arithmetic,
    model: Model,
    face: Face,
    circle: EdgeCircle,
) -> bool {
    let geometry = arena::lookup(model.surfaces@, face.surface@)->0.geometry;
    &&& geometry.frame is Some
    &&& is_near(
        m,
        geometry.frame->0,
        geometry.shape->major_radius,
        geometry.shape->minor_radius,
        circle,
    )
    &&& blend::from_a_pair(m, blend::support_carriers(model, face), circle)
}

proof fn row_holds_pairs(
    m: Arithmetic,
    carriers: Seq<SurfaceGeometry>,
    first: int,
    n: int,
    b: int,
    circle: EdgeCircle,
)
    requires
        0 <= first < b < n <= carriers.len(),
        blend::shared_circle(m, carriers[first], carriers[b]) == Some(circle),
    ensures
        blend::circles_with(m, carriers, first, n).contains(circle),
    decreases n,
{
    let now = blend::circles_with(m, carriers, first, n);
    let rest = blend::circles_with(m, carriers, first, n - 1);
    if b == n - 1 {
        assert(now[rest.len() as int] == circle);
    } else {
        row_holds_pairs(m, carriers, first, n - 1, b, circle);
        let k = choose|k: int| 0 <= k < rest.len() && rest[k] == circle;
        assert(now[k] == circle);
    }
}

proof fn circles_hold_pairs(
    m: Arithmetic,
    carriers: Seq<SurfaceGeometry>,
    n: int,
    a: int,
    b: int,
    circle: EdgeCircle,
)
    requires
        0 <= a < n <= carriers.len(),
        a < b < carriers.len(),
        blend::shared_circle(m, carriers[a], carriers[b]) == Some(circle),
    ensures
        blend::circles_among(m, carriers, n).contains(circle),
    decreases n,
{
    let now = blend::circles_among(m, carriers, n);
    let rest = blend::circles_among(m, carriers, n - 1);
    let row = blend::circles_with(m, carriers, n - 1, carriers.len() as int);
    if a == n - 1 {
        row_holds_pairs(m, carriers, a, carriers.len() as int, b, circle);
        let k = choose|k: int| 0 <= k < row.len() && row[k] == circle;
        assert(now[rest.len() + k] == circle);
    } else {
        circles_hold_pairs(m, carriers, n - 1, a, b, circle);
        let k = choose|k: int| 0 <= k < rest.len() && rest[k] == circle;
        assert(now[k] == circle);
    }
}

/// A face gives an edge for a fillet of a radius exactly if it is a blend of that
/// radius and some circle could be the edge it replaced. The edge it gives is such
/// a circle, and no other such circle is nearer to the tube.
pub proof fn blend_gives_its_nearest_edge(
    m: Arithmetic,
    model: Model,
    radius: Scalar,
    face: Face,
)
    ensures
        ({
            let geometry = arena::lookup(model.surfaces@, face.surface@)->0.geometry;
            let major = geometry.shape->major_radius;
            match blend::replaced_edge(m, model, radius, face) {
                Some(edge) => {
                    &&& is_blend(m, model, radius, face)
                    &&& could_be_replaced(m, model, face, edge)
                    &&& forall|other: EdgeCircle| #[trigger]
                        could_be_replaced(m, model, face, other) && !tube_gap(
                            m,
                            geometry.frame->0,
                            major,
                            edge,
                        ).nan() ==> !tube_gap(m, geometry.frame->0, major, other).below(
                            tube_gap(m, geometry.frame->0, major, edge),
                        )
                },
                None => is_blend(m, model, radius, face) ==> forall|other: EdgeCircle|
                    !#[trigger] could_be_replaced(m, model, face, other),
            }
        }),
{
    let carriers = blend::support_carriers(model, face);
    let circles = blend::support_circles(m, model, face);
    let all = circles.len() as int;
    blend::replaced_edge_joins_supports(m, model, radius, face);
    if is_blend(m, model, radius, face) {
        let geometry = arena::lookup(model.surfaces@, face.surface@)->0.geometry;
        let major = geometry.shape->major_radius;
        let minor = geometry.shape->minor_radius.unsigned();
        if geometry.frame is Some {
            blend::nearest_is_nearest(m, circles, geometry.frame->0, major, minor, all);
        }
        assert forall|other: EdgeCircle| #[trigger] could_be_replaced(
            m,
            model,
            face,
            other,
        ) implies circles.contains(other) by {
            let (a, b) = choose|a: int, b: int|
                0 <= a < b < carriers.len() && #[trigger] blend::shared_circle(
                    m,
                    carriers[a],
                    carriers[b],
                ) == Some(other);
            circles_hold_pairs(m, carriers, carriers.len() as int, a, b, other);
        }
    }
}

/// The edges of a fillet are those its blend faces give, face by face.
pub proof fn edges_run_by_face(m: Arithmetic, model: Model, radius: Scalar, n: int)
    requires
        0 <= n < model.faces@.len(),
    ensures
        blend::replaced_edges(m, model, radius, 0).len() == 0,
        blend::replaced_edges(m, model, radius, n + 1) == match blend::replaced_edge(
            m,
            model,
            radius,
            model.faces@[n],
        ) {
            Some(edge) => blend::replaced_edges(m, model, radius, n).push(edge),
            None => blend::replaced_edges(m, model, radius, n),
        },
{
    let rest = blend::replaced_edges(m, model, radius, n);
    let next = blend::replaced_edge(m, model, radius, model.faces@[n]);
    if next is Some {
        assert(rest + blend::at_most_one(next) =~= rest.push(next->0));
    } else {
        assert(rest + blend::at_most_one(next) =~= rest);
    }
}

proof fn edges_come_from_blends(m: Arithmetic, model: Model, radius: Scalar, n: int, edge: EdgeCircle)
    requires
        0 <= n <= model.faces@.len(),
    ensures
        blend::replaced_edges(m, model, radius, n).contains(edge) <==> exists|i: int|
            0 <= i < n && #[trigger] blend::replaced_edge(m, model, radius, model.faces@[i])
                == Some(edge),
    decreases n,
{
    if n > 0 {
        edges_come_from_blends(m, model, radius, n - 1, edge);
        edges_run_by_face(m, model, radius, n - 1);
        let rest = blend::replaced_edges(m, model, radius, n - 1);
        let now = blend::replaced_edges(m, model, radius, n);
        let last = blend::replaced_edge(m, model, radius, model.faces@[n - 1]);
        if rest.contains(edge) {
            let k = choose|k: int| 0 <= k < rest.len() && rest[k] == edge;
            assert(now[k] == edge);
        }
        if last == Some(edge) {
            assert(now[rest.len() as int] == edge);
        }
        if now.contains(edge) && !rest.contains(edge) {
            let k = choose|k: int| 0 <= k < now.len() && now[k] == edge;
            if k < rest.len() {
                assert(rest[k] == edge);
            }
        }
    }
}

/// Every edge recovered for a fillet of a radius comes from a blend of that radius,
/// neither smaller nor larger, and every blend of it with an edge to give has one
/// among them.
pub proof fn fillet_selects_its_own_blends(m: Arithmetic, model: Model, radius: Scalar)
    ensures
        ({
            let edges = blend::replaced_edges(m, model, radius, model.faces@.len() as int);
            &&& forall|edge: EdgeCircle| #[trigger]
                edges.contains(edge) ==> exists|i: int|
                    0 <= i < model.faces@.len() && is_blend(
                        m,
                        model,
                        radius,
                        #[trigger] model.faces@[i],
                    ) && could_be_replaced(m, model, model.faces@[i], edge)
            &&& forall|i: int, circle: EdgeCircle|
                0 <= i < model.faces@.len() && is_blend(m, model, radius, model.faces@[i])
                    && #[trigger] could_be_replaced(m, model, model.faces@[i], circle)
                    ==> exists|edge: EdgeCircle| #[trigger]
                    edges.contains(edge) && could_be_replaced(m, model, model.faces@[i], edge)
        }),
{
    let all = model.faces@.len() as int;
    let edges = blend::replaced_edges(m, model, radius, all);
    assert forall|edge: EdgeCircle| #[trigger] edges.contains(edge) implies exists|i: int|
        0 <= i < model.faces@.len() && is_blend(m, model, radius, #[trigger] model.faces@[i])
            && could_be_replaced(m, model, model.faces@[i], edge) by {
        edges_come_from_blends(m, model, radius, all, edge);
        let i = choose|i: int|
            0 <= i < all && #[trigger] blend::replaced_edge(m, model, radius, model.faces@[i])
                == Some(edge);
        blend_gives_its_nearest_edge(m, model, radius, model.faces@[i]);
    }
    assert forall|i: int, circle: EdgeCircle|
        0 <= i < all && is_blend(m, model, radius, model.faces@[i]) && #[trigger] could_be_replaced(
            m,
            model,
            model.faces@[i],
            circle,
        ) implies exists|edge: EdgeCircle| #[trigger]
        edges.contains(edge) && could_be_replaced(m, model, model.faces@[i], edge) by {
        blend_gives_its_nearest_edge(m, model, radius, model.faces@[i]);
        let edge = blend::replaced_edge(m, model, radius, model.faces@[i])->0;
        edges_come_from_blends(m, model, radius, all, edge);
        assert(edges.contains(edge));
    }
}

proof fn supports_are_all(
    model: Model,
    names: Seq<Seq<char>>,
    n: int,
    geometry: SurfaceGeometry,
)
    requires
        0 <= n <= names.len(),
    ensures
        blend::supports(model, names, n).contains(geometry) <==> exists|i: int|
            0 <= i < n && is_carried(model, #[trigger] names[i], geometry),
    decreases n,
{
    if n > 0 {
        supports_are_all(model, names, n - 1, geometry);
        let rest = blend::supports(model, names, n - 1);
        let now = blend::supports(model, names, n);
        if rest.contains(geometry) {
            let k = choose|k: int| 0 <= k < rest.len() && rest[k] == geometry;
            assert(now[k] == geometry);
        }
        if is_carried(model, names[n - 1], geometry) {
            assert(now[rest.len() as int] == geometry);
        }
        if now.contains(geometry) && !rest.contains(geometry) {
            let k = choose|k: int| 0 <= k < now.len() && now[k] == geometry;
            if k < rest.len() {
                assert(rest[k] == geometry);
            }
            assert(is_carried(model, names[n - 1], geometry));
        }
    }
}

/// Whether a face is on record, and built on a carrier of a geometry.
pub open spec fn is_carried(model: Model, face_id: Seq<char>, geometry: SurfaceGeometry) -> bool {
    arena::lookup(model.faces@, face_id) matches Some(face) && (arena::lookup(
        model.surfaces@,
        face.surface@,
    ) matches Some(surface) && surface.geometry == geometry)
}

/// The carriers across the boundary of a face are those its neighbours are built
/// on.
pub proof fn supports_are_neighbours(model: Model, face: Face, geometry: SurfaceGeometry)
    ensures
        blend::support_carriers(model, face).contains(geometry) <==> exists|i: int|
            0 <= i < topo::neighbours(model, face.id@).len() && is_carried(
                model,
                #[trigger] topo::neighbours(model, face.id@)[i],
                geometry,
            ),
{
    let names = topo::neighbours(model, face.id@);
    supports_are_all(model, names, names.len() as int, geometry);
}

} // verus!
