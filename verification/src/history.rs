//! What the record of features does not change.
//!
//! A document lists its features in no particular order, and lists those that
//! are switched off along with the others. Neither bears on the program.

use crate::arena;
use crate::arrangement::{ArrangementView, RegionView};
use crate::assign;
use crate::assign::PendingView;
use crate::blend;
use crate::emit;
use crate::emit::Resolution;
use crate::frame;
use crate::frame::SketchFrame;
use crate::identity;
use crate::ir::{
    CadIr, Coedge, Edge, Face, Feature, FeatureDefinition, FilletGroup, Loop, Model, RadiusSpec,
};
use crate::kernel::{Arithmetic, Vec3};
use crate::list;
use crate::list::Ranked;
use crate::meridian;
use crate::plan;
use crate::program::{LossView, ProgramView};
use crate::ring::RingView;
use crate::scalar::Scalar;
use crate::text;
use crate::topo;
use crate::wording;
use vstd::prelude::*;

verus! {

/// Whether two documents hold the same sketches and the same solved body.
pub open spec fn same_shape(a: Model, b: Model) -> bool {
    &&& a.sketches@ == b.sketches@
    &&& a.sketch_entities@ == b.sketch_entities@
    &&& a.surfaces@ == b.surfaces@
    &&& a.faces@ == b.faces@
    &&& a.loops@ == b.loops@
    &&& a.coedges@ == b.coedges@
    &&& a.edges@ == b.edges@
    &&& a.vertices@ == b.vertices@
    &&& a.points@ == b.points@
}

// ---------------------------------------------------------------------------
// what depends on the shape alone
// ---------------------------------------------------------------------------

proof fn same_coedges(a: Model, b: Model, loops: Seq<Loop>, n: int)
    requires
        same_shape(a, b),
    ensures
        topo::coedges_around(a, loops, n) == topo::coedges_around(b, loops, n),
    decreases n,
{
    if n > 0 {
        same_coedges(a, b, loops, n - 1);
    }
}

proof fn same_edges(a: Model, b: Model, coedges: Seq<Coedge>, n: int)
    requires
        same_shape(a, b),
    ensures
        topo::edges_used(a, coedges, n) == topo::edges_used(b, coedges, n),
    decreases n,
{
    if n > 0 {
        same_edges(a, b, coedges, n - 1);
    }
}

proof fn same_face_edges(a: Model, b: Model, face: Face)
    requires
        same_shape(a, b),
    ensures
        topo::face_edges(a, face) == topo::face_edges(b, face),
{
    let loops = topo::loops_of(a, face);
    same_coedges(a, b, loops, loops.len() as int);
    let coedges = topo::boundary(a, face);
    same_edges(a, b, coedges, coedges.len() as int);
}

proof fn same_owners(a: Model, b: Model, uses: Seq<usize>, n: int)
    requires
        same_shape(a, b),
    ensures
        topo::owners(a, uses, n) == topo::owners(b, uses, n),
    decreases n,
{
    if n > 0 {
        same_owners(a, b, uses, n - 1);
    }
}

proof fn same_faces_along(a: Model, b: Model, edges: Seq<Edge>, n: int)
    requires
        same_shape(a, b),
    ensures
        topo::faces_along(a, edges, n) == topo::faces_along(b, edges, n),
    decreases n,
{
    if n > 0 {
        same_faces_along(a, b, edges, n - 1);
        let uses = topo::uses_of(a.coedges@, edges[n - 1].id@, a.coedges@.len() as int);
        same_owners(a, b, uses, uses.len() as int);
    }
}

proof fn same_points(a: Model, b: Model, edges: Seq<Edge>, n: int)
    requires
        same_shape(a, b),
    ensures
        topo::points_along(a, edges, n) == topo::points_along(b, edges, n),
    decreases n,
{
    if n > 0 {
        same_points(a, b, edges, n - 1);
    }
}

proof fn same_face_points(a: Model, b: Model, face: Face)
    requires
        same_shape(a, b),
    ensures
        meridian::face_points(a, face) == meridian::face_points(b, face),
{
    same_face_edges(a, b, face);
    let edges = topo::face_edges(a, face);
    same_points(a, b, edges, edges.len() as int);
}

proof fn same_face_span(m: Arithmetic, a: Model, b: Model, face_id: Seq<char>, axis: Vec3)
    requires
        same_shape(a, b),
    ensures
        topo::face_span(m, a, face_id, axis) == topo::face_span(m, b, face_id, axis),
{
    if let Some(face) = arena::lookup(a.faces@, face_id) {
        same_face_points(a, b, face);
    }
}

proof fn same_carrier_reach(
    m: Arithmetic,
    a: Model,
    b: Model,
    surface_id: Seq<char>,
    axis: Vec3,
    n: int,
)
    requires
        same_shape(a, b),
    ensures
        topo::carrier_reach(m, a, surface_id, axis, n) == topo::carrier_reach(
            m,
            b,
            surface_id,
            axis,
            n,
        ),
    decreases n,
{
    if n > 0 {
        same_carrier_reach(m, a, b, surface_id, axis, n - 1);
        same_face_span(m, a, b, a.faces@[n - 1].id@, axis);
    }
}

proof fn same_first_lateral(a: Model, b: Model, n: int)
    requires
        same_shape(a, b),
    ensures
        meridian::first_lateral(a, n) == meridian::first_lateral(b, n),
    decreases n,
{
    if n > 0 {
        same_first_lateral(a, b, n - 1);
    }
}

proof fn same_lateral_faces(
    m: Arithmetic,
    a: Model,
    b: Model,
    origin: Vec3,
    axis: Vec3,
    n: int,
)
    requires
        same_shape(a, b),
    ensures
        meridian::lateral_faces(m, a, origin, axis, n) == meridian::lateral_faces(
            m,
            b,
            origin,
            axis,
            n,
        ),
    decreases n,
{
    if n > 0 {
        same_lateral_faces(m, a, b, origin, axis, n - 1);
        same_face_span(m, a, b, a.faces@[n - 1].id@, axis);
        same_face_points(a, b, a.faces@[n - 1]);
    }
}

proof fn same_classifier(m: Arithmetic, a: Model, b: Model)
    requires
        same_shape(a, b),
    ensures
        meridian::meridian_of(m, a) == meridian::meridian_of(m, b),
{
    let all = a.faces@.len() as int;
    same_first_lateral(a, b, all);
    if let Some(frame) = meridian::hub(a) {
        same_lateral_faces(m, a, b, frame.origin, frame.axis, all);
        assert forall|i: int| 0 <= i < all implies meridian::shares_axis(
            m,
            a,
            #[trigger] a.faces@[i],
            frame.origin,
            frame.axis,
        ) == meridian::shares_axis(m, b, b.faces@[i], frame.origin, frame.axis) by {}
        assert(meridian::coaxial(m, a, all) == meridian::coaxial(m, b, all));
    }
}

proof fn same_candidates(
    m: Arithmetic,
    a: Model,
    b: Model,
    axis: Vec3,
    ring: RingView,
    frame: SketchFrame,
    span: (Scalar, Scalar),
    n: int,
)
    requires
        same_shape(a, b),
    ensures
        assign::candidates_of(m, a, axis, ring, frame, span, n) == assign::candidates_of(
            m,
            b,
            axis,
            ring,
            frame,
            span,
            n,
        ),
    decreases n,
{
    if n > 0 {
        same_candidates(m, a, b, axis, ring, frame, span, n - 1);
        same_carrier_reach(m, a, b, a.surfaces@[n - 1].id@, axis, a.faces@.len() as int);
    }
}

proof fn same_ring_by_ring(
    m: Arithmetic,
    a: Model,
    b: Model,
    axis: Vec3,
    extrude: PendingView,
    n: int,
)
    requires
        same_shape(a, b),
    ensures
        assign::ring_by_ring(m, a, axis, extrude, n) == assign::ring_by_ring(
            m,
            b,
            axis,
            extrude,
            n,
        ),
    decreases n,
{
    if n > 0 {
        same_ring_by_ring(m, a, b, axis, extrude, n - 1);
        same_candidates(
            m,
            a,
            b,
            axis,
            extrude.rings[n - 1],
            extrude.frame,
            extrude.span,
            a.surfaces@.len() as int,
        );
    }
}

proof fn same_attribution(
    m: Arithmetic,
    a: Model,
    b: Model,
    axis: Vec3,
    pending: Seq<PendingView>,
)
    requires
        same_shape(a, b),
    ensures
        assign::outer_rings(m, a, axis, pending) == assign::outer_rings(m, b, axis, pending),
{
    let here = assign::all_options(m, a, axis, pending);
    let there = assign::all_options(m, b, axis, pending);
    assert forall|i: int| 0 <= i < here.len() implies #[trigger] here[i] == there[i] by {
        same_ring_by_ring(m, a, b, axis, pending[i], pending[i].rings.len() as int);
    }
    assert(here =~= there);
}

proof fn same_supports(a: Model, b: Model, names: Seq<Seq<char>>, n: int)
    requires
        same_shape(a, b),
    ensures
        blend::supports(a, names, n) == blend::supports(b, names, n),
    decreases n,
{
    if n > 0 {
        same_supports(a, b, names, n - 1);
    }
}

proof fn same_support_carriers(a: Model, b: Model, face: Face)
    requires
        same_shape(a, b),
    ensures
        blend::support_carriers(a, face) == blend::support_carriers(b, face),
{
    if let Some(own) = arena::lookup(a.faces@, face.id@) {
        same_face_edges(a, b, own);
        let edges = topo::face_edges(a, own);
        same_faces_along(a, b, edges, edges.len() as int);
    }
    let names = topo::neighbours(a, face.id@);
    same_supports(a, b, names, names.len() as int);
}

proof fn same_replaced_edges(m: Arithmetic, a: Model, b: Model, radius: Scalar, n: int)
    requires
        same_shape(a, b),
    ensures
        blend::replaced_edges(m, a, radius, n) == blend::replaced_edges(m, b, radius, n),
    decreases n,
{
    if n > 0 {
        same_replaced_edges(m, a, b, radius, n - 1);
        same_support_carriers(a, b, a.faces@[n - 1]);
    }
}

proof fn same_placement(m: Arithmetic, a: Model, b: Model, n: int)
    requires
        same_shape(a, b),
    ensures
        plan::placed_frames(m, a, n) == plan::placed_frames(m, b, n),
        plan::placed_arrangements(m, a, n) == plan::placed_arrangements(m, b, n),
    decreases n,
{
    if n > 0 {
        same_placement(m, a, b, n - 1);
    }
}

proof fn same_groups(
    m: Arithmetic,
    p: ProgramView,
    a: Model,
    b: Model,
    feature: Feature,
    groups: Seq<FilletGroup>,
    n: int,
)
    requires
        same_shape(a, b),
        0 <= n <= groups.len(),
    ensures
        emit::after_groups(m, p, a, feature, groups, n) == emit::after_groups(
            m,
            p,
            b,
            feature,
            groups,
            n,
        ),
        emit::writes_groups(m, a, groups, n) == emit::writes_groups(m, b, groups, n),
    decreases n,
{
    if n > 0 {
        same_groups(m, p, a, b, feature, groups, n - 1);
        if let RadiusSpec::Constant { radius } = groups[n - 1].radius {
            same_replaced_edges(m, a, b, radius, a.faces@.len() as int);
        }
        assert(emit::writes_group(m, a, groups[n - 1]) == emit::writes_group(m, b, groups[n - 1]));
        group_settles(m, a, groups, n);
        group_settles(m, b, groups, n);
    }
}

/// One more group decides, or those before it do.
proof fn group_settles(m: Arithmetic, model: Model, groups: Seq<FilletGroup>, n: int)
    requires
        0 < n <= groups.len(),
    ensures
        emit::writes_groups(m, model, groups, n) == (emit::writes_groups(m, model, groups, n - 1)
            || emit::writes_group(m, model, groups[n - 1])),
{
    if emit::writes_group(m, model, groups[n - 1]) {
        let k = n - 1;
        assert(0 <= k < n && emit::writes_group(m, model, groups[k]));
    }
}

proof fn same_steps(
    m: Arithmetic,
    p: ProgramView,
    a: Model,
    b: Model,
    resolution: Resolution,
    steps: Seq<Feature>,
    n: int,
)
    requires
        same_shape(a, b),
        0 <= n <= steps.len(),
    ensures
        emit::after_steps(m, p, a, resolution, steps, n) == emit::after_steps(
            m,
            p,
            b,
            resolution,
            steps,
            n,
        ),
        forall|k: int|
            0 <= k < n ==> emit::writes_step(m, a, resolution, #[trigger] steps[k])
                == emit::writes_step(m, b, resolution, steps[k]),
    decreases n,
{
    if n > 0 {
        same_steps(m, p, a, b, resolution, steps, n - 1);
        let before = emit::after_steps(m, p, a, resolution, steps, n - 1);
        let feature = steps[n - 1];
        if let FeatureDefinition::Fillet { groups } = feature.definition {
            same_groups(m, before, a, b, feature, groups@, groups@.len() as int);
        }
    }
}

/// Two documents of one shape resolve alike where their timelines plan alike.
proof fn same_resolution(m: Arithmetic, a: Model, b: Model)
    requires
        same_shape(a, b),
        plan::plans_of(m, a) == plan::plans_of(m, b),
    ensures
        emit::resolution_of(m, a) == emit::resolution_of(m, b),
        plan::open_of(m, a) == plan::open_of(m, b),
        plan::plans_read(m, a) == plan::plans_read(m, b),
        plan::rings_of(m, a) == plan::rings_of(m, b),
        plan::solid_of(m, a) == plan::solid_of(m, b),
{
    same_placement(m, a, b, a.sketches@.len() as int);
    same_classifier(m, a, b);
    let plans = plan::plans_of(m, a);
    let arrangements = plan::arrangements_of(m, a);
    let open = plan::open_of(m, a);
    same_attribution(
        m,
        a,
        b,
        plan::reference_of(plans),
        plan::attribution_inputs(plans, arrangements, open),
    );
}

// ---------------------------------------------------------------------------
// the order of the record
// ---------------------------------------------------------------------------

/// Two features that neither comes before the other share their identity.
proof fn features_apart_are_ordered(a: Feature, b: Feature)
    requires
        !a.before(b),
        !b.before(a),
    ensures
        a.id@ == b.id@,
{
    let x = vstd::utf8::encode_utf8(a.id@);
    let y = vstd::utf8::encode_utf8(b.id@);
    text::byte_order_is_total(x, y);
    vstd::utf8::encode_utf8_decode_utf8(a.id@);
    vstd::utf8::encode_utf8_decode_utf8(b.id@);
}

/// Features with identities of their own have one order.
proof fn one_order(a: Seq<Feature>, b: Seq<Feature>)
    requires
        list::in_order(a),
        list::in_order(b),
        a.to_multiset() == b.to_multiset(),
        identity::told_apart(a),
    ensures
        a == b,
    decreases a.len(),
{
    broadcast use vstd::seq_lib::group_to_multiset_ensures;

    assert(a.len() == b.len()) by {
        assert(a.len() == a.to_multiset().len());
        assert(b.len() == b.to_multiset().len());
    }
    if a.len() > 0 {
        let last = a.len() - 1;
        assert(a.contains(a[last]));
        assert(b.to_multiset().count(a[last]) > 0);
        assert(b.contains(a[last]));
        let i = choose|i: int| 0 <= i < b.len() && b[i] == a[last];
        assert(b.contains(b[last]));
        assert(a.to_multiset().count(b[last]) > 0);
        assert(a.contains(b[last]));
        let j = choose|j: int| 0 <= j < a.len() && a[j] == b[last];
        if i < last && j < last {
            assert(!b[last].before(b[i]));
            assert(!a[last].before(a[j]));
            features_apart_are_ordered(a[last], b[last]);
            assert(a[j].id@ != a[last].id@);
        }
        assert(a[last] == b[last]);
        vstd::seq_lib::to_multiset_remove(a, last);
        vstd::seq_lib::to_multiset_remove(b, last);
        assert(a.remove(last) =~= a.drop_last());
        assert(b.remove(last) =~= b.drop_last());
        one_order(a.drop_last(), b.drop_last());
        assert(a =~= a.drop_last().push(a[last]));
        assert(b =~= b.drop_last().push(b[last]));
    } else {
        assert(a =~= b);
    }
}

/// The order in which a document lists features with identities of their own
/// does not bear on the timeline.
pub proof fn timeline_ignores_the_record(a: Model, b: Model)
    requires
        a.features@.to_multiset() == b.features@.to_multiset(),
        identity::told_apart(a.features@),
    ensures
        plan::timeline(a) == plan::timeline(b),
{
    plan::timeline_is_ordered(a);
    plan::timeline_is_ordered(b);
    identity::timeline_is_told_apart(a);
    one_order(plan::timeline(a), plan::timeline(b));
}

/// Nor does it bear on anything else: of two documents that differ in it alone
/// either both can be expressed, and the programs and reports are the same, or
/// neither can.
pub proof fn export_ignores_the_record(m: Arithmetic, a: CadIr, b: CadIr)
    requires
        a.ir_version@ == b.ir_version@,
        emit::source_format(a) == emit::source_format(b),
        same_shape(a.model, b.model),
        a.model.features@.to_multiset() == b.model.features@.to_multiset(),
        identity::told_apart(a.model.features@),
    ensures
        emit::exported(m, a) == emit::exported(m, b),
        emit::is_expressible(m, a.model) == emit::is_expressible(m, b.model),
        plan::is_attributable(m, a.model) == plan::is_attributable(m, b.model),
{
    let steps = plan::timeline(a.model);
    timeline_ignores_the_record(a.model, b.model);
    same_placement(m, a.model, b.model, a.model.sketches@.len() as int);
    same_resolution(m, a.model, b.model);
    let resolution = emit::resolution_of(m, a.model);
    let opened = emit::with_header(
        ProgramView { losses: plan::resolution_losses(m, a.model), ..ProgramView::empty() },
        a,
    ).line(emit::builder_line());
    assert(emit::header_lines(a) =~= emit::header_lines(b));
    same_steps(m, opened, a.model, b.model, resolution, steps, steps.len() as int);
    assert(emit::writes_steps(m, a.model, resolution, steps, steps.len() as int)
        == emit::writes_steps(m, b.model, resolution, steps, steps.len() as int));
}

// ---------------------------------------------------------------------------
// features that are switched off
// ---------------------------------------------------------------------------

proof fn prefix_order(items: Seq<Feature>, k: int, extra: Feature, n: int)
    requires
        0 <= n <= k <= items.len(),
    ensures
        list::stable_order(items.insert(k, extra), n) == list::stable_order(items, n),
    decreases n,
{
    if n > 0 {
        prefix_order(items, k, extra, n - 1);
        assert(items.insert(k, extra)[n - 1] == items[n - 1]);
    }
}

/// Whether a place in a timeline has everything that comes before a feature ahead
/// of it, and everything that comes after the feature behind it.
spec fn parts_at(sorted: Seq<Feature>, extra: Feature, at: int) -> bool {
    &&& 0 <= at <= sorted.len()
    &&& forall|i: int| 0 <= i < at ==> (#[trigger] sorted[i]).before(extra)
    &&& forall|i: int| at <= i < sorted.len() ==> extra.before(#[trigger] sorted[i])
}

/// Features of different identities come one before the other.
proof fn fresh_is_ordered(a: Feature, b: Feature)
    requires
        a.id@ != b.id@,
    ensures
        a.before(b) != b.before(a),
{
    plan::features_are_orderly();
    if !a.before(b) && !b.before(a) {
        features_apart_are_ordered(a, b);
    }
}

/// What comes before a feature comes before what comes after it.
proof fn before_is_transitive(a: Feature, b: Feature, c: Feature)
    requires
        a.before(b),
        b.before(c),
    ensures
        a.before(c),
{
    plan::features_are_orderly();
    assert(!c.before(b));
    if !a.before(c) {
        assert(!a.before(b));
    }
}

/// Where a feature parts a timeline, sorting in another one keeps the two parts.
proof fn sorting_in_keeps_parts(sorted: Seq<Feature>, extra: Feature, at: int, item: Feature) -> (
    next: int)
    requires
        list::in_order(sorted),
        parts_at(sorted, extra, at),
        item.id@ != extra.id@,
    ensures
        ({
            let more = sorted.insert(at, extra);
            let all = sorted.len() as int;
            let one = sorted.insert(list::slot(sorted, item, all), item);
            let both = more.insert(list::slot(more, item, all + 1), item);
            parts_at(one, extra, next) && both == one.insert(next, extra)
        }),
{
    plan::features_are_orderly();
    let all = sorted.len() as int;
    let more = sorted.insert(at, extra);
    assert forall|i: int, j: int| 0 <= i < j < more.len() implies !(#[trigger] more[j].before(
        #[trigger] more[i],
    )) by {
        if j == at {
            assert(more[i] == sorted[i]);
        } else if i == at {
            assert(more[j] == sorted[j - 1]);
        } else {
            let a = if i < at {
                i
            } else {
                i - 1
            };
            let b = if j < at {
                j
            } else {
                j - 1
            };
            assert(more[i] == sorted[a] && more[j] == sorted[b]);
        }
    }
    let s = list::slot(sorted, item, all);
    let t = list::slot(more, item, all + 1);
    list::slot_in_range(sorted, item, all);
    list::slot_in_range(more, item, all + 1);
    list::slot_divides(sorted, item, all);
    list::slot_divides(more, item, all + 1);
    fresh_is_ordered(item, extra);
    let one = sorted.insert(s, item);
    let both = more.insert(t, item);
    if item.before(extra) {
        if s > at {
            assert(extra.before(sorted[at]));
            before_is_transitive(item, extra, sorted[at]);
        }
        if t < s {
            assert(more[t] == sorted[t]);
        }
        if t > s {
            assert(item.before(more[s])) by {
                if s < at {
                    assert(more[s] == sorted[s]);
                } else {
                    assert(more[s] == extra);
                }
            }
        }
        assert(both =~= one.insert(at + 1, extra));
        assert forall|i: int| 0 <= i < at + 1 implies (#[trigger] one[i]).before(extra) by {
            if i != s {
                assert(one[i] == sorted[if i < s {
                    i
                } else {
                    i - 1
                }]);
            }
        }
        assert forall|i: int| at + 1 <= i < one.len() implies extra.before(#[trigger] one[i]) by {
            assert(one[i] == sorted[i - 1]);
        }
        at + 1
    } else {
        if s < at {
            assert(sorted[s].before(extra));
            before_is_transitive(item, sorted[s], extra);
        }
        if t <= s {
            assert(!item.before(more[t])) by {
                if t < at {
                    assert(more[t] == sorted[t]);
                } else if t == at {
                    assert(more[t] == extra);
                } else {
                    assert(more[t] == sorted[t - 1]);
                }
            }
        }
        if t > s + 1 {
            assert(more[s + 1] == sorted[s]);
        }
        assert(both =~= one.insert(at, extra));
        assert forall|i: int| 0 <= i < at implies (#[trigger] one[i]).before(extra) by {
            assert(one[i] == sorted[i]);
        }
        assert forall|i: int| at <= i < one.len() implies extra.before(#[trigger] one[i]) by {
            if i != s {
                assert(one[i] == sorted[if i < s {
                    i
                } else {
                    i - 1
                }]);
            }
        }
        at
    }
}

/// Where a feature of a fresh identity enters the timeline.
proof fn fresh_feature_enters(items: Seq<Feature>, k: int, extra: Feature, n: int) -> (at: int)
    requires
        0 <= k <= n <= items.len(),
        forall|i: int| 0 <= i < items.len() ==> (#[trigger] items[i]).id@ != extra.id@,
    ensures
        parts_at(list::stable_order(items, n), extra, at),
        list::stable_order(items.insert(k, extra), n + 1) == list::stable_order(items, n).insert(
            at,
            extra,
        ),
    decreases n,
{
    let more = items.insert(k, extra);
    let sorted = list::stable_order(items, n);
    plan::features_are_orderly();
    list::stable_order_is_ordered(items, n);
    if n == k {
        prefix_order(items, k, extra, n);
        assert(more[n] == extra);
        let at = list::slot(sorted, extra, sorted.len() as int);
        list::slot_in_range(sorted, extra, sorted.len() as int);
        list::slot_divides(sorted, extra, sorted.len() as int);
        assert forall|i: int| 0 <= i < at implies (#[trigger] sorted[i]).before(extra) by {
            sorted_come_from(items, n, i);
            fresh_is_ordered(sorted[i], extra);
        }
        at
    } else {
        let before = fresh_feature_enters(items, k, extra, n - 1);
        list::stable_order_is_ordered(items, n - 1);
        assert(more[n] == items[n - 1]);
        let rest = list::stable_order(items, n - 1);
        assert(list::stable_order(more, n) == rest.insert(before, extra));
        sorting_in_keeps_parts(rest, extra, before, items[n - 1])
    }
}

/// What stands in a timeline is one of the features it was made of.
proof fn sorted_come_from(items: Seq<Feature>, n: int, i: int)
    requires
        0 <= n <= items.len(),
        0 <= i < list::stable_order(items, n).len(),
    ensures
        exists|j: int| 0 <= j < n && #[trigger] items[j] == list::stable_order(items, n)[i],
{
    broadcast use vstd::seq_lib::group_to_multiset_ensures;

    plan::features_are_orderly();
    list::stable_order_is_ordered(items, n);
    let sorted = list::stable_order(items, n);
    assert(sorted.contains(sorted[i]));
    assert(items.take(n).to_multiset().count(sorted[i]) > 0);
    assert(items.take(n).contains(sorted[i]));
    let j = choose|j: int| 0 <= j < n && items.take(n)[j] == sorted[i];
    assert(items[j] == sorted[i]);
}

/// One more feature enters the timeline at one place and moves no other.
proof fn timeline_gains(a: Model, b: Model, k: int, extra: Feature) -> (at: int)
    requires
        0 <= k <= a.features@.len(),
        b.features@ == a.features@.insert(k, extra),
        k == a.features@.len() || is_fresh(a.features@, extra),
    ensures
        0 <= at <= plan::timeline(a).len(),
        plan::timeline(b) == plan::timeline(a).insert(at, extra),
{
    let items = a.features@;
    let all = items.len() as int;
    if k == all {
        let rest = plan::timeline(a);
        let at = list::slot(rest, extra, rest.len() as int);
        list::slot_in_range(rest, extra, rest.len() as int);
        prefix_order(items, all, extra, all);
        at
    } else {
        fresh_feature_enters(items, k, extra, all)
    }
}

/// Whether no feature carries the identity of another.
pub open spec fn is_fresh(features: Seq<Feature>, extra: Feature) -> bool {
    forall|i: int| 0 <= i < features.len() ==> (#[trigger] features[i]).id@ != extra.id@
}

proof fn outlines_pass_over(
    m: Arithmetic,
    frames: Map<Seq<char>, SketchFrame>,
    steps: Seq<Feature>,
    at: int,
    extra: Feature,
    n: int,
)
    requires
        0 <= at <= steps.len(),
        0 <= n <= steps.len(),
        plan::is_suppressed(extra),
    ensures
        n <= at ==> plan::outlined(m, frames, steps.insert(at, extra), n) == plan::outlined(
            m,
            frames,
            steps,
            n,
        ) && plan::outline_losses(m, frames, steps.insert(at, extra), n)
            == plan::outline_losses(m, frames, steps, n),
        n >= at ==> plan::outlined(m, frames, steps.insert(at, extra), n + 1) == plan::outlined(
            m,
            frames,
            steps,
            n,
        ) && plan::outline_losses(m, frames, steps.insert(at, extra), n + 1)
            == plan::outline_losses(m, frames, steps, n),
    decreases n,
{
    let more = steps.insert(at, extra);
    if n > 0 {
        outlines_pass_over(m, frames, steps, at, extra, n - 1);
        if n <= at {
            assert(more[n - 1] == steps[n - 1]);
        }
        if n > at {
            assert(more[n] == steps[n - 1]);
        }
    }
    if n == at {
        assert(more[n] == extra);
        assert(plan::outline(m, frames, extra) is None);
        assert(plan::outlined(m, frames, more, n) == plan::outlined(m, frames, steps, n));
        assert(plan::outline_losses(m, frames, more, n) == plan::outline_losses(
            m,
            frames,
            steps,
            n,
        ));
    }
}

/// A program with one more note in its report.
pub open spec fn with_note(p: ProgramView, place: int, note: LossView) -> ProgramView {
    ProgramView { losses: p.losses.insert(place, note), ..p }
}

proof fn loss_keeps_note(p: ProgramView, place: int, note: LossView, next: LossView)
    requires
        0 <= place <= p.losses.len(),
    ensures
        with_note(p, place, note).loss(next) == with_note(p.loss(next), place, note),
{
    assert(p.losses.insert(place, note).push(next) =~= p.losses.push(next).insert(place, note));
}

proof fn loops_keep_note(
    m: Arithmetic,
    p: ProgramView,
    place: int,
    note: LossView,
    arrangements: Map<Seq<char>, ArrangementView>,
    sketch: Seq<char>,
    loops: Seq<(usize, bool)>,
    n: int,
)
    requires
        0 <= place <= p.losses.len(),
    ensures
        ({
            let q = emit::with_loops(m, p, arrangements, sketch, loops, n);
            &&& p.losses.len() <= q.losses.len()
            &&& emit::with_loops(
                m,
                with_note(p, place, note),
                arrangements,
                sketch,
                loops,
                n,
            ) == with_note(q, place, note)
        }),
    decreases n,
{
    if n > 0 {
        loops_keep_note(m, p, place, note, arrangements, sketch, loops, n - 1);
        let before = emit::with_loops(m, p, arrangements, sketch, loops, n - 1);
        loss_keeps_note(before, place, note, wording::not_a_circle(sketch, loops[n - 1].0));
    }
}

proof fn sketch_keeps_note(
    m: Arithmetic,
    p: ProgramView,
    place: int,
    note: LossView,
    frames: Map<Seq<char>, SketchFrame>,
    arrangements: Map<Seq<char>, ArrangementView>,
    sketch: Seq<char>,
    regions: Seq<RegionView>,
)
    requires
        0 <= place <= p.losses.len(),
    ensures
        ({
            let q = emit::with_sketch(m, p, frames, arrangements, sketch, regions);
            &&& p.losses.len() <= q.losses.len()
            &&& emit::with_sketch(
                m,
                with_note(p, place, note),
                frames,
                arrangements,
                sketch,
                regions,
            ) == with_note(q, place, note)
        }),
{
    if frames.contains_key(sketch) {
        let loops = emit::region_loops(regions, regions.len() as int);
        let all = loops.len() as int;
        let opened = p.next_sketch().body_line(
            wording::sketch_line(m, frames[sketch], p.sketch_seq),
        );
        let others = emit::other_loops(arrangements, sketch, loops, all);
        let some = others.len() as int;
        loops_keep_note(m, p, place, note, arrangements, sketch, others, some);
        loops_keep_note(m, opened, place, note, arrangements, sketch, loops, all);
    }
}

proof fn body_lines_keep_note(
    p: ProgramView,
    place: int,
    note: LossView,
    lines: Seq<Seq<char>>,
    n: int,
)
    ensures
        emit::with_body_lines(with_note(p, place, note), lines, n) == with_note(
            emit::with_body_lines(p, lines, n),
            place,
            note,
        ),
        emit::with_body_lines(p, lines, n).losses == p.losses,
    decreases n,
{
    if n > 0 {
        body_lines_keep_note(p, place, note, lines, n - 1);
    }
}

proof fn groups_keep_note(
    m: Arithmetic,
    p: ProgramView,
    place: int,
    note: LossView,
    model: Model,
    feature: Feature,
    groups: Seq<FilletGroup>,
    n: int,
)
    requires
        0 <= place <= p.losses.len(),
    ensures
        ({
            let q = emit::after_groups(m, p, model, feature, groups, n);
            &&& p.losses.len() <= q.losses.len()
            &&& emit::after_groups(
                m,
                with_note(p, place, note),
                model,
                feature,
                groups,
                n,
            ) == with_note(q, place, note)
        }),
    decreases n,
{
    if n > 0 {
        groups_keep_note(m, p, place, note, model, feature, groups, n - 1);
        let before = emit::after_groups(m, p, model, feature, groups, n - 1);
        match groups[n - 1].radius {
            RadiusSpec::Constant { radius } => {
                let edges = emit::blended(m, model, radius);
                let lines = emit::fillet_lines(m, feature, radius, edges, before.blend_seq);
                let all = lines.len() as int;
                body_lines_keep_note(before.next_blend(), place, note, lines, all);
                loss_keeps_note(
                    before,
                    place,
                    note,
                    wording::no_blend_face(m, feature, radius),
                );
            },
            RadiusSpec::Other => {
                loss_keeps_note(before, place, note, wording::varying_radius(feature, n - 1));
            },
        }
    }
}

proof fn extrude_keeps_note(
    m: Arithmetic,
    p: ProgramView,
    place: int,
    note: LossView,
    resolution: Resolution,
    feature: Feature,
)
    requires
        0 <= place <= p.losses.len(),
    ensures
        ({
            let q = emit::after_extrude(m, p, resolution, feature);
            &&& p.losses.len() <= q.losses.len()
            &&& emit::after_extrude(m, with_note(p, place, note), resolution, feature)
                == with_note(q, place, note)
        }),
{
    loss_keeps_note(p, place, note, wording::unresolved_profile(feature));
    loss_keeps_note(p, place, note, wording::unresolved_operation(feature));
    if let Some(plan) = emit::plan_for(resolution.plans, feature) {
        if let Some(resolved) = plan.profile {
            if let Some(travel) = frame::travel(m, plan.extent) {
                let frames = resolution.frames;
                let arrangements = resolution.arrangements;
                let sketch = resolved.sketch;
                let regions = resolved.regions;
                sketch_keeps_note(m, p, place, note, frames, arrangements, sketch, regions);
                let undrawn = emit::with_sketch(m, p, frames, arrangements, sketch, regions);
                loss_keeps_note(undrawn, place, note, wording::undrawn(feature));
                loss_keeps_note(p.next_body(), place, note, wording::further_body(feature));
                let started = emit::with_body(p, feature, plan.op);
                assert(emit::with_body(with_note(p, place, note), feature, plan.op) == with_note(
                    started,
                    place,
                    note,
                ));
                let commented = started.body_line(""@).body_line(
                    wording::extrude_comment(m, feature, plan.op, travel, resolved.inference),
                );
                sketch_keeps_note(
                    m,
                    commented,
                    place,
                    note,
                    frames,
                    arrangements,
                    sketch,
                    regions,
                );
                let sketched = emit::with_sketch(
                    m,
                    commented,
                    frames,
                    arrangements,
                    sketch,
                    regions,
                );
                loss_keeps_note(sketched, place, note, wording::halved(feature));
                assert(emit::with_travel(
                    m,
                    with_note(sketched, place, note),
                    feature,
                    plan.op,
                    travel,
                ) == with_note(
                    emit::with_travel(m, sketched, feature, plan.op, travel),
                    place,
                    note,
                ));
            }
        }
    }
}

proof fn step_keeps_note(
    m: Arithmetic,
    p: ProgramView,
    place: int,
    note: LossView,
    model: Model,
    resolution: Resolution,
    feature: Feature,
)
    requires
        0 <= place <= p.losses.len(),
    ensures
        ({
            let q = emit::after_step(m, p, model, resolution, feature);
            &&& p.losses.len() <= q.losses.len()
            &&& emit::after_step(m, with_note(p, place, note), model, resolution, feature)
                == with_note(q, place, note)
        }),
{
    loss_keeps_note(p, place, note, wording::suppressed_note(feature));
    loss_keeps_note(p, place, note, wording::without_groups(feature));
    loss_keeps_note(p, place, note, wording::unsupported_family(feature));
    match feature.definition {
        FeatureDefinition::Extrude { .. } => {
            extrude_keeps_note(m, p, place, note, resolution, feature);
        },
        FeatureDefinition::Fillet { groups } => {
            let all = groups@.len() as int;
            groups_keep_note(m, p, place, note, model, feature, groups@, all);
        },
        _ => {},
    }
}

proof fn steps_keep_note(
    m: Arithmetic,
    p: ProgramView,
    model: Model,
    resolution: Resolution,
    steps: Seq<Feature>,
    at: int,
    extra: Feature,
    n: int,
)
    requires
        0 <= at <= steps.len(),
        0 <= n <= steps.len(),
        plan::is_suppressed(extra),
    ensures
        ({
            let more = steps.insert(at, extra);
            let here = emit::after_steps(m, p, model, resolution, steps, n);
            let place = emit::after_steps(m, p, model, resolution, steps, at).losses.len() as int;
            &&& n <= at ==> emit::after_steps(m, p, model, resolution, more, n) == here
            &&& n >= at ==> {
                &&& place <= here.losses.len()
                &&& emit::after_steps(m, p, model, resolution, more, n + 1) == with_note(
                    here,
                    place,
                    wording::suppressed_note(extra),
                )
            }
        }),
    decreases n,
{
    let more = steps.insert(at, extra);
    let note = wording::suppressed_note(extra);
    let place = emit::after_steps(m, p, model, resolution, steps, at).losses.len() as int;
    if n > 0 {
        steps_keep_note(m, p, model, resolution, steps, at, extra, n - 1);
        let before = emit::after_steps(m, p, model, resolution, steps, n - 1);
        if n <= at {
            assert(more[n - 1] == steps[n - 1]);
        }
        if n > at {
            assert(more[n] == steps[n - 1]);
            step_keeps_note(m, before, place, note, model, resolution, steps[n - 1]);
        }
    }
    if n == at {
        let here = emit::after_steps(m, p, model, resolution, steps, n);
        assert(more[n] == extra);
        assert(emit::after_steps(m, p, model, resolution, more, n) == here);
        assert(here.losses.insert(place, note) =~= here.losses.push(note));
    }
}

proof fn steps_written_alike(
    m: Arithmetic,
    model: Model,
    resolution: Resolution,
    steps: Seq<Feature>,
    at: int,
    extra: Feature,
)
    requires
        0 <= at <= steps.len(),
        plan::is_suppressed(extra),
    ensures
        emit::writes_steps(
            m,
            model,
            resolution,
            steps.insert(at, extra),
            steps.len() as int + 1,
        ) == emit::writes_steps(m, model, resolution, steps, steps.len() as int),
{
    let more = steps.insert(at, extra);
    let all = steps.len() as int;
    if emit::writes_steps(m, model, resolution, steps, all) {
        let k = choose|k: int|
            0 <= k < all && emit::writes_step(m, model, resolution, #[trigger] steps[k]);
        let moved = if k < at {
            k
        } else {
            k + 1
        };
        assert(more[moved] == steps[k]);
    }
    if emit::writes_steps(m, model, resolution, more, all + 1) {
        let k = choose|k: int|
            0 <= k < all + 1 && emit::writes_step(m, model, resolution, #[trigger] more[k]);
        assert(more[at] == extra);
        let moved = if k < at {
            k
        } else {
            k - 1
        };
        assert(more[k] == steps[moved]);
    }
}

/// One more feature that is switched off adds its note to the report and changes
/// nothing else: wherever a document lists it, if its identity is a fresh one, and
/// at the end of the list whatever its identity.
pub proof fn suppressed_features_only_leave_a_note(
    m: Arithmetic,
    a: CadIr,
    b: CadIr,
    k: int,
    extra: Feature,
)
    requires
        a.ir_version@ == b.ir_version@,
        emit::source_format(a) == emit::source_format(b),
        same_shape(a.model, b.model),
        0 <= k <= a.model.features@.len(),
        b.model.features@ == a.model.features@.insert(k, extra),
        k == a.model.features@.len() || is_fresh(a.model.features@, extra),
        plan::is_suppressed(extra),
    ensures
        exists|place: int|
            0 <= place <= emit::exported(m, a).losses.len() && emit::exported(m, b)
                == #[trigger] with_note(
                emit::exported(m, a),
                place,
                wording::suppressed_note(extra),
            ),
        emit::is_expressible(m, a.model) == emit::is_expressible(m, b.model),
        plan::is_attributable(m, a.model) == plan::is_attributable(m, b.model),
{
    let steps = plan::timeline(a.model);
    let all = steps.len() as int;
    let at = timeline_gains(a.model, b.model, k, extra);
    let more = plan::timeline(b.model);
    same_placement(m, a.model, b.model, a.model.sketches@.len() as int);
    outlines_pass_over(m, plan::frames_of(m, a.model), steps, at, extra, all);
    same_resolution(m, a.model, b.model);
    let resolution = emit::resolution_of(m, a.model);
    let opened = emit::with_header(
        ProgramView { losses: plan::resolution_losses(m, a.model), ..ProgramView::empty() },
        a,
    ).line(emit::builder_line());
    assert(emit::header_lines(a) =~= emit::header_lines(b));
    same_steps(m, opened, a.model, b.model, resolution, more, all + 1);
    assert(emit::writes_steps(m, a.model, resolution, more, all + 1) == emit::writes_steps(
        m,
        b.model,
        resolution,
        more,
        all + 1,
    ));
    steps_written_alike(m, a.model, resolution, steps, at, extra);
    steps_keep_note(m, opened, a.model, resolution, steps, at, extra, all);
    let place = emit::after_steps(m, opened, a.model, resolution, steps, at).losses.len() as int;
    assert(emit::exported(m, b) == with_note(
        emit::exported(m, a),
        place,
        wording::suppressed_note(extra),
    ));
}

} // verus!
