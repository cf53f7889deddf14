//! Documents whose features have identities of their own.

use crate::arrangement::ArrangementView;
use crate::assign;
use crate::assign::{Candidate, PendingView};
use crate::frame::SketchFrame;
use crate::ir::{Feature, Model};
use crate::kernel::{Arithmetic, Vec3};
use crate::list;
use crate::list::Ranked;
use crate::plan;
use crate::plan::PlanView;
use crate::program::LossView;
use crate::ring;
use crate::scalar::{Scalar, ZERO};
use vstd::prelude::*;

verus! {

/// Whether no two of some features share an identity.
pub open spec fn told_apart(features: Seq<Feature>) -> bool {
    forall|i: int, j: int|
        0 <= i < j < features.len() ==> (#[trigger] features[i]).id@ != (
        #[trigger] features[j]).id@
}

/// Whether no two plans belong to features of one identity.
pub open spec fn plans_told_apart(plans: Seq<PlanView>) -> bool {
    forall|i: int, j: int|
        0 <= i < j < plans.len() ==> (#[trigger] plans[i]).feature.id@ != (
        #[trigger] plans[j]).feature.id@
}

/// The timeline keeps identities apart.
pub proof fn timeline_is_told_apart(model: Model)
    requires
        told_apart(model.features@),
    ensures
        told_apart(plan::timeline(model)),
{
    broadcast use vstd::seq_lib::group_to_multiset_ensures;

    let features = model.features@;
    let steps = plan::timeline(model);
    plan::timeline_is_ordered(model);
    assert(features.no_duplicates()) by {
        assert forall|i: int, j: int|
            0 <= i < features.len() && 0 <= j < features.len() && i != j implies features[i]
            != features[j] by {
            if i < j {
                assert(features[i].id@ != features[j].id@);
            } else {
                assert(features[j].id@ != features[i].id@);
            }
        }
    }
    features.lemma_multiset_has_no_duplicates();
    steps.lemma_multiset_has_no_duplicates_conv();
    assert forall|i: int, j: int| 0 <= i < j < steps.len() implies (#[trigger] steps[i]).id@ != (
    #[trigger] steps[j]).id@ by {
        assert(steps[i] != steps[j]);
        assert(steps.contains(steps[i]) && steps.contains(steps[j]));
        assert(features.to_multiset().count(steps[i]) > 0);
        assert(features.to_multiset().count(steps[j]) > 0);
        assert(features.contains(steps[i]) && features.contains(steps[j]));
        let a = choose|a: int| 0 <= a < features.len() && features[a] == steps[i];
        let b = choose|b: int| 0 <= b < features.len() && features[b] == steps[j];
        if a < b {
            assert(features[a].id@ != features[b].id@);
        } else {
            assert(b < a);
            assert(features[b].id@ != features[a].id@);
        }
    }
}

proof fn outlines_are_told_apart(
    m: Arithmetic,
    frames: Map<Seq<char>, SketchFrame>,
    steps: Seq<Feature>,
    n: int,
)
    requires
        0 <= n <= steps.len(),
        told_apart(steps),
    ensures
        plans_told_apart(plan::outlined(m, frames, steps, n)),
    decreases n,
{
    if n > 0 {
        outlines_are_told_apart(m, frames, steps, n - 1);
        plan::plans_are_outlines(m, frames, steps, n - 1);
        let rest = plan::outlined(m, frames, steps, n - 1);
        let now = plan::outlined(m, frames, steps, n);
        assert forall|i: int, j: int| 0 <= i < j < now.len() implies (
        #[trigger] now[i]).feature.id@ != (#[trigger] now[j]).feature.id@ by {
            assert(now[i] == rest[i]);
            if j < rest.len() {
                assert(now[j] == rest[j]);
            } else {
                let k = choose|k: int|
                    0 <= k < n - 1 && plan::outline(m, frames, #[trigger] steps[k]) == Some(
                        Ok::<PlanView, LossView>(rest[i]),
                    );
                assert(steps[k].id@ != steps[n - 1].id@);
            }
        }
    }
}

/// The open plans are listed in order, and each is in range.
pub proof fn open_plans_ascend(
    plans: Seq<PlanView>,
    arrangements: Map<Seq<char>, ArrangementView>,
    n: int,
)
    requires
        0 <= n <= plans.len() <= usize::MAX,
    ensures
        ({
            let open = plan::open_plans(plans, arrangements, n);
            &&& forall|k: int| 0 <= k < open.len() ==> (#[trigger] open[k]).0 < n
            &&& forall|i: int, j: int|
                0 <= i < j < open.len() ==> (#[trigger] open[i]).0 < (#[trigger] open[j]).0
        }),
    decreases n,
{
    if n > 0 {
        open_plans_ascend(plans, arrangements, n - 1);
        let rest = plan::open_plans(plans, arrangements, n - 1);
        let now = plan::open_plans(plans, arrangements, n);
        assert forall|k: int| 0 <= k < now.len() implies (#[trigger] now[k]).0 < n by {
            if k < rest.len() {
                assert(now[k] == rest[k]);
            }
        }
        assert forall|i: int, j: int| 0 <= i < j < now.len() implies (#[trigger] now[i]).0 < (
        #[trigger] now[j]).0 by {
            assert(now[i] == rest[i]);
            if j < rest.len() {
                assert(now[j] == rest[j]);
            }
        }
    }
}

/// Every candidate for a ring names that ring.
proof fn candidates_name_ring(
    m: Arithmetic,
    model: Model,
    axis: Vec3,
    ring: ring::RingView,
    frame: SketchFrame,
    span: (Scalar, Scalar),
    n: int,
)
    ensures
        forall|k: int| #![trigger assign::candidates_of(m, model, axis, ring, frame, span, n)[k]]
            0 <= k < assign::candidates_of(m, model, axis, ring, frame, span, n).len()
                ==> assign::candidates_of(m, model, axis, ring, frame, span, n)[k].ring
                == ring.index,
    decreases n,
{
    if n > 0 {
        candidates_name_ring(m, model, axis, ring, frame, span, n - 1);
        let rest = assign::candidates_of(m, model, axis, ring, frame, span, n - 1);
        let now = assign::candidates_of(m, model, axis, ring, frame, span, n);
        assert forall|k: int| #![trigger now[k]] 0 <= k < now.len() implies now[k].ring
            == ring.index by {
            if k < rest.len() {
                assert(now[k] == rest[k]);
            }
        }
    }
}

/// Every candidate of an extrude names one of its rings.
proof fn candidates_name_rings(
    m: Arithmetic,
    model: Model,
    axis: Vec3,
    extrude: PendingView,
    n: int,
)
    requires
        0 <= n <= extrude.rings.len(),
        forall|i: int| 0 <= i < extrude.rings.len() ==> (#[trigger] extrude.rings[i]).index == i,
    ensures
        forall|k: int| #![trigger assign::ring_by_ring(m, model, axis, extrude, n)[k]]
            0 <= k < assign::ring_by_ring(m, model, axis, extrude, n).len()
                ==> assign::ring_by_ring(m, model, axis, extrude, n)[k].ring
                < extrude.rings.len(),
    decreases n,
{
    if n > 0 {
        candidates_name_rings(m, model, axis, extrude, n - 1);
        let ring = extrude.rings[n - 1];
        let all = model.surfaces@.len() as int;
        candidates_name_ring(m, model, axis, ring, extrude.frame, extrude.span, all);
        let rest = assign::ring_by_ring(m, model, axis, extrude, n - 1);
        let more = assign::candidates_of(
            m,
            model,
            axis,
            ring,
            extrude.frame,
            extrude.span,
            all,
        );
        let now = assign::ring_by_ring(m, model, axis, extrude, n);
        assert forall|k: int| #![trigger now[k]] 0 <= k < now.len() implies now[k].ring
            < extrude.rings.len() by {
            if k < rest.len() {
                assert(now[k] == rest[k]);
            } else {
                assert(now[k] == more[k - rest.len()]);
            }
        }
    }
}

/// Every option of an extrude names one of its rings.
proof fn options_name_rings(m: Arithmetic, model: Model, axis: Vec3, extrude: PendingView)
    requires
        forall|i: int| 0 <= i < extrude.rings.len() ==> (#[trigger] extrude.rings[i]).index == i,
    ensures
        forall|k: int| #![trigger assign::options_of(m, model, axis, extrude)[k]]
            0 <= k < assign::options_of(m, model, axis, extrude).len() ==> assign::options_of(
                m,
                model,
                axis,
                extrude,
            )[k].ring < extrude.rings.len(),
{
    broadcast use vstd::seq_lib::group_to_multiset_ensures;

    let found = assign::ring_by_ring(m, model, axis, extrude, extrude.rings.len() as int);
    let sorted = assign::options_of(m, model, axis, extrude);
    candidates_name_rings(m, model, axis, extrude, extrude.rings.len() as int);
    assert(list::orderly::<Candidate>()) by {
        assert forall|a: Candidate, b: Candidate, c: Candidate|
            !(#[trigger] b.before(a)) && !(#[trigger] c.before(b)) implies !c.before(a) by {}
    }
    list::stable_order_is_ordered(found, found.len() as int);
    assert(found.take(found.len() as int) =~= found);
    assert forall|k: int| #![trigger sorted[k]] 0 <= k < sorted.len() implies sorted[k].ring
        < extrude.rings.len() by {
        assert(sorted.contains(sorted[k]));
        assert(found.to_multiset().count(sorted[k]) > 0);
        assert(found.contains(sorted[k]));
        let i = choose|i: int| 0 <= i < found.len() && found[i] == sorted[k];
        assert(found[i].ring < extrude.rings.len());
    }
}

/// An identity that occurs once is attributed the ring its own feature was given.
proof fn attributed_is_own(ids: Seq<Seq<char>>, rings: Seq<Option<usize>>, n: int, k: int)
    requires
        0 <= k < ids.len(),
        0 <= n <= ids.len(),
        forall|j: int| 0 <= j < n && j != k ==> #[trigger] ids[j] != ids[k],
    ensures
        assign::attributed(ids, rings, n).contains_key(ids[k]) ==> k < n && rings[k] == Some(
            assign::attributed(ids, rings, n)[ids[k]],
        ),
    decreases n,
{
    if n > 0 {
        attributed_is_own(ids, rings, n - 1, k);
        assert(n - 1 != k ==> ids[n - 1] != ids[k]);
    }
}

/// Where no two features share an identity, every exterior loop attributed to an
/// extrude is a loop of the extrude's own sketch.
pub proof fn distinct_features_are_attributable(m: Arithmetic, model: Model)
    requires
        told_apart(model.features@),
    ensures
        plan::is_attributable(m, model),
{
    let frames = plan::frames_of(m, model);
    let arranged = plan::arrangements_of(m, model);
    let steps = plan::timeline(model);
    let plans = plan::plans_of(m, model);
    let open = plan::open_of(m, model);
    let rings = plan::rings_of(m, model);
    timeline_is_told_apart(model);
    outlines_are_told_apart(m, frames, steps, steps.len() as int);
    plan::plans_fit(m, model);
    open_plans_ascend(plans, arranged, plans.len() as int);
    if open.len() > 0 {
        let axis = plan::reference_of(plans);
        let pending = plan::attribution_inputs(plans, arranged, open);
        let options = assign::all_options(m, model, axis, pending);
        let ids = assign::pending_ids(pending);
        assign::search_answers_each(
            m,
            options,
            0,
            Seq::empty(),
            Seq::empty(),
            Scalar { bits: ZERO },
            None,
        );
        let found = assign::best_assignment(m, model, axis, pending)->0;
        assert forall|k: int| 0 <= k < open.len() implies {
            let plan = plans[(#[trigger] open[k]).0 as int];
            rings.contains_key(plan.feature.id@) ==> rings[plan.feature.id@]
                < arranged[plan.sketch].regions.len()
        } by {
            let plan = plans[open[k].0 as int];
            let own = pending[k];
            assert(own == plan::pending_view(plan, arranged));
            assert(ids[k] == plan.feature.id@);
            assert forall|j: int| 0 <= j < ids.len() && j != k implies #[trigger] ids[j]
                != ids[k] by {
                assert(ids[j] == plans[open[j].0 as int].feature.id@);
                if j < k {
                    assert(open[j].0 < open[k].0);
                } else {
                    assert(open[k].0 < open[j].0);
                }
            }
            attributed_is_own(ids, found.1, ids.len() as int, k);
            plan::planned_sketch_is_sound(m, model, open[k].0 as int);
            options_name_rings(m, model, axis, own);
            if rings.contains_key(ids[k]) {
                let ring = rings[ids[k]];
                assert(found.1[k] == Some(ring));
                assert(options[k] == assign::options_of(m, model, axis, own));
                let c = choose|c: int|
                    0 <= c < options[k].len() && (#[trigger] options[k][c]).ring == ring;
                assert(options[k][c].ring < own.rings.len());
            }
        }
    }
}

} // verus!
