//! How every planned extrude is settled.

use crate::arrangement::ArrangementView;
use crate::identity;
use crate::ir::Model;
use crate::kernel::Arithmetic;
use crate::meridian::MeridianView;
use crate::plan;
use crate::plan::PlanView;
use crate::program::LossView;
use vstd::prelude::*;

verus! {

/// Whether the open plans are listed in order and in range, and have no profile.
spec fn are_open(plans: Seq<PlanView>, open: Seq<(usize, Seq<char>)>) -> bool {
    &&& forall|k: int|
        0 <= k < open.len() ==> (#[trigger] open[k]).0 < plans.len()
            && plans[open[k].0 as int].profile is None
    &&& forall|i: int, j: int|
        0 <= i < j < open.len() ==> (#[trigger] open[i]).0 < (#[trigger] open[j]).0
}

/// What an open plan becomes once it is settled.
pub open spec fn settlement(
    m: Arithmetic,
    plans: Seq<PlanView>,
    arrangements: Map<Seq<char>, ArrangementView>,
    rings: Map<Seq<char>, usize>,
    solid: Option<MeridianView>,
    plan: PlanView,
) -> PlanView {
    if rings.contains_key(plan.feature.id@) {
        plan.with_profile(plan::inferred_for(m, plans, arrangements, rings, solid, plan))
    } else {
        plan
    }
}

/// What the first `n` open plans become.
proof fn settled_so_far(
    m: Arithmetic,
    plans: Seq<PlanView>,
    arrangements: Map<Seq<char>, ArrangementView>,
    rings: Map<Seq<char>, usize>,
    solid: Option<MeridianView>,
    open: Seq<(usize, Seq<char>)>,
    n: int,
)
    requires
        are_open(plans, open),
        0 <= n <= open.len(),
    ensures
        ({
            let now = plan::settled(m, plans, arrangements, rings, solid, open, n);
            &&& plan::same_outline(now, plans)
            &&& forall|k: int| #![trigger open[k]]
                0 <= k < open.len() ==> now[open[k].0 as int] == if k < n {
                    settlement(
                        m,
                        plans,
                        arrangements,
                        rings,
                        solid,
                        plans[open[k].0 as int],
                    )
                } else {
                    plans[open[k].0 as int]
                }
            &&& forall|i: int| #![trigger now[i]]
                0 <= i < plans.len() && (forall|k: int|
                    0 <= k < open.len() ==> (#[trigger] open[k]).0 != i) ==> now[i] == plans[i]
        }),
    decreases n,
{
    if n > 0 {
        settled_so_far(m, plans, arrangements, rings, solid, open, n - 1);
        let rest = plan::settled(m, plans, arrangements, rings, solid, open, n - 1);
        let now = plan::settled(m, plans, arrangements, rings, solid, open, n);
        let place = open[n - 1].0 as int;
        assert(rest[place] == plans[place]);
        plan::cuts_ignore_inference(
            rest,
            plans,
            arrangements,
            rings,
            plans[place].feature.ordinal,
            plans.len() as int,
        );
        assert forall|k: int| #![trigger open[k]] 0 <= k < open.len() implies now[open[k].0 as int]
            == if k < n {
            settlement(m, plans, arrangements, rings, solid, plans[open[k].0 as int])
        } else {
            plans[open[k].0 as int]
        } by {
            if k < n - 1 {
                assert(open[k].0 < open[n - 1].0);
            } else if k > n - 1 {
                assert(open[n - 1].0 < open[k].0);
            }
        }
    }
}

/// Each plan without a readable profile is listed as open, and the others are
/// not.
pub proof fn open_where_unread(
    plans: Seq<PlanView>,
    arrangements: Map<Seq<char>, ArrangementView>,
    n: int,
    i: int,
)
    requires
        0 <= i < plans.len() <= usize::MAX,
        0 <= n <= plans.len(),
    ensures
        ({
            let open = plan::open_plans(plans, arrangements, n);
            match plan::reading(plans[i], arrangements) {
                Ok(_) => forall|k: int| 0 <= k < open.len() ==> (#[trigger] open[k]).0 != i,
                Err(reason) => i < n ==> exists|k: int|
                    0 <= k < open.len() && #[trigger] open[k] == (i as usize, reason),
            }
        }),
    decreases n,
{
    if n > 0 {
        open_where_unread(plans, arrangements, n - 1, i);
        let rest = plan::open_plans(plans, arrangements, n - 1);
        let now = plan::open_plans(plans, arrangements, n);
        match plan::reading(plans[i], arrangements) {
            Ok(_) => {
                assert forall|k: int| 0 <= k < now.len() implies (#[trigger] now[k]).0 != i by {
                    if k < rest.len() {
                        assert(now[k] == rest[k]);
                    }
                }
            },
            Err(reason) => {
                if i < n - 1 {
                    let k = choose|k: int|
                        0 <= k < rest.len() && #[trigger] rest[k] == (i as usize, reason);
                    assert(now[k] == (i as usize, reason));
                } else if i == n - 1 {
                    assert(now[rest.len() as int] == (i as usize, reason));
                }
            },
        }
    }
}

/// The note an open plan leaves, if any.
pub open spec fn settle_note(
    m: Arithmetic,
    plans: Seq<PlanView>,
    arrangements: Map<Seq<char>, ArrangementView>,
    rings: Map<Seq<char>, usize>,
    solid: Option<MeridianView>,
    plan: PlanView,
    reason: Seq<char>,
) -> Option<LossView> {
    if !rings.contains_key(plan.feature.id@) {
        Some(plan::unattributed(plan.feature, reason))
    } else if plan::is_guessed(m, plans, arrangements, rings, solid, plan) {
        Some(plan::stands_in(plan.feature))
    } else {
        None
    }
}

/// The notes on the first `n` open plans are those that each of them leaves.
proof fn open_plans_are_noted(
    m: Arithmetic,
    plans: Seq<PlanView>,
    arrangements: Map<Seq<char>, ArrangementView>,
    rings: Map<Seq<char>, usize>,
    solid: Option<MeridianView>,
    open: Seq<(usize, Seq<char>)>,
    n: int,
    k: int,
)
    requires
        are_open(plans, open),
        0 <= k < n <= open.len(),
    ensures
        settle_note(
            m,
            plans,
            arrangements,
            rings,
            solid,
            plans[open[k].0 as int],
            open[k].1,
        ) matches Some(note) ==> plan::settle_losses(
            m,
            plans,
            arrangements,
            rings,
            solid,
            open,
            n,
        ).contains(note),
    decreases n,
{
    let found = settle_note(
        m,
        plans,
        arrangements,
        rings,
        solid,
        plans[open[k].0 as int],
        open[k].1,
    );
    let rest = plan::settle_losses(m, plans, arrangements, rings, solid, open, n - 1);
    let all = plan::settle_losses(m, plans, arrangements, rings, solid, open, n);
    if k < n - 1 {
        open_plans_are_noted(m, plans, arrangements, rings, solid, open, n - 1, k);
        if let Some(note) = found {
            let at = choose|at: int| 0 <= at < rest.len() && rest[at] == note;
            assert(all[at] == note);
        }
    } else {
        settled_so_far(m, plans, arrangements, rings, solid, open, n - 1);
        let now = plan::settled(m, plans, arrangements, rings, solid, open, n - 1);
        let plan = plans[open[k].0 as int];
        assert(now[open[k].0 as int] == plan);
        plan::cuts_ignore_inference(
            now,
            plans,
            arrangements,
            rings,
            plan.feature.ordinal,
            plans.len() as int,
        );
        if let Some(note) = found {
            assert(all[rest.len() as int] == note);
        }
    }
}

/// The notes the first `n` open plans leave.
pub open spec fn notes_left(
    m: Arithmetic,
    plans: Seq<PlanView>,
    arrangements: Map<Seq<char>, ArrangementView>,
    rings: Map<Seq<char>, usize>,
    solid: Option<MeridianView>,
    open: Seq<(usize, Seq<char>)>,
    n: int,
) -> Seq<LossView>
    decreases n,
{
    if n <= 0 {
        Seq::empty()
    } else {
        let rest = notes_left(m, plans, arrangements, rings, solid, open, n - 1);
        match settle_note(
            m,
            plans,
            arrangements,
            rings,
            solid,
            plans[open[n - 1].0 as int],
            open[n - 1].1,
        ) {
            Some(note) => rest.push(note),
            None => rest,
        }
    }
}

proof fn open_plans_leave_their_notes(
    m: Arithmetic,
    plans: Seq<PlanView>,
    arrangements: Map<Seq<char>, ArrangementView>,
    rings: Map<Seq<char>, usize>,
    solid: Option<MeridianView>,
    open: Seq<(usize, Seq<char>)>,
    n: int,
)
    requires
        are_open(plans, open),
        0 <= n <= open.len(),
    ensures
        plan::settle_losses(m, plans, arrangements, rings, solid, open, n) == notes_left(
            m,
            plans,
            arrangements,
            rings,
            solid,
            open,
            n,
        ),
    decreases n,
{
    if n > 0 {
        open_plans_leave_their_notes(m, plans, arrangements, rings, solid, open, n - 1);
        settled_so_far(m, plans, arrangements, rings, solid, open, n - 1);
        let now = plan::settled(m, plans, arrangements, rings, solid, open, n - 1);
        let plan = plans[open[n - 1].0 as int];
        assert(now[open[n - 1].0 as int] == plan);
        plan::cuts_ignore_inference(
            now,
            plans,
            arrangements,
            rings,
            plan.feature.ordinal,
            plans.len() as int,
        );
    }
}

/// Settling leaves the notes of the open plans and no others.
pub proof fn settling_leaves_no_other_notes(m: Arithmetic, model: Model)
    ensures
        ({
            let open = plan::open_of(m, model);
            let all = open.len() as int;
            plan::settle_losses(
                m,
                plan::plans_read(m, model),
                plan::arrangements_of(m, model),
                plan::rings_of(m, model),
                plan::solid_of(m, model),
                open,
                all,
            ) == notes_left(
                m,
                plan::plans_read(m, model),
                plan::arrangements_of(m, model),
                plan::rings_of(m, model),
                plan::solid_of(m, model),
                open,
                all,
            )
        }),
{
    let open = plan::open_of(m, model);
    open_of_document(m, model);
    open_plans_leave_their_notes(
        m,
        plan::plans_read(m, model),
        plan::arrangements_of(m, model),
        plan::rings_of(m, model),
        plan::solid_of(m, model),
        open,
        open.len() as int,
    );
}

/// What becomes of a planned extrude: its profile as read from the document,
/// else a profile inferred within its attributed exterior loop, else a note that
/// gives the reason. An inferred profile for which no region was found to hold
/// material is noted too.
pub open spec fn outcome(m: Arithmetic, model: Model, i: int) -> bool {
    let arrangements = plan::arrangements_of(m, model);
    let own = plan::plans_of(m, model)[i];
    let read_plans = plan::plans_read(m, model);
    let settled = plan::resolved_plans(m, model)[i];
    let rings = plan::rings_of(m, model);
    let solid = plan::solid_of(m, model);
    match plan::reading(own, arrangements) {
        Ok(read) => settled == own.with_profile(read),
        Err(reason) => {
            &&& settled == settlement(m, read_plans, arrangements, rings, solid, own)
            &&& settle_note(
                m,
                read_plans,
                arrangements,
                rings,
                solid,
                own,
                reason,
            ) matches Some(note) ==> plan::resolution_losses(m, model).contains(note)
        },
    }
}

/// The open plans of a document are open in what was read of it.
proof fn open_of_document(m: Arithmetic, model: Model)
    ensures
        are_open(plan::plans_read(m, model), plan::open_of(m, model)),
{
    let arrangements = plan::arrangements_of(m, model);
    let plans = plan::plans_of(m, model);
    let open = plan::open_of(m, model);
    let steps = plan::timeline(model);
    plan::plans_fit(m, model);
    identity::open_plans_ascend(plans, arrangements, plans.len() as int);
    plan::plans_are_outlines(m, plan::frames_of(m, model), steps, steps.len() as int);
    assert forall|k: int| 0 <= k < open.len() implies (#[trigger] open[k]).0
        < plan::plans_read(m, model).len() && plan::plans_read(
        m,
        model,
    )[open[k].0 as int].profile is None by {
        let i = open[k].0 as int;
        open_where_unread(plans, arrangements, plans.len() as int, i);
        assert(plans[i].profile is None);
    }
}

/// Settling neither adds nor drops a plan.
pub proof fn plans_keep_their_number(m: Arithmetic, model: Model)
    ensures
        plan::resolved_plans(m, model).len() == plan::plans_of(m, model).len(),
{
    let open = plan::open_of(m, model);
    open_of_document(m, model);
    settled_so_far(
        m,
        plan::plans_read(m, model),
        plan::arrangements_of(m, model),
        plan::rings_of(m, model),
        plan::solid_of(m, model),
        open,
        open.len() as int,
    );
}

/// Every planned extrude is settled in one of the three ways: read, inferred or
/// noted. None is lost, and a profile that can be read is never inferred.
pub proof fn every_plan_is_settled(m: Arithmetic, model: Model, i: int)
    requires
        0 <= i < plan::plans_of(m, model).len(),
    ensures
        plan::resolved_plans(m, model).len() == plan::plans_of(m, model).len(),
        outcome(m, model, i),
{
    let arrangements = plan::arrangements_of(m, model);
    let plans = plan::plans_of(m, model);
    let count = plans.len() as int;
    let open = plan::open_of(m, model);
    let rings = plan::rings_of(m, model);
    let solid = plan::solid_of(m, model);
    let read = plan::plans_read(m, model);
    plan::plans_fit(m, model);
    open_of_document(m, model);
    settled_so_far(m, read, arrangements, rings, solid, open, open.len() as int);
    open_where_unread(plans, arrangements, count, i);
    assert(read[i] == plan::read_plan(plans[i], arrangements));
    match plan::reading(plans[i], arrangements) {
        Ok(_) => {},
        Err(reason) => {
            let k = choose|k: int|
                0 <= k < open.len() && #[trigger] open[k] == (i as usize, reason);
            assert(open[k].0 == i);
            open_plans_are_noted(
                m,
                read,
                arrangements,
                rings,
                solid,
                open,
                open.len() as int,
                k,
            );
            let notes = plan::settle_losses(
                m,
                read,
                arrangements,
                rings,
                solid,
                open,
                open.len() as int,
            );
            if let Some(note) = settle_note(
                m,
                read,
                arrangements,
                rings,
                solid,
                plans[i],
                reason,
            ) {
                let at = choose|at: int| 0 <= at < notes.len() && notes[at] == note;
                let all = plan::resolution_losses(m, model);
                assert(all[all.len() - notes.len() + at] == note);
            }
        },
    }
}

} // verus!
