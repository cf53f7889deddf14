//! What a finished program holds and what its report says.

use crate::arrangement::{ArrangementView, RegionView};
use crate::emit;
use crate::emit::Resolution;
use crate::frame;
use crate::frame::SketchFrame;
use crate::ir::{BooleanOp, CadIr, Feature, FeatureDefinition, FilletGroup, Model, RadiusSpec};
use crate::kernel::Arithmetic;
use crate::notes;
use crate::plan;
use crate::plan::PlanView;
use crate::profile;
use crate::program;
use crate::program::{CountKey, LossView, ProgramView};
use crate::scalar::Scalar;
use crate::settle;
use crate::text;
use crate::wording;
use vstd::prelude::*;

verus! {

// ---------------------------------------------------------------------------
// programs only grow
// ---------------------------------------------------------------------------

/// Whether a program begins as another, in lines and in notes.
pub open spec fn continues(p: ProgramView, q: ProgramView) -> bool {
    p.lines.is_prefix_of(q.lines) && p.losses.is_prefix_of(q.losses)
}

proof fn continues_on(p: ProgramView, q: ProgramView, r: ProgramView)
    requires
        continues(p, q),
        continues(q, r),
    ensures
        continues(p, r),
{
    assert(p.lines =~= r.lines.subrange(0, p.lines.len() as int));
    assert(p.losses =~= r.losses.subrange(0, p.losses.len() as int));
}

proof fn body_line_continues(p: ProgramView, line: Seq<char>)
    ensures
        continues(p, p.body_line(line)),
        p.body_line(line).lines.contains(program::indented(line)),
{
    let q = p.body_line(line);
    assert(p.lines =~= q.lines.subrange(0, p.lines.len() as int));
    assert(p.losses =~= q.losses.subrange(0, p.losses.len() as int));
    assert(q.lines[p.lines.len() as int] == program::indented(line));
}

proof fn loss_continues(p: ProgramView, note: LossView)
    ensures
        continues(p, p.loss(note)),
        p.loss(note).losses.contains(note),
{
    let q = p.loss(note);
    assert(p.lines =~= q.lines.subrange(0, p.lines.len() as int));
    assert(p.losses =~= q.losses.subrange(0, p.losses.len() as int));
    assert(q.losses[p.losses.len() as int] == note);
}

proof fn continues_same(p: ProgramView, q: ProgramView)
    requires
        p.lines == q.lines,
        p.losses == q.losses,
    ensures
        continues(p, q),
{
    assert(p.lines =~= q.lines.subrange(0, p.lines.len() as int));
    assert(p.losses =~= q.losses.subrange(0, p.losses.len() as int));
}

/// What a program holds, every program that continues it holds.
proof fn continued_holds(p: ProgramView, q: ProgramView)
    requires
        continues(p, q),
    ensures
        forall|line: Seq<char>| p.lines.contains(line) ==> #[trigger] q.lines.contains(line),
        forall|note: LossView| p.losses.contains(note) ==> #[trigger] q.losses.contains(note),
{
    assert forall|line: Seq<char>| p.lines.contains(line) implies #[trigger] q.lines.contains(
        line,
    ) by {
        let i = choose|i: int| 0 <= i < p.lines.len() && p.lines[i] == line;
        assert(q.lines[i] == line);
    }
    assert forall|note: LossView| p.losses.contains(note) implies #[trigger] q.losses.contains(
        note,
    ) by {
        let i = choose|i: int| 0 <= i < p.losses.len() && p.losses[i] == note;
        assert(q.losses[i] == note);
    }
}

proof fn loops_continue(
    m: Arithmetic,
    p: ProgramView,
    arrangements: Map<Seq<char>, ArrangementView>,
    sketch: Seq<char>,
    loops: Seq<(usize, bool)>,
    n: int,
)
    ensures
        continues(p, emit::with_loops(m, p, arrangements, sketch, loops, n)),
        emit::with_loops(m, p, arrangements, sketch, loops, n).counts_as(p),
    decreases n,
{
    if n > 0 {
        loops_continue(m, p, arrangements, sketch, loops, n - 1);
        let before = emit::with_loops(m, p, arrangements, sketch, loops, n - 1);
        let after = emit::with_loops(m, p, arrangements, sketch, loops, n);
        match emit::loop_circle(arrangements, sketch, loops[n - 1].0) {
            Some((center, radius)) => {
                let located = before.body_line(wording::location_line(m, center));
                body_line_continues(before, wording::location_line(m, center));
                body_line_continues(located, wording::circle_line(m, radius, loops[n - 1].1));
                continues_on(before, located, after);
            },
            None => {
                loss_continues(before, wording::not_a_circle(sketch, loops[n - 1].0));
            },
        }
        continues_on(p, before, after);
    } else {
        continues_same(p, p);
    }
}

proof fn sketch_continues(
    m: Arithmetic,
    p: ProgramView,
    frames: Map<Seq<char>, SketchFrame>,
    arrangements: Map<Seq<char>, ArrangementView>,
    sketch: Seq<char>,
    regions: Seq<RegionView>,
)
    ensures
        ({
            let q = emit::with_sketch(m, p, frames, arrangements, sketch, regions);
            let loops = emit::region_loops(regions, regions.len() as int);
            let added: int = if frames.contains_key(sketch) && emit::can_be_drawn(
                arrangements,
                sketch,
                loops,
            ) {
                1
            } else {
                0
            };
            &&& continues(p, q)
            &&& q.extrudes == p.extrudes
            &&& q.features == p.features
            &&& q.fillets == p.fillets
            &&& q.blend_seq == p.blend_seq
            &&& q.bodies_started == p.bodies_started
            &&& q.sketches == p.sketches + added
            &&& q.sketch_seq == p.sketch_seq + added
        }),
{
    let loops = emit::region_loops(regions, regions.len() as int);
    if frames.contains_key(sketch) {
        let others = emit::other_loops(arrangements, sketch, loops, loops.len() as int);
        loops_continue(m, p, arrangements, sketch, others, others.len() as int);
        let named = p.next_sketch();
        let line = wording::sketch_line(m, frames[sketch], p.sketch_seq);
        let opened = named.body_line(line);
        let looped = emit::with_loops(
            m,
            opened,
            arrangements,
            sketch,
            loops,
            loops.len() as int,
        );
        continues_same(p, named);
        body_line_continues(named, line);
        continues_on(p, named, opened);
        loops_continue(m, opened, arrangements, sketch, loops, loops.len() as int);
        continues_on(p, opened, looped);
        continues_same(looped, looped.one_more(CountKey::Sketches));
        continues_on(p, looped, looped.one_more(CountKey::Sketches));
    } else {
        continues_same(p, p);
    }
}

/// An extrude continues a program, states how its profile was arrived at, and is
/// counted.
proof fn extrude_continues(
    m: Arithmetic,
    p: ProgramView,
    frames: Map<Seq<char>, SketchFrame>,
    arrangements: Map<Seq<char>, ArrangementView>,
    feature: Feature,
    op: BooleanOp,
    travel: (Scalar, Scalar),
    resolved: profile::ProfileView,
)
    requires
        emit::is_drawable(frames, arrangements, resolved),
    ensures
        ({
            let q = emit::with_extrude(
                m,
                p,
                frames,
                arrangements,
                feature,
                op,
                travel,
                resolved,
            );
            let added: int = if frames.contains_key(resolved.sketch) {
                1
            } else {
                0
            };
            &&& continues(p, q)
            &&& q.lines.contains(
                program::indented(
                    wording::extrude_comment(m, feature, op, travel, resolved.inference),
                ),
            )
            &&& q.lines.len() > p.lines.len()
            &&& q.extrudes == p.extrudes + 1
            &&& q.features == p.features + 1
            &&& q.fillets == p.fillets
            &&& q.blend_seq == p.blend_seq
            &&& q.sketches == p.sketches + added
            &&& q.sketch_seq == p.sketch_seq + added
        }),
{
    let bodied = emit::with_body(p, feature, op);
    if op == BooleanOp::NewBody && p.bodies_started >= 1 {
        loss_continues(p.next_body(), wording::further_body(feature));
        continues_same(p, p.next_body());
        continues_on(p, p.next_body(), bodied);
    } else {
        continues_same(p, bodied);
    }
    let spaced = bodied.body_line(""@);
    body_line_continues(bodied, ""@);
    continues_on(p, bodied, spaced);
    let comment = wording::extrude_comment(m, feature, op, travel, resolved.inference);
    let commented = spaced.body_line(comment);
    body_line_continues(spaced, comment);
    continues_on(p, spaced, commented);
    let sketched = emit::with_sketch(
        m,
        commented,
        frames,
        arrangements,
        resolved.sketch,
        resolved.regions,
    );
    sketch_continues(m, commented, frames, arrangements, resolved.sketch, resolved.regions);
    let travelled = emit::with_travel(m, sketched, feature, op, travel);
    travel_continues(m, sketched, feature, op, travel);
    continues_on(commented, sketched, travelled);
    let counted = travelled.one_more(CountKey::Features).one_more(CountKey::Extrudes);
    continues_same(travelled, counted);
    continues_on(commented, travelled, counted);
    continues_on(p, commented, counted);
    continued_holds(commented, counted);
}

proof fn travel_continues(
    m: Arithmetic,
    p: ProgramView,
    feature: Feature,
    op: BooleanOp,
    travel: (Scalar, Scalar),
)
    ensures
        continues(p, emit::with_travel(m, p, feature, op, travel)),
        emit::with_travel(m, p, feature, op, travel).counts_as(p),
{
    let after = emit::with_travel(m, p, feature, op, travel);
    let noted = p.loss(wording::halved(feature));
    let forth = noted.body_line(wording::forward_line(m, op, travel.1));
    loss_continues(p, wording::halved(feature));
    body_line_continues(noted, wording::forward_line(m, op, travel.1));
    body_line_continues(forth, wording::backward_line(m, op, travel.0));
    continues_on(p, noted, forth);
    continues_on(p, forth, forth.body_line(wording::backward_line(m, op, travel.0)));
    body_line_continues(p, wording::extrude_line(m, op, travel));
}

proof fn body_lines_continue(p: ProgramView, lines: Seq<Seq<char>>, n: int)
    requires
        0 <= n,
    ensures
        continues(p, emit::with_body_lines(p, lines, n)),
        emit::with_body_lines(p, lines, n).counts_as(p),
        emit::with_body_lines(p, lines, n).lines.len() == p.lines.len() + n,
    decreases n,
{
    if n > 0 {
        body_lines_continue(p, lines, n - 1);
        let before = emit::with_body_lines(p, lines, n - 1);
        body_line_continues(before, lines[n - 1]);
        continues_on(p, before, emit::with_body_lines(p, lines, n));
    } else {
        continues_same(p, p);
    }
}

/// How many of the first `n` groups are written.
pub open spec fn groups_written(
    m: Arithmetic,
    model: Model,
    groups: Seq<FilletGroup>,
    n: int,
) -> int
    decreases n,
{
    if n <= 0 {
        0
    } else {
        groups_written(m, model, groups, n - 1) + if emit::writes_group(m, model, groups[n - 1]) {
            1int
        } else {
            0int
        }
    }
}

/// A fillet group continues a program, and is counted or noted.
proof fn group_continues(
    m: Arithmetic,
    p: ProgramView,
    model: Model,
    feature: Feature,
    groups: Seq<FilletGroup>,
    index: int,
)
    ensures
        ({
            let q = emit::after_group(m, p, model, feature, groups, index);
            let written = emit::writes_group(m, model, groups[index]);
            let added: int = if written {
                1
            } else {
                0
            };
            &&& continues(p, q)
            &&& written ==> q.lines.len() > p.lines.len()
            &&& !written ==> q.lines == p.lines
            &&& q.extrudes == p.extrudes
            &&& q.sketches == p.sketches
            &&& q.sketch_seq == p.sketch_seq
            &&& q.features == p.features + added
            &&& q.fillets == p.fillets + added
            &&& q.blend_seq == p.blend_seq + added
            &&& !written ==> q.losses.contains(
                match groups[index].radius {
                    RadiusSpec::Constant { radius } => wording::no_blend_face(
                        m,
                        feature,
                        radius,
                    ),
                    RadiusSpec::Other => wording::varying_radius(feature, index),
                },
            )
        }),
{
    match groups[index].radius {
        RadiusSpec::Constant { radius } => {
            let edges = emit::blended(m, model, radius);
            if edges.len() == 0 {
                loss_continues(p, wording::no_blend_face(m, feature, radius));
            } else {
                let lines = emit::fillet_lines(m, feature, radius, edges, p.blend_seq);
                let named = p.next_blend();
                let written = emit::with_body_lines(named, lines, lines.len() as int);
                let counted = written.one_more(CountKey::Features).one_more(CountKey::Fillets);
                body_lines_continue(named, lines, lines.len() as int);
                continues_same(p, named);
                continues_on(p, named, written);
                continues_same(written, counted);
                continues_on(p, written, counted);
            }
        },
        RadiusSpec::Other => {
            loss_continues(p, wording::varying_radius(feature, index));
        },
    }
}

proof fn groups_continue(
    m: Arithmetic,
    p: ProgramView,
    model: Model,
    feature: Feature,
    groups: Seq<FilletGroup>,
    n: int,
)
    requires
        0 <= n <= groups.len(),
    ensures
        ({
            let q = emit::after_groups(m, p, model, feature, groups, n);
            &&& continues(p, q)
            &&& emit::writes_groups(m, model, groups, n) ==> q.lines.len() > p.lines.len()
            &&& !emit::writes_groups(m, model, groups, n) ==> q.lines == p.lines
            &&& q.extrudes == p.extrudes
            &&& q.sketches == p.sketches
            &&& q.sketch_seq == p.sketch_seq
            &&& q.features == p.features + groups_written(m, model, groups, n)
            &&& q.fillets == p.fillets + groups_written(m, model, groups, n)
            &&& q.blend_seq == p.blend_seq + groups_written(m, model, groups, n)
            &&& forall|g: int| 0 <= g < n && !emit::writes_group(m, model, #[trigger] groups[g])
                ==> q.losses.contains(
                match groups[g].radius {
                    RadiusSpec::Constant { radius } => wording::no_blend_face(
                        m,
                        feature,
                        radius,
                    ),
                    RadiusSpec::Other => wording::varying_radius(feature, g),
                },
            )
        }),
    decreases n,
{
    if n > 0 {
        groups_continue(m, p, model, feature, groups, n - 1);
        let before = emit::after_groups(m, p, model, feature, groups, n - 1);
        let after = emit::after_groups(m, p, model, feature, groups, n);
        group_continues(m, before, model, feature, groups, n - 1);
        continues_on(p, before, after);
        continued_holds(before, after);
        if emit::writes_groups(m, model, groups, n - 1) {
            let k = choose|k: int|
                0 <= k < n - 1 && emit::writes_group(m, model, #[trigger] groups[k]);
            assert(0 <= k < n && emit::writes_group(m, model, groups[k]));
        }
        if emit::writes_group(m, model, groups[n - 1]) {
            assert(emit::writes_groups(m, model, groups, n));
        }
    } else {
        continues_same(p, p);
    }
}

// ---------------------------------------------------------------------------
// features of the timeline
// ---------------------------------------------------------------------------

/// Whether notes give the reason for each group of a fillet that is not written.
pub open spec fn groups_reported(
    m: Arithmetic,
    model: Model,
    feature: Feature,
    groups: Seq<FilletGroup>,
    losses: Seq<LossView>,
) -> bool {
    forall|g: int|
        0 <= g < groups.len() && !emit::writes_group(m, model, #[trigger] groups[g])
            ==> losses.contains(
            match groups[g].radius {
                RadiusSpec::Constant { radius } => wording::no_blend_face(m, feature, radius),
                RadiusSpec::Other => wording::varying_radius(feature, g),
            },
        )
}

/// Whether a feature is in the program, or notes give the reason why not. A
/// sketch is written with the profile that consumes it, and of an extrude this
/// asks that it was planned.
spec fn step_reported(
    m: Arithmetic,
    model: Model,
    resolution: Resolution,
    feature: Feature,
    losses: Seq<LossView>,
) -> bool {
    if plan::is_suppressed(feature) {
        losses.contains(wording::suppressed_note(feature))
    } else {
        match feature.definition {
            FeatureDefinition::Sketch => true,
            FeatureDefinition::Extrude { .. } => match emit::plan_for(resolution.plans, feature) {
                Some(plan) => frame::travel(m, plan.extent) is Some ==> {
                    ||| emit::is_writable(m, resolution, plan)
                    ||| losses.contains(wording::unresolved_profile(feature))
                    ||| losses.contains(wording::unresolved_operation(feature))
                    ||| losses.contains(wording::undrawn(feature))
                },
                None => true,
            },
            FeatureDefinition::Fillet { groups } => {
                &&& groups@.len() == 0 ==> losses.contains(wording::without_groups(feature))
                &&& groups_reported(m, model, feature, groups@, losses)
            },
            _ => losses.contains(wording::unsupported_family(feature)),
        }
    }
}

/// How many extrudes a feature adds to the program: one, if it is an extrude
/// that is written.
pub open spec fn extrudes_of(
    m: Arithmetic,
    model: Model,
    resolution: Resolution,
    feature: Feature,
) -> int {
    if feature.definition is Extrude && emit::writes_step(m, model, resolution, feature) {
        1
    } else {
        0
    }
}

/// How many fillets a feature adds to the program: one for each of its groups
/// that is written.
pub open spec fn fillets_of(m: Arithmetic, model: Model, feature: Feature) -> int {
    match feature.definition {
        FeatureDefinition::Fillet { groups } => if plan::is_suppressed(feature) {
            0
        } else {
            groups_written(m, model, groups@, groups@.len() as int)
        },
        _ => 0,
    }
}

/// How many extrudes the first `n` features add.
pub open spec fn extrudes_written(
    m: Arithmetic,
    model: Model,
    resolution: Resolution,
    steps: Seq<Feature>,
    n: int,
) -> int
    decreases n,
{
    if n <= 0 {
        0
    } else {
        extrudes_written(m, model, resolution, steps, n - 1) + extrudes_of(
            m,
            model,
            resolution,
            steps[n - 1],
        )
    }
}

/// How many fillets the first `n` features add.
pub open spec fn fillets_written(m: Arithmetic, model: Model, steps: Seq<Feature>, n: int) -> int
    decreases n,
{
    if n <= 0 {
        0
    } else {
        fillets_written(m, model, steps, n - 1) + fillets_of(m, model, steps[n - 1])
    }
}

/// Whether the profile of every plan lies on a placed sketch.
spec fn profiles_are_placed(resolution: Resolution) -> bool {
    forall|i: int|
        0 <= i < resolution.plans.len() ==> ((
        #[trigger] resolution.plans[i]).profile matches Some(resolved)
            ==> resolution.frames.contains_key(resolved.sketch))
}

/// The comment above a written extrude.
pub open spec fn comment_of(m: Arithmetic, feature: Feature, plan: PlanView) -> Seq<char> {
    wording::extrude_comment(
        m,
        feature,
        plan.op,
        frame::travel(m, plan.extent)->0,
        plan.profile->0.inference,
    )
}

proof fn plan_from_is_listed(plans: Seq<PlanView>, id: Seq<char>, from: int)
    requires
        0 <= from,
    ensures
        match emit::plan_from(plans, id, from) {
            Some(plan) => plan.feature.id@ == id && exists|i: int|
                from <= i < plans.len() && #[trigger] plans[i] == plan,
            None => forall|i: int|
                from <= i < plans.len() ==> (#[trigger] plans[i]).feature.id@ != id,
        },
    decreases plans.len() - from,
{
    if from < plans.len() && plans[from].feature.id@ != id {
        plan_from_is_listed(plans, id, from + 1);
        if let Some(plan) = emit::plan_from(plans, id, from + 1) {
            let i = choose|i: int| from + 1 <= i < plans.len() && #[trigger] plans[i] == plan;
            assert(plans[i] == plan);
        }
    } else if from < plans.len() {
        assert(plans[from] == emit::plan_from(plans, id, from)->0);
    }
}

/// An extrude none of whose loops can be drawn adds notes only.
proof fn undrawn_continues(
    m: Arithmetic,
    p: ProgramView,
    resolution: Resolution,
    feature: Feature,
    resolved: profile::ProfileView,
)
    requires
        !emit::is_drawable(resolution.frames, resolution.arrangements, resolved),
    ensures
        ({
            let q = emit::without_drawing(m, p, resolution, feature, resolved);
            &&& continues(p, q)
            &&& q.lines == p.lines
            &&& q.counts_as(p)
            &&& q.losses.contains(wording::undrawn(feature))
        }),
{
    let arrangements = resolution.arrangements;
    let sketch = resolved.sketch;
    let loops = emit::profile_loops(resolved);
    let others = emit::other_loops(arrangements, sketch, loops, loops.len() as int);
    let all = others.len() as int;
    let looped = emit::with_loops(m, p, arrangements, sketch, others, all);
    loops_continue(m, p, arrangements, sketch, others, all);
    others_are_no_circles(arrangements, sketch, loops, loops.len() as int);
    loops_without_circles_add_no_line(m, p, arrangements, sketch, others, all);
    loss_continues(looped, wording::undrawn(feature));
    continues_on(p, looped, looped.loss(wording::undrawn(feature)));
}

proof fn others_are_no_circles(
    arrangements: Map<Seq<char>, ArrangementView>,
    sketch: Seq<char>,
    loops: Seq<(usize, bool)>,
    n: int,
)
    ensures
        ({
            let others = emit::other_loops(arrangements, sketch, loops, n);
            forall|k: int|
                0 <= k < others.len() ==> emit::loop_circle(
                    arrangements,
                    sketch,
                    (#[trigger] others[k]).0,
                ) is None
        }),
    decreases n,
{
    if n > 0 {
        others_are_no_circles(arrangements, sketch, loops, n - 1);
    }
}

proof fn loops_without_circles_add_no_line(
    m: Arithmetic,
    p: ProgramView,
    arrangements: Map<Seq<char>, ArrangementView>,
    sketch: Seq<char>,
    loops: Seq<(usize, bool)>,
    n: int,
)
    requires
        n <= loops.len(),
        forall|k: int|
            0 <= k < n ==> emit::loop_circle(arrangements, sketch, (#[trigger] loops[k]).0) is None,
    ensures
        emit::with_loops(m, p, arrangements, sketch, loops, n).lines == p.lines,
    decreases n,
{
    if n > 0 {
        loops_without_circles_add_no_line(m, p, arrangements, sketch, loops, n - 1);
        assert(emit::loop_circle(arrangements, sketch, loops[n - 1].0) is None);
    }
}

/// The first lines that loops add place and draw the first circle among them.
proof fn first_circle_is_drawn_first(
    m: Arithmetic,
    p: ProgramView,
    arrangements: Map<Seq<char>, ArrangementView>,
    sketch: Seq<char>,
    loops: Seq<(usize, bool)>,
    k: int,
    n: int,
)
    requires
        emit::is_first_circle(arrangements, sketch, loops, k),
        k < n <= loops.len(),
    ensures
        ({
            let q = emit::with_loops(m, p, arrangements, sketch, loops, n);
            let at = p.lines.len() as int;
            let (center, radius) = emit::loop_circle(arrangements, sketch, loops[k].0)->0;
            &&& q.lines.len() >= at + 2
            &&& q.lines[at] == program::indented(wording::location_line(m, center))
            &&& q.lines[at + 1] == program::indented(wording::circle_line(m, radius, loops[k].1))
        }),
    decreases n,
{
    let before = emit::with_loops(m, p, arrangements, sketch, loops, n - 1);
    if k == n - 1 {
        loops_without_circles_add_no_line(m, p, arrangements, sketch, loops, n - 1);
    } else {
        first_circle_is_drawn_first(m, p, arrangements, sketch, loops, k, n - 1);
        let q = emit::with_loops(m, p, arrangements, sketch, loops, n);
        let at = p.lines.len() as int;
        assert(q.lines[at] == before.lines[at]);
        assert(q.lines[at + 1] == before.lines[at + 1]);
    }
}

/// A sketch block is never empty, and never begins with a hole: where the loops
/// of a placed sketch can be drawn, the line that opens the block is followed by
/// those that place and draw an exterior circle, and otherwise no line is added.
pub proof fn sketch_block_is_filled(
    m: Arithmetic,
    p: ProgramView,
    frames: Map<Seq<char>, SketchFrame>,
    arrangements: Map<Seq<char>, ArrangementView>,
    sketch: Seq<char>,
    regions: Seq<RegionView>,
)
    ensures
        ({
            let q = emit::with_sketch(m, p, frames, arrangements, sketch, regions);
            let loops = emit::region_loops(regions, regions.len() as int);
            let at = p.lines.len() as int;
            if frames.contains_key(sketch) && emit::can_be_drawn(arrangements, sketch, loops) {
                &&& q.lines.len() > at + 2
                &&& q.lines[at] == program::indented(
                    wording::sketch_line(m, frames[sketch], p.sketch_seq),
                )
                &&& exists|center: (Scalar, Scalar), radius: Scalar|
                    q.lines[at + 1] == program::indented(
                        #[trigger] wording::location_line(m, center),
                    ) && q.lines[at + 2] == program::indented(
                        #[trigger] wording::circle_line(m, radius, false),
                    )
            } else {
                q.lines == p.lines
            }
        }),
{
    let loops = emit::region_loops(regions, regions.len() as int);
    let all = loops.len() as int;
    if frames.contains_key(sketch) && emit::can_be_drawn(arrangements, sketch, loops) {
        let opened = p.next_sketch().body_line(
            wording::sketch_line(m, frames[sketch], p.sketch_seq),
        );
        let k = choose|k: int|
            #[trigger] emit::is_first_circle(arrangements, sketch, loops, k) && !loops[k].1;
        first_circle_is_drawn_first(m, opened, arrangements, sketch, loops, k, all);
        loops_continue(m, opened, arrangements, sketch, loops, all);
        let q = emit::with_loops(m, opened, arrangements, sketch, loops, all);
        let at = p.lines.len() as int;
        assert(q.lines[at] == opened.lines[at]);
        let (center, radius) = emit::loop_circle(arrangements, sketch, loops[k].0)->0;
        assert(q.lines[at + 1] == program::indented(wording::location_line(m, center)));
        assert(q.lines[at + 2] == program::indented(
            wording::circle_line(m, radius, false),
        ));
    } else {
        let others = emit::other_loops(arrangements, sketch, loops, all);
        others_are_no_circles(arrangements, sketch, loops, all);
        loops_without_circles_add_no_line(
            m,
            p,
            arrangements,
            sketch,
            others,
            others.len() as int,
        );
    }
}

/// A feature continues a program; it adds lines only where it is written.
proof fn step_continues(
    m: Arithmetic,
    p: ProgramView,
    model: Model,
    resolution: Resolution,
    feature: Feature,
)
    ensures
        ({
            let q = emit::after_step(m, p, model, resolution, feature);
            let written = emit::writes_step(m, model, resolution, feature);
            let extrudes = extrudes_of(m, model, resolution, feature);
            let fillets = fillets_of(m, model, feature);
            &&& continues(p, q)
            &&& written ==> q.lines.len() > p.lines.len()
            &&& !written ==> q.lines == p.lines
            &&& step_reported(m, model, resolution, feature, q.losses)
            &&& feature.definition is Extrude && written ==> q.lines.contains(
                program::indented(
                    comment_of(m, feature, emit::plan_for(resolution.plans, feature)->0),
                ),
            )
            &&& q.extrudes == p.extrudes + extrudes
            &&& q.fillets == p.fillets + fillets
            &&& q.features == p.features + extrudes + fillets
            &&& q.blend_seq == p.blend_seq + fillets
            &&& profiles_are_placed(resolution) ==> {
                &&& q.sketches == p.sketches + extrudes
                &&& q.sketch_seq == p.sketch_seq + extrudes
            }
        }),
{
    let q = emit::after_step(m, p, model, resolution, feature);
    if plan::is_suppressed(feature) {
        loss_continues(p, wording::suppressed_note(feature));
    } else {
        match feature.definition {
            FeatureDefinition::Sketch => {
                continues_same(p, p);
            },
            FeatureDefinition::Extrude { .. } => {
                plan_from_is_listed(resolution.plans, feature.id@, 0);
                match emit::plan_for(resolution.plans, feature) {
                    Some(plan) => {
                        loss_continues(p, wording::unresolved_profile(feature));
                        loss_continues(p, wording::unresolved_operation(feature));
                        continues_same(p, p);
                        if plan.profile matches Some(resolved) && !emit::is_drawable(
                            resolution.frames,
                            resolution.arrangements,
                            resolved,
                        ) {
                            undrawn_continues(m, p, resolution, feature, plan.profile->0);
                        }
                        if emit::is_writable(m, resolution, plan) {
                            extrude_continues(
                                m,
                                p,
                                resolution.frames,
                                resolution.arrangements,
                                feature,
                                plan.op,
                                frame::travel(m, plan.extent)->0,
                                plan.profile->0,
                            );
                        }
                    },
                    None => {
                        continues_same(p, p);
                    },
                }
            },
            FeatureDefinition::Fillet { groups } => {
                loss_continues(p, wording::without_groups(feature));
                groups_continue(m, p, model, feature, groups@, groups@.len() as int);
            },
            _ => {
                loss_continues(p, wording::unsupported_family(feature));
            },
        }
    }
}

/// Notes added later report as much.
proof fn reports_last(
    m: Arithmetic,
    model: Model,
    resolution: Resolution,
    feature: Feature,
    p: ProgramView,
    q: ProgramView,
)
    requires
        continues(p, q),
        step_reported(m, model, resolution, feature, p.losses),
    ensures
        step_reported(m, model, resolution, feature, q.losses),
{
    continued_holds(p, q);
}

proof fn steps_continue(
    m: Arithmetic,
    p: ProgramView,
    model: Model,
    resolution: Resolution,
    steps: Seq<Feature>,
    n: int,
)
    requires
        0 <= n <= steps.len(),
    ensures
        ({
            let q = emit::after_steps(m, p, model, resolution, steps, n);
            let extrudes = extrudes_written(m, model, resolution, steps, n);
            let fillets = fillets_written(m, model, steps, n);
            &&& continues(p, q)
            &&& emit::writes_steps(m, model, resolution, steps, n) ==> q.lines.len() > p.lines.len()
            &&& !emit::writes_steps(m, model, resolution, steps, n) ==> q.lines == p.lines
            &&& forall|k: int|
                0 <= k < n ==> step_reported(m, model, resolution, #[trigger] steps[k], q.losses)
            &&& forall|k: int|
                0 <= k < n && (#[trigger] steps[k]).definition is Extrude && emit::writes_step(
                    m,
                    model,
                    resolution,
                    steps[k],
                ) ==> q.lines.contains(
                    program::indented(
                        comment_of(m, steps[k], emit::plan_for(resolution.plans, steps[k])->0),
                    ),
                )
            &&& q.extrudes == p.extrudes + extrudes
            &&& q.fillets == p.fillets + fillets
            &&& q.features == p.features + extrudes + fillets
            &&& q.blend_seq == p.blend_seq + fillets
            &&& profiles_are_placed(resolution) ==> {
                &&& q.sketches == p.sketches + extrudes
                &&& q.sketch_seq == p.sketch_seq + extrudes
            }
        }),
    decreases n,
{
    if n > 0 {
        steps_continue(m, p, model, resolution, steps, n - 1);
        let before = emit::after_steps(m, p, model, resolution, steps, n - 1);
        let after = emit::after_steps(m, p, model, resolution, steps, n);
        step_continues(m, before, model, resolution, steps[n - 1]);
        continues_on(p, before, after);
        continued_holds(before, after);
        assert forall|k: int| 0 <= k < n implies step_reported(
            m,
            model,
            resolution,
            #[trigger] steps[k],
            after.losses,
        ) by {
            if k < n - 1 {
                reports_last(m, model, resolution, steps[k], before, after);
            }
        }
        if emit::writes_steps(m, model, resolution, steps, n - 1) {
            let k = choose|k: int|
                0 <= k < n - 1 && emit::writes_step(m, model, resolution, #[trigger] steps[k]);
            assert(0 <= k < n && emit::writes_step(m, model, resolution, steps[k]));
        }
        if emit::writes_step(m, model, resolution, steps[n - 1]) {
            assert(emit::writes_steps(m, model, resolution, steps, n));
        }
    } else {
        continues_same(p, p);
    }
}

// ---------------------------------------------------------------------------
// finished programs
// ---------------------------------------------------------------------------

/// The program before its first feature.
spec fn opened(m: Arithmetic, ir: CadIr) -> ProgramView {
    emit::with_header(
        ProgramView { losses: plan::resolution_losses(m, ir.model), ..ProgramView::empty() },
        ir,
    ).line(emit::builder_line())
}

/// The program after its last feature.
spec fn filled(m: Arithmetic, ir: CadIr) -> ProgramView {
    let steps = plan::timeline(ir.model);
    emit::after_steps(
        m,
        opened(m, ir),
        ir.model,
        emit::resolution_of(m, ir.model),
        steps,
        steps.len() as int,
    )
}

proof fn exported_continues(m: Arithmetic, ir: CadIr)
    ensures
        continues(filled(m, ir), emit::exported(m, ir)),
        emit::exported(m, ir).losses == filled(m, ir).losses,
{
    let body = filled(m, ir);
    let all = emit::exported(m, ir);
    assert(body.lines =~= all.lines.subrange(0, body.lines.len() as int));
    assert(body.losses =~= all.losses.subrange(0, body.losses.len() as int));
}

/// Every planned extrude has a travel and lies on a placed sketch, and so does
/// its profile once it has one.
proof fn resolved_plan_is_grounded(m: Arithmetic, model: Model, i: int)
    requires
        0 <= i < plan::resolved_plans(m, model).len(),
    ensures
        ({
            let resolved = plan::resolved_plans(m, model)[i];
            let own = plan::plans_of(m, model)[i];
            &&& i < plan::plans_of(m, model).len()
            &&& resolved == (PlanView { profile: resolved.profile, ..own })
            &&& frame::travel(m, resolved.extent) is Some
            &&& plan::frames_of(m, model).contains_key(resolved.sketch)
            &&& resolved.profile matches Some(profile) ==> {
                &&& profile.sketch == resolved.sketch
                &&& profile.inference is Some <==> plan::reading(
                    own,
                    plan::arrangements_of(m, model),
                ) is Err
            }
        }),
{
    let plans = plan::plans_of(m, model);
    let frames = plan::frames_of(m, model);
    let steps = plan::timeline(model);
    settle::plans_keep_their_number(m, model);
    settle::every_plan_is_settled(m, model, i);
    plan::plans_are_outlines(m, frames, steps, steps.len() as int);
    let k = choose|k: int|
        0 <= k < steps.len() && plan::outline(m, frames, #[trigger] steps[k]) == Some(
            Ok::<PlanView, LossView>(plans[i]),
        );
    assert(plan::outline(m, frames, steps[k]) is Some);
}

/// The program is framed: it begins with the header and the line that opens the
/// builder, and it ends with the footer. Where no feature is written, the
/// builder passes and there is nothing else in between; where one is, there are
/// lines for it.
pub proof fn program_is_framed(m: Arithmetic, ir: CadIr)
    ensures
        ({
            let lines = emit::exported(m, ir).lines;
            let opening = emit::header_lines(ir).push(emit::builder_line());
            &&& opening.is_prefix_of(lines)
            &&& emit::footer_lines().is_suffix_of(lines)
            &&& if emit::is_expressible(m, ir.model) {
                lines.len() > opening.len() + emit::footer_lines().len()
            } else {
                lines == opening.push("    pass"@) + emit::footer_lines()
            }
        }),
{
    let steps = plan::timeline(ir.model);
    let all = emit::exported(m, ir);
    let body = filled(m, ir);
    let opening = emit::header_lines(ir).push(emit::builder_line());
    let footer = emit::footer_lines();
    assert(opened(m, ir).lines =~= opening);
    steps_continue(
        m,
        opened(m, ir),
        ir.model,
        emit::resolution_of(m, ir.model),
        steps,
        steps.len() as int,
    );
    exported_continues(m, ir);
    assert(opening =~= all.lines.subrange(0, opening.len() as int)) by {
        assert(opening =~= body.lines.subrange(0, opening.len() as int));
    }
    assert(footer =~= all.lines.subrange(
        all.lines.len() - footer.len(),
        all.lines.len() as int,
    ));
}

/// The text of the program is the header, the line that opens the builder, what
/// the builder does, and the footer, one below the other.
pub proof fn text_is_framed(m: Arithmetic, ir: CadIr)
    ensures
        exists|middle: Seq<char>|
            emit::exported(m, ir).text() == #[trigger] framed(
                emit::header_lines(ir).push(emit::builder_line()),
                middle,
                emit::footer_lines(),
            ),
{
    let lines = emit::exported(m, ir).lines;
    let opening = emit::header_lines(ir).push(emit::builder_line());
    let footer = emit::footer_lines();
    program_is_framed(m, ir);
    let between = lines.subrange(opening.len() as int, lines.len() - footer.len());
    let rest = between + footer;
    assert(lines =~= opening + rest);
    assert(between.len() > 0);
    text::joined_in_parts(opening, rest, "\n"@, rest.len() as int);
    text::joined_in_parts(between, footer, "\n"@, footer.len() as int);
    let middle = text::joined(between, "\n"@, between.len() as int);
    assert(emit::exported(m, ir).text() =~= framed(opening, middle, footer));
}

/// Lines above and below a text.
pub open spec fn framed(
    above: Seq<Seq<char>>,
    middle: Seq<char>,
    below: Seq<Seq<char>>,
) -> Seq<char> {
    text::joined(above, "\n"@, above.len() as int) + "\n"@ + middle + "\n"@ + text::joined(
        below,
        "\n"@,
        below.len() as int,
    )
}

/// Whether a feature is in the program, or notes say why not. A sketch is
/// written with the profile that consumes it.
pub open spec fn is_reported(m: Arithmetic, ir: CadIr, feature: Feature) -> bool {
    let losses = emit::exported(m, ir).losses;
    if plan::is_suppressed(feature) {
        losses.contains(wording::suppressed_note(feature))
    } else {
        match feature.definition {
            FeatureDefinition::Sketch => true,
            FeatureDefinition::Extrude { profile, extent, .. } => match plan::sketch_of(profile) {
                Some(sketch) => if !plan::frames_of(m, ir.model).contains_key(sketch) {
                    losses.contains(plan::unplaced_sketch(feature, sketch))
                } else if frame::is_blind(extent) {
                    ||| emit::writes_extrude(m, emit::resolution_of(m, ir.model), feature)
                    ||| losses.contains(wording::unresolved_profile(feature))
                    ||| losses.contains(wording::unresolved_operation(feature))
                    ||| losses.contains(wording::undrawn(feature))
                } else {
                    losses.contains(plan::not_blind(feature))
                },
                None => losses.contains(plan::without_sketch(feature)),
            },
            FeatureDefinition::Fillet { groups } => {
                &&& groups@.len() == 0 ==> losses.contains(wording::without_groups(feature))
                &&& groups_reported(m, ir.model, feature, groups@, losses)
            },
            _ => losses.contains(wording::unsupported_family(feature)),
        }
    }
}

/// The report says plainly what is missing: every feature of the timeline is in
/// the program, or a note gives the reason why it is not.
pub proof fn report_covers_timeline(m: Arithmetic, ir: CadIr, k: int)
    requires
        0 <= k < plan::timeline(ir.model).len(),
    ensures
        is_reported(m, ir, plan::timeline(ir.model)[k]),
{
    let model = ir.model;
    let steps = plan::timeline(model);
    let feature = steps[k];
    let frames = plan::frames_of(m, model);
    let plans = plan::resolved_plans(m, model);
    let resolution = emit::resolution_of(m, model);
    let all = emit::exported(m, ir);
    let start = opened(m, ir);
    steps_continue(m, start, model, resolution, steps, steps.len() as int);
    exported_continues(m, ir);
    assert(step_reported(m, model, resolution, feature, all.losses));
    if feature.definition is Extrude && !plan::is_suppressed(feature) {
        let outlines = plan::plans_of(m, model);
        let notes = plan::outline_losses(m, frames, steps, steps.len() as int);
        plan::plans_are_outlines(m, frames, steps, steps.len() as int);
        match plan::outline(m, frames, steps[k]) {
            Some(Ok(own)) => {
                let i = choose|i: int| 0 <= i < outlines.len() && outlines[i] == own;
                settle::plans_keep_their_number(m, model);
                resolved_plan_is_grounded(m, model, i);
                assert(plans[i].feature == feature);
                plan_from_is_listed(plans, feature.id@, 0);
                let found = emit::plan_for(plans, feature)->0;
                let at = choose|at: int| 0 <= at < plans.len() && #[trigger] plans[at] == found;
                resolved_plan_is_grounded(m, model, at);
            },
            Some(Err(note)) => {
                let at = choose|at: int| 0 <= at < notes.len() && notes[at] == note;
                assert(plan::resolution_losses(m, model)[at] == note);
                assert(start.losses.contains(note));
                continued_holds(start, filled(m, ir));
            },
            None => {},
        }
    }
}

/// Whether one of some notes reports that something of a feature is left out.
pub open spec fn is_noted(feature: Feature, losses: Seq<LossView>) -> bool {
    exists|i: int| 0 <= i < losses.len() && notes::is_note_on(feature, #[trigger] losses[i])
}

proof fn contained_is_noted(feature: Feature, losses: Seq<LossView>, note: LossView)
    requires
        losses.contains(note),
        notes::is_note_on(feature, note),
    ensures
        is_noted(feature, losses),
{
    let i = choose|i: int| 0 <= i < losses.len() && losses[i] == note;
    assert(notes::is_note_on(feature, losses[i]));
}

/// A feature that is not in the program has a note that begins with its name and
/// a colon. The one exception is a sketch, which is written with the profile that
/// consumes it.
pub proof fn missing_features_are_noted(m: Arithmetic, ir: CadIr, k: int)
    requires
        0 <= k < plan::timeline(ir.model).len(),
        !(plan::timeline(ir.model)[k].definition is Sketch),
        !emit::writes_step(
            m,
            ir.model,
            emit::resolution_of(m, ir.model),
            plan::timeline(ir.model)[k],
        ),
    ensures
        is_noted(plan::timeline(ir.model)[k], emit::exported(m, ir).losses),
{
    let feature = plan::timeline(ir.model)[k];
    let losses = emit::exported(m, ir).losses;
    report_covers_timeline(m, ir, k);
    notes::notes_on_features(feature);
    let named = if plan::is_suppressed(feature) {
        wording::suppressed_note(feature)
    } else {
        match feature.definition {
            FeatureDefinition::Extrude { profile, extent, .. } => match plan::sketch_of(profile) {
                Some(sketch) => {
                    notes::notes_on_plans(feature, sketch, Seq::empty());
                    if !plan::frames_of(m, ir.model).contains_key(sketch) {
                        plan::unplaced_sketch(feature, sketch)
                    } else if !frame::is_blind(extent) {
                        plan::not_blind(feature)
                    } else if losses.contains(wording::unresolved_profile(feature)) {
                        wording::unresolved_profile(feature)
                    } else if losses.contains(wording::unresolved_operation(feature)) {
                        wording::unresolved_operation(feature)
                    } else {
                        wording::undrawn(feature)
                    }
                },
                None => plan::without_sketch(feature),
            },
            FeatureDefinition::Fillet { groups } => if groups@.len() == 0 {
                wording::without_groups(feature)
            } else {
                assert(!emit::writes_group(m, ir.model, groups@[0]));
                match groups@[0].radius {
                    RadiusSpec::Constant { radius } => {
                        notes::notes_on_groups(m, feature, radius, 0);
                        wording::no_blend_face(m, feature, radius)
                    },
                    RadiusSpec::Other => {
                        notes::notes_on_groups(m, feature, Scalar { bits: 0 }, 0);
                        wording::varying_radius(feature, 0)
                    },
                }
            },
            _ => wording::unsupported_family(feature),
        }
    };
    contained_is_noted(feature, losses, named);
}

/// Every extrude that is written has its comment in the program, and the comment
/// marks the profile as inferred exactly when it could not be read from the
/// document.
pub proof fn inferred_profiles_are_marked(m: Arithmetic, ir: CadIr, k: int)
    requires
        0 <= k < plan::timeline(ir.model).len(),
        plan::timeline(ir.model)[k].definition is Extrude,
        emit::writes_step(
            m,
            ir.model,
            emit::resolution_of(m, ir.model),
            plan::timeline(ir.model)[k],
        ),
    ensures
        ({
            let feature = plan::timeline(ir.model)[k];
            let plan = emit::plan_for(plan::resolved_plans(m, ir.model), feature)->0;
            &&& emit::exported(m, ir).lines.contains(
                program::indented(comment_of(m, feature, plan)),
            )
            &&& plan.profile matches Some(resolved) && (resolved.inference is Some
                <==> plan::reading(plan, plan::arrangements_of(m, ir.model)) is Err)
        }),
{
    let model = ir.model;
    let steps = plan::timeline(model);
    let feature = steps[k];
    let plans = plan::resolved_plans(m, model);
    let start = opened(m, ir);
    steps_continue(m, start, model, emit::resolution_of(m, model), steps, steps.len() as int);
    exported_continues(m, ir);
    continued_holds(filled(m, ir), emit::exported(m, ir));
    plan_from_is_listed(plans, feature.id@, 0);
    let found = emit::plan_for(plans, feature)->0;
    let at = choose|at: int| 0 <= at < plans.len() && #[trigger] plans[at] == found;
    resolved_plan_is_grounded(m, model, at);
}

/// The counts add up: one extrude and one sketch for every extrude feature that
/// is written, one fillet for every group that is, and each of them a feature.
/// Sketches and blends are numbered without a gap.
pub proof fn counts_add_up(m: Arithmetic, ir: CadIr)
    ensures
        ({
            let p = emit::exported(m, ir);
            let steps = plan::timeline(ir.model);
            let resolution = emit::resolution_of(m, ir.model);
            &&& p.extrudes == extrudes_written(
                m,
                ir.model,
                resolution,
                steps,
                steps.len() as int,
            )
            &&& p.fillets == fillets_written(m, ir.model, steps, steps.len() as int)
            &&& p.features == p.extrudes + p.fillets
            &&& p.sketches == p.extrudes
            &&& p.sketch_seq == p.sketches
            &&& p.blend_seq == p.fillets
        }),
{
    let model = ir.model;
    let steps = plan::timeline(model);
    let resolution = emit::resolution_of(m, model);
    assert forall|i: int| 0 <= i < resolution.plans.len() implies ((
    #[trigger] resolution.plans[i]).profile matches Some(resolved)
        ==> resolution.frames.contains_key(resolved.sketch)) by {
        resolved_plan_is_grounded(m, model, i);
    }
    steps_continue(m, opened(m, ir), model, resolution, steps, steps.len() as int);
}

} // verus!
