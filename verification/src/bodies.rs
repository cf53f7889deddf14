//! The bodies a program starts and the notes on merging them.

use crate::arrangement::{ArrangementView, RegionView};
use crate::emit;
use crate::emit::Resolution;
use crate::frame;
use crate::frame::SketchFrame;
use crate::ir::{BooleanOp, CadIr, Feature, FeatureDefinition, FilletGroup, Model, RadiusSpec};
use crate::kernel::Arithmetic;
use crate::meridian::MeridianView;
use crate::notes;
use crate::plan;
use crate::plan::PlanView;
use crate::program::{LossView, ProgramView};
use crate::scalar::{Scalar, ZERO};
use crate::wording;
use vstd::prelude::*;

verus! {

// ---------------------------------------------------------------------------
// notes of resolution
// ---------------------------------------------------------------------------

/// Whether no note reports a merged body.
spec fn none_merge(losses: Seq<LossView>) -> bool {
    forall|i: int| 0 <= i < losses.len() ==> !notes::is_merge_note(#[trigger] losses[i])
}

proof fn outlines_merge_none(
    m: Arithmetic,
    frames: Map<Seq<char>, SketchFrame>,
    steps: Seq<Feature>,
    n: int,
)
    ensures
        none_merge(plan::outline_losses(m, frames, steps, n)),
    decreases n,
{
    if n > 0 {
        outlines_merge_none(m, frames, steps, n - 1);
        let feature = steps[n - 1];
        notes::notes_on_features(feature);
        if let FeatureDefinition::Extrude { profile, .. } = feature.definition {
            if let Some(sketch) = plan::sketch_of(profile) {
                notes::notes_on_plans(feature, sketch, Seq::empty());
            }
        }
    }
}

proof fn settling_merges_none(
    m: Arithmetic,
    plans: Seq<PlanView>,
    arrangements: Map<Seq<char>, ArrangementView>,
    rings: Map<Seq<char>, usize>,
    solid: Option<MeridianView>,
    open: Seq<(usize, Seq<char>)>,
    n: int,
)
    ensures
        none_merge(plan::settle_losses(m, plans, arrangements, rings, solid, open, n)),
    decreases n,
{
    if n > 0 {
        settling_merges_none(m, plans, arrangements, rings, solid, open, n - 1);
        let now = plan::settled(m, plans, arrangements, rings, solid, open, n - 1);
        let feature = now[open[n - 1].0 as int].feature;
        notes::notes_on_features(feature);
        notes::notes_on_plans(feature, Seq::empty(), open[n - 1].1);
    }
}

proof fn resolution_merges_none(m: Arithmetic, model: Model)
    ensures
        none_merge(plan::resolution_losses(m, model)),
        notes::all_merge_notes(plan::resolution_losses(m, model)) == 0,
{
    let steps = plan::timeline(model);
    let open = plan::open_of(m, model);
    outlines_merge_none(m, plan::frames_of(m, model), steps, steps.len() as int);
    settling_merges_none(
        m,
        plan::plans_read(m, model),
        plan::arrangements_of(m, model),
        plan::rings_of(m, model),
        plan::solid_of(m, model),
        open,
        open.len() as int,
    );
    notes::note_on_classifier();
    assert(none_merge(plan::classifier_losses(plan::solid_of(m, model), open)));
    let losses = plan::resolution_losses(m, model);
    notes::merge_notes_add(Seq::empty(), losses, losses.len() as int);
    assert(Seq::<LossView>::empty() + losses =~= losses);
}

// ---------------------------------------------------------------------------
// notes of the timeline
// ---------------------------------------------------------------------------

/// Whether every body of a program but the first is noted: there is exactly one
/// note on merging for each.
pub open spec fn bodies_noted(p: ProgramView) -> bool {
    &&& p.bodies_started >= 0
    &&& notes::all_merge_notes(p.losses) == if p.bodies_started > 1 {
        p.bodies_started - 1
    } else {
        0
    }
}

/// Whether a program has the bodies of another, and notes them as that does.
spec fn same_bodies(p: ProgramView, q: ProgramView) -> bool {
    &&& q.bodies_started == p.bodies_started
    &&& notes::all_merge_notes(q.losses) == notes::all_merge_notes(p.losses)
}

proof fn loops_start_no_body(
    m: Arithmetic,
    p: ProgramView,
    arrangements: Map<Seq<char>, ArrangementView>,
    sketch: Seq<char>,
    loops: Seq<(usize, bool)>,
    n: int,
)
    ensures
        same_bodies(p, emit::with_loops(m, p, arrangements, sketch, loops, n)),
    decreases n,
{
    if n > 0 {
        loops_start_no_body(m, p, arrangements, sketch, loops, n - 1);
        let before = emit::with_loops(m, p, arrangements, sketch, loops, n - 1);
        let note = wording::not_a_circle(sketch, loops[n - 1].0);
        notes::notes_on_loops(sketch, loops[n - 1].0);
        notes::merge_notes_push(before.losses, note);
    }
}

proof fn sketch_starts_no_body(
    m: Arithmetic,
    p: ProgramView,
    frames: Map<Seq<char>, SketchFrame>,
    arrangements: Map<Seq<char>, ArrangementView>,
    sketch: Seq<char>,
    regions: Seq<RegionView>,
)
    ensures
        same_bodies(p, emit::with_sketch(m, p, frames, arrangements, sketch, regions)),
{
    if frames.contains_key(sketch) {
        let loops = emit::region_loops(regions, regions.len() as int);
        let opened = p.next_sketch().body_line(
            wording::sketch_line(m, frames[sketch], p.sketch_seq),
        );
        let others = emit::other_loops(arrangements, sketch, loops, loops.len() as int);
        loops_start_no_body(m, p, arrangements, sketch, others, others.len() as int);
        loops_start_no_body(m, opened, arrangements, sketch, loops, loops.len() as int);
    }
}

proof fn body_lines_start_no_body(p: ProgramView, lines: Seq<Seq<char>>, n: int)
    ensures
        same_bodies(p, emit::with_body_lines(p, lines, n)),
    decreases n,
{
    if n > 0 {
        body_lines_start_no_body(p, lines, n - 1);
    }
}

proof fn groups_start_no_body(
    m: Arithmetic,
    p: ProgramView,
    model: Model,
    feature: Feature,
    groups: Seq<FilletGroup>,
    n: int,
)
    ensures
        same_bodies(p, emit::after_groups(m, p, model, feature, groups, n)),
    decreases n,
{
    if n > 0 {
        groups_start_no_body(m, p, model, feature, groups, n - 1);
        let before = emit::after_groups(m, p, model, feature, groups, n - 1);
        match groups[n - 1].radius {
            RadiusSpec::Constant { radius } => {
                let edges = emit::blended(m, model, radius);
                let lines = emit::fillet_lines(m, feature, radius, edges, before.blend_seq);
                body_lines_start_no_body(before.next_blend(), lines, lines.len() as int);
                notes::notes_on_groups(m, feature, radius, n - 1);
                notes::merge_notes_push(
                    before.losses,
                    wording::no_blend_face(m, feature, radius),
                );
            },
            RadiusSpec::Other => {
                notes::notes_on_groups(m, feature, Scalar { bits: ZERO }, n - 1);
                notes::merge_notes_push(before.losses, wording::varying_radius(feature, n - 1));
            },
        }
    }
}

/// How many bodies the extrusion of a feature starts: one, if it is written and
/// makes a new body.
pub open spec fn started_by(m: Arithmetic, resolution: Resolution, feature: Feature) -> int {
    if emit::writes_extrude(m, resolution, feature) && emit::plan_for(
        resolution.plans,
        feature,
    )->0.op == BooleanOp::NewBody {
        1
    } else {
        0
    }
}

/// How many bodies a feature of the timeline starts.
pub open spec fn bodies_of(
    m: Arithmetic,
    model: Model,
    resolution: Resolution,
    feature: Feature,
) -> int {
    if feature.definition is Extrude && emit::writes_step(m, model, resolution, feature) {
        started_by(m, resolution, feature)
    } else {
        0
    }
}

/// How many bodies the first `n` features start.
pub open spec fn bodies_written(
    m: Arithmetic,
    model: Model,
    resolution: Resolution,
    steps: Seq<Feature>,
    n: int,
) -> int
    decreases n,
{
    if n <= 0 {
        0
    } else {
        bodies_written(m, model, resolution, steps, n - 1) + bodies_of(
            m,
            model,
            resolution,
            steps[n - 1],
        )
    }
}

/// An extrude keeps every body but the first noted, and starts one exactly if it
/// is written and makes a new body. One that does is written without a mode, as
/// any that adds material.
pub proof fn extrude_notes_its_body(
    m: Arithmetic,
    p: ProgramView,
    resolution: Resolution,
    feature: Feature,
)
    requires
        bodies_noted(p),
    ensures
        bodies_noted(emit::after_extrude(m, p, resolution, feature)),
        emit::after_extrude(m, p, resolution, feature).bodies_started == p.bodies_started
            + started_by(m, resolution, feature),
        wording::mode_of(BooleanOp::NewBody) == Some("Mode.ADD"@),
        wording::mode_suffix(BooleanOp::NewBody) == Seq::<char>::empty(),
        forall|travel: (Scalar, Scalar)| #[trigger]
            wording::extrude_line(m, BooleanOp::NewBody, travel) == wording::extrude_line(
                m,
                BooleanOp::Join,
                travel,
            ),
{
    notes::notes_on_features(feature);
    notes::merge_notes_push(p.losses, wording::unresolved_profile(feature));
    notes::merge_notes_push(p.losses, wording::unresolved_operation(feature));
    notes::merge_notes_push(p.losses, wording::further_body(feature));
    if let Some(plan) = emit::plan_for(resolution.plans, feature) {
        if let Some(resolved) = plan.profile {
            let frames = resolution.frames;
            let arrangements = resolution.arrangements;
            let sketch = resolved.sketch;
            let regions = resolved.regions;
            sketch_starts_no_body(m, p, frames, arrangements, sketch, regions);
            let undrawn = emit::with_sketch(m, p, frames, arrangements, sketch, regions);
            notes::merge_notes_push(undrawn.losses, wording::undrawn(feature));
            if let Some(travel) = frame::travel(m, plan.extent) {
                let started = emit::with_body(p, feature, plan.op);
                let commented = started.body_line(""@).body_line(
                    wording::extrude_comment(m, feature, plan.op, travel, resolved.inference),
                );
                assert(same_bodies(started, commented));
                sketch_starts_no_body(m, commented, frames, arrangements, sketch, regions);
                let sketched = emit::with_sketch(
                    m,
                    commented,
                    frames,
                    arrangements,
                    sketch,
                    regions,
                );
                notes::merge_notes_push(sketched.losses, wording::halved(feature));
                assert(same_bodies(
                    sketched,
                    emit::with_travel(m, sketched, feature, plan.op, travel),
                ));
                assert(bodies_noted(started));
            }
        }
    }
}

proof fn step_notes_its_body(
    m: Arithmetic,
    p: ProgramView,
    model: Model,
    resolution: Resolution,
    feature: Feature,
)
    requires
        bodies_noted(p),
    ensures
        bodies_noted(emit::after_step(m, p, model, resolution, feature)),
        emit::after_step(m, p, model, resolution, feature).bodies_started == p.bodies_started
            + bodies_of(m, model, resolution, feature),
{
    notes::notes_on_features(feature);
    notes::merge_notes_push(p.losses, wording::suppressed_note(feature));
    notes::merge_notes_push(p.losses, wording::without_groups(feature));
    notes::merge_notes_push(p.losses, wording::unsupported_family(feature));
    if !plan::is_suppressed(feature) {
        match feature.definition {
            FeatureDefinition::Extrude { .. } => {
                extrude_notes_its_body(m, p, resolution, feature);
            },
            FeatureDefinition::Fillet { groups } => {
                groups_start_no_body(m, p, model, feature, groups@, groups@.len() as int);
            },
            _ => {},
        }
    }
}

proof fn steps_note_their_bodies(
    m: Arithmetic,
    p: ProgramView,
    model: Model,
    resolution: Resolution,
    steps: Seq<Feature>,
    n: int,
)
    requires
        bodies_noted(p),
    ensures
        bodies_noted(emit::after_steps(m, p, model, resolution, steps, n)),
        emit::after_steps(m, p, model, resolution, steps, n).bodies_started == p.bodies_started
            + bodies_written(m, model, resolution, steps, n),
    decreases n,
{
    if n > 0 {
        steps_note_their_bodies(m, p, model, resolution, steps, n - 1);
        let before = emit::after_steps(m, p, model, resolution, steps, n - 1);
        step_notes_its_body(m, before, model, resolution, steps[n - 1]);
    }
}

/// A program starts as many bodies as extrudes are written that make a new one,
/// and its report holds exactly one note on merging for each but the first.
pub proof fn every_further_body_is_noted(m: Arithmetic, ir: CadIr)
    ensures
        ({
            let p = emit::exported(m, ir);
            let steps = plan::timeline(ir.model);
            let bodies = bodies_written(
                m,
                ir.model,
                emit::resolution_of(m, ir.model),
                steps,
                steps.len() as int,
            );
            &&& p.bodies_started == bodies
            &&& notes::all_merge_notes(p.losses) == if bodies > 1 {
                bodies - 1
            } else {
                0
            }
        }),
{
    let opened = emit::with_header(
        ProgramView { losses: plan::resolution_losses(m, ir.model), ..ProgramView::empty() },
        ir,
    ).line(emit::builder_line());
    let steps = plan::timeline(ir.model);
    resolution_merges_none(m, ir.model);
    steps_note_their_bodies(
        m,
        opened,
        ir.model,
        emit::resolution_of(m, ir.model),
        steps,
        steps.len() as int,
    );
}

// ---------------------------------------------------------------------------
// any sequence of extrudes
// ---------------------------------------------------------------------------

/// A program after the first `n` of some features have been extruded.
pub open spec fn after_extrudes(
    m: Arithmetic,
    p: ProgramView,
    resolution: Resolution,
    features: Seq<Feature>,
    n: int,
) -> ProgramView
    decreases n,
{
    if n <= 0 {
        p
    } else {
        emit::after_extrude(
            m,
            after_extrudes(m, p, resolution, features, n - 1),
            resolution,
            features[n - 1],
        )
    }
}

/// How many bodies the extrusion of the first `n` of some features starts.
pub open spec fn started_by_all(
    m: Arithmetic,
    resolution: Resolution,
    features: Seq<Feature>,
    n: int,
) -> int
    decreases n,
{
    if n <= 0 {
        0
    } else {
        started_by_all(m, resolution, features, n - 1) + started_by(
            m,
            resolution,
            features[n - 1],
        )
    }
}

proof fn extrudes_note_their_bodies(
    m: Arithmetic,
    p: ProgramView,
    resolution: Resolution,
    features: Seq<Feature>,
    n: int,
)
    requires
        bodies_noted(p),
    ensures
        bodies_noted(after_extrudes(m, p, resolution, features, n)),
        after_extrudes(m, p, resolution, features, n).bodies_started == p.bodies_started
            + started_by_all(m, resolution, features, n),
    decreases n,
{
    if n > 0 {
        extrudes_note_their_bodies(m, p, resolution, features, n - 1);
        let before = after_extrudes(m, p, resolution, features, n - 1);
        extrude_notes_its_body(m, before, resolution, features[n - 1]);
    }
}

/// Whatever features are extruded once a document is planned, in whatever order
/// and however often: as many bodies are started as extrudes are written that
/// make a new one, and there is exactly one note on merging for each but the
/// first.
pub proof fn any_extrudes_note_their_bodies(
    m: Arithmetic,
    model: Model,
    features: Seq<Feature>,
    n: int,
)
    ensures
        ({
            let planned = ProgramView {
                losses: plan::resolution_losses(m, model),
                ..ProgramView::empty()
            };
            let resolution = emit::resolution_of(m, model);
            let p = after_extrudes(m, planned, resolution, features, n);
            let bodies = started_by_all(m, resolution, features, n);
            &&& p.bodies_started == bodies
            &&& notes::all_merge_notes(p.losses) == if bodies > 1 {
                bodies - 1
            } else {
                0
            }
        }),
{
    let planned = ProgramView {
        losses: plan::resolution_losses(m, model),
        ..ProgramView::empty()
    };
    resolution_merges_none(m, model);
    extrudes_note_their_bodies(m, planned, emit::resolution_of(m, model), features, n);
}

} // verus!
