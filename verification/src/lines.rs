//! What the lines of a program say, letter by letter.

use crate::arrangement::{ArrangementView, RegionView};
use crate::blend;
use crate::blend::EdgeCircle;
use crate::emit;
use crate::emit::Resolution;
use crate::frame;
use crate::frame::SketchFrame;
use crate::ir::{
    BooleanOp, CadIr, ExtrudeExtent, Feature, FeatureDefinition, FilletGroup, Model, RadiusSpec,
    Termination,
};
use crate::kernel::Arithmetic;
use crate::plan;
use crate::plan::PlanView;
use crate::program::{Counts, LossKind, LossView, ProgramView};
use crate::scalar::Scalar;
use crate::text;
use crate::wording;
use vstd::prelude::*;

verus! {

// ---------------------------------------------------------------------------
// circles
// ---------------------------------------------------------------------------

/// The lines on a loop that is a circle: where its centre lies, the u coordinate
/// first, and how large it is, as an exterior or as a hole.
pub open spec fn circle_lines(m: Arithmetic, u: Scalar, v: Scalar, radius: Scalar, hole: bool) -> Seq<
    Seq<char>,
> {
    let end = if hole {
        ", mode=Mode.SUBTRACT)"@
    } else {
        ")"@
    };
    seq![
        "    "@ + "    with Locations(("@ + (m.number)(u) + ", "@ + (m.number)(v) + ")):"@,
        "    "@ + "        Circle("@ + (m.number)(radius) + end,
    ]
}

/// The note on a loop that is no circle.
pub open spec fn loop_note(sketch: Seq<char>, ring: usize) -> LossView {
    LossView {
        kind: LossKind::ParametricRecordOmitted,
        message: "sketch "@ + sketch + " loop "@ + text::digits(ring as nat)
            + " is not a single circle; this encoder writes circular profile loops only"@,
    }
}

/// Whether a loop of an arranged sketch is a lone circle about a centre.
pub open spec fn is_circle(
    arrangements: Map<Seq<char>, ArrangementView>,
    sketch: Seq<char>,
    ring: usize,
) -> bool {
    arrangements.contains_key(sketch) && ring < arrangements[sketch].rings.len()
        && arrangements[sketch].rings[ring as int].circle is Some
}

/// The lines on a loop, if it is a circle.
pub open spec fn loop_lines(
    m: Arithmetic,
    arrangements: Map<Seq<char>, ArrangementView>,
    sketch: Seq<char>,
    ring: usize,
    hole: bool,
) -> Seq<Seq<char>> {
    if is_circle(arrangements, sketch, ring) {
        let ((u, v), radius) = arrangements[sketch].rings[ring as int].circle->0;
        circle_lines(m, u, v, radius, hole)
    } else {
        Seq::empty()
    }
}

/// The notes on a loop, if it is no circle.
pub open spec fn loop_notes(
    arrangements: Map<Seq<char>, ArrangementView>,
    sketch: Seq<char>,
    ring: usize,
) -> Seq<LossView> {
    if is_circle(arrangements, sketch, ring) {
        Seq::empty()
    } else {
        seq![loop_note(sketch, ring)]
    }
}

/// A loop that is a circle is placed at its centre, u before v, and drawn with its
/// radius, subtracted if it is a hole; a loop that is none leaves a note.
pub proof fn loop_is_drawn(
    m: Arithmetic,
    p: ProgramView,
    arrangements: Map<Seq<char>, ArrangementView>,
    sketch: Seq<char>,
    ring: usize,
    hole: bool,
)
    ensures
        ({
            let q = emit::with_loop(m, p, arrangements, sketch, ring, hole);
            &&& q.lines == p.lines + loop_lines(m, arrangements, sketch, ring, hole)
            &&& q.losses == p.losses + loop_notes(arrangements, sketch, ring)
            &&& q == (ProgramView { lines: q.lines, losses: q.losses, ..p })
        }),
{
    reveal_strlit(")");
    reveal_strlit(", mode=Mode.SUBTRACT");
    reveal_strlit(", mode=Mode.SUBTRACT)");
    reveal_strlit("");
    reveal_strlit("    with Locations((");
    reveal_strlit("        Circle(");
    let q = emit::with_loop(m, p, arrangements, sketch, ring, hole);
    if is_circle(arrangements, sketch, ring) {
        let ((u, v), radius) = arrangements[sketch].rings[ring as int].circle->0;
        let lines = circle_lines(m, u, v, radius, hole);
        assert(", mode=Mode.SUBTRACT"@ + ")"@ =~= ", mode=Mode.SUBTRACT)"@);
        let place = "    "@ + wording::location_line(m, (u, v));
        assert(place =~= lines[0]);
        let draw = "    "@ + wording::circle_line(m, radius, hole);
        assert(draw =~= lines[1]);
        assert(q.lines =~= p.lines.push(place).push(draw));
        assert(q.lines =~= p.lines + lines);
        assert(q.losses =~= p.losses + loop_notes(arrangements, sketch, ring));
    } else {
        assert(q.losses =~= p.losses + loop_notes(arrangements, sketch, ring));
        assert(q.lines =~= p.lines + loop_lines(m, arrangements, sketch, ring, hole));
    }
}

// ---------------------------------------------------------------------------
// sketch blocks
// ---------------------------------------------------------------------------

/// The loops of the first `n` regions in the order they are drawn, each with
/// whether it is a hole: of every region its outer loop, then its holes.
pub open spec fn listed(regions: Seq<RegionView>, n: int) -> Seq<(usize, bool)>
    decreases n,
{
    if n <= 0 {
        Seq::empty()
    } else {
        listed(regions, n - 1) + seq![(regions[n - 1].outer, false)] + regions[n
            - 1].holes.map_values(|hole: usize| (hole, true))
    }
}

/// Whether the first circle among some loops is no hole.
pub open spec fn begins_with_exterior(
    arrangements: Map<Seq<char>, ArrangementView>,
    sketch: Seq<char>,
    loops: Seq<(usize, bool)>,
) -> bool {
    exists|k: int|
        0 <= k < loops.len() && !(#[trigger] loops[k]).1 && is_circle(
            arrangements,
            sketch,
            loops[k].0,
        ) && forall|j: int|
            0 <= j < k ==> !is_circle(arrangements, sketch, (#[trigger] loops[j]).0)
}

/// The lines on the first `n` of some loops.
pub open spec fn all_lines(
    m: Arithmetic,
    arrangements: Map<Seq<char>, ArrangementView>,
    sketch: Seq<char>,
    loops: Seq<(usize, bool)>,
    n: int,
) -> Seq<Seq<char>>
    decreases n,
{
    if n <= 0 {
        Seq::empty()
    } else {
        all_lines(m, arrangements, sketch, loops, n - 1) + loop_lines(
            m,
            arrangements,
            sketch,
            loops[n - 1].0,
            loops[n - 1].1,
        )
    }
}

/// The notes on the first `n` of some loops.
pub open spec fn all_notes(
    arrangements: Map<Seq<char>, ArrangementView>,
    sketch: Seq<char>,
    loops: Seq<(usize, bool)>,
    n: int,
) -> Seq<LossView>
    decreases n,
{
    if n <= 0 {
        Seq::empty()
    } else {
        all_notes(arrangements, sketch, loops, n - 1) + loop_notes(
            arrangements,
            sketch,
            loops[n - 1].0,
        )
    }
}

/// The line that opens a sketch on a plane: where the plane lies, which way its
/// first axis runs, which way it faces, and the number of the sketch.
pub open spec fn plane_line(m: Arithmetic, frame: SketchFrame, number: int) -> Seq<char> {
    "    "@ + "with BuildSketch(Plane(origin="@ + (m.tuple)(frame.origin) + ", x_dir="@ + (m.tuple)(
        frame.x_axis,
    ) + ", z_dir="@ + (m.tuple)(frame.normal) + ")) as sketch"@ + text::digits(number as nat)
        + ":"@
}

proof fn loops_are_listed(regions: Seq<RegionView>, n: int)
    requires
        n <= regions.len(),
    ensures
        emit::region_loops(regions, n) == listed(regions, n),
    decreases n,
{
    if n > 0 {
        loops_are_listed(regions, n - 1);
        let region = regions[n - 1];
        let holes = region.holes.map_values(|hole: usize| (hole, true));
        assert(emit::hole_loops(region.holes, region.holes.len() as int) =~= holes);
        assert(emit::region_loops(regions, n) =~= listed(regions, n));
    }
}

proof fn loops_are_drawn(
    m: Arithmetic,
    p: ProgramView,
    arrangements: Map<Seq<char>, ArrangementView>,
    sketch: Seq<char>,
    loops: Seq<(usize, bool)>,
    n: int,
)
    ensures
        ({
            let q = emit::with_loops(m, p, arrangements, sketch, loops, n);
            &&& q.lines == p.lines + all_lines(m, arrangements, sketch, loops, n)
            &&& q.losses == p.losses + all_notes(arrangements, sketch, loops, n)
            &&& q == (ProgramView { lines: q.lines, losses: q.losses, ..p })
        }),
    decreases n,
{
    let q = emit::with_loops(m, p, arrangements, sketch, loops, n);
    if n > 0 {
        loops_are_drawn(m, p, arrangements, sketch, loops, n - 1);
        let before = emit::with_loops(m, p, arrangements, sketch, loops, n - 1);
        loop_is_drawn(m, before, arrangements, sketch, loops[n - 1].0, loops[n - 1].1);
    }
    assert(q.lines =~= p.lines + all_lines(m, arrangements, sketch, loops, n));
    assert(q.losses =~= p.losses + all_notes(arrangements, sketch, loops, n));
}

proof fn left_out_loops_are_noted(
    m: Arithmetic,
    arrangements: Map<Seq<char>, ArrangementView>,
    sketch: Seq<char>,
    loops: Seq<(usize, bool)>,
    n: int,
)
    requires
        n <= loops.len(),
    ensures
        ({
            let others = emit::other_loops(arrangements, sketch, loops, n);
            let some = others.len() as int;
            &&& all_lines(m, arrangements, sketch, others, some) == Seq::<Seq<char>>::empty()
            &&& all_notes(arrangements, sketch, others, some) == all_notes(
                arrangements,
                sketch,
                loops,
                n,
            )
        }),
    decreases n,
{
    if n > 0 {
        left_out_loops_are_noted(m, arrangements, sketch, loops, n - 1);
        let rest = emit::other_loops(arrangements, sketch, loops, n - 1);
        let others = emit::other_loops(arrangements, sketch, loops, n);
        if others.len() > rest.len() {
            same_prefix(m, arrangements, sketch, rest, others, rest.len() as int);
        }
    }
}

proof fn same_prefix(
    m: Arithmetic,
    arrangements: Map<Seq<char>, ArrangementView>,
    sketch: Seq<char>,
    a: Seq<(usize, bool)>,
    b: Seq<(usize, bool)>,
    n: int,
)
    requires
        n <= a.len(),
        n <= b.len(),
        forall|i: int| 0 <= i < n ==> #[trigger] a[i] == b[i],
    ensures
        all_lines(m, arrangements, sketch, a, n) == all_lines(m, arrangements, sketch, b, n),
        all_notes(arrangements, sketch, a, n) == all_notes(arrangements, sketch, b, n),
    decreases n,
{
    if n > 0 {
        same_prefix(m, arrangements, sketch, a, b, n - 1);
        assert(a[n - 1] == b[n - 1]);
    }
}

proof fn drawing_begins_with_exterior(
    arrangements: Map<Seq<char>, ArrangementView>,
    sketch: Seq<char>,
    loops: Seq<(usize, bool)>,
)
    ensures
        emit::can_be_drawn(arrangements, sketch, loops) == begins_with_exterior(
            arrangements,
            sketch,
            loops,
        ),
{
    if emit::can_be_drawn(arrangements, sketch, loops) {
        let k = choose|k: int|
            #[trigger] emit::is_first_circle(arrangements, sketch, loops, k) && !loops[k].1;
        assert(!loops[k].1);
        assert forall|j: int| 0 <= j < k implies !is_circle(
            arrangements,
            sketch,
            (#[trigger] loops[j]).0,
        ) by {
            assert(emit::loop_circle(arrangements, sketch, loops[j].0) is None);
        }
    }
    if begins_with_exterior(arrangements, sketch, loops) {
        let k = choose|k: int|
            0 <= k < loops.len() && !(#[trigger] loops[k]).1 && is_circle(
                arrangements,
                sketch,
                loops[k].0,
            ) && forall|j: int|
                0 <= j < k ==> !is_circle(arrangements, sketch, (#[trigger] loops[j]).0);
        assert forall|j: int| 0 <= j < k implies emit::loop_circle(
            arrangements,
            sketch,
            (#[trigger] loops[j]).0,
        ) is None by {
            assert(!is_circle(arrangements, sketch, loops[j].0));
        }
        assert(emit::is_first_circle(arrangements, sketch, loops, k));
    }
}

/// A sketch block names its plane and draws the loops of the regions in order, at
/// their places and with their sizes: exteriors added, holes subtracted. Loops
/// that are no circles are noted. Where no circle would come first that is an
/// exterior, there is no block, and the notes stand alone.
pub proof fn sketch_is_drawn(
    m: Arithmetic,
    p: ProgramView,
    frames: Map<Seq<char>, SketchFrame>,
    arrangements: Map<Seq<char>, ArrangementView>,
    sketch: Seq<char>,
    regions: Seq<RegionView>,
)
    requires
        frames.contains_key(sketch),
    ensures
        ({
            let q = emit::with_sketch(m, p, frames, arrangements, sketch, regions);
            let loops = listed(regions, regions.len() as int);
            let all = loops.len() as int;
            let drawn = begins_with_exterior(arrangements, sketch, loops);
            &&& drawn ==> q.lines == p.lines + seq![plane_line(m, frames[sketch], p.sketch_seq)]
                + all_lines(m, arrangements, sketch, loops, all)
            &&& !drawn ==> q.lines == p.lines
            &&& q.losses == p.losses + all_notes(arrangements, sketch, loops, all)
            &&& q.sketch_seq == p.sketch_seq + if drawn {
                1int
            } else {
                0
            }
            &&& q.sketches == p.sketches + if drawn {
                1int
            } else {
                0
            }
            &&& q == (ProgramView {
                lines: q.lines,
                losses: q.losses,
                sketch_seq: q.sketch_seq,
                sketches: q.sketches,
                ..p
            })
        }),
{
    let loops = listed(regions, regions.len() as int);
    let all = loops.len() as int;
    loops_are_listed(regions, regions.len() as int);
    drawing_begins_with_exterior(arrangements, sketch, loops);
    let q = emit::with_sketch(m, p, frames, arrangements, sketch, regions);
    if begins_with_exterior(arrangements, sketch, loops) {
        let line = wording::sketch_line(m, frames[sketch], p.sketch_seq);
        let opened = p.next_sketch().body_line(line);
        assert(line.len() > 0) by {
            reveal_strlit("with BuildSketch(Plane(origin=");
        }
        assert("    "@ + line =~= plane_line(m, frames[sketch], p.sketch_seq));
        loops_are_drawn(m, opened, arrangements, sketch, loops, all);
        assert(opened.lines =~= p.lines + seq![plane_line(m, frames[sketch], p.sketch_seq)]);
    } else {
        let others = emit::other_loops(arrangements, sketch, loops, all);
        loops_are_drawn(m, p, arrangements, sketch, others, others.len() as int);
        left_out_loops_are_noted(m, arrangements, sketch, loops, all);
        assert(q.lines =~= p.lines);
    }
}

// ---------------------------------------------------------------------------
// extrudes
// ---------------------------------------------------------------------------

/// What a feature is called: its name, or its identity where it has none.
pub open spec fn called(feature: Feature) -> Seq<char> {
    if feature.name is Some {
        (feature.name->0)@
    } else {
        feature.id@
    }
}

/// A note that something of a feature is left out.
pub open spec fn note_on(feature: Feature, remark: Seq<char>) -> LossView {
    LossView {
        kind: LossKind::ParametricRecordOmitted,
        message: called(feature) + remark,
    }
}

/// Whether an extent reaches some way behind its plane and some way in front of
/// it: one side all in front, a total half each way, or each side its own way, the
/// first in front.
pub open spec fn reaches(
    m: Arithmetic,
    extent: ExtrudeExtent,
    back: Scalar,
    forward: Scalar,
) -> bool {
    match extent {
        ExtrudeExtent::OneSided { side } => side.termination == (Termination::Blind {
            length: forward,
        }) && back.bits == 0,
        ExtrudeExtent::Symmetric { side } => {
            &&& side.termination is Blind
            &&& back == m.divide(
                side.termination->length,
                Scalar { bits: 0x4000_0000_0000_0000 },
            )
            &&& forward == back
        },
        ExtrudeExtent::TwoSided { first, second } => {
            &&& first.termination == (Termination::Blind { length: forward })
            &&& second.termination == (Termination::Blind { length: back })
        },
    }
}

/// Whether something lies behind the plane.
pub open spec fn goes_back(back: Scalar) -> bool {
    (Scalar { bits: 0 }).below(back)
}

/// Whether an extrude goes back as far as it goes forward, to within 1e-9 either
/// way.
pub open spec fn is_even(m: Arithmetic, back: Scalar, forward: Scalar) -> bool {
    goes_back(back) && m.minus(back, forward).unsigned().below(
        Scalar { bits: 0x3e11_2e0b_e826_d695 },
    )
}

/// What an operation is called in a comment.
pub open spec fn operation_text(op: BooleanOp) -> Seq<char> {
    match op {
        BooleanOp::Join => "join"@,
        BooleanOp::NewBody => "new body"@,
        BooleanOp::Cut => "cut"@,
        BooleanOp::Intersect => "intersect"@,
        BooleanOp::Unresolved => "unresolved"@,
    }
}

/// What an extrude says of its operation: nothing where it adds material.
pub open spec fn mode_text(op: BooleanOp) -> Seq<char> {
    match op {
        BooleanOp::Cut => ", mode="@ + "Mode.SUBTRACT"@,
        BooleanOp::Intersect => ", mode="@ + "Mode.INTERSECT"@,
        _ => Seq::empty(),
    }
}

/// The comment above an extrude.
pub open spec fn extrude_heading(
    m: Arithmetic,
    feature: Feature,
    op: BooleanOp,
    back: Scalar,
    forward: Scalar,
    inference: Option<Seq<char>>,
) -> Seq<char> {
    let travel = if is_even(m, back, forward) {
        "symmetric "@ + (m.number)(m.plus(back, forward)) + " mm total"@
    } else if goes_back(back) {
        "two-sided "@ + (m.number)(back) + " / "@ + (m.number)(forward) + " mm"@
    } else {
        "blind "@ + (m.number)(forward) + " mm"@
    };
    let mark = if inference is Some {
        "  INFERRED ("@ + inference->0 + ")"@
    } else {
        Seq::empty()
    };
    "    "@ + "# "@ + called(feature) + " - "@ + operation_text(op) + ", "@ + travel + mark
}

/// The lines that extrude: one for a travel forward only or as far back as
/// forward, else one for each way.
pub open spec fn extrude_lines(m: Arithmetic, op: BooleanOp, back: Scalar, forward: Scalar) -> Seq<
    Seq<char>,
> {
    if goes_back(back) && !is_even(m, back, forward) {
        seq![
            "    "@ + "extrude(amount="@ + (m.number)(forward) + mode_text(op) + ")"@,
            "    "@ + "extrude(part.sketches[-1], amount="@ + (m.number)(back)
                + ", dir=(0, 0, -1)"@ + mode_text(op) + ")"@,
        ]
    } else {
        let both = if is_even(m, back, forward) {
            ", "@ + "both=True"@
        } else {
            Seq::empty()
        };
        seq!["    "@ + "extrude("@ + "amount="@ + (m.number)(forward) + both + mode_text(op) + ")"@]
    }
}

/// The notes on an extrude that is written: on a body after the first, and on a
/// travel written as its two halves.
pub open spec fn body_notes(feature: Feature, op: BooleanOp, bodies: int) -> Seq<LossView> {
    if op == BooleanOp::NewBody && bodies >= 1 {
        seq![
            note_on(
                feature,
                ": starts a further body, and the emitted program merges every body into one part"@,
            ),
        ]
    } else {
        Seq::empty()
    }
}

/// The note on a travel written as its two halves.
pub open spec fn halves_notes(
    m: Arithmetic,
    feature: Feature,
    back: Scalar,
    forward: Scalar,
) -> Seq<LossView> {
    if goes_back(back) && !is_even(m, back, forward) {
        seq![note_on(feature, ": an asymmetric two-sided extent is emitted as two extrusions"@)]
    } else {
        Seq::empty()
    }
}

/// Whether an extrude goes back as far as it goes forward does not depend on which
/// of the two is the greater: exchanging two positive travels changes nothing,
/// where the difference is as great either way.
pub proof fn evenness_is_mutual(m: Arithmetic, a: Scalar, b: Scalar)
    requires
        (Scalar { bits: 0 }).below(a),
        (Scalar { bits: 0 }).below(b),
        m.minus(a, b).unsigned() == m.minus(b, a).unsigned(),
    ensures
        wording::symmetric(m, a, b) == wording::symmetric(m, b, a),
        wording::symmetric(m, a, b) ==> m.minus(a, b).unsigned().below(
            Scalar { bits: 0x3e11_2e0b_e826_d695 },
        ) && m.minus(b, a).unsigned().below(Scalar { bits: 0x3e11_2e0b_e826_d695 }),
{
}

proof fn one_piece(m: Arithmetic, op: BooleanOp, back: Scalar, forward: Scalar)
    requires
        !(goes_back(back) && !is_even(m, back, forward)),
        op != BooleanOp::Unresolved,
    ensures
        "    "@ + wording::extrude_line(m, op, (back, forward)) == extrude_lines(
            m,
            op,
            back,
            forward,
        )[0],
{
    let arguments = wording::extrude_arguments(m, op, (back, forward));
    reveal_with_fuel(text::joined, 4);
    reveal_strlit(", mode=");
    reveal_strlit("mode=");
    reveal_strlit(", ");
    assert(", "@ + "mode="@ =~= ", mode="@);
    let line = "    "@ + wording::extrude_line(m, op, (back, forward));
    assert(line =~= extrude_lines(m, op, back, forward)[0]);
}

proof fn travel_is_written(
    m: Arithmetic,
    p: ProgramView,
    feature: Feature,
    op: BooleanOp,
    back: Scalar,
    forward: Scalar,
)
    requires
        op != BooleanOp::Unresolved,
    ensures
        ({
            let q = emit::with_travel(m, p, feature, op, (back, forward));
            &&& q.lines == p.lines + extrude_lines(m, op, back, forward)
            &&& q.losses == p.losses + halves_notes(m, feature, back, forward)
            &&& q == (ProgramView { lines: q.lines, losses: q.losses, ..p })
        }),
{
    let q = emit::with_travel(m, p, feature, op, (back, forward));
    let lines = extrude_lines(m, op, back, forward);
    reveal_strlit("extrude(amount=");
    reveal_strlit("extrude(part.sketches[-1], amount=");
    reveal_strlit("extrude(");
    if goes_back(back) && !is_even(m, back, forward) {
        assert("    "@ + wording::forward_line(m, op, forward) =~= lines[0]);
        assert("    "@ + wording::backward_line(m, op, back) =~= lines[1]);
        assert(q.lines =~= p.lines + lines);
        assert(q.losses =~= p.losses + halves_notes(m, feature, back, forward));
    } else {
        one_piece(m, op, back, forward);
        assert(q.lines =~= p.lines + lines);
        assert(q.losses =~= p.losses + halves_notes(m, feature, back, forward));
    }
}

/// Whether a plan is the first of some that is for a feature.
pub open spec fn is_plan_of(plans: Seq<PlanView>, feature: Feature, i: int) -> bool {
    &&& 0 <= i < plans.len()
    &&& plans[i].feature.id@ == feature.id@
    &&& forall|j: int| 0 <= j < i ==> (#[trigger] plans[j]).feature.id@ != feature.id@
}

proof fn plan_is_found(plans: Seq<PlanView>, feature: Feature, i: int, from: int)
    requires
        is_plan_of(plans, feature, i),
        0 <= from <= i,
    ensures
        emit::plan_from(plans, feature.id@, from) == Some(plans[i]),
    decreases i - from,
{
    if from < i {
        assert(plans[from].feature.id@ != feature.id@);
        plan_is_found(plans, feature, i, from + 1);
    }
}

proof fn no_plan_is_found(plans: Seq<PlanView>, feature: Feature, from: int)
    requires
        forall|j: int| 0 <= j < plans.len() ==> (#[trigger] plans[j]).feature.id@ != feature.id@,
        0 <= from <= plans.len(),
    ensures
        emit::plan_from(plans, feature.id@, from) is None,
    decreases plans.len() - from,
{
    if from < plans.len() {
        no_plan_is_found(plans, feature, from + 1);
    }
}

/// An extrude with a profile and an operation is written as a blank line, a
/// comment, its sketch block and the lines that extrude it, with the notes it
/// calls for, and is counted: once its sketch is placed, and its first circle is
/// an exterior one.
pub proof fn extrude_is_written(
    m: Arithmetic,
    p: ProgramView,
    resolution: Resolution,
    feature: Feature,
    i: int,
    back: Scalar,
    forward: Scalar,
)
    requires
        is_plan_of(resolution.plans, feature, i),
        resolution.plans[i].op != BooleanOp::Unresolved,
        reaches(m, resolution.plans[i].extent, back, forward),
        resolution.plans[i].profile matches Some(resolved) && {
            &&& resolution.frames.contains_key(resolved.sketch)
            &&& begins_with_exterior(
                resolution.arrangements,
                resolved.sketch,
                listed(resolved.regions, resolved.regions.len() as int),
            )
        },
    ensures
        ({
            let q = emit::after_extrude(m, p, resolution, feature);
            let plan = resolution.plans[i];
            let resolved = plan.profile->0;
            let arrangements = resolution.arrangements;
            let loops = listed(resolved.regions, resolved.regions.len() as int);
            let all = loops.len() as int;
            &&& emit::writes_extrude(m, resolution, feature)
            &&& q.lines == p.lines + seq![
                Seq::empty(),
                extrude_heading(m, feature, plan.op, back, forward, resolved.inference),
                plane_line(m, resolution.frames[resolved.sketch], p.sketch_seq),
            ] + all_lines(m, arrangements, resolved.sketch, loops, all) + extrude_lines(
                m,
                plan.op,
                back,
                forward,
            )
            &&& q.losses == p.losses + body_notes(feature, plan.op, p.bodies_started) + all_notes(
                arrangements,
                resolved.sketch,
                loops,
                all,
            ) + halves_notes(m, feature, back, forward)
            &&& q == (ProgramView {
                lines: q.lines,
                losses: q.losses,
                sketch_seq: p.sketch_seq + 1,
                sketches: p.sketches + 1,
                extrudes: p.extrudes + 1,
                features: p.features + 1,
                bodies_started: p.bodies_started + if plan.op == BooleanOp::NewBody {
                    1int
                } else {
                    0
                },
                ..p
            })
        }),
{
    let plan = resolution.plans[i];
    let resolved = plan.profile->0;
    let frames = resolution.frames;
    let arrangements = resolution.arrangements;
    let sketch = resolved.sketch;
    let regions = resolved.regions;
    let loops = listed(regions, regions.len() as int);
    plan_is_found(resolution.plans, feature, i, 0);
    assert(frame::travel(m, plan.extent) == Some((back, forward)));
    loops_are_listed(regions, regions.len() as int);
    drawing_begins_with_exterior(arrangements, sketch, loops);
    let started = emit::with_body(p, feature, plan.op);
    assert(started.losses =~= p.losses + body_notes(feature, plan.op, p.bodies_started));
    reveal_strlit("");
    assert(""@ =~= Seq::<char>::empty());
    let spaced = started.body_line(""@);
    let comment = wording::extrude_comment(
        m,
        feature,
        plan.op,
        (back, forward),
        resolved.inference,
    );
    reveal_strlit("# ");
    let heading = extrude_heading(m, feature, plan.op, back, forward, resolved.inference);
    assert("    "@ + comment =~= heading);
    let commented = spaced.body_line(comment);
    assert(commented.lines =~= p.lines + seq![Seq::empty(), heading]);
    sketch_is_drawn(m, commented, frames, arrangements, sketch, regions);
    let sketched = emit::with_sketch(m, commented, frames, arrangements, sketch, regions);
    travel_is_written(m, sketched, feature, plan.op, back, forward);
    let q = emit::after_extrude(m, p, resolution, feature);
    let drawn = all_lines(m, arrangements, sketch, loops, loops.len() as int);
    let line = plane_line(m, frames[sketch], p.sketch_seq);
    assert(q.lines =~= p.lines + seq![Seq::empty(), heading, line] + drawn + extrude_lines(
        m,
        plan.op,
        back,
        forward,
    ));
}

/// An extrude that cannot be written adds no line, and says why: it has no
/// profile, its operation is open, or no exterior circle of it comes first.
pub proof fn extrude_is_left_out(
    m: Arithmetic,
    p: ProgramView,
    resolution: Resolution,
    feature: Feature,
    i: int,
    back: Scalar,
    forward: Scalar,
)
    requires
        is_plan_of(resolution.plans, feature, i),
        reaches(m, resolution.plans[i].extent, back, forward),
    ensures
        ({
            let q = emit::after_extrude(m, p, resolution, feature);
            let plan = resolution.plans[i];
            &&& plan.profile is None ==> q == (ProgramView {
                losses: p.losses.push(note_on(feature, ": its profile is unresolved"@)),
                ..p
            }) && !emit::writes_extrude(m, resolution, feature)
            &&& plan.profile is Some && plan.op == BooleanOp::Unresolved ==> q == (ProgramView {
                losses: p.losses.push(note_on(feature, ": its boolean operation is unresolved"@)),
                ..p
            }) && !emit::writes_extrude(m, resolution, feature)
            &&& (plan.profile is Some && plan.op != BooleanOp::Unresolved
                && resolution.frames.contains_key((plan.profile->0).sketch)
                && !begins_with_exterior(
                resolution.arrangements,
                (plan.profile->0).sketch,
                listed((plan.profile->0).regions, (plan.profile->0).regions.len() as int),
            )) ==> {
                let resolved = plan.profile->0;
                let loops = listed(resolved.regions, resolved.regions.len() as int);
                q == (ProgramView {
                    losses: (p.losses + all_notes(
                        resolution.arrangements,
                        resolved.sketch,
                        loops,
                        loops.len() as int,
                    )).push(
                        note_on(
                            feature,
                            ": no exterior loop of its profile is a single circle ahead of its holes, and this encoder writes circular profile loops only"@,
                        ),
                    ),
                    ..p
                }) && !emit::writes_extrude(m, resolution, feature)
            }
        }),
{
    let plan = resolution.plans[i];
    plan_is_found(resolution.plans, feature, i, 0);
    assert(frame::travel(m, plan.extent) == Some((back, forward)));
    if let Some(resolved) = plan.profile {
        let loops = listed(resolved.regions, resolved.regions.len() as int);
        loops_are_listed(resolved.regions, resolved.regions.len() as int);
        drawing_begins_with_exterior(resolution.arrangements, resolved.sketch, loops);
        if resolution.frames.contains_key(resolved.sketch) {
            sketch_is_drawn(
                m,
                p,
                resolution.frames,
                resolution.arrangements,
                resolved.sketch,
                resolved.regions,
            );
        }
    }
}

/// A feature that is not planned adds nothing.
pub proof fn unplanned_extrude_adds_nothing(
    m: Arithmetic,
    p: ProgramView,
    resolution: Resolution,
    feature: Feature,
)
    requires
        forall|j: int|
            0 <= j < resolution.plans.len() ==> (#[trigger] resolution.plans[j]).feature.id@
                != feature.id@,
    ensures
        emit::after_extrude(m, p, resolution, feature) == p,
        !emit::writes_extrude(m, resolution, feature),
{
    no_plan_is_found(resolution.plans, feature, 0);
}

// ---------------------------------------------------------------------------
// fillets
// ---------------------------------------------------------------------------

/// The test for an edge of a radius about a centre.
pub open spec fn edge_text(m: Arithmetic, edge: EdgeCircle) -> Seq<char> {
    "(abs(e.radius - "@ + (m.number)(edge.radius) + ") < 1e-4 and (e.arc_center - Vector"@
        + (m.tuple)(edge.center) + ").length < 1e-4)"@
}

/// The tests for the first `n` of some edges, one of which is to hold.
pub open spec fn edges_text(m: Arithmetic, edges: Seq<EdgeCircle>, n: int) -> Seq<char>
    decreases n,
{
    if n <= 1 {
        edge_text(m, edges[0])
    } else {
        edges_text(m, edges, n - 1) + "\n    or "@ + edge_text(m, edges[n - 1])
    }
}

/// The lines that select the edges a blend replaced and blend them again, or warn
/// where there are none.
pub open spec fn blend_lines(
    m: Arithmetic,
    feature: Feature,
    radius: Scalar,
    edges: Seq<EdgeCircle>,
    number: int,
) -> Seq<Seq<char>> {
    let variable = "edges"@ + text::digits(number as nat);
    seq![
        Seq::empty(),
        "    "@ + "# "@ + called(feature) + " - radius "@ + (m.number)(radius)
            + " mm  INFERRED (pre-blend edge = intersection of the blend face's two support carriers)"@,
        "    "@ + variable + " = ["@,
        "    "@ + "    e"@,
        "    "@ + "    for e in part.edges()"@,
        "    "@ + "    if e.geom_type == GeomType.CIRCLE"@,
        "    "@ + "    and ("@ + edges_text(m, edges, edges.len() as int) + ")"@,
        "    "@ + "]"@,
        "    "@ + "if "@ + variable + ":"@,
        "    "@ + "    fillet("@ + variable + ", radius="@ + (m.number)(radius) + ")"@,
        "    "@ + "else:"@,
        "    "@ + "    print(\"warning: "@ + called(feature) + " matched no edge\")"@,
    ]
}

proof fn tests_are_joined(m: Arithmetic, edges: Seq<EdgeCircle>, n: int)
    requires
        0 < n <= edges.len(),
    ensures
        text::joined(wording::edge_tests(m, edges), "\n    or "@, n) == edges_text(m, edges, n),
    decreases n,
{
    if n > 1 {
        tests_are_joined(m, edges, n - 1);
    }
}

proof fn body_lines_are_indented(
    p: ProgramView,
    lines: Seq<Seq<char>>,
    written: Seq<Seq<char>>,
    n: int,
)
    requires
        0 <= n <= lines.len(),
        lines.len() == written.len(),
        forall|i: int|
            0 <= i < lines.len() ==> #[trigger] written[i] == if lines[i].len() == 0 {
                lines[i]
            } else {
                "    "@ + lines[i]
            },
    ensures
        emit::with_body_lines(p, lines, n) == (ProgramView {
            lines: p.lines + written.take(n),
            ..p
        }),
    decreases n,
{
    if n > 0 {
        body_lines_are_indented(p, lines, written, n - 1);
        assert(written.take(n) =~= written.take(n - 1).push(written[n - 1]));
        assert(p.lines + written.take(n) =~= (p.lines + written.take(n - 1)).push(
            written[n - 1],
        ));
    } else {
        assert(p.lines + written.take(n) =~= p.lines);
    }
}

/// A group of one radius is written as the lines that blend the edges which faces
/// of that radius replaced, and is counted. Where there is no such edge, or the
/// radius varies, it adds no line and says why.
pub proof fn group_is_written(
    m: Arithmetic,
    p: ProgramView,
    model: Model,
    feature: Feature,
    groups: Seq<FilletGroup>,
    index: int,
)
    requires
        0 <= index < groups.len(),
    ensures
        ({
            let q = emit::after_group(m, p, model, feature, groups, index);
            match groups[index].radius {
                RadiusSpec::Constant { radius } => {
                    let edges = blend::replaced_edges(
                        m,
                        model,
                        radius,
                        model.faces@.len() as int,
                    );
                    if edges.len() > 0 {
                        &&& emit::writes_group(m, model, groups[index])
                        &&& q == (ProgramView {
                            lines: p.lines + blend_lines(m, feature, radius, edges, p.blend_seq),
                            blend_seq: p.blend_seq + 1,
                            features: p.features + 1,
                            fillets: p.fillets + 1,
                            ..p
                        })
                    } else {
                        &&& !emit::writes_group(m, model, groups[index])
                        &&& q == (ProgramView {
                            losses: p.losses.push(
                                note_on(
                                    feature,
                                    ": no blend face of radius "@ + (m.number)(radius)
                                        + " was found in the solved body, so its edge selection could not be recovered"@,
                                ),
                            ),
                            ..p
                        })
                    }
                },
                RadiusSpec::Other => {
                    &&& !emit::writes_group(m, model, groups[index])
                    &&& q == (ProgramView {
                        losses: p.losses.push(
                            note_on(
                                feature,
                                ": group "@ + text::digits(index as nat)
                                    + " has a non-constant radius law, which this encoder cannot express"@,
                            ),
                        ),
                        ..p
                    })
                },
            }
        }),
{
    let q = emit::after_group(m, p, model, feature, groups, index);
    match groups[index].radius {
        RadiusSpec::Constant { radius } => {
            let edges = blend::replaced_edges(m, model, radius, model.faces@.len() as int);
            if edges.len() > 0 {
                let lines = emit::fillet_lines(m, feature, radius, edges, p.blend_seq);
                let written = blend_lines(m, feature, radius, edges, p.blend_seq);
                tests_are_joined(m, edges, edges.len() as int);
                fillet_lines_are_indented(m, feature, radius, edges, p.blend_seq);
                body_lines_are_indented(p.next_blend(), lines, written, lines.len() as int);
                assert(written.take(lines.len() as int) =~= written);
            } else {
                assert(q.losses.last().message =~= called(feature) + (
                ": no blend face of radius "@ + (m.number)(radius)
                    + " was found in the solved body, so its edge selection could not be recovered"@));
            }
        },
        RadiusSpec::Other => {
            assert(q.losses.last().message =~= called(feature) + (": group "@ + text::digits(
                index as nat,
            ) + " has a non-constant radius law, which this encoder cannot express"@));
        },
    }
}

proof fn fillet_lines_are_indented(
    m: Arithmetic,
    feature: Feature,
    radius: Scalar,
    edges: Seq<EdgeCircle>,
    number: int,
)
    requires
        edges.len() > 0,
        text::joined(wording::edge_tests(m, edges), "\n    or "@, edges.len() as int)
            == edges_text(m, edges, edges.len() as int),
    ensures
        ({
            let lines = emit::fillet_lines(m, feature, radius, edges, number);
            let written = blend_lines(m, feature, radius, edges, number);
            &&& lines.len() == written.len()
            &&& forall|i: int|
                0 <= i < lines.len() ==> #[trigger] written[i] == if lines[i].len() == 0 {
                    lines[i]
                } else {
                    "    "@ + lines[i]
                }
        }),
{
    let lines = emit::fillet_lines(m, feature, radius, edges, number);
    let written = blend_lines(m, feature, radius, edges, number);
    reveal_strlit("");
    reveal_strlit("# ");
    reveal_strlit(" = [");
    reveal_strlit("    e");
    reveal_strlit("    for e in part.edges()");
    reveal_strlit("    if e.geom_type == GeomType.CIRCLE");
    reveal_strlit("    and (");
    reveal_strlit("]");
    reveal_strlit("if ");
    reveal_strlit("    fillet(");
    reveal_strlit("else:");
    reveal_strlit("    print(\"warning: ");
    assert(written[0] =~= lines[0]);
    assert(written[1] =~= "    "@ + lines[1]);
    assert(written[2] =~= "    "@ + lines[2]);
    assert(written[6] =~= "    "@ + lines[6]);
    assert(written[8] =~= "    "@ + lines[8]);
    assert(written[9] =~= "    "@ + lines[9]);
    assert(written[11] =~= "    "@ + lines[11]);
    assert forall|i: int| 0 <= i < lines.len() implies #[trigger] written[i] == if lines[i].len()
        == 0 {
        lines[i]
    } else {
        "    "@ + lines[i]
    } by {
        assert(i == 0 || i == 1 || i == 2 || i == 3 || i == 4 || i == 5 || i == 6 || i == 7 || i
            == 8 || i == 9 || i == 10 || i == 11);
    }
}

// ---------------------------------------------------------------------------
// steps
// ---------------------------------------------------------------------------

/// What a family outside the supported set is called.
pub open spec fn family_text(definition: FeatureDefinition) -> Seq<char> {
    match definition {
        FeatureDefinition::Revolve => "revolve"@,
        FeatureDefinition::Chamfer => "chamfer"@,
        FeatureDefinition::Hole => "hole"@,
        FeatureDefinition::Pattern => "pattern"@,
        FeatureDefinition::Shell => "shell"@,
        FeatureDefinition::Loft => "loft"@,
        FeatureDefinition::Sweep => "sweep"@,
        _ => "unsupported"@,
    }
}

/// A feature that is switched off leaves a note and nothing else, whatever it is.
/// A sketch leaves nothing, a family outside the supported set a note that names
/// it, and a fillet without a group of edges a note that says so.
pub proof fn step_is_noted(
    m: Arithmetic,
    p: ProgramView,
    model: Model,
    resolution: Resolution,
    feature: Feature,
)
    ensures
        ({
            let q = emit::after_step(m, p, model, resolution, feature);
            let off = feature.suppressed == Some(true);
            &&& off ==> q == p.loss(note_on(feature, ": suppressed in the source"@))
            &&& !off ==> match feature.definition {
                FeatureDefinition::Sketch => q == p,
                FeatureDefinition::Extrude { .. } => q == emit::after_extrude(
                    m,
                    p,
                    resolution,
                    feature,
                ),
                FeatureDefinition::Fillet { groups } => if groups@.len() == 0 {
                    q == p.loss(note_on(feature, ": it has no group of edges"@))
                } else {
                    q == emit::after_groups(
                        m,
                        p,
                        model,
                        feature,
                        groups@,
                        groups@.len() as int,
                    )
                },
                _ => q == p.loss(
                    note_on(
                        feature,
                        ": the "@ + family_text(feature.definition)
                            + " feature family is not expressed by this encoder"@,
                    ),
                ),
            }
            &&& off || !(feature.definition is Extrude || feature.definition is Fillet)
                ==> !emit::writes_step(m, model, resolution, feature)
        }),
{
    let note = wording::unsupported_family(feature);
    assert(note.message =~= called(feature) + (": the "@ + family_text(feature.definition)
        + " feature family is not expressed by this encoder"@));
}

/// The groups of a fillet are written one after the other.
pub proof fn groups_follow_one_another(
    m: Arithmetic,
    p: ProgramView,
    model: Model,
    feature: Feature,
    groups: Seq<FilletGroup>,
    n: int,
)
    requires
        0 <= n < groups.len(),
    ensures
        emit::after_groups(m, p, model, feature, groups, 0) == p,
        emit::after_groups(m, p, model, feature, groups, n + 1) == emit::after_group(
            m,
            emit::after_groups(m, p, model, feature, groups, n),
            model,
            feature,
            groups,
            n,
        ),
{
}

/// The features of the timeline are written one after the other.
pub proof fn steps_follow_one_another(
    m: Arithmetic,
    p: ProgramView,
    model: Model,
    resolution: Resolution,
    steps: Seq<Feature>,
    n: int,
)
    requires
        0 <= n < steps.len(),
    ensures
        emit::after_steps(m, p, model, resolution, steps, 0) == p,
        emit::after_steps(m, p, model, resolution, steps, n + 1) == emit::after_step(
            m,
            emit::after_steps(m, p, model, resolution, steps, n),
            model,
            resolution,
            steps[n],
        ),
{
}

// ---------------------------------------------------------------------------
// programs
// ---------------------------------------------------------------------------

/// The lines above the features: what the program is, where it came from, and the
/// builder.
pub open spec fn opening_lines(ir: CadIr) -> Seq<Seq<char>> {
    let format = if ir.source is Some {
        (ir.source->0).format@
    } else {
        "unknown"@
    };
    seq![
        "\"\"\"build123d program generated by cadmpeg."@,
        Seq::empty(),
        "Source format : "@ + format,
        "IR version    : "@ + ir.ir_version@,
        Seq::empty(),
        "This is the feature history, not the solved shape. Values marked"@,
        "INFERRED were recovered from the solved body because the source stores"@,
        "that selection as a native identity; the export report gives the rule"@,
        "used in each case."@,
        "\"\"\""@,
        Seq::empty(),
        "from build123d import *"@,
        Seq::empty(),
        "with BuildPart() as part:"@,
    ]
}

/// The lines below the features: the finished part, and how large it is.
pub open spec fn closing_lines() -> Seq<Seq<char>> {
    seq![
        Seq::empty(),
        "result = part.part"@,
        "if result is None:"@,
        "    print(\"volume: 0.000000 (empty)\")"@,
        "else:"@,
        "    print(\"volume: %.6f\" % result.volume)"@,
    ]
}

/// A program is its opening lines, what the features of the timeline add, a line
/// that passes where none is written, and its closing lines. Its report begins
/// with the notes of resolution, and each line of its text is one of these.
pub proof fn program_is_written(m: Arithmetic, ir: CadIr)
    ensures
        ({
            let steps = plan::timeline(ir.model);
            let all = steps.len() as int;
            let resolution = emit::resolution_of(m, ir.model);
            let opened = ProgramView {
                lines: opening_lines(ir),
                losses: plan::resolution_losses(m, ir.model),
                extrudes: 0,
                features: 0,
                fillets: 0,
                sketches: 0,
                sketch_seq: 0,
                blend_seq: 0,
                bodies_started: 0,
            };
            let body = emit::after_steps(m, opened, ir.model, resolution, steps, all);
            let written = exists|k: int|
                0 <= k < all && emit::writes_step(m, ir.model, resolution, #[trigger] steps[k]);
            let q = emit::exported(m, ir);
            &&& resolution == (Resolution {
                frames: plan::frames_of(m, ir.model),
                arrangements: plan::arrangements_of(m, ir.model),
                plans: plan::resolved_plans(m, ir.model),
            })
            &&& emit::is_expressible(m, ir.model) == written
            &&& q == (ProgramView {
                lines: body.lines + (if written {
                    Seq::empty()
                } else {
                    seq!["    pass"@]
                }) + closing_lines(),
                ..body
            })
            &&& q.text() == text::joined(q.lines, "\n"@, q.lines.len() as int)
        }),
{
    reveal_strlit("");
    assert(""@ =~= Seq::<char>::empty());
    let steps = plan::timeline(ir.model);
    let all = steps.len() as int;
    let resolution = emit::resolution_of(m, ir.model);
    let losses = plan::resolution_losses(m, ir.model);
    let start = ProgramView { losses, ..ProgramView::empty() };
    let opened = emit::with_header(start, ir).line(emit::builder_line());
    assert(emit::header_lines(ir).push(emit::builder_line()) =~= opening_lines(ir));
    assert(opened.lines =~= opening_lines(ir));
    assert(emit::footer_lines() =~= closing_lines());
    let body = emit::after_steps(m, opened, ir.model, resolution, steps, all);
    let q = emit::exported(m, ir);
    let written = emit::writes_steps(m, ir.model, resolution, steps, all);
    if written {
        assert(q.lines =~= body.lines + Seq::<Seq<char>>::empty() + closing_lines());
    } else {
        assert(q.lines =~= body.lines + seq!["    pass"@] + closing_lines());
    }
}

/// A count with its name, unless it is zero.
pub open spec fn entry_of(name: Seq<char>, count: usize) -> Seq<(Seq<char>, usize)> {
    if count == 0 {
        Seq::empty()
    } else {
        seq![(name, count)]
    }
}

/// The counts are listed by name, in the order of their names, each with its own
/// number and only where that is not zero.
pub proof fn counts_are_listed_by_name(counts: Counts)
    ensures
        counts.named() == entry_of("extrudes"@, counts.extrudes) + entry_of(
            "features"@,
            counts.features,
        ) + entry_of("fillets"@, counts.fillets) + entry_of("sketches"@, counts.sketches),
{
}

} // verus!
