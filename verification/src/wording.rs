//! The wording of the program and of the notes on what it leaves out.

use crate::blend::EdgeCircle;
use crate::frame::SketchFrame;
use crate::ir::{BooleanOp, Feature, FeatureDefinition};
use crate::kernel::{Arithmetic, Kernel};
use crate::plan;
use crate::plan::feature_name;
use crate::program;
use crate::program::LossView;
use crate::scalar::{Scalar, ZERO};
use crate::text;
use crate::text::{decimal, join};
use vstd::prelude::*;

verus! {

/// Below this difference two travels count as one, 1e-9.
pub const SYMMETRY_TOLERANCE: u64 = 0x3e11_2e0b_e826_d695;

// ---------------------------------------------------------------------------
// operations and families
// ---------------------------------------------------------------------------

/// Whether an operation adds material.
pub open spec fn adds(op: BooleanOp) -> bool {
    op == BooleanOp::Join || op == BooleanOp::NewBody
}

/// The builder mode of an operation; an unresolved one has none.
pub open spec fn mode_of(op: BooleanOp) -> Option<Seq<char>> {
    match op {
        BooleanOp::Join => Some("Mode.ADD"@),
        BooleanOp::NewBody => Some("Mode.ADD"@),
        BooleanOp::Cut => Some("Mode.SUBTRACT"@),
        BooleanOp::Intersect => Some("Mode.INTERSECT"@),
        BooleanOp::Unresolved => None,
    }
}

/// The builder mode of an operation; an unresolved one has none.
pub fn boolean_mode(op: BooleanOp) -> (r: Option<&'static str>)
    ensures
        match r {
            Some(mode) => mode_of(op) == Some(mode@),
            None => mode_of(op) is None,
        },
{
    match op {
        BooleanOp::Join => Some("Mode.ADD"),
        BooleanOp::NewBody => Some("Mode.ADD"),
        BooleanOp::Cut => Some("Mode.SUBTRACT"),
        BooleanOp::Intersect => Some("Mode.INTERSECT"),
        BooleanOp::Unresolved => None,
    }
}

/// What an operation is called.
pub open spec fn operation_of(op: BooleanOp) -> Seq<char> {
    match op {
        BooleanOp::Join => "join"@,
        BooleanOp::NewBody => "new body"@,
        BooleanOp::Cut => "cut"@,
        BooleanOp::Intersect => "intersect"@,
        BooleanOp::Unresolved => "unresolved"@,
    }
}

/// What an operation is called.
pub fn operation_name(op: BooleanOp) -> (r: &'static str)
    ensures
        r@ == operation_of(op),
{
    match op {
        BooleanOp::Join => "join",
        BooleanOp::NewBody => "new body",
        BooleanOp::Cut => "cut",
        BooleanOp::Intersect => "intersect",
        BooleanOp::Unresolved => "unresolved",
    }
}

/// What a feature family is called.
pub open spec fn family_of(definition: FeatureDefinition) -> Seq<char> {
    match definition {
        FeatureDefinition::Revolve => "revolve"@,
        FeatureDefinition::Chamfer => "chamfer"@,
        FeatureDefinition::Hole => "hole"@,
        FeatureDefinition::Pattern => "pattern"@,
        FeatureDefinition::Shell => "shell"@,
        FeatureDefinition::Loft => "loft"@,
        FeatureDefinition::Sweep => "sweep"@,
        _ => "unsupported"@,
    }
}

/// What a feature family is called.
pub fn family_name(definition: &FeatureDefinition) -> (r: &'static str)
    ensures
        r@ == family_of(*definition),
{
    match definition {
        FeatureDefinition::Revolve => "revolve",
        FeatureDefinition::Chamfer => "chamfer",
        FeatureDefinition::Hole => "hole",
        FeatureDefinition::Pattern => "pattern",
        FeatureDefinition::Shell => "shell",
        FeatureDefinition::Loft => "loft",
        FeatureDefinition::Sweep => "sweep",
        _ => "unsupported",
    }
}

// ---------------------------------------------------------------------------
// travel
// ---------------------------------------------------------------------------

/// Whether an extrude travels as far behind its plane as in front of it.
pub open spec fn symmetric(m: Arithmetic, back: Scalar, forward: Scalar) -> bool {
    (Scalar { bits: ZERO }).below(back) && m.minus(back, forward).unsigned().below(
        Scalar { bits: SYMMETRY_TOLERANCE },
    )
}

/// Whether an extrude travels as far behind its plane as in front of it.
pub fn is_symmetric<K: Kernel>(back: Scalar, forward: Scalar, kernel: &K) -> (r: bool)
    ensures
        r == symmetric(kernel.model(), back, forward),
{
    (Scalar { bits: ZERO }).lt(back) && kernel.minus(back, forward).abs().lt(
        Scalar { bits: SYMMETRY_TOLERANCE },
    )
}

/// How a travel is described.
pub open spec fn travel_text(m: Arithmetic, back: Scalar, forward: Scalar) -> Seq<char> {
    if symmetric(m, back, forward) {
        "symmetric "@ + (m.number)(m.plus(back, forward)) + " mm total"@
    } else if (Scalar { bits: ZERO }).below(back) {
        "two-sided "@ + (m.number)(back) + " / "@ + (m.number)(forward) + " mm"@
    } else {
        "blind "@ + (m.number)(forward) + " mm"@
    }
}

/// How a travel is described.
pub fn travel_label<K: Kernel>(back: Scalar, forward: Scalar, kernel: &K) -> (r: String)
    ensures
        r@ == travel_text(kernel.model(), back, forward),
{
    if is_symmetric(back, forward, kernel) {
        let mut out = "symmetric ".to_owned();
        out.append(kernel.number(kernel.plus(back, forward)).as_str());
        out.append(" mm total");
        out
    } else if (Scalar { bits: ZERO }).lt(back) {
        let mut out = "two-sided ".to_owned();
        out.append(kernel.number(back).as_str());
        out.append(" / ");
        out.append(kernel.number(forward).as_str());
        out.append(" mm");
        out
    } else {
        let mut out = "blind ".to_owned();
        out.append(kernel.number(forward).as_str());
        out.append(" mm");
        out
    }
}

// ---------------------------------------------------------------------------
// notes
// ---------------------------------------------------------------------------

/// The note on a feature that is switched off.
pub open spec fn suppressed_note(feature: Feature) -> LossView {
    program::omitted(plan::name_of(feature) + ": suppressed in the source"@)
}

/// The note on an extrude without a profile.
pub open spec fn unresolved_profile(feature: Feature) -> LossView {
    program::omitted(plan::name_of(feature) + ": its profile is unresolved"@)
}

/// The note on an extrude whose operation is open.
pub open spec fn unresolved_operation(feature: Feature) -> LossView {
    program::omitted(plan::name_of(feature) + ": its boolean operation is unresolved"@)
}

/// The note on an extrude that starts a body after the first.
pub open spec fn further_body(feature: Feature) -> LossView {
    program::omitted(plan::name_of(feature) + ": starts a further body, and the emitted program merges every body into one part"@)
}

/// The note on an extrude written as its two halves.
pub open spec fn halved(feature: Feature) -> LossView {
    program::omitted(plan::name_of(feature) + ": an asymmetric two-sided extent is emitted as two extrusions"@)
}

/// The note on an extrude none of whose profile loops can be drawn.
pub open spec fn undrawn(feature: Feature) -> LossView {
    program::omitted(
        plan::name_of(feature)
            + ": no exterior loop of its profile is a single circle ahead of its holes, and this encoder writes circular profile loops only"@,
    )
}

/// The note on a fillet without a group of edges.
pub open spec fn without_groups(feature: Feature) -> LossView {
    program::omitted(plan::name_of(feature) + ": it has no group of edges"@)
}

/// The note on a feature family the program cannot express.
pub open spec fn unsupported_family(feature: Feature) -> LossView {
    program::omitted(
        plan::name_of(feature) + ": the "@ + family_of(feature.definition)
            + " feature family is not expressed by this encoder"@,
    )
}

/// The note on a fillet group without one radius.
pub open spec fn varying_radius(feature: Feature, index: int) -> LossView {
    program::omitted(
        plan::name_of(feature) + ": group "@ + text::digits(index as nat)
            + " has a non-constant radius law, which this encoder cannot express"@,
    )
}

/// The note on a fillet group without a blend face.
pub open spec fn no_blend_face(m: Arithmetic, feature: Feature, radius: Scalar) -> LossView {
    program::omitted(
        plan::name_of(feature) + ": no blend face of radius "@ + (m.number)(radius)
            + " was found in the solved body, so its edge selection could not be recovered"@,
    )
}

/// The note on a profile loop that is not a circle.
pub open spec fn not_a_circle(sketch: Seq<char>, ring: usize) -> LossView {
    program::omitted(
        "sketch "@ + sketch + " loop "@ + text::digits(ring as nat)
            + " is not a single circle; this encoder writes circular profile loops only"@,
    )
}

/// A feature's name followed by a remark.
pub fn remark(feature: &Feature, tail: &str) -> (r: String)
    ensures
        r@ == plan::name_of(*feature) + tail@,
{
    let mut out = feature_name(feature).clone();
    out.append(tail);
    out
}

/// The message on a feature family the program cannot express.
pub fn unsupported_message(feature: &Feature) -> (r: String)
    ensures
        program::omitted(r@) == unsupported_family(*feature),
{
    let mut out = feature_name(feature).clone();
    out.append(": the ");
    out.append(family_name(&feature.definition));
    out.append(" feature family is not expressed by this encoder");
    out
}

/// The message on a fillet group without one radius.
pub fn varying_message(feature: &Feature, index: usize) -> (r: String)
    ensures
        program::omitted(r@) == varying_radius(*feature, index as int),
{
    let mut out = feature_name(feature).clone();
    out.append(": group ");
    out.append(decimal(index).as_str());
    out.append(" has a non-constant radius law, which this encoder cannot express");
    out
}

/// The message on a fillet group without a blend face.
pub fn no_blend_message<K: Kernel>(feature: &Feature, radius: Scalar, kernel: &K) -> (r: String)
    ensures
        program::omitted(r@) == no_blend_face(kernel.model(), *feature, radius),
{
    let mut out = feature_name(feature).clone();
    out.append(": no blend face of radius ");
    out.append(kernel.number(radius).as_str());
    out.append(" was found in the solved body, so its edge selection could not be recovered");
    out
}

/// The message on a profile loop that is not a circle.
pub fn not_a_circle_message(sketch: &str, ring: usize) -> (r: String)
    ensures
        program::omitted(r@) == not_a_circle(sketch@, ring),
{
    let mut out = "sketch ".to_owned();
    out.append(sketch);
    out.append(" loop ");
    out.append(decimal(ring).as_str());
    out.append(" is not a single circle; this encoder writes circular profile loops only");
    out
}

// ---------------------------------------------------------------------------
// lines of an extrude
// ---------------------------------------------------------------------------

/// How a line says that a selection was inferred, and by which rule.
pub open spec fn inference_mark(inference: Option<Seq<char>>) -> Seq<char> {
    match inference {
        Some(rule) => "  INFERRED ("@ + rule + ")"@,
        None => Seq::empty(),
    }
}

/// The comment above an extrude.
pub open spec fn extrude_comment(
    m: Arithmetic,
    feature: Feature,
    op: BooleanOp,
    travel: (Scalar, Scalar),
    inference: Option<Seq<char>>,
) -> Seq<char> {
    "# "@ + plan::name_of(feature) + " - "@ + operation_of(op) + ", "@ + travel_text(
        m,
        travel.0,
        travel.1,
    ) + inference_mark(inference)
}

/// The comment above an extrude.
pub fn comment_on_extrude<K: Kernel>(
    feature: &Feature,
    op: BooleanOp,
    travel: (Scalar, Scalar),
    inference: &Option<String>,
    kernel: &K,
) -> (r: String)
    ensures
        r@ == extrude_comment(
            kernel.model(),
            *feature,
            op,
            travel,
            crate::profile::text_view(*inference),
        ),
{
    let mut out = "# ".to_owned();
    out.append(feature_name(feature).as_str());
    out.append(" - ");
    out.append(operation_name(op));
    out.append(", ");
    out.append(travel_label(travel.0, travel.1, kernel).as_str());
    match inference {
        Some(rule) => {
            let mut mark = "  INFERRED (".to_owned();
            mark.append(rule.as_str());
            mark.append(")");
            out.append(mark.as_str());
        },
        None => {
            assert(out@ + Seq::<char>::empty() =~= out@);
        },
    }
    out
}

/// The line that opens a sketch.
pub open spec fn sketch_line(m: Arithmetic, frame: SketchFrame, place: int) -> Seq<char> {
    "with BuildSketch(Plane(origin="@ + (m.tuple)(frame.origin) + ", x_dir="@ + (m.tuple)(
        frame.x_axis,
    ) + ", z_dir="@ + (m.tuple)(frame.normal) + ")) as sketch"@ + text::digits(place as nat) + ":"@
}

/// The line that opens a sketch.
pub fn open_sketch<K: Kernel>(frame: &SketchFrame, place: usize, kernel: &K) -> (r: String)
    ensures
        r@ == sketch_line(kernel.model(), *frame, place as int),
{
    let mut out = "with BuildSketch(Plane(origin=".to_owned();
    out.append(kernel.tuple(frame.origin).as_str());
    out.append(", x_dir=");
    out.append(kernel.tuple(frame.x_axis).as_str());
    out.append(", z_dir=");
    out.append(kernel.tuple(frame.normal).as_str());
    out.append(")) as sketch");
    out.append(decimal(place).as_str());
    out.append(":");
    out
}

/// The line that places a circle.
pub open spec fn location_line(m: Arithmetic, center: (Scalar, Scalar)) -> Seq<char> {
    "    with Locations(("@ + (m.number)(center.0) + ", "@ + (m.number)(center.1) + ")):"@
}

/// The line that places a circle.
pub fn locate<K: Kernel>(center: (Scalar, Scalar), kernel: &K) -> (r: String)
    ensures
        r@ == location_line(kernel.model(), center),
{
    let mut out = "    with Locations((".to_owned();
    out.append(kernel.number(center.0).as_str());
    out.append(", ");
    out.append(kernel.number(center.1).as_str());
    out.append(")):");
    out
}

/// How a circle says that it is a hole.
pub open spec fn hole_mark(subtract: bool) -> Seq<char> {
    if subtract {
        ", mode=Mode.SUBTRACT"@
    } else {
        ""@
    }
}

/// The line that draws a circle.
pub open spec fn circle_line(m: Arithmetic, radius: Scalar, subtract: bool) -> Seq<char> {
    "        Circle("@ + (m.number)(radius) + hole_mark(subtract) + ")"@
}

/// The line that draws a circle.
pub fn draw_circle<K: Kernel>(radius: Scalar, subtract: bool, kernel: &K) -> (r: String)
    ensures
        r@ == circle_line(kernel.model(), radius, subtract),
{
    let mut out = "        Circle(".to_owned();
    out.append(kernel.number(radius).as_str());
    if subtract {
        out.append(", mode=Mode.SUBTRACT");
    } else {
        out.append("");
    }
    out.append(")");
    out
}

/// What an operation that does not add material says of its mode.
pub open spec fn mode_suffix(op: BooleanOp) -> Seq<char> {
    if adds(op) {
        Seq::empty()
    } else {
        ", mode="@ + mode_of(op)->0
    }
}

/// The arguments of an extrude in one piece.
pub open spec fn extrude_arguments(
    m: Arithmetic,
    op: BooleanOp,
    travel: (Scalar, Scalar),
) -> Seq<Seq<char>> {
    let amount = seq!["amount="@ + (m.number)(travel.1)];
    let both = if symmetric(m, travel.0, travel.1) {
        amount.push("both=True"@)
    } else {
        amount
    };
    if adds(op) {
        both
    } else {
        both.push("mode="@ + mode_of(op)->0)
    }
}

/// The line that extrudes in one piece.
pub open spec fn extrude_line(m: Arithmetic, op: BooleanOp, travel: (Scalar, Scalar)) -> Seq<char> {
    let arguments = extrude_arguments(m, op, travel);
    "extrude("@ + text::joined(arguments, ", "@, arguments.len() as int) + ")"@
}

/// The line that extrudes the half in front of the plane.
pub open spec fn forward_line(m: Arithmetic, op: BooleanOp, forward: Scalar) -> Seq<char> {
    "extrude(amount="@ + (m.number)(forward) + mode_suffix(op) + ")"@
}

/// The line that extrudes the half behind the plane.
pub open spec fn backward_line(m: Arithmetic, op: BooleanOp, back: Scalar) -> Seq<char> {
    "extrude(part.sketches[-1], amount="@ + (m.number)(back) + ", dir=(0, 0, -1)"@ + mode_suffix(
        op,
    ) + ")"@
}

/// The line that extrudes in one piece.
pub fn extrude_whole<K: Kernel>(
    op: BooleanOp,
    mode: &str,
    travel: (Scalar, Scalar),
    kernel: &K,
) -> (r: String)
    requires
        mode_of(op) == Some(mode@),
    ensures
        r@ == extrude_line(kernel.model(), op, travel),
{
    let ghost m = kernel.model();
    let mut arguments: Vec<String> = Vec::new();
    let mut amount = "amount=".to_owned();
    amount.append(kernel.number(travel.1).as_str());
    arguments.push(amount);
    if is_symmetric(travel.0, travel.1, kernel) {
        arguments.push("both=True".to_owned());
    }
    if !matches!(op, BooleanOp::Join | BooleanOp::NewBody) {
        let mut argument = "mode=".to_owned();
        argument.append(mode);
        arguments.push(argument);
    }
    assert(text::views(arguments@) =~= extrude_arguments(m, op, travel));
    let mut out = "extrude(".to_owned();
    out.append(join(&arguments, ", ").as_str());
    out.append(")");
    out
}

/// What an operation that does not add material says of its mode.
fn suffix(op: BooleanOp, mode: &str) -> (r: String)
    requires
        mode_of(op) == Some(mode@),
    ensures
        r@ == mode_suffix(op),
{
    if matches!(op, BooleanOp::Join | BooleanOp::NewBody) {
        String::new()
    } else {
        let mut out = ", mode=".to_owned();
        out.append(mode);
        out
    }
}

/// The line that extrudes the half in front of the plane.
pub fn extrude_forward<K: Kernel>(
    op: BooleanOp,
    mode: &str,
    forward: Scalar,
    kernel: &K,
) -> (r: String)
    requires
        mode_of(op) == Some(mode@),
    ensures
        r@ == forward_line(kernel.model(), op, forward),
{
    let mut out = "extrude(amount=".to_owned();
    out.append(kernel.number(forward).as_str());
    out.append(suffix(op, mode).as_str());
    out.append(")");
    out
}

/// The line that extrudes the half behind the plane.
pub fn extrude_backward<K: Kernel>(
    op: BooleanOp,
    mode: &str,
    back: Scalar,
    kernel: &K,
) -> (r: String)
    requires
        mode_of(op) == Some(mode@),
    ensures
        r@ == backward_line(kernel.model(), op, back),
{
    let mut out = "extrude(part.sketches[-1], amount=".to_owned();
    out.append(kernel.number(back).as_str());
    out.append(", dir=(0, 0, -1)");
    out.append(suffix(op, mode).as_str());
    out.append(")");
    out
}

// ---------------------------------------------------------------------------
// lines of a fillet
// ---------------------------------------------------------------------------

/// The variable that holds the edges of a blend.
pub open spec fn blend_variable(place: int) -> Seq<char> {
    "edges"@ + text::digits(place as nat)
}

/// The variable that holds the edges of a blend.
pub fn variable_of(place: usize) -> (r: String)
    ensures
        r@ == blend_variable(place as int),
{
    let mut out = "edges".to_owned();
    out.append(decimal(place).as_str());
    out
}

/// The test that finds an edge by its circle.
pub open spec fn edge_test(m: Arithmetic, edge: EdgeCircle) -> Seq<char> {
    "(abs(e.radius - "@ + (m.number)(edge.radius) + ") < 1e-4 and (e.arc_center - Vector"@
        + (m.tuple)(edge.center) + ").length < 1e-4)"@
}

/// The test that finds an edge by its circle.
pub fn test_edge<K: Kernel>(edge: EdgeCircle, kernel: &K) -> (r: String)
    ensures
        r@ == edge_test(kernel.model(), edge),
{
    let mut out = "(abs(e.radius - ".to_owned();
    out.append(kernel.number(edge.radius).as_str());
    out.append(") < 1e-4 and (e.arc_center - Vector");
    out.append(kernel.tuple(edge.center).as_str());
    out.append(").length < 1e-4)");
    out
}

/// The tests that find some edges.
pub open spec fn edge_tests(m: Arithmetic, edges: Seq<EdgeCircle>) -> Seq<Seq<char>> {
    edges.map_values(|edge: EdgeCircle| edge_test(m, edge))
}

/// The comment above a fillet.
pub open spec fn fillet_comment(m: Arithmetic, feature: Feature, radius: Scalar) -> Seq<char> {
    "# "@ + plan::name_of(feature) + " - radius "@ + (m.number)(radius)
        + " mm  INFERRED (pre-blend edge = intersection of the blend face's two support carriers)"@
}

/// The comment above a fillet.
pub fn comment_on_fillet<K: Kernel>(feature: &Feature, radius: Scalar, kernel: &K) -> (r: String)
    ensures
        r@ == fillet_comment(kernel.model(), *feature, radius),
{
    let mut out = "# ".to_owned();
    out.append(feature_name(feature).as_str());
    out.append(" - radius ");
    out.append(kernel.number(radius).as_str());
    out.append(
        " mm  INFERRED (pre-blend edge = intersection of the blend face's two support carriers)",
    );
    out
}

/// The line that admits an edge if one of the tests finds it.
pub open spec fn selection_line(m: Arithmetic, edges: Seq<EdgeCircle>) -> Seq<char> {
    "    and ("@ + text::joined(edge_tests(m, edges), "\n    or "@, edges.len() as int) + ")"@
}

/// The line that admits an edge if one of the tests finds it.
pub fn select_edges<K: Kernel>(edges: &Vec<EdgeCircle>, kernel: &K) -> (r: String)
    ensures
        r@ == selection_line(kernel.model(), edges@),
{
    let ghost m = kernel.model();
    let mut tests: Vec<String> = Vec::new();
    let mut i: usize = 0;
    while i < edges.len()
        invariant
            i <= edges@.len(),
            m == kernel.model(),
            text::views(tests@) =~= edge_tests(m, edges@).take(i as int),
        decreases edges@.len() - i,
    {
        let ghost before = text::views(tests@);
        let test = test_edge(edges[i], kernel);
        let ghost view = test@;
        tests.push(test);
        assert(text::views(tests@) =~= before.push(view));
        i += 1;
    }
    assert(text::views(tests@) =~= edge_tests(m, edges@));
    let mut out = "    and (".to_owned();
    out.append(join(&tests, "\n    or ").as_str());
    out.append(")");
    out
}

/// The line that blends the edges.
pub open spec fn fillet_line(m: Arithmetic, place: int, radius: Scalar) -> Seq<char> {
    "    fillet("@ + blend_variable(place) + ", radius="@ + (m.number)(radius) + ")"@
}

/// The line that blends the edges.
pub fn blend_selected<K: Kernel>(variable: &str, radius: Scalar, kernel: &K) -> (r: String)
    ensures
        r@ == "    fillet("@ + variable@ + ", radius="@ + (kernel.model().number)(radius) + ")"@,
{
    let mut out = "    fillet(".to_owned();
    out.append(variable);
    out.append(", radius=");
    out.append(kernel.number(radius).as_str());
    out.append(")");
    out
}

/// The line that warns when no edge was found.
pub open spec fn warning_line(feature: Feature) -> Seq<char> {
    "    print(\"warning: "@ + plan::name_of(feature) + " matched no edge\")"@
}

/// The line that warns when no edge was found.
pub fn warn(feature: &Feature) -> (r: String)
    ensures
        r@ == warning_line(*feature),
{
    let mut out = "    print(\"warning: ".to_owned();
    out.append(feature_name(feature).as_str());
    out.append(" matched no edge\")");
    out
}

} // verus!
