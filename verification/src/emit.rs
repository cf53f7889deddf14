//! Writes the feature timeline as a build123d program.
//!
//! Where a boundary representation reproduces geometry, the program reproduces
//! intent: a sketch with a circle in it, an extrude with a length, a fillet with
//! a radius. That is what makes the output worth editing.
//!
//! Feature families outside the supported set are skipped with a loss note and
//! the program still runs. A partial model is more useful than none, provided
//! the report says plainly what is missing.

use crate::arrangement::{ArrangementView, Region, RegionView};
use crate::arrangement;
use crate::blend;
use crate::blend::blend_edges;
use crate::bodies;
use crate::frame;
use crate::frame::{extrude_travel, SketchFrame};
use crate::ir::{BooleanOp, CadIr, Feature, FeatureDefinition, FilletGroup, Model, RadiusSpec};
use crate::kernel::{Arithmetic, Kernel};
use crate::list::sort_stable;
use crate::plan;
use crate::plan::{suppressed, PlanView, Writer};
use crate::profile;
use crate::profile::duplicate_regions;
use crate::program;
use crate::program::{CountKey, Counts, LossKind, LossNote, ProgramView};
use crate::scalar::{Scalar, ZERO};
use crate::wording;
use vstd::prelude::*;

verus! {

// ---------------------------------------------------------------------------
// header and footer
// ---------------------------------------------------------------------------

/// The format a document came from.
pub open spec fn source_format(ir: CadIr) -> Seq<char> {
    match ir.source {
        Some(source) => source.format@,
        None => "unknown"@,
    }
}

/// The lines above the builder.
pub open spec fn header_lines(ir: CadIr) -> Seq<Seq<char>> {
    seq![
        "\"\"\"build123d program generated by cadmpeg."@,
        ""@,
        "Source format : "@ + source_format(ir),
        "IR version    : "@ + ir.ir_version@,
        ""@,
        "This is the feature history, not the solved shape. Values marked"@,
        "INFERRED were recovered from the solved body because the source stores"@,
        "that selection as a native identity; the export report gives the rule"@,
        "used in each case."@,
        "\"\"\""@,
        ""@,
        "from build123d import *"@,
        ""@,
    ]
}

/// The lines below the builder.
pub open spec fn footer_lines() -> Seq<Seq<char>> {
    seq![
        ""@,
        "result = part.part"@,
        "if result is None:"@,
        "    print(\"volume: 0.000000 (empty)\")"@,
        "else:"@,
        "    print(\"volume: %.6f\" % result.volume)"@,
    ]
}

/// A program with the header added.
pub open spec fn with_header(p: ProgramView, ir: CadIr) -> ProgramView {
    ProgramView { lines: p.lines + header_lines(ir), ..p }
}

/// A program with the footer added.
pub open spec fn with_footer(p: ProgramView) -> ProgramView {
    ProgramView { lines: p.lines + footer_lines(), ..p }
}

// ---------------------------------------------------------------------------
// sketches
// ---------------------------------------------------------------------------

/// The circle a loop of an arranged sketch draws, if it draws one.
pub open spec fn loop_circle(
    arrangements: Map<Seq<char>, ArrangementView>,
    sketch: Seq<char>,
    ring: usize,
) -> Option<((Scalar, Scalar), Scalar)> {
    if arrangements.contains_key(sketch) && ring < arrangements[sketch].rings.len() {
        arrangements[sketch].rings[ring as int].circle
    } else {
        None
    }
}

/// A program with a profile loop added.
pub open spec fn with_loop(
    m: Arithmetic,
    p: ProgramView,
    arrangements: Map<Seq<char>, ArrangementView>,
    sketch: Seq<char>,
    ring: usize,
    subtract: bool,
) -> ProgramView {
    match loop_circle(arrangements, sketch, ring) {
        Some((center, radius)) => p.body_line(wording::location_line(m, center)).body_line(
            wording::circle_line(m, radius, subtract),
        ),
        None => p.loss(wording::not_a_circle(sketch, ring)),
    }
}

/// The first `n` holes of a region, each to be subtracted.
pub open spec fn hole_loops(holes: Seq<usize>, n: int) -> Seq<(usize, bool)> {
    Seq::new(n as nat, |k: int| (holes[k], true))
}

/// The loops of the first `n` regions: of each its outer loop, then its holes.
pub open spec fn region_loops(regions: Seq<RegionView>, n: int) -> Seq<(usize, bool)>
    decreases n,
{
    if n <= 0 {
        Seq::empty()
    } else {
        let region = regions[n - 1];
        region_loops(regions, n - 1).push((region.outer, false)) + hole_loops(
            region.holes,
            region.holes.len() as int,
        )
    }
}

/// A program with the first `n` loops added.
pub open spec fn with_loops(
    m: Arithmetic,
    p: ProgramView,
    arrangements: Map<Seq<char>, ArrangementView>,
    sketch: Seq<char>,
    loops: Seq<(usize, bool)>,
    n: int,
) -> ProgramView
    decreases n,
{
    if n <= 0 {
        p
    } else {
        with_loop(
            m,
            with_loops(m, p, arrangements, sketch, loops, n - 1),
            arrangements,
            sketch,
            loops[n - 1].0,
            loops[n - 1].1,
        )
    }
}

/// Whether a loop is the first of some to be a circle.
pub open spec fn is_first_circle(
    arrangements: Map<Seq<char>, ArrangementView>,
    sketch: Seq<char>,
    loops: Seq<(usize, bool)>,
    k: int,
) -> bool {
    &&& 0 <= k < loops.len()
    &&& loop_circle(arrangements, sketch, loops[k].0) is Some
    &&& forall|j: int|
        0 <= j < k ==> loop_circle(arrangements, sketch, (#[trigger] loops[j]).0) is None
}

/// Whether some loops can be drawn: the first of them that is a circle is an
/// exterior one. From an empty sketch there is nothing to subtract a hole.
pub open spec fn can_be_drawn(
    arrangements: Map<Seq<char>, ArrangementView>,
    sketch: Seq<char>,
    loops: Seq<(usize, bool)>,
) -> bool {
    exists|k: int| #[trigger] is_first_circle(arrangements, sketch, loops, k) && !loops[k].1
}

/// Those of the first `n` loops that are no circles.
pub open spec fn other_loops(
    arrangements: Map<Seq<char>, ArrangementView>,
    sketch: Seq<char>,
    loops: Seq<(usize, bool)>,
    n: int,
) -> Seq<(usize, bool)>
    decreases n,
{
    if n <= 0 {
        Seq::empty()
    } else {
        let rest = other_loops(arrangements, sketch, loops, n - 1);
        if loop_circle(arrangements, sketch, loops[n - 1].0) is None {
            rest.push(loops[n - 1])
        } else {
            rest
        }
    }
}

/// A program with a sketch of some regions added, if the sketch is placed and
/// its loops can be drawn; where they cannot, no block is opened, and the notes on
/// those that are no circles stand alone.
pub open spec fn with_sketch(
    m: Arithmetic,
    p: ProgramView,
    frames: Map<Seq<char>, SketchFrame>,
    arrangements: Map<Seq<char>, ArrangementView>,
    sketch: Seq<char>,
    regions: Seq<RegionView>,
) -> ProgramView {
    let loops = region_loops(regions, regions.len() as int);
    if !frames.contains_key(sketch) {
        p
    } else if !can_be_drawn(arrangements, sketch, loops) {
        let others = other_loops(arrangements, sketch, loops, loops.len() as int);
        with_loops(m, p, arrangements, sketch, others, others.len() as int)
    } else {
        let opened = p.next_sketch().body_line(
            wording::sketch_line(m, frames[sketch], p.sketch_seq),
        );
        with_loops(m, opened, arrangements, sketch, loops, loops.len() as int).one_more(
            CountKey::Sketches,
        )
    }
}

// ---------------------------------------------------------------------------
// extrudes
// ---------------------------------------------------------------------------

/// The first of the plans from place `from` on that carries an identity.
pub open spec fn plan_from(plans: Seq<PlanView>, id: Seq<char>, from: int) -> Option<PlanView>
    decreases plans.len() - from,
{
    if from >= plans.len() || from < 0 {
        None
    } else if plans[from].feature.id@ == id {
        Some(plans[from])
    } else {
        plan_from(plans, id, from + 1)
    }
}

/// The plan of a feature.
pub open spec fn plan_for(plans: Seq<PlanView>, feature: Feature) -> Option<PlanView> {
    plan_from(plans, feature.id@, 0)
}

/// A program with a new body counted, and noted when it is not the first.
pub open spec fn with_body(p: ProgramView, feature: Feature, op: BooleanOp) -> ProgramView {
    if op != BooleanOp::NewBody {
        p
    } else if p.bodies_started >= 1 {
        p.next_body().loss(wording::further_body(feature))
    } else {
        p.next_body()
    }
}

/// A program with the lines that extrude the sketch just written.
pub open spec fn with_travel(
    m: Arithmetic,
    p: ProgramView,
    feature: Feature,
    op: BooleanOp,
    travel: (Scalar, Scalar),
) -> ProgramView {
    if (Scalar { bits: ZERO }).below(travel.0) && !wording::symmetric(m, travel.0, travel.1) {
        p.loss(wording::halved(feature)).body_line(
            wording::forward_line(m, op, travel.1),
        ).body_line(wording::backward_line(m, op, travel.0))
    } else {
        p.body_line(wording::extrude_line(m, op, travel))
    }
}

/// A program with an extrude added.
pub open spec fn with_extrude(
    m: Arithmetic,
    p: ProgramView,
    frames: Map<Seq<char>, SketchFrame>,
    arrangements: Map<Seq<char>, ArrangementView>,
    feature: Feature,
    op: BooleanOp,
    travel: (Scalar, Scalar),
    resolved: profile::ProfileView,
) -> ProgramView {
    let commented = with_body(p, feature, op).body_line(""@).body_line(
        wording::extrude_comment(m, feature, op, travel, resolved.inference),
    );
    let sketched = with_sketch(
        m,
        commented,
        frames,
        arrangements,
        resolved.sketch,
        resolved.regions,
    );
    with_travel(m, sketched, feature, op, travel).one_more(CountKey::Features).one_more(
        CountKey::Extrudes,
    )
}

/// The loops of a profile.
pub open spec fn profile_loops(resolved: profile::ProfileView) -> Seq<(usize, bool)> {
    region_loops(resolved.regions, resolved.regions.len() as int)
}

/// Whether a profile can be drawn where its sketch is placed.
pub open spec fn is_drawable(
    frames: Map<Seq<char>, SketchFrame>,
    arrangements: Map<Seq<char>, ArrangementView>,
    resolved: profile::ProfileView,
) -> bool {
    frames.contains_key(resolved.sketch) ==> can_be_drawn(
        arrangements,
        resolved.sketch,
        profile_loops(resolved),
    )
}

/// A program with the notes on an extrude none of whose loops can be drawn.
pub open spec fn without_drawing(
    m: Arithmetic,
    p: ProgramView,
    resolution: Resolution,
    feature: Feature,
    resolved: profile::ProfileView,
) -> ProgramView {
    with_sketch(
        m,
        p,
        resolution.frames,
        resolution.arrangements,
        resolved.sketch,
        resolved.regions,
    ).loss(wording::undrawn(feature))
}

/// What an export works from.
#[verifier::ext_equal]
pub struct Resolution {
    pub frames: Map<Seq<char>, SketchFrame>,
    pub arrangements: Map<Seq<char>, ArrangementView>,
    pub plans: Seq<PlanView>,
}

/// Whether a planned extrude can be written: its profile, its travel and its
/// operation are all known, and its profile can be drawn.
pub open spec fn is_writable(m: Arithmetic, resolution: Resolution, plan: PlanView) -> bool {
    &&& plan.profile matches Some(resolved) && is_drawable(
        resolution.frames,
        resolution.arrangements,
        resolved,
    )
    &&& frame::travel(m, plan.extent) is Some
    &&& wording::mode_of(plan.op) is Some
}

/// A program after an extrude feature: with the extrude, with a note on why it
/// is missing, or as it was when the feature was not planned.
pub open spec fn after_extrude(
    m: Arithmetic,
    p: ProgramView,
    resolution: Resolution,
    feature: Feature,
) -> ProgramView {
    let frames = resolution.frames;
    let arrangements = resolution.arrangements;
    match plan_for(resolution.plans, feature) {
        Some(plan) => match (plan.profile, frame::travel(m, plan.extent)) {
            (None, _) => p.loss(wording::unresolved_profile(feature)),
            (Some(_), None) => p,
            (Some(resolved), Some(travel)) => if wording::mode_of(plan.op) is None {
                p.loss(wording::unresolved_operation(feature))
            } else if !is_drawable(frames, arrangements, resolved) {
                without_drawing(m, p, resolution, feature, resolved)
            } else {
                with_extrude(
                    m,
                    p,
                    frames,
                    arrangements,
                    feature,
                    plan.op,
                    travel,
                    resolved,
                )
            },
        },
        None => p,
    }
}

/// Whether an extrude feature is written.
pub open spec fn writes_extrude(m: Arithmetic, resolution: Resolution, feature: Feature) -> bool {
    plan_for(resolution.plans, feature) matches Some(plan) && is_writable(m, resolution, plan)
}

// ---------------------------------------------------------------------------
// fillets
// ---------------------------------------------------------------------------

/// The edges a blend of a radius replaced.
pub open spec fn blended(m: Arithmetic, model: Model, radius: Scalar) -> Seq<blend::EdgeCircle> {
    blend::replaced_edges(m, model, radius, model.faces@.len() as int)
}

/// The lines of one fillet.
pub open spec fn fillet_lines(
    m: Arithmetic,
    feature: Feature,
    radius: Scalar,
    edges: Seq<blend::EdgeCircle>,
    place: int,
) -> Seq<Seq<char>> {
    seq![
        ""@,
        wording::fillet_comment(m, feature, radius),
        wording::blend_variable(place) + " = ["@,
        "    e"@,
        "    for e in part.edges()"@,
        "    if e.geom_type == GeomType.CIRCLE"@,
        wording::selection_line(m, edges),
        "]"@,
        "if "@ + wording::blend_variable(place) + ":"@,
        wording::fillet_line(m, place, radius),
        "else:"@,
        wording::warning_line(feature),
    ]
}

/// A program with the first `n` of some lines added to the builder's body.
pub open spec fn with_body_lines(p: ProgramView, lines: Seq<Seq<char>>, n: int) -> ProgramView
    decreases n,
{
    if n <= 0 {
        p
    } else {
        with_body_lines(p, lines, n - 1).body_line(lines[n - 1])
    }
}

/// A program with a fillet of some edges added.
pub open spec fn with_fillet(
    m: Arithmetic,
    p: ProgramView,
    feature: Feature,
    radius: Scalar,
    edges: Seq<blend::EdgeCircle>,
) -> ProgramView {
    let lines = fillet_lines(m, feature, radius, edges, p.blend_seq);
    with_body_lines(p.next_blend(), lines, lines.len() as int).one_more(
        CountKey::Features,
    ).one_more(CountKey::Fillets)
}

/// Whether a fillet group is written: it has one radius, and edges that a blend
/// of it replaced.
pub open spec fn writes_group(m: Arithmetic, model: Model, group: FilletGroup) -> bool {
    group.radius matches RadiusSpec::Constant { radius } && blended(m, model, radius).len() > 0
}

/// A program after a fillet group: with the fillet, or with a note on why it is
/// missing.
pub open spec fn after_group(
    m: Arithmetic,
    p: ProgramView,
    model: Model,
    feature: Feature,
    groups: Seq<FilletGroup>,
    index: int,
) -> ProgramView {
    match groups[index].radius {
        RadiusSpec::Constant { radius } => if blended(m, model, radius).len() == 0 {
            p.loss(wording::no_blend_face(m, feature, radius))
        } else {
            with_fillet(m, p, feature, radius, blended(m, model, radius))
        },
        RadiusSpec::Other => p.loss(wording::varying_radius(feature, index)),
    }
}

/// A program after the first `n` groups of a fillet feature.
pub open spec fn after_groups(
    m: Arithmetic,
    p: ProgramView,
    model: Model,
    feature: Feature,
    groups: Seq<FilletGroup>,
    n: int,
) -> ProgramView
    decreases n,
{
    if n <= 0 {
        p
    } else {
        after_group(
            m,
            after_groups(m, p, model, feature, groups, n - 1),
            model,
            feature,
            groups,
            n - 1,
        )
    }
}

/// Whether one of the first `n` groups of a fillet feature is written.
pub open spec fn writes_groups(
    m: Arithmetic,
    model: Model,
    groups: Seq<FilletGroup>,
    n: int,
) -> bool {
    exists|k: int| 0 <= k < n && writes_group(m, model, #[trigger] groups[k])
}

// ---------------------------------------------------------------------------
// the timeline
// ---------------------------------------------------------------------------

/// Whether a feature is written.
pub open spec fn writes_step(
    m: Arithmetic,
    model: Model,
    resolution: Resolution,
    feature: Feature,
) -> bool {
    !plan::is_suppressed(feature) && match feature.definition {
        FeatureDefinition::Extrude { .. } => writes_extrude(m, resolution, feature),
        FeatureDefinition::Fillet { groups } => writes_groups(
            m,
            model,
            groups@,
            groups@.len() as int,
        ),
        _ => false,
    }
}

/// A program after a feature of the timeline.
pub open spec fn after_step(
    m: Arithmetic,
    p: ProgramView,
    model: Model,
    resolution: Resolution,
    feature: Feature,
) -> ProgramView {
    if plan::is_suppressed(feature) {
        p.loss(wording::suppressed_note(feature))
    } else {
        match feature.definition {
            FeatureDefinition::Sketch => p,
            FeatureDefinition::Extrude { .. } => after_extrude(m, p, resolution, feature),
            FeatureDefinition::Fillet { groups } => if groups@.len() == 0 {
                p.loss(wording::without_groups(feature))
            } else {
                after_groups(m, p, model, feature, groups@, groups@.len() as int)
            },
            _ => p.loss(wording::unsupported_family(feature)),
        }
    }
}

/// A program after the first `n` features of the timeline.
pub open spec fn after_steps(
    m: Arithmetic,
    p: ProgramView,
    model: Model,
    resolution: Resolution,
    steps: Seq<Feature>,
    n: int,
) -> ProgramView
    decreases n,
{
    if n <= 0 {
        p
    } else {
        after_step(
            m,
            after_steps(m, p, model, resolution, steps, n - 1),
            model,
            resolution,
            steps[n - 1],
        )
    }
}

/// Whether one of the first `n` features of the timeline is written.
pub open spec fn writes_steps(
    m: Arithmetic,
    model: Model,
    resolution: Resolution,
    steps: Seq<Feature>,
    n: int,
) -> bool {
    exists|k: int| 0 <= k < n && writes_step(m, model, resolution, #[trigger] steps[k])
}

/// The line that opens the builder.
pub open spec fn builder_line() -> Seq<char> {
    "with BuildPart() as part:"@
}

/// The finished program: header, builder, features and footer. A builder without
/// any feature passes.
pub open spec fn finished(
    m: Arithmetic,
    p: ProgramView,
    ir: CadIr,
    resolution: Resolution,
) -> ProgramView {
    let steps = plan::timeline(ir.model);
    let body = after_steps(
        m,
        with_header(p, ir).line(builder_line()),
        ir.model,
        resolution,
        steps,
        steps.len() as int,
    );
    with_footer(
        if writes_steps(m, ir.model, resolution, steps, steps.len() as int) {
            body
        } else {
            body.line("    pass"@)
        },
    )
}

/// What a document resolves to.
pub open spec fn resolution_of(m: Arithmetic, model: Model) -> Resolution {
    Resolution {
        frames: plan::frames_of(m, model),
        arrangements: plan::arrangements_of(m, model),
        plans: plan::resolved_plans(m, model),
    }
}

/// The program of a document.
pub open spec fn exported(m: Arithmetic, ir: CadIr) -> ProgramView {
    finished(
        m,
        ProgramView {
            losses: plan::resolution_losses(m, ir.model),
            ..ProgramView::empty()
        },
        ir,
        resolution_of(m, ir.model),
    )
}

/// Whether a document carries a feature the program can express: one that is
/// written.
pub open spec fn is_expressible(m: Arithmetic, model: Model) -> bool {
    let steps = plan::timeline(model);
    writes_steps(m, model, resolution_of(m, model), steps, steps.len() as int)
}

// ---------------------------------------------------------------------------
// the writer
// ---------------------------------------------------------------------------

proof fn loops_add_no_counts(
    m: Arithmetic,
    p: ProgramView,
    arrangements: Map<Seq<char>, ArrangementView>,
    sketch: Seq<char>,
    loops: Seq<(usize, bool)>,
    n: int,
)
    ensures
        with_loops(m, p, arrangements, sketch, loops, n).counts_as(p),
    decreases n,
{
    if n > 0 {
        loops_add_no_counts(m, p, arrangements, sketch, loops, n - 1);
    }
}

impl<'a, K: Kernel> Writer<'a, K> {
    /// Whether two states differ in their programs alone.
    pub open spec fn same_plans(&self, other: &Self) -> bool {
        &&& self.same_sketches(other)
        &&& self.planned == other.planned
        &&& self.rings == other.rings
        &&& self.pending == other.pending
        &&& self.meridian == other.meridian
    }

    /// What is to be written.
    pub open spec fn resolution(&self) -> Resolution {
        Resolution {
            frames: self.frames@,
            arrangements: self.arranged(),
            plans: self.plans(),
        }
    }

    fn header(&mut self)
        ensures
            final(self).same_plans(old(self)),
            final(self).program@ == with_header(old(self).program@, *old(self).ir),
    {
        let ir = self.ir;
        let ghost before = self.program@;
        let mut format = "Source format : ".to_owned();
        match &ir.source {
            Some(source) => {
                format.append(source.format.as_str());
            },
            None => {
                format.append("unknown");
            },
        }
        let mut version = "IR version    : ".to_owned();
        version.append(ir.ir_version.as_str());
        self.program.push("\"\"\"build123d program generated by cadmpeg.");
        self.program.push("");
        self.program.push(format.as_str());
        self.program.push(version.as_str());
        self.program.push("");
        self.program.push("This is the feature history, not the solved shape. Values marked");
        self.program.push(
            "INFERRED were recovered from the solved body because the source stores",
        );
        self.program.push(
            "that selection as a native identity; the export report gives the rule",
        );
        self.program.push("used in each case.");
        self.program.push("\"\"\"");
        self.program.push("");
        self.program.push("from build123d import *");
        self.program.push("");
        assert(self.program@.lines =~= before.lines + header_lines(*ir));
    }

    fn footer(&mut self)
        ensures
            final(self).same_plans(old(self)),
            final(self).program@ == with_footer(old(self).program@),
    {
        let ghost before = self.program@;
        self.program.push("");
        self.program.push("result = part.part");
        self.program.push("if result is None:");
        self.program.push("    print(\"volume: 0.000000 (empty)\")");
        self.program.push("else:");
        self.program.push("    print(\"volume: %.6f\" % result.volume)");
        assert(self.program@.lines =~= before.lines + footer_lines());
    }

    /// The circle a loop of an arranged sketch draws, if it draws one.
    fn circle_of(&self, sketch: &str, ring: usize) -> (r: Option<((Scalar, Scalar), Scalar)>)
        ensures
            r == loop_circle(self.arranged(), sketch@, ring),
    {
        match self.arrangements.get(sketch) {
            Some(arrangement) => {
                assert(self.arranged()[sketch@] == arrangement@);
                if ring < arrangement.rings.len() {
                    assert(arrangement@.rings[ring as int] == arrangement.rings@[ring as int]@);
                    arrangement.rings[ring].circle
                } else {
                    None
                }
            },
            None => None,
        }
    }

    fn emit_ring(&mut self, sketch: &str, ring: usize, subtract: bool)
        ensures
            final(self).same_plans(old(self)),
            final(self).program@ == with_loop(
                old(self).arithmetic(),
                old(self).program@,
                old(self).arranged(),
                sketch@,
                ring,
                subtract,
            ),
    {
        match self.circle_of(sketch, ring) {
            Some((center, radius)) => {
                self.program.body(wording::locate(center, self.kernel).as_str());
                self.program.body(
                    wording::draw_circle(radius, subtract, self.kernel).as_str(),
                );
            },
            None => {
                self.program.note(
                    LossKind::ParametricRecordOmitted,
                    wording::not_a_circle_message(sketch, ring),
                );
            },
        }
    }

    /// Whether some loops can be drawn.
    fn is_drawn(&self, sketch: &str, loops: &Vec<(usize, bool)>) -> (r: bool)
        ensures
            r == can_be_drawn(self.arranged(), sketch@, loops@),
    {
        let mut k: usize = 0;
        while k < loops.len()
            invariant
                k <= loops@.len(),
                forall|i: int|
                    0 <= i < k ==> loop_circle(
                        self.arranged(),
                        sketch@,
                        (#[trigger] loops@[i]).0,
                    ) is None,
            decreases loops@.len() - k,
        {
            if self.circle_of(sketch, loops[k].0).is_some() {
                assert(is_first_circle(self.arranged(), sketch@, loops@, k as int));
                assert forall|i: int| is_first_circle(self.arranged(), sketch@, loops@, i) implies i
                    == k by {
                    assert(loop_circle(self.arranged(), sketch@, loops@[i].0) is Some);
                    assert(loop_circle(self.arranged(), sketch@, loops@[k as int].0) is Some);
                }
                return !loops[k].1;
            }
            k += 1;
        }
        false
    }

    /// Those of some loops that are no circles.
    fn loops_left_out(&self, sketch: &str, loops: &Vec<(usize, bool)>) -> (r: Vec<(usize, bool)>)
        ensures
            r@ == other_loops(self.arranged(), sketch@, loops@, loops@.len() as int),
    {
        let mut out: Vec<(usize, bool)> = Vec::new();
        let mut k: usize = 0;
        while k < loops.len()
            invariant
                k <= loops@.len(),
                out@ == other_loops(self.arranged(), sketch@, loops@, k as int),
            decreases loops@.len() - k,
        {
            if self.circle_of(sketch, loops[k].0).is_none() {
                out.push(loops[k]);
            }
            k += 1;
        }
        out
    }

    /// Writes some loops of a sketch.
    fn emit_loops(&mut self, sketch: &str, loops: &Vec<(usize, bool)>)
        ensures
            final(self).same_plans(old(self)),
            final(self).program@ == with_loops(
                old(self).arithmetic(),
                old(self).program@,
                old(self).arranged(),
                sketch@,
                loops@,
                loops@.len() as int,
            ),
            final(self).program@.counts_as(old(self).program@),
    {
        let ghost m = self.arithmetic();
        let ghost arranged = self.arranged();
        let ghost start = self.program@;
        let mut k: usize = 0;
        while k < loops.len()
            invariant
                k <= loops@.len(),
                self.same_plans(old(self)),
                m == self.arithmetic(),
                arranged == self.arranged(),
                self.program@ == with_loops(m, start, arranged, sketch@, loops@, k as int),
            decreases loops@.len() - k,
        {
            let (ring, subtract) = loops[k];
            self.emit_ring(sketch, ring, subtract);
            k += 1;
        }
        proof {
            loops_add_no_counts(m, start, arranged, sketch@, loops@, k as int);
        }
    }
}

/// The loops of some regions: of each its outer loop, then its holes.
fn loops_of(regions: &Vec<Region>) -> (r: Vec<(usize, bool)>)
    ensures
        r@ == region_loops(arrangement::region_views(regions@), regions@.len() as int),
{
    let ghost views = arrangement::region_views(regions@);
    let mut out: Vec<(usize, bool)> = Vec::new();
    let mut i: usize = 0;
    while i < regions.len()
        invariant
            i <= regions@.len(),
            views == arrangement::region_views(regions@),
            out@ == region_loops(views, i as int),
        decreases regions@.len() - i,
    {
        let region = &regions[i];
        assert(views[i as int] == region@);
        let ghost before = out@.push((region.outer, false));
        out.push((region.outer, false));
        let mut k: usize = 0;
        while k < region.holes.len()
            invariant
                k <= region.holes@.len(),
                out@ =~= before + hole_loops(region.holes@, k as int),
            decreases region.holes@.len() - k,
        {
            out.push((region.holes[k], true));
            k += 1;
        }
        i += 1;
    }
    out
}

impl<'a, K: Kernel> Writer<'a, K> {
    fn emit_sketch(&mut self, sketch: &str, regions: &Vec<Region>)
        requires
            old(self).program@.spare(old(self).program@.sketch_seq, 1),
            old(self).program@.spare(old(self).program@.sketches, 1),
        ensures
            final(self).same_plans(old(self)),
            final(self).program@ == with_sketch(
                old(self).arithmetic(),
                old(self).program@,
                old(self).frames@,
                old(self).arranged(),
                sketch@,
                arrangement::region_views(regions@),
            ),
            old(self).program@.has_room() ==> final(self).program@.has_room(),
            final(self).program@.lines.len() >= old(self).program@.lines.len(),
            final(self).program@.extrudes == old(self).program@.extrudes,
            final(self).program@.features == old(self).program@.features,
    {
        let frame = match self.frames.get(sketch) {
            Some(frame) => *frame,
            None => {
                return;
            },
        };
        let loops = loops_of(regions);
        assert(arrangement::region_views(regions@).len() == regions@.len());
        if !self.is_drawn(sketch, &loops) {
            let others = self.loops_left_out(sketch, &loops);
            self.emit_loops(sketch, &others);
            return;
        }
        let line = wording::open_sketch(&frame, self.program.sketch_seq, self.kernel);
        self.program.advance_sketch();
        self.program.body(line.as_str());
        self.emit_loops(sketch, &loops);
        self.program.count(CountKey::Sketches);
    }

    /// The place of the first plan that carries an identity.
    fn plan_place(&self, id: &String) -> (r: Option<usize>)
        ensures
            match r {
                Some(place) => place < self.planned@.len() && plan_from(self.plans(), id@, 0)
                    == Some(self.planned@[place as int]@),
                None => plan_from(self.plans(), id@, 0) is None,
            },
    {
        let mut i: usize = 0;
        assert(self.plans().len() == self.planned@.len());
        while i < self.planned.len()
            invariant
                i <= self.planned@.len(),
                self.plans().len() == self.planned@.len(),
                plan_from(self.plans(), id@, 0) == plan_from(self.plans(), id@, i as int),
            decreases self.planned@.len() - i,
        {
            assert(self.plans()[i as int] == self.planned@[i as int]@);
            if self.planned[i].feature.id == *id {
                return Some(i);
            }
            i += 1;
        }
        None
    }

    /// Writes an extrude feature; whether anything was written.
    pub fn extrude(&mut self, feature: &Feature) -> (r: bool)
        requires
            old(self).program@.admits(1),
        ensures
            final(self).same_plans(old(self)),
            final(self).program@ == after_extrude(
                old(self).arithmetic(),
                old(self).program@,
                old(self).resolution(),
                *feature,
            ),
            old(self).program@.has_room() ==> final(self).program@.has_room(),
            r == writes_extrude(old(self).arithmetic(), old(self).resolution(), *feature),
            bodies::bodies_noted(old(self).program@) ==> bodies::bodies_noted(
                final(self).program@,
            ) && final(self).program@.bodies_started == old(self).program@.bodies_started
                + bodies::started_by(old(self).arithmetic(), old(self).resolution(), *feature),
    {
        let ghost m = self.arithmetic();
        let ghost start = self.program@;
        proof {
            if bodies::bodies_noted(start) {
                bodies::extrude_notes_its_body(m, start, self.resolution(), *feature);
            }
        }
        let index = match self.plan_place(&feature.id) {
            Some(index) => index,
            None => {
                return false;
            },
        };
        let ghost plan = self.planned@[index as int]@;
        let op = self.planned[index].op;
        let extent = self.planned[index].extent;
        let (sketch, regions, inference) = match &self.planned[index].profile {
            Some(profile) => (
                profile.sketch.clone(),
                duplicate_regions(&profile.regions),
                profile.inference.clone(),
            ),
            None => {
                self.program.note(
                    LossKind::ParametricRecordOmitted,
                    wording::remark(feature, ": its profile is unresolved"),
                );
                return false;
            },
        };
        let travel = match extrude_travel(&extent, self.kernel) {
            Some(travel) => travel,
            None => {
                return false;
            },
        };
        let mode = match wording::boolean_mode(op) {
            Some(mode) => mode,
            None => {
                self.program.note(
                    LossKind::ParametricRecordOmitted,
                    wording::remark(feature, ": its boolean operation is unresolved"),
                );
                return false;
            },
        };
        if self.frames.get(sketch.as_str()).is_some() {
            let loops = loops_of(&regions);
            assert(arrangement::region_views(regions@).len() == regions@.len());
            if !self.is_drawn(sketch.as_str(), &loops) {
                self.emit_sketch(sketch.as_str(), &regions);
                self.program.note(
                    LossKind::ParametricRecordOmitted,
                    wording::remark(
                        feature,
                        ": no exterior loop of its profile is a single circle ahead of its holes, and this encoder writes circular profile loops only",
                    ),
                );
                return false;
            }
        }
        if matches!(op, BooleanOp::NewBody) {
            self.program.advance_body();
            if self.program.bodies_started > 1 {
                self.program.note(
                    LossKind::ParametricRecordOmitted,
                    wording::remark(
                        feature,
                        ": starts a further body, and the emitted program merges every body into one part",
                    ),
                );
            }
        }
        assert(self.program@ == with_body(start, *feature, op));
        self.program.body("");
        self.program.body(
            wording::comment_on_extrude(feature, op, travel, &inference, self.kernel).as_str(),
        );
        self.emit_sketch(sketch.as_str(), &regions);
        let ghost sketched = self.program@;
        let (back, forward) = travel;
        if (Scalar { bits: ZERO }).lt(back) && !wording::is_symmetric(back, forward, self.kernel) {
            // The builder has no asymmetric two-sided extrude, so the travel is
            // written as its two halves.
            self.program.note(
                LossKind::ParametricRecordOmitted,
                wording::remark(
                    feature,
                    ": an asymmetric two-sided extent is emitted as two extrusions",
                ),
            );
            self.program.body(
                wording::extrude_forward(op, mode, forward, self.kernel).as_str(),
            );
            self.program.body(wording::extrude_backward(op, mode, back, self.kernel).as_str());
        } else {
            self.program.body(wording::extrude_whole(op, mode, travel, self.kernel).as_str());
        }
        assert(self.program@ == with_travel(m, sketched, *feature, op, travel));
        self.program.count(CountKey::Features);
        self.program.count(CountKey::Extrudes);
        true
    }
}

impl<'a, K: Kernel> Writer<'a, K> {
    /// Writes one fillet of the edges a blend replaced.
    fn emit_fillet(&mut self, feature: &Feature, radius: Scalar, edges: &Vec<blend::EdgeCircle>)
        requires
            old(self).program@.admits(1),
        ensures
            final(self).same_plans(old(self)),
            final(self).program@ == with_fillet(
                old(self).arithmetic(),
                old(self).program@,
                *feature,
                radius,
                edges@,
            ),
            old(self).program@.has_room() ==> final(self).program@.has_room(),
            forall|n: int|
                n >= 1 && #[trigger] old(self).program@.admits(n) ==> final(self).program@.admits(
                    n - 1,
                ),
    {
        let ghost m = self.arithmetic();
        let ghost start = self.program@;
        let ghost lines = fillet_lines(m, *feature, radius, edges@, start.blend_seq);
        let variable = wording::variable_of(self.program.blend_seq);
        self.program.advance_blend();
        let ghost named = self.program@;
        let mut opening = variable.clone();
        opening.append(" = [");
        let mut condition = "if ".to_owned();
        condition.append(variable.as_str());
        condition.append(":");
        self.program.body("");
        self.program.body(wording::comment_on_fillet(feature, radius, self.kernel).as_str());
        self.program.body(opening.as_str());
        self.program.body("    e");
        self.program.body("    for e in part.edges()");
        self.program.body("    if e.geom_type == GeomType.CIRCLE");
        self.program.body(wording::select_edges(edges, self.kernel).as_str());
        self.program.body("]");
        self.program.body(condition.as_str());
        self.program.body(
            wording::blend_selected(variable.as_str(), radius, self.kernel).as_str(),
        );
        self.program.body("else:");
        self.program.body(wording::warn(feature).as_str());
        assert(self.program@ == with_body_lines(named, lines, 12)) by {
            reveal_with_fuel(with_body_lines, 13);
        }
        self.program.count(CountKey::Features);
        self.program.count(CountKey::Fillets);
    }

    /// Writes a fillet feature; whether anything was written.
    pub fn fillet(&mut self, feature: &Feature, groups: &Vec<FilletGroup>) -> (r: bool)
        requires
            old(self).program@.admits(groups@.len() as int),
        ensures
            final(self).same_plans(old(self)),
            final(self).program@ == after_groups(
                old(self).arithmetic(),
                old(self).program@,
                old(self).topo.model(),
                *feature,
                groups@,
                groups@.len() as int,
            ),
            old(self).program@.has_room() ==> final(self).program@.has_room(),
            r == writes_groups(
                old(self).arithmetic(),
                old(self).topo.model(),
                groups@,
                groups@.len() as int,
            ),
    {
        let ghost m = self.arithmetic();
        let ghost model = self.topo.model();
        let ghost start = self.program@;
        let mut emitted = false;
        let mut index: usize = 0;
        while index < groups.len()
            invariant
                index <= groups@.len(),
                self.same_plans(old(self)),
                m == self.arithmetic(),
                model == self.topo.model(),
                self.program@ == after_groups(m, start, model, *feature, groups@, index as int),
                start.has_room() ==> self.program@.has_room(),
                self.program@.admits(groups@.len() - index),
                emitted == writes_groups(m, model, groups@, index as int),
            decreases groups@.len() - index,
        {
            let ghost wrote = emitted;
            match groups[index].radius {
                RadiusSpec::Constant { radius } => {
                    let edges = blend_edges(&self.topo, radius, self.kernel);
                    if edges.is_empty() {
                        self.program.note(
                            LossKind::ParametricRecordOmitted,
                            wording::no_blend_message(feature, radius, self.kernel),
                        );
                    } else {
                        assert(self.program@.admits(1));
                        self.emit_fillet(feature, radius, &edges);
                        emitted = true;
                    }
                },
                RadiusSpec::Other => {
                    self.program.note(
                        LossKind::ParametricRecordOmitted,
                        wording::varying_message(feature, index),
                    );
                },
            }
            proof {
                let group = groups@[index as int];
                assert(emitted == (wrote || writes_group(m, model, group)));
                if wrote {
                    let k = choose|k: int|
                        0 <= k < index && writes_group(m, model, #[trigger] groups@[k]);
                    assert(0 <= k < index + 1 && writes_group(m, model, groups@[k]));
                }
            }
            index += 1;
        }
        emitted
    }

    /// Writes the whole program of a planned export; whether any feature was
    /// written.
    pub fn finish(&mut self) -> (r: bool)
        requires
            old(self).sound(),
            old(self).program@.keeps_up(),
        ensures
            final(self).sound(),
            final(self).same_plans(old(self)),
            final(self).program@ == finished(
                old(self).arithmetic(),
                old(self).program@,
                *old(self).ir,
                old(self).resolution(),
            ),
            r == writes_steps(
                old(self).arithmetic(),
                old(self).ir.model,
                old(self).resolution(),
                plan::timeline(old(self).ir.model),
                plan::timeline(old(self).ir.model).len() as int,
            ),
    {
        let ghost m = self.arithmetic();
        let ghost model = self.ir.model;
        let ghost resolution = self.resolution();
        let ghost steps = plan::timeline(model);
        let ir = self.ir;
        self.header();
        self.program.push("with BuildPart() as part:");
        let ghost start = self.program@;
        let mut emitted: usize = 0;
        let features = sort_stable(&ir.model.features);
        assert(features@.unref() == steps);
        let mut i: usize = 0;
        while i < features.len()
            invariant
                i <= features@.len(),
                features@.unref() == steps,
                self.sound(),
                self.same_plans(old(self)),
                m == self.arithmetic(),
                model == self.ir.model,
                resolution == self.resolution(),
                self.program@ == after_steps(m, start, model, resolution, steps, i as int),
                self.program@.has_room(),
                emitted <= i,
                emitted > 0 <==> writes_steps(m, model, resolution, steps, i as int),
            decreases features@.len() - i,
        {
            let feature = features[i];
            assert(steps[i as int] == *feature);
            let ghost wrote = emitted > 0;
            let mut written = false;
            if suppressed(feature) {
                self.program.note(
                    LossKind::ParametricRecordOmitted,
                    wording::remark(feature, ": suppressed in the source"),
                );
            } else {
                match &feature.definition {
                    FeatureDefinition::Sketch => {
                        // Sketches are written where a profile consumes them, so
                        // the program keeps one construct per solid operation.
                    },
                    FeatureDefinition::Extrude { .. } => {
                        written = self.extrude(feature);
                    },
                    FeatureDefinition::Fillet { groups } => {
                        if groups.is_empty() {
                            self.program.note(
                                LossKind::ParametricRecordOmitted,
                                wording::remark(feature, ": it has no group of edges"),
                            );
                        } else {
                            written = self.fillet(feature, groups);
                        }
                    },
                    _ => {
                        self.program.note(
                            LossKind::ParametricRecordOmitted,
                            wording::unsupported_message(feature),
                        );
                    },
                }
            }
            if written {
                emitted += 1;
            }
            proof {
                assert(written == writes_step(m, model, resolution, steps[i as int]));
                if wrote {
                    let k = choose|k: int|
                        0 <= k < i && writes_step(m, model, resolution, #[trigger] steps[k]);
                    assert(0 <= k < i + 1 && writes_step(m, model, resolution, steps[k]));
                }
            }
            i += 1;
        }
        if emitted == 0 {
            self.program.push("    pass");
        }
        self.footer();
        emitted > 0
    }
}

/// Writes the parametric program with its report and counts, or `None` when the
/// document carries no feature the program can express.
pub fn write<K: Kernel>(ir: &CadIr, kernel: &K) -> (r: Option<(String, Vec<LossNote>, Counts)>)
    requires
        plan::is_attributable(kernel.model(), ir.model),
    ensures
        r is Some <==> is_expressible(kernel.model(), ir.model),
        r matches Some((program, losses, counts)) ==> {
            let expected = exported(kernel.model(), *ir);
            &&& program@ == expected.text()
            &&& program::loss_views(losses@) == expected.losses
            &&& counts.extrudes == expected.extrudes
            &&& counts.features == expected.features
            &&& counts.fillets == expected.fillets
            &&& counts.sketches == expected.sketches
        },
{
    let mut writer = Writer::new(ir, kernel);
    writer.plan();
    assert(writer.resolution() == resolution_of(kernel.model(), ir.model));
    if !writer.finish() {
        return None;
    }
    let program = writer.program.text();
    Some((program, writer.program.losses, writer.program.counts))
}

} // verus!
