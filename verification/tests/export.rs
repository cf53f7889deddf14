use cadmpeg_codec_build123d::emit;
use cadmpeg_codec_build123d::ir::{
    BooleanOp, CadIr, Coedge, Edge, ExtrudeExtent, ExtrudeSide, Face, Feature,
    FeatureDefinition, FilletGroup, Loop, Model, Point, ProfileRef, RadiusSpec, Sketch,
    SketchEntity, SketchEntityUse, SketchGeometry, SketchPlacement, SketchProfileRegion, SourceMeta,
    Surface, SurfaceFrame, SurfaceGeometry, SurfaceShape, Termination, Vertex,
};
use cadmpeg_codec_build123d::kernel::{Closures, Kernel, ScalarOp, Vec3, VectorOp};
use cadmpeg_codec_build123d::frame::SketchFrame;
use cadmpeg_codec_build123d::meridian::{LateralFace, Meridian};
use cadmpeg_codec_build123d::plan::{Planned, Writer};
use cadmpeg_codec_build123d::profile::ResolvedProfile;
use cadmpeg_codec_build123d::program::LossKind;
use cadmpeg_codec_build123d::scalar::Scalar;
use cadmpeg_codec_build123d::topo::Topology;

fn s(value: f64) -> Scalar {
    Scalar { bits: value.to_bits() }
}

fn f(value: Scalar) -> f64 {
    f64::from_bits(value.bits)
}

fn v(x: f64, y: f64, z: f64) -> Vec3 {
    Vec3 { x: s(x), y: s(y), z: s(z) }
}

fn parts(a: Vec3) -> [f64; 3] {
    [f(a.x), f(a.y), f(a.z)]
}

fn dot(a: Vec3, b: Vec3) -> f64 {
    let (a, b) = (parts(a), parts(b));
    a[0] * b[0] + a[1] * b[1] + a[2] * b[2]
}

fn cross(a: Vec3, b: Vec3) -> Vec3 {
    let (a, b) = (parts(a), parts(b));
    v(
        a[1] * b[2] - a[2] * b[1],
        a[2] * b[0] - a[0] * b[2],
        a[0] * b[1] - a[1] * b[0],
    )
}

fn scaled(a: Vec3, k: f64) -> Vec3 {
    let a = parts(a);
    v(a[0] * k, a[1] * k, a[2] * k)
}

fn difference(a: Vec3, b: Vec3) -> Vec3 {
    let (a, b) = (parts(a), parts(b));
    v(a[0] - b[0], a[1] - b[1], a[2] - b[2])
}

fn unit(a: Vec3) -> Vec3 {
    scaled(a, 1.0 / dot(a, a).sqrt())
}

fn scalar_op(op: ScalarOp) -> Scalar {
    s(match op {
        ScalarOp::Plus(a, b) => f(a) + f(b),
        ScalarOp::Minus(a, b) => f(a) - f(b),
        ScalarOp::Times(a, b) => f(a) * f(b),
        ScalarOp::Divide(a, b) => f(a) / f(b),
        ScalarOp::MulAdd(a, b, c) => f(a).mul_add(f(b), f(c)),
        ScalarOp::Midpoint(a, b) => (f(a) + f(b)) / 2.0,
        ScalarOp::Sqrt(a) => f(a).sqrt(),
        ScalarOp::Sin(a) => f(a).sin(),
        ScalarOp::Cos(a) => f(a).cos(),
        ScalarOp::Tan(a) => f(a).tan(),
        ScalarOp::Hypot(a, b) => f(a).hypot(f(b)),
        ScalarOp::Count(n) => n as f64,
        ScalarOp::Dot(a, b) => dot(a, b),
        ScalarOp::Length(a) => dot(a, a).sqrt(),
    })
}

fn vector_op(op: VectorOp) -> Vec3 {
    match op {
        VectorOp::Sum(a, b) => difference(a, scaled(b, -1.0)),
        VectorOp::Difference(a, b) => difference(a, b),
        VectorOp::Scale(a, k) => scaled(a, f(k)),
        VectorOp::Unit(a) => unit(a),
        VectorOp::Reject(a, b) => difference(a, scaled(b, dot(a, b))),
        VectorOp::Cross(a, b) => cross(a, b),
    }
}

fn kernel() -> impl Kernel {
    Closures::new(
        scalar_op,
        vector_op,
        |pair: (Vec3, Vec3)| {
            let turned = cross(unit(pair.0), unit(pair.1));
            dot(turned, turned).sqrt() < 1e-9
        },
        |value: Scalar| format!("{}", f(value)),
        |value: Vec3| {
            let p = parts(value);
            format!("({}, {}, {})", p[0], p[1], p[2])
        },
        s(1e-6),
    )
}

// ---------------------------------------------------------------------------
// documents
// ---------------------------------------------------------------------------

fn empty() -> CadIr {
    CadIr {
        ir_version: "3".to_owned(),
        source: Some(SourceMeta { format: "f3d".to_owned() }),
        model: Model {
            features: vec![],
            sketches: vec![],
            sketch_entities: vec![],
            surfaces: vec![],
            curves: vec![],
            faces: vec![],
            loops: vec![],
            coedges: vec![],
            edges: vec![],
            vertices: vec![],
            points: vec![],
        },
    }
}

/// A sketch on the plane at a height, one circle about the origin per radius.
fn add_sketch(ir: &mut CadIr, id: &str, height: f64, radii: &[f64]) {
    let mut profiles = vec![];
    for radius in radii {
        let entity = format!("{id}-{radius}");
        ir.model.sketch_entities.push(SketchEntity {
            id: entity.clone(),
            geometry: SketchGeometry::Circle { center: (s(0.0), s(0.0)), radius: s(*radius) },
        });
        profiles.push(vec![SketchEntityUse { entity }]);
    }
    ir.model.sketches.push(Sketch {
        id: id.to_owned(),
        placement: SketchPlacement::Resolved {
            origin: v(0.0, 0.0, height),
            normal: v(0.0, 0.0, 1.0),
            u_axis: v(1.0, 0.0, 0.0),
        },
        profiles,
    });
}

fn blind(length: f64) -> ExtrudeSide {
    ExtrudeSide { termination: Termination::Blind { length: s(length) } }
}

fn one_sided(length: f64) -> ExtrudeExtent {
    ExtrudeExtent::OneSided { side: blind(length) }
}

fn add_feature(ir: &mut CadIr, id: &str, definition: FeatureDefinition) {
    let ordinal = ir.model.features.len() as u64;
    ir.model.features.push(Feature {
        id: id.to_owned(),
        name: None,
        ordinal,
        suppressed: None,
        definition,
    });
}

fn whole(sketch: &str) -> ProfileRef {
    ProfileRef::Sketch(sketch.to_owned())
}

fn native(sketch: &str) -> ProfileRef {
    ProfileRef::SketchSelection { sketch: sketch.to_owned() }
}

fn add_extrude(
    ir: &mut CadIr,
    id: &str,
    profile: ProfileRef,
    extent: ExtrudeExtent,
    op: BooleanOp,
) {
    add_feature(ir, id, FeatureDefinition::Extrude { profile, extent, op });
}

fn upright(height: f64) -> Option<SurfaceFrame> {
    Some(SurfaceFrame { origin: v(0.0, 0.0, height), axis: v(0.0, 0.0, 1.0) })
}

/// A face about the upright axis, bounded by an edge for each vertical reach.
fn add_face(ir: &mut CadIr, id: &str, height: f64, shape: SurfaceShape, edges: &[&str]) {
    let model = &mut ir.model;
    model.surfaces.push(Surface {
        id: format!("{id}-carrier"),
        geometry: SurfaceGeometry { frame: upright(height), shape },
    });
    let mut coedges = vec![];
    for edge in edges {
        let coedge = format!("{id}-{edge}");
        model.coedges.push(Coedge {
            id: coedge.clone(),
            owner_loop: format!("{id}-loop"),
            edge: (*edge).to_owned(),
        });
        coedges.push(coedge);
    }
    model.loops.push(Loop { id: format!("{id}-loop"), face: id.to_owned(), coedges });
    model.faces.push(Face {
        id: id.to_owned(),
        surface: format!("{id}-carrier"),
        loops: vec![format!("{id}-loop")],
    });
}

/// A closed edge through one point.
fn add_edge(ir: &mut CadIr, id: &str, radius: f64, height: f64) {
    let model = &mut ir.model;
    model.points.push(Point { id: format!("{id}-point"), position: v(radius, 0.0, height) });
    model.vertices.push(Vertex { id: format!("{id}-vertex"), point: format!("{id}-point") });
    model.edges.push(Edge {
        id: id.to_owned(),
        start: format!("{id}-vertex"),
        end: format!("{id}-vertex"),
    });
}

fn cylinder(radius: f64) -> SurfaceShape {
    SurfaceShape::Cylinder { radius: s(radius) }
}

/// The solved body of a tube between two heights.
fn add_tube(ir: &mut CadIr, outer: f64, inner: f64, low: f64, high: f64) {
    add_edge(ir, "ol", outer, low);
    add_edge(ir, "oh", outer, high);
    add_edge(ir, "il", inner, low);
    add_edge(ir, "ih", inner, high);
    add_face(ir, "wall", 0.0, cylinder(outer), &["ol", "oh"]);
    add_face(ir, "bore", 0.0, cylinder(inner), &["il", "ih"]);
    add_face(ir, "floor", low, SurfaceShape::Plane, &["ol", "il"]);
    add_face(ir, "roof", high, SurfaceShape::Plane, &["oh", "ih"]);
}

/// The solved body of a cylinder of radius ten and height five whose upper edge
/// is rounded by one.
fn add_rounded(ir: &mut CadIr) {
    add_edge(ir, "bottom", 10.0, 0.0);
    add_edge(ir, "side", 10.0, 4.0);
    add_edge(ir, "top", 9.0, 5.0);
    add_face(ir, "wall", 0.0, cylinder(10.0), &["bottom", "side"]);
    add_face(ir, "floor", 0.0, SurfaceShape::Plane, &["bottom"]);
    add_face(ir, "roof", 5.0, SurfaceShape::Plane, &["top"]);
    let torus = SurfaceShape::Torus { major_radius: s(9.0), minor_radius: s(1.0) };
    add_face(ir, "round", 4.0, torus, &["side", "top"]);
}

// ---------------------------------------------------------------------------
// reading exports
// ---------------------------------------------------------------------------

struct Exported {
    lines: Vec<String>,
    losses: Vec<String>,
    counts: Vec<(String, usize)>,
}

fn export(ir: &CadIr) -> Option<Exported> {
    let k = kernel();
    assert!(Writer::attributable(ir, &k));
    let (program, losses, counts) = emit::write(ir, &k)?;
    Some(Exported {
        lines: program.split('\n').map(|line| line.to_owned()).collect(),
        losses: losses.into_iter().map(|loss| loss.message).collect(),
        counts: counts.entries(),
    })
}

fn body(exported: &Exported) -> Vec<&str> {
    let lines: Vec<&str> = exported.lines.iter().map(|line| line.as_str()).collect();
    assert_eq!(lines[13], "with BuildPart() as part:");
    assert_eq!(lines[lines.len() - 5], "result = part.part");
    lines[14..lines.len() - 6].to_vec()
}

fn counted(name: &str, count: usize) -> (String, usize) {
    (name.to_owned(), count)
}

// ---------------------------------------------------------------------------
// whole programs
// ---------------------------------------------------------------------------

#[test]
fn a_read_profile_is_written_in_full() {
    let mut ir = empty();
    add_sketch(&mut ir, "s", 1.0, &[10.0, 4.0]);
    add_feature(&mut ir, "drawing", FeatureDefinition::Sketch);
    let profile = ProfileRef::SketchProfiles { sketch: "s".to_owned(), profiles: vec![0] };
    add_extrude(&mut ir, "f1", profile, one_sided(5.0), BooleanOp::NewBody);
    ir.model.features[1].name = Some("Boss".to_owned());
    let exported = export(&ir).unwrap();
    let expected = vec![
        "\"\"\"build123d program generated by cadmpeg.",
        "",
        "Source format : f3d",
        "IR version    : 3",
        "",
        "This is the feature history, not the solved shape. Values marked",
        "INFERRED were recovered from the solved body because the source stores",
        "that selection as a native identity; the export report gives the rule",
        "used in each case.",
        "\"\"\"",
        "",
        "from build123d import *",
        "",
        "with BuildPart() as part:",
        "",
        "    # Boss - new body, blind 5 mm",
        "    with BuildSketch(Plane(origin=(0, 0, 1), x_dir=(1, 0, 0), z_dir=(0, 0, 1))) as sketch0:",
        "        with Locations((0, 0)):",
        "            Circle(10)",
        "        with Locations((0, 0)):",
        "            Circle(4, mode=Mode.SUBTRACT)",
        "    extrude(amount=5)",
        "",
        "result = part.part",
        "if result is None:",
        "    print(\"volume: 0.000000 (empty)\")",
        "else:",
        "    print(\"volume: %.6f\" % result.volume)",
    ];
    assert_eq!(exported.lines, expected);
    assert!(exported.losses.is_empty());
    assert_eq!(
        exported.counts,
        vec![counted("extrudes", 1), counted("features", 1), counted("sketches", 1)]
    );
}

#[test]
fn a_document_without_an_expressible_feature_has_no_program() {
    assert!(export(&empty()).is_none());
    let mut ir = empty();
    add_feature(&mut ir, "f", FeatureDefinition::Revolve);
    add_extrude(&mut ir, "g", whole("missing"), one_sided(5.0), BooleanOp::Join);
    assert!(export(&ir).is_none());
}

#[test]
fn an_unknown_source_is_said_to_be_unknown() {
    let mut ir = empty();
    ir.source = None;
    add_sketch(&mut ir, "s", 0.0, &[1.0]);
    add_extrude(&mut ir, "f", whole("s"), one_sided(5.0), BooleanOp::Join);
    assert_eq!(export(&ir).unwrap().lines[2], "Source format : unknown");
}

#[test]
fn an_extrude_without_an_operation_is_not_expressed() {
    let mut ir = empty();
    add_sketch(&mut ir, "s", 0.0, &[1.0]);
    add_extrude(&mut ir, "f", whole("s"), one_sided(5.0), BooleanOp::Unresolved);
    assert!(export(&ir).is_none());
    add_extrude(&mut ir, "g", whole("s"), one_sided(5.0), BooleanOp::Join);
    let exported = export(&ir).unwrap();
    assert_eq!(exported.losses, vec!["f: its boolean operation is unresolved"]);
    assert_eq!(exported.counts[0], counted("extrudes", 1));
}

#[test]
fn a_builder_without_a_feature_passes() {
    let mut ir = empty();
    add_feature(&mut ir, "f", FeatureDefinition::Revolve);
    let k = kernel();
    let mut writer = Writer::new(&ir, &k);
    writer.plan();
    assert!(!writer.finish());
    let text = writer.program.text();
    assert!(text.contains("with BuildPart() as part:\n    pass\n\nresult = part.part"));
}

#[test]
fn extrudes_without_a_usable_sketch_are_noted() {
    let mut ir = empty();
    add_sketch(&mut ir, "s", 0.0, &[1.0]);
    add_sketch(&mut ir, "loose", 0.0, &[1.0]);
    ir.model.sketches[1].placement = SketchPlacement::Unresolved;
    add_sketch(&mut ir, "bare", 0.0, &[]);
    add_extrude(&mut ir, "kept", whole("s"), one_sided(1.0), BooleanOp::Join);
    for sketch in ["loose", "bare", "missing"] {
        add_extrude(&mut ir, sketch, whole(sketch), one_sided(1.0), BooleanOp::Join);
    }
    let other = ProfileRef::Other { description: "Faces".to_owned() };
    add_extrude(&mut ir, "other", other, one_sided(1.0), BooleanOp::Join);
    let unplaced = |id: &str| {
        format!(
            "{id}: its sketch {id} has no plane, or its profile loops are open or cross one another"
        )
    };
    assert_eq!(
        export(&ir).unwrap().losses,
        vec![
            unplaced("loose"),
            unplaced("bare"),
            unplaced("missing"),
            "other: its profile names no sketch".to_owned(),
        ]
    );
}

#[test]
fn an_extrude_can_be_written_before_any_line() {
    let ir = empty();
    let k = kernel();
    let feature = Feature {
        id: "F1".to_owned(),
        name: Some("Boss".to_owned()),
        ordinal: 0,
        suppressed: None,
        definition: FeatureDefinition::Extrude {
            profile: whole("s"),
            extent: ExtrudeExtent::Symmetric { side: blind(10.0) },
            op: BooleanOp::Cut,
        },
    };
    let mut writer = Writer::new(&ir, &k);
    assert!(!writer.extrude(&feature));
    let frame = SketchFrame::new(v(0.0, 0.0, 0.0), v(0.0, 0.0, 1.0), v(1.0, 0.0, 0.0), &k);
    writer.planned.push(Planned {
        feature: &feature,
        sketch: "s".to_owned(),
        frame,
        span: (s(-5.0), s(5.0)),
        op: BooleanOp::Cut,
        extent: ExtrudeExtent::Symmetric { side: blind(10.0) },
        profile: Some(ResolvedProfile {
            sketch: "s".to_owned(),
            regions: vec![],
            inference: None,
        }),
    });
    assert!(writer.extrude(&feature));
    assert_eq!(
        writer.program.lines,
        vec![
            "",
            "    # Boss - cut, symmetric 10 mm total",
            "    extrude(amount=5, both=True, mode=Mode.SUBTRACT)",
        ]
    );
    assert!(writer.program.losses.is_empty());
    assert_eq!(
        writer.program.counts.entries(),
        vec![counted("extrudes", 1), counted("features", 1)]
    );
}

#[test]
fn operations_and_extents_are_spelled_out() {
    let mut ir = empty();
    add_sketch(&mut ir, "s", 0.0, &[1.0]);
    let symmetric = ExtrudeExtent::Symmetric { side: blind(10.0) };
    let halves = ExtrudeExtent::TwoSided { first: blind(4.0), second: blind(1.5) };
    add_extrude(&mut ir, "a", whole("s"), symmetric, BooleanOp::Cut);
    add_extrude(&mut ir, "b", whole("s"), halves, BooleanOp::Intersect);
    add_extrude(&mut ir, "c", whole("s"), halves, BooleanOp::Join);
    let exported = export(&ir).unwrap();
    let lines = body(&exported);
    let telling: Vec<&str> = lines
        .into_iter()
        .filter(|line| line.contains("# ") || line.contains("extrude("))
        .collect();
    assert_eq!(
        telling,
        vec![
            "    # a - cut, symmetric 10 mm total",
            "    extrude(amount=5, both=True, mode=Mode.SUBTRACT)",
            "    # b - intersect, two-sided 1.5 / 4 mm",
            "    extrude(amount=4, mode=Mode.INTERSECT)",
            "    extrude(part.sketches[-1], amount=1.5, dir=(0, 0, -1), mode=Mode.INTERSECT)",
            "    # c - join, two-sided 1.5 / 4 mm",
            "    extrude(amount=4)",
            "    extrude(part.sketches[-1], amount=1.5, dir=(0, 0, -1))",
        ]
    );
    assert_eq!(
        exported.losses,
        vec![
            "b: an asymmetric two-sided extent is emitted as two extrusions",
            "c: an asymmetric two-sided extent is emitted as two extrusions",
        ]
    );
    let named: Vec<bool> = (0..3)
        .map(|i| exported.lines.iter().any(|line| line.ends_with(&format!("as sketch{i}:"))))
        .collect();
    assert_eq!(named, vec![true, true, true]);
}

#[test]
fn a_second_body_is_noted() {
    let mut ir = empty();
    add_sketch(&mut ir, "s", 0.0, &[1.0]);
    add_extrude(&mut ir, "a", whole("s"), one_sided(1.0), BooleanOp::NewBody);
    add_extrude(&mut ir, "b", whole("s"), one_sided(2.0), BooleanOp::NewBody);
    let exported = export(&ir).unwrap();
    assert_eq!(
        exported.losses,
        vec![
            "b: starts a further body, and the emitted program merges every body into one part",
        ]
    );
}

#[test]
fn every_body_but_the_first_is_noted() {
    for bodies in 0..4usize {
        let mut ir = empty();
        add_sketch(&mut ir, "s", 0.0, &[1.0]);
        add_extrude(&mut ir, "base", whole("s"), one_sided(1.0), BooleanOp::Join);
        for i in 0..bodies {
            let id = format!("body{i}");
            add_extrude(&mut ir, &id, whole("s"), one_sided(1.0), BooleanOp::NewBody);
        }
        let exported = export(&ir).unwrap();
        let merged =
            exported.losses.iter().filter(|note| note.contains("starts a further body")).count();
        assert_eq!(merged, bodies.saturating_sub(1));
        assert_eq!(exported.losses.len(), merged);
    }
}

#[test]
fn bodies_are_noted_however_features_are_extruded() {
    let mut ir = empty();
    add_sketch(&mut ir, "s", 0.0, &[1.0]);
    for (id, op) in [
        ("a", BooleanOp::NewBody),
        ("b", BooleanOp::Join),
        ("c", BooleanOp::NewBody),
        ("d", BooleanOp::Unresolved),
    ] {
        add_extrude(&mut ir, id, whole("s"), one_sided(1.0), op);
    }
    let k = kernel();
    let mut writer = Writer::new(&ir, &k);
    writer.plan();
    for (place, written, noted) in [
        (1, true, 0),
        (2, true, 0),
        (3, false, 0),
        (0, true, 1),
        (2, true, 2),
        (1, true, 2),
    ] {
        assert_eq!(writer.extrude(&ir.model.features[place]), written);
        let merged = writer
            .program
            .losses
            .iter()
            .filter(|note| note.message.contains("starts a further body"))
            .count();
        assert_eq!(merged, noted);
    }
    assert_eq!(writer.program.bodies_started, 3);
    assert!(!writer.program.lines.iter().any(|line| line.contains("mode=")));
}

/// A document with a tube, its bore and a further body.
fn add_history(ir: &mut CadIr) {
    add_sketch(ir, "s", 0.0, &[10.0, 4.0]);
    add_sketch(ir, "t", 0.0, &[4.0]);
    add_extrude(ir, "tube", native("s"), one_sided(5.0), BooleanOp::NewBody);
    add_extrude(ir, "bore", whole("t"), one_sided(5.0), BooleanOp::Cut);
    add_extrude(ir, "peg", whole("t"), one_sided(2.0), BooleanOp::NewBody);
    add_tube(ir, 10.0, 4.0, 0.0, 5.0);
}

#[test]
fn the_record_may_list_features_in_any_order() {
    let mut ir = empty();
    add_history(&mut ir);
    let exported = export(&ir).unwrap();
    for (a, b) in [(0, 1), (1, 2), (0, 2)] {
        ir.model.features.swap(a, b);
        let again = export(&ir).unwrap();
        assert_eq!(again.lines, exported.lines);
        assert_eq!(again.losses, exported.losses);
        assert_eq!(again.counts, exported.counts);
    }
}

#[test]
fn a_suppressed_feature_only_leaves_a_note() {
    let mut plain = empty();
    add_history(&mut plain);
    let without = export(&plain).unwrap();
    for place in 0..4 {
        let mut ir = empty();
        add_history(&mut ir);
        add_extrude(&mut ir, "off", whole("t"), one_sided(9.0), BooleanOp::Cut);
        let mut extra = ir.model.features.pop().unwrap();
        extra.suppressed = Some(true);
        extra.ordinal = 1;
        ir.model.features.insert(place, extra);
        let mut with = export(&ir).unwrap();
        let note =
            with.losses.iter().position(|note| note == "off: suppressed in the source").unwrap();
        with.losses.remove(note);
        assert_eq!(with.losses, without.losses);
        assert_eq!(with.lines, without.lines);
        assert_eq!(with.counts, without.counts);
    }
    // Other features may share an identity.
    for place in 0..4 {
        let document = || {
            let mut ir = empty();
            add_sketch(&mut ir, "s", 0.0, &[1.0]);
            for op in [BooleanOp::NewBody, BooleanOp::Join, BooleanOp::Cut] {
                add_extrude(&mut ir, "same", whole("s"), one_sided(1.0), op);
                ir.model.features.last_mut().unwrap().ordinal = 0;
            }
            ir
        };
        let mut ir = document();
        add_feature(&mut ir, "off", FeatureDefinition::Revolve);
        let mut extra = ir.model.features.pop().unwrap();
        extra.suppressed = Some(true);
        extra.ordinal = 0;
        ir.model.features.insert(place, extra);
        let with = export(&ir).unwrap();
        let without = export(&document()).unwrap();
        assert_eq!(with.lines, without.lines);
        assert_eq!(with.losses.len(), without.losses.len() + 1);
    }
}

#[test]
fn what_is_missing_is_reported() {
    let mut ir = empty();
    add_sketch(&mut ir, "s", 0.0, &[1.0]);
    add_extrude(&mut ir, "kept", whole("s"), one_sided(1.0), BooleanOp::Join);
    add_extrude(&mut ir, "off", whole("s"), one_sided(1.0), BooleanOp::Join);
    ir.model.features[1].suppressed = Some(true);
    let families = vec![
        (FeatureDefinition::Revolve, "revolve"),
        (FeatureDefinition::Chamfer, "chamfer"),
        (FeatureDefinition::Hole, "hole"),
        (FeatureDefinition::Pattern, "pattern"),
        (FeatureDefinition::Shell, "shell"),
        (FeatureDefinition::Loft, "loft"),
        (FeatureDefinition::Sweep, "sweep"),
        (FeatureDefinition::Other, "unsupported"),
    ];
    let mut expected = vec!["off: suppressed in the source".to_owned()];
    for (definition, family) in families {
        add_feature(&mut ir, "x", definition);
        expected
            .push(format!("x: the {family} feature family is not expressed by this encoder"));
    }
    let through = ExtrudeExtent::OneSided {
        side: ExtrudeSide { termination: Termination::ThroughAll },
    };
    add_extrude(&mut ir, "deep", whole("s"), through, BooleanOp::Cut);
    expected.insert(
        0,
        "deep: its extent is not blind on every side; through-all, to-face and to-vertex laws need target geometry this encoder does not resolve"
            .to_owned(),
    );
    let exported = export(&ir).unwrap();
    assert_eq!(exported.losses, expected);
    assert_eq!(exported.counts[0], counted("extrudes", 1));
}

#[test]
fn a_loop_that_is_no_circle_is_noted() {
    let mut ir = empty();
    let corners = [(0.0, 0.0), (4.0, 0.0), (0.0, 3.0)];
    let mut uses = vec![];
    for i in 0..3 {
        let (from, to) = (corners[i], corners[(i + 1) % 3]);
        let id = format!("edge{i}");
        ir.model.sketch_entities.push(SketchEntity {
            id: id.clone(),
            geometry: SketchGeometry::Line {
                start: (s(from.0), s(from.1)),
                end: (s(to.0), s(to.1)),
            },
        });
        uses.push(SketchEntityUse { entity: id });
    }
    add_sketch(&mut ir, "s", 0.0, &[]);
    ir.model.sketches[0].profiles.push(uses);
    add_extrude(&mut ir, "f", whole("s"), one_sided(1.0), BooleanOp::Join);
    assert!(export(&ir).is_none());
    add_sketch(&mut ir, "t", 0.0, &[1.0]);
    add_extrude(&mut ir, "g", whole("t"), one_sided(1.0), BooleanOp::Join);
    let exported = export(&ir).unwrap();
    assert_eq!(
        exported.losses,
        vec![
            "sketch s loop 0 is not a single circle; this encoder writes circular profile loops only",
            "f: no exterior loop of its profile is a single circle ahead of its holes, and this encoder writes circular profile loops only",
        ]
    );
    assert_eq!(exported.counts[0], counted("extrudes", 1));
    assert!(!exported.lines.iter().any(|line| line.contains("# f - ")));
}

#[test]
fn a_hole_is_never_drawn_first() {
    let mut ir = empty();
    add_sketch(&mut ir, "s", 0.0, &[1.0]);
    let corners = [(-4.0, -4.0), (4.0, -4.0), (4.0, 4.0), (-4.0, 4.0)];
    let mut frame = vec![];
    for i in 0..4 {
        let (from, to) = (corners[i], corners[(i + 1) % 4]);
        let id = format!("side{i}");
        ir.model.sketch_entities.push(SketchEntity {
            id: id.clone(),
            geometry: SketchGeometry::Line {
                start: (s(from.0), s(from.1)),
                end: (s(to.0), s(to.1)),
            },
        });
        frame.push(SketchEntityUse { entity: id });
    }
    ir.model.sketches[0].profiles.push(frame);
    add_sketch(&mut ir, "t", 0.0, &[1.0]);
    let plate = |regions: Vec<(u32, Vec<u32>)>| ProfileRef::SketchRegions {
        sketch: "s".to_owned(),
        regions: regions
            .into_iter()
            .map(|(outer, holes)| SketchProfileRegion::Loops { outer, holes })
            .collect(),
    };
    // The frame is no circle, and its hole cannot be cut from nothing.
    for regions in [vec![(1, vec![0])], vec![(1, vec![0]), (0, vec![])]] {
        ir.model.features.clear();
        add_extrude(&mut ir, "kept", whole("t"), one_sided(1.0), BooleanOp::Join);
        add_extrude(&mut ir, "plate", plate(regions), one_sided(1.0), BooleanOp::Join);
        let exported = export(&ir).unwrap();
        assert_eq!(exported.counts[0], counted("extrudes", 1));
        assert_eq!(
            exported.losses[exported.losses.len() - 2..].to_vec(),
            vec![
                "sketch s loop 1 is not a single circle; this encoder writes circular profile loops only",
                "plate: no exterior loop of its profile is a single circle ahead of its holes, and this encoder writes circular profile loops only",
            ]
        );
        assert!(!exported.lines.iter().any(|line| line.contains("# plate - ")));
        assert!(!exported.lines.iter().any(|line| line.contains("Mode.SUBTRACT")));
    }
}

#[test]
fn the_timeline_runs_by_ordinal_and_then_by_identity() {
    let mut ir = empty();
    add_sketch(&mut ir, "s", 0.0, &[1.0]);
    for (id, ordinal) in [("z", 2), ("b", 1), ("\u{e9}", 0), ("a", 1), ("Z", 0)] {
        add_extrude(&mut ir, id, whole("s"), one_sided(1.0), BooleanOp::Join);
        ir.model.features.last_mut().unwrap().ordinal = ordinal;
    }
    let exported = export(&ir).unwrap();
    let order: Vec<String> = exported
        .lines
        .iter()
        .filter(|line| line.starts_with("    # "))
        .map(|line| line[6..].split(' ').next().unwrap().to_owned())
        .collect();
    assert_eq!(order, vec!["Z", "\u{e9}", "a", "b", "z"]);
}

// ---------------------------------------------------------------------------
// inference
// ---------------------------------------------------------------------------

#[test]
fn a_native_selection_is_recovered_from_the_body() {
    let mut ir = empty();
    add_sketch(&mut ir, "s", 0.0, &[10.0, 4.0]);
    add_extrude(&mut ir, "tube", native("s"), one_sided(5.0), BooleanOp::NewBody);
    add_tube(&mut ir, 10.0, 4.0, 0.0, 5.0);
    let exported = export(&ir).unwrap();
    assert_eq!(
        body(&exported),
        vec![
            "",
            "    # tube - new body, blind 5 mm  INFERRED (exterior loop 0 attributed to a solved carrier; 1 of 2 atomic regions retained)",
            "    with BuildSketch(Plane(origin=(0, 0, 0), x_dir=(1, 0, 0), z_dir=(0, 0, 1))) as sketch0:",
            "        with Locations((0, 0)):",
            "            Circle(10)",
            "        with Locations((0, 0)):",
            "            Circle(4, mode=Mode.SUBTRACT)",
            "    extrude(amount=5)",
        ]
    );
    assert!(exported.losses.is_empty());
}

#[test]
fn a_region_a_later_cut_removes_is_kept() {
    let mut ir = empty();
    add_sketch(&mut ir, "s", 0.0, &[10.0, 4.0]);
    add_sketch(&mut ir, "t", 0.0, &[4.0]);
    add_extrude(&mut ir, "tube", native("s"), one_sided(5.0), BooleanOp::NewBody);
    add_extrude(&mut ir, "bore", native("t"), one_sided(5.0), BooleanOp::Cut);
    add_tube(&mut ir, 10.0, 4.0, 0.0, 5.0);
    let exported = export(&ir).unwrap();
    let comments: Vec<&str> =
        body(&exported).into_iter().filter(|line| line.starts_with("    # ")).collect();
    assert_eq!(
        comments,
        vec![
            "    # tube - new body, blind 5 mm  INFERRED (exterior loop 0 attributed to a solved carrier; 2 of 2 atomic regions retained)",
            "    # bore - cut, blind 5 mm  INFERRED (exterior loop 0 attributed to a solved carrier; 1 of 1 atomic regions retained)",
        ]
    );
}

#[test]
fn a_cut_that_was_read_explains_a_void_too() {
    let mut ir = empty();
    add_sketch(&mut ir, "s", 0.0, &[10.0, 4.0]);
    add_sketch(&mut ir, "t", 0.0, &[4.0]);
    add_extrude(&mut ir, "tube", native("s"), one_sided(5.0), BooleanOp::NewBody);
    add_extrude(&mut ir, "bore", whole("t"), one_sided(5.0), BooleanOp::Cut);
    add_tube(&mut ir, 10.0, 4.0, 0.0, 5.0);
    let exported = export(&ir).unwrap();
    assert!(body(&exported)[1].contains("2 of 2 atomic regions retained"));
    // A cut that comes first explains nothing.
    ir.model.features[1].ordinal = 0;
    ir.model.features[0].ordinal = 1;
    let exported = export(&ir).unwrap();
    assert!(exported.lines.iter().any(|line| line.contains("1 of 2 atomic regions retained")));
}

#[test]
fn a_loop_without_material_is_noted() {
    let mut ir = empty();
    add_sketch(&mut ir, "s", 0.0, &[10.0]);
    add_extrude(&mut ir, "tube", native("s"), one_sided(5.0), BooleanOp::NewBody);
    add_tube(&mut ir, 10.0, 4.0, 0.0, 5.0);
    let exported = export(&ir).unwrap();
    assert_eq!(
        exported.losses,
        vec![
            "tube: no region of its exterior loop was found to hold material, so the loop is written as it is",
        ]
    );
    assert_eq!(exported.counts[0], counted("extrudes", 1));
}

#[test]
fn an_unclassified_body_keeps_every_region() {
    let mut ir = empty();
    add_sketch(&mut ir, "s", 0.0, &[10.0, 4.0]);
    add_extrude(&mut ir, "tube", native("s"), one_sided(5.0), BooleanOp::NewBody);
    add_tube(&mut ir, 10.0, 4.0, 0.0, 5.0);
    ir.model.surfaces[3].geometry.frame =
        Some(SurfaceFrame { origin: v(0.0, 0.0, 5.0), axis: v(1.0, 0.0, 1.0) });
    let exported = export(&ir).unwrap();
    assert!(body(&exported)[1].contains("2 of 2 atomic regions retained"));
    assert_eq!(
        exported.losses,
        vec![
            "the body is not a solid of revolution, so inferred profiles keep every atomic region of their exterior loop rather than testing each for material",
        ]
    );
    let (_, losses, _) = emit::write(&ir, &kernel()).unwrap();
    assert_eq!(losses[0].kind, LossKind::CarrierSummary);
}

#[test]
fn a_selection_without_a_carrier_is_a_loss() {
    let mut ir = empty();
    add_sketch(&mut ir, "s", 0.0, &[10.0, 4.0]);
    add_sketch(&mut ir, "t", 0.0, &[7.0]);
    add_extrude(&mut ir, "tube", native("s"), one_sided(5.0), BooleanOp::NewBody);
    add_extrude(&mut ir, "lost", native("t"), one_sided(5.0), BooleanOp::Join);
    add_tube(&mut ir, 10.0, 4.0, 0.0, 5.0);
    let exported = export(&ir).unwrap();
    assert_eq!(
        exported.losses,
        vec![
            "lost: profile is a native selection in sketch t; it needs inference, and no solved carrier could be attributed to any of its profile loops",
            "lost: its profile is unresolved",
        ]
    );
    let (_, losses, _) = emit::write(&ir, &kernel()).unwrap();
    assert_eq!(losses[0].kind, LossKind::ParametricRecordOmitted);
}

#[test]
fn a_carrier_is_attributed_to_one_extrude_only() {
    let mut ir = empty();
    add_sketch(&mut ir, "s", 0.0, &[10.0]);
    add_extrude(&mut ir, "a", native("s"), one_sided(5.0), BooleanOp::NewBody);
    add_extrude(&mut ir, "b", native("s"), one_sided(5.0), BooleanOp::Join);
    add_tube(&mut ir, 10.0, 4.0, 0.0, 5.0);
    let exported = export(&ir).unwrap();
    let comments =
        body(&exported).into_iter().filter(|line| line.contains("INFERRED")).count();
    assert_eq!(comments, 1);
    assert_eq!(exported.losses.last().unwrap(), "b: its profile is unresolved");
}

#[test]
fn shared_identities_can_lead_an_attribution_astray() {
    let mut ir = empty();
    add_sketch(&mut ir, "s", 0.0, &[20.0, 10.0]);
    add_sketch(&mut ir, "t", 0.0, &[4.0]);
    add_extrude(&mut ir, "same", native("t"), one_sided(5.0), BooleanOp::NewBody);
    add_extrude(&mut ir, "same", native("s"), one_sided(5.0), BooleanOp::Join);
    add_tube(&mut ir, 10.0, 4.0, 0.0, 5.0);
    assert!(!Writer::attributable(&ir, &kernel()));
    ir.model.features[1].id = "other".to_owned();
    assert!(Writer::attributable(&ir, &kernel()));
}

// ---------------------------------------------------------------------------
// fillets
// ---------------------------------------------------------------------------

fn fillet(radii: &[Option<f64>]) -> FeatureDefinition {
    FeatureDefinition::Fillet {
        groups: radii
            .iter()
            .map(|radius| FilletGroup {
                radius: match radius {
                    Some(radius) => RadiusSpec::Constant { radius: s(*radius) },
                    None => RadiusSpec::Other,
                },
            })
            .collect(),
    }
}

#[test]
fn a_fillet_selects_the_edge_its_blend_replaced() {
    let mut ir = empty();
    add_sketch(&mut ir, "s", 0.0, &[10.0]);
    add_extrude(&mut ir, "disc", whole("s"), one_sided(5.0), BooleanOp::NewBody);
    add_feature(&mut ir, "round", fillet(&[Some(1.0)]));
    add_rounded(&mut ir);
    let exported = export(&ir).unwrap();
    let lines = body(&exported);
    assert_eq!(
        lines[7..].to_vec(),
        vec![
            "    # round - radius 1 mm  INFERRED (pre-blend edge = intersection of the blend face's two support carriers)",
            "    edges0 = [",
            "        e",
            "        for e in part.edges()",
            "        if e.geom_type == GeomType.CIRCLE",
            "        and ((abs(e.radius - 10) < 1e-4 and (e.arc_center - Vector(0, 0, 5)).length < 1e-4))",
            "    ]",
            "    if edges0:",
            "        fillet(edges0, radius=1)",
            "    else:",
            "        print(\"warning: round matched no edge\")",
        ]
    );
    assert_eq!(
        exported.counts,
        vec![
            counted("extrudes", 1),
            counted("features", 2),
            counted("fillets", 1),
            counted("sketches", 1),
        ]
    );
}

#[test]
fn a_fillet_alone_can_be_expressed() {
    let mut ir = empty();
    add_feature(&mut ir, "round", fillet(&[Some(1.0)]));
    add_feature(&mut ir, "none", fillet(&[]));
    add_rounded(&mut ir);
    let exported = export(&ir).unwrap();
    assert_eq!(exported.counts, vec![counted("features", 1), counted("fillets", 1)]);
    assert_eq!(exported.losses, vec!["none: it has no group of edges"]);
}

#[test]
fn two_blends_share_one_selection() {
    let mut ir = empty();
    add_sketch(&mut ir, "s", 0.0, &[10.0]);
    add_extrude(&mut ir, "disc", whole("s"), one_sided(5.0), BooleanOp::NewBody);
    add_feature(&mut ir, "round", fillet(&[Some(1.0)]));
    add_rounded(&mut ir);
    let torus = SurfaceShape::Torus { major_radius: s(9.0), minor_radius: s(-1.0) };
    add_face(&mut ir, "again", 4.0, torus, &["side", "top"]);
    let exported = export(&ir).unwrap();
    let text = exported.lines.join("\n");
    let test = "(abs(e.radius - 10) < 1e-4 and (e.arc_center - Vector(0, 0, 5)).length < 1e-4)";
    assert!(text.contains(&format!("        and ({test}\n    or {test})")));
}

#[test]
fn fillet_groups_that_cannot_be_written_are_noted() {
    let mut ir = empty();
    add_sketch(&mut ir, "s", 0.0, &[10.0]);
    add_extrude(&mut ir, "disc", whole("s"), one_sided(5.0), BooleanOp::NewBody);
    add_feature(&mut ir, "round", fillet(&[None, Some(2.5)]));
    add_rounded(&mut ir);
    let exported = export(&ir).unwrap();
    assert_eq!(
        exported.losses,
        vec![
            "round: group 0 has a non-constant radius law, which this encoder cannot express",
            "round: no blend face of radius 2.5 was found in the solved body, so its edge selection could not be recovered",
        ]
    );
    assert_eq!(exported.counts[1], counted("features", 1));
}

// ---------------------------------------------------------------------------
// topology
// ---------------------------------------------------------------------------

#[test]
fn neighbours_share_an_edge_and_are_named_once() {
    let mut ir = empty();
    add_rounded(&mut ir);
    let topo = Topology::new(&ir);
    assert_eq!(topo.neighbours("round"), vec!["wall", "roof"]);
    assert_eq!(topo.neighbours("wall"), vec!["floor", "round"]);
    assert!(topo.neighbours("nowhere").is_empty());
}

#[test]
fn edges_are_listed_once_and_seams_are_found() {
    let mut ir = empty();
    add_edge(&mut ir, "seam", 1.0, 0.0);
    add_edge(&mut ir, "rim", 1.0, 2.0);
    add_face(&mut ir, "wall", 0.0, cylinder(1.0), &["seam", "rim", "seam", "unknown"]);
    let topo = Topology::new(&ir);
    let face = topo.face("wall").unwrap();
    let edges: Vec<&str> =
        topo.face_edges(face).into_iter().map(|edge| edge.id.as_str()).collect();
    assert_eq!(edges, vec!["seam", "rim"]);
    let seams = topo.seam_edges(face);
    assert!(seams.contains("seam"));
    assert!(!seams.contains("rim"));
    let points = topo.edge_points(topo.edge("rim").unwrap());
    assert_eq!(points, vec![v(1.0, 0.0, 2.0), v(1.0, 0.0, 2.0)]);
    assert!(topo.edge("unknown").is_none());
}

#[test]
fn spans_reach_from_the_lowest_to_the_highest_point() {
    let mut ir = empty();
    add_tube(&mut ir, 10.0, 4.0, -1.0, 5.0);
    add_edge(&mut ir, "extra", 10.0, 8.0);
    add_face(&mut ir, "more", 0.0, cylinder(10.0), &["oh", "extra"]);
    ir.model.faces.last_mut().unwrap().surface = "wall-carrier".to_owned();
    let topo = Topology::new(&ir);
    let k = kernel();
    let up = v(0.0, 0.0, 1.0);
    assert_eq!(topo.face_span("wall", up, &k), Some((s(-1.0), s(5.0))));
    assert_eq!(topo.face_span("nowhere", up, &k), None);
    assert_eq!(topo.surface_span("wall-carrier", up, &k), Some((s(-1.0), s(8.0))));
    assert_eq!(topo.surface_span("more-carrier", up, &k), None);
}

#[test]
fn an_identity_used_twice_names_its_last_entity() {
    let mut ir = empty();
    add_edge(&mut ir, "rim", 1.0, 2.0);
    add_edge(&mut ir, "rim", 1.0, 7.0);
    let topo = Topology::new(&ir);
    let points = topo.edge_points(topo.edge("rim").unwrap());
    assert_eq!(points[0], v(1.0, 0.0, 7.0));
}

// ---------------------------------------------------------------------------
// solids of revolution
// ---------------------------------------------------------------------------

#[test]
fn a_point_is_inside_where_an_odd_number_of_walls_lies_outward() {
    let mut ir = empty();
    add_tube(&mut ir, 10.0, 4.0, 0.0, 5.0);
    let topo = Topology::new(&ir);
    let k = kernel();
    let solid = Meridian::build(&topo, &k).unwrap();
    assert!(solid.contains(v(7.0, 0.0, 2.0), &k));
    assert!(solid.contains(v(0.0, -7.0, 5.0), &k));
    assert!(!solid.contains(v(2.0, 0.0, 2.0), &k));
    assert!(!solid.contains(v(12.0, 0.0, 2.0), &k));
    assert!(!solid.contains(v(7.0, 0.0, 6.0), &k));
}

/// Whether a point is inside what one wall between two edges encloses.
fn inside_wall(shape: SurfaceShape, edges: [(f64, f64); 2], point: Vec3) -> Option<bool> {
    let k = kernel();
    let mut ir = empty();
    add_edge(&mut ir, "first", edges[0].0, edges[0].1);
    add_edge(&mut ir, "second", edges[1].0, edges[1].1);
    add_face(&mut ir, "wall", 0.0, shape, &["first", "second"]);
    let topo = Topology::new(&ir);
    let solid = Meridian::build(&topo, &k)?;
    Some(solid.contains(point, &k))
}

#[test]
fn cones_and_spheres_have_meridians() {
    let cone =
        SurfaceShape::Cone { radius: s(2.0), half_angle: s(std::f64::consts::FRAC_PI_4) };
    let ends = [(2.0, 0.0), (5.0, 3.0)];
    assert_eq!(inside_wall(cone, ends, v(4.5, 0.0, 3.0)), Some(true));
    assert_eq!(inside_wall(cone, ends, v(4.5, 0.0, 1.0)), Some(false));
    let sphere = SurfaceShape::Sphere { radius: s(5.0) };
    let ends = [(4.0, -3.0), (4.0, 3.0)];
    assert_eq!(inside_wall(sphere, ends, v(4.5, 0.0, 0.0)), Some(true));
    assert_eq!(inside_wall(sphere, ends, v(3.5, 0.0, 3.0)), Some(true));
    assert_eq!(inside_wall(sphere, ends, v(4.5, 0.0, 3.0)), Some(false));
}

#[test]
fn a_torus_counts_on_the_side_its_edges_lie() {
    let torus = SurfaceShape::Torus { major_radius: s(9.0), minor_radius: s(-5.0) };
    let outer = [(12.0, -4.0), (12.0, 4.0)];
    assert_eq!(inside_wall(torus, outer, v(4.5, 0.0, 3.0)), Some(true));
    assert_eq!(inside_wall(torus, outer, v(12.5, 0.0, 3.0)), Some(true));
    assert_eq!(inside_wall(torus, outer, v(13.5, 0.0, 3.0)), Some(false));
    let inner = [(6.0, -4.0), (6.0, 4.0)];
    assert_eq!(inside_wall(torus, inner, v(4.5, 0.0, 3.0)), Some(true));
    assert_eq!(inside_wall(torus, inner, v(6.0, 0.0, 3.0)), Some(false));
    // Edges on the crest, on both sides, or at one height do not tell.
    assert_eq!(inside_wall(torus, [(9.0, -5.0), (9.0, 5.0)], v(1.0, 0.0, 0.0)), None);
    assert_eq!(inside_wall(torus, [(6.0, -4.0), (12.0, 4.0)], v(1.0, 0.0, 0.0)), None);
    assert_eq!(inside_wall(torus, [(12.0, 4.0), (12.0, 4.0)], v(1.0, 0.0, 0.0)), None);
}

#[test]
fn outward_crossings_are_few_and_never_grow() {
    let k = kernel();
    let count = |shape: SurfaceShape, far: f64, station: f64, radius: f64| {
        let face = LateralFace {
            geometry: SurfaceGeometry { shape, frame: upright(0.0) },
            low: s(-4.0),
            high: s(4.0),
            near: s(2.0),
            far: s(far),
        };
        Meridian::outward_crossings(&face, s(station), s(radius), &k)
    };
    let torus = SurfaceShape::Torus { major_radius: s(9.0), minor_radius: s(5.0) };
    let sphere = SurfaceShape::Sphere { radius: s(5.0) };
    assert_eq!(count(torus, 12.0, 3.0, 4.0), 2);
    assert_eq!(count(torus, 12.0, 3.0, 6.0), 1);
    assert_eq!(count(torus, 12.0, 3.0, 14.0), 0);
    assert_eq!(count(torus, 12.0, 5.0, 4.0), 0);
    assert_eq!(count(sphere, 5.0, 3.0, 3.0), 1);
    assert_eq!(count(sphere, 5.0, 3.0, 4.0), 0);
    assert_eq!(count(sphere, 5.0, -5.0, 0.0), 0);
    for station in [-9.0, 0.0, 2.0] {
        assert_eq!(count(cylinder(5.0), 5.0, station, 4.0), 1);
        assert_eq!(count(cylinder(5.0), 5.0, station, 5.0), 0);
    }
    assert_eq!(count(SurfaceShape::Plane, 5.0, 0.0, 0.0), 0);
    assert_eq!(count(SurfaceShape::Other, 5.0, 0.0, 0.0), 0);
}

#[test]
fn a_rounded_rim_does_not_hollow_the_body() {
    let k = kernel();
    let mut ir = empty();
    add_edge(&mut ir, "bottom", 5.0, 0.0);
    add_edge(&mut ir, "side", 5.0, 9.0);
    add_edge(&mut ir, "top", 4.0, 10.0);
    add_face(&mut ir, "wall", 0.0, cylinder(5.0), &["bottom", "side"]);
    let torus = SurfaceShape::Torus { major_radius: s(4.0), minor_radius: s(1.0) };
    add_face(&mut ir, "round", 9.0, torus, &["side", "top"]);
    add_face(&mut ir, "floor", 0.0, SurfaceShape::Plane, &["bottom"]);
    add_face(&mut ir, "roof", 10.0, SurfaceShape::Plane, &["top"]);
    let topo = Topology::new(&ir);
    let solid = Meridian::build(&topo, &k).unwrap();
    assert!(solid.contains(v(0.0, 0.0, 9.5), &k));
    assert!(solid.contains(v(0.0, 0.0, 9.0), &k));
    assert!(solid.contains(v(4.8, 0.0, 9.5), &k));
    assert!(!solid.contains(v(4.9, 0.0, 9.5), &k));
    assert!(solid.contains(v(4.9, 0.0, 4.5), &k));
}

#[test]
fn a_step_in_a_shaft_is_counted_once() {
    let k = kernel();
    let mut ir = empty();
    for (edge, radius, height) in
        [("a", 5.0, 0.0), ("b", 5.0, 5.0), ("c", 3.0, 5.0), ("d", 3.0, 10.0)]
    {
        add_edge(&mut ir, edge, radius, height);
    }
    add_face(&mut ir, "thick", 0.0, cylinder(5.0), &["a", "b"]);
    add_face(&mut ir, "thin", 5.0, cylinder(3.0), &["c", "d"]);
    add_face(&mut ir, "step", 5.0, SurfaceShape::Plane, &["b", "c"]);
    add_face(&mut ir, "floor", 0.0, SurfaceShape::Plane, &["a"]);
    add_face(&mut ir, "roof", 10.0, SurfaceShape::Plane, &["d"]);
    let topo = Topology::new(&ir);
    let solid = Meridian::build(&topo, &k).unwrap();
    for height in [0.0, 4.0, 5.0, 6.0, 10.0] {
        assert!(solid.contains(v(2.0, 0.0, height), &k));
    }
    assert!(solid.contains(v(4.0, 0.0, 4.0), &k));
    assert!(!solid.contains(v(4.0, 0.0, 6.0), &k));
    assert!(!solid.contains(v(2.0, 0.0, 10.5), &k));
}

#[test]
fn a_face_of_an_unknown_family_has_no_classifier() {
    let ends = [(5.0, 0.0), (5.0, 2.0)];
    assert_eq!(inside_wall(cylinder(5.0), ends, v(1.0, 0.0, 1.0)), Some(true));
    assert_eq!(inside_wall(SurfaceShape::Other, ends, v(1.0, 0.0, 1.0)), None);
}

/// A cylinder of radius one and height one about an upright line.
fn add_peg(ir: &mut CadIr, id: &str, x: f64, axis: Vec3) {
    let ends = [format!("{id}-low"), format!("{id}-high")];
    add_edge(ir, &ends[0], x + 1.0, 0.0);
    add_edge(ir, &ends[1], x + 1.0, 1.0);
    add_face(ir, id, 0.0, cylinder(1.0), &[ends[0].as_str(), ends[1].as_str()]);
    ir.model.surfaces.last_mut().unwrap().geometry.frame =
        Some(SurfaceFrame { origin: v(x, 0.0, 0.0), axis });
}

#[test]
fn radii_are_measured_from_the_axis_of_the_body() {
    let k = kernel();
    for axis in [v(0.0, 0.0, 1.0), v(0.0, 0.0, -1.0)] {
        let mut ir = empty();
        add_peg(&mut ir, "peg", 10.0, axis);
        let topo = Topology::new(&ir);
        let solid = Meridian::build(&topo, &k).unwrap();
        assert!(solid.contains(v(10.0, 0.0, 0.5), &k));
        assert!(solid.contains(v(10.5, 0.5, 0.5), &k));
        assert!(!solid.contains(v(0.0, 0.0, 0.5), &k));
        assert!(!solid.contains(v(10.0, 0.0, 1.5), &k));
    }
}

#[test]
fn a_body_without_a_common_axis_has_no_classifier() {
    let k = kernel();
    let mut skew = empty();
    add_tube(&mut skew, 10.0, 4.0, 0.0, 5.0);
    skew.model.surfaces[1].geometry.frame =
        Some(SurfaceFrame { origin: v(0.0, 0.0, 0.0), axis: v(1.0, 0.0, 0.0) });
    assert!(Meridian::build(&Topology::new(&skew), &k).is_none());
    let mut apart = empty();
    add_peg(&mut apart, "one", 0.0, v(0.0, 0.0, 1.0));
    add_peg(&mut apart, "other", 5.0, v(0.0, 0.0, 1.0));
    assert!(Meridian::build(&Topology::new(&apart), &k).is_none());
    let mut flat = empty();
    add_edge(&mut flat, "rim", 1.0, 0.0);
    add_face(&mut flat, "plate", 0.0, SurfaceShape::Plane, &["rim"]);
    assert!(Meridian::build(&Topology::new(&flat), &k).is_none());
    assert!(Meridian::build(&Topology::new(&empty()), &k).is_none());
}
