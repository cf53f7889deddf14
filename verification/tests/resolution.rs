use cadmpeg_codec_build123d::arena::Catalog;
use cadmpeg_codec_build123d::arrangement::{Arrangement, Region};
use cadmpeg_codec_build123d::assign::{search, Candidate};
use cadmpeg_codec_build123d::blend::{intersect, pick_sharp_edge, EdgeCircle};
use cadmpeg_codec_build123d::frame::{extrude_span, extrude_travel, sketch_frame, SketchFrame};
use cadmpeg_codec_build123d::ir::{
    ExtrudeExtent, ExtrudeSide, ProfileRef, Sketch, SketchEntity, SketchEntityUse,
    SketchGeometry, SketchPlacement, SketchProfileRegion, SurfaceFrame, SurfaceGeometry,
    SurfaceShape, Termination,
};
use cadmpeg_codec_build123d::kernel::{Closures, Kernel, ScalarOp, Vec3, VectorOp};
use cadmpeg_codec_build123d::profile::{cuts_cover, resolve_profile, CutVolume};
use cadmpeg_codec_build123d::ring::{interior_point, sample_arc, shoelace};
use cadmpeg_codec_build123d::scalar::Scalar;
use vstd::hash_map::StringHashMap;

fn s(value: f64) -> Scalar {
    Scalar { bits: value.to_bits() }
}

fn f(value: Scalar) -> f64 {
    f64::from_bits(value.bits)
}

fn v(x: f64, y: f64, z: f64) -> Vec3 {
    Vec3 { x: s(x), y: s(y), z: s(z) }
}

fn parts(a: Vec3) -> [f64; 3] {
    [f(a.x), f(a.y), f(a.z)]
}

fn dot(a: Vec3, b: Vec3) -> f64 {
    let (a, b) = (parts(a), parts(b));
    a[0] * b[0] + a[1] * b[1] + a[2] * b[2]
}

fn cross(a: Vec3, b: Vec3) -> Vec3 {
    let (a, b) = (parts(a), parts(b));
    v(
        a[1] * b[2] - a[2] * b[1],
        a[2] * b[0] - a[0] * b[2],
        a[0] * b[1] - a[1] * b[0],
    )
}

fn scaled(a: Vec3, k: f64) -> Vec3 {
    let a = parts(a);
    v(a[0] * k, a[1] * k, a[2] * k)
}

fn difference(a: Vec3, b: Vec3) -> Vec3 {
    let (a, b) = (parts(a), parts(b));
    v(a[0] - b[0], a[1] - b[1], a[2] - b[2])
}

fn unit(a: Vec3) -> Vec3 {
    scaled(a, 1.0 / dot(a, a).sqrt())
}

fn scalar_op(op: ScalarOp) -> Scalar {
    s(match op {
        ScalarOp::Plus(a, b) => f(a) + f(b),
        ScalarOp::Minus(a, b) => f(a) - f(b),
        ScalarOp::Times(a, b) => f(a) * f(b),
        ScalarOp::Divide(a, b) => f(a) / f(b),
        ScalarOp::MulAdd(a, b, c) => f(a).mul_add(f(b), f(c)),
        ScalarOp::Midpoint(a, b) => (f(a) + f(b)) / 2.0,
        ScalarOp::Sqrt(a) => f(a).sqrt(),
        ScalarOp::Sin(a) => f(a).sin(),
        ScalarOp::Cos(a) => f(a).cos(),
        ScalarOp::Tan(a) => f(a).tan(),
        ScalarOp::Hypot(a, b) => f(a).hypot(f(b)),
        ScalarOp::Count(n) => n as f64,
        ScalarOp::Dot(a, b) => dot(a, b),
        ScalarOp::Length(a) => dot(a, a).sqrt(),
    })
}

fn vector_op(op: VectorOp) -> Vec3 {
    match op {
        VectorOp::Sum(a, b) => difference(a, scaled(b, -1.0)),
        VectorOp::Difference(a, b) => difference(a, b),
        VectorOp::Scale(a, k) => scaled(a, f(k)),
        VectorOp::Unit(a) => unit(a),
        VectorOp::Reject(a, b) => difference(a, scaled(b, dot(a, b))),
        VectorOp::Cross(a, b) => cross(a, b),
    }
}

fn kernel() -> impl Kernel {
    Closures::new(
        scalar_op,
        vector_op,
        |pair: (Vec3, Vec3)| {
            let turned = cross(unit(pair.0), unit(pair.1));
            dot(turned, turned).sqrt() < 1e-9
        },
        |value: Scalar| format!("{}", f(value)),
        |value: Vec3| {
            let p = parts(value);
            format!("({}, {}, {})", p[0], p[1], p[2])
        },
        s(1e-6),
    )
}

// ---------------------------------------------------------------------------
// shared circles
// ---------------------------------------------------------------------------

fn plane(height: f64) -> SurfaceGeometry {
    SurfaceGeometry {
        frame: Some(SurfaceFrame { origin: v(0.0, height, 0.0), axis: v(0.0, 1.0, 0.0) }),
        shape: SurfaceShape::Plane,
    }
}

fn cylinder(radius: f64) -> SurfaceGeometry {
    SurfaceGeometry {
        frame: Some(SurfaceFrame { origin: v(0.0, 0.0, 0.0), axis: v(0.0, 1.0, 0.0) }),
        shape: SurfaceShape::Cylinder { radius: s(radius) },
    }
}

#[test]
fn a_wall_meeting_a_face_gives_the_corner_circle() {
    let circles = intersect(&cylinder(3.75), &plane(1.0), &kernel());
    assert_eq!(circles.len(), 1);
    assert!((f(circles[0].radius) - 3.75).abs() < 1e-12);
    assert!((f(circles[0].center.y) - 1.0).abs() < 1e-12);
}

#[test]
fn a_skew_plane_shares_no_circle() {
    let skew = SurfaceGeometry {
        frame: Some(SurfaceFrame { origin: v(0.0, 1.0, 0.0), axis: v(0.0, 1.0, 1.0) }),
        shape: SurfaceShape::Plane,
    };
    assert!(intersect(&cylinder(3.75), &skew, &kernel()).is_empty());
}

#[test]
fn the_order_of_two_carriers_does_not_matter() {
    let one = intersect(&plane(1.0), &cylinder(3.75), &kernel());
    let other = intersect(&cylinder(3.75), &plane(1.0), &kernel());
    assert_eq!(one, other);
}

#[test]
fn two_walls_share_no_circle() {
    assert!(intersect(&cylinder(3.0), &cylinder(4.0), &kernel()).is_empty());
    assert!(intersect(&plane(3.0), &plane(4.0), &kernel()).is_empty());
}

#[test]
fn a_cone_widens_along_its_axis() {
    let cone = SurfaceGeometry {
        frame: Some(SurfaceFrame { origin: v(0.0, 0.0, 0.0), axis: v(0.0, 1.0, 0.0) }),
        shape: SurfaceShape::Cone { radius: s(2.0), half_angle: s(std::f64::consts::FRAC_PI_4) },
    };
    let circles = intersect(&cone, &plane(3.0), &kernel());
    assert_eq!(circles.len(), 1);
    assert!((f(circles[0].radius) - 5.0).abs() < 1e-12);
    assert_eq!(circles[0].center, v(0.0, 3.0, 0.0));
}

#[test]
fn a_surface_without_a_frame_shares_no_circle() {
    let bare = SurfaceGeometry { frame: None, shape: SurfaceShape::Other };
    assert!(intersect(&bare, &plane(1.0), &kernel()).is_empty());
}

#[test]
fn the_nearest_corner_within_reach_is_the_sharp_edge() {
    let torus = SurfaceGeometry {
        frame: Some(SurfaceFrame { origin: v(0.0, 0.0, 4.0), axis: v(0.0, 0.0, 1.0) }),
        shape: SurfaceShape::Torus { major_radius: s(9.0), minor_radius: s(1.0) },
    };
    let far = EdgeCircle { center: v(0.0, 0.0, 0.0), radius: s(10.0) };
    let near = EdgeCircle { center: v(0.0, 0.0, 5.0), radius: s(10.0) };
    let nearer = EdgeCircle { center: v(0.0, 0.0, 4.5), radius: s(10.0) };
    let pick = |circles: Vec<EdgeCircle>| {
        pick_sharp_edge(&circles, &torus, s(9.0), s(1.0), &kernel())
    };
    assert_eq!(pick(vec![far]), None);
    assert_eq!(pick(vec![far, near]), Some(near));
    assert_eq!(pick(vec![far, near, nearer]), Some(nearer));
    assert_eq!(pick(vec![]), None);
}

// ---------------------------------------------------------------------------
// extents
// ---------------------------------------------------------------------------

fn blind(length: f64) -> ExtrudeSide {
    ExtrudeSide { termination: Termination::Blind { length: s(length) } }
}

#[test]
fn a_blind_one_sided_extent_travels_forward_only() {
    let extent = ExtrudeExtent::OneSided { side: blind(4.0) };
    assert_eq!(extrude_travel(&extent, &kernel()), Some((s(0.0), s(4.0))));
}

#[test]
fn a_symmetric_extent_splits_its_travel() {
    let extent = ExtrudeExtent::Symmetric { side: blind(10.0) };
    assert_eq!(extrude_travel(&extent, &kernel()), Some((s(5.0), s(5.0))));
}

#[test]
fn a_non_blind_extent_is_refused() {
    let extent = ExtrudeExtent::OneSided {
        side: ExtrudeSide { termination: Termination::ThroughAll },
    };
    assert_eq!(extrude_travel(&extent, &kernel()), None);
}

#[test]
fn the_second_side_of_an_extent_travels_backward() {
    let extent = ExtrudeExtent::TwoSided { first: blind(4.0), second: blind(1.5) };
    assert_eq!(extrude_travel(&extent, &kernel()), Some((s(1.5), s(4.0))));
    let open = ExtrudeExtent::TwoSided {
        first: blind(4.0),
        second: ExtrudeSide { termination: Termination::Other },
    };
    assert_eq!(extrude_travel(&open, &kernel()), None);
}

#[test]
fn a_span_runs_upwards_whatever_its_travel() {
    let k = kernel();
    let frame = SketchFrame::new(v(0.0, 0.0, 3.0), v(0.0, 0.0, 2.0), v(1.0, 0.0, 0.0), &k);
    let up = ExtrudeExtent::OneSided { side: blind(4.0) };
    let down = ExtrudeExtent::OneSided { side: blind(-4.0) };
    assert_eq!(extrude_span(&frame, &up, &k), Some((s(3.0), s(7.0))));
    assert_eq!(extrude_span(&frame, &down, &k), Some((s(-1.0), s(3.0))));
}

// ---------------------------------------------------------------------------
// frames
// ---------------------------------------------------------------------------

#[test]
fn a_frame_squares_its_axes() {
    let k = kernel();
    let frame = SketchFrame::new(v(1.0, 2.0, 3.0), v(0.0, 0.0, 2.0), v(3.0, 0.0, 4.0), &k);
    assert_eq!(frame.normal, v(0.0, 0.0, 1.0));
    assert_eq!(frame.x_axis, v(1.0, 0.0, 0.0));
    assert_eq!(frame.y_axis, v(0.0, 1.0, 0.0));
    assert_eq!(frame.to_model(s(2.0), s(5.0), &k), v(3.0, 7.0, 3.0));
    assert_eq!(frame.to_sketch(v(3.0, 7.0, 9.0), &k), (s(2.0), s(5.0)));
    assert_eq!(frame.station(&k), s(3.0));
}

#[test]
fn sketch_coordinates_come_back_from_model_space() {
    let k = kernel();
    let origin = v(1.0, 2.0, 3.0);
    let frame = SketchFrame::new(origin, v(0.0, 3.0, 0.0), v(0.0, 1.0, 2.0), &k);
    assert_eq!(frame.normal, v(0.0, 1.0, 0.0));
    assert_eq!(frame.x_axis, v(0.0, 0.0, 1.0));
    assert_eq!(frame.y_axis, v(1.0, 0.0, 0.0));
    assert_eq!(SketchFrame::new(origin, v(0.0, 7.0, 0.0), v(0.0, -5.0, 4.0), &k), frame);
    for (a, b) in [(2.0, 5.0), (-2.5, 0.25), (7.0, -1.0)] {
        let point = frame.to_model(s(a), s(b), &k);
        assert_eq!(frame.to_sketch(point, &k), (s(a), s(b)));
        let raised = v(f(point.x), f(point.y) + 9.0, f(point.z));
        assert_eq!(frame.to_sketch(raised, &k), (s(a), s(b)));
        assert_eq!(dot(point, frame.normal), 2.0);
    }
}

#[test]
fn an_open_placement_has_no_frame() {
    let sketch = Sketch {
        id: "s".to_owned(),
        placement: SketchPlacement::Unresolved,
        profiles: vec![],
    };
    assert!(sketch_frame(&sketch, &kernel()).is_none());
}

// ---------------------------------------------------------------------------
// rings and regions
// ---------------------------------------------------------------------------

fn circle(id: &str, u: f64, w: f64, radius: f64) -> SketchEntity {
    SketchEntity {
        id: id.to_owned(),
        geometry: SketchGeometry::Circle { center: (s(u), s(w)), radius: s(radius) },
    }
}

fn line(id: &str, from: (f64, f64), to: (f64, f64)) -> SketchEntity {
    SketchEntity {
        id: id.to_owned(),
        geometry: SketchGeometry::Line {
            start: (s(from.0), s(from.1)),
            end: (s(to.0), s(to.1)),
        },
    }
}

fn sketch(loops: Vec<Vec<&str>>) -> Sketch {
    Sketch {
        id: "s".to_owned(),
        placement: SketchPlacement::Resolved {
            origin: v(0.0, 0.0, 0.0),
            normal: v(0.0, 0.0, 1.0),
            u_axis: v(1.0, 0.0, 0.0),
        },
        profiles: loops
            .into_iter()
            .map(|uses| {
                uses.into_iter()
                    .map(|entity| SketchEntityUse { entity: entity.to_owned() })
                    .collect()
            })
            .collect(),
    }
}

fn square(low: f64, high: f64) -> Vec<SketchEntity> {
    vec![
        line("a", (low, low), (high, low)),
        line("b", (high, low), (high, high)),
        line("c", (high, high), (low, high)),
        line("d", (low, high), (low, low)),
    ]
}

#[test]
fn a_square_has_its_area_and_its_middle() {
    let k = kernel();
    let entities = square(0.0, 2.0);
    let arrangement =
        Arrangement::build(&sketch(vec![vec!["a", "b", "c", "d"]]), &Catalog::new(&entities), &k);
    let arrangement = arrangement.unwrap();
    let ring = &arrangement.rings[0];
    assert_eq!(ring.area, s(4.0));
    assert_eq!(ring.interior, (s(1.0), s(1.0)));
    assert_eq!(ring.polygon.len(), 8);
    assert!(ring.circle.is_none());
    assert!(ring.contains((s(0.5), s(1.5)), &k));
    assert!(!ring.contains((s(2.5), s(1.5)), &k));
    assert!(!ring.contains((s(0.5), s(-0.5)), &k));
}

#[test]
fn a_lone_circle_keeps_its_geometry() {
    let k = kernel();
    let entities = vec![circle("c", 1.0, 2.0, 3.0)];
    let arrangement =
        Arrangement::build(&sketch(vec![vec!["c"]]), &Catalog::new(&entities), &k).unwrap();
    let ring = &arrangement.rings[0];
    assert_eq!(ring.circle, Some(((s(1.0), s(2.0)), s(3.0))));
    assert_eq!(ring.interior, (s(1.0), s(2.0)));
    assert_eq!(ring.polygon.len(), 25);
    assert!(ring.contains((s(3.9), s(2.0)), &k));
    assert!(!ring.contains((s(4.0), s(2.0)), &k));
}

#[test]
fn what_closes_no_loop_has_no_arrangement() {
    let k = kernel();
    let entities = vec![
        line("a", (0.0, 0.0), (1.0, 0.0)),
        SketchEntity { id: "x".to_owned(), geometry: SketchGeometry::Other },
    ];
    let catalog = Catalog::new(&entities);
    assert!(Arrangement::build(&sketch(vec![]), &catalog, &k).is_none());
    assert!(Arrangement::build(&sketch(vec![vec!["a"]]), &catalog, &k).is_none());
    assert!(Arrangement::build(&sketch(vec![vec!["x"]]), &catalog, &k).is_none());
    assert!(Arrangement::build(&sketch(vec![vec!["missing"]]), &catalog, &k).is_none());
}

#[test]
fn an_arc_is_sampled_from_end_to_end() {
    let points = sample_arc((s(1.0), s(0.0)), s(2.0), s(0.0), s(std::f64::consts::PI), &kernel());
    assert_eq!(points.len(), 25);
    assert_eq!(points[0], (s(3.0), s(0.0)));
    assert!((f(points[12].0) - 1.0).abs() < 1e-12);
    assert!((f(points[12].1) - 2.0).abs() < 1e-12);
    assert!((f(points[24].0) + 1.0).abs() < 1e-12);
}

#[test]
fn a_clockwise_polygon_has_a_negative_area() {
    let k = kernel();
    let polygon = vec![(s(0.0), s(0.0)), (s(0.0), s(3.0)), (s(4.0), s(0.0))];
    assert_eq!(shoelace(&polygon, &k), s(-6.0));
    let third = interior_point(&polygon, None, &k);
    assert_eq!(third, Some((s(4.0 / 3.0), s(1.0))));
}

#[test]
fn a_notched_loop_still_has_a_point_inside() {
    let k = kernel();
    let corners = [
        (0.0, 0.0),
        (10.0, 0.0),
        (10.0, 10.0),
        (9.0, 10.0),
        (9.0, 1.0),
        (1.0, 1.0),
        (1.0, 10.0),
        (0.0, 10.0),
    ];
    let names = ["l0", "l1", "l2", "l3", "l4", "l5", "l6", "l7"];
    let entities: Vec<SketchEntity> =
        (0..8).map(|i| line(names[i], corners[i], corners[(i + 1) % 8])).collect();
    let arrangement =
        Arrangement::build(&sketch(vec![names.to_vec()]), &Catalog::new(&entities), &k).unwrap();
    let ring = &arrangement.rings[0];
    assert_eq!(ring.interior, (s(4.5), s(0.5)));
    assert!(ring.contains(ring.interior, &k));
    assert!(!ring.contains((s(5.0), s(5.25)), &k));
}

#[test]
fn a_loop_that_encloses_nothing_is_refused() {
    let k = kernel();
    let flat = vec![(s(0.0), s(0.0)), (s(1.0), s(0.0)), (s(2.0), s(0.0))];
    assert_eq!(interior_point(&flat, None, &k), None);
    let entities = vec![circle("dot", 1.0, 1.0, 0.0)];
    assert!(
        Arrangement::build(&sketch(vec![vec!["dot"]]), &Catalog::new(&entities), &k).is_none()
    );
}

// ---------------------------------------------------------------------------
// crossing loops
// ---------------------------------------------------------------------------

fn arranged(loops: Vec<Vec<&str>>, entities: Vec<SketchEntity>) -> bool {
    Arrangement::build(&sketch(loops), &Catalog::new(&entities), &kernel()).is_some()
}

fn rectangle(name: &str, low: (f64, f64), high: (f64, f64)) -> Vec<SketchEntity> {
    let corners = [low, (high.0, low.1), high, (low.0, high.1)];
    (0..4).map(|i| line(&format!("{name}{i}"), corners[i], corners[(i + 1) % 4])).collect()
}

#[test]
fn circles_that_cross_are_refused() {
    let two = |apart: f64, radius: f64| {
        let entities = vec![circle("c0", 0.0, 0.0, 2.0), circle("c1", apart, 0.0, radius)];
        arranged(vec![vec!["c0"], vec!["c1"]], entities)
    };
    assert!(!two(3.0, 2.0));
    assert!(!two(1.5, 1.0));
    assert!(two(5.0, 2.0));
    assert!(two(0.5, 1.0));
    // Touching is not crossing.
    assert!(two(4.0, 2.0));
    assert!(two(1.0, 1.0));
}

#[test]
fn polygons_that_cross_are_refused() {
    let pair = |low: (f64, f64), high: (f64, f64)| {
        let mut entities = rectangle("a", (0.0, 0.0), (4.0, 4.0));
        entities.extend(rectangle("b", low, high));
        arranged(vec![vec!["a0", "a1", "a2", "a3"], vec!["b0", "b1", "b2", "b3"]], entities)
    };
    assert!(!pair((2.0, 2.0), (6.0, 6.0)));
    assert!(!pair((1.0, -1.0), (3.0, 5.0)));
    assert!(pair((1.0, 1.0), (3.0, 3.0)));
    assert!(pair((5.0, 0.0), (6.0, 1.0)));
    // A shared side is no crossing.
    assert!(pair((4.0, 0.0), (8.0, 4.0)));
    // Neither is a loop in a corner of the other.
    assert!(pair((0.0, 0.0), (2.0, 2.0)));
}

#[test]
fn loops_that_cross_in_their_corners_are_refused() {
    let mut entities = rectangle("a", (0.0, 0.0), (2.0, 2.0));
    entities.push(line("d0", (-1.0, -1.0), (3.0, 3.0)));
    entities.push(line("d1", (3.0, 3.0), (-1.0, 3.0)));
    entities.push(line("d2", (-1.0, 3.0), (-1.0, -1.0)));
    assert!(!arranged(vec![vec!["a0", "a1", "a2", "a3"], vec!["d0", "d1", "d2"]], entities));
}

#[test]
fn a_circle_across_a_polygon_is_refused() {
    let with_circle = |u: f64, radius: f64| {
        let mut entities = rectangle("a", (0.0, 0.0), (4.0, 4.0));
        entities.push(circle("c", u, 2.0, radius));
        arranged(vec![vec!["a0", "a1", "a2", "a3"], vec!["c"]], entities)
    };
    assert!(!with_circle(4.0, 1.0));
    assert!(with_circle(2.0, 1.0));
    assert!(with_circle(2.0, 2.0));
    assert!(with_circle(7.0, 1.0));
    assert!(with_circle(2.0, 9.0));
}

fn arc(id: &str, center: (f64, f64), radius: f64, from: f64, to: f64) -> SketchEntity {
    SketchEntity {
        id: id.to_owned(),
        geometry: SketchGeometry::Arc {
            center: (s(center.0), s(center.1)),
            radius: s(radius),
            start_angle: s(from),
            end_angle: s(to),
        },
    }
}

/// A slot of half width two between (0, 0) and (4, 0), with round ends.
fn slot() -> Vec<SketchEntity> {
    let quarter = std::f64::consts::FRAC_PI_2;
    vec![
        line("top", (0.0, 2.0), (4.0, 2.0)),
        arc("right", (4.0, 0.0), 2.0, -quarter, quarter),
        line("bottom", (4.0, -2.0), (0.0, -2.0)),
        arc("left", (0.0, 0.0), 2.0, quarter, 3.0 * quarter),
    ]
}

#[test]
fn a_slot_holds_a_hole_however_it_is_listed() {
    let k = kernel();
    let clockwise = vec!["top", "right", "bottom", "left"];
    let counter = vec!["bottom", "right", "top", "left"];
    for order in [clockwise, counter] {
        let with_pin = |u: f64, radius: f64| {
            let mut entities = slot();
            entities.push(circle("pin", u, 0.0, radius));
            let loops = vec![order.clone(), vec!["pin"]];
            Arrangement::build(&sketch(loops), &Catalog::new(&entities), &k)
        };
        let arrangement = with_pin(4.0, 1.0).unwrap();
        assert_eq!(arrangement.regions[0].outer, 0);
        assert_eq!(arrangement.regions[0].holes, vec![1]);
        assert!(arrangement.regions[1].holes.is_empty());
        // A pin that fills the round end, or spans the slot, touches it.
        assert!(with_pin(4.0, 2.0).is_some());
        assert!(with_pin(2.0, 2.0).is_some());
        assert!(with_pin(5.0, 1.0).is_some());
        assert!(with_pin(9.0, 1.0).is_some());
        // One that is wider, or sits across the end, crosses it.
        assert!(with_pin(4.0, 2.01).is_none());
        assert!(with_pin(2.0, 2.01).is_none());
        assert!(with_pin(5.5, 1.0).is_none());
    }
}

#[test]
fn arcs_are_taken_for_what_they_are() {
    let half = std::f64::consts::PI;
    let ring_and = |u: f64, radius: f64| {
        let entities = vec![
            arc("upper", (0.0, 0.0), 10.0, 0.0, half),
            arc("lower", (0.0, 0.0), 10.0, half, 2.0 * half),
            circle("c", u, 0.0, radius),
        ];
        arranged(vec![vec!["upper", "lower"], vec!["c"]], entities)
    };
    assert!(ring_and(0.0, 9.99));
    assert!(ring_and(0.0, 9.9999));
    assert!(ring_and(0.0, 10.0));
    assert!(ring_and(0.0, 10.01));
    assert!(ring_and(3.0, 7.0));
    assert!(!ring_and(0.02, 9.99));
    assert!(!ring_and(3.0, 7.01));
    // The order in which the arcs of a loop are listed does not matter.
    let third = 2.0 * half / 3.0;
    let listed = |order: Vec<&str>, radius: f64, u: f64| {
        let entities = vec![
            arc("a", (0.0, 0.0), 10.0, 0.0, third),
            arc("b", (0.0, 0.0), 10.0, third, 2.0 * third),
            arc("c", (0.0, 0.0), 10.0, 2.0 * third, 3.0 * third),
            circle("d", u, 0.0, radius),
        ];
        arranged(vec![order, vec!["d"]], entities)
    };
    for order in [vec!["a", "b", "c"], vec!["a", "c", "b"]] {
        assert!(listed(order.clone(), 5.0, 0.0));
        assert!(listed(order.clone(), 9.99, 0.0));
        assert!(!listed(order.clone(), 5.0, 7.0));
    }
}

#[test]
fn arc_loops_that_cross_are_refused() {
    let quarter = std::f64::consts::FRAC_PI_2;
    let moved = |u: f64, v: f64| {
        let mut entities = slot();
        entities.extend(vec![
            line("t", (u, v + 2.0), (u + 4.0, v + 2.0)),
            arc("r", (u + 4.0, v), 2.0, -quarter, quarter),
            line("b", (u + 4.0, v - 2.0), (u, v - 2.0)),
            arc("l", (u, v), 2.0, quarter, 3.0 * quarter),
        ]);
        let loops = vec![vec!["top", "right", "bottom", "left"], vec!["t", "r", "b", "l"]];
        arranged(loops, entities)
    };
    assert!(!moved(1.0, 1.0));
    assert!(!moved(3.0, 0.0));
    assert!(!moved(0.0, 1.0));
    assert!(!moved(7.9, 0.0));
    assert!(moved(0.0, 0.0));
    assert!(moved(8.0, 0.0));
    assert!(moved(0.0, 4.0));
    assert!(moved(20.0, 3.0));
}

/// Three circles about one point and one beside them, all in one.
fn nested() -> Arrangement {
    let entities = vec![
        circle("out", 0.0, 0.0, 20.0),
        circle("mid", 0.0, 0.0, 8.0),
        circle("in", 0.0, 0.0, 2.0),
        circle("beside", 13.0, 0.0, 3.5),
    ];
    let loops = vec![vec!["in"], vec!["out"], vec!["mid"], vec!["beside"]];
    Arrangement::build(&sketch(loops), &Catalog::new(&entities), &kernel()).unwrap()
}

#[test]
fn each_loop_lies_in_the_tightest_one_around_it() {
    let arrangement = nested();
    let holes: Vec<Vec<usize>> = arrangement.regions.iter().map(|r| r.holes.clone()).collect();
    assert_eq!(holes, vec![vec![], vec![2, 3], vec![0], vec![]]);
    let outer: Vec<usize> = arrangement.regions.iter().map(|r| r.outer).collect();
    assert_eq!(outer, vec![0, 1, 2, 3]);
}

#[test]
fn every_nested_loop_is_reached_once() {
    let arrangement = nested();
    let outers = |regions: Vec<Region>| -> Vec<usize> {
        regions.into_iter().map(|region| region.outer).collect()
    };
    assert_eq!(outers(arrangement.regions_within(1)), vec![1, 3, 2, 0]);
    assert_eq!(outers(arrangement.regions_within(2)), vec![2, 0]);
    assert_eq!(outers(arrangement.regions_within(3)), vec![3]);
}

#[test]
fn a_sample_is_clear_of_holes() {
    let arrangement = nested();
    let k = kernel();
    assert_eq!(arrangement.sample(&arrangement.regions[0], &k), Some((s(0.0), s(0.0))));
    let (u, w) = arrangement.sample(&arrangement.regions[2], &k).unwrap();
    assert_eq!((f(u), f(w)), (4.0, 0.0));
    // The first half-way point lies in the loop beside, so a later one is taken.
    let clear = arrangement.sample(&arrangement.regions[1], &k).unwrap();
    assert!(arrangement.rings[1].contains(clear, &k));
    assert!(!arrangement.rings[2].contains(clear, &k));
    assert!(!arrangement.rings[3].contains(clear, &k));
    assert_ne!(clear, (s(10.0), s(0.0)));
}

#[test]
fn a_thin_region_is_sampled_near_its_boundary() {
    let k = kernel();
    let entities = vec![circle("out", 0.0, 0.0, 10.0), circle("in", 0.0, 0.0, 6.0)];
    let loops = vec![vec!["out"], vec!["in"]];
    let arrangement =
        Arrangement::build(&sketch(loops), &Catalog::new(&entities), &k).unwrap();
    let (u, w) = arrangement.sample(&arrangement.regions[0], &k).unwrap();
    assert_eq!((f(u), f(w)), (7.5, 0.0));
    assert!(arrangement.rings[0].contains((u, w), &k));
    assert!(!arrangement.rings[1].contains((u, w), &k));
    // A region that a hole fills has no point.
    let filled = Region { outer: 0, holes: vec![0] };
    assert_eq!(arrangement.sample(&filled, &k), None);
}

// ---------------------------------------------------------------------------
// profile references
// ---------------------------------------------------------------------------

fn arrangements() -> StringHashMap<Arrangement> {
    let mut all = StringHashMap::new();
    all.insert("s".to_owned(), nested());
    all
}

fn read(profile: ProfileRef) -> Result<Vec<(usize, Vec<usize>)>, String> {
    match resolve_profile(&profile, &arrangements()) {
        Ok(resolved) => {
            assert!(resolved.inference.is_none());
            Ok(resolved.regions.into_iter().map(|r| (r.outer, r.holes)).collect())
        }
        Err(reason) => Err(reason),
    }
}

#[test]
fn a_whole_sketch_is_read_through() {
    assert_eq!(
        read(ProfileRef::Sketch("s".to_owned())),
        Ok(vec![(0, vec![]), (1, vec![2, 3]), (2, vec![0]), (3, vec![])])
    );
    assert_eq!(
        read(ProfileRef::Sketch("t".to_owned())),
        Err("sketch t has no usable planar arrangement".to_owned())
    );
}

#[test]
fn listed_profiles_are_read_through() {
    let sketch = "s".to_owned();
    assert_eq!(
        read(ProfileRef::SketchProfiles { sketch, profiles: vec![2, 9, 0] }),
        Ok(vec![(2, vec![0]), (0, vec![])])
    );
}

#[test]
fn listed_regions_are_read_unless_trimmed() {
    let loops = || SketchProfileRegion::Loops { outer: 7, holes: vec![1, 2] };
    assert_eq!(
        read(ProfileRef::SketchRegions { sketch: "any".to_owned(), regions: vec![loops()] }),
        Ok(vec![(7, vec![1, 2])])
    );
    assert_eq!(
        read(ProfileRef::SketchRegions {
            sketch: "s".to_owned(),
            regions: vec![loops(), SketchProfileRegion::Trimmed],
        }),
        Err(
            "the trimmed-boundary region form needs curve splitting this encoder does not perform"
                .to_owned()
        )
    );
}

#[test]
fn selected_entities_name_their_loops() {
    let entities = vec!["mid".to_owned(), "beside".to_owned(), "nowhere".to_owned()];
    assert_eq!(
        read(ProfileRef::SketchEntities { sketch: "s".to_owned(), entities }),
        Ok(vec![(2, vec![0]), (3, vec![])])
    );
    assert_eq!(
        read(ProfileRef::SketchEntities { sketch: "s".to_owned(), entities: vec![] }),
        Err("the selected sketch entities close no profile loop".to_owned())
    );
}

#[test]
fn a_native_selection_is_never_read() {
    assert_eq!(
        read(ProfileRef::SketchSelection { sketch: "s".to_owned() }),
        Err("profile is a native selection in sketch s; it needs inference".to_owned())
    );
    assert_eq!(
        read(ProfileRef::Other { description: "Faces".to_owned() }),
        Err("unsupported profile reference: Faces".to_owned())
    );
}

#[test]
fn a_cut_covers_what_it_sweeps() {
    let k = kernel();
    let frame = SketchFrame::new(v(0.0, 0.0, 0.0), v(0.0, 0.0, 1.0), v(1.0, 0.0, 0.0), &k);
    let ring = nested().rings[2].duplicate();
    let cuts = vec![CutVolume { frame, span: (s(0.0), s(5.0)), ring }];
    assert!(cuts_cover(&cuts, v(7.0, 0.0, 2.0), &k));
    assert!(!cuts_cover(&cuts, v(9.0, 0.0, 2.0), &k));
    assert!(!cuts_cover(&cuts, v(7.0, 0.0, 6.0), &k));
    assert!(cuts_cover(&cuts, v(7.0, 0.0, 5.0), &k));
    assert!(!cuts_cover(&vec![], v(7.0, 0.0, 2.0), &k));
}

// ---------------------------------------------------------------------------
// attribution
// ---------------------------------------------------------------------------

fn candidate(cost: f64, ring: usize, surface: usize) -> Candidate {
    Candidate { cost: s(cost), ring, surface }
}

fn solve(options: Vec<Vec<Candidate>>) -> Option<(Scalar, Vec<Option<usize>>)> {
    let mut best = None;
    let mut used = vec![];
    let mut current = vec![];
    search(&options, 0, &mut used, &mut current, s(0.0), &mut best, &kernel());
    assert!(used.is_empty() && current.is_empty());
    best
}

#[test]
fn a_shallow_cut_leaves_the_carrier_a_deeper_extrude_needs() {
    let shallow = vec![candidate(0.0, 0, 7), candidate(1.0, 1, 8)];
    let deep = vec![candidate(2.0, 3, 7)];
    assert_eq!(solve(vec![shallow, deep]), Some((s(3.0), vec![Some(1), Some(3)])));
}

#[test]
fn a_feature_without_a_free_carrier_is_left_out() {
    let first = vec![candidate(0.5, 0, 7)];
    let second = vec![candidate(0.0, 1, 7)];
    assert_eq!(solve(vec![first, second]), Some((s(1_000_000.5), vec![Some(0), None])));
    assert_eq!(solve(vec![]), Some((s(0.0), vec![])));
}

#[test]
fn of_equal_assignments_the_first_is_kept() {
    let options = vec![candidate(1.0, 4, 1), candidate(1.0, 5, 2)];
    assert_eq!(solve(vec![options]), Some((s(1.0), vec![Some(4)])));
}
