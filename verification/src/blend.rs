//! Recovery of the edges a blend replaced.

use crate::arena;
use crate::ir::{Face, Model, SurfaceFrame, SurfaceGeometry, SurfaceShape};
use crate::kernel::{Arithmetic, Kernel, ScalarOp, Vec3};
use crate::meridian;
use crate::scalar::{Scalar, TWO};
use crate::topo;
use crate::topo::Topology;
use vstd::prelude::*;

verus! {

/// Slack on a blend radius and on the reach of a blend, 1e-6.
pub const BLEND_TOLERANCE: u64 = 0x3eb0_c6f7_a0b5_ed8d;

/// A circle in model space: the pre-blend edge a fillet consumed.
#[derive(Clone, Copy, PartialEq, Eq, Structural, Debug)]
pub struct EdgeCircle {
    pub center: Vec3,
    pub radius: Scalar,
}

/// One circle, or none.
pub open spec fn at_most_one(circle: Option<EdgeCircle>) -> Seq<EdgeCircle> {
    match circle {
        Some(c) => seq![c],
        None => Seq::empty(),
    }
}

/// The circle in which a cylinder or cone meets a plane across its axis.
pub open spec fn corner(m: Arithmetic, revolved: SurfaceGeometry, plane: SurfaceGeometry) -> Option<
    EdgeCircle,
> {
    match (revolved.frame, plane.frame) {
        (Some(own), Some(flat)) => if plane.shape is Plane {
            let station = m.dot(m.difference(flat.origin, own.origin), own.axis);
            let center = m.sum(own.origin, m.scale(own.axis, station));
            match revolved.shape {
                SurfaceShape::Cylinder { radius } => Some(EdgeCircle { center, radius }),
                SurfaceShape::Cone { radius, half_angle } => Some(
                    EdgeCircle { center, radius: m.mul_add(station, m.tan(half_angle), radius) },
                ),
                _ => None,
            }
        } else {
            None
        },
        _ => None,
    }
}

/// The circle two analytic carriers share, for the pairs a blend can join.
pub open spec fn shared_circle(
    m: Arithmetic,
    first: SurfaceGeometry,
    second: SurfaceGeometry,
) -> Option<EdgeCircle> {
    match (first.frame, second.frame) {
        (Some(a), Some(b)) => if !m.is_parallel(a.axis, b.axis) {
            None
        } else if corner(m, first, second) is Some {
            corner(m, first, second)
        } else {
            corner(m, second, first)
        },
        _ => None,
    }
}

fn corner_circle<K: Kernel>(revolved: &SurfaceGeometry, plane: &SurfaceGeometry, kernel: &K) -> (r:
    Option<EdgeCircle>)
    ensures
        r == corner(kernel.model(), *revolved, *plane),
{
    match (revolved.frame, plane.frame) {
        (Some(own), Some(flat)) => {
            if !matches!(plane.shape, SurfaceShape::Plane) {
                return None;
            }
            let station = kernel.dot(kernel.difference(flat.origin, own.origin), own.axis);
            let radius = match revolved.shape {
                SurfaceShape::Cylinder { radius } => radius,
                SurfaceShape::Cone { radius, half_angle } => kernel.mul_add(
                    station,
                    kernel.scalar(ScalarOp::Tan(half_angle)),
                    radius,
                ),
                _ => {
                    return None;
                },
            };
            Some(EdgeCircle { center: kernel.sum(own.origin, kernel.scale(own.axis, station)), radius })
        },
        _ => None,
    }
}

/// Circles shared by two analytic carriers, for the pairs a blend can join.
pub fn intersect<K: Kernel>(first: &SurfaceGeometry, second: &SurfaceGeometry, kernel: &K) -> (r: Vec<
    EdgeCircle,
>)
    ensures
        r@ == at_most_one(shared_circle(kernel.model(), *first, *second)),
{
    let mut out: Vec<EdgeCircle> = Vec::new();
    let (own, other) = match (first.frame, second.frame) {
        (Some(own), Some(other)) => (own, other),
        _ => {
            return out;
        },
    };
    if !kernel.parallel(own.axis, other.axis) {
        return out;
    }
    // A cylinder or cone meeting a perpendicular plane gives one circle; this is
    // the pair every ordinary fillet sits on.
    match corner_circle(first, second, kernel) {
        Some(circle) => {
            out.push(circle);
        },
        None => match corner_circle(second, first, kernel) {
            Some(circle) => {
                out.push(circle);
            },
            None => {},
        },
    }
    assert(out@ =~= at_most_one(shared_circle(kernel.model(), *first, *second)));
    out
}

/// How far a circle lies from the centre circle of a torus tube.
pub open spec fn tube_distance(
    m: Arithmetic,
    circle: EdgeCircle,
    frame: SurfaceFrame,
    major_radius: Scalar,
) -> Scalar {
    m.hypot(
        m.dot(m.difference(circle.center, frame.origin), frame.axis),
        m.minus(circle.radius, major_radius),
    )
}

/// The distance within which a blend's sharp edge lies: one tube diameter.
pub open spec fn tube_reach(m: Arithmetic, minor_radius: Scalar) -> Scalar {
    m.mul_add(Scalar { bits: TWO }, minor_radius, Scalar { bits: BLEND_TOLERANCE })
}

/// The nearest of the first `n` circles within reach, the first among equals,
/// with its distance.
pub open spec fn nearest(
    m: Arithmetic,
    circles: Seq<EdgeCircle>,
    frame: SurfaceFrame,
    major_radius: Scalar,
    minor_radius: Scalar,
    n: int,
) -> Option<(Scalar, EdgeCircle)>
    decreases n,
{
    if n <= 0 {
        None
    } else {
        let rest = nearest(m, circles, frame, major_radius, minor_radius, n - 1);
        let distance = tube_distance(m, circles[n - 1], frame, major_radius);
        if tube_reach(m, minor_radius).below(distance) {
            rest
        } else {
            match rest {
                Some((current, _)) => if distance.below(current) {
                    Some((distance, circles[n - 1]))
                } else {
                    rest
                },
                None => Some((distance, circles[n - 1])),
            }
        }
    }
}

/// The sharp edge a blend replaced.
pub open spec fn sharp_edge(
    m: Arithmetic,
    circles: Seq<EdgeCircle>,
    geometry: SurfaceGeometry,
    major_radius: Scalar,
    minor_radius: Scalar,
) -> Option<EdgeCircle> {
    match geometry.frame {
        Some(frame) => match nearest(
            m,
            circles,
            frame,
            major_radius,
            minor_radius,
            circles.len() as int,
        ) {
            Some((_, circle)) => Some(circle),
            None => None,
        },
        None => None,
    }
}

/// The intersection circle a blend of this size actually replaced.
///
/// The sharp edge lies within one tube diameter of the tube's centre circle;
/// anything further away belongs to a different corner of the body.
pub fn pick_sharp_edge<K: Kernel>(
    circles: &Vec<EdgeCircle>,
    geometry: &SurfaceGeometry,
    major_radius: Scalar,
    minor_radius: Scalar,
    kernel: &K,
) -> (r: Option<EdgeCircle>)
    ensures
        r == sharp_edge(kernel.model(), circles@, *geometry, major_radius, minor_radius),
{
    let frame = match geometry.frame {
        Some(frame) => frame,
        None => {
            return None;
        },
    };
    let reach = kernel.mul_add(
        Scalar { bits: TWO },
        minor_radius,
        Scalar { bits: BLEND_TOLERANCE },
    );
    let mut best: Option<(Scalar, EdgeCircle)> = None;
    let mut i: usize = 0;
    while i < circles.len()
        invariant
            i <= circles@.len(),
            reach == tube_reach(kernel.model(), minor_radius),
            best == nearest(
                kernel.model(),
                circles@,
                frame,
                major_radius,
                minor_radius,
                i as int,
            ),
        decreases circles@.len() - i,
    {
        let circle = circles[i];
        let station = kernel.dot(kernel.difference(circle.center, frame.origin), frame.axis);
        let distance = kernel.scalar(
            ScalarOp::Hypot(station, kernel.minus(circle.radius, major_radius)),
        );
        if !reach.lt(distance) {
            let nearer = match best {
                Some((current, _)) => distance.lt(current),
                None => true,
            };
            if nearer {
                best = Some((distance, circle));
            }
        }
        i += 1;
    }
    match best {
        Some((_, circle)) => Some(circle),
        None => None,
    }
}

/// The carriers of the first `n` named faces; a face or carrier that is missing
/// is passed over.
pub open spec fn supports(model: Model, names: Seq<Seq<char>>, n: int) -> Seq<SurfaceGeometry>
    decreases n,
{
    if n <= 0 {
        Seq::empty()
    } else {
        let rest = supports(model, names, n - 1);
        match arena::lookup(model.faces@, names[n - 1]) {
            Some(face) => match meridian::carrier(model, face) {
                Some(geometry) => rest.push(geometry),
                None => rest,
            },
            None => rest,
        }
    }
}

/// The carriers across the boundary of a face.
pub open spec fn support_carriers(model: Model, face: Face) -> Seq<SurfaceGeometry> {
    let names = topo::neighbours(model, face.id@);
    supports(model, names, names.len() as int)
}

/// The circles a carrier shares with those between it and place `n`.
pub open spec fn circles_with(
    m: Arithmetic,
    carriers: Seq<SurfaceGeometry>,
    first: int,
    n: int,
) -> Seq<EdgeCircle>
    decreases n - first,
{
    if n <= first + 1 {
        Seq::empty()
    } else {
        circles_with(m, carriers, first, n - 1) + at_most_one(
            shared_circle(m, carriers[first], carriers[n - 1]),
        )
    }
}

/// The circles each of the first `n` carriers shares with a later one.
pub open spec fn circles_among(m: Arithmetic, carriers: Seq<SurfaceGeometry>, n: int) -> Seq<
    EdgeCircle,
>
    decreases n,
{
    if n <= 0 {
        Seq::empty()
    } else {
        circles_among(m, carriers, n - 1) + circles_with(
            m,
            carriers,
            n - 1,
            carriers.len() as int,
        )
    }
}

/// The circles shared by two carriers across the boundary of a face.
pub open spec fn support_circles(m: Arithmetic, model: Model, face: Face) -> Seq<EdgeCircle> {
    let carriers = support_carriers(model, face);
    circles_among(m, carriers, carriers.len() as int)
}

/// The edge a face replaced, if the face is a blend of a radius.
pub open spec fn replaced_edge(m: Arithmetic, model: Model, radius: Scalar, face: Face) -> Option<
    EdgeCircle,
> {
    match meridian::carrier(model, face) {
        Some(geometry) => match geometry.shape {
            SurfaceShape::Torus { major_radius, minor_radius } => if (Scalar {
                bits: BLEND_TOLERANCE,
            }).below(m.minus(minor_radius.unsigned(), radius).unsigned()) {
                None
            } else {
                sharp_edge(
                    m,
                    support_circles(m, model, face),
                    geometry,
                    major_radius,
                    minor_radius.unsigned(),
                )
            },
            _ => None,
        },
        None => None,
    }
}

/// The edges the blends of a radius among the first `n` faces replaced.
pub open spec fn replaced_edges(m: Arithmetic, model: Model, radius: Scalar, n: int) -> Seq<
    EdgeCircle,
>
    decreases n,
{
    if n <= 0 {
        Seq::empty()
    } else {
        replaced_edges(m, model, radius, n - 1) + at_most_one(
            replaced_edge(m, model, radius, model.faces@[n - 1]),
        )
    }
}

fn support_geometries(topo: &Topology, face: &Face) -> (r: Vec<SurfaceGeometry>)
    ensures
        r@ == support_carriers(topo.model(), *face),
{
    let names = topo.neighbours(face.id.as_str());
    let ghost views = topo::neighbours(topo.model(), face.id@);
    assert(views.len() == names@.len());
    let mut out: Vec<SurfaceGeometry> = Vec::new();
    let mut i: usize = 0;
    while i < names.len()
        invariant
            i <= names@.len(),
            views == names@.map_values(|name: String| name@),
            out@ == supports(topo.model(), views, i as int),
        decreases names@.len() - i,
    {
        assert(views[i as int] == names@[i as int]@);
        // A neighbour is named by its face, so reaching its carrier needs the
        // face-to-surface hop as well.
        if let Some(neighbour) = topo.face(names[i].as_str()) {
            if let Some(surface) = topo.surface(neighbour.surface.as_str()) {
                out.push(surface.geometry);
            }
        }
        i += 1;
    }
    out
}

fn shared_circles<K: Kernel>(carriers: &Vec<SurfaceGeometry>, kernel: &K) -> (r: Vec<EdgeCircle>)
    ensures
        r@ == circles_among(kernel.model(), carriers@, carriers@.len() as int),
{
    let mut circles: Vec<EdgeCircle> = Vec::new();
    let mut first: usize = 0;
    while first < carriers.len()
        invariant
            first <= carriers@.len(),
            circles@ == circles_among(kernel.model(), carriers@, first as int),
        decreases carriers@.len() - first,
    {
        let ghost before = circles@;
        let mut second: usize = first + 1;
        while second < carriers.len()
            invariant
                first < second <= carriers@.len(),
                circles@ == before + circles_with(
                    kernel.model(),
                    carriers@,
                    first as int,
                    second as int,
                ),
            decreases carriers@.len() - second,
        {
            let ghost row = circles_with(
                kernel.model(),
                carriers@,
                first as int,
                second as int,
            );
            let mut found = intersect(&carriers[first], &carriers[second], kernel);
            let ghost added = found@;
            circles.append(&mut found);
            assert((before + row) + added =~= before + (row + added));
            second += 1;
        }
        first += 1;
    }
    circles
}

/// Recovers the sharp edges a blend replaced.
///
/// A blend face is bounded by exactly the two faces it was tangent to, so the
/// edge it replaced is the intersection of those two support carriers. That is
/// closed-form for every analytic pair a blend can join, and it needs no
/// historical identity - which is what makes it usable here, since the identity
/// is exactly what was left open.
pub fn blend_edges<K: Kernel>(topo: &Topology, radius: Scalar, kernel: &K) -> (r: Vec<EdgeCircle>)
    ensures
        r@ == replaced_edges(
            kernel.model(),
            topo.model(),
            radius,
            topo.model().faces@.len() as int,
        ),
{
    let ghost m = kernel.model();
    let ghost model = topo.model();
    let faces = topo.faces();
    let tolerance = Scalar { bits: BLEND_TOLERANCE };
    let mut out: Vec<EdgeCircle> = Vec::new();
    let mut i: usize = 0;
    while i < faces.len()
        invariant
            i <= faces@.len(),
            m == kernel.model(),
            model == topo.model(),
            faces@ == model.faces@,
            tolerance == (Scalar { bits: BLEND_TOLERANCE }),
            out@ == replaced_edges(m, model, radius, i as int),
        decreases faces@.len() - i,
    {
        let face = &faces[i];
        let ghost before = out@;
        if let Some(surface) = topo.surface(face.surface.as_str()) {
            if let SurfaceShape::Torus { major_radius, minor_radius } = surface.geometry.shape {
                if !tolerance.lt(kernel.minus(minor_radius.abs(), radius).abs()) {
                    let carriers = support_geometries(topo, face);
                    let circles = shared_circles(&carriers, kernel);
                    if let Some(edge) = pick_sharp_edge(
                        &circles,
                        &surface.geometry,
                        major_radius,
                        minor_radius.abs(),
                        kernel,
                    ) {
                        out.push(edge);
                    }
                }
            }
        }
        assert(out@ =~= before + at_most_one(
            replaced_edge(m, model, radius, model.faces@[i as int]),
        ));
        i += 1;
    }
    out
}

// ---------------------------------------------------------------------------
// laws of recovery
// ---------------------------------------------------------------------------

/// Whether a carrier is a cylinder or a cone.
pub open spec fn is_straight(geometry: SurfaceGeometry) -> bool {
    geometry.shape is Cylinder || geometry.shape is Cone
}

/// The radius of a cylinder or cone at a height above its own origin.
pub open spec fn radius_at(m: Arithmetic, geometry: SurfaceGeometry, height: Scalar) -> Scalar {
    match geometry.shape {
        SurfaceShape::Cylinder { radius } => radius,
        SurfaceShape::Cone { radius, half_angle } => m.mul_add(height, m.tan(half_angle), radius),
        _ => height,
    }
}

/// Two carriers share at most one circle, and the same one whichever is named
/// first. They share one exactly if they are parallel, one is a plane and the
/// other a cylinder or cone. The circle is centred on the axis of the revolved
/// carrier, at the height of the plane above that carrier's origin, and has the
/// carrier's radius there.
pub proof fn circles_are_where_a_plane_cuts(
    m: Arithmetic,
    first: SurfaceGeometry,
    second: SurfaceGeometry,
)
    ensures
        shared_circle(m, first, second) == shared_circle(m, second, first),
        at_most_one(shared_circle(m, first, second)).len() <= 1,
        shared_circle(m, first, second) is Some <==> {
            &&& first.frame matches Some(a) && second.frame matches Some(b) && m.is_parallel(
                a.axis,
                b.axis,
            )
            &&& (first.shape is Plane && is_straight(second)) || (second.shape is Plane
                && is_straight(first))
        },
        shared_circle(m, first, second) matches Some(circle) ==> {
            let (revolved, plane) = if second.shape is Plane {
                (first, second)
            } else {
                (second, first)
            };
            let own = revolved.frame->0;
            let height = m.dot(m.difference(plane.frame->0.origin, own.origin), own.axis);
            &&& circle.center == m.sum(own.origin, m.scale(own.axis, height))
            &&& circle.radius == radius_at(m, revolved, height)
        },
{
}

/// The nearest circle is one of the circles, within reach, and none within
/// reach is nearer.
pub proof fn nearest_is_nearest(
    m: Arithmetic,
    circles: Seq<EdgeCircle>,
    frame: SurfaceFrame,
    major_radius: Scalar,
    minor_radius: Scalar,
    n: int,
)
    requires
        0 <= n <= circles.len(),
    ensures
        match nearest(m, circles, frame, major_radius, minor_radius, n) {
            Some((distance, circle)) => {
                &&& exists|i: int| 0 <= i < n && #[trigger] circles[i] == circle
                &&& distance == tube_distance(m, circle, frame, major_radius)
                &&& !tube_reach(m, minor_radius).below(distance)
                &&& forall|i: int|
                    0 <= i < n && !tube_reach(m, minor_radius).below(
                        tube_distance(m, #[trigger] circles[i], frame, major_radius),
                    ) && !distance.nan() ==> !tube_distance(
                        m,
                        circles[i],
                        frame,
                        major_radius,
                    ).below(distance)
            },
            None => forall|i: int|
                0 <= i < n ==> tube_reach(m, minor_radius).below(
                    tube_distance(m, #[trigger] circles[i], frame, major_radius),
                ),
        },
    decreases n,
{
    if n > 0 {
        nearest_is_nearest(m, circles, frame, major_radius, minor_radius, n - 1);
        assert(circles[n - 1] == circles[n - 1]);
    }
}

proof fn circles_with_come_from_pairs(
    m: Arithmetic,
    carriers: Seq<SurfaceGeometry>,
    first: int,
    n: int,
)
    requires
        0 <= first < carriers.len(),
        n <= carriers.len(),
    ensures
        forall|k: int| #![trigger circles_with(m, carriers, first, n)[k]]
            0 <= k < circles_with(m, carriers, first, n).len() ==> exists|b: int|
                first < b < n && #[trigger] shared_circle(m, carriers[first], carriers[b]) == Some(
                    circles_with(m, carriers, first, n)[k],
                ),
    decreases n,
{
    if n > first + 1 {
        circles_with_come_from_pairs(m, carriers, first, n - 1);
        let rest = circles_with(m, carriers, first, n - 1);
        let now = circles_with(m, carriers, first, n);
        assert forall|k: int| #![trigger now[k]] 0 <= k < now.len() implies exists|b: int|
            first < b < n && #[trigger] shared_circle(m, carriers[first], carriers[b]) == Some(
                now[k],
            ) by {
            if k < rest.len() {
                assert(now[k] == rest[k]);
            } else {
                assert(shared_circle(m, carriers[first], carriers[n - 1]) == Some(now[k]));
            }
        }
    }
}

/// Whether a circle is shared by two carriers at different places.
pub open spec fn from_a_pair(
    m: Arithmetic,
    carriers: Seq<SurfaceGeometry>,
    circle: EdgeCircle,
) -> bool {
    exists|a: int, b: int|
        0 <= a < b < carriers.len() && #[trigger] shared_circle(m, carriers[a], carriers[b])
            == Some(circle)
}

proof fn circles_come_from_pairs(m: Arithmetic, carriers: Seq<SurfaceGeometry>, n: int)
    requires
        0 <= n <= carriers.len(),
    ensures
        forall|k: int| #![trigger circles_among(m, carriers, n)[k]]
            0 <= k < circles_among(m, carriers, n).len() ==> from_a_pair(
                m,
                carriers,
                circles_among(m, carriers, n)[k],
            ),
    decreases n,
{
    if n > 0 {
        circles_come_from_pairs(m, carriers, n - 1);
        circles_with_come_from_pairs(m, carriers, n - 1, carriers.len() as int);
        let rest = circles_among(m, carriers, n - 1);
        let row = circles_with(m, carriers, n - 1, carriers.len() as int);
        let now = circles_among(m, carriers, n);
        assert forall|k: int| #![trigger now[k]] 0 <= k < now.len() implies from_a_pair(
            m,
            carriers,
            now[k],
        ) by {
            if k < rest.len() {
                assert(now[k] == rest[k]);
            } else {
                assert(now[k] == row[k - rest.len()]);
                let b = choose|b: int|
                    n - 1 < b < carriers.len() && #[trigger] shared_circle(
                        m,
                        carriers[n - 1],
                        carriers[b],
                    ) == Some(row[k - rest.len()]);
                assert(shared_circle(m, carriers[n - 1], carriers[b]) == Some(now[k]));
            }
        }
    }
}

/// The edge a blend face replaced is shared by two of the carriers across the
/// face's boundary, and lies within one tube diameter of the tube.
pub proof fn replaced_edge_joins_supports(
    m: Arithmetic,
    model: Model,
    radius: Scalar,
    face: Face,
)
    ensures
        replaced_edge(m, model, radius, face) matches Some(edge) ==> {
            &&& from_a_pair(m, support_carriers(model, face), edge)
            &&& meridian::carrier(model, face) matches Some(geometry)
                && geometry.frame matches Some(frame)
                && geometry.shape matches SurfaceShape::Torus { major_radius, minor_radius }
                && !tube_reach(m, minor_radius.unsigned()).below(
                tube_distance(m, edge, frame, major_radius),
            )
        },
{
    if let Some(edge) = replaced_edge(m, model, radius, face) {
        let geometry = meridian::carrier(model, face)->0;
        let frame = geometry.frame->0;
        let carriers = support_carriers(model, face);
        let circles = support_circles(m, model, face);
        match geometry.shape {
            SurfaceShape::Torus { major_radius, minor_radius } => {
                nearest_is_nearest(
                    m,
                    circles,
                    frame,
                    major_radius,
                    minor_radius.unsigned(),
                    circles.len() as int,
                );
                circles_come_from_pairs(m, carriers, carriers.len() as int);
                let i = choose|i: int| 0 <= i < circles.len() && #[trigger] circles[i] == edge;
                assert(from_a_pair(m, carriers, circles[i]));
            },
            _ => {},
        }
    }
}

} // verus!
