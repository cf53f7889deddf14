//! Solid-of-revolution classification.

use crate::arena;
use crate::ir::{Face, Model, SurfaceFrame, SurfaceGeometry, SurfaceShape};
use crate::kernel::{Arithmetic, Kernel, ScalarOp, Vec3, VectorOp};
use crate::scalar::{Scalar, INFINITY, NEG_INFINITY, ZERO};
use crate::topo;
use crate::topo::Topology;
use vstd::prelude::*;

verus! {

// ---------------------------------------------------------------------------
// the common axis
// ---------------------------------------------------------------------------

/// The geometry of the carrier a face is built on.
pub open spec fn carrier(model: Model, face: Face) -> Option<SurfaceGeometry> {
    match arena::lookup(model.surfaces@, face.surface@) {
        Some(surface) => Some(surface.geometry),
        None => None,
    }
}

/// The frame of the carrier a face is built on.
pub open spec fn face_frame(model: Model, face: Face) -> Option<SurfaceFrame> {
    match carrier(model, face) {
        Some(geometry) => geometry.frame,
        None => None,
    }
}

/// Whether a face is built on a carrier other than a plane.
pub open spec fn is_lateral(model: Model, face: Face) -> bool {
    carrier(model, face) matches Some(geometry) && !(geometry.shape is Plane)
}

/// The frame of the first lateral face among the first `n`.
pub open spec fn first_lateral(model: Model, n: int) -> Option<SurfaceFrame>
    decreases n,
{
    if n <= 0 {
        None
    } else {
        match first_lateral(model, n - 1) {
            Some(frame) => Some(frame),
            None => if is_lateral(model, model.faces@[n - 1]) {
                face_frame(model, model.faces@[n - 1])
            } else {
                None
            },
        }
    }
}

/// The frame that places a body's axis: that of its first lateral face.
pub open spec fn hub(model: Model) -> Option<SurfaceFrame> {
    first_lateral(model, model.faces@.len() as int)
}

/// How far a point lies from an axis.
pub open spec fn axis_distance(m: Arithmetic, origin: Vec3, axis: Vec3, point: Vec3) -> Scalar {
    m.length(m.reject(m.difference(point, origin), axis))
}

/// Whether a face shares a body's axis: its own direction is parallel, and a
/// lateral face also lies about the same line, up to the tolerance.
pub open spec fn shares_axis(
    m: Arithmetic,
    model: Model,
    face: Face,
    origin: Vec3,
    axis: Vec3,
) -> bool {
    face_frame(model, face) matches Some(own) && m.is_parallel(axis, own.axis) && (is_lateral(
        model,
        face,
    ) ==> axis_distance(m, origin, axis, own.origin).at_most(m.direction_tolerance))
}

/// Whether a body has a lateral face, and each of the first `n` faces shares the
/// axis of the first one.
pub open spec fn coaxial(m: Arithmetic, model: Model, n: int) -> bool {
    hub(model) matches Some(frame) && forall|i: int|
        0 <= i < n ==> shares_axis(
            m,
            model,
            #[trigger] model.faces@[i],
            frame.origin,
            frame.axis,
        )
}

// ---------------------------------------------------------------------------
// lateral faces
// ---------------------------------------------------------------------------

/// A lateral face: its carrier, the stations it spans along the common axis, and
/// how near to the axis and how far from it its solved edges reach.
#[derive(Clone, Copy, PartialEq, Eq, Structural, Debug)]
pub struct LateralFace {
    pub geometry: SurfaceGeometry,
    pub low: Scalar,
    pub high: Scalar,
    pub near: Scalar,
    pub far: Scalar,
}

/// The least and the greatest distance of the first `n` points from an axis.
pub open spec fn radial_reach(
    m: Arithmetic,
    points: Seq<Vec3>,
    origin: Vec3,
    axis: Vec3,
    n: int,
) -> (Scalar, Scalar)
    decreases n,
{
    if n <= 0 {
        (Scalar { bits: INFINITY }, Scalar { bits: NEG_INFINITY })
    } else {
        let rest = radial_reach(m, points, origin, axis, n - 1);
        let radius = axis_distance(m, origin, axis, points[n - 1]);
        (rest.0.lesser(radius), rest.1.greater(radius))
    }
}

/// The solved endpoints of a face's edges.
pub open spec fn face_points(model: Model, face: Face) -> Seq<Vec3> {
    let edges = topo::face_edges(model, face);
    topo::points_along(model, edges, edges.len() as int)
}

/// Whether a torus is covered on the side towards the axis.
pub open spec fn covers_inner(m: Arithmetic, major_radius: Scalar, near: Scalar) -> bool {
    m.plus(near, m.direction_tolerance).below(major_radius)
}

/// Whether a torus is covered on the side away from the axis.
pub open spec fn covers_outer(m: Arithmetic, major_radius: Scalar, far: Scalar) -> bool {
    m.plus(major_radius, m.direction_tolerance).below(far)
}

/// Whether the solved edges tell which part of its carrier a face covers: the
/// carrier is of a known family, and they lie at two heights, and on one side of
/// a torus only.
pub open spec fn is_told(m: Arithmetic, face: LateralFace) -> bool {
    &&& face.low.below(face.high)
    &&& match face.geometry.shape {
        SurfaceShape::Torus { major_radius, .. } => covers_inner(m, major_radius, face.near)
            != covers_outer(m, major_radius, face.far),
        SurfaceShape::Other => false,
        _ => true,
    }
}

/// A lateral face, if its solved edges tell what it covers.
pub open spec fn lateral_of(
    m: Arithmetic,
    model: Model,
    face: Face,
    origin: Vec3,
    axis: Vec3,
) -> Option<LateralFace> {
    match (carrier(model, face), topo::face_span(m, model, face.id@, axis)) {
        (Some(geometry), Some(span)) => {
            let points = face_points(model, face);
            let reach = radial_reach(m, points, origin, axis, points.len() as int);
            let lateral = LateralFace {
                geometry,
                low: span.0,
                high: span.1,
                near: reach.0,
                far: reach.1,
            };
            if is_told(m, lateral) {
                Some(lateral)
            } else {
                None
            }
        },
        _ => None,
    }
}

/// The lateral faces among the first `n`; `None` when it cannot be told what one
/// of them covers.
pub open spec fn lateral_faces(m: Arithmetic, model: Model, origin: Vec3, axis: Vec3, n: int) -> Option<
    Seq<LateralFace>,
>
    decreases n,
{
    if n <= 0 {
        Some(Seq::empty())
    } else {
        let face = model.faces@[n - 1];
        match lateral_faces(m, model, origin, axis, n - 1) {
            Some(rest) => if !is_lateral(model, face) {
                Some(rest)
            } else {
                match lateral_of(m, model, face, origin, axis) {
                    Some(lateral) => Some(rest.push(lateral)),
                    None => None,
                }
            },
            None => None,
        }
    }
}

// ---------------------------------------------------------------------------
// the classifier
// ---------------------------------------------------------------------------

/// What a [`Meridian`] holds.
#[verifier::ext_equal]
pub struct MeridianView {
    pub axis: Vec3,
    pub origin: Vec3,
    pub lateral: Seq<LateralFace>,
}

/// The classifier of a solved body: there is one when some face is lateral, all
/// faces share an axis, and it can be told what every lateral face covers.
pub open spec fn meridian_of(m: Arithmetic, model: Model) -> Option<MeridianView> {
    let all = model.faces@.len() as int;
    if coaxial(m, model, all) {
        let frame = hub(model)->0;
        match lateral_faces(m, model, frame.origin, frame.axis, all) {
            Some(lateral) => Some(
                MeridianView { axis: frame.axis, origin: frame.origin, lateral },
            ),
            None => None,
        }
    } else {
        None
    }
}

/// The radii at which the covered part of a carrier's meridian sits a given way
/// along its axis, for edges that reach from `near` the axis to `far` from it.
pub open spec fn meridian_radii(
    m: Arithmetic,
    shape: SurfaceShape,
    near: Scalar,
    far: Scalar,
    local: Scalar,
) -> Seq<Scalar> {
    match shape {
        SurfaceShape::Cylinder { radius } => seq![radius],
        SurfaceShape::Cone { radius, half_angle } => seq![
            m.mul_add(local, m.tan(half_angle), radius),
        ],
        SurfaceShape::Sphere { radius } => {
            let squared = m.mul_add(radius, radius, m.times(local, local).negated());
            if (Scalar { bits: ZERO }).below(squared) {
                seq![m.sqrt(squared)]
            } else {
                Seq::empty()
            }
        },
        SurfaceShape::Torus { major_radius, minor_radius } => {
            let minor = minor_radius.unsigned();
            let squared = m.mul_add(minor, minor, m.times(local, local).negated());
            if (Scalar { bits: ZERO }).below(squared) {
                let offset = m.sqrt(squared);
                let inner = if covers_inner(m, major_radius, near) {
                    seq![m.minus(major_radius, offset)]
                } else {
                    Seq::empty()
                };
                if covers_outer(m, major_radius, far) {
                    inner.push(m.plus(major_radius, offset))
                } else {
                    inner
                }
            } else {
                Seq::empty()
            }
        },
        _ => Seq::empty(),
    }
}

/// How many of the first `n` values exceed a limit.
pub open spec fn exceeding(values: Seq<Scalar>, limit: Scalar, n: int) -> nat
    decreases n,
{
    if n <= 0 {
        0
    } else if limit.below(values[n - 1]) {
        exceeding(values, limit, n - 1) + 1
    } else {
        exceeding(values, limit, n - 1)
    }
}

/// How often the covered part of a lateral face's meridian lies outward of a
/// radius, at a station along the carrier's own axis.
pub open spec fn outward(m: Arithmetic, face: LateralFace, station: Scalar, radius: Scalar) -> nat {
    match face.geometry.frame {
        Some(frame) => {
            let local = m.minus(station, m.dot(frame.origin, frame.axis));
            let radii = meridian_radii(m, face.geometry.shape, face.near, face.far, local);
            exceeding(radii, m.plus(radius, m.direction_tolerance), radii.len() as int)
        },
        None => 0,
    }
}

/// The station of a point along the axis of a lateral face's own carrier.
pub open spec fn own_station(m: Arithmetic, face: LateralFace, point: Vec3) -> Scalar {
    match face.geometry.frame {
        Some(frame) => m.dot(point, frame.axis),
        None => Scalar { bits: ZERO },
    }
}

/// Whether a station lies in a span, up to the tolerance.
pub open spec fn in_span(m: Arithmetic, station: Scalar, low: Scalar, high: Scalar) -> bool {
    &&& !station.below(m.minus(low, m.direction_tolerance))
    &&& !m.plus(high, m.direction_tolerance).below(station)
}

/// Whether a station lies in a span, up to the tolerance.
pub fn is_in_span<K: Kernel>(station: Scalar, low: Scalar, high: Scalar, kernel: &K) -> (r: bool)
    ensures
        r == in_span(kernel.model(), station, low, high),
{
    let tolerance = kernel.direction_tolerance();
    !station.lt(kernel.minus(low, tolerance)) && !kernel.plus(high, tolerance).lt(station)
}

/// Whether one of some lateral faces begins at a station, up to the tolerance.
pub open spec fn continues_from(
    m: Arithmetic,
    lateral: Seq<LateralFace>,
    station: Scalar,
) -> bool {
    exists|k: int|
        0 <= k < lateral.len() && in_span(
            m,
            station,
            (#[trigger] lateral[k]).low,
            lateral[k].low,
        )
}

/// Whether a lateral face is met at a station. Where the body goes on from there
/// a face that ends there is not met, lest it count along with the one that
/// follows it.
pub open spec fn is_met(
    m: Arithmetic,
    face: LateralFace,
    station: Scalar,
    continued: bool,
) -> bool {
    in_span(m, station, face.low, face.high) && (continued ==> station.below(
        m.minus(face.high, m.direction_tolerance),
    ))
}

/// How often those of the first `n` lateral faces that are met at a station lie
/// outward of a point.
pub open spec fn outward_of(
    m: Arithmetic,
    lateral: Seq<LateralFace>,
    point: Vec3,
    station: Scalar,
    radius: Scalar,
    n: int,
) -> nat
    decreases n,
{
    if n <= 0 {
        0
    } else {
        let rest = outward_of(m, lateral, point, station, radius, n - 1);
        let face = lateral[n - 1];
        if is_met(m, face, station, continues_from(m, lateral, station)) {
            rest + outward(m, face, own_station(m, face, point), radius)
        } else {
            rest
        }
    }
}

impl MeridianView {
    /// Whether a model point lies inside the solid: an odd number of lateral
    /// faces lie outward of it.
    pub open spec fn has_inside(self, m: Arithmetic, point: Vec3) -> bool {
        outward_of(
            m,
            self.lateral,
            point,
            m.dot(point, self.axis),
            axis_distance(m, self.origin, self.axis, point),
            self.lateral.len() as int,
        ) % 2 == 1
    }
}

/// Exact inside/outside test for a solid whose faces share one axis.
///
/// Every lateral face of such a solid is a surface of revolution about the
/// common axis, so a point classifies by counting the lateral faces whose
/// meridian lies outward of it at the same axial station: an odd count is
/// inside. Faces perpendicular to the axis contribute nothing to a radial ray.
///
/// The classifier reports itself unavailable as soon as a face is not coaxial,
/// or its edges do not tell what it covers, which keeps every answer it does
/// give exact rather than approximate.
pub struct Meridian {
    pub axis: Vec3,
    /// A point of the axis. Stations are absolute; only radii are measured from
    /// here.
    pub origin: Vec3,
    pub lateral: Vec<LateralFace>,
}

impl View for Meridian {
    type V = MeridianView;

    open spec fn view(&self) -> MeridianView {
        MeridianView { axis: self.axis, origin: self.origin, lateral: self.lateral@ }
    }
}

proof fn lateral_faces_stop(
    m: Arithmetic,
    model: Model,
    origin: Vec3,
    axis: Vec3,
    n: int,
    whole: int,
)
    requires
        lateral_faces(m, model, origin, axis, n) is None,
        n <= whole,
    ensures
        lateral_faces(m, model, origin, axis, whole) is None,
    decreases whole - n,
{
    if n < whole {
        assert(lateral_faces(m, model, origin, axis, n + 1) is None);
        lateral_faces_stop(m, model, origin, axis, n + 1, whole);
    }
}

fn carrier_of(topo: &Topology, face: &Face) -> (r: Option<SurfaceGeometry>)
    ensures
        r == carrier(topo.model(), *face),
{
    match topo.surface(face.surface.as_str()) {
        Some(surface) => Some(surface.geometry),
        None => None,
    }
}

fn find_hub(topo: &Topology) -> (r: Option<SurfaceFrame>)
    ensures
        r == hub(topo.model()),
{
    let faces = topo.faces();
    let mut found: Option<SurfaceFrame> = None;
    let mut i: usize = 0;
    while i < faces.len()
        invariant
            i <= faces@.len(),
            faces@ == topo.model().faces@,
            found == first_lateral(topo.model(), i as int),
        decreases faces@.len() - i,
    {
        if found.is_none() {
            if let Some(geometry) = carrier_of(topo, &faces[i]) {
                if !matches!(geometry.shape, SurfaceShape::Plane) {
                    found = geometry.frame;
                }
            }
        }
        i += 1;
    }
    found
}

fn radius_at<K: Kernel>(origin: Vec3, axis: Vec3, point: Vec3, kernel: &K) -> (r: Scalar)
    ensures
        r == axis_distance(kernel.model(), origin, axis, point),
{
    let delta = kernel.difference(point, origin);
    kernel.scalar(ScalarOp::Length(kernel.vector(VectorOp::Reject(delta, axis))))
}

/// The frame that places the axis all faces of a body share, if they do.
fn common_axis<K: Kernel>(topo: &Topology, kernel: &K) -> (r: Option<SurfaceFrame>)
    ensures
        match r {
            Some(frame) => coaxial(
                kernel.model(),
                topo.model(),
                topo.model().faces@.len() as int,
            ) && hub(topo.model()) == Some(frame),
            None => !coaxial(kernel.model(), topo.model(), topo.model().faces@.len() as int),
        },
{
    let faces = topo.faces();
    let ghost m = kernel.model();
    let ghost model = topo.model();
    let frame = match find_hub(topo) {
        Some(frame) => frame,
        None => {
            return None;
        },
    };
    let mut i: usize = 0;
    while i < faces.len()
        invariant
            i <= faces@.len(),
            m == kernel.model(),
            model == topo.model(),
            faces@ == model.faces@,
            hub(model) == Some(frame),
            coaxial(m, model, i as int),
        decreases faces@.len() - i,
    {
        let shares = match carrier_of(topo, &faces[i]) {
            Some(geometry) => match geometry.frame {
                Some(own) => kernel.parallel(frame.axis, own.axis) && (matches!(
                    geometry.shape,
                    SurfaceShape::Plane
                ) || radius_at(frame.origin, frame.axis, own.origin, kernel).le(
                    kernel.direction_tolerance(),
                )),
                None => false,
            },
            None => false,
        };
        assert(shares == shares_axis(
            m,
            model,
            model.faces@[i as int],
            frame.origin,
            frame.axis,
        ));
        if !shares {
            return None;
        }
        i += 1;
    }
    Some(frame)
}

fn inner_covered<K: Kernel>(major_radius: Scalar, near: Scalar, kernel: &K) -> (r: bool)
    ensures
        r == covers_inner(kernel.model(), major_radius, near),
{
    kernel.plus(near, kernel.direction_tolerance()).lt(major_radius)
}

fn outer_covered<K: Kernel>(major_radius: Scalar, far: Scalar, kernel: &K) -> (r: bool)
    ensures
        r == covers_outer(kernel.model(), major_radius, far),
{
    kernel.plus(major_radius, kernel.direction_tolerance()).lt(far)
}

/// A lateral face, if its solved edges tell what it covers.
fn lateral_face<K: Kernel>(
    topo: &Topology,
    face: &Face,
    origin: Vec3,
    axis: Vec3,
    kernel: &K,
) -> (r: Option<LateralFace>)
    ensures
        r == lateral_of(kernel.model(), topo.model(), *face, origin, axis),
{
    let geometry = match carrier_of(topo, face) {
        Some(geometry) => geometry,
        None => {
            return None;
        },
    };
    let (low, high) = match topo.face_span(face.id.as_str(), axis, kernel) {
        Some(span) => span,
        None => {
            return None;
        },
    };
    let points = topo.face_points(face);
    let mut near = Scalar { bits: INFINITY };
    let mut far = Scalar { bits: NEG_INFINITY };
    let mut i: usize = 0;
    while i < points.len()
        invariant
            i <= points@.len(),
            (near, far) == radial_reach(kernel.model(), points@, origin, axis, i as int),
        decreases points@.len() - i,
    {
        let radius = radius_at(origin, axis, points[i], kernel);
        near = near.min(radius);
        far = far.max(radius);
        i += 1;
    }
    let told = low.lt(high) && match geometry.shape {
        SurfaceShape::Torus { major_radius, .. } => inner_covered(major_radius, near, kernel)
            != outer_covered(major_radius, far, kernel),
        SurfaceShape::Other => false,
        _ => true,
    };
    let lateral = LateralFace { geometry, low, high, near, far };
    assert(told == is_told(kernel.model(), lateral));
    if told {
        Some(lateral)
    } else {
        None
    }
}

impl Meridian {
    /// Builds the classifier of a solved body.
    pub fn build<K: Kernel>(topo: &Topology, kernel: &K) -> (r: Option<Self>)
        ensures
            match r {
                Some(meridian) => meridian_of(kernel.model(), topo.model()) == Some(meridian@),
                None => meridian_of(kernel.model(), topo.model()) is None,
            },
    {
        let ghost m = kernel.model();
        let ghost model = topo.model();
        let faces = topo.faces();
        let frame = match common_axis(topo, kernel) {
            Some(frame) => frame,
            None => {
                return None;
            },
        };
        let origin = frame.origin;
        let axis = frame.axis;
        let mut lateral: Vec<LateralFace> = Vec::new();
        let mut i: usize = 0;
        while i < faces.len()
            invariant
                i <= faces@.len(),
                m == kernel.model(),
                model == topo.model(),
                faces@ == model.faces@,
                coaxial(m, model, faces@.len() as int),
                hub(model) == Some(frame),
                origin == frame.origin,
                axis == frame.axis,
                lateral_faces(m, model, origin, axis, i as int) == Some(lateral@),
            decreases faces@.len() - i,
        {
            let face = &faces[i];
            let flat = match carrier_of(topo, face) {
                Some(geometry) => matches!(geometry.shape, SurfaceShape::Plane),
                None => true,
            };
            assert(flat == !is_lateral(model, model.faces@[i as int]));
            if !flat {
                match lateral_face(topo, face, origin, axis, kernel) {
                    Some(found) => {
                        lateral.push(found);
                    },
                    None => {
                        proof {
                            lateral_faces_stop(
                                m,
                                model,
                                origin,
                                axis,
                                i + 1,
                                faces@.len() as int,
                            );
                        }
                        return None;
                    },
                }
            }
            i += 1;
        }
        Some(Meridian { axis, origin, lateral })
    }

    /// True when the model point lies inside the solid.
    pub fn contains<K: Kernel>(&self, point: Vec3, kernel: &K) -> (r: bool)
        ensures
            r == self@.has_inside(kernel.model(), point),
    {
        let station = kernel.dot(point, self.axis);
        let radius = radius_at(self.origin, self.axis, point, kernel);
        let tolerance = kernel.direction_tolerance();
        let continued = self.goes_on_from(station, kernel);
        let mut odd = false;
        let mut i: usize = 0;
        while i < self.lateral.len()
            invariant
                i <= self.lateral@.len(),
                tolerance == kernel.model().direction_tolerance,
                continued == continues_from(kernel.model(), self.lateral@, station),
                odd == (outward_of(
                    kernel.model(),
                    self.lateral@,
                    point,
                    station,
                    radius,
                    i as int,
                ) % 2 == 1),
            decreases self.lateral@.len() - i,
        {
            let face = self.lateral[i];
            if is_in_span(station, face.low, face.high, kernel) && (!continued || station.lt(
                kernel.minus(face.high, tolerance),
            )) {
                let own = match face.geometry.frame {
                    Some(frame) => kernel.dot(point, frame.axis),
                    None => Scalar { bits: ZERO },
                };
                let count = Self::outward_crossings(&face, own, radius, kernel);
                odd = odd != (count % 2 == 1);
            }
            i += 1;
        }
        odd
    }

    /// Whether a lateral face begins at a station.
    fn goes_on_from<K: Kernel>(&self, station: Scalar, kernel: &K) -> (r: bool)
        ensures
            r == continues_from(kernel.model(), self.lateral@, station),
    {
        let mut k: usize = 0;
        while k < self.lateral.len()
            invariant
                k <= self.lateral@.len(),
                forall|i: int|
                    0 <= i < k ==> !in_span(
                        kernel.model(),
                        station,
                        (#[trigger] self.lateral@[i]).low,
                        self.lateral@[i].low,
                    ),
            decreases self.lateral@.len() - k,
        {
            let low = self.lateral[k].low;
            if is_in_span(station, low, low, kernel) {
                assert(self.lateral@[k as int].low == low);
                return true;
            }
            k += 1;
        }
        false
    }

    /// Radii greater than `radius` where the covered part of the carrier's
    /// meridian sits at `station`.
    pub fn outward_crossings<K: Kernel>(
        face: &LateralFace,
        station: Scalar,
        radius: Scalar,
        kernel: &K,
    ) -> (r: usize)
        ensures
            r == outward(kernel.model(), *face, station, radius),
    {
        let frame = match face.geometry.frame {
            Some(frame) => frame,
            None => {
                return 0;
            },
        };
        let local = kernel.minus(station, kernel.dot(frame.origin, frame.axis));
        let zero = Scalar { bits: ZERO };
        let mut candidates: Vec<Scalar> = Vec::new();
        match face.geometry.shape {
            SurfaceShape::Cylinder { radius } => {
                candidates.push(radius);
            },
            SurfaceShape::Cone { radius, half_angle } => {
                candidates.push(
                    kernel.mul_add(local, kernel.scalar(ScalarOp::Tan(half_angle)), radius),
                );
            },
            SurfaceShape::Sphere { radius } => {
                let squared = kernel.mul_add(radius, radius, kernel.times(local, local).neg());
                if zero.lt(squared) {
                    candidates.push(kernel.scalar(ScalarOp::Sqrt(squared)));
                }
            },
            SurfaceShape::Torus { major_radius, minor_radius } => {
                let minor = minor_radius.abs();
                let squared = kernel.mul_add(minor, minor, kernel.times(local, local).neg());
                if zero.lt(squared) {
                    let offset = kernel.scalar(ScalarOp::Sqrt(squared));
                    if inner_covered(major_radius, face.near, kernel) {
                        candidates.push(kernel.minus(major_radius, offset));
                    }
                    if outer_covered(major_radius, face.far, kernel) {
                        candidates.push(kernel.plus(major_radius, offset));
                    }
                }
            },
            _ => {},
        }
        assert(candidates@ =~= meridian_radii(
            kernel.model(),
            face.geometry.shape,
            face.near,
            face.far,
            local,
        ));
        let limit = kernel.plus(radius, kernel.direction_tolerance());
        let mut count: usize = 0;
        let mut i: usize = 0;
        while i < candidates.len()
            invariant
                i <= candidates@.len(),
                count <= i,
                count == exceeding(candidates@, limit, i as int),
            decreases candidates@.len() - i,
        {
            if limit.lt(candidates[i]) {
                count += 1;
            }
            i += 1;
        }
        count
    }
}

// ---------------------------------------------------------------------------
// laws
// ---------------------------------------------------------------------------

/// The classifier is unavailable as soon as one face is not coaxial: it has no
/// axis, one of another direction, or is lateral about another line.
pub proof fn unavailable_unless_coaxial(m: Arithmetic, model: Model, i: int)
    requires
        0 <= i < model.faces@.len(),
        hub(model) matches Some(frame) ==> !shares_axis(
            m,
            model,
            model.faces@[i],
            frame.origin,
            frame.axis,
        ),
    ensures
        meridian_of(m, model) is None,
{
}

proof fn every_lateral_is_told(m: Arithmetic, model: Model, origin: Vec3, axis: Vec3, n: int)
    requires
        0 <= n <= model.faces@.len(),
    ensures
        lateral_faces(m, model, origin, axis, n) matches Some(lateral) ==> {
            &&& forall|k: int|
                0 <= k < lateral.len() ==> is_told(m, #[trigger] lateral[k])
            &&& forall|i: int|
                0 <= i < n && is_lateral(model, #[trigger] model.faces@[i]) ==> (lateral_of(
                    m,
                    model,
                    model.faces@[i],
                    origin,
                    axis,
                ) matches Some(found) && lateral.contains(found))
        },
    decreases n,
{
    if n > 0 {
        every_lateral_is_told(m, model, origin, axis, n - 1);
        if let Some(lateral) = lateral_faces(m, model, origin, axis, n) {
            let rest = lateral_faces(m, model, origin, axis, n - 1)->0;
            assert forall|k: int| 0 <= k < lateral.len() implies is_told(
                m,
                #[trigger] lateral[k],
            ) by {
                if k < rest.len() {
                    assert(lateral[k] == rest[k]);
                }
            }
            assert forall|i: int|
                0 <= i < n && is_lateral(model, #[trigger] model.faces@[i]) implies (lateral_of(
                m,
                model,
                model.faces@[i],
                origin,
                axis,
            ) matches Some(found) && lateral.contains(found)) by {
                let found = lateral_of(m, model, model.faces@[i], origin, axis)->0;
                if i < n - 1 {
                    let k = choose|k: int| 0 <= k < rest.len() && rest[k] == found;
                    assert(lateral[k] == found);
                } else {
                    assert(lateral[rest.len() as int] == found);
                }
            }
        }
    }
}

/// A classifier counts every lateral face, and of each it can be told which part
/// of its carrier is covered.
pub proof fn classifier_is_complete(m: Arithmetic, model: Model)
    ensures
        meridian_of(m, model) matches Some(solid) ==> {
            &&& solid.lateral.len() > 0
            &&& forall|k: int|
                0 <= k < solid.lateral.len() ==> is_told(m, #[trigger] solid.lateral[k])
            &&& forall|i: int|
                0 <= i < model.faces@.len() && is_lateral(model, #[trigger] model.faces@[i]) ==> (
                lateral_of(
                    m,
                    model,
                    model.faces@[i],
                    solid.origin,
                    solid.axis,
                ) matches Some(found) && solid.lateral.contains(found))
        },
{
    if let Some(solid) = meridian_of(m, model) {
        every_lateral_is_told(m, model, solid.origin, solid.axis, model.faces@.len() as int);
        hub_is_lateral(model, model.faces@.len() as int);
        let i = choose|i: int|
            0 <= i < model.faces@.len() && is_lateral(model, #[trigger] model.faces@[i]);
        assert(is_lateral(model, model.faces@[i]));
    }
}

proof fn hub_is_lateral(model: Model, n: int)
    ensures
        first_lateral(model, n) is Some ==> exists|i: int|
            0 <= i < n && is_lateral(model, #[trigger] model.faces@[i]),
    decreases n,
{
    if n > 0 {
        hub_is_lateral(model, n - 1);
        if first_lateral(model, n - 1) is Some {
            let i = choose|i: int|
                0 <= i < n - 1 && is_lateral(model, #[trigger] model.faces@[i]);
            assert(is_lateral(model, model.faces@[i]));
        } else if is_lateral(model, model.faces@[n - 1]) {
            assert(is_lateral(model, model.faces@[n - 1]));
        }
    }
}

/// Whether adding the tolerance keeps the order of two values.
pub open spec fn keeps_order(m: Arithmetic, a: Scalar, b: Scalar) -> bool {
    m.plus(a, m.direction_tolerance).at_most(m.plus(b, m.direction_tolerance))
}

proof fn fewer_exceed_more(values: Seq<Scalar>, low: Scalar, high: Scalar, n: int)
    requires
        low.at_most(high),
    ensures
        exceeding(values, high, n) <= exceeding(values, low, n),
    decreases n,
{
    if n > 0 {
        fewer_exceed_more(values, low, high, n - 1);
    }
}

/// A face lies outward at most twice, and twice only on a torus. A cylinder does
/// so once, at every station, exactly where its radius is the greater by more
/// than the tolerance. Neither a sphere nor a torus does beyond its height, and a
/// face without a frame or of another family never does.
pub proof fn crossings_are_few(m: Arithmetic, face: LateralFace, station: Scalar, radius: Scalar)
    ensures
        ({
            let count = outward(m, face, station, radius);
            let limit = m.plus(radius, m.direction_tolerance);
            &&& count <= 2
            &&& count == 2 ==> face.geometry.shape is Torus
            &&& face.geometry.frame is None ==> count == 0
            &&& face.geometry.frame matches Some(frame) ==> {
                let local = m.minus(station, m.dot(frame.origin, frame.axis));
                match face.geometry.shape {
                    SurfaceShape::Plane => count == 0,
                    SurfaceShape::Other => count == 0,
                    SurfaceShape::Cylinder { radius: own } => count == 1 <==> limit.below(own),
                    SurfaceShape::Cone { .. } => count <= 1,
                    SurfaceShape::Sphere { radius: own } => !(Scalar { bits: ZERO }).below(
                        m.mul_add(own, own, m.times(local, local).negated()),
                    ) ==> count == 0,
                    SurfaceShape::Torus { minor_radius, .. } => !(Scalar { bits: ZERO }).below(
                        m.mul_add(
                            minor_radius.unsigned(),
                            minor_radius.unsigned(),
                            m.times(local, local).negated(),
                        ),
                    ) ==> count == 0,
                }
            }
        }),
{
    reveal_with_fuel(exceeding, 3);
}

/// Farther from the axis no more of a face lies outward: outward crossings never
/// grow with the radius, where adding the tolerance keeps the order of the two
/// radii.
pub proof fn crossings_never_grow(
    m: Arithmetic,
    face: LateralFace,
    station: Scalar,
    near: Scalar,
    far: Scalar,
)
    requires
        keeps_order(m, near, far),
    ensures
        outward(m, face, station, far) <= outward(m, face, station, near),
{
    if let Some(frame) = face.geometry.frame {
        let local = m.minus(station, m.dot(frame.origin, frame.axis));
        let radii = meridian_radii(m, face.geometry.shape, face.near, face.far, local);
        fewer_exceed_more(
            radii,
            m.plus(near, m.direction_tolerance),
            m.plus(far, m.direction_tolerance),
            radii.len() as int,
        );
    }
}

} // verus!
