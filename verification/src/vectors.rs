//! What sketch planes are where the arithmetic follows the laws of vectors.
//!
//! Rounded arithmetic follows them up to rounding only, and exactly where nothing
//! is rounded, as for directions along the axes. So each law is asked for on the
//! vectors it is used on.

use crate::frame;
use crate::frame::SketchFrame;
use crate::kernel::{Arithmetic, Vec3};
use crate::scalar::{Scalar, ONE, ZERO};
use vstd::prelude::*;

verus! {

// ---------------------------------------------------------------------------
// the laws
// ---------------------------------------------------------------------------

/// Whether a vector has length one.
pub open spec fn is_unit(m: Arithmetic, a: Vec3) -> bool {
    m.dot(a, a) == (Scalar { bits: ONE })
}

/// Whether two vectors are at right angles.
pub open spec fn is_right(m: Arithmetic, a: Vec3, b: Vec3) -> bool {
    m.dot(a, b) == (Scalar { bits: ZERO }) && m.dot(b, a) == (Scalar { bits: ZERO })
}

/// Whether one vector goes the way of another rather than against it.
pub open spec fn goes_with(m: Arithmetic, a: Vec3, b: Vec3) -> bool {
    (Scalar { bits: ZERO }).below(m.dot(a, b))
}

/// Making a vector one of length one does so, and keeps its direction.
pub open spec fn unit_law(m: Arithmetic, a: Vec3) -> bool {
    is_unit(m, m.unit(a)) && goes_with(m, m.unit(a), a)
}

/// What is at right angles to a vector is so too once that has length one.
pub open spec fn unit_keeps_right(m: Arithmetic, a: Vec3, b: Vec3) -> bool {
    is_right(m, a, b) ==> is_right(m, m.unit(a), b)
}

/// What is left of a vector without its part along an axis of length one is at
/// right angles to the axis, and goes the way of the vector.
pub open spec fn reject_law(m: Arithmetic, a: Vec3, axis: Vec3) -> bool {
    is_unit(m, axis) ==> is_right(m, m.reject(a, axis), axis) && goes_with(
        m,
        m.unit(m.reject(a, axis)),
        a,
    )
}

/// The outer product completes two vectors of length one at right angles to a
/// right-handed system.
pub open spec fn cross_law(m: Arithmetic, a: Vec3, b: Vec3) -> bool {
    is_unit(m, a) && is_unit(m, b) && is_right(m, a, b) ==> {
        let c = m.cross(a, b);
        &&& is_unit(m, c)
        &&& is_right(m, c, a)
        &&& is_right(m, c, b)
        &&& m.cross(b, c) == a
    }
}

/// A vector and its positive multiples have one direction.
pub open spec fn unit_ignores_scale(m: Arithmetic, a: Vec3, k: Scalar) -> bool {
    m.unit(m.scale(a, k)) == m.unit(a)
}

/// What is left of a multiple of a vector and some of the axis is the same
/// multiple of what is left of the vector.
pub open spec fn reject_is_linear(
    m: Arithmetic,
    a: Vec3,
    along: Vec3,
    b: Scalar,
    c: Scalar,
    axis: Vec3,
) -> bool {
    m.reject(m.sum(m.scale(a, b), m.scale(along, c)), axis) == m.scale(m.reject(a, axis), b)
}

/// Taking an origin away leaves what was added to it, and the inner product with
/// a vector takes a sum apart.
pub open spec fn sum_law(m: Arithmetic, origin: Vec3, a: Vec3, b: Vec3, w: Vec3) -> bool {
    let end = m.sum(m.sum(origin, a), b);
    &&& m.dot(m.difference(end, origin), w) == m.plus(m.dot(a, w), m.dot(b, w))
    &&& m.dot(end, w) == m.plus(m.plus(m.dot(origin, w), m.dot(a, w)), m.dot(b, w))
}

/// The same, with one more vector added.
pub open spec fn longer_sum_law(
    m: Arithmetic,
    origin: Vec3,
    a: Vec3,
    b: Vec3,
    c: Vec3,
    w: Vec3,
) -> bool {
    m.dot(m.difference(m.sum(m.sum(m.sum(origin, a), b), c), origin), w) == m.plus(
        m.plus(m.dot(a, w), m.dot(b, w)),
        m.dot(c, w),
    )
}

/// The inner product with a multiple is the multiple of the inner product.
pub open spec fn scale_law(m: Arithmetic, a: Vec3, k: Scalar, w: Vec3) -> bool {
    m.dot(m.scale(a, k), w) == m.times(k, m.dot(a, w))
}

/// One times a number is the number, and nothing of another adds nothing to it.
pub open spec fn number_law(m: Arithmetic, a: Scalar, b: Scalar) -> bool {
    let one = Scalar { bits: ONE };
    let zero = Scalar { bits: ZERO };
    &&& m.plus(m.times(a, one), m.times(b, zero)) == a
    &&& m.plus(m.times(b, zero), m.times(a, one)) == a
    &&& m.plus(a, m.times(b, zero)) == a
}

// ---------------------------------------------------------------------------
// frames
// ---------------------------------------------------------------------------

/// Whether the axes of a frame have length one, are at right angles and form a
/// right-handed system.
pub open spec fn is_orthonormal(m: Arithmetic, f: SketchFrame) -> bool {
    &&& is_unit(m, f.normal)
    &&& is_unit(m, f.x_axis)
    &&& is_unit(m, f.y_axis)
    &&& is_right(m, f.normal, f.x_axis)
    &&& is_right(m, f.normal, f.y_axis)
    &&& is_right(m, f.x_axis, f.y_axis)
    &&& m.cross(f.x_axis, f.y_axis) == f.normal
}

/// The frame on a plane sits at the origin given and is orthonormal and
/// right-handed. Its normal goes the way of the normal given, and its first axis
/// the way of the u direction.
pub proof fn frame_is_orthonormal(m: Arithmetic, origin: Vec3, normal: Vec3, u_axis: Vec3)
    requires
        unit_law(m, normal),
        reject_law(m, u_axis, m.unit(normal)),
        unit_law(m, m.reject(u_axis, m.unit(normal))),
        unit_keeps_right(m, m.reject(u_axis, m.unit(normal)), m.unit(normal)),
        cross_law(m, m.unit(normal), m.unit(m.reject(u_axis, m.unit(normal)))),
    ensures
        ({
            let f = frame::frame_on(m, origin, normal, u_axis);
            &&& f.origin == origin
            &&& is_orthonormal(m, f)
            &&& goes_with(m, f.normal, normal)
            &&& goes_with(m, f.x_axis, u_axis)
        }),
{
}

/// How long the directions given are does not bear on the frame, nor how far the
/// u direction leans out of the plane.
pub proof fn frame_ignores_scale(
    m: Arithmetic,
    origin: Vec3,
    normal: Vec3,
    u_axis: Vec3,
    a: Scalar,
    b: Scalar,
    c: Scalar,
)
    requires
        unit_ignores_scale(m, normal, a),
        reject_is_linear(m, u_axis, normal, b, c, m.unit(normal)),
        unit_ignores_scale(m, m.reject(u_axis, m.unit(normal)), b),
    ensures
        frame::frame_on(
            m,
            origin,
            m.scale(normal, a),
            m.sum(m.scale(u_axis, b), m.scale(normal, c)),
        ) == frame::frame_on(m, origin, normal, u_axis),
{
}

/// Whether a model point of a frame is measured along a vector as the laws of sums
/// and multiples say.
pub open spec fn is_linear(m: Arithmetic, f: SketchFrame, u: Scalar, v: Scalar, w: Vec3) -> bool {
    &&& sum_law(m, f.origin, m.scale(f.x_axis, u), m.scale(f.y_axis, v), w)
    &&& scale_law(m, f.x_axis, u, w)
    &&& scale_law(m, f.y_axis, v, w)
}

/// Sketch coordinates come back from model space, and their model point lies in
/// the plane.
pub proof fn sketch_undoes_model(m: Arithmetic, f: SketchFrame, u: Scalar, v: Scalar)
    requires
        is_orthonormal(m, f),
        is_linear(m, f, u, v, f.x_axis),
        is_linear(m, f, u, v, f.y_axis),
        is_linear(m, f, u, v, f.normal),
        number_law(m, u, v),
        number_law(m, v, u),
        number_law(m, f.plane_station(m), u),
        number_law(m, f.plane_station(m), v),
    ensures
        f.sketch_point(m, f.model_point(m, u, v)) == (u, v),
        m.dot(f.model_point(m, u, v), f.normal) == f.plane_station(m),
{
}

/// Whether a point off the plane of a frame is measured along a vector as the laws
/// of sums and multiples say.
pub open spec fn is_linear_off(
    m: Arithmetic,
    f: SketchFrame,
    u: Scalar,
    v: Scalar,
    height: Scalar,
    w: Vec3,
) -> bool {
    &&& longer_sum_law(
        m,
        f.origin,
        m.scale(f.x_axis, u),
        m.scale(f.y_axis, v),
        m.scale(f.normal, height),
        w,
    )
    &&& scale_law(m, f.x_axis, u, w)
    &&& scale_law(m, f.y_axis, v, w)
    &&& scale_law(m, f.normal, height, w)
}

/// How far a point lies off the plane does not matter to its sketch coordinates.
pub proof fn sketch_ignores_height(
    m: Arithmetic,
    f: SketchFrame,
    u: Scalar,
    v: Scalar,
    height: Scalar,
)
    requires
        is_orthonormal(m, f),
        is_linear_off(m, f, u, v, height, f.x_axis),
        is_linear_off(m, f, u, v, height, f.y_axis),
        number_law(m, u, v),
        number_law(m, v, u),
        number_law(m, u, height),
        number_law(m, v, height),
    ensures
        f.sketch_point(
            m,
            m.sum(f.model_point(m, u, v), m.scale(f.normal, height)),
        ) == (u, v),
{
}

/// A frame sits at its origin with its normal and its first axis of length one, the
/// latter squared against the former, and the second axis to the left. Sketch
/// coordinates are measured from the origin along the two axes, in that order, and
/// the station of the plane is that of its origin along its normal.
pub proof fn frames_measure_from_their_origin(
    m: Arithmetic,
    origin: Vec3,
    normal: Vec3,
    u_axis: Vec3,
    u: Scalar,
    v: Scalar,
    point: Vec3,
)
    ensures
        ({
            let f = frame::frame_on(m, origin, normal, u_axis);
            &&& f.origin == origin
            &&& f.normal == m.unit(normal)
            &&& f.x_axis == m.unit(m.reject(u_axis, m.unit(normal)))
            &&& f.y_axis == m.cross(f.normal, f.x_axis)
        }),
        forall|f: SketchFrame| #[trigger]
            f.model_point(m, u, v) == m.sum(
                m.sum(f.origin, m.scale(f.x_axis, u)),
                m.scale(f.y_axis, v),
            ),
        forall|f: SketchFrame| #[trigger]
            f.sketch_point(m, point) == (
                m.dot(m.difference(point, f.origin), f.x_axis),
                m.dot(m.difference(point, f.origin), f.y_axis),
            ),
        forall|f: SketchFrame| #[trigger] f.plane_station(m) == m.dot(f.origin, f.normal),
{
}

} // verus!
