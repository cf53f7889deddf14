//! Sketch planes and the travel of an extrude along them.

use crate::ir::{ExtrudeExtent, Sketch, SketchPlacement, Termination};
use crate::kernel::{Arithmetic, Kernel, Vec3, VectorOp};
use crate::scalar::{Scalar, TWO, ZERO};
use vstd::prelude::*;

verus! {

/// A plane frame plus the sketch-space mapping the profile geometry lives in.
#[derive(Clone, Copy, PartialEq, Eq, Structural, Debug)]
pub struct SketchFrame {
    pub origin: Vec3,
    pub normal: Vec3,
    pub x_axis: Vec3,
    pub y_axis: Vec3,
}

/// The frame on a plane: its normal is made a unit vector, and the u direction
/// is squared against it.
pub open spec fn frame_on(m: Arithmetic, origin: Vec3, normal: Vec3, u_axis: Vec3) -> SketchFrame {
    let n = m.unit(normal);
    let x = m.unit(m.reject(u_axis, n));
    SketchFrame { origin, normal: n, x_axis: x, y_axis: m.cross(n, x) }
}

impl SketchFrame {
    /// The model point at sketch coordinates.
    pub open spec fn model_point(self, m: Arithmetic, u: Scalar, v: Scalar) -> Vec3 {
        m.sum(m.sum(self.origin, m.scale(self.x_axis, u)), m.scale(self.y_axis, v))
    }

    /// The sketch coordinates of a model point.
    pub open spec fn sketch_point(self, m: Arithmetic, point: Vec3) -> (Scalar, Scalar) {
        let delta = m.difference(point, self.origin);
        (m.dot(delta, self.x_axis), m.dot(delta, self.y_axis))
    }

    /// The station of the plane along its own normal.
    pub open spec fn plane_station(self, m: Arithmetic) -> Scalar {
        m.dot(self.origin, self.normal)
    }

    /// Builds the frame on a plane.
    pub fn new<K: Kernel>(origin: Vec3, normal: Vec3, u_axis: Vec3, kernel: &K) -> (r: Self)
        ensures
            r == frame_on(kernel.model(), origin, normal, u_axis),
    {
        let normal = kernel.vector(VectorOp::Unit(normal));
        let x_axis = kernel.vector(VectorOp::Unit(kernel.vector(VectorOp::Reject(u_axis, normal))));
        SketchFrame {
            origin,
            normal,
            x_axis,
            y_axis: kernel.vector(VectorOp::Cross(normal, x_axis)),
        }
    }

    /// Sketch (u, v) to model space.
    pub fn to_model<K: Kernel>(self, u: Scalar, v: Scalar, kernel: &K) -> (r: Vec3)
        ensures
            r == self.model_point(kernel.model(), u, v),
    {
        kernel.sum(kernel.sum(self.origin, kernel.scale(self.x_axis, u)), kernel.scale(self.y_axis, v))
    }

    /// Model space to sketch (u, v).
    pub fn to_sketch<K: Kernel>(self, point: Vec3, kernel: &K) -> (r: (Scalar, Scalar))
        ensures
            r == self.sketch_point(kernel.model(), point),
    {
        let delta = kernel.difference(point, self.origin);
        (kernel.dot(delta, self.x_axis), kernel.dot(delta, self.y_axis))
    }

    /// Axial station of the plane along its own normal.
    pub fn station<K: Kernel>(&self, kernel: &K) -> (r: Scalar)
        ensures
            r == self.plane_station(kernel.model()),
    {
        kernel.dot(self.origin, self.normal)
    }
}

/// The frame of a placed sketch.
pub open spec fn placed_frame(m: Arithmetic, sketch: Sketch) -> Option<SketchFrame> {
    match sketch.placement {
        SketchPlacement::Resolved { origin, normal, u_axis } => Some(
            frame_on(m, origin, normal, u_axis),
        ),
        SketchPlacement::Unresolved => None,
    }
}

/// Reads a sketch's resolved placement, or `None` when it was left open.
pub fn sketch_frame<K: Kernel>(sketch: &Sketch, kernel: &K) -> (r: Option<SketchFrame>)
    ensures
        r == placed_frame(kernel.model(), *sketch),
{
    match sketch.placement {
        SketchPlacement::Resolved { origin, normal, u_axis } => Some(
            SketchFrame::new(origin, normal, u_axis, kernel),
        ),
        SketchPlacement::Unresolved => None,
    }
}

/// The length of a blind side.
pub open spec fn blind_length(termination: Termination) -> Option<Scalar> {
    match termination {
        Termination::Blind { length } => Some(length),
        _ => None,
    }
}

fn blind(termination: Termination) -> (r: Option<Scalar>)
    ensures
        r == blind_length(termination),
{
    match termination {
        Termination::Blind { length } => Some(length),
        _ => None,
    }
}

/// How far an extent reaches behind its plane and in front of it.
pub open spec fn travel(m: Arithmetic, extent: ExtrudeExtent) -> Option<(Scalar, Scalar)> {
    match extent {
        ExtrudeExtent::OneSided { side } => match blind_length(side.termination) {
            Some(length) => Some((Scalar { bits: ZERO }, length)),
            None => None,
        },
        ExtrudeExtent::Symmetric { side } => match blind_length(side.termination) {
            Some(total) => {
                let half = m.divide(total, Scalar { bits: TWO });
                Some((half, half))
            },
            None => None,
        },
        ExtrudeExtent::TwoSided { first, second } => match (
            blind_length(second.termination),
            blind_length(first.termination),
        ) {
            (Some(back), Some(forward)) => Some((back, forward)),
            _ => None,
        },
    }
}

/// Whether every side of an extent is blind.
pub open spec fn is_blind(extent: ExtrudeExtent) -> bool {
    match extent {
        ExtrudeExtent::OneSided { side } => side.termination is Blind,
        ExtrudeExtent::Symmetric { side } => side.termination is Blind,
        ExtrudeExtent::TwoSided { first, second } => first.termination is Blind
            && second.termination is Blind,
    }
}

/// Travel of an extrude either side of its profile plane.
///
/// Covers the three extent shapes. A two-sided extent names its second side as
/// the one opposite the direction; a symmetric extent states total travel split
/// evenly. `None` means a side is not blind, which needs target geometry this
/// encoder does not resolve.
pub fn extrude_travel<K: Kernel>(extent: &ExtrudeExtent, kernel: &K) -> (r: Option<
    (Scalar, Scalar),
>)
    ensures
        r == travel(kernel.model(), *extent),
        r is Some <==> is_blind(*extent),
{
    match *extent {
        ExtrudeExtent::OneSided { side } => match blind(side.termination) {
            Some(length) => Some((Scalar { bits: ZERO }, length)),
            None => None,
        },
        ExtrudeExtent::Symmetric { side } => match blind(side.termination) {
            Some(total) => {
                let half = kernel.divide(total, Scalar { bits: TWO });
                Some((half, half))
            },
            None => None,
        },
        ExtrudeExtent::TwoSided { first, second } => match (
            blind(second.termination),
            blind(first.termination),
        ) {
            (Some(back), Some(forward)) => Some((back, forward)),
            _ => None,
        },
    }
}

/// The axial span an extrude sweeps, the lower station first.
pub open spec fn swept_span(m: Arithmetic, frame: SketchFrame, extent: ExtrudeExtent) -> Option<
    (Scalar, Scalar),
> {
    match travel(m, extent) {
        Some((back, forward)) => {
            let low = m.minus(frame.plane_station(m), back);
            let high = m.plus(frame.plane_station(m), forward);
            if low.at_most(high) {
                Some((low, high))
            } else {
                Some((high, low))
            }
        },
        None => None,
    }
}

/// The axial span an extrude sweeps, in stations along the sketch normal.
pub fn extrude_span<K: Kernel>(frame: &SketchFrame, extent: &ExtrudeExtent, kernel: &K) -> (r:
    Option<(Scalar, Scalar)>)
    ensures
        r == swept_span(kernel.model(), *frame, *extent),
        r is Some <==> is_blind(*extent),
{
    match extrude_travel(extent, kernel) {
        Some((back, forward)) => {
            let start = frame.station(kernel);
            let low = kernel.minus(start, back);
            let high = kernel.plus(start, forward);
            if low.le(high) {
                Some((low, high))
            } else {
                Some((high, low))
            }
        },
        None => None,
    }
}

/// A swept span runs upwards, whatever the signs of the travel, as long as
/// neither of its stations is a NaN.
pub proof fn span_is_ordered(m: Arithmetic, frame: SketchFrame, extent: ExtrudeExtent)
    requires
        swept_span(m, frame, extent) matches Some(span) && !span.0.nan() && !span.1.nan(),
    ensures
        swept_span(m, frame, extent) matches Some(span) && span.0.at_most(span.1),
{
}

} // verus!
