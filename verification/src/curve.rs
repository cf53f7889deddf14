//! Profile curves: points of them, distances from them and where they meet.
//!
//! A straight curve runs between its ends, a round one keeps its radius about its
//! centre. What is said here is said of the curves themselves, not of samples.

use crate::ir::SketchGeometry;
use crate::kernel::{Arithmetic, Kernel, ScalarOp};
use crate::scalar::{Scalar, INFINITY, ONE, TWO, ZERO};
use vstd::prelude::*;

verus! {

/// A place in a sketch.
pub type Place = (Scalar, Scalar);

/// The pattern of half a turn in radians.
pub const PI: u64 = 0x4009_21fb_5444_2d18;

/// The pattern of the cosine of the golden angle. That angle gives a direction in
/// which nothing in an ordinary drawing is lined up.
pub const SLANT_U: u64 = 0xbfe7_9886_9e0d_e833;

/// The pattern of the sine of the golden angle.
pub const SLANT_V: u64 = 0x3fe5_9d9d_d253_cc13;

// ---------------------------------------------------------------------------
// places
// ---------------------------------------------------------------------------

/// The way from one place to another.
pub open spec fn way(m: Arithmetic, from: Place, to: Place) -> Place {
    (m.minus(to.0, from.0), m.minus(to.1, from.1))
}

fn way_of<K: Kernel>(from: Place, to: Place, kernel: &K) -> (r: Place)
    ensures
        r == way(kernel.model(), from, to),
{
    (kernel.minus(to.0, from.0), kernel.minus(to.1, from.1))
}

/// How far one way goes along another.
pub open spec fn along(m: Arithmetic, a: Place, b: Place) -> Scalar {
    m.mul_add(a.0, b.0, m.times(a.1, b.1))
}

fn along_of<K: Kernel>(a: Place, b: Place, kernel: &K) -> (r: Scalar)
    ensures
        r == along(kernel.model(), a, b),
{
    kernel.mul_add(a.0, b.0, kernel.times(a.1, b.1))
}

/// How far the second way goes to the left of the first.
pub open spec fn aside(m: Arithmetic, a: Place, b: Place) -> Scalar {
    m.mul_add(a.0, b.1, m.times(a.1, b.0).negated())
}

fn aside_of<K: Kernel>(a: Place, b: Place, kernel: &K) -> (r: Scalar)
    ensures
        r == aside(kernel.model(), a, b),
{
    kernel.mul_add(a.0, b.1, kernel.times(a.1, b.0).neg())
}

/// The place a multiple of a way from another.
pub open spec fn beyond(m: Arithmetic, from: Place, step: Place, times: Scalar) -> Place {
    (m.mul_add(times, step.0, from.0), m.mul_add(times, step.1, from.1))
}

fn beyond_of<K: Kernel>(from: Place, step: Place, times: Scalar, kernel: &K) -> (r: Place)
    ensures
        r == beyond(kernel.model(), from, step, times),
{
    (kernel.mul_add(times, step.0, from.0), kernel.mul_add(times, step.1, from.1))
}

/// The length of a way.
pub open spec fn reach(m: Arithmetic, a: Place) -> Scalar {
    m.hypot(a.0, a.1)
}

fn reach_of<K: Kernel>(a: Place, kernel: &K) -> (r: Scalar)
    ensures
        r == reach(kernel.model(), a),
{
    kernel.scalar(ScalarOp::Hypot(a.0, a.1))
}

/// The distance between two places.
pub open spec fn distance(m: Arithmetic, a: Place, b: Place) -> Scalar {
    reach(m, way(m, a, b))
}

fn distance_of<K: Kernel>(a: Place, b: Place, kernel: &K) -> (r: Scalar)
    ensures
        r == distance(kernel.model(), a, b),
{
    reach_of(way_of(a, b, kernel), kernel)
}

/// A way turned left by a quarter.
pub open spec fn turned(a: Place) -> Place {
    (a.1.negated(), a.0)
}

/// The root of a square, or zero where rounding has left the square negative.
pub open spec fn root(m: Arithmetic, squared: Scalar) -> Scalar {
    m.sqrt(squared.greater(Scalar { bits: ZERO }))
}

fn root_of<K: Kernel>(squared: Scalar, kernel: &K) -> (r: Scalar)
    ensures
        r == root(kernel.model(), squared),
{
    kernel.scalar(ScalarOp::Sqrt(squared.max(Scalar { bits: ZERO })))
}

/// The difference of two squares.
pub open spec fn squares_apart(m: Arithmetic, a: Scalar, b: Scalar) -> Scalar {
    m.mul_add(a, a, m.times(b, b).negated())
}

fn squares_apart_of<K: Kernel>(a: Scalar, b: Scalar, kernel: &K) -> (r: Scalar)
    ensures
        r == squares_apart(kernel.model(), a, b),
{
    kernel.mul_add(a, a, kernel.times(b, b).neg())
}

// ---------------------------------------------------------------------------
// one curve
// ---------------------------------------------------------------------------

/// The place at an angle about a centre.
pub open spec fn at_angle(m: Arithmetic, center: Place, radius: Scalar, angle: Scalar) -> Place {
    (m.mul_add(radius, m.cos(angle), center.0), m.mul_add(radius, m.sin(angle), center.1))
}

fn at_angle_of<K: Kernel>(center: Place, radius: Scalar, angle: Scalar, kernel: &K) -> (r: Place)
    ensures
        r == at_angle(kernel.model(), center, radius, angle),
{
    (
        kernel.mul_add(radius, kernel.scalar(ScalarOp::Cos(angle)), center.0),
        kernel.mul_add(radius, kernel.scalar(ScalarOp::Sin(angle)), center.1),
    )
}

/// Whether a place lies within the angle an arc sweeps: no farther round from the
/// middle of the arc than either end is.
pub open spec fn faces(
    m: Arithmetic,
    center: Place,
    radius: Scalar,
    start: Scalar,
    end: Scalar,
    place: Place,
) -> bool {
    let half = m.divide(m.minus(end, start), Scalar { bits: TWO }).unsigned();
    let middle = at_angle(m, center, radius, m.midpoint(start, end));
    (Scalar { bits: PI }).at_most(half) || m.times(
        m.times(distance(m, center, place), radius.unsigned()),
        m.cos(half),
    ).at_most(along(m, way(m, center, place), way(m, center, middle)))
}

fn is_facing<K: Kernel>(
    center: Place,
    radius: Scalar,
    start: Scalar,
    end: Scalar,
    place: Place,
    kernel: &K,
) -> (r: bool)
    ensures
        r == faces(kernel.model(), center, radius, start, end, place),
{
    let half = kernel.divide(kernel.minus(end, start), Scalar { bits: TWO }).abs();
    if (Scalar { bits: PI }).le(half) {
        return true;
    }
    let middle = at_angle_of(center, radius, kernel.midpoint(start, end), kernel);
    kernel.times(
        kernel.times(distance_of(center, place, kernel), radius.abs()),
        kernel.scalar(ScalarOp::Cos(half)),
    ).le(along_of(way_of(center, place, kernel), way_of(center, middle, kernel), kernel))
}

/// The places a curve ends at; a circle is taken to start and end at one.
pub open spec fn ends(m: Arithmetic, curve: SketchGeometry) -> Seq<Place> {
    match curve {
        SketchGeometry::Line { start, end } => seq![start, end],
        SketchGeometry::Arc { center, radius, start_angle, end_angle } => seq![
            at_angle(m, center, radius, start_angle),
            at_angle(m, center, radius, end_angle),
        ],
        SketchGeometry::Circle { center, radius } => seq![
            at_angle(m, center, radius, Scalar { bits: ZERO }),
        ],
        SketchGeometry::Other => Seq::empty(),
    }
}

/// The places a curve ends at.
pub fn ends_of<K: Kernel>(curve: SketchGeometry, kernel: &K) -> (r: Vec<Place>)
    ensures
        r@ == ends(kernel.model(), curve),
{
    let mut out: Vec<Place> = Vec::new();
    match curve {
        SketchGeometry::Line { start, end } => {
            out.push(start);
            out.push(end);
        },
        SketchGeometry::Arc { center, radius, start_angle, end_angle } => {
            out.push(at_angle_of(center, radius, start_angle, kernel));
            out.push(at_angle_of(center, radius, end_angle, kernel));
        },
        SketchGeometry::Circle { center, radius } => {
            out.push(at_angle_of(center, radius, Scalar { bits: ZERO }, kernel));
        },
        SketchGeometry::Other => {},
    }
    assert(out@ =~= ends(kernel.model(), curve));
    out
}

/// The place of the straight curve from `a` to `b` that is nearest to another.
pub open spec fn nearest(m: Arithmetic, a: Place, b: Place, place: Place) -> Place {
    let step = way(m, a, b);
    let share = m.divide(along(m, way(m, a, place), step), along(m, step, step));
    beyond(
        m,
        a,
        step,
        share.greater(Scalar { bits: ZERO }).lesser(Scalar { bits: ONE }),
    )
}

fn nearest_of<K: Kernel>(a: Place, b: Place, place: Place, kernel: &K) -> (r: Place)
    ensures
        r == nearest(kernel.model(), a, b, place),
{
    let step = way_of(a, b, kernel);
    let share = kernel.divide(
        along_of(way_of(a, place, kernel), step, kernel),
        along_of(step, step, kernel),
    );
    beyond_of(a, step, share.max(Scalar { bits: ZERO }).min(Scalar { bits: ONE }), kernel)
}

/// How far a place lies from a whole circle.
pub open spec fn off_circle(m: Arithmetic, center: Place, radius: Scalar, place: Place) -> Scalar {
    m.minus(distance(m, center, place), radius.unsigned()).unsigned()
}

fn off_circle_of<K: Kernel>(center: Place, radius: Scalar, place: Place, kernel: &K) -> (r: Scalar)
    ensures
        r == off_circle(kernel.model(), center, radius, place),
{
    kernel.minus(distance_of(center, place, kernel), radius.abs()).abs()
}

/// How far a place lies from a curve.
pub open spec fn clearance(m: Arithmetic, curve: SketchGeometry, place: Place) -> Scalar {
    match curve {
        SketchGeometry::Line { start, end } => distance(m, nearest(m, start, end, place), place),
        SketchGeometry::Circle { center, radius } => off_circle(m, center, radius, place),
        SketchGeometry::Arc { center, radius, start_angle, end_angle } => if faces(
            m,
            center,
            radius,
            start_angle,
            end_angle,
            place,
        ) {
            off_circle(m, center, radius, place)
        } else {
            distance(m, at_angle(m, center, radius, start_angle), place).lesser(
                distance(m, at_angle(m, center, radius, end_angle), place),
            )
        },
        SketchGeometry::Other => Scalar { bits: INFINITY },
    }
}

fn clearance_of<K: Kernel>(curve: SketchGeometry, place: Place, kernel: &K) -> (r: Scalar)
    ensures
        r == clearance(kernel.model(), curve, place),
{
    match curve {
        SketchGeometry::Line { start, end } => distance_of(
            nearest_of(start, end, place, kernel),
            place,
            kernel,
        ),
        SketchGeometry::Circle { center, radius } => off_circle_of(center, radius, place, kernel),
        SketchGeometry::Arc { center, radius, start_angle, end_angle } => {
            if is_facing(center, radius, start_angle, end_angle, place, kernel) {
                off_circle_of(center, radius, place, kernel)
            } else {
                distance_of(at_angle_of(center, radius, start_angle, kernel), place, kernel).min(
                    distance_of(at_angle_of(center, radius, end_angle, kernel), place, kernel),
                )
            }
        },
        SketchGeometry::Other => Scalar { bits: INFINITY },
    }
}

/// Whether a place lies on a curve, up to the slack.
pub open spec fn lies_on(m: Arithmetic, curve: SketchGeometry, place: Place) -> bool {
    clearance(m, curve, place).at_most(m.direction_tolerance)
}

/// Whether a place lies on a curve, up to the slack.
pub fn is_on<K: Kernel>(curve: SketchGeometry, place: Place, kernel: &K) -> (r: bool)
    ensures
        r == lies_on(kernel.model(), curve, place),
{
    clearance_of(curve, place, kernel).le(kernel.direction_tolerance())
}

// ---------------------------------------------------------------------------
// rays
// ---------------------------------------------------------------------------

/// The direction of the rays that tell inside from outside.
pub open spec fn slant() -> Place {
    (Scalar { bits: SLANT_U }, Scalar { bits: SLANT_V })
}

/// Whether a ray from a place meets the straight curve from `a` to `b`.
pub open spec fn meets_line(m: Arithmetic, a: Place, b: Place, place: Place) -> bool {
    let zero = Scalar { bits: ZERO };
    let to_a = way(m, place, a);
    let to_b = way(m, place, b);
    let left_a = aside(m, slant(), to_a);
    let left_b = aside(m, slant(), to_b);
    let ahead_a = along(m, slant(), to_a);
    let ahead_b = along(m, slant(), to_b);
    zero.below(left_a) != zero.below(left_b) && zero.below(
        m.mul_add(
            m.divide(left_a, m.minus(left_a, left_b)),
            m.minus(ahead_b, ahead_a),
            ahead_a,
        ),
    )
}

fn does_meet_line<K: Kernel>(a: Place, b: Place, place: Place, kernel: &K) -> (r: bool)
    ensures
        r == meets_line(kernel.model(), a, b, place),
{
    let zero = Scalar { bits: ZERO };
    let direction = (Scalar { bits: SLANT_U }, Scalar { bits: SLANT_V });
    let to_a = way_of(place, a, kernel);
    let to_b = way_of(place, b, kernel);
    let left_a = aside_of(direction, to_a, kernel);
    let left_b = aside_of(direction, to_b, kernel);
    if zero.lt(left_a) == zero.lt(left_b) {
        return false;
    }
    let ahead_a = along_of(direction, to_a, kernel);
    let ahead_b = along_of(direction, to_b, kernel);
    zero.lt(
        kernel.mul_add(
            kernel.divide(left_a, kernel.minus(left_a, left_b)),
            kernel.minus(ahead_b, ahead_a),
            ahead_a,
        ),
    )
}

/// How far along a ray from a place the nearer and the farther crossing of a
/// circle lie, if the ray's line crosses it.
pub open spec fn circle_crossings(
    m: Arithmetic,
    center: Place,
    radius: Scalar,
    place: Place,
) -> Option<(Scalar, Scalar)> {
    let to_center = way(m, place, center);
    let squared = squares_apart(m, radius, aside(m, slant(), to_center));
    if (Scalar { bits: ZERO }).below(squared) {
        let ahead = along(m, slant(), to_center);
        Some((m.minus(ahead, m.sqrt(squared)), m.plus(ahead, m.sqrt(squared))))
    } else {
        None
    }
}

fn find_circle_crossings<K: Kernel>(center: Place, radius: Scalar, place: Place, kernel: &K) -> (r:
    Option<(Scalar, Scalar)>)
    ensures
        r == circle_crossings(kernel.model(), center, radius, place),
{
    let direction = (Scalar { bits: SLANT_U }, Scalar { bits: SLANT_V });
    let to_center = way_of(place, center, kernel);
    let squared = squares_apart_of(radius, aside_of(direction, to_center, kernel), kernel);
    if (Scalar { bits: ZERO }).lt(squared) {
        let ahead = along_of(direction, to_center, kernel);
        let offset = kernel.scalar(ScalarOp::Sqrt(squared));
        Some((kernel.minus(ahead, offset), kernel.plus(ahead, offset)))
    } else {
        None
    }
}

/// Whether a crossing of a circle lies ahead of a place and on an arc.
pub open spec fn meets_arc(
    m: Arithmetic,
    center: Place,
    radius: Scalar,
    start: Scalar,
    end: Scalar,
    place: Place,
    ahead: Scalar,
) -> bool {
    (Scalar { bits: ZERO }).below(ahead) && faces(
        m,
        center,
        radius,
        start,
        end,
        beyond(m, place, slant(), ahead),
    )
}

fn does_meet_arc<K: Kernel>(
    center: Place,
    radius: Scalar,
    start: Scalar,
    end: Scalar,
    place: Place,
    ahead: Scalar,
    kernel: &K,
) -> (r: bool)
    ensures
        r == meets_arc(kernel.model(), center, radius, start, end, place, ahead),
{
    let direction = (Scalar { bits: SLANT_U }, Scalar { bits: SLANT_V });
    (Scalar { bits: ZERO }).lt(ahead) && is_facing(
        center,
        radius,
        start,
        end,
        beyond_of(place, direction, ahead, kernel),
        kernel,
    )
}

/// Whether a ray from a place meets a curve an odd number of times.
pub open spec fn met_oddly(m: Arithmetic, curve: SketchGeometry, place: Place) -> bool {
    let zero = Scalar { bits: ZERO };
    match curve {
        SketchGeometry::Line { start, end } => meets_line(m, start, end, place),
        SketchGeometry::Circle { center, radius } => match circle_crossings(
            m,
            center,
            radius,
            place,
        ) {
            Some((near, far)) => zero.below(near) != zero.below(far),
            None => false,
        },
        SketchGeometry::Arc { center, radius, start_angle, end_angle } => match circle_crossings(
            m,
            center,
            radius,
            place,
        ) {
            Some((near, far)) => meets_arc(m, center, radius, start_angle, end_angle, place, near)
                != meets_arc(m, center, radius, start_angle, end_angle, place, far),
            None => false,
        },
        SketchGeometry::Other => false,
    }
}

/// Whether a ray from a place meets a curve an odd number of times.
pub fn is_met_oddly<K: Kernel>(curve: SketchGeometry, place: Place, kernel: &K) -> (r: bool)
    ensures
        r == met_oddly(kernel.model(), curve, place),
{
    let zero = Scalar { bits: ZERO };
    match curve {
        SketchGeometry::Line { start, end } => does_meet_line(start, end, place, kernel),
        SketchGeometry::Circle { center, radius } => match find_circle_crossings(
            center,
            radius,
            place,
            kernel,
        ) {
            Some((near, far)) => zero.lt(near) != zero.lt(far),
            None => false,
        },
        SketchGeometry::Arc { center, radius, start_angle, end_angle } => match find_circle_crossings(
            center,
            radius,
            place,
            kernel,
        ) {
            Some((near, far)) => does_meet_arc(
                center,
                radius,
                start_angle,
                end_angle,
                place,
                near,
                kernel,
            ) != does_meet_arc(center, radius, start_angle, end_angle, place, far, kernel),
            None => false,
        },
        SketchGeometry::Other => false,
    }
}

// ---------------------------------------------------------------------------
// two curves
// ---------------------------------------------------------------------------

/// What a curve is part of: a line through two places, or a circle.
#[derive(Clone, Copy)]
pub enum Support {
    Straight { from: Place, to: Place },
    Round { center: Place, radius: Scalar },
    Nothing,
}

/// What a curve is part of.
pub open spec fn support(curve: SketchGeometry) -> Support {
    match curve {
        SketchGeometry::Line { start, end } => Support::Straight { from: start, to: end },
        SketchGeometry::Circle { center, radius } => Support::Round { center, radius },
        SketchGeometry::Arc { center, radius, .. } => Support::Round { center, radius },
        SketchGeometry::Other => Support::Nothing,
    }
}

/// What a curve is part of.
pub fn support_of(curve: SketchGeometry) -> (r: Support)
    ensures
        r == support(curve),
{
    match curve {
        SketchGeometry::Line { start, end } => Support::Straight { from: start, to: end },
        SketchGeometry::Circle { center, radius } => Support::Round { center, radius },
        SketchGeometry::Arc { center, radius, .. } => Support::Round { center, radius },
        SketchGeometry::Other => Support::Nothing,
    }
}

/// Where the line from `a` to `b` meets the one from `c` to `d`.
pub open spec fn lines_meet(m: Arithmetic, a: Place, b: Place, c: Place, d: Place) -> Place {
    let step = way(m, a, b);
    let other = way(m, c, d);
    beyond(
        m,
        a,
        step,
        m.divide(aside(m, way(m, a, c), other), aside(m, step, other)),
    )
}

/// Where a line meets a circle, or comes nearest to it: to both sides of the foot
/// of the perpendicular from the centre.
pub open spec fn line_meets_circle(
    m: Arithmetic,
    a: Place,
    b: Place,
    center: Place,
    radius: Scalar,
) -> (Place, Place) {
    let step = way(m, a, b);
    let foot = beyond(
        m,
        a,
        step,
        m.divide(along(m, way(m, a, center), step), along(m, step, step)),
    );
    let share = m.divide(
        root(m, squares_apart(m, radius, distance(m, center, foot))),
        reach(m, step),
    );
    (beyond(m, foot, step, share), beyond(m, foot, step, share.negated()))
}

/// Where two circles meet, or come nearest to one another: to both sides of the
/// line of their centres.
pub open spec fn circles_meet(
    m: Arithmetic,
    center: Place,
    radius: Scalar,
    other: Place,
    second: Scalar,
) -> (Place, Place) {
    let step = way(m, center, other);
    let apart = reach(m, step);
    let ahead = m.divide(
        m.mul_add(apart, apart, squares_apart(m, radius, second)),
        m.times(Scalar { bits: TWO }, apart),
    );
    let foot = beyond(m, center, step, m.divide(ahead, apart));
    let share = m.divide(root(m, squares_apart(m, radius, ahead)), apart);
    (beyond(m, foot, turned(step), share), beyond(m, foot, turned(step), share.negated()))
}

/// Where the lines or circles that two curves are part of meet.
pub open spec fn supports_meet(m: Arithmetic, first: Support, second: Support) -> Seq<Place> {
    match (first, second) {
        (Support::Straight { from, to }, Support::Straight { from: c, to: d }) => seq![
            lines_meet(m, from, to, c, d),
        ],
        (Support::Straight { from, to }, Support::Round { center, radius }) => {
            let (p, q) = line_meets_circle(m, from, to, center, radius);
            seq![p, q]
        },
        (Support::Round { center, radius }, Support::Straight { from, to }) => {
            let (p, q) = line_meets_circle(m, from, to, center, radius);
            seq![p, q]
        },
        (Support::Round { center, radius }, Support::Round { center: other, radius: second }) => {
            let (p, q) = circles_meet(m, center, radius, other, second);
            seq![p, q]
        },
        _ => Seq::empty(),
    }
}

fn find_lines_meeting<K: Kernel>(a: Place, b: Place, c: Place, d: Place, kernel: &K) -> (r: Place)
    ensures
        r == lines_meet(kernel.model(), a, b, c, d),
{
    let step = way_of(a, b, kernel);
    let other = way_of(c, d, kernel);
    let share = kernel.divide(
        aside_of(way_of(a, c, kernel), other, kernel),
        aside_of(step, other, kernel),
    );
    beyond_of(a, step, share, kernel)
}

fn find_line_meeting_circle<K: Kernel>(
    a: Place,
    b: Place,
    center: Place,
    radius: Scalar,
    kernel: &K,
) -> (r: (Place, Place))
    ensures
        r == line_meets_circle(kernel.model(), a, b, center, radius),
{
    let step = way_of(a, b, kernel);
    let at = kernel.divide(
        along_of(way_of(a, center, kernel), step, kernel),
        along_of(step, step, kernel),
    );
    let foot = beyond_of(a, step, at, kernel);
    let offset = root_of(
        squares_apart_of(radius, distance_of(center, foot, kernel), kernel),
        kernel,
    );
    let share = kernel.divide(offset, reach_of(step, kernel));
    (beyond_of(foot, step, share, kernel), beyond_of(foot, step, share.neg(), kernel))
}

fn find_circles_meeting<K: Kernel>(
    center: Place,
    radius: Scalar,
    other: Place,
    second: Scalar,
    kernel: &K,
) -> (r: (Place, Place))
    ensures
        r == circles_meet(kernel.model(), center, radius, other, second),
{
    let step = way_of(center, other, kernel);
    let apart = reach_of(step, kernel);
    let ahead = kernel.divide(
        kernel.mul_add(apart, apart, squares_apart_of(radius, second, kernel)),
        kernel.times(Scalar { bits: TWO }, apart),
    );
    let foot = beyond_of(center, step, kernel.divide(ahead, apart), kernel);
    let share = kernel.divide(root_of(squares_apart_of(radius, ahead, kernel), kernel), apart);
    let across = (step.1.neg(), step.0);
    (beyond_of(foot, across, share, kernel), beyond_of(foot, across, share.neg(), kernel))
}

/// Where the lines or circles that two curves are part of meet.
pub fn find_meetings<K: Kernel>(first: Support, second: Support, kernel: &K) -> (r: Vec<Place>)
    ensures
        r@ == supports_meet(kernel.model(), first, second),
{
    let mut out: Vec<Place> = Vec::new();
    match (first, second) {
        (Support::Straight { from, to }, Support::Straight { from: c, to: d }) => {
            out.push(find_lines_meeting(from, to, c, d, kernel));
        },
        (Support::Straight { from, to }, Support::Round { center, radius }) => {
            let (p, q) = find_line_meeting_circle(from, to, center, radius, kernel);
            out.push(p);
            out.push(q);
        },
        (Support::Round { center, radius }, Support::Straight { from, to }) => {
            let (p, q) = find_line_meeting_circle(from, to, center, radius, kernel);
            out.push(p);
            out.push(q);
        },
        (Support::Round { center, radius }, Support::Round { center: other, radius: second }) => {
            let (p, q) = find_circles_meeting(center, radius, other, second, kernel);
            out.push(p);
            out.push(q);
        },
        _ => {},
    }
    assert(out@ =~= supports_meet(kernel.model(), first, second));
    out
}

// ---------------------------------------------------------------------------
// between two places of a curve
// ---------------------------------------------------------------------------

/// The places half way between two places of a line or a circle: on a circle
/// those to both sides, and those a quarter turn from the first, which are half
/// way where the two places lie opposite one another.
pub open spec fn halfway(m: Arithmetic, on: Support, p: Place, q: Place) -> Seq<Place> {
    match on {
        Support::Straight { .. } => seq![(m.midpoint(p.0, q.0), m.midpoint(p.1, q.1))],
        Support::Round { center, radius } => {
            let to_p = way(m, center, p);
            let to_q = way(m, center, q);
            let both = (m.plus(to_p.0, to_q.0), m.plus(to_p.1, to_q.1));
            let share = m.divide(radius.unsigned(), reach(m, both));
            let quarter = m.divide(radius.unsigned(), reach(m, to_p));
            seq![
                beyond(m, center, both, share),
                beyond(m, center, both, share.negated()),
                beyond(m, center, turned(to_p), quarter),
                beyond(m, center, turned(to_p), quarter.negated()),
            ]
        },
        Support::Nothing => Seq::empty(),
    }
}

/// The places half way between two places of a line or a circle.
pub fn find_halfway<K: Kernel>(on: Support, p: Place, q: Place, kernel: &K) -> (r: Vec<Place>)
    ensures
        r@ == halfway(kernel.model(), on, p, q),
{
    let mut out: Vec<Place> = Vec::new();
    match on {
        Support::Straight { .. } => {
            out.push((kernel.midpoint(p.0, q.0), kernel.midpoint(p.1, q.1)));
        },
        Support::Round { center, radius } => {
            let to_p = way_of(center, p, kernel);
            let to_q = way_of(center, q, kernel);
            let both = (kernel.plus(to_p.0, to_q.0), kernel.plus(to_p.1, to_q.1));
            let share = kernel.divide(radius.abs(), reach_of(both, kernel));
            let quarter = kernel.divide(radius.abs(), reach_of(to_p, kernel));
            let across = (to_p.1.neg(), to_p.0);
            out.push(beyond_of(center, both, share, kernel));
            out.push(beyond_of(center, both, share.neg(), kernel));
            out.push(beyond_of(center, across, quarter, kernel));
            out.push(beyond_of(center, across, quarter.neg(), kernel));
        },
        Support::Nothing => {},
    }
    assert(out@ =~= halfway(kernel.model(), on, p, q));
    out
}

} // verus!
