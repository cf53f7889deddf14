//! What is measured on profile curves, and what it means that loops cross.

use crate::crossing;
use crate::curve;
use crate::curve::{Place, Support};
use crate::ir::SketchGeometry;
use crate::kernel::Arithmetic;
use crate::ring::RingView;
use crate::scalar::Scalar;
use vstd::prelude::*;

verus! {

// ---------------------------------------------------------------------------
// distances
// ---------------------------------------------------------------------------

/// The distance between two places.
pub open spec fn apart(m: Arithmetic, a: Place, b: Place) -> Scalar {
    m.hypot(m.minus(b.0, a.0), m.minus(b.1, a.1))
}

/// The inner product of the ways from one place to two others.
pub open spec fn inner(m: Arithmetic, from: Place, a: Place, b: Place) -> Scalar {
    m.mul_add(
        m.minus(a.0, from.0),
        m.minus(b.0, from.0),
        m.times(m.minus(a.1, from.1), m.minus(b.1, from.1)),
    )
}

/// The outer product of the ways between two pairs of places.
pub open spec fn outer(m: Arithmetic, a: Place, b: Place, c: Place, d: Place) -> Scalar {
    m.mul_add(
        m.minus(b.0, a.0),
        m.minus(d.1, c.1),
        m.times(m.minus(b.1, a.1), m.minus(d.0, c.0)).negated(),
    )
}

/// The place a share of the way from one place to another.
pub open spec fn part_way(m: Arithmetic, from: Place, to: Place, share: Scalar) -> Place {
    (
        m.mul_add(share, m.minus(to.0, from.0), from.0),
        m.mul_add(share, m.minus(to.1, from.1), from.1),
    )
}

/// The place at an angle about a centre.
pub open spec fn round_place(m: Arithmetic, center: Place, radius: Scalar, angle: Scalar) -> Place {
    (m.mul_add(radius, m.cos(angle), center.0), m.mul_add(radius, m.sin(angle), center.1))
}

/// Whether a place is no farther round from the middle of an arc than its ends are.
pub open spec fn within_sweep(
    m: Arithmetic,
    center: Place,
    radius: Scalar,
    start: Scalar,
    end: Scalar,
    place: Place,
) -> bool {
    let half = m.divide(
        m.minus(end, start),
        Scalar { bits: 0x4000_0000_0000_0000 },
    ).unsigned();
    let middle = round_place(m, center, radius, m.midpoint(start, end));
    ||| (Scalar { bits: 0x4009_21fb_5444_2d18 }).at_most(half)
    ||| m.times(m.times(apart(m, center, place), radius.unsigned()), m.cos(half)).at_most(
        inner(m, center, place, middle),
    )
}

/// A straight curve is as far from a place as its nearest point is, which lies on
/// it between its ends. A circle is as far as the place is from being at its radius.
/// An arc is as far as its circle is where the place lies within its sweep, and as
/// its nearer end elsewhere.
pub proof fn curves_are_as_far_as_their_nearest_place(
    m: Arithmetic,
    curve: SketchGeometry,
    place: Place,
)
    ensures
        match curve {
            SketchGeometry::Line { start, end } => {
                let share = m.divide(inner(m, start, place, end), inner(m, start, end, end));
                let kept = share.greater(Scalar { bits: 0 }).lesser(
                    Scalar { bits: 0x3ff0_0000_0000_0000 },
                );
                curve::clearance(m, curve, place) == apart(
                    m,
                    part_way(m, start, end, kept),
                    place,
                )
            },
            SketchGeometry::Circle { center, radius } => curve::clearance(m, curve, place)
                == m.minus(apart(m, center, place), radius.unsigned()).unsigned(),
            SketchGeometry::Arc { center, radius, start_angle, end_angle } => curve::clearance(
                m,
                curve,
                place,
            ) == if within_sweep(m, center, radius, start_angle, end_angle, place) {
                m.minus(apart(m, center, place), radius.unsigned()).unsigned()
            } else {
                apart(m, round_place(m, center, radius, start_angle), place).lesser(
                    apart(m, round_place(m, center, radius, end_angle), place),
                )
            },
            SketchGeometry::Other => curve::clearance(m, curve, place).bits
                == 0x7ff0_0000_0000_0000,
        },
        curve::lies_on(m, curve, place) <==> curve::clearance(m, curve, place).at_most(
            m.direction_tolerance,
        ),
{
}

/// A curve ends where it is drawn from and to; a circle is taken up at angle zero.
pub proof fn curves_end_where_they_are_drawn(m: Arithmetic, curve: SketchGeometry)
    ensures
        match curve {
            SketchGeometry::Line { start, end } => curve::ends(m, curve) == seq![start, end],
            SketchGeometry::Arc { center, radius, start_angle, end_angle } => curve::ends(m, curve)
                == seq![
                round_place(m, center, radius, start_angle),
                round_place(m, center, radius, end_angle),
            ],
            SketchGeometry::Circle { center, radius } => curve::ends(m, curve) == seq![
                round_place(m, center, radius, Scalar { bits: 0 }),
            ],
            SketchGeometry::Other => curve::ends(m, curve).len() == 0,
        },
{
}

// ---------------------------------------------------------------------------
// rays
// ---------------------------------------------------------------------------

/// How far to the left of a slanting ray from a place another lies.
pub open spec fn left_of_ray(m: Arithmetic, place: Place, other: Place) -> Scalar {
    let (u, v) = (
        Scalar { bits: 0xbfe7_9886_9e0d_e833 },
        Scalar { bits: 0x3fe5_9d9d_d253_cc13 },
    );
    m.mul_add(
        u,
        m.minus(other.1, place.1),
        m.times(v, m.minus(other.0, place.0)).negated(),
    )
}

/// How far along a slanting ray from a place another lies.
pub open spec fn along_ray(m: Arithmetic, place: Place, other: Place) -> Scalar {
    let (u, v) = (
        Scalar { bits: 0xbfe7_9886_9e0d_e833 },
        Scalar { bits: 0x3fe5_9d9d_d253_cc13 },
    );
    m.mul_add(u, m.minus(other.0, place.0), m.times(v, m.minus(other.1, place.1)))
}

/// Whether a way along a slanting ray leads ahead, to a place within an arc's sweep.
pub open spec fn leads_to_arc(
    m: Arithmetic,
    center: Place,
    radius: Scalar,
    start: Scalar,
    end: Scalar,
    place: Place,
    ahead: Scalar,
) -> bool {
    let hit = (
        m.mul_add(ahead, Scalar { bits: 0xbfe7_9886_9e0d_e833 }, place.0),
        m.mul_add(ahead, Scalar { bits: 0x3fe5_9d9d_d253_cc13 }, place.1),
    );
    (Scalar { bits: 0 }).below(ahead) && within_sweep(m, center, radius, start, end, hit)
}

/// A ray from a place meets a straight curve where its ends lie to different sides
/// and the crossing lies ahead. It meets a circle once where one of the two
/// crossings of its line lies ahead and the other does not, and an arc likewise,
/// each crossing counting only where it lies within the arc's sweep.
pub proof fn rays_meet_what_lies_ahead(m: Arithmetic, curve: SketchGeometry, place: Place)
    ensures
        ({
            let zero = Scalar { bits: 0 };
            match curve {
                SketchGeometry::Line { start, end } => {
                    let a = left_of_ray(m, place, start);
                    let b = left_of_ray(m, place, end);
                    let near = along_ray(m, place, start);
                    let far = along_ray(m, place, end);
                    curve::met_oddly(m, curve, place) == (zero.below(a) != zero.below(b)
                        && zero.below(
                        m.mul_add(m.divide(a, m.minus(a, b)), m.minus(far, near), near),
                    ))
                },
                SketchGeometry::Circle { center, radius } => {
                    let left = left_of_ray(m, place, center);
                    let squared = m.mul_add(radius, radius, m.times(left, left).negated());
                    let ahead = along_ray(m, place, center);
                    curve::met_oddly(m, curve, place) == (zero.below(squared) && zero.below(
                        m.minus(ahead, m.sqrt(squared)),
                    ) != zero.below(m.plus(ahead, m.sqrt(squared))))
                },
                SketchGeometry::Arc { center, radius, start_angle, end_angle } => {
                    let left = left_of_ray(m, place, center);
                    let squared = m.mul_add(radius, radius, m.times(left, left).negated());
                    let ahead = along_ray(m, place, center);
                    curve::met_oddly(m, curve, place) == (zero.below(squared) && leads_to_arc(
                        m,
                        center,
                        radius,
                        start_angle,
                        end_angle,
                        place,
                        m.minus(ahead, m.sqrt(squared)),
                    ) != leads_to_arc(
                        m,
                        center,
                        radius,
                        start_angle,
                        end_angle,
                        place,
                        m.plus(ahead, m.sqrt(squared)),
                    ))
                },
                SketchGeometry::Other => !curve::met_oddly(m, curve, place),
            }
        }),
{
}

/// How many of the first `n` curves a ray from a place meets an odd number of times.
pub open spec fn curves_met(
    m: Arithmetic,
    curves: Seq<SketchGeometry>,
    place: Place,
    n: int,
) -> int
    decreases n,
{
    if n <= 0 {
        0
    } else {
        curves_met(m, curves, place, n - 1) + if curve::met_oddly(m, curves[n - 1], place) {
            1int
        } else {
            0
        }
    }
}

proof fn curves_are_counted(m: Arithmetic, curves: Seq<SketchGeometry>, place: Place, n: int)
    ensures
        crossing::all_met_oddly(m, curves, place, n) == (curves_met(m, curves, place, n) % 2 == 1),
        curves_met(m, curves, place, n) >= 0,
    decreases n,
{
    if n > 0 {
        curves_are_counted(m, curves, place, n - 1);
    }
}

/// A loop of curves encircles the places from which a ray meets an odd number of
/// them an odd number of times.
pub proof fn loops_encircle_by_parity(m: Arithmetic, curves: Seq<SketchGeometry>, place: Place)
    ensures
        crossing::encircled(m, curves, place) == (curves_met(
            m,
            curves,
            place,
            curves.len() as int,
        ) % 2 == 1),
{
    curves_are_counted(m, curves, place, curves.len() as int);
}

// ---------------------------------------------------------------------------
// meetings
// ---------------------------------------------------------------------------

/// Two lines meet where the outer products say: a share of the first line's own way
/// from where it starts. Where an outer product with the second line's way changes
/// along the first line in step with the share, as it does but for rounding, that
/// place is on the second line too: its outer product with that line is nothing.
pub proof fn lines_meet_on_both(m: Arithmetic, a: Place, b: Place, c: Place, d: Place)
    ensures
        ({
            let share = m.divide(outer(m, a, c, c, d), outer(m, a, b, c, d));
            let met = part_way(m, a, b, share);
            &&& curve::supports_meet(
                m,
                Support::Straight { from: a, to: b },
                Support::Straight { from: c, to: d },
            ) == seq![met]
            &&& (outer(m, c, met, c, d) == m.plus(
                outer(m, c, a, c, d),
                m.times(share, outer(m, a, b, c, d)),
            ) && m.times(share, outer(m, a, b, c, d)) == outer(m, a, c, c, d) && m.plus(
                outer(m, c, a, c, d),
                outer(m, a, c, c, d),
            ) == (Scalar { bits: 0 })) ==> outer(m, c, met, c, d) == (Scalar { bits: 0 })
        }),
{
}

/// A line meets a circle to both sides of the place nearest to the centre, as far
/// along it as the radius and the distance of that place leave.
pub proof fn line_meets_circle_about_its_foot(
    m: Arithmetic,
    a: Place,
    b: Place,
    center: Place,
    radius: Scalar,
)
    ensures
        ({
            let straight = Support::Straight { from: a, to: b };
            let round = Support::Round { center, radius };
            let foot = part_way(
                m,
                a,
                b,
                m.divide(inner(m, a, center, b), inner(m, a, b, b)),
            );
            let gap = apart(m, center, foot);
            let squared = m.mul_add(radius, radius, m.times(gap, gap).negated());
            let share = m.divide(
                m.sqrt(squared.greater(Scalar { bits: 0 })),
                apart(m, a, b),
            );
            let step = (m.minus(b.0, a.0), m.minus(b.1, a.1));
            let met = seq![
                (m.mul_add(share, step.0, foot.0), m.mul_add(share, step.1, foot.1)),
                (
                    m.mul_add(share.negated(), step.0, foot.0),
                    m.mul_add(share.negated(), step.1, foot.1),
                ),
            ];
            &&& curve::supports_meet(m, straight, round) == met
            &&& curve::supports_meet(m, round, straight) == met
        }),
{
}

/// Two circles meet to both sides of the line of their centres, across from the
/// place on it where the two have equal power.
pub proof fn circles_meet_across_their_centres(
    m: Arithmetic,
    center: Place,
    radius: Scalar,
    other: Place,
    second: Scalar,
)
    ensures
        ({
            let gap = apart(m, center, other);
            let powers = m.mul_add(radius, radius, m.times(second, second).negated());
            let ahead = m.divide(
                m.mul_add(gap, gap, powers),
                m.times(Scalar { bits: 0x4000_0000_0000_0000 }, gap),
            );
            let foot = part_way(m, center, other, m.divide(ahead, gap));
            let squared = m.mul_add(radius, radius, m.times(ahead, ahead).negated());
            let share = m.divide(m.sqrt(squared.greater(Scalar { bits: 0 })), gap);
            let across = (m.minus(other.1, center.1).negated(), m.minus(other.0, center.0));
            curve::supports_meet(
                m,
                Support::Round { center, radius },
                Support::Round { center: other, radius: second },
            ) == seq![
                (m.mul_add(share, across.0, foot.0), m.mul_add(share, across.1, foot.1)),
                (
                    m.mul_add(share.negated(), across.0, foot.0),
                    m.mul_add(share.negated(), across.1, foot.1),
                ),
            ]
        }),
{
}

/// A straight curve is part of the line through its ends, an arc and a circle of the
/// circle of their radius about their centre.
pub proof fn curves_are_parts_of_lines_and_circles(curve: SketchGeometry)
    ensures
        match curve {
            SketchGeometry::Line { start, end } => curve::support(curve) == (Support::Straight {
                from: start,
                to: end,
            }),
            SketchGeometry::Circle { center, radius } => curve::support(curve) == (
            Support::Round { center, radius }),
            SketchGeometry::Arc { center, radius, .. } => curve::support(curve) == (
            Support::Round { center, radius }),
            SketchGeometry::Other => curve::support(curve) is Nothing,
        },
{
}

/// Half way between two places of a line is their midpoint. On a circle it is to
/// either side of the centre, in the direction of the two ways from the centre
/// together, or a quarter turn from the first where those cancel: always a radius
/// away.
pub proof fn halfway_is_between(m: Arithmetic, p: Place, q: Place, on: Support)
    ensures
        match on {
            Support::Straight { .. } => curve::halfway(m, on, p, q) == seq![
                (m.midpoint(p.0, q.0), m.midpoint(p.1, q.1)),
            ],
            Support::Round { center, radius } => {
                let u = m.plus(m.minus(p.0, center.0), m.minus(q.0, center.0));
                let v = m.plus(m.minus(p.1, center.1), m.minus(q.1, center.1));
                let k = m.divide(radius.unsigned(), m.hypot(u, v));
                let s = m.minus(p.1, center.1).negated();
                let t = m.minus(p.0, center.0);
                let l = m.divide(radius.unsigned(), apart(m, center, p));
                curve::halfway(m, on, p, q) == seq![
                    (m.mul_add(k, u, center.0), m.mul_add(k, v, center.1)),
                    (m.mul_add(k.negated(), u, center.0), m.mul_add(k.negated(), v, center.1)),
                    (m.mul_add(l, s, center.0), m.mul_add(l, t, center.1)),
                    (m.mul_add(l.negated(), s, center.0), m.mul_add(l.negated(), t, center.1)),
                ]
            },
            Support::Nothing => curve::halfway(m, on, p, q).len() == 0,
        },
{
}

// ---------------------------------------------------------------------------
// crossing
// ---------------------------------------------------------------------------

/// Whether a place divides a curve: the curve ends there, or it meets a curve of
/// another loop there, or such a curve ends on it.
pub open spec fn divides(
    m: Arithmetic,
    own: SketchGeometry,
    curves: Seq<SketchGeometry>,
    n: int,
    place: Place,
) -> bool {
    ||| curve::ends(m, own).contains(place)
    ||| exists|i: int|
        0 <= i < n && (curve::supports_meet(
            m,
            curve::support(own),
            curve::support(#[trigger] curves[i]),
        ).contains(place) || curve::ends(m, curves[i]).contains(place)) && curve::lies_on(
            m,
            own,
            place,
        ) && curve::lies_on(m, curves[i], place)
}

proof fn shared_places(
    m: Arithmetic,
    first: SketchGeometry,
    second: SketchGeometry,
    places: Seq<Place>,
    n: int,
    place: Place,
)
    requires
        0 <= n <= places.len(),
    ensures
        crossing::on_both(m, first, second, places, n).contains(place) <==> places.take(n).contains(
            place,
        ) && curve::lies_on(m, first, place) && curve::lies_on(m, second, place),
    decreases n,
{
    let some = places.take(n);
    if n > 0 {
        shared_places(m, first, second, places, n - 1, place);
        let rest = crossing::on_both(m, first, second, places, n - 1);
        let now = crossing::on_both(m, first, second, places, n);
        let fewer = places.take(n - 1);
        assert(some =~= fewer.push(places[n - 1]));
        if rest.contains(place) {
            let k = choose|k: int| 0 <= k < rest.len() && rest[k] == place;
            assert(now[k] == place);
        }
        if fewer.contains(place) {
            let k = choose|k: int| 0 <= k < fewer.len() && fewer[k] == place;
            assert(some[k] == place);
        }
        assert(some[n - 1] == places[n - 1]);
        if now.contains(place) && !rest.contains(place) {
            let k = choose|k: int| 0 <= k < now.len() && now[k] == place;
            if k < rest.len() {
                assert(rest[k] == place);
            }
        }
        if some.contains(place) && !fewer.contains(place) {
            let k = choose|k: int| 0 <= k < some.len() && some[k] == place;
            if k < n - 1 {
                assert(fewer[k] == place);
            }
        }
        if places[n - 1] == place && curve::lies_on(m, first, place) && curve::lies_on(
            m,
            second,
            place,
        ) {
            assert(now[rest.len() as int] == place);
        }
    } else {
        assert(some.len() == 0);
    }
}

proof fn contains_either(a: Seq<Place>, b: Seq<Place>, place: Place)
    ensures
        (a + b).contains(place) <==> a.contains(place) || b.contains(place),
{
    if a.contains(place) {
        let i = choose|i: int| 0 <= i < a.len() && a[i] == place;
        assert((a + b)[i] == place);
    }
    if b.contains(place) {
        let i = choose|i: int| 0 <= i < b.len() && b[i] == place;
        assert((a + b)[a.len() + i] == place);
    }
    if (a + b).contains(place) {
        let i = choose|i: int| 0 <= i < (a + b).len() && (a + b)[i] == place;
        if i < a.len() {
            assert(a[i] == place);
        } else {
            assert(b[i - a.len()] == place);
        }
    }
}

/// A curve is divided exactly where it ends, where it meets a curve of the other
/// loop, and where such a curve ends on it.
pub proof fn curves_divide_one_another(
    m: Arithmetic,
    own: SketchGeometry,
    curves: Seq<SketchGeometry>,
    n: int,
    place: Place,
)
    requires
        0 <= n <= curves.len(),
    ensures
        crossing::divisions(m, own, curves, n).contains(place) <==> divides(
            m,
            own,
            curves,
            n,
            place,
        ),
    decreases n,
{
    if n > 0 {
        curves_divide_one_another(m, own, curves, n - 1, place);
        let other = curves[n - 1];
        let meetings = curve::supports_meet(m, curve::support(own), curve::support(other));
        let places = meetings + curve::ends(m, other);
        shared_places(m, own, other, places, places.len() as int, place);
        assert(places.take(places.len() as int) =~= places);
        contains_either(meetings, curve::ends(m, other), place);
        contains_either(
            crossing::divisions(m, own, curves, n - 1),
            crossing::shared(m, own, other),
            place,
        );
    }
}

/// Whether a loop has a place half way between two that divide its curves which is
/// clear of another loop, and within it or not.
pub open spec fn shows(m: Arithmetic, a: RingView, b: RingView, within: bool) -> bool {
    exists|i: int, p: Place, q: Place, place: Place| #[trigger]
        is_shown(m, a, b, i, p, q, place, within)
}

/// Whether a place half way between two that divide a curve of a loop is clear of
/// another loop, and within it or not.
pub open spec fn is_shown(
    m: Arithmetic,
    a: RingView,
    b: RingView,
    i: int,
    p: Place,
    q: Place,
    place: Place,
    within: bool,
) -> bool {
    let all = a.curves.len() as int;
    &&& 0 <= i < b.curves.len()
    &&& divides(m, b.curves[i], a.curves, all, p)
    &&& divides(m, b.curves[i], a.curves, all, q)
    &&& curve::halfway(m, curve::support(b.curves[i]), p, q).contains(place)
    &&& curve::lies_on(m, b.curves[i], place)
    &&& forall|k: int| 0 <= k < all ==> !curve::lies_on(m, #[trigger] a.curves[k], place)
    &&& (curves_met(m, a.curves, place, all) % 2 == 1) == within
}

proof fn reaching_is_shown(m: Arithmetic, a: RingView, b: RingView, within: bool)
    requires
        crossing::reaches(m, a, b, within),
    ensures
        shows(m, a, b, within),
{
    let all = a.curves.len() as int;
    let i = choose|i: int|
        0 <= i < b.curves.len() && crossing::curve_reaches(
            m,
            #[trigger] b.curves[i],
            a.curves,
            within,
        );
    let own = b.curves[i];
    let places = crossing::divisions(m, own, a.curves, all);
    let (x, y) = choose|x: int, y: int|
        0 <= x <= y < places.len() && #[trigger] crossing::piece_reaches(
            m,
            own,
            a.curves,
            places[x],
            places[y],
            within,
        );
    let spots = curve::halfway(m, curve::support(own), places[x], places[y]);
    let k = choose|k: int|
        0 <= k < spots.len() && crossing::is_witness(
            m,
            own,
            a.curves,
            #[trigger] spots[k],
            within,
        );
    assert(places.contains(places[x]) && places.contains(places[y]));
    curves_divide_one_another(m, own, a.curves, all, places[x]);
    curves_divide_one_another(m, own, a.curves, all, places[y]);
    loops_encircle_by_parity(m, a.curves, spots[k]);
    assert(spots.contains(spots[k]));
    assert(is_shown(m, a, b, i, places[x], places[y], spots[k], within));
}

/// Loops that cross show it: one of them has a place on one of its curves, half way
/// between two that divide the curve, that is clear of the other loop and within
/// it, and another such place that is clear of it and outside.
pub proof fn crossing_is_shown(m: Arithmetic, a: RingView, b: RingView)
    requires
        crossing::loops_cross(m, a, b),
    ensures
        (shows(m, a, b, true) && shows(m, a, b, false)) || (shows(m, b, a, true) && shows(
            m,
            b,
            a,
            false,
        )),
{
    if crossing::reaches(m, a, b, true) && crossing::reaches(m, a, b, false) {
        reaching_is_shown(m, a, b, true);
        reaching_is_shown(m, a, b, false);
    } else {
        reaching_is_shown(m, b, a, true);
        reaching_is_shown(m, b, a, false);
    }
}

proof fn shown_is_reached(
    m: Arithmetic,
    a: RingView,
    b: RingView,
    i: int,
    p: Place,
    q: Place,
    place: Place,
    within: bool,
)
    requires
        is_shown(m, a, b, i, p, q, place, within),
        is_shown(m, a, b, i, q, p, place, within),
    ensures
        crossing::reaches(m, a, b, within),
{
    let all = a.curves.len() as int;
    let own = b.curves[i];
    let places = crossing::divisions(m, own, a.curves, all);
    curves_divide_one_another(m, own, a.curves, all, p);
    curves_divide_one_another(m, own, a.curves, all, q);
    let x = choose|x: int| 0 <= x < places.len() && places[x] == p;
    let y = choose|y: int| 0 <= y < places.len() && places[y] == q;
    loops_encircle_by_parity(m, a.curves, place);
    assert(crossing::is_witness(m, own, a.curves, place, within));
    let forth = curve::halfway(m, curve::support(own), p, q);
    let k = choose|k: int| 0 <= k < forth.len() && forth[k] == place;
    assert(crossing::is_witness(m, own, a.curves, forth[k], within));
    assert(crossing::piece_reaches(m, own, a.curves, p, q, within));
    let back = curve::halfway(m, curve::support(own), q, p);
    let l = choose|l: int| 0 <= l < back.len() && back[l] == place;
    assert(crossing::is_witness(m, own, a.curves, back[l], within));
    assert(crossing::piece_reaches(m, own, a.curves, q, p, within));
    if x <= y {
        assert(crossing::piece_reaches(m, own, a.curves, places[x], places[y], within));
    } else {
        assert(crossing::piece_reaches(m, own, a.curves, places[y], places[x], within));
    }
    assert(crossing::curve_reaches(m, b.curves[i], a.curves, within));
}

/// Loops that show it do cross: whatever the order in which the two places that
/// divide the curve are named, a place on either side is enough.
pub proof fn what_is_shown_crosses(
    m: Arithmetic,
    a: RingView,
    b: RingView,
    i: int,
    p: Place,
    q: Place,
    inside: Place,
    j: int,
    r: Place,
    s: Place,
    outside: Place,
)
    requires
        is_shown(m, a, b, i, p, q, inside, true),
        is_shown(m, a, b, i, q, p, inside, true),
        is_shown(m, a, b, j, r, s, outside, false),
        is_shown(m, a, b, j, s, r, outside, false),
    ensures
        crossing::loops_cross(m, a, b),
        crossing::loops_cross(m, b, a),
{
    shown_is_reached(m, a, b, i, p, q, inside, true);
    shown_is_reached(m, a, b, j, r, s, outside, false);
}

} // verus!
