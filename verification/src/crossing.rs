//! Whether profile loops cross one another.
//!
//! Two loops cross when one of them passes from the inside of the other to its
//! outside. Whether it does is judged on the curves themselves: each curve is
//! divided where it meets the other loop, and the pieces between are looked at.
//! Loops that touch, or that overlap by no more than the slack on stations and
//! directions, do not cross.

use crate::curve;
use crate::curve::{
    ends_of, find_halfway, find_meetings, is_met_oddly, is_on, support_of, Place,
};
use crate::ir::SketchGeometry;
use crate::kernel::{Arithmetic, Kernel};
use crate::ring::{Ring, RingView};
use vstd::prelude::*;

verus! {

// ---------------------------------------------------------------------------
// inside and outside
// ---------------------------------------------------------------------------

/// Whether a ray from a place meets the first `n` curves an odd number of times.
pub open spec fn all_met_oddly(
    m: Arithmetic,
    curves: Seq<SketchGeometry>,
    place: Place,
    n: int,
) -> bool
    decreases n,
{
    n > 0 && (all_met_oddly(m, curves, place, n - 1) != curve::met_oddly(m, curves[n - 1], place))
}

/// Whether a place is within a loop of curves: a ray from it meets the loop an
/// odd number of times.
pub open spec fn encircled(m: Arithmetic, curves: Seq<SketchGeometry>, place: Place) -> bool {
    all_met_oddly(m, curves, place, curves.len() as int)
}

fn is_encircled<K: Kernel>(curves: &Vec<SketchGeometry>, place: Place, kernel: &K) -> (r: bool)
    ensures
        r == encircled(kernel.model(), curves@, place),
{
    let mut odd = false;
    let mut i: usize = 0;
    while i < curves.len()
        invariant
            i <= curves@.len(),
            odd == all_met_oddly(kernel.model(), curves@, place, i as int),
        decreases curves@.len() - i,
    {
        odd = odd != is_met_oddly(curves[i], place, kernel);
        i += 1;
    }
    odd
}

/// Whether a place lies on none of some curves.
pub open spec fn is_clear(m: Arithmetic, curves: Seq<SketchGeometry>, place: Place) -> bool {
    forall|i: int| 0 <= i < curves.len() ==> !curve::lies_on(m, #[trigger] curves[i], place)
}

fn lies_clear<K: Kernel>(curves: &Vec<SketchGeometry>, place: Place, kernel: &K) -> (r: bool)
    ensures
        r == is_clear(kernel.model(), curves@, place),
{
    let mut i: usize = 0;
    while i < curves.len()
        invariant
            i <= curves@.len(),
            forall|k: int|
                0 <= k < i ==> !curve::lies_on(kernel.model(), #[trigger] curves@[k], place),
        decreases curves@.len() - i,
    {
        if is_on(curves[i], place, kernel) {
            assert(curve::lies_on(kernel.model(), curves@[i as int], place));
            return false;
        }
        i += 1;
    }
    true
}

// ---------------------------------------------------------------------------
// pieces of a curve
// ---------------------------------------------------------------------------

/// Those of the first `n` places that lie on both of two curves.
pub open spec fn on_both(
    m: Arithmetic,
    first: SketchGeometry,
    second: SketchGeometry,
    places: Seq<Place>,
    n: int,
) -> Seq<Place>
    decreases n,
{
    if n <= 0 {
        Seq::empty()
    } else {
        let rest = on_both(m, first, second, places, n - 1);
        if curve::lies_on(m, first, places[n - 1]) && curve::lies_on(m, second, places[n - 1]) {
            rest.push(places[n - 1])
        } else {
            rest
        }
    }
}

/// The places where one curve meets another or the other ends on it.
pub open spec fn shared(m: Arithmetic, own: SketchGeometry, other: SketchGeometry) -> Seq<Place> {
    let places = curve::supports_meet(m, curve::support(own), curve::support(other))
        + curve::ends(m, other);
    on_both(m, own, other, places, places.len() as int)
}

fn find_shared<K: Kernel>(own: SketchGeometry, other: SketchGeometry, kernel: &K) -> (r: Vec<Place>)
    ensures
        r@ == shared(kernel.model(), own, other),
{
    let mut places = find_meetings(support_of(own), support_of(other), kernel);
    let mut more = ends_of(other, kernel);
    places.append(&mut more);
    let mut out: Vec<Place> = Vec::new();
    let mut i: usize = 0;
    while i < places.len()
        invariant
            i <= places@.len(),
            out@ == on_both(kernel.model(), own, other, places@, i as int),
        decreases places@.len() - i,
    {
        if is_on(own, places[i], kernel) && is_on(other, places[i], kernel) {
            out.push(places[i]);
        }
        i += 1;
    }
    out
}

/// The places that divide a curve: its own ends, and where it meets the first `n`
/// curves of a loop.
pub open spec fn divisions(
    m: Arithmetic,
    own: SketchGeometry,
    curves: Seq<SketchGeometry>,
    n: int,
) -> Seq<Place>
    decreases n,
{
    if n <= 0 {
        curve::ends(m, own)
    } else {
        divisions(m, own, curves, n - 1) + shared(m, own, curves[n - 1])
    }
}

fn find_divisions<K: Kernel>(own: SketchGeometry, curves: &Vec<SketchGeometry>, kernel: &K) -> (r:
    Vec<Place>)
    ensures
        r@ == divisions(kernel.model(), own, curves@, curves@.len() as int),
{
    let mut out = ends_of(own, kernel);
    let mut i: usize = 0;
    while i < curves.len()
        invariant
            i <= curves@.len(),
            out@ == divisions(kernel.model(), own, curves@, i as int),
        decreases curves@.len() - i,
    {
        let mut more = find_shared(own, curves[i], kernel);
        out.append(&mut more);
        i += 1;
    }
    out
}

/// Whether a place of a curve is clear of a loop, and within it or not.
pub open spec fn is_witness(
    m: Arithmetic,
    own: SketchGeometry,
    curves: Seq<SketchGeometry>,
    place: Place,
    within: bool,
) -> bool {
    &&& curve::lies_on(m, own, place)
    &&& is_clear(m, curves, place)
    &&& encircled(m, curves, place) == within
}

/// Whether a curve has such a place half way between two others.
pub open spec fn piece_reaches(
    m: Arithmetic,
    own: SketchGeometry,
    curves: Seq<SketchGeometry>,
    p: Place,
    q: Place,
    within: bool,
) -> bool {
    exists|k: int|
        0 <= k < curve::halfway(m, curve::support(own), p, q).len() && is_witness(
            m,
            own,
            curves,
            #[trigger] curve::halfway(m, curve::support(own), p, q)[k],
            within,
        )
}

fn does_piece_reach<K: Kernel>(
    own: SketchGeometry,
    curves: &Vec<SketchGeometry>,
    p: Place,
    q: Place,
    within: bool,
    kernel: &K,
) -> (r: bool)
    ensures
        r == piece_reaches(kernel.model(), own, curves@, p, q, within),
{
    let ghost m = kernel.model();
    let places = find_halfway(support_of(own), p, q, kernel);
    let mut k: usize = 0;
    while k < places.len()
        invariant
            k <= places@.len(),
            m == kernel.model(),
            places@ == curve::halfway(m, curve::support(own), p, q),
            forall|i: int|
                0 <= i < k ==> !is_witness(
                    m,
                    own,
                    curves@,
                    #[trigger] curve::halfway(m, curve::support(own), p, q)[i],
                    within,
                ),
        decreases places@.len() - k,
    {
        let place = places[k];
        assert(place == curve::halfway(m, curve::support(own), p, q)[k as int]);
        if is_on(own, place, kernel) && lies_clear(curves, place, kernel) && is_encircled(
            curves,
            place,
            kernel,
        ) == within {
            return true;
        }
        k += 1;
    }
    false
}

/// Whether a piece of a curve, between two of the places that divide it, reaches
/// into a loop, or out of it.
pub open spec fn curve_reaches(
    m: Arithmetic,
    own: SketchGeometry,
    curves: Seq<SketchGeometry>,
    within: bool,
) -> bool {
    exists|i: int, j: int|
        0 <= i <= j < divisions(m, own, curves, curves.len() as int).len()
            && #[trigger] piece_reaches(
            m,
            own,
            curves,
            divisions(m, own, curves, curves.len() as int)[i],
            divisions(m, own, curves, curves.len() as int)[j],
            within,
        )
}

fn does_curve_reach<K: Kernel>(
    own: SketchGeometry,
    curves: &Vec<SketchGeometry>,
    within: bool,
    kernel: &K,
) -> (r: bool)
    ensures
        r == curve_reaches(kernel.model(), own, curves@, within),
{
    let ghost m = kernel.model();
    let places = find_divisions(own, curves, kernel);
    let mut i: usize = 0;
    while i < places.len()
        invariant
            i <= places@.len(),
            m == kernel.model(),
            places@ == divisions(m, own, curves@, curves@.len() as int),
            forall|a: int, b: int|
                0 <= a < i && a <= b < places@.len() ==> !#[trigger] piece_reaches(
                    m,
                    own,
                    curves@,
                    places@[a],
                    places@[b],
                    within,
                ),
        decreases places@.len() - i,
    {
        let mut j: usize = i;
        while j < places.len()
            invariant
                i <= j <= places@.len(),
                i < places@.len(),
                m == kernel.model(),
                places@ == divisions(m, own, curves@, curves@.len() as int),
                forall|b: int|
                    i <= b < j ==> !#[trigger] piece_reaches(
                        m,
                        own,
                        curves@,
                        places@[i as int],
                        places@[b],
                        within,
                    ),
            decreases places@.len() - j,
        {
            if does_piece_reach(own, curves, places[i], places[j], within, kernel) {
                return true;
            }
            j += 1;
        }
        i += 1;
    }
    false
}

// ---------------------------------------------------------------------------
// loops
// ---------------------------------------------------------------------------

/// Whether a curve of the second loop reaches into the first, or out of it.
pub open spec fn reaches(m: Arithmetic, a: RingView, b: RingView, within: bool) -> bool {
    exists|i: int|
        0 <= i < b.curves.len() && curve_reaches(m, #[trigger] b.curves[i], a.curves, within)
}

fn does_reach<K: Kernel>(a: &Ring, b: &Ring, within: bool, kernel: &K) -> (r: bool)
    ensures
        r == reaches(kernel.model(), a@, b@, within),
{
    let mut i: usize = 0;
    while i < b.curves.len()
        invariant
            i <= b.curves@.len(),
            forall|k: int|
                0 <= k < i ==> !curve_reaches(
                    kernel.model(),
                    #[trigger] b@.curves[k],
                    a@.curves,
                    within,
                ),
        decreases b.curves@.len() - i,
    {
        assert(b.curves@[i as int] == b@.curves[i as int]);
        if does_curve_reach(b.curves[i], &a.curves, within, kernel) {
            return true;
        }
        i += 1;
    }
    false
}

/// Whether two loops cross: one of them reaches both into the other and out of
/// it.
pub open spec fn loops_cross(m: Arithmetic, a: RingView, b: RingView) -> bool {
    ||| reaches(m, a, b, true) && reaches(m, a, b, false)
    ||| reaches(m, b, a, true) && reaches(m, b, a, false)
}

/// Whether two loops cross.
pub fn do_loops_cross<K: Kernel>(a: &Ring, b: &Ring, kernel: &K) -> (r: bool)
    ensures
        r == loops_cross(kernel.model(), a@, b@),
{
    (does_reach(a, b, true, kernel) && does_reach(a, b, false, kernel)) || (does_reach(
        b,
        a,
        true,
        kernel,
    ) && does_reach(b, a, false, kernel))
}

/// Whether some two of some loops cross.
pub open spec fn any_cross(m: Arithmetic, rings: Seq<RingView>) -> bool {
    exists|i: int, j: int|
        0 <= i < j < rings.len() && #[trigger] loops_cross(m, rings[i], rings[j])
}

/// Whether some two of some loops cross.
pub fn some_cross<K: Kernel>(rings: &Vec<Ring>, kernel: &K) -> (r: bool)
    ensures
        r == any_cross(kernel.model(), rings@.map_values(|ring: Ring| ring@)),
{
    let ghost m = kernel.model();
    let ghost views = rings@.map_values(|ring: Ring| ring@);
    let mut i: usize = 0;
    while i < rings.len()
        invariant
            i <= rings@.len(),
            m == kernel.model(),
            views == rings@.map_values(|ring: Ring| ring@),
            forall|a: int, b: int|
                0 <= a < i && a < b < views.len() ==> !#[trigger] loops_cross(
                    m,
                    views[a],
                    views[b],
                ),
        decreases rings@.len() - i,
    {
        let mut j: usize = i + 1;
        while j < rings.len()
            invariant
                i < j <= rings@.len(),
                m == kernel.model(),
                views == rings@.map_values(|ring: Ring| ring@),
                forall|b: int| i < b < j ==> !#[trigger] loops_cross(m, views[i as int], views[b]),
            decreases rings@.len() - j,
        {
            assert(views[i as int] == rings@[i as int]@);
            assert(views[j as int] == rings@[j as int]@);
            if do_loops_cross(&rings[i], &rings[j], kernel) {
                return true;
            }
            j += 1;
        }
        i += 1;
    }
    false
}

/// Which of two loops is named first does not matter to whether they cross.
pub proof fn crossing_is_symmetric(m: Arithmetic, a: RingView, b: RingView)
    ensures
        loops_cross(m, a, b) == loops_cross(m, b, a),
{
}

/// Loops that cross are shown to: a curve of one of them has a place clear of the
/// other and within it, and a curve of the same loop one clear of it and outside.
pub proof fn crossing_has_witnesses(m: Arithmetic, a: RingView, b: RingView)
    requires
        loops_cross(m, a, b),
    ensures
        passes_through(m, a, b) || passes_through(m, b, a),
{
    if reaches(m, a, b, true) && reaches(m, a, b, false) {
        reaching_has_a_witness(m, a, b, true);
        reaching_has_a_witness(m, a, b, false);
    } else {
        reaching_has_a_witness(m, b, a, true);
        reaching_has_a_witness(m, b, a, false);
    }
}

/// Whether a loop has a place clear of another, and within it or not.
pub open spec fn has_place(m: Arithmetic, a: RingView, b: RingView, within: bool) -> bool {
    exists|i: int, place: Place|
        0 <= i < b.curves.len() && #[trigger] is_witness(m, b.curves[i], a.curves, place, within)
}

/// Whether the second loop has places on both sides of the first.
pub open spec fn passes_through(m: Arithmetic, a: RingView, b: RingView) -> bool {
    has_place(m, a, b, true) && has_place(m, a, b, false)
}

proof fn reaching_has_a_witness(m: Arithmetic, a: RingView, b: RingView, within: bool)
    requires
        reaches(m, a, b, within),
    ensures
        has_place(m, a, b, within),
{
    let i = choose|i: int|
        0 <= i < b.curves.len() && curve_reaches(m, #[trigger] b.curves[i], a.curves, within);
    let own = b.curves[i];
    let places = divisions(m, own, a.curves, a.curves.len() as int);
    let (p, q) = choose|p: int, q: int|
        0 <= p <= q < places.len() && #[trigger] piece_reaches(
            m,
            own,
            a.curves,
            places[p],
            places[q],
            within,
        );
    let spots = curve::halfway(m, curve::support(own), places[p], places[q]);
    let k = choose|k: int|
        0 <= k < spots.len() && is_witness(m, own, a.curves, #[trigger] spots[k], within);
    assert(is_witness(m, b.curves[i], a.curves, spots[k], within));
}

} // verus!
