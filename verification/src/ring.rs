//! Profile loops reduced to rings.

use crate::arena;
use crate::arena::Catalog;
use crate::ir::{SketchEntity, SketchEntityUse, SketchGeometry};
use crate::kernel::{Arithmetic, Kernel, ScalarOp};
use crate::list::copied;
use crate::scalar::{Scalar, SIGN_BIT, TWO, ZERO};
use vstd::prelude::*;

verus! {

/// Steps an arc is sampled in.
pub const SAMPLES: usize = 24;

/// The pattern of a full turn in radians.
pub const TAU: u64 = 0x4019_21fb_5444_2d18;

/// What a [`Ring`] holds.
#[verifier::ext_equal]
pub struct RingView {
    pub index: usize,
    pub area: Scalar,
    pub interior: (Scalar, Scalar),
    pub circle: Option<((Scalar, Scalar), Scalar)>,
    pub polygon: Seq<(Scalar, Scalar)>,
    pub curves: Seq<SketchGeometry>,
}

/// A closed profile loop reduced to what region nesting needs.
pub struct Ring {
    /// Index into the sketch's profile table.
    pub index: usize,
    /// Enclosed area, used to order containment.
    pub area: Scalar,
    /// A point strictly inside the ring.
    pub interior: (Scalar, Scalar),
    /// Circle geometry when the ring is a lone circle, which is the case that
    /// can be matched against a solved cylinder.
    pub circle: Option<((Scalar, Scalar), Scalar)>,
    /// Sampled boundary, used for the point-in-ring test.
    pub polygon: Vec<(Scalar, Scalar)>,
    /// The curves of the loop, by which it is told whether loops cross.
    pub curves: Vec<SketchGeometry>,
}

impl View for Ring {
    type V = RingView;

    open spec fn view(&self) -> RingView {
        RingView {
            index: self.index,
            area: self.area,
            interior: self.interior,
            circle: self.circle,
            polygon: self.polygon@,
            curves: self.curves@,
        }
    }
}

/// Whether a rightward ray from a point crosses the side from `a` to `b`. A
/// closed ray also meets what the point itself lies on.
pub open spec fn ray_crosses(
    m: Arithmetic,
    a: (Scalar, Scalar),
    b: (Scalar, Scalar),
    point: (Scalar, Scalar),
    closed: bool,
) -> bool {
    let at = m.mul_add(
        m.minus(point.1, a.1),
        m.divide(m.minus(b.0, a.0), m.minus(b.1, a.1)),
        a.0,
    );
    if closed {
        point.1.at_most(a.1) != point.1.at_most(b.1) && point.0.at_most(at)
    } else {
        point.1.below(a.1) != point.1.below(b.1) && point.0.below(at)
    }
}

/// How many of the first `n` sides of a closed polygon the ray crosses.
pub open spec fn crossings(
    m: Arithmetic,
    polygon: Seq<(Scalar, Scalar)>,
    point: (Scalar, Scalar),
    closed: bool,
    n: int,
) -> nat
    decreases n,
{
    if n <= 0 {
        0
    } else {
        let rest = crossings(m, polygon, point, closed, n - 1);
        if ray_crosses(m, polygon[n - 1], polygon[n % polygon.len() as int], point, closed) {
            rest + 1
        } else {
            rest
        }
    }
}

/// Whether a ray from a point crosses a closed polygon an odd number of times.
pub open spec fn crosses_oddly(
    m: Arithmetic,
    polygon: Seq<(Scalar, Scalar)>,
    point: (Scalar, Scalar),
    closed: bool,
) -> bool {
    crossings(m, polygon, point, closed, polygon.len() as int) % 2 == 1
}

/// Whether a point is nearer to a circle's centre than the radius.
pub open spec fn in_circle(
    m: Arithmetic,
    center: (Scalar, Scalar),
    radius: Scalar,
    point: (Scalar, Scalar),
) -> bool {
    let du = m.minus(point.0, center.0);
    let dv = m.minus(point.1, center.1);
    m.mul_add(du, du, m.times(dv, dv)).below(m.times(radius, radius))
}

/// Whether a point lies within a boundary: nearer to the centre than the radius
/// for a lone circle, an odd number of crossings otherwise.
pub open spec fn enclosed(
    m: Arithmetic,
    polygon: Seq<(Scalar, Scalar)>,
    circle: Option<((Scalar, Scalar), Scalar)>,
    point: (Scalar, Scalar),
) -> bool {
    match circle {
        Some((center, radius)) => in_circle(m, center, radius, point),
        None => crosses_oddly(m, polygon, point, false),
    }
}

/// Whether a point lies within a boundary and not on it: whether or not a ray
/// counts what the point lies on, it crosses an odd number of times.
pub open spec fn strictly_enclosed(
    m: Arithmetic,
    polygon: Seq<(Scalar, Scalar)>,
    circle: Option<((Scalar, Scalar), Scalar)>,
    point: (Scalar, Scalar),
) -> bool {
    enclosed(m, polygon, circle, point) && (circle is None ==> crosses_oddly(
        m,
        polygon,
        point,
        true,
    ))
}

/// Whether a point lies inside a ring.
pub open spec fn inside(m: Arithmetic, ring: RingView, point: (Scalar, Scalar)) -> bool {
    enclosed(m, ring.polygon, ring.circle, point)
}

/// Whether a point lies inside a ring and not on its boundary.
pub open spec fn strictly_inside(m: Arithmetic, ring: RingView, point: (Scalar, Scalar)) -> bool {
    strictly_enclosed(m, ring.polygon, ring.circle, point)
}

/// Whether a ray from a point crosses a closed polygon an odd number of times.
pub fn odd_crossings<K: Kernel>(
    polygon: &Vec<(Scalar, Scalar)>,
    point: (Scalar, Scalar),
    closed: bool,
    kernel: &K,
) -> (r: bool)
    ensures
        r == crosses_oddly(kernel.model(), polygon@, point, closed),
{
    let mut within = false;
    let count: usize = polygon.len();
    let mut index: usize = 0;
    while index < count
        invariant
            index <= count,
            count == polygon@.len(),
            within == (crossings(kernel.model(), polygon@, point, closed, index as int) % 2 == 1),
        decreases count - index,
    {
        let (x1, y1) = polygon[index];
        let (x2, y2) = polygon[(index + 1) % count];
        let straddles = if closed {
            point.1.le(y1) != point.1.le(y2)
        } else {
            point.1.lt(y1) != point.1.lt(y2)
        };
        if straddles {
            let crossing = kernel.mul_add(
                kernel.minus(point.1, y1),
                kernel.divide(kernel.minus(x2, x1), kernel.minus(y2, y1)),
                x1,
            );
            let hit = if closed {
                point.0.le(crossing)
            } else {
                point.0.lt(crossing)
            };
            if hit {
                within = !within;
            }
        }
        index += 1;
    }
    within
}

/// Whether a point lies within a boundary.
fn encloses<K: Kernel>(
    polygon: &Vec<(Scalar, Scalar)>,
    circle: Option<((Scalar, Scalar), Scalar)>,
    point: (Scalar, Scalar),
    kernel: &K,
) -> (r: bool)
    ensures
        r == enclosed(kernel.model(), polygon@, circle, point),
{
    match circle {
        Some((center, radius)) => {
            let du = kernel.minus(point.0, center.0);
            let dv = kernel.minus(point.1, center.1);
            kernel.mul_add(du, du, kernel.times(dv, dv)).lt(kernel.times(radius, radius))
        },
        None => odd_crossings(polygon, point, false, kernel),
    }
}

/// Whether a point lies within a boundary and not on it.
fn encloses_strictly<K: Kernel>(
    polygon: &Vec<(Scalar, Scalar)>,
    circle: Option<((Scalar, Scalar), Scalar)>,
    point: (Scalar, Scalar),
    kernel: &K,
) -> (r: bool)
    ensures
        r == strictly_enclosed(kernel.model(), polygon@, circle, point),
{
    encloses(polygon, circle, point, kernel) && (circle.is_some() || odd_crossings(
        polygon,
        point,
        true,
        kernel,
    ))
}

impl Ring {
    /// Whether a sketch-space point lies inside the ring.
    pub fn contains<K: Kernel>(&self, point: (Scalar, Scalar), kernel: &K) -> (r: bool)
        ensures
            r == inside(kernel.model(), self@, point),
    {
        encloses(&self.polygon, self.circle, point, kernel)
    }

    /// A ring with the same contents.
    pub fn duplicate(&self) -> (r: Ring)
        ensures
            r@ == self@,
    {
        Ring {
            index: self.index,
            area: self.area,
            interior: self.interior,
            circle: self.circle,
            polygon: copied(&self.polygon),
            curves: copied(&self.curves),
        }
    }
}

/// The point of an arc at a step of its sampling.
pub open spec fn arc_point(
    m: Arithmetic,
    center: (Scalar, Scalar),
    radius: Scalar,
    start: Scalar,
    end: Scalar,
    step: usize,
) -> (Scalar, Scalar) {
    let angle = m.mul_add(
        m.minus(end, start),
        m.divide(m.count(step), m.count(SAMPLES)),
        start,
    );
    (m.mul_add(radius, m.cos(angle), center.0), m.mul_add(radius, m.sin(angle), center.1))
}

/// The sampled points of an arc, both ends among them.
pub open spec fn arc_points(
    m: Arithmetic,
    center: (Scalar, Scalar),
    radius: Scalar,
    start: Scalar,
    end: Scalar,
) -> Seq<(Scalar, Scalar)> {
    Seq::new((SAMPLES + 1) as nat, |step: int| arc_point(m, center, radius, start, end, step as usize))
}

/// Samples an arc.
pub fn sample_arc<K: Kernel>(
    center: (Scalar, Scalar),
    radius: Scalar,
    start: Scalar,
    end: Scalar,
    kernel: &K,
) -> (r: Vec<(Scalar, Scalar)>)
    ensures
        r@ == arc_points(kernel.model(), center, radius, start, end),
{
    let ghost whole = arc_points(kernel.model(), center, radius, start, end);
    let mut out: Vec<(Scalar, Scalar)> = Vec::new();
    let mut step: usize = 0;
    while step <= SAMPLES
        invariant
            step <= SAMPLES + 1,
            whole == arc_points(kernel.model(), center, radius, start, end),
            out@ =~= whole.take(step as int),
        decreases SAMPLES + 1 - step,
    {
        let share = kernel.divide(
            kernel.scalar(ScalarOp::Count(step)),
            kernel.scalar(ScalarOp::Count(SAMPLES)),
        );
        let angle = kernel.mul_add(kernel.minus(end, start), share, start);
        out.push(
            (
                kernel.mul_add(radius, kernel.scalar(ScalarOp::Cos(angle)), center.0),
                kernel.mul_add(radius, kernel.scalar(ScalarOp::Sin(angle)), center.1),
            ),
        );
        step += 1;
    }
    out
}

/// Twice the signed area the first `n` sides sweep about the origin.
pub open spec fn swept_area(m: Arithmetic, polygon: Seq<(Scalar, Scalar)>, n: int) -> Scalar
    decreases n,
{
    if n <= 0 {
        Scalar { bits: ZERO }
    } else {
        let a = polygon[n - 1];
        let b = polygon[n % polygon.len() as int];
        m.plus(
            swept_area(m, polygon, n - 1),
            m.mul_add(a.0, b.1, m.times(b.0, a.1).negated()),
        )
    }
}

/// The signed area of a closed polygon.
pub open spec fn signed_area(m: Arithmetic, polygon: Seq<(Scalar, Scalar)>) -> Scalar {
    m.divide(swept_area(m, polygon, polygon.len() as int), Scalar { bits: TWO })
}

/// The signed area of a closed polygon.
pub fn shoelace<K: Kernel>(polygon: &Vec<(Scalar, Scalar)>, kernel: &K) -> (r: Scalar)
    ensures
        r == signed_area(kernel.model(), polygon@),
{
    let mut sum = Scalar { bits: ZERO };
    let mut index: usize = 0;
    while index < polygon.len()
        invariant
            index <= polygon@.len(),
            sum == swept_area(kernel.model(), polygon@, index as int),
        decreases polygon@.len() - index,
    {
        let (x1, y1) = polygon[index];
        let (x2, y2) = polygon[(index + 1) % polygon.len()];
        sum = kernel.plus(sum, kernel.mul_add(x1, y2, kernel.times(x2, y1).neg()));
        index += 1;
    }
    kernel.divide(sum, Scalar { bits: TWO })
}

/// The coordinate sums of the first `n` points.
pub open spec fn coordinate_sums(m: Arithmetic, polygon: Seq<(Scalar, Scalar)>, n: int) -> (
    Scalar,
    Scalar,
)
    decreases n,
{
    if n <= 0 {
        (Scalar { bits: SIGN_BIT }, Scalar { bits: SIGN_BIT })
    } else {
        let rest = coordinate_sums(m, polygon, n - 1);
        (m.plus(rest.0, polygon[n - 1].0), m.plus(rest.1, polygon[n - 1].1))
    }
}

/// The centre of a lone circle, the mean of the samples otherwise.
pub open spec fn centre(
    m: Arithmetic,
    polygon: Seq<(Scalar, Scalar)>,
    circle: Option<((Scalar, Scalar), Scalar)>,
) -> (Scalar, Scalar) {
    match circle {
        Some((center, _)) => center,
        None => {
            let sums = coordinate_sums(m, polygon, polygon.len() as int);
            let count = m.count(polygon.len() as usize);
            (m.divide(sums.0, count), m.divide(sums.1, count))
        },
    }
}

/// The point half way between two boundary samples.
pub open spec fn between(
    m: Arithmetic,
    polygon: Seq<(Scalar, Scalar)>,
    i: int,
    j: int,
) -> (Scalar, Scalar) {
    (
        m.midpoint(polygon[i].0, polygon[j].0),
        m.midpoint(polygon[i].1, polygon[j].1),
    )
}

/// The first point half way between two samples that lies strictly within the
/// boundary, the pairs being tried from `i` and `j` on.
pub open spec fn first_between(
    m: Arithmetic,
    polygon: Seq<(Scalar, Scalar)>,
    circle: Option<((Scalar, Scalar), Scalar)>,
    i: int,
    j: int,
) -> Option<(Scalar, Scalar)>
    decreases polygon.len() - i, polygon.len() - j,
{
    if i >= polygon.len() {
        None
    } else if j >= polygon.len() {
        first_between(m, polygon, circle, i + 1, i + 2)
    } else if strictly_enclosed(m, polygon, circle, between(m, polygon, i, j)) {
        Some(between(m, polygon, i, j))
    } else {
        first_between(m, polygon, circle, i, j + 1)
    }
}

/// A point strictly within a boundary: its centre where that lies within, else
/// the first point half way between two of its samples that does.
pub open spec fn interior_of(
    m: Arithmetic,
    polygon: Seq<(Scalar, Scalar)>,
    circle: Option<((Scalar, Scalar), Scalar)>,
) -> Option<(Scalar, Scalar)> {
    if strictly_enclosed(m, polygon, circle, centre(m, polygon, circle)) {
        Some(centre(m, polygon, circle))
    } else {
        first_between(m, polygon, circle, 0, 1)
    }
}

/// The centre of a lone circle, the mean of the samples otherwise.
fn middle<K: Kernel>(
    polygon: &Vec<(Scalar, Scalar)>,
    circle: Option<((Scalar, Scalar), Scalar)>,
    kernel: &K,
) -> (r: (Scalar, Scalar))
    ensures
        r == centre(kernel.model(), polygon@, circle),
{
    if let Some((center, _)) = circle {
        return center;
    }
    let mut u = Scalar { bits: SIGN_BIT };
    let mut v = Scalar { bits: SIGN_BIT };
    let mut i: usize = 0;
    while i < polygon.len()
        invariant
            i <= polygon@.len(),
            (u, v) == coordinate_sums(kernel.model(), polygon@, i as int),
        decreases polygon@.len() - i,
    {
        u = kernel.plus(u, polygon[i].0);
        v = kernel.plus(v, polygon[i].1);
        i += 1;
    }
    let count = kernel.scalar(ScalarOp::Count(polygon.len()));
    (kernel.divide(u, count), kernel.divide(v, count))
}

/// A point strictly within a boundary, or `None` when none is found.
///
/// The middle of a loop can lie outside it, in a notch. A diagonal of a simple
/// polygon then lies within, and so does the point half way along it.
pub fn interior_point<K: Kernel>(
    polygon: &Vec<(Scalar, Scalar)>,
    circle: Option<((Scalar, Scalar), Scalar)>,
    kernel: &K,
) -> (r: Option<(Scalar, Scalar)>)
    ensures
        r == interior_of(kernel.model(), polygon@, circle),
{
    let ghost m = kernel.model();
    let center = middle(polygon, circle, kernel);
    if encloses_strictly(polygon, circle, center, kernel) {
        return Some(center);
    }
    let mut i: usize = 0;
    while i < polygon.len()
        invariant
            i <= polygon@.len(),
            m == kernel.model(),
            !strictly_enclosed(m, polygon@, circle, centre(m, polygon@, circle)),
            first_between(m, polygon@, circle, 0, 1) == first_between(
                m,
                polygon@,
                circle,
                i as int,
                i + 1,
            ),
        decreases polygon@.len() - i,
    {
        let mut j: usize = i + 1;
        while j < polygon.len()
            invariant
                i < j <= polygon@.len(),
                m == kernel.model(),
                !strictly_enclosed(m, polygon@, circle, centre(m, polygon@, circle)),
                first_between(m, polygon@, circle, 0, 1) == first_between(
                    m,
                    polygon@,
                    circle,
                    i as int,
                    j as int,
                ),
            decreases polygon@.len() - j,
        {
            let probe = (
                kernel.midpoint(polygon[i].0, polygon[j].0),
                kernel.midpoint(polygon[i].1, polygon[j].1),
            );
            if encloses_strictly(polygon, circle, probe, kernel) {
                return Some(probe);
            }
            j += 1;
        }
        i += 1;
    }
    None
}

proof fn first_between_is_enclosed(
    m: Arithmetic,
    polygon: Seq<(Scalar, Scalar)>,
    circle: Option<((Scalar, Scalar), Scalar)>,
    i: int,
    j: int,
)
    requires
        0 <= i < j,
    ensures
        match first_between(m, polygon, circle, i, j) {
            Some(point) => strictly_enclosed(m, polygon, circle, point),
            None => forall|a: int, b: int|
                i <= a < b < polygon.len() && (a == i ==> j <= b) ==> !strictly_enclosed(
                    m,
                    polygon,
                    circle,
                    #[trigger] between(m, polygon, a, b),
                ),
        },
    decreases polygon.len() - i, polygon.len() - j,
{
    if i >= polygon.len() {
    } else if j >= polygon.len() {
        first_between_is_enclosed(m, polygon, circle, i + 1, i + 2);
    } else if !strictly_enclosed(m, polygon, circle, between(m, polygon, i, j)) {
        first_between_is_enclosed(m, polygon, circle, i, j + 1);
    }
}

/// The interior point of a boundary lies strictly within it. There is one
/// wherever the centre, or a point half way between two samples, does.
pub proof fn interior_is_strictly_within(
    m: Arithmetic,
    polygon: Seq<(Scalar, Scalar)>,
    circle: Option<((Scalar, Scalar), Scalar)>,
)
    ensures
        match interior_of(m, polygon, circle) {
            Some(point) => strictly_enclosed(m, polygon, circle, point),
            None => {
                &&& !strictly_enclosed(m, polygon, circle, centre(m, polygon, circle))
                &&& forall|a: int, b: int|
                    0 <= a < b < polygon.len() ==> !strictly_enclosed(
                        m,
                        polygon,
                        circle,
                        #[trigger] between(m, polygon, a, b),
                    )
            },
        },
{
    first_between_is_enclosed(m, polygon, circle, 0, 1);
}

/// The boundary samples one curve contributes; `None` for curve families that
/// cannot be closed analytically here.
pub open spec fn curve_points(m: Arithmetic, geometry: SketchGeometry) -> Option<
    Seq<(Scalar, Scalar)>,
> {
    match geometry {
        SketchGeometry::Circle { center, radius } => Some(
            arc_points(m, center, radius, Scalar { bits: ZERO }, Scalar { bits: TAU }),
        ),
        SketchGeometry::Arc { center, radius, start_angle, end_angle } => Some(
            arc_points(m, center, radius, start_angle, end_angle),
        ),
        SketchGeometry::Line { start, end } => Some(seq![start, end]),
        SketchGeometry::Other => None,
    }
}

/// The boundary samples of the first `n` curves of a loop; `None` when one of
/// them is missing or contributes none.
pub open spec fn loop_points(
    m: Arithmetic,
    uses: Seq<SketchEntityUse>,
    entities: Seq<SketchEntity>,
    n: int,
) -> Option<Seq<(Scalar, Scalar)>>
    decreases n,
{
    if n <= 0 {
        Some(Seq::empty())
    } else {
        match (
            loop_points(m, uses, entities, n - 1),
            arena::lookup(entities, uses[n - 1].entity@),
        ) {
            (Some(rest), Some(entity)) => match curve_points(m, entity.geometry) {
                Some(points) => Some(rest + points),
                None => None,
            },
            _ => None,
        }
    }
}

/// The first `n` curves of a loop, as far as they are on record.
pub open spec fn loop_curves(uses: Seq<SketchEntityUse>, entities: Seq<SketchEntity>, n: int) -> Seq<
    SketchGeometry,
>
    decreases n,
{
    if n <= 0 {
        Seq::empty()
    } else {
        let rest = loop_curves(uses, entities, n - 1);
        match arena::lookup(entities, uses[n - 1].entity@) {
            Some(entity) => rest.push(entity.geometry),
            None => rest,
        }
    }
}

/// The circle of a loop that is one circle and nothing else.
pub open spec fn lone_circle(uses: Seq<SketchEntityUse>, entities: Seq<SketchEntity>) -> Option<
    ((Scalar, Scalar), Scalar),
> {
    if uses.len() == 1 {
        match arena::lookup(entities, uses[0].entity@) {
            Some(entity) => match entity.geometry {
                SketchGeometry::Circle { center, radius } => Some((center, radius)),
                _ => None,
            },
            None => None,
        }
    } else {
        None
    }
}

/// The ring of a profile loop.
pub open spec fn ring_of(
    m: Arithmetic,
    index: usize,
    uses: Seq<SketchEntityUse>,
    entities: Seq<SketchEntity>,
) -> Option<RingView> {
    match loop_points(m, uses, entities, uses.len() as int) {
        Some(polygon) => if polygon.len() < 3 {
            None
        } else {
            let circle = lone_circle(uses, entities);
            match interior_of(m, polygon, circle) {
                Some(interior) => Some(
                    RingView {
                        index,
                        area: signed_area(m, polygon).unsigned(),
                        interior,
                        circle,
                        polygon,
                        curves: loop_curves(uses, entities, uses.len() as int),
                    },
                ),
                None => None,
            }
        },
        None => None,
    }
}

/// The interior of a ring is a point strictly inside it.
pub proof fn ring_holds_its_interior(
    m: Arithmetic,
    index: usize,
    uses: Seq<SketchEntityUse>,
    entities: Seq<SketchEntity>,
)
    ensures
        ring_of(m, index, uses, entities) matches Some(ring) ==> {
            &&& strictly_inside(m, ring, ring.interior)
            &&& inside(m, ring, ring.interior)
        },
{
    if let Some(ring) = ring_of(m, index, uses, entities) {
        interior_is_strictly_within(m, ring.polygon, ring.circle);
    }
}

/// A loop that cannot be followed to some curve cannot be followed further.
proof fn loop_points_stop(
    m: Arithmetic,
    uses: Seq<SketchEntityUse>,
    entities: Seq<SketchEntity>,
    n: int,
    whole: int,
)
    requires
        loop_points(m, uses, entities, n) is None,
        n <= whole,
    ensures
        loop_points(m, uses, entities, whole) is None,
    decreases whole - n,
{
    if n < whole {
        assert(loop_points(m, uses, entities, n + 1) is None);
        loop_points_stop(m, uses, entities, n + 1, whole);
    }
}

/// Reduces one profile loop to a ring, or `None` for curve families that cannot
/// be closed analytically here and for loops that enclose nothing.
pub fn ring<K: Kernel>(
    index: usize,
    uses: &Vec<SketchEntityUse>,
    entities: &Catalog<SketchEntity>,
    kernel: &K,
) -> (r: Option<Ring>)
    ensures
        match r {
            Some(ring) => ring_of(kernel.model(), index, uses@, entities@) == Some(ring@),
            None => ring_of(kernel.model(), index, uses@, entities@) is None,
        },
        r matches Some(ring) ==> strictly_inside(kernel.model(), ring@, ring@.interior),
{
    let mut polygon: Vec<(Scalar, Scalar)> = Vec::new();
    let mut curves: Vec<SketchGeometry> = Vec::new();
    let mut circle: Option<((Scalar, Scalar), Scalar)> = None;
    let mut i: usize = 0;
    assert(loop_points(kernel.model(), uses@, entities@, 0) == Some(polygon@));
    while i < uses.len()
        invariant
            i <= uses@.len(),
            loop_points(kernel.model(), uses@, entities@, i as int) == Some(polygon@),
            curves@ == loop_curves(uses@, entities@, i as int),
            circle == if i == 0 {
                None
            } else {
                lone_circle(uses@, entities@)
            },
        decreases uses@.len() - i,
    {
        let ghost before = polygon@;
        let found = entities.get(uses[i].entity.as_str());
        if let Some(entity) = found {
            curves.push(entity.geometry);
        }
        match found {
            Some(entity) => match entity.geometry {
                SketchGeometry::Circle { center, radius } => {
                    if uses.len() == 1 {
                        circle = Some((center, radius));
                    }
                    let mut points = sample_arc(
                        center,
                        radius,
                        Scalar { bits: ZERO },
                        Scalar { bits: TAU },
                        kernel,
                    );
                    polygon.append(&mut points);
                },
                SketchGeometry::Arc { center, radius, start_angle, end_angle } => {
                    let mut points = sample_arc(center, radius, start_angle, end_angle, kernel);
                    polygon.append(&mut points);
                },
                SketchGeometry::Line { start, end } => {
                    polygon.push(start);
                    polygon.push(end);
                    assert(polygon@ =~= before + seq![start, end]);
                },
                SketchGeometry::Other => {
                    proof {
                        loop_points_stop(
                            kernel.model(),
                            uses@,
                            entities@,
                            i + 1,
                            uses@.len() as int,
                        );
                    }
                    return None;
                },
            },
            None => {
                proof {
                    loop_points_stop(kernel.model(), uses@, entities@, i + 1, uses@.len() as int);
                }
                return None;
            },
        }
        i += 1;
    }
    if polygon.len() < 3 {
        return None;
    }
    let area = shoelace(&polygon, kernel).abs();
    proof {
        interior_is_strictly_within(kernel.model(), polygon@, circle);
    }
    match interior_point(&polygon, circle, kernel) {
        Some(interior) => Some(Ring { index, area, interior, circle, polygon, curves }),
        None => None,
    }
}

} // verus!
