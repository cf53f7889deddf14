//! What profile loops are reduced to, and how they come to lie in one another.

use crate::arena;
use crate::arrangement;
use crate::arrangement::{ArrangementView, RegionView};
use crate::crossing;
use crate::ir::{SketchEntity, SketchEntityUse, SketchGeometry};
use crate::kernel::Arithmetic;
use crate::nesting;
use crate::ring;
use crate::ring::RingView;
use crate::scalar::Scalar;
use vstd::prelude::*;

verus! {

// ---------------------------------------------------------------------------
// inside a loop
// ---------------------------------------------------------------------------

/// Whether the side from one place to another lies to the right of a point, at the
/// point's own height.
pub open spec fn lies_right(
    m: Arithmetic,
    from: (Scalar, Scalar),
    to: (Scalar, Scalar),
    point: (Scalar, Scalar),
) -> bool {
    let slope = m.divide(m.minus(to.0, from.0), m.minus(to.1, from.1));
    &&& point.1.below(from.1) != point.1.below(to.1)
    &&& point.0.below(m.mul_add(m.minus(point.1, from.1), slope, from.0))
}

/// How many of the first `n` sides of a closed polygon lie to the right of a point.
pub open spec fn sides_right(
    m: Arithmetic,
    polygon: Seq<(Scalar, Scalar)>,
    point: (Scalar, Scalar),
    n: int,
) -> int
    decreases n,
{
    if n <= 0 {
        0
    } else {
        let next = if n == polygon.len() {
            polygon[0]
        } else {
            polygon[n]
        };
        sides_right(m, polygon, point, n - 1) + if lies_right(m, polygon[n - 1], next, point) {
            1int
        } else {
            0
        }
    }
}

/// Whether a loop holds a point: a circle what is nearer to its centre than its
/// radius, any other loop what has an odd number of its sides to the right.
pub open spec fn holds(m: Arithmetic, ring: RingView, point: (Scalar, Scalar)) -> bool {
    if ring.circle is Some {
        let ((u, v), radius) = ring.circle->0;
        let du = m.minus(point.0, u);
        let dv = m.minus(point.1, v);
        m.mul_add(du, du, m.times(dv, dv)).below(m.times(radius, radius))
    } else {
        sides_right(m, ring.polygon, point, ring.polygon.len() as int) % 2 == 1
    }
}

proof fn sides_are_crossed(
    m: Arithmetic,
    polygon: Seq<(Scalar, Scalar)>,
    point: (Scalar, Scalar),
    n: int,
)
    requires
        n <= polygon.len(),
    ensures
        ring::crossings(m, polygon, point, false, n) == sides_right(m, polygon, point, n),
    decreases n,
{
    if n > 0 {
        sides_are_crossed(m, polygon, point, n - 1);
        if n == polygon.len() {
            assert(n % polygon.len() as int == 0);
        } else {
            assert(n % polygon.len() as int == n) by (nonlinear_arith)
                requires
                    0 < n < polygon.len(),
            ;
        }
    }
}

/// A point is inside a ring exactly if the loop holds it.
pub proof fn ring_holds_its_inside(m: Arithmetic, ring: RingView, point: (Scalar, Scalar))
    ensures
        ring::inside(m, ring, point) == holds(m, ring, point),
{
    sides_are_crossed(m, ring.polygon, point, ring.polygon.len() as int);
}

// ---------------------------------------------------------------------------
// rings
// ---------------------------------------------------------------------------

/// The place an arc has reached after so many of its steps.
pub open spec fn arc_place(
    m: Arithmetic,
    center: (Scalar, Scalar),
    radius: Scalar,
    start: Scalar,
    end: Scalar,
    step: int,
) -> (Scalar, Scalar) {
    let share = m.divide(m.count(step as usize), m.count(24));
    let angle = m.mul_add(m.minus(end, start), share, start);
    (m.mul_add(radius, m.cos(angle), center.0), m.mul_add(radius, m.sin(angle), center.1))
}

/// The places a curve is known by: the ends of a line, and those an arc or a circle
/// reaches in equal steps.
pub open spec fn places_of(m: Arithmetic, curve: SketchGeometry) -> Seq<(Scalar, Scalar)> {
    match curve {
        SketchGeometry::Line { start, end } => seq![start, end],
        SketchGeometry::Arc { center, radius, start_angle, end_angle } => Seq::new(
            25,
            |step: int| arc_place(m, center, radius, start_angle, end_angle, step),
        ),
        SketchGeometry::Circle { center, radius } => Seq::new(
            25,
            |step: int|
                arc_place(
                    m,
                    center,
                    radius,
                    Scalar { bits: 0 },
                    Scalar { bits: 0x4019_21fb_5444_2d18 },
                    step,
                ),
        ),
        SketchGeometry::Other => Seq::empty(),
    }
}

/// Whether the first `n` curves of a loop are on record and can be followed.
pub open spec fn is_followed(uses: Seq<SketchEntityUse>, entities: Seq<SketchEntity>, n: int) -> bool {
    forall|i: int|
        0 <= i < n ==> arena::lookup(entities, (#[trigger] uses[i]).entity@) is Some && !(
        arena::lookup(entities, uses[i].entity@)->0.geometry is Other)
}

/// The places of the first `n` curves of a loop, curve by curve.
pub open spec fn places_along(
    m: Arithmetic,
    uses: Seq<SketchEntityUse>,
    entities: Seq<SketchEntity>,
    n: int,
) -> Seq<(Scalar, Scalar)>
    decreases n,
{
    if n <= 0 {
        Seq::empty()
    } else {
        places_along(m, uses, entities, n - 1) + places_of(
            m,
            arena::lookup(entities, uses[n - 1].entity@)->0.geometry,
        )
    }
}

/// Twice the area that the first `n` sides of a closed polygon sweep.
pub open spec fn twice_swept(m: Arithmetic, polygon: Seq<(Scalar, Scalar)>, n: int) -> Scalar
    decreases n,
{
    if n <= 0 {
        Scalar { bits: 0 }
    } else {
        let from = polygon[n - 1];
        let to = if n == polygon.len() {
            polygon[0]
        } else {
            polygon[n]
        };
        m.plus(
            twice_swept(m, polygon, n - 1),
            m.mul_add(from.0, to.1, m.times(to.0, from.1).negated()),
        )
    }
}

proof fn places_are_points(
    m: Arithmetic,
    uses: Seq<SketchEntityUse>,
    entities: Seq<SketchEntity>,
    n: int,
)
    requires
        0 <= n <= uses.len(),
    ensures
        ring::loop_points(m, uses, entities, n) is Some == is_followed(uses, entities, n),
        is_followed(uses, entities, n) ==> ring::loop_points(m, uses, entities, n) == Some(
            places_along(m, uses, entities, n),
        ),
        is_followed(uses, entities, n) ==> {
            let curves = ring::loop_curves(uses, entities, n);
            &&& curves.len() == n
            &&& forall|i: int|
                0 <= i < n ==> #[trigger] curves[i] == arena::lookup(
                    entities,
                    uses[i].entity@,
                )->0.geometry
        },
    decreases n,
{
    if n > 0 {
        places_are_points(m, uses, entities, n - 1);
        if is_followed(uses, entities, n - 1) {
            assert(is_followed(uses, entities, n) == (arena::lookup(
                entities,
                uses[n - 1].entity@,
            ) is Some && !(arena::lookup(entities, uses[n - 1].entity@)->0.geometry is Other)));
            if let Some(entity) = arena::lookup(entities, uses[n - 1].entity@) {
                if let Some(points) = ring::curve_points(m, entity.geometry) {
                    assert(points =~= places_of(m, entity.geometry));
                }
            }
        } else if is_followed(uses, entities, n) {
            assert(is_followed(uses, entities, n - 1));
        }
    }
}

proof fn sweep_is_summed(m: Arithmetic, polygon: Seq<(Scalar, Scalar)>, n: int)
    requires
        n <= polygon.len(),
    ensures
        ring::swept_area(m, polygon, n) == twice_swept(m, polygon, n),
    decreases n,
{
    if n > 0 {
        sweep_is_summed(m, polygon, n - 1);
        if n == polygon.len() {
            assert(n % polygon.len() as int == 0);
        } else {
            assert(n % polygon.len() as int == n) by (nonlinear_arith)
                requires
                    0 < n < polygon.len(),
            ;
        }
    }
}

/// A loop has a ring only if each of its curves can be followed and they have three
/// places or more. The ring then has the loop's own index, places and curves, the
/// area its places sweep whichever way round they run, the circle of a loop that is
/// one and nothing else, and a point that it holds.
pub proof fn ring_is_what_its_curves_are(
    m: Arithmetic,
    index: usize,
    uses: Seq<SketchEntityUse>,
    entities: Seq<SketchEntity>,
)
    ensures
        ({
            let all = uses.len() as int;
            let places = places_along(m, uses, entities, all);
            let first = arena::lookup(entities, uses[0].entity@)->0.geometry;
            match ring::ring_of(m, index, uses, entities) {
                Some(ring) => {
                    &&& is_followed(uses, entities, all)
                    &&& places.len() >= 3
                    &&& ring.index == index
                    &&& ring.polygon == places
                    &&& ring.area == m.divide(
                        twice_swept(m, places, places.len() as int),
                        Scalar { bits: 0x4000_0000_0000_0000 },
                    ).unsigned()
                    &&& ring.circle is Some <==> uses.len() == 1 && first is Circle
                    &&& ring.circle matches Some((center, radius)) ==> first == (
                    SketchGeometry::Circle { center, radius })
                    &&& holds(m, ring, ring.interior)
                    &&& ring.curves.len() == uses.len()
                    &&& forall|i: int|
                        0 <= i < all ==> #[trigger] ring.curves[i] == arena::lookup(
                            entities,
                            uses[i].entity@,
                        )->0.geometry
                },
                None => {
                    ||| !is_followed(uses, entities, all)
                    ||| places.len() < 3
                    ||| ring::interior_of(m, places, ring::lone_circle(uses, entities)) is None
                },
            }
        }),
{
    let all = uses.len() as int;
    places_are_points(m, uses, entities, all);
    let places = places_along(m, uses, entities, all);
    sweep_is_summed(m, places, places.len() as int);
    ring::ring_holds_its_interior(m, index, uses, entities);
    if let Some(ring) = ring::ring_of(m, index, uses, entities) {
        ring_holds_its_inside(m, ring, ring.interior);
        assert(uses[0].entity@ == uses[0].entity@);
        if uses.len() == 1 {
            assert(arena::lookup(entities, uses[0].entity@) is Some);
        }
    }
}

/// The sums of the first `n` coordinates, added up from nothing.
pub open spec fn coordinates_summed(m: Arithmetic, places: Seq<(Scalar, Scalar)>, n: int) -> (
    Scalar,
    Scalar,
)
    decreases n,
{
    if n <= 0 {
        (Scalar { bits: 0x8000_0000_0000_0000 }, Scalar { bits: 0x8000_0000_0000_0000 })
    } else {
        let before = coordinates_summed(m, places, n - 1);
        (m.plus(before.0, places[n - 1].0), m.plus(before.1, places[n - 1].1))
    }
}

proof fn sums_are_taken(m: Arithmetic, places: Seq<(Scalar, Scalar)>, n: int)
    ensures
        ring::coordinate_sums(m, places, n) == coordinates_summed(m, places, n),
    decreases n,
{
    if n > 0 {
        sums_are_taken(m, places, n - 1);
    }
}

/// The interior point of a circle is its centre, and that of another loop the mean
/// of its places, where that lies strictly within. Elsewhere it lies half way
/// between two places of the loop.
pub proof fn interior_is_the_middle_where_it_can_be(
    m: Arithmetic,
    places: Seq<(Scalar, Scalar)>,
    circle: Option<((Scalar, Scalar), Scalar)>,
)
    ensures
        ({
            let sums = coordinates_summed(m, places, places.len() as int);
            let count = m.count(places.len() as usize);
            let middle = if circle is Some {
                (circle->0).0
            } else {
                (m.divide(sums.0, count), m.divide(sums.1, count))
            };
            let found = ring::interior_of(m, places, circle);
            if ring::strictly_enclosed(m, places, circle, middle) {
                found == Some(middle)
            } else {
                found matches Some(point) ==> lies_halfway(m, places, point)
            }
        }),
{
    sums_are_taken(m, places, places.len() as int);
    halfway_is_found(m, places, circle, 0, 1);
}

/// Whether a point lies half way between two of some places.
pub open spec fn lies_halfway(
    m: Arithmetic,
    places: Seq<(Scalar, Scalar)>,
    point: (Scalar, Scalar),
) -> bool {
    exists|i: int, j: int| #![trigger places[i], places[j]]
        0 <= i < j < places.len() && point == (
            m.midpoint(places[i].0, places[j].0),
            m.midpoint(places[i].1, places[j].1),
        )
}

proof fn halfway_is_found(
    m: Arithmetic,
    places: Seq<(Scalar, Scalar)>,
    circle: Option<((Scalar, Scalar), Scalar)>,
    i: int,
    j: int,
)
    requires
        0 <= i < j,
    ensures
        ring::first_between(m, places, circle, i, j) matches Some(point) ==> lies_halfway(
            m,
            places,
            point,
        ),
    decreases places.len() - i, places.len() - j,
{
    if i >= places.len() {
    } else if j >= places.len() {
        halfway_is_found(m, places, circle, i + 1, i + 2);
    } else if ring::strictly_enclosed(m, places, circle, ring::between(m, places, i, j)) {
        assert(ring::between(m, places, i, j) == (
            m.midpoint(places[i].0, places[j].0),
            m.midpoint(places[i].1, places[j].1),
        ));
        assert(lies_halfway(m, places, ring::between(m, places, i, j)));
    } else {
        halfway_is_found(m, places, circle, i, j + 1);
    }
}

// ---------------------------------------------------------------------------
// arrangements
// ---------------------------------------------------------------------------

/// Whether a loop lies in a larger one that holds its interior point.
pub open spec fn lies_in(m: Arithmetic, rings: Seq<RingView>, inner: int, outer: int) -> bool {
    &&& rings[inner].area.below(rings[outer].area)
    &&& holds(m, rings[outer], rings[inner].interior)
}

/// Whether of all loops a loop lies in one is the smallest, and of several as small
/// the first.
pub open spec fn lies_directly_in(
    m: Arithmetic,
    rings: Seq<RingView>,
    inner: int,
    outer: int,
) -> bool {
    &&& lies_in(m, rings, inner, outer)
    &&& forall|other: int|
        0 <= other < rings.len() && #[trigger] lies_in(m, rings, inner, other) ==> {
            &&& rings[outer].area.at_most(rings[other].area)
            &&& rings[other].area.at_most(rings[outer].area) ==> outer <= other
        }
}

proof fn parent_is_direct(m: Arithmetic, rings: Seq<RingView>, inner: int, outer: int)
    requires
        nesting::measured(rings),
        0 <= inner < rings.len(),
        0 <= outer < rings.len(),
    ensures
        arrangement::parent(m, rings, inner) == Some(outer) <==> lies_directly_in(
            m,
            rings,
            inner,
            outer,
        ),
{
    nesting::parent_is_tightest(m, rings, inner);
    assert forall|other: int| 0 <= other < rings.len() implies #[trigger] lies_in(
        m,
        rings,
        inner,
        other,
    ) == arrangement::surrounds(m, rings, other, inner) by {
        ring_holds_its_inside(m, rings[other], rings[inner].interior);
    }
    if lies_directly_in(m, rings, inner, outer) {
        assert(lies_in(m, rings, inner, outer));
        let p = arrangement::parent(m, rings, inner)->0;
        assert(lies_in(m, rings, inner, p));
    }
    if arrangement::parent(m, rings, inner) == Some(outer) {
        assert(lies_in(m, rings, inner, outer));
        assert forall|other: int| 0 <= other < rings.len() && #[trigger] lies_in(
            m,
            rings,
            inner,
            other,
        ) implies {
            &&& rings[outer].area.at_most(rings[other].area)
            &&& rings[other].area.at_most(rings[outer].area) ==> outer <= other
        } by {
            assert(arrangement::surrounds(m, rings, other, inner));
        }
    }
}

proof fn holes_lie_directly_in(m: Arithmetic, rings: Seq<RingView>, outer: int, n: int)
    requires
        nesting::measured(rings),
        0 <= outer < rings.len(),
        0 <= n <= rings.len() <= usize::MAX,
    ensures
        ({
            let holes = arrangement::holes_of(m, rings, outer, n);
            &&& forall|i: int| 0 <= i < holes.len() ==> #[trigger] holes[i] < n
            &&& forall|i: int, j: int|
                0 <= i < j < holes.len() ==> #[trigger] holes[i] < #[trigger] holes[j]
            &&& forall|k: int|
                0 <= k < n ==> (holes.contains(k as usize) <==> #[trigger] lies_directly_in(
                    m,
                    rings,
                    k,
                    outer,
                ))
        }),
    decreases n,
{
    if n > 0 {
        holes_lie_directly_in(m, rings, outer, n - 1);
        parent_is_direct(m, rings, n - 1, outer);
        let rest = arrangement::holes_of(m, rings, outer, n - 1);
        let holes = arrangement::holes_of(m, rings, outer, n);
        let last = (n - 1) as usize;
        assert forall|k: int| 0 <= k < n implies (holes.contains(k as usize)
            <==> #[trigger] lies_directly_in(m, rings, k, outer)) by {
            if rest.contains(k as usize) {
                let i = choose|i: int| 0 <= i < rest.len() && rest[i] == k as usize;
                assert(holes[i] == k as usize);
                assert(rest[i] < n - 1);
            }
            if holes.contains(k as usize) && !rest.contains(k as usize) {
                let i = choose|i: int| 0 <= i < holes.len() && holes[i] == k as usize;
                if i < rest.len() {
                    assert(rest[i] == k as usize);
                }
                assert(k == n - 1);
            }
            if k == n - 1 && lies_directly_in(m, rings, k, outer) {
                assert(holes[rest.len() as int] == last);
            }
        }
    }
}

/// The loop that an entity is used in: of several the last.
pub open spec fn is_last_use(profiles: Seq<Vec<SketchEntityUse>>, n: int, entity: Seq<char>, at: int) -> bool {
    &&& 0 <= at < n
    &&& is_used(profiles[at]@, entity)
    &&& forall|j: int| at < j < n ==> !is_used((#[trigger] profiles[j])@, entity)
}

/// Whether a loop uses an entity.
pub open spec fn is_used(uses: Seq<SketchEntityUse>, entity: Seq<char>) -> bool {
    exists|k: int| 0 <= k < uses.len() && (#[trigger] uses[k]).entity@ == entity
}

proof fn uses_are_entered(
    members: Map<Seq<char>, usize>,
    uses: Seq<SketchEntityUse>,
    index: usize,
    n: int,
    entity: Seq<char>,
)
    requires
        0 <= n <= uses.len(),
    ensures
        ({
            let now = arrangement::entered(members, uses, index, n);
            let used = exists|k: int| 0 <= k < n && (#[trigger] uses[k]).entity@ == entity;
            &&& used ==> now.contains_key(entity) && now[entity] == index
            &&& !used ==> now.contains_key(entity) == members.contains_key(entity) && (
            members.contains_key(entity) ==> now[entity] == members[entity])
        }),
    decreases n,
{
    if n > 0 {
        uses_are_entered(members, uses, index, n - 1, entity);
        assert(uses[n - 1].entity@ == uses[n - 1].entity@);
        if exists|k: int| 0 <= k < n && (#[trigger] uses[k]).entity@ == entity {
            let k = choose|k: int| 0 <= k < n && (#[trigger] uses[k]).entity@ == entity;
            if k < n - 1 {
                assert(uses[k].entity@ == entity);
            }
        }
    }
}

proof fn members_are_last(profiles: Seq<Vec<SketchEntityUse>>, n: int, entity: Seq<char>)
    requires
        0 <= n <= profiles.len() <= usize::MAX,
    ensures
        ({
            let members = arrangement::memberships(profiles, n);
            &&& members.contains_key(entity) ==> is_last_use(
                profiles,
                n,
                entity,
                members[entity] as int,
            )
            &&& !members.contains_key(entity) ==> forall|j: int|
                0 <= j < n ==> !is_used((#[trigger] profiles[j])@, entity)
        }),
    decreases n,
{
    if n > 0 {
        members_are_last(profiles, n - 1, entity);
        let uses = profiles[n - 1]@;
        uses_are_entered(
            arrangement::memberships(profiles, n - 1),
            uses,
            (n - 1) as usize,
            uses.len() as int,
            entity,
        );
    }
}

proof fn rings_are_own(
    m: Arithmetic,
    profiles: Seq<Vec<SketchEntityUse>>,
    entities: Seq<SketchEntity>,
    n: int,
)
    requires
        0 <= n <= profiles.len(),
    ensures
        match arrangement::rings_of(m, profiles, entities, n) {
            Some(rings) => {
                &&& rings.len() == n
                &&& forall|i: int|
                    0 <= i < n ==> ring::ring_of(
                        m,
                        i as usize,
                        (#[trigger] profiles[i])@,
                        entities,
                    ) == Some(rings[i])
            },
            None => exists|i: int|
                0 <= i < n && ring::ring_of(m, i as usize, (#[trigger] profiles[i])@, entities)
                    is None,
        },
    decreases n,
{
    if n > 0 {
        rings_are_own(m, profiles, entities, n - 1);
        assert(profiles[n - 1]@ == profiles[n - 1]@);
    }
}

/// A sketch is arranged exactly if it has a loop, each of its loops has a ring and
/// no two of them cross. Its rings are those of its loops. Each bounds a region,
/// whose holes are the loops that lie directly in it, in order. Each entity belongs
/// to the last loop that uses it.
pub proof fn arrangement_is_nesting(
    m: Arithmetic,
    profiles: Seq<Vec<SketchEntityUse>>,
    entities: Seq<SketchEntity>,
)
    requires
        profiles.len() <= usize::MAX,
    ensures
        match arrangement::arrangement_of(m, profiles, entities) {
            Some(found) => {
                &&& profiles.len() > 0
                &&& found.rings.len() == profiles.len()
                &&& found.regions.len() == profiles.len()
                &&& forall|i: int|
                    0 <= i < profiles.len() ==> ring::ring_of(
                        m,
                        i as usize,
                        (#[trigger] profiles[i])@,
                        entities,
                    ) == Some(found.rings[i])
                &&& forall|i: int, j: int|
                    0 <= i < j < profiles.len() ==> !#[trigger] crossing::loops_cross(
                        m,
                        found.rings[i],
                        found.rings[j],
                    )
                &&& forall|i: int|
                    0 <= i < profiles.len() ==> (#[trigger] found.regions[i]).outer == i
                &&& nesting::measured(found.rings) ==> forall|i: int|
                    0 <= i < profiles.len() ==> bounds(m, found.rings, #[trigger] found.regions[i])
                &&& forall|entity: Seq<char>| #[trigger]
                    found.ring_of_entity.contains_key(entity) ==> is_last_use(
                        profiles,
                        profiles.len() as int,
                        entity,
                        found.ring_of_entity[entity] as int,
                    )
                &&& forall|entity: Seq<char>, i: int|
                    0 <= i < profiles.len() && #[trigger] is_used(profiles[i]@, entity)
                        ==> found.ring_of_entity.contains_key(entity)
            },
            None => {
                ||| profiles.len() == 0
                ||| exists|i: int|
                    0 <= i < profiles.len() && ring::ring_of(
                        m,
                        i as usize,
                        (#[trigger] profiles[i])@,
                        entities,
                    ) is None
                ||| exists|i: int, j: int|
                    0 <= i < j < profiles.len() && {
                        let a = ring::ring_of(m, i as usize, (#[trigger] profiles[i])@, entities);
                        let b = ring::ring_of(m, j as usize, (#[trigger] profiles[j])@, entities);
                        a is Some && b is Some && crossing::loops_cross(m, a->0, b->0)
                    }
            },
        },
{
    let all = profiles.len() as int;
    rings_are_own(m, profiles, entities, all);
    if let Some(found) = arrangement::arrangement_of(m, profiles, entities) {
        if nesting::measured(found.rings) {
            assert forall|i: int| 0 <= i < all implies bounds(
                m,
                found.rings,
                #[trigger] found.regions[i],
            ) by {
                holes_lie_directly_in(m, found.rings, i, all);
            }
        }
        assert forall|entity: Seq<char>| #[trigger] found.ring_of_entity.contains_key(
            entity,
        ) implies is_last_use(
            profiles,
            profiles.len() as int,
            entity,
            found.ring_of_entity[entity] as int,
        ) by {
            members_are_last(profiles, all, entity);
        }
        assert forall|entity: Seq<char>, i: int|
            0 <= i < profiles.len() && #[trigger] is_used(
                profiles[i]@,
                entity,
            ) implies found.ring_of_entity.contains_key(entity) by {
            members_are_last(profiles, all, entity);
        }
    } else if arrangement::rings_of(m, profiles, entities, all) is Some && all > 0 {
        let rings = arrangement::rings_of(m, profiles, entities, all)->0;
        let (i, j) = choose|i: int, j: int|
            0 <= i < j < rings.len() && #[trigger] crossing::loops_cross(m, rings[i], rings[j]);
        assert(profiles[i]@ == profiles[i]@ && profiles[j]@ == profiles[j]@);
        let a = ring::ring_of(m, i as usize, profiles[i]@, entities);
        let b = ring::ring_of(m, j as usize, profiles[j]@, entities);
        assert(a == Some(rings[i]) && b == Some(rings[j]));
    }
}

/// Whether the holes of a region are the loops that lie directly in its outer one,
/// each once and in order.
pub open spec fn bounds(m: Arithmetic, rings: Seq<RingView>, region: RegionView) -> bool {
    &&& forall|i: int| 0 <= i < region.holes.len() ==> #[trigger] region.holes[i] < rings.len()
    &&& forall|i: int, j: int|
        0 <= i < j < region.holes.len() ==> #[trigger] region.holes[i] < #[trigger] region.holes[j]
    &&& forall|k: int|
        0 <= k < rings.len() ==> (region.holes.contains(k as usize)
            <==> #[trigger] lies_directly_in(m, rings, k, region.outer as int))
}

/// A region's sample is a point its outer loop holds and none of its holes does.
pub proof fn sample_is_held(m: Arithmetic, found: ArrangementView, region: RegionView)
    ensures
        found.sample_point(m, region) matches Some(at) ==> {
            &&& holds(m, found.rings[region.outer as int], at)
            &&& forall|j: int|
                0 <= j < region.holes.len() ==> !holds(
                    m,
                    found.rings[#[trigger] region.holes[j] as int],
                    at,
                )
        },
        found.sample_point(m, region) is None ==> !(holds(
            m,
            found.rings[region.outer as int],
            found.rings[region.outer as int].interior,
        ) && forall|j: int|
            0 <= j < region.holes.len() ==> !holds(
                m,
                found.rings[#[trigger] region.holes[j] as int],
                found.rings[region.outer as int].interior,
            )),
{
    arrangement::sample_is_inside(m, found, region);
    let outer = found.rings[region.outer as int];
    if let Some(at) = found.sample_point(m, region) {
        ring_holds_its_inside(m, outer, at);
        assert forall|j: int| 0 <= j < region.holes.len() implies !holds(
            m,
            found.rings[#[trigger] region.holes[j] as int],
            at,
        ) by {
            ring_holds_its_inside(m, found.rings[region.holes[j] as int], at);
        }
    } else {
        let middle = outer.interior;
        ring_holds_its_inside(m, outer, middle);
        assert forall|j: int| 0 <= j < region.holes.len() implies ring::inside(
            m,
            found.rings[#[trigger] region.holes[j] as int],
            middle,
        ) == holds(m, found.rings[region.holes[j] as int], middle) by {
            ring_holds_its_inside(m, found.rings[region.holes[j] as int], middle);
        }
    }
}

// ---------------------------------------------------------------------------
// walks
// ---------------------------------------------------------------------------

/// Whether a loop is a hole of one of some regions.
spec fn is_hole_of_some(regions: Seq<RegionView>, hole: usize) -> bool {
    exists|j: int| 0 <= j < regions.len() && (#[trigger] regions[j]).holes.contains(hole)
}

proof fn walk_follows_holes(
    found: ArrangementView,
    before: Seq<RegionView>,
    frontier: Seq<usize>,
    fuel: nat,
)
    requires
        found.sound(),
        forall|k: int| 0 <= k < frontier.len() ==> #[trigger] frontier[k] < found.rings.len(),
        forall|k: int|
            0 <= k < frontier.len() ==> is_hole_of_some(before, #[trigger] frontier[k]),
    ensures
        ({
            let more = arrangement::descend(found.regions, frontier, fuel);
            let all = before + more;
            forall|k: int|
                before.len() <= k < all.len() ==> {
                    &&& (#[trigger] all[k]).outer < found.regions.len()
                    &&& all[k] == found.regions[all[k].outer as int]
                    &&& follows_parent(all, k)
                }
        }),
    decreases fuel,
{
    if fuel > 0 && frontier.len() > 0 {
        let last = frontier.last();
        let region = found.regions[last as int];
        assert(frontier[frontier.len() - 1] == last);
        let next = frontier.drop_last() + region.holes;
        let longer = before.push(region);
        assert forall|k: int| 0 <= k < next.len() implies #[trigger] next[k] < found.rings.len() by {
            if k < frontier.len() - 1 {
                assert(next[k] == frontier[k]);
            } else {
                assert(next[k] == found.regions[last as int].holes[k - (frontier.len() - 1)]);
            }
        }
        assert forall|k: int| 0 <= k < next.len() implies is_hole_of_some(
            longer,
            #[trigger] next[k],
        ) by {
            if k < frontier.len() - 1 {
                assert(next[k] == frontier[k]);
                let j = choose|j: int|
                    0 <= j < before.len() && (#[trigger] before[j]).holes.contains(frontier[k]);
                assert(longer[j].holes.contains(next[k]));
            } else {
                let i = k - (frontier.len() - 1);
                assert(next[k] == region.holes[i]);
                assert(longer[before.len() as int].holes.contains(next[k]));
            }
        }
        walk_follows_holes(found, longer, next, (fuel - 1) as nat);
        let more = arrangement::descend(found.regions, frontier, fuel);
        let rest = arrangement::descend(found.regions, next, (fuel - 1) as nat);
        let all = before + more;
        assert(all =~= longer + rest);
        assert forall|k: int| before.len() <= k < all.len() implies {
            &&& (#[trigger] all[k]).outer < found.regions.len()
            &&& all[k] == found.regions[all[k].outer as int]
            &&& follows_parent(all, k)
        } by {
            if k == before.len() {
                assert(all[k] == region);
                assert(found.regions[last as int].outer == last) by {
                    assert(found.rings[last as int].index == last);
                }
                let j = choose|j: int|
                    0 <= j < before.len() && (#[trigger] before[j]).holes.contains(
                        frontier[frontier.len() - 1],
                    );
                assert(all[j] == before[j]);
            } else {
                assert(all[k] == (longer + rest)[k]);
            }
        }
    }
}

/// Whether a region comes after one it is a hole of.
pub open spec fn follows_parent(regions: Seq<RegionView>, k: int) -> bool {
    exists|j: int| 0 <= j < k && (#[trigger] regions[j]).holes.contains(regions[k].outer)
}

/// The regions within a loop begin with the loop's own. Each of them is a region of
/// the arrangement, and each but the first comes after one it is a hole of, so that
/// what is drawn for it is not cut away again.
pub proof fn regions_within_follow_their_holes(found: ArrangementView, outer: int)
    requires
        found.sound(),
        0 <= outer < found.regions.len(),
    ensures
        ({
            let all = found.within(outer);
            &&& all.len() > 0
            &&& all[0] == found.regions[outer]
            &&& forall|k: int|
                0 < k < all.len() ==> {
                    &&& (#[trigger] all[k]).outer < found.regions.len()
                    &&& all[k] == found.regions[all[k].outer as int]
                    &&& follows_parent(all, k)
                }
        }),
{
    let own = found.regions[outer];
    let before = seq![own];
    assert forall|k: int| 0 <= k < own.holes.len() implies is_hole_of_some(
        before,
        #[trigger] own.holes[k],
    ) by {
        assert(before[0].holes.contains(own.holes[k]));
    }
    walk_follows_holes(found, before, own.holes, (found.regions.len() - 1) as nat);
}

} // verus!
