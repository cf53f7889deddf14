//! What numbers, text, order and lookup are, beneath everything else.

use crate::adjacency;
use crate::arena;
use crate::arena::Identified;
use crate::ir::{
    Coedge, Curve, Edge, Face, Loop, Model, Point, SketchEntity, Surface, Vertex,
};
use crate::kernel::{Arithmetic, ScalarOp, Vec3, VectorOp};
use crate::list;
use crate::list::Ranked;
use crate::scalar::Scalar;
use crate::text;
use crate::topo;
use vstd::prelude::*;

verus! {

// ---------------------------------------------------------------------------
// numbers
// ---------------------------------------------------------------------------

/// Whether a pattern has its sign bit set.
pub open spec fn has_sign(a: Scalar) -> bool {
    a.bits >= 0x8000_0000_0000_0000
}

/// A pattern with its sign bit cleared.
pub open spec fn without_sign(a: Scalar) -> int {
    if has_sign(a) {
        a.bits - 0x8000_0000_0000_0000
    } else {
        a.bits as int
    }
}

/// Numbers are compared as their patterns are: positive ones upwards, negative
/// ones downwards, negative ones below positive ones but for the two zeros, which
/// are equal. What lies beyond infinity is no number and compares with nothing.
pub proof fn numbers_compare_by_pattern(a: Scalar, b: Scalar)
    ensures
        a.nan() <==> without_sign(a) > 0x7ff0_0000_0000_0000,
        a.finite() <==> without_sign(a) < 0x7ff0_0000_0000_0000,
        a.nan() || b.nan() ==> !a.below(b) && !a.at_most(b),
        !a.nan() && !b.nan() ==> {
            &&& !has_sign(a) && !has_sign(b) ==> (a.below(b) <==> a.bits < b.bits) && (a.at_most(b)
                <==> a.bits <= b.bits)
            &&& has_sign(a) && has_sign(b) ==> (a.below(b) <==> a.bits > b.bits) && (a.at_most(b)
                <==> a.bits >= b.bits)
            &&& has_sign(a) && !has_sign(b) ==> a.at_most(b) && (a.below(b) <==> without_sign(a)
                + without_sign(b) > 0)
            &&& !has_sign(a) && has_sign(b) ==> !a.below(b) && (a.at_most(b) <==> without_sign(a)
                + without_sign(b) == 0)
        },
{
}

/// Dropping a sign clears the sign bit, and turning one flips it. The lesser and
/// the greater of two values are the two values, in order, where both are numbers;
/// otherwise whichever is one.
pub proof fn signs_and_extremes(a: Scalar, b: Scalar)
    ensures
        a.unsigned().bits == without_sign(a),
        !has_sign(a.unsigned()),
        without_sign(a.negated()) == without_sign(a),
        has_sign(a.negated()) != has_sign(a),
        a.lesser(b) == a || a.lesser(b) == b,
        a.greater(b) == a || a.greater(b) == b,
        !a.nan() && !b.nan() ==> {
            &&& a.lesser(b).at_most(a) && a.lesser(b).at_most(b)
            &&& a.at_most(a.greater(b)) && b.at_most(a.greater(b))
        },
        !a.nan() && b.nan() ==> a.lesser(b) == a && a.greater(b) == a,
        a.nan() && !b.nan() ==> a.lesser(b) == b && a.greater(b) == b,
{
}

/// In the total order a pattern with a sign comes before one without, and among
/// those of one sign the smaller in size comes first without it and last with it.
pub proof fn patterns_are_ranked(a: Scalar, b: Scalar)
    ensures
        has_sign(a) && !has_sign(b) ==> a.total_rank() < b.total_rank(),
        !has_sign(a) && !has_sign(b) ==> (a.total_rank() < b.total_rank() <==> a.bits < b.bits),
        has_sign(a) && has_sign(b) ==> (a.total_rank() < b.total_rank() <==> a.bits > b.bits),
{
}

/// Every operation is answered as it is asked, with its operands in the order given.
/// Two directions are parallel if they are so in either order.
pub proof fn operations_are_answered_as_asked(
    m: Arithmetic,
    a: Scalar,
    b: Scalar,
    c: Scalar,
    n: usize,
    v: Vec3,
    w: Vec3,
)
    ensures
        m.plus(a, b) == (m.scalar)(ScalarOp::Plus(a, b)),
        m.minus(a, b) == (m.scalar)(ScalarOp::Minus(a, b)),
        m.times(a, b) == (m.scalar)(ScalarOp::Times(a, b)),
        m.divide(a, b) == (m.scalar)(ScalarOp::Divide(a, b)),
        m.mul_add(a, b, c) == (m.scalar)(ScalarOp::MulAdd(a, b, c)),
        m.midpoint(a, b) == (m.scalar)(ScalarOp::Midpoint(a, b)),
        m.sqrt(a) == (m.scalar)(ScalarOp::Sqrt(a)),
        m.sin(a) == (m.scalar)(ScalarOp::Sin(a)),
        m.cos(a) == (m.scalar)(ScalarOp::Cos(a)),
        m.tan(a) == (m.scalar)(ScalarOp::Tan(a)),
        m.hypot(a, b) == (m.scalar)(ScalarOp::Hypot(a, b)),
        m.count(n) == (m.scalar)(ScalarOp::Count(n)),
        m.dot(v, w) == (m.scalar)(ScalarOp::Dot(v, w)),
        m.length(v) == (m.scalar)(ScalarOp::Length(v)),
        m.sum(v, w) == (m.vector)(VectorOp::Sum(v, w)),
        m.difference(v, w) == (m.vector)(VectorOp::Difference(v, w)),
        m.scale(v, a) == (m.vector)(VectorOp::Scale(v, a)),
        m.unit(v) == (m.vector)(VectorOp::Unit(v)),
        m.reject(v, w) == (m.vector)(VectorOp::Reject(v, w)),
        m.cross(v, w) == (m.vector)(VectorOp::Cross(v, w)),
        m.is_parallel(v, w) == m.is_parallel(w, v),
        (m.parallel)((v, w)) ==> m.is_parallel(v, w),
        m.is_parallel(v, w) ==> (m.parallel)((v, w)) || (m.parallel)((w, v)),
{
}

// ---------------------------------------------------------------------------
// text
// ---------------------------------------------------------------------------

/// The number some digits read as.
pub open spec fn number_read(digits: Seq<char>) -> int
    decreases digits.len(),
{
    if digits.len() == 0 {
        0
    } else {
        10 * number_read(digits.drop_last()) + (digits.last() as u32 - 48)
    }
}

proof fn digit_reads_back(d: int)
    requires
        0 <= d < 10,
    ensures
        text::digit(d).len() == 1,
        text::digit(d)[0] as u32 == 48 + d,
{
    reveal_strlit("0");
    reveal_strlit("1");
    reveal_strlit("2");
    reveal_strlit("3");
    reveal_strlit("4");
    reveal_strlit("5");
    reveal_strlit("6");
    reveal_strlit("7");
    reveal_strlit("8");
    reveal_strlit("9");
}

/// The digits of a count read back as the count. They are decimal digits, at least
/// one of them, and the first is a zero for the count zero only.
pub proof fn digits_read_back(n: nat)
    ensures
        ({
            let written = text::digits(n);
            &&& number_read(written) == n
            &&& written.len() > 0
            &&& forall|i: int|
                0 <= i < written.len() ==> 48 <= (#[trigger] written[i]) as u32
                    && written[i] as u32 <= 57
            &&& written[0] as u32 == 48 <==> n == 0
        }),
    decreases n,
{
    let written = text::digits(n);
    if n < 10 {
        digit_reads_back(n as int);
        assert(written.drop_last().len() == 0);
        assert(number_read(written.drop_last()) == 0);
        assert(written.last() == written[0]);
    } else {
        digits_read_back(n / 10);
        digit_reads_back((n % 10) as int);
        let rest = text::digits(n / 10);
        assert(written.drop_last() =~= rest);
        assert(written.last() == text::digit((n % 10) as int)[0]);
        assert forall|i: int| 0 <= i < written.len() implies 48 <= (#[trigger] written[i]) as u32
            && written[i] as u32 <= 57 by {
            if i < rest.len() {
                assert(written[i] == rest[i]);
            }
        }
        assert(written[0] == rest[0]);
    }
}

/// Pieces are joined one after the other, with the separator between each two and
/// nowhere else.
pub proof fn pieces_are_joined(pieces: Seq<Seq<char>>, separator: Seq<char>, n: int)
    requires
        0 < n < pieces.len(),
    ensures
        text::joined(pieces, separator, 0) == Seq::<char>::empty(),
        text::joined(pieces, separator, 1) == pieces[0],
        text::joined(pieces, separator, n + 1) == text::joined(pieces, separator, n) + separator
            + pieces[n],
{
}

// ---------------------------------------------------------------------------
// order
// ---------------------------------------------------------------------------

/// Whether two items come neither before nor after one another.
pub open spec fn tied<T: Ranked>(a: T, b: T) -> bool {
    !a.before(b) && !b.before(a)
}

/// Sorting is stable: items that come neither before nor after one another keep the
/// order they had.
pub proof fn ties_keep_their_order<T: Ranked>(items: Seq<T>, n: int, x: T)
    requires
        list::orderly::<T>(),
        0 <= n <= items.len(),
    ensures
        list::stable_order(items, n).filter(|y: T| tied(x, y)) == items.take(n).filter(
            |y: T| tied(x, y),
        ),
    decreases n,
{
    let like = |y: T| tied(x, y);
    reveal(Seq::filter);
    if n > 0 {
        ties_keep_their_order(items, n - 1, x);
        list::stable_order_is_ordered(items, n - 1);
        let rest = list::stable_order(items, n - 1);
        let item = items[n - 1];
        let k = list::slot(rest, item, rest.len() as int);
        list::slot_in_range(rest, item, rest.len() as int);
        list::slot_divides(rest, item, rest.len() as int);
        let head = rest.take(k);
        let tail = rest.skip(k);
        let now = rest.insert(k, item);
        assert(rest =~= head + tail);
        assert(now =~= head + (seq![item] + tail));
        Seq::filter_distributes_over_add(head, tail, like);
        Seq::filter_distributes_over_add(head, seq![item] + tail, like);
        Seq::filter_distributes_over_add(seq![item], tail, like);
        let one = seq![item];
        assert(one.len() == 1 && one.last() == item);
        assert(one.drop_last() =~= Seq::<T>::empty());
        assert(one.drop_last().filter(like).len() == 0);
        assert(items.take(n).drop_last() =~= items.take(n - 1));
        assert(items.take(n).last() == item);
        if tied(x, item) {
            assert(tail.filter(like).len() == 0) by {
                if tail.filter(like).len() > 0 {
                    tail.lemma_filter_pred(like, 0);
                    let y = tail.filter(like)[0];
                    assert(tied(x, y));
                    Seq::lemma_filter_contains_rev(tail, like, y);
                    let j = choose|j: int| 0 <= j < tail.len() && tail[j] == y;
                    assert(rest[k + j] == y);
                    assert(item.before(y));
                    assert(!x.before(item) && !y.before(x));
                    assert(!item.before(x) && !x.before(y));
                }
            }
            assert(tail.filter(like) =~= Seq::<T>::empty());
            assert(one.filter(like) =~= one);
            assert(now.filter(like) =~= rest.filter(like).push(item));
        } else {
            assert(one.filter(like) =~= Seq::<T>::empty());
            assert(now.filter(like) =~= rest.filter(like));
        }
    } else {
        assert(items.take(n) =~= Seq::<T>::empty());
        assert(list::stable_order(items, n) =~= items.take(n));
    }
}

// ---------------------------------------------------------------------------
// lookup
// ---------------------------------------------------------------------------

/// Every entity is looked up by its own identity.
pub proof fn entities_go_by_their_identity(
    entity: SketchEntity,
    surface: Surface,
    curve: Curve,
    face: Face,
    owner: Loop,
    coedge: Coedge,
    edge: Edge,
    vertex: Vertex,
    point: Point,
)
    ensures
        entity.key() == entity.id@,
        surface.key() == surface.id@,
        curve.key() == curve.id@,
        face.key() == face.id@,
        owner.key() == owner.id@,
        coedge.key() == coedge.id@,
        edge.key() == edge.id@,
        vertex.key() == vertex.id@,
        point.key() == point.id@,
{
}

/// A lookup finds the last entity of an identity, if there is one.
pub proof fn lookup_finds_the_last<T: Identified>(arena: Seq<T>, key: Seq<char>)
    ensures
        match arena::lookup(arena, key) {
            Some(found) => exists|i: int|
                0 <= i < arena.len() && #[trigger] arena[i] == found && found.key() == key
                    && forall|j: int| i < j < arena.len() ==> (#[trigger] arena[j]).key() != key,
            None => forall|j: int| 0 <= j < arena.len() ==> (#[trigger] arena[j]).key() != key,
        },
{
    let all = arena.len() as int;
    arena::position_is_last(arena, key, all);
    if let Some(i) = arena::position(arena, key, all) {
        assert(arena[i].key() == key);
    }
}

/// Identities are resolved in their order, each to the entity it finds; one that
/// finds none is passed over.
pub proof fn identities_are_resolved<T: Identified>(arena: Seq<T>, ids: Seq<String>, n: int)
    requires
        0 <= n <= ids.len(),
    ensures
        arena::resolved(arena, ids, n) == ids.take(n).filter(
            |id: String| arena::lookup(arena, id@) is Some,
        ).map_values(|id: String| arena::lookup(arena, id@)->0),
    decreases n,
{
    reveal(Seq::filter);
    let known = |id: String| arena::lookup(arena, id@) is Some;
    let found = |id: String| arena::lookup(arena, id@)->0;
    if n > 0 {
        identities_are_resolved(arena, ids, n - 1);
        assert(ids.take(n).drop_last() =~= ids.take(n - 1));
        assert(ids.take(n).last() == ids[n - 1]);
        assert(arena::resolved(arena, ids, n) =~= ids.take(n).filter(known).map_values(found));
    } else {
        assert(ids.take(n) =~= Seq::<String>::empty());
        assert(arena::resolved(arena, ids, n) =~= ids.take(n).filter(known).map_values(found));
    }
}

// ---------------------------------------------------------------------------
// topology
// ---------------------------------------------------------------------------

/// The loops of a face are those it names, and the coedges of a loop those it names.
pub proof fn boundary_is_named(model: Model, face: Face, owner: Loop)
    ensures
        topo::loops_of(model, face) == face.loops@.filter(
            |id: String| arena::lookup(model.loops@, id@) is Some,
        ).map_values(|id: String| arena::lookup(model.loops@, id@)->0),
        topo::coedges_of(model, owner) == owner.coedges@.filter(
            |id: String| arena::lookup(model.coedges@, id@) is Some,
        ).map_values(|id: String| arena::lookup(model.coedges@, id@)->0),
{
    identities_are_resolved(model.loops@, face.loops@, face.loops@.len() as int);
    identities_are_resolved(model.coedges@, owner.coedges@, owner.coedges@.len() as int);
    assert(face.loops@.take(face.loops@.len() as int) =~= face.loops@);
    assert(owner.coedges@.take(owner.coedges@.len() as int) =~= owner.coedges@);
}

proof fn coedges_run_by_loop(model: Model, loops: Seq<Loop>, n: int, coedge: Coedge)
    requires
        0 <= n <= loops.len(),
    ensures
        topo::coedges_around(model, loops, n).contains(coedge) <==> exists|i: int|
            0 <= i < n && topo::coedges_of(model, #[trigger] loops[i]).contains(coedge),
    decreases n,
{
    if n > 0 {
        coedges_run_by_loop(model, loops, n - 1, coedge);
        let rest = topo::coedges_around(model, loops, n - 1);
        let more = topo::coedges_of(model, loops[n - 1]);
        let now = topo::coedges_around(model, loops, n);
        if rest.contains(coedge) {
            let k = choose|k: int| 0 <= k < rest.len() && rest[k] == coedge;
            assert(now[k] == coedge);
        }
        if more.contains(coedge) {
            let k = choose|k: int| 0 <= k < more.len() && more[k] == coedge;
            assert(now[rest.len() + k] == coedge);
        }
        if now.contains(coedge) {
            let k = choose|k: int| 0 <= k < now.len() && now[k] == coedge;
            if k < rest.len() {
                assert(rest[k] == coedge);
            } else {
                assert(more[k - rest.len()] == coedge);
            }
        }
    }
}

/// The coedges bounding a face are those of its loops. An edge is a seam of the
/// face exactly if more than one of them uses it.
pub proof fn boundary_is_that_of_its_loops(model: Model, face: Face, coedge: Coedge, edge: Seq<char>)
    ensures
        topo::boundary(model, face).contains(coedge) <==> exists|i: int|
            0 <= i < topo::loops_of(model, face).len() && topo::coedges_of(
                model,
                #[trigger] topo::loops_of(model, face)[i],
            ).contains(coedge),
        !topo::is_seam(model, face, edge) <==> forall|i: int, j: int|
            0 <= i < topo::boundary(model, face).len() && 0 <= j < topo::boundary(model, face).len()
                && (#[trigger] topo::boundary(model, face)[i]).edge@ == edge && (
            #[trigger] topo::boundary(model, face)[j]).edge@ == edge ==> i == j,
{
    let loops = topo::loops_of(model, face);
    coedges_run_by_loop(model, loops, loops.len() as int, coedge);
    let around = topo::boundary(model, face);
    if !topo::is_seam(model, face, edge) {
        assert forall|i: int, j: int|
            0 <= i < around.len() && 0 <= j < around.len() && (#[trigger] around[i]).edge@ == edge
                && (#[trigger] around[j]).edge@ == edge implies i == j by {
            if i < j {
                assert(around[i].edge@ == edge && around[j].edge@ == edge);
            } else if j < i {
                assert(around[j].edge@ == edge && around[i].edge@ == edge);
            }
        }
    }
}

/// Whether a point is the solved position of a vertex.
pub open spec fn is_position_of(model: Model, vertex: Seq<char>, position: Vec3) -> bool {
    arena::lookup(model.vertices@, vertex) matches Some(v) && (arena::lookup(
        model.points@,
        v.point@,
    ) matches Some(point) && point.position == position)
}

proof fn ends_are_positions(model: Model, edge: Edge, position: Vec3)
    ensures
        topo::edge_points(model, edge).contains(position) <==> is_position_of(
            model,
            edge.start@,
            position,
        ) || is_position_of(model, edge.end@, position),
{
    let ends = topo::edge_points(model, edge);
    let first = topo::at_most_one(topo::vertex_position(model, edge.start@));
    let second = topo::at_most_one(topo::vertex_position(model, edge.end@));
    if is_position_of(model, edge.start@, position) {
        assert(ends[0] == position);
    }
    if is_position_of(model, edge.end@, position) {
        assert(ends[first.len() as int] == position);
    }
}

/// The points along some edges are the solved positions of their two ends, and of
/// nothing else.
pub proof fn points_are_the_ends_of_edges(model: Model, edges: Seq<Edge>, n: int, position: Vec3)
    requires
        0 <= n <= edges.len(),
    ensures
        topo::points_along(model, edges, n).contains(position) <==> exists|i: int|
            0 <= i < n && (is_position_of(model, (#[trigger] edges[i]).start@, position)
                || is_position_of(model, edges[i].end@, position)),
    decreases n,
{
    if n > 0 {
        points_are_the_ends_of_edges(model, edges, n - 1, position);
        ends_are_positions(model, edges[n - 1], position);
        let rest = topo::points_along(model, edges, n - 1);
        let more = topo::edge_points(model, edges[n - 1]);
        let now = topo::points_along(model, edges, n);
        if rest.contains(position) {
            let k = choose|k: int| 0 <= k < rest.len() && rest[k] == position;
            assert(now[k] == position);
        }
        if more.contains(position) {
            let k = choose|k: int| 0 <= k < more.len() && more[k] == position;
            assert(now[rest.len() + k] == position);
        }
        if now.contains(position) {
            let k = choose|k: int| 0 <= k < now.len() && now[k] == position;
            if k < rest.len() {
                assert(rest[k] == position);
            } else {
                assert(more[k - rest.len()] == position);
            }
        }
    }
}

/// Whether a solved end of an edge of a face lies at a station along an axis.
pub open spec fn reaches_station(
    m: Arithmetic,
    model: Model,
    face: Face,
    axis: Vec3,
    station: Scalar,
) -> bool {
    exists|position: Vec3| #[trigger]
        is_end_of(model, face, position) && m.dot(position, axis) == station
}

/// Whether a point is the solved end of an edge of a face.
pub open spec fn is_end_of(model: Model, face: Face, position: Vec3) -> bool {
    exists|i: int|
        0 <= i < topo::face_edges(model, face).len() && (is_position_of(
            model,
            (#[trigger] topo::face_edges(model, face)[i]).start@,
            position,
        ) || is_position_of(model, topo::face_edges(model, face)[i].end@, position))
}

/// The span of a face runs from the lowest to the highest station of a solved end
/// of its edges: it reaches both its ends, and no such station lies outside it.
pub proof fn face_spans_its_ends(
    m: Arithmetic,
    model: Model,
    face_id: Seq<char>,
    face: Face,
    axis: Vec3,
    station: Scalar,
)
    requires
        arena::lookup(model.faces@, face_id) == Some(face),
    ensures
        topo::face_span(m, model, face_id, axis) matches Some((low, high)) ==> {
            &&& low.finite() && high.finite()
            &&& reaches_station(m, model, face, axis, low)
            &&& reaches_station(m, model, face, axis, high)
            &&& reaches_station(m, model, face, axis, station) && !station.nan() ==> low.at_most(
                station,
            ) && station.at_most(high)
        },
{
    adjacency::face_span_is_tight(m, model, face_id, face, axis);
    let edges = topo::face_edges(model, face);
    let all = edges.len() as int;
    let points = topo::points_along(model, edges, all);
    let stations = adjacency::face_stations(m, model, face, axis);
    if let Some((low, high)) = topo::face_span(m, model, face_id, axis) {
        assert forall|k: int| 0 <= k < points.len() implies is_end_of(
            model,
            face,
            #[trigger] points[k],
        ) by {
            assert(points.contains(points[k]));
            points_are_the_ends_of_edges(model, edges, all, points[k]);
        }
        let i = choose|i: int| 0 <= i < stations.len() && stations[i] == low;
        assert(is_end_of(model, face, points[i]));
        let j = choose|j: int| 0 <= j < stations.len() && stations[j] == high;
        assert(is_end_of(model, face, points[j]));
        if reaches_station(m, model, face, axis, station) && !station.nan() {
            let position = choose|position: Vec3| #[trigger]
                is_end_of(model, face, position) && m.dot(position, axis) == station;
            points_are_the_ends_of_edges(model, edges, all, position);
            assert(points.contains(position));
            let k = choose|k: int| 0 <= k < points.len() && points[k] == position;
            assert(stations[k] == station);
        }
    }
}

/// Whether a face is the last of its identity and built on a carrier.
pub open spec fn is_built_on(model: Model, i: int, surface_id: Seq<char>) -> bool {
    &&& 0 <= i < model.faces@.len()
    &&& model.faces@[i].surface@ == surface_id
    &&& forall|j: int|
        i < j < model.faces@.len() ==> (#[trigger] model.faces@[j]).id@ != model.faces@[i].id@
}

/// The span of a carrier runs from the lowest to the highest end of the spans of the
/// faces built on it.
pub proof fn carrier_spans_its_faces(
    m: Arithmetic,
    model: Model,
    surface_id: Seq<char>,
    axis: Vec3,
    i: int,
)
    ensures
        topo::surface_span(m, model, surface_id, axis) matches Some((low, high)) ==> {
            &&& low.finite() && high.finite()
            &&& is_built_on(model, i, surface_id) ==> (topo::face_span(
                m,
                model,
                model.faces@[i].id@,
                axis,
            ) matches Some(span) ==> low.at_most(span.0) && span.1.at_most(high))
            &&& exists|a: int| #[trigger]
                is_built_on(model, a, surface_id) && (topo::face_span(
                    m,
                    model,
                    model.faces@[a].id@,
                    axis,
                ) matches Some(span) && span.0 == low)
            &&& exists|b: int| #[trigger]
                is_built_on(model, b, surface_id) && (topo::face_span(
                    m,
                    model,
                    model.faces@[b].id@,
                    axis,
                ) matches Some(span) && span.1 == high)
        },
{
    adjacency::surface_span_is_tight(m, model, surface_id, axis);
    assert forall|a: int| 0 <= a < model.faces@.len() implies topo::face_on(
        model,
        a,
        surface_id,
    ) == #[trigger] is_built_on(model, a, surface_id) by {
        let faces = model.faces@;
        let all = faces.len() as int;
        arena::position_is_last(faces, faces[a].id@, all);
        assert forall|j: int| 0 <= j < all implies (#[trigger] faces[j]).key() == faces[j].id@ by {}
        if let Some(at) = arena::position(faces, faces[a].id@, all) {
            if at == a {
                assert forall|j: int| a < j < all implies (#[trigger] faces[j]).id@ != faces[a].id@ by {
                    assert(faces[j].key() != faces[a].id@);
                }
            } else if a < at {
                assert(faces[at].key() == faces[at].id@);
            } else {
                assert(faces[a].key() != faces[a].id@);
            }
        } else {
            assert(faces[a].key() != faces[a].id@);
        }
    }
    if let Some((low, high)) = topo::surface_span(m, model, surface_id, axis) {
        let a = choose|a: int| #![trigger model.faces@[a]]
            0 <= a < model.faces@.len() && topo::face_on(model, a, surface_id) && (topo::face_span(
                m,
                model,
                model.faces@[a].id@,
                axis,
            ) matches Some(span) && span.0 == low);
        assert(is_built_on(model, a, surface_id));
        let b = choose|b: int| #![trigger model.faces@[b]]
            0 <= b < model.faces@.len() && topo::face_on(model, b, surface_id) && (topo::face_span(
                m,
                model,
                model.faces@[b].id@,
                axis,
            ) matches Some(span) && span.1 == high);
        assert(is_built_on(model, b, surface_id));
        if is_built_on(model, i, surface_id) {
            assert(topo::face_on(model, i, surface_id));
            assert(model.faces@[i] == model.faces@[i]);
        }
    }
}

} // verus!
