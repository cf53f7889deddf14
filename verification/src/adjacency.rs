//! What the walks over the solved topology find.

use crate::arena;
use crate::arena::Identified;
use crate::ir::{Coedge, Edge, Face, Model};
use crate::kernel::{Arithmetic, Vec3};
use crate::scalar::{Scalar, INFINITY, NEG_INFINITY};
use crate::topo;
use vstd::prelude::*;

verus! {

// ---------------------------------------------------------------------------
// edges
// ---------------------------------------------------------------------------

/// Whether some edges are those that the first `n` coedges use, each once.
spec fn lists_uses(model: Model, coedges: Seq<Coedge>, n: int, edges: Seq<Edge>) -> bool {
    &&& forall|i: int, j: int|
        0 <= i < j < edges.len() ==> (#[trigger] edges[i]).id@ != (#[trigger] edges[j]).id@
    &&& forall|i: int|
        0 <= i < edges.len() ==> exists|c: int|
            0 <= c < n && arena::lookup(model.edges@, (#[trigger] coedges[c]).edge@) == Some(
                #[trigger] edges[i],
            )
    &&& forall|c: int|
        0 <= c < n ==> (arena::lookup(model.edges@, (#[trigger] coedges[c]).edge@) matches Some(edge)
            ==> edges.contains(edge))
}

proof fn used_edges_are_listed(model: Model, coedges: Seq<Coedge>, n: int)
    requires
        0 <= n <= coedges.len(),
    ensures
        lists_uses(model, coedges, n, topo::edges_used(model, coedges, n)),
    decreases n,
{
    let now = topo::edges_used(model, coedges, n);
    if n > 0 {
        used_edges_are_listed(model, coedges, n - 1);
        let rest = topo::edges_used(model, coedges, n - 1);
        assert forall|i: int| 0 <= i < now.len() implies exists|c: int|
            0 <= c < n && arena::lookup(model.edges@, (#[trigger] coedges[c]).edge@) == Some(
                #[trigger] now[i],
            ) by {
            if i < rest.len() {
                assert(now[i] == rest[i]);
                let c = choose|c: int|
                    0 <= c < n - 1 && arena::lookup(model.edges@, (#[trigger] coedges[c]).edge@)
                        == Some(rest[i]);
                assert(arena::lookup(model.edges@, coedges[c].edge@) == Some(now[i]));
            } else {
                assert(arena::lookup(model.edges@, coedges[n - 1].edge@) == Some(now[i]));
            }
        }
        assert forall|c: int| 0 <= c < n implies (arena::lookup(
            model.edges@,
            (#[trigger] coedges[c]).edge@,
        ) matches Some(edge) ==> now.contains(edge)) by {
            if let Some(edge) = arena::lookup(model.edges@, coedges[c].edge@) {
                if c < n - 1 {
                    let i = choose|i: int| 0 <= i < rest.len() && rest[i] == edge;
                    assert(now[i] == edge);
                } else if topo::has_edge(rest, edge.id@) {
                    let i = choose|i: int|
                        0 <= i < rest.len() && (#[trigger] rest[i]).id@ == edge.id@;
                    let first = choose|first: int|
                        0 <= first < n - 1 && arena::lookup(
                            model.edges@,
                            (#[trigger] coedges[first]).edge@,
                        ) == Some(rest[i]);
                    one_entity_per_identity(model.edges@, coedges[first].edge@, edge.id@);
                    one_entity_per_identity(model.edges@, coedges[c].edge@, edge.id@);
                    assert(now[i] == edge);
                } else {
                    assert(now[rest.len() as int] == edge);
                }
            }
        }
        assert forall|i: int, j: int| 0 <= i < j < now.len() implies (#[trigger] now[i]).id@ != (
        #[trigger] now[j]).id@ by {
            assert(now[i] == rest[i]);
            if j < rest.len() {
                assert(now[j] == rest[j]);
            }
        }
    }
}

/// What a lookup finds carries the identity asked for, so that two lookups that
/// find one identity find one entity.
proof fn one_entity_per_identity(edges: Seq<Edge>, asked: Seq<char>, found: Seq<char>)
    requires
        arena::lookup(edges, asked) matches Some(edge) && edge.id@ == found,
    ensures
        asked == found,
{
    arena::position_is_last(edges, asked, edges.len() as int);
    let at = arena::position(edges, asked, edges.len() as int)->0;
    assert(edges[at].key() == asked);
}

/// The edges of a face are those its boundary uses, every one of them, without
/// repetition.
pub proof fn face_edges_are_its_boundary(model: Model, face: Face)
    ensures
        ({
            let edges = topo::face_edges(model, face);
            let coedges = topo::boundary(model, face);
            &&& forall|i: int, j: int|
                0 <= i < j < edges.len() ==> (#[trigger] edges[i]).id@ != (
                #[trigger] edges[j]).id@
            &&& forall|edge: Edge| #[trigger]
                edges.contains(edge) <==> exists|c: int|
                    0 <= c < coedges.len() && arena::lookup(
                        model.edges@,
                        (#[trigger] coedges[c]).edge@,
                    ) == Some(edge)
        }),
{
    let edges = topo::face_edges(model, face);
    let coedges = topo::boundary(model, face);
    used_edges_are_listed(model, coedges, coedges.len() as int);
    assert forall|edge: Edge| #[trigger] edges.contains(edge) implies exists|c: int|
        0 <= c < coedges.len() && arena::lookup(model.edges@, (#[trigger] coedges[c]).edge@)
            == Some(edge) by {
        let i = choose|i: int| 0 <= i < edges.len() && edges[i] == edge;
        let c = choose|c: int|
            0 <= c < coedges.len() && arena::lookup(model.edges@, (#[trigger] coedges[c]).edge@)
                == Some(edges[i]);
        assert(arena::lookup(model.edges@, coedges[c].edge@) == Some(edge));
    }
}

/// How many of the first `n` coedges use an edge that is on record.
pub open spec fn uses(model: Model, coedges: Seq<Coedge>, n: int) -> nat
    decreases n,
{
    if n <= 0 {
        0
    } else {
        uses(model, coedges, n - 1) + if arena::lookup(model.edges@, coedges[n - 1].edge@) is Some {
            1nat
        } else {
            0
        }
    }
}

/// Whether a coedge uses an edge that one before it uses, as a seam is.
pub open spec fn used_before(coedges: Seq<Coedge>, c: int) -> bool {
    exists|b: int| 0 <= b < c && (#[trigger] coedges[b]).edge@ == coedges[c].edge@
}

/// How many of the first `n` coedges use a recorded edge again.
pub open spec fn repeated_uses(model: Model, coedges: Seq<Coedge>, n: int) -> nat
    decreases n,
{
    if n <= 0 {
        0
    } else {
        repeated_uses(model, coedges, n - 1) + if arena::lookup(
            model.edges@,
            coedges[n - 1].edge@,
        ) is Some && used_before(coedges, n - 1) {
            1nat
        } else {
            0
        }
    }
}

proof fn edges_and_repeats_count(model: Model, coedges: Seq<Coedge>, n: int)
    requires
        0 <= n <= coedges.len(),
    ensures
        topo::edges_used(model, coedges, n).len() + repeated_uses(model, coedges, n) == uses(
            model,
            coedges,
            n,
        ),
        (forall|c: int|
            0 <= c < n ==> arena::lookup(model.edges@, (#[trigger] coedges[c]).edge@) is Some)
            ==> uses(model, coedges, n) == n,
    decreases n,
{
    if n > 0 {
        edges_and_repeats_count(model, coedges, n - 1);
        used_edges_are_listed(model, coedges, n - 1);
        let rest = topo::edges_used(model, coedges, n - 1);
        let asked = coedges[n - 1].edge@;
        if let Some(edge) = arena::lookup(model.edges@, asked) {
            one_entity_per_identity(model.edges@, asked, edge.id@);
            if topo::has_edge(rest, edge.id@) {
                let i = choose|i: int|
                    0 <= i < rest.len() && (#[trigger] rest[i]).id@ == edge.id@;
                let b = choose|b: int|
                    0 <= b < n - 1 && arena::lookup(model.edges@, (#[trigger] coedges[b]).edge@)
                        == Some(rest[i]);
                one_entity_per_identity(model.edges@, coedges[b].edge@, edge.id@);
                assert(used_before(coedges, n - 1));
            }
            if used_before(coedges, n - 1) {
                let b = choose|b: int| 0 <= b < n - 1 && (#[trigger] coedges[b]).edge@ == asked;
                assert(rest.contains(edge));
                let i = choose|i: int| 0 <= i < rest.len() && rest[i] == edge;
                assert(rest[i].id@ == edge.id@);
                assert(topo::has_edge(rest, edge.id@));
            }
        }
    }
}

/// The edges of a face and the repeated uses on its boundary are together as
/// many as the boundary's coedges with an edge on record: all of them, where
/// every edge is.
pub proof fn seams_account_for_the_boundary(model: Model, face: Face)
    ensures
        ({
            let coedges = topo::boundary(model, face);
            let all = coedges.len() as int;
            &&& topo::face_edges(model, face).len() + repeated_uses(model, coedges, all) == uses(
                model,
                coedges,
                all,
            )
            &&& (forall|c: int|
                0 <= c < all ==> arena::lookup(model.edges@, (#[trigger] coedges[c]).edge@) is Some)
                ==> uses(model, coedges, all) == all
        }),
{
    let coedges = topo::boundary(model, face);
    edges_and_repeats_count(model, coedges, coedges.len() as int);
}

// ---------------------------------------------------------------------------
// neighbours
// ---------------------------------------------------------------------------

/// Whether a coedge uses an edge and lies in a loop of a face.
pub open spec fn uses_for(model: Model, c: int, edge: Seq<char>, face: Seq<char>) -> bool {
    &&& 0 <= c < model.coedges@.len()
    &&& model.coedges@[c].edge@ == edge
    &&& arena::lookup(model.loops@, model.coedges@[c].owner_loop@) matches Some(owner)
        && owner.face@ == face
}

/// Whether a face uses an edge.
pub open spec fn touches_edge(model: Model, edge: Seq<char>, face: Seq<char>) -> bool {
    exists|c: int| #[trigger] uses_for(model, c, edge, face)
}

proof fn uses_are_all(coedges: Seq<Coedge>, edge: Seq<char>, n: int)
    requires
        0 <= n <= coedges.len() <= usize::MAX,
    ensures
        forall|c: int|
            0 <= c < n ==> ((#[trigger] coedges[c]).edge@ == edge <==> topo::uses_of(
                coedges,
                edge,
                n,
            ).contains(c as usize)),
        forall|k: int| #![trigger topo::uses_of(coedges, edge, n)[k]]
            0 <= k < topo::uses_of(coedges, edge, n).len() ==> topo::uses_of(
                coedges,
                edge,
                n,
            )[k] < n,
    decreases n,
{
    if n > 0 {
        uses_are_all(coedges, edge, n - 1);
        let rest = topo::uses_of(coedges, edge, n - 1);
        let now = topo::uses_of(coedges, edge, n);
        assert forall|k: int| #![trigger now[k]] 0 <= k < now.len() implies now[k] < n by {
            if k < rest.len() {
                assert(now[k] == rest[k]);
            }
        }
        assert forall|c: int| 0 <= c < n implies ((#[trigger] coedges[c]).edge@ == edge
            <==> now.contains(c as usize)) by {
            if c < n - 1 {
                if rest.contains(c as usize) {
                    let k = choose|k: int| 0 <= k < rest.len() && rest[k] == c as usize;
                    assert(now[k] == c as usize);
                }
                if now.contains(c as usize) {
                    let k = choose|k: int| 0 <= k < now.len() && now[k] == c as usize;
                    assert(k < rest.len());
                    assert(rest[k] == c as usize);
                }
            } else {
                if coedges[c].edge@ == edge {
                    assert(now[rest.len() as int] == c as usize);
                } else if now.contains(c as usize) {
                    let k = choose|k: int| 0 <= k < now.len() && now[k] == c as usize;
                    assert(rest[k] == c as usize);
                }
            }
        }
    }
}

proof fn owners_are_all(model: Model, uses: Seq<usize>, n: int, name: Seq<char>)
    requires
        0 <= n <= uses.len(),
    ensures
        topo::owners(model, uses, n).contains(name) <==> exists|k: int|
            0 <= k < n && (arena::lookup(
                model.loops@,
                model.coedges@[#[trigger] uses[k] as int].owner_loop@,
            ) matches Some(owner) && owner.face@ == name),
    decreases n,
{
    if n > 0 {
        owners_are_all(model, uses, n - 1, name);
        let rest = topo::owners(model, uses, n - 1);
        let now = topo::owners(model, uses, n);
        if rest.contains(name) {
            let i = choose|i: int| 0 <= i < rest.len() && rest[i] == name;
            assert(now[i] == name);
        }
        if now.contains(name) && !rest.contains(name) {
            let i = choose|i: int| 0 <= i < now.len() && now[i] == name;
            if i < rest.len() {
                assert(rest[i] == name);
            }
            assert(now.len() == rest.len() + 1);
            assert(arena::lookup(
                model.loops@,
                model.coedges@[uses[n - 1] as int].owner_loop@,
            ) matches Some(owner) && owner.face@ == name);
        }
        if arena::lookup(
            model.loops@,
            model.coedges@[uses[n - 1] as int].owner_loop@,
        ) matches Some(owner) && owner.face@ == name {
            assert(now[rest.len() as int] == name);
        }
    }
}

proof fn faces_at_touch(model: Model, edge: Edge, name: Seq<char>)
    ensures
        topo::faces_at(model, edge).contains(name) <==> touches_edge(model, edge.id@, name),
{
    let coedges = model.coedges@;
    let all = coedges.len() as int;
    let uses = topo::uses_of(coedges, edge.id@, all);
    assert(model.coedges.len() == all);
    uses_are_all(coedges, edge.id@, all);
    owners_are_all(model, uses, uses.len() as int, name);
    if topo::faces_at(model, edge).contains(name) {
        let k = choose|k: int|
            0 <= k < uses.len() && (arena::lookup(
                model.loops@,
                model.coedges@[#[trigger] uses[k] as int].owner_loop@,
            ) matches Some(owner) && owner.face@ == name);
        let c = uses[k] as int;
        assert(uses.contains(c as usize));
        assert(coedges[c].edge@ == edge.id@);
        assert(uses_for(model, c, edge.id@, name));
    }
    if touches_edge(model, edge.id@, name) {
        let c = choose|c: int| #[trigger] uses_for(model, c, edge.id@, name);
        assert(coedges[c].edge@ == edge.id@);
        let k = choose|k: int| 0 <= k < uses.len() && uses[k] == c as usize;
        assert(arena::lookup(
            model.loops@,
            model.coedges@[uses[k] as int].owner_loop@,
        ) matches Some(owner) && owner.face@ == name);
    }
}

proof fn faces_along_touch(model: Model, edges: Seq<Edge>, n: int, name: Seq<char>)
    requires
        0 <= n <= edges.len(),
    ensures
        topo::faces_along(model, edges, n).contains(name) <==> exists|i: int|
            0 <= i < n && touches_edge(model, (#[trigger] edges[i]).id@, name),
    decreases n,
{
    if n > 0 {
        faces_along_touch(model, edges, n - 1, name);
        faces_at_touch(model, edges[n - 1], name);
        let rest = topo::faces_along(model, edges, n - 1);
        let more = topo::faces_at(model, edges[n - 1]);
        let now = topo::faces_along(model, edges, n);
        if rest.contains(name) {
            let i = choose|i: int| 0 <= i < rest.len() && rest[i] == name;
            assert(now[i] == name);
        }
        if more.contains(name) {
            let i = choose|i: int| 0 <= i < more.len() && more[i] == name;
            assert(now[rest.len() + i] == name);
        }
        if now.contains(name) {
            let i = choose|i: int| 0 <= i < now.len() && now[i] == name;
            if i < rest.len() {
                assert(rest[i] == name);
            } else {
                assert(more[i - rest.len()] == name);
            }
        }
    }
}

proof fn others_are_distinct(names: Seq<Seq<char>>, own: Seq<char>, n: int)
    requires
        0 <= n <= names.len(),
    ensures
        topo::others(names, own, n).no_duplicates(),
        forall|name: Seq<char>| #[trigger]
            topo::others(names, own, n).contains(name) <==> name != own && names.take(n).contains(
                name,
            ),
    decreases n,
{
    if n > 0 {
        others_are_distinct(names, own, n - 1);
        let rest = topo::others(names, own, n - 1);
        let now = topo::others(names, own, n);
        let last = names[n - 1];
        assert(names.take(n) =~= names.take(n - 1).push(last));
        assert forall|name: Seq<char>| #[trigger] now.contains(name) <==> name != own
            && names.take(n).contains(name) by {
            let before = names.take(n - 1);
            if rest.contains(name) {
                let i = choose|i: int| 0 <= i < rest.len() && rest[i] == name;
                assert(now[i] == name);
            }
            if before.contains(name) {
                let i = choose|i: int| 0 <= i < before.len() && before[i] == name;
                assert(names.take(n)[i] == name);
            }
            if names.take(n).contains(name) && name != last {
                let i = choose|i: int| 0 <= i < n && names.take(n)[i] == name;
                assert(before[i] == name);
            }
            assert(names.take(n)[n - 1] == last);
            if now.contains(name) && !rest.contains(name) {
                let i = choose|i: int| 0 <= i < now.len() && now[i] == name;
                assert(i == rest.len());
            }
            if last != own && !rest.contains(last) {
                assert(now[rest.len() as int] == last);
            }
        }
    } else {
        assert(names.take(n).len() == 0);
    }
}

/// The neighbours of a face are the other faces that use one of its edges, each
/// named once.
pub proof fn neighbours_share_an_edge(model: Model, face_id: Seq<char>, face: Face)
    requires
        arena::lookup(model.faces@, face_id) == Some(face),
    ensures
        topo::neighbours(model, face_id).no_duplicates(),
        forall|name: Seq<char>| #[trigger]
            topo::neighbours(model, face_id).contains(name) <==> name != face_id && exists|i: int|
                0 <= i < topo::face_edges(model, face).len() && touches_edge(
                    model,
                    (#[trigger] topo::face_edges(model, face)[i]).id@,
                    name,
                ),
{
    let edges = topo::face_edges(model, face);
    let names = topo::faces_along(model, edges, edges.len() as int);
    others_are_distinct(names, face_id, names.len() as int);
    assert(names.take(names.len() as int) =~= names);
    assert forall|name: Seq<char>| #[trigger]
        topo::neighbours(model, face_id).contains(name) <==> name != face_id && exists|i: int|
            0 <= i < edges.len() && touches_edge(model, (#[trigger] edges[i]).id@, name) by {
        faces_along_touch(model, edges, edges.len() as int, name);
    }
}

// ---------------------------------------------------------------------------
// spans
// ---------------------------------------------------------------------------

/// Whether two stations bound some others, and are among them.
pub open spec fn bounds_tightly(low: Scalar, high: Scalar, stations: Seq<Scalar>) -> bool {
    &&& forall|i: int|
        0 <= i < stations.len() && !(#[trigger] stations[i]).nan() ==> low.at_most(stations[i])
            && stations[i].at_most(high)
    &&& stations.contains(low)
    &&& stations.contains(high)
}

/// The stations of some points along an axis.
pub open spec fn stations_of(m: Arithmetic, points: Seq<Vec3>, axis: Vec3) -> Seq<Scalar> {
    points.map_values(|point: Vec3| m.dot(point, axis))
}

proof fn reach_bounds(m: Arithmetic, points: Seq<Vec3>, axis: Vec3, n: int)
    requires
        0 <= n <= points.len(),
    ensures
        ({
            let (low, high) = topo::reach(m, points, axis, n);
            let stations = stations_of(m, points, axis);
            &&& !low.nan() && !high.nan()
            &&& forall|i: int| 0 <= i < n && !(#[trigger] stations[i]).nan() ==> low.at_most(
                stations[i],
            ) && stations[i].at_most(high)
            &&& low.bits == INFINITY || exists|i: int| 0 <= i < n && #[trigger] stations[i] == low
            &&& high.bits == NEG_INFINITY || exists|i: int|
                0 <= i < n && #[trigger] stations[i] == high
        }),
    decreases n,
{
    if n > 0 {
        reach_bounds(m, points, axis, n - 1);
        let stations = stations_of(m, points, axis);
        let before = topo::reach(m, points, axis, n - 1);
        let now = topo::reach(m, points, axis, n);
        assert(stations[n - 1] == m.dot(points[n - 1], axis));
        if now.0 == before.0 && now.0.bits != INFINITY {
            let i = choose|i: int| 0 <= i < n - 1 && #[trigger] stations[i] == before.0;
            assert(stations[i] == now.0);
        }
        if now.1 == before.1 && now.1.bits != NEG_INFINITY {
            let i = choose|i: int| 0 <= i < n - 1 && #[trigger] stations[i] == before.1;
            assert(stations[i] == now.1);
        }
    }
}

/// The stations of the endpoints of a face's edges.
pub open spec fn face_stations(m: Arithmetic, model: Model, face: Face, axis: Vec3) -> Seq<Scalar> {
    let edges = topo::face_edges(model, face);
    stations_of(m, topo::points_along(model, edges, edges.len() as int), axis)
}

/// The span of a face bounds the solved endpoints of its edges, and both its
/// ends are stations of such endpoints.
pub proof fn face_span_is_tight(
    m: Arithmetic,
    model: Model,
    face_id: Seq<char>,
    face: Face,
    axis: Vec3,
)
    requires
        arena::lookup(model.faces@, face_id) == Some(face),
    ensures
        topo::face_span(m, model, face_id, axis) matches Some(span) ==> bounds_tightly(
            span.0,
            span.1,
            face_stations(m, model, face, axis),
        ) && span.0.at_most(span.1),
{
    let edges = topo::face_edges(model, face);
    let points = topo::points_along(model, edges, edges.len() as int);
    let stations = face_stations(m, model, face, axis);
    reach_bounds(m, points, axis, points.len() as int);
    if let Some(span) = topo::face_span(m, model, face_id, axis) {
        let i = choose|i: int| 0 <= i < stations.len() && #[trigger] stations[i] == span.0;
        assert(span.0.at_most(stations[i]));
        assert(stations[i].at_most(span.1));
    }
}

proof fn carrier_reach_bounds(
    m: Arithmetic,
    model: Model,
    surface_id: Seq<char>,
    axis: Vec3,
    n: int,
)
    requires
        0 <= n <= model.faces@.len(),
    ensures
        ({
            let (low, high) = topo::carrier_reach(m, model, surface_id, axis, n);
            &&& !low.nan() && !high.nan()
            &&& forall|i: int| #![trigger model.faces@[i]]
                0 <= i < n && topo::face_on(model, i, surface_id) ==> (topo::face_span(
                    m,
                    model,
                    model.faces@[i].id@,
                    axis,
                ) matches Some(span) ==> low.at_most(span.0) && span.1.at_most(high))
            &&& low.bits == INFINITY || exists|i: int| #![trigger model.faces@[i]]
                0 <= i < n && topo::face_on(model, i, surface_id) && (topo::face_span(
                    m,
                    model,
                    model.faces@[i].id@,
                    axis,
                ) matches Some(span) && span.0 == low)
            &&& high.bits == NEG_INFINITY || exists|i: int| #![trigger model.faces@[i]]
                0 <= i < n && topo::face_on(model, i, surface_id) && (topo::face_span(
                    m,
                    model,
                    model.faces@[i].id@,
                    axis,
                ) matches Some(span) && span.1 == high)
        }),
    decreases n,
{
    if n > 0 {
        carrier_reach_bounds(m, model, surface_id, axis, n - 1);
        let face = model.faces@[n - 1];
        let before = topo::carrier_reach(m, model, surface_id, axis, n - 1);
        let now = topo::carrier_reach(m, model, surface_id, axis, n);
        if now.0 == before.0 && now.0.bits != INFINITY {
            let i = choose|i: int| #![trigger model.faces@[i]]
                0 <= i < n - 1 && topo::face_on(model, i, surface_id) && (topo::face_span(
                    m,
                    model,
                    model.faces@[i].id@,
                    axis,
                ) matches Some(span) && span.0 == before.0);
            assert(topo::face_on(model, i, surface_id));
        }
        if now.1 == before.1 && now.1.bits != NEG_INFINITY {
            let i = choose|i: int| #![trigger model.faces@[i]]
                0 <= i < n - 1 && topo::face_on(model, i, surface_id) && (topo::face_span(
                    m,
                    model,
                    model.faces@[i].id@,
                    axis,
                ) matches Some(span) && span.1 == before.1);
            assert(topo::face_on(model, i, surface_id));
        }
    }
}

/// The span of a carrier bounds the spans of all faces built on it, and each of
/// its ends is an end of such a span.
pub proof fn surface_span_is_tight(
    m: Arithmetic,
    model: Model,
    surface_id: Seq<char>,
    axis: Vec3,
)
    ensures
        topo::surface_span(m, model, surface_id, axis) matches Some((low, high)) ==> {
            &&& forall|i: int| #![trigger model.faces@[i]]
                0 <= i < model.faces@.len() && topo::face_on(model, i, surface_id) ==> (
                topo::face_span(m, model, model.faces@[i].id@, axis) matches Some(span)
                    ==> low.at_most(span.0) && span.1.at_most(high))
            &&& exists|i: int| #![trigger model.faces@[i]]
                0 <= i < model.faces@.len() && topo::face_on(model, i, surface_id) && (
                topo::face_span(m, model, model.faces@[i].id@, axis) matches Some(span) && span.0
                    == low)
            &&& exists|i: int| #![trigger model.faces@[i]]
                0 <= i < model.faces@.len() && topo::face_on(model, i, surface_id) && (
                topo::face_span(m, model, model.faces@[i].id@, axis) matches Some(span) && span.1
                    == high)
        },
{
    carrier_reach_bounds(m, model, surface_id, axis, model.faces@.len() as int);
}

} // verus!
