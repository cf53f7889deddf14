//! Identity lookups and navigation over the solved topology.
//!
//! Both emitters need the same walks - a face's edges, an edge's solved
//! endpoints, the faces across a face's boundary - so they share one index.

use crate::arena;
use crate::arena::Catalog;
use crate::ir::{CadIr, Coedge, Curve, Edge, Face, Loop, Model, Point, Surface, Vertex};
use crate::kernel::{Arithmetic, Kernel, Vec3};
use crate::scalar::{Scalar, INFINITY, NEG_INFINITY};
use vstd::hash_map::StringHashMap;
use vstd::hash_set::StringHashSet;
use vstd::prelude::*;

verus! {

/// The loops of a face.
pub open spec fn loops_of(model: Model, face: Face) -> Seq<Loop> {
    arena::resolved(model.loops@, face.loops@, face.loops@.len() as int)
}

/// The coedges of a loop.
pub open spec fn coedges_of(model: Model, owner: Loop) -> Seq<Coedge> {
    arena::resolved(model.coedges@, owner.coedges@, owner.coedges@.len() as int)
}

/// The coedges of the first `n` loops, one loop after the other.
pub open spec fn coedges_around(model: Model, loops: Seq<Loop>, n: int) -> Seq<Coedge>
    decreases n,
{
    if n <= 0 {
        Seq::empty()
    } else {
        coedges_around(model, loops, n - 1) + coedges_of(model, loops[n - 1])
    }
}

/// The coedges bounding a face.
pub open spec fn boundary(model: Model, face: Face) -> Seq<Coedge> {
    let loops = loops_of(model, face);
    coedges_around(model, loops, loops.len() as int)
}

/// Whether an edge with an identity is among some edges.
pub open spec fn has_edge(edges: Seq<Edge>, id: Seq<char>) -> bool {
    exists|i: int| 0 <= i < edges.len() && (#[trigger] edges[i]).id@ == id
}

/// The edges the first `n` coedges use, each where it is first used.
pub open spec fn edges_used(model: Model, coedges: Seq<Coedge>, n: int) -> Seq<Edge>
    decreases n,
{
    if n <= 0 {
        Seq::empty()
    } else {
        let rest = edges_used(model, coedges, n - 1);
        match arena::lookup(model.edges@, coedges[n - 1].edge@) {
            Some(edge) => if has_edge(rest, edge.id@) {
                rest
            } else {
                rest.push(edge)
            },
            None => rest,
        }
    }
}

/// The edges bounding a face.
pub open spec fn face_edges(model: Model, face: Face) -> Seq<Edge> {
    let coedges = boundary(model, face);
    edges_used(model, coedges, coedges.len() as int)
}

/// Whether two of the coedges bounding a face use one edge.
pub open spec fn is_seam(model: Model, face: Face, edge: Seq<char>) -> bool {
    exists|i: int, j: int|
        0 <= i < j < boundary(model, face).len() && #[trigger] boundary(model, face)[i].edge@
            == edge && #[trigger] boundary(model, face)[j].edge@ == edge
}

/// Places of those of the first `n` coedges that use an edge.
pub open spec fn uses_of(coedges: Seq<Coedge>, edge: Seq<char>, n: int) -> Seq<usize>
    decreases n,
{
    if n <= 0 {
        Seq::empty()
    } else if coedges[n - 1].edge@ == edge {
        uses_of(coedges, edge, n - 1).push((n - 1) as usize)
    } else {
        uses_of(coedges, edge, n - 1)
    }
}

/// The faces whose loops own the first `n` of some coedges.
pub open spec fn owners(model: Model, uses: Seq<usize>, n: int) -> Seq<Seq<char>>
    decreases n,
{
    if n <= 0 {
        Seq::empty()
    } else {
        let rest = owners(model, uses, n - 1);
        match arena::lookup(model.loops@, model.coedges@[uses[n - 1] as int].owner_loop@) {
            Some(owner) => rest.push(owner.face@),
            None => rest,
        }
    }
}

/// The faces that own a use of one edge.
pub open spec fn faces_at(model: Model, edge: Edge) -> Seq<Seq<char>> {
    let uses = uses_of(model.coedges@, edge.id@, model.coedges@.len() as int);
    owners(model, uses, uses.len() as int)
}

/// The faces that own a use of one of the first `n` edges, edge by edge.
pub open spec fn faces_along(model: Model, edges: Seq<Edge>, n: int) -> Seq<Seq<char>>
    decreases n,
{
    if n <= 0 {
        Seq::empty()
    } else {
        faces_along(model, edges, n - 1) + faces_at(model, edges[n - 1])
    }
}

/// The first `n` names, each once and without one of them.
pub open spec fn others(names: Seq<Seq<char>>, own: Seq<char>, n: int) -> Seq<Seq<char>>
    decreases n,
{
    if n <= 0 {
        Seq::empty()
    } else {
        let rest = others(names, own, n - 1);
        if names[n - 1] == own || rest.contains(names[n - 1]) {
            rest
        } else {
            rest.push(names[n - 1])
        }
    }
}

/// The faces across the boundary of a face.
pub open spec fn neighbours(model: Model, face_id: Seq<char>) -> Seq<Seq<char>> {
    match arena::lookup(model.faces@, face_id) {
        Some(face) => {
            let edges = face_edges(model, face);
            let names = faces_along(model, edges, edges.len() as int);
            others(names, face_id, names.len() as int)
        },
        None => Seq::empty(),
    }
}

/// The solved position of a vertex.
pub open spec fn vertex_position(model: Model, vertex: Seq<char>) -> Option<Vec3> {
    match arena::lookup(model.vertices@, vertex) {
        Some(v) => match arena::lookup(model.points@, v.point@) {
            Some(point) => Some(point.position),
            None => None,
        },
        None => None,
    }
}

/// One position, or none.
pub open spec fn at_most_one(position: Option<Vec3>) -> Seq<Vec3> {
    match position {
        Some(p) => seq![p],
        None => Seq::empty(),
    }
}

/// The solved endpoints of an edge, start before end.
pub open spec fn edge_points(model: Model, edge: Edge) -> Seq<Vec3> {
    at_most_one(vertex_position(model, edge.start@)) + at_most_one(
        vertex_position(model, edge.end@),
    )
}

/// The endpoints of the first `n` edges, edge by edge.
pub open spec fn points_along(model: Model, edges: Seq<Edge>, n: int) -> Seq<Vec3>
    decreases n,
{
    if n <= 0 {
        Seq::empty()
    } else {
        points_along(model, edges, n - 1) + edge_points(model, edges[n - 1])
    }
}

/// The least and the greatest station of the first `n` points along an axis.
pub open spec fn reach(m: Arithmetic, points: Seq<Vec3>, axis: Vec3, n: int) -> (Scalar, Scalar)
    decreases n,
{
    if n <= 0 {
        (Scalar { bits: INFINITY }, Scalar { bits: NEG_INFINITY })
    } else {
        let rest = reach(m, points, axis, n - 1);
        let station = m.dot(points[n - 1], axis);
        (rest.0.lesser(station), rest.1.greater(station))
    }
}

/// A reach, when both its ends are finite.
pub open spec fn bounded(reach: (Scalar, Scalar)) -> Option<(Scalar, Scalar)> {
    if reach.0.finite() && reach.1.finite() {
        Some(reach)
    } else {
        None
    }
}

/// The axial extent of a face.
pub open spec fn face_span(m: Arithmetic, model: Model, face_id: Seq<char>, axis: Vec3) -> Option<
    (Scalar, Scalar),
> {
    match arena::lookup(model.faces@, face_id) {
        Some(face) => {
            let edges = face_edges(model, face);
            let points = points_along(model, edges, edges.len() as int);
            bounded(reach(m, points, axis, points.len() as int))
        },
        None => None,
    }
}

/// Whether the face at a place counts as the one with its identity and is built
/// on a carrier.
pub open spec fn face_on(model: Model, i: int, surface_id: Seq<char>) -> bool {
    &&& arena::position(model.faces@, model.faces@[i].id@, model.faces@.len() as int) == Some(i)
    &&& model.faces@[i].surface@ == surface_id
}

/// The least and the greatest station of those of the first `n` faces that are
/// built on a carrier.
pub open spec fn carrier_reach(
    m: Arithmetic,
    model: Model,
    surface_id: Seq<char>,
    axis: Vec3,
    n: int,
) -> (Scalar, Scalar)
    decreases n,
{
    if n <= 0 {
        (Scalar { bits: INFINITY }, Scalar { bits: NEG_INFINITY })
    } else {
        let rest = carrier_reach(m, model, surface_id, axis, n - 1);
        match face_span(m, model, model.faces@[n - 1].id@, axis) {
            Some(span) => if face_on(model, n - 1, surface_id) {
                (rest.0.lesser(span.0), rest.1.greater(span.1))
            } else {
                rest
            },
            None => rest,
        }
    }
}

/// The axial extent of every face built on one carrier.
pub open spec fn surface_span(
    m: Arithmetic,
    model: Model,
    surface_id: Seq<char>,
    axis: Vec3,
) -> Option<(Scalar, Scalar)> {
    bounded(carrier_reach(m, model, surface_id, axis, model.faces@.len() as int))
}

/// Whether slots and buckets hold, for every edge, the first `n` coedges' uses.
pub open spec fn buckets_hold(
    slots: Map<Seq<char>, usize>,
    buckets: Seq<Vec<usize>>,
    coedges: Seq<Coedge>,
    n: int,
) -> bool {
    &&& forall|edge: Seq<char>| #[trigger]
        slots.contains_key(edge) ==> slots[edge] < buckets.len()
    &&& forall|a: Seq<char>, b: Seq<char>|
        #[trigger] slots.contains_key(a) && #[trigger] slots.contains_key(b) && slots[a] == slots[b]
            ==> a == b
    &&& forall|edge: Seq<char>| #[trigger]
        uses_of(coedges, edge, n) == if slots.contains_key(edge) {
            buckets[slots[edge] as int]@
        } else {
            Seq::empty()
        }
}

/// Uses of an edge lie within the coedges.
proof fn uses_in_range(coedges: Seq<Coedge>, edge: Seq<char>, n: int)
    requires
        0 <= n <= coedges.len() <= usize::MAX,
    ensures
        forall|i: int| #![trigger uses_of(coedges, edge, n)[i]]
            0 <= i < uses_of(coedges, edge, n).len() ==> {
                &&& uses_of(coedges, edge, n)[i] < n
                &&& coedges[uses_of(coedges, edge, n)[i] as int].edge@ == edge
            },
    decreases n,
{
    if n > 0 {
        uses_in_range(coedges, edge, n - 1);
        assert forall|i: int| #![trigger uses_of(coedges, edge, n)[i]]
            0 <= i < uses_of(coedges, edge, n).len() implies uses_of(coedges, edge, n)[i] < n
            && coedges[uses_of(coedges, edge, n)[i] as int].edge@ == edge by {
            let rest = uses_of(coedges, edge, n - 1);
            if i < rest.len() {
                assert(uses_of(coedges, edge, n)[i] == rest[i]);
            }
        }
    }
}

/// Whether a name is among some names.
fn holds(names: &Vec<String>, name: &String) -> (r: bool)
    ensures
        r == names@.map_values(|n: String| n@).contains(name@),
{
    let ghost views = names@.map_values(|n: String| n@);
    let mut i: usize = 0;
    while i < names.len()
        invariant
            i <= names@.len(),
            views == names@.map_values(|n: String| n@),
            forall|j: int| 0 <= j < i ==> views[j] != name@,
        decreases names@.len() - i,
    {
        if names[i] == *name {
            assert(views[i as int] == name@);
            return true;
        }
        i += 1;
    }
    false
}

/// Borrowed lookups into one document's topology arenas.
pub struct Topology<'a> {
    surfaces: Catalog<'a, Surface>,
    curves: Catalog<'a, Curve>,
    loops: Catalog<'a, Loop>,
    coedges: Catalog<'a, Coedge>,
    edges: Catalog<'a, Edge>,
    vertices: Catalog<'a, Vertex>,
    points: Catalog<'a, Point>,
    faces: Catalog<'a, Face>,
    /// Every coedge that uses an edge, which is how adjacency is found.
    edge_slots: StringHashMap<usize>,
    coedges_by_edge: Vec<Vec<usize>>,
    model: Ghost<Model>,
}

impl<'a> Topology<'a> {
    #[verifier::type_invariant]
    spec fn indexed(self) -> bool {
        let model = self.model@;
        &&& self.surfaces@ == model.surfaces@
        &&& self.curves@ == model.curves@
        &&& self.loops@ == model.loops@
        &&& self.coedges@ == model.coedges@
        &&& self.edges@ == model.edges@
        &&& self.vertices@ == model.vertices@
        &&& self.points@ == model.points@
        &&& self.faces@ == model.faces@
        &&& buckets_hold(
            self.edge_slots@,
            self.coedges_by_edge@,
            model.coedges@,
            model.coedges@.len() as int,
        )
    }

    /// The model the lookups answer for.
    pub closed spec fn model(&self) -> Model {
        self.model@
    }

    /// Indexes a document.
    pub fn new(ir: &'a CadIr) -> (r: Self)
        ensures
            r.model() == ir.model,
    {
        let mut edge_slots: StringHashMap<usize> = StringHashMap::new();
        let mut coedges_by_edge: Vec<Vec<usize>> = Vec::new();
        let coedges = &ir.model.coedges;
        let mut i: usize = 0;
        while i < coedges.len()
            invariant
                i <= coedges@.len(),
                buckets_hold(edge_slots@, coedges_by_edge@, coedges@, i as int),
            decreases coedges@.len() - i,
        {
            let edge = &coedges[i].edge;
            let ghost slots_before = edge_slots@;
            let ghost buckets_before = coedges_by_edge@;
            match edge_slots.get(edge.as_str()) {
                Some(slot) => {
                    let slot: usize = *slot;
                    coedges_by_edge[slot].push(i);
                },
                None => {
                    let slot: usize = coedges_by_edge.len();
                    let mut bucket: Vec<usize> = Vec::new();
                    bucket.push(i);
                    coedges_by_edge.push(bucket);
                    edge_slots.insert(edge.clone(), slot);
                },
            }
            proof {
                assert forall|e: Seq<char>| #[trigger]
                    uses_of(coedges@, e, i + 1) == if edge_slots@.contains_key(e) {
                        coedges_by_edge@[edge_slots@[e] as int]@
                    } else {
                        Seq::empty()
                    } by {
                    let earlier = uses_of(coedges@, e, i as int);
                    if e == edge@ {
                        assert(uses_of(coedges@, e, i + 1) =~= earlier.push(i));
                    }
                }
            }
            i += 1;
        }
        Topology {
            surfaces: Catalog::new(&ir.model.surfaces),
            curves: Catalog::new(&ir.model.curves),
            loops: Catalog::new(&ir.model.loops),
            coedges: Catalog::new(&ir.model.coedges),
            edges: Catalog::new(&ir.model.edges),
            vertices: Catalog::new(&ir.model.vertices),
            points: Catalog::new(&ir.model.points),
            faces: Catalog::new(&ir.model.faces),
            edge_slots,
            coedges_by_edge,
            model: Ghost(ir.model),
        }
    }

    /// Every face, in document order.
    pub fn faces(&self) -> (r: &'a Vec<Face>)
        ensures
            r@ == self.model().faces@,
    {
        proof {
            use_type_invariant(self);
        }
        self.faces.entities()
    }

    /// Every carrier surface, in document order.
    pub fn surfaces(&self) -> (r: &'a Vec<Surface>)
        ensures
            r@ == self.model().surfaces@,
    {
        proof {
            use_type_invariant(self);
        }
        self.surfaces.entities()
    }

    /// The carrier surface with an identity.
    pub fn surface(&self, identity: &str) -> (r: Option<&'a Surface>)
        ensures
            match r {
                Some(surface) => arena::lookup(self.model().surfaces@, identity@) == Some(*surface),
                None => arena::lookup(self.model().surfaces@, identity@) is None,
            },
    {
        proof {
            use_type_invariant(self);
        }
        self.surfaces.get(identity)
    }

    /// The place of the carrier surface with an identity.
    pub fn surface_place(&self, identity: &str) -> (r: Option<usize>)
        ensures
            match r {
                Some(i) => arena::position(
                    self.model().surfaces@,
                    identity@,
                    self.model().surfaces@.len() as int,
                ) == Some(i as int),
                None => arena::position(
                    self.model().surfaces@,
                    identity@,
                    self.model().surfaces@.len() as int,
                ) is None,
            },
    {
        proof {
            use_type_invariant(self);
        }
        self.surfaces.place(identity)
    }

    /// The carrier curve with an identity.
    pub fn curve(&self, identity: &str) -> (r: Option<&'a Curve>)
        ensures
            match r {
                Some(curve) => arena::lookup(self.model().curves@, identity@) == Some(*curve),
                None => arena::lookup(self.model().curves@, identity@) is None,
            },
    {
        proof {
            use_type_invariant(self);
        }
        self.curves.get(identity)
    }

    /// The face with an identity.
    pub fn face(&self, identity: &str) -> (r: Option<&'a Face>)
        ensures
            match r {
                Some(face) => arena::lookup(self.model().faces@, identity@) == Some(*face),
                None => arena::lookup(self.model().faces@, identity@) is None,
            },
    {
        proof {
            use_type_invariant(self);
        }
        self.faces.get(identity)
    }

    /// The edge with an identity.
    pub fn edge(&self, identity: &str) -> (r: Option<&'a Edge>)
        ensures
            match r {
                Some(edge) => arena::lookup(self.model().edges@, identity@) == Some(*edge),
                None => arena::lookup(self.model().edges@, identity@) is None,
            },
    {
        proof {
            use_type_invariant(self);
        }
        self.edges.get(identity)
    }

    /// The loops of a face.
    pub fn loops_of(&self, face: &Face) -> (r: Vec<&'a Loop>)
        ensures
            r@.unref() == loops_of(self.model(), *face),
    {
        proof {
            use_type_invariant(self);
        }
        self.loops.get_all(&face.loops)
    }

    /// The coedges of a loop.
    pub fn coedges_of(&self, owner: &Loop) -> (r: Vec<&'a Coedge>)
        ensures
            r@.unref() == coedges_of(self.model(), *owner),
    {
        proof {
            use_type_invariant(self);
        }
        self.coedges.get_all(&owner.coedges)
    }

    /// The coedges bounding a face, loop by loop.
    fn boundary(&self, face: &Face) -> (r: Vec<&'a Coedge>)
        ensures
            r@.unref() == boundary(self.model(), *face),
    {
        let loops = self.loops_of(face);
        let mut out: Vec<&'a Coedge> = Vec::new();
        let mut i: usize = 0;
        while i < loops.len()
            invariant
                i <= loops@.len(),
                out@.unref() == coedges_around(self.model(), loops@.unref(), i as int),
            decreases loops@.len() - i,
        {
            let mut coedges = self.coedges_of(loops[i]);
            let ghost before = out@;
            let ghost added = coedges@;
            out.append(&mut coedges);
            assert(out@.unref() =~= before.unref() + added.unref());
            i += 1;
        }
        out
    }

    /// Solved endpoints of an edge, in start-then-end order.
    pub fn edge_points(&self, edge: &Edge) -> (r: Vec<Vec3>)
        ensures
            r@ == edge_points(self.model(), *edge),
    {
        let mut out: Vec<Vec3> = Vec::new();
        if let Some(position) = self.vertex_position(edge.start.as_str()) {
            out.push(position);
        }
        if let Some(position) = self.vertex_position(edge.end.as_str()) {
            out.push(position);
        }
        assert(out@ =~= edge_points(self.model(), *edge));
        out
    }

    fn vertex_position(&self, vertex: &str) -> (r: Option<Vec3>)
        ensures
            r == vertex_position(self.model(), vertex@),
    {
        proof {
            use_type_invariant(self);
        }
        match self.vertices.get(vertex) {
            Some(v) => match self.points.get(v.point.as_str()) {
                Some(point) => Some(point.position),
                None => None,
            },
            None => None,
        }
    }

    /// Every edge bounding a face, without repetition.
    pub fn face_edges(&self, face: &Face) -> (r: Vec<&'a Edge>)
        ensures
            r@.unref() == face_edges(self.model(), *face),
    {
        let coedges = self.boundary(face);
        let mut seen = StringHashSet::new();
        let mut out: Vec<&'a Edge> = Vec::new();
        let mut i: usize = 0;
        while i < coedges.len()
            invariant
                i <= coedges@.len(),
                out@.unref() == edges_used(self.model(), coedges@.unref(), i as int),
                forall|id: Seq<char>|
                    #![trigger seen@.contains(id)]
                    seen@.contains(id) <==> has_edge(out@.unref(), id),
            decreases coedges@.len() - i,
        {
            if let Some(edge) = self.edge(coedges[i].edge.as_str()) {
                let ghost before = out@.unref();
                if seen.insert(edge.id.clone()) {
                    out.push(edge);
                    proof {
                        assert(out@.unref() =~= before.push(*edge));
                        assert forall|id: Seq<char>| #![trigger seen@.contains(id)]
                            seen@.contains(id) <==> has_edge(out@.unref(), id) by {
                            if has_edge(before, id) {
                                let k = choose|k: int|
                                    0 <= k < before.len() && (#[trigger] before[k]).id@ == id;
                                assert(out@.unref()[k].id@ == id);
                            }
                            assert(out@.unref()[before.len() as int] == *edge);
                            if has_edge(out@.unref(), id) {
                                let k = choose|k: int|
                                    0 <= k < out@.unref().len() && (#[trigger] out@.unref()[k]).id@
                                        == id;
                                if k < before.len() {
                                    assert(before[k].id@ == id);
                                }
                            }
                        }
                    }
                }
            }
            i += 1;
        }
        out
    }

    /// Edges a face uses more than once, which is how a closed carrier records
    /// its seam.
    pub fn seam_edges(&self, face: &Face) -> (r: StringHashSet)
        ensures
            forall|edge: Seq<char>| #[trigger]
                r@.contains(edge) <==> is_seam(self.model(), *face, edge),
    {
        let coedges = self.boundary(face);
        let ghost uses = boundary(self.model(), *face);
        let mut seen = StringHashSet::new();
        let mut seams = StringHashSet::new();
        let mut i: usize = 0;
        while i < coedges.len()
            invariant
                i <= coedges@.len(),
                coedges@.unref() == uses,
                forall|edge: Seq<char>| #[trigger]
                    seen@.contains(edge) <==> exists|k: int|
                        0 <= k < i && (#[trigger] uses[k]).edge@ == edge,
                forall|edge: Seq<char>| #[trigger]
                    seams@.contains(edge) <==> exists|k: int, l: int|
                        0 <= k < l < i && (#[trigger] uses[k]).edge@ == edge && (
                        #[trigger] uses[l]).edge@ == edge,
            decreases coedges@.len() - i,
        {
            assert(uses[i as int] == *coedges@[i as int]);
            let fresh = seen.insert(coedges[i].edge.clone());
            if !fresh {
                seams.insert(coedges[i].edge.clone());
            }
            i += 1;
        }
        seams
    }

    /// The faces that own a use of one edge.
    fn faces_at(&self, edge: &Edge) -> (r: Vec<&'a String>)
        ensures
            r@.map_values(|name: &String| name@) == faces_at(self.model(), *edge),
    {
        proof {
            use_type_invariant(self);
        }
        let mut out: Vec<&'a String> = Vec::new();
        let ghost uses = uses_of(
            self.model().coedges@,
            edge.id@,
            self.model().coedges@.len() as int,
        );
        match self.edge_slots.get(edge.id.as_str()) {
            Some(slot) => {
                let bucket = &self.coedges_by_edge[*slot];
                let total: usize = self.coedges.len();
                let mut i: usize = 0;
                while i < bucket.len()
                    invariant
                        total == self.model().coedges@.len(),
                        i <= bucket@.len(),
                        bucket@ == uses,
                        uses == uses_of(
                            self.model().coedges@,
                            edge.id@,
                            self.model().coedges@.len() as int,
                        ),
                        out@.map_values(|name: &String| name@) == owners(
                            self.model(),
                            uses,
                            i as int,
                        ),
                    decreases bucket@.len() - i,
                {
                    proof {
                        use_type_invariant(self);
                        uses_in_range(
                            self.model().coedges@,
                            edge.id@,
                            self.model().coedges@.len() as int,
                        );
                    }
                    let coedge = self.coedges.at(bucket[i]);
                    if let Some(owner) = self.loops.get(coedge.owner_loop.as_str()) {
                        let ghost before = out@.map_values(|name: &String| name@);
                        out.push(&owner.face);
                        assert(out@.map_values(|name: &String| name@) =~= before.push(owner.face@));
                    }
                    i += 1;
                }
            },
            None => {},
        }
        assert(out@.map_values(|name: &String| name@) =~= owners(
            self.model(),
            uses,
            uses.len() as int,
        ));
        out
    }

    /// Faces sharing an edge with the given face.
    ///
    /// This is what makes a blend's support carriers reachable: the two faces a
    /// fillet was tangent to are exactly its neighbours.
    pub fn neighbours(&self, face_id: &str) -> (r: Vec<String>)
        ensures
            r@.map_values(|name: String| name@) == neighbours(self.model(), face_id@),
    {
        let mut out: Vec<String> = Vec::new();
        let face = match self.face(face_id) {
            Some(face) => face,
            None => {
                assert(out@.map_values(|name: String| name@) =~= Seq::empty());
                return out;
            },
        };
        let edges = self.face_edges(face);
        let mut names: Vec<&'a String> = Vec::new();
        let mut i: usize = 0;
        while i < edges.len()
            invariant
                i <= edges@.len(),
                names@.map_values(|name: &String| name@) == faces_along(
                    self.model(),
                    edges@.unref(),
                    i as int,
                ),
            decreases edges@.len() - i,
        {
            let mut found = self.faces_at(edges[i]);
            let ghost before = names@.map_values(|name: &String| name@);
            let ghost added = found@.map_values(|name: &String| name@);
            names.append(&mut found);
            assert(names@.map_values(|name: &String| name@) =~= before + added);
            i += 1;
        }
        let ghost all = names@.map_values(|name: &String| name@);
        let own = face_id.to_owned();
        let mut k: usize = 0;
        while k < names.len()
            invariant
                k <= names@.len(),
                own@ == face_id@,
                all == names@.map_values(|name: &String| name@),
                out@.map_values(|name: String| name@) == others(all, face_id@, k as int),
            decreases names@.len() - k,
        {
            let ghost before = out@.map_values(|name: String| name@);
            assert(all[k as int] == names@[k as int]@);
            if *names[k] != own && !holds(&out, names[k]) {
                out.push(names[k].clone());
                assert(out@.map_values(|name: String| name@) =~= before.push(all[k as int]));
            }
            k += 1;
        }
        out
    }

    /// Solved endpoints of a face's edges, edge by edge.
    pub fn face_points(&self, face: &Face) -> (r: Vec<Vec3>)
        ensures
            r@ == points_along(
                self.model(),
                face_edges(self.model(), *face),
                face_edges(self.model(), *face).len() as int,
            ),
    {
        let edges = self.face_edges(face);
        let mut points: Vec<Vec3> = Vec::new();
        let mut i: usize = 0;
        while i < edges.len()
            invariant
                i <= edges@.len(),
                points@ == points_along(self.model(), edges@.unref(), i as int),
            decreases edges@.len() - i,
        {
            let mut found = self.edge_points(edges[i]);
            points.append(&mut found);
            i += 1;
        }
        points
    }

    /// Axial extent of a face along a direction, from its solved edge geometry.
    pub fn face_span<K: Kernel>(&self, face_id: &str, axis: Vec3, kernel: &K) -> (r: Option<
        (Scalar, Scalar),
    >)
        ensures
            r == face_span(kernel.model(), self.model(), face_id@, axis),
    {
        let face = match self.face(face_id) {
            Some(face) => face,
            None => {
                return None;
            },
        };
        let points = self.face_points(face);
        let mut low = Scalar { bits: INFINITY };
        let mut high = Scalar { bits: NEG_INFINITY };
        let mut k: usize = 0;
        while k < points.len()
            invariant
                k <= points@.len(),
                (low, high) == reach(kernel.model(), points@, axis, k as int),
            decreases points@.len() - k,
        {
            let station = kernel.dot(points[k], axis);
            low = low.min(station);
            high = high.max(station);
            k += 1;
        }
        if low.is_finite() && high.is_finite() {
            Some((low, high))
        } else {
            None
        }
    }

    /// Axial extent of every face built on one carrier, in absolute stations.
    ///
    /// Stations are projections onto the axis direction rather than offsets from
    /// the carrier origin, so they compare directly against a sketch plane's own
    /// station.
    pub fn surface_span<K: Kernel>(&self, surface_id: &str, axis: Vec3, kernel: &K) -> (r: Option<
        (Scalar, Scalar),
    >)
        ensures
            r == surface_span(kernel.model(), self.model(), surface_id@, axis),
    {
        proof {
            use_type_invariant(self);
        }
        let wanted = surface_id.to_owned();
        let mut low = Scalar { bits: INFINITY };
        let mut high = Scalar { bits: NEG_INFINITY };
        let mut i: usize = 0;
        while i < self.faces.len()
            invariant
                i <= self.faces@.len(),
                self.faces@ == self.model().faces@,
                wanted@ == surface_id@,
                (low, high) == carrier_reach(
                    kernel.model(),
                    self.model(),
                    surface_id@,
                    axis,
                    i as int,
                ),
            decreases self.faces@.len() - i,
        {
            let face = self.faces.at(i);
            let counts = match self.faces.place(face.id.as_str()) {
                Some(place) => place == i,
                None => false,
            };
            if counts && face.surface == wanted {
                if let Some(span) = self.face_span(face.id.as_str(), axis, kernel) {
                    low = low.min(span.0);
                    high = high.max(span.1);
                }
            }
            i += 1;
        }
        if low.is_finite() && high.is_finite() {
            Some((low, high))
        } else {
            None
        }
    }
}

} // verus!
