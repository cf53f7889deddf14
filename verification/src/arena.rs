//! Lookup of entities by identity.

use crate::ir::{Coedge, Curve, Edge, Face, Loop, Point, SketchEntity, Surface, Vertex};
use vstd::hash_map::StringHashMap;
use vstd::prelude::*;

verus! {

/// An entity with an identity.
pub trait Identified: Sized {
    spec fn key(self) -> Seq<char>;

    fn identity(&self) -> (r: &String)
        ensures
            r@ == self.key(),
    ;
}

/// Place of the last of the first `n` entities with an identity.
pub open spec fn position<T: Identified>(arena: Seq<T>, key: Seq<char>, n: int) -> Option<int>
    decreases n,
{
    if n <= 0 {
        None
    } else if arena[n - 1].key() == key {
        Some(n - 1)
    } else {
        position(arena, key, n - 1)
    }
}

/// The entity with an identity; of several the last one counts.
pub open spec fn lookup<T: Identified>(arena: Seq<T>, key: Seq<char>) -> Option<T> {
    match position(arena, key, arena.len() as int) {
        Some(i) => Some(arena[i]),
        None => None,
    }
}

/// A position is in range, holds the identity, and no later place does.
pub proof fn position_is_last<T: Identified>(arena: Seq<T>, key: Seq<char>, n: int)
    requires
        0 <= n <= arena.len(),
    ensures
        match position(arena, key, n) {
            Some(i) => {
                &&& 0 <= i < n
                &&& arena[i].key() == key
                &&& forall|j: int| i < j < n ==> arena[j].key() != key
            },
            None => forall|j: int| 0 <= j < n ==> arena[j].key() != key,
        },
    decreases n,
{
    if n > 0 && arena[n - 1].key() != key {
        position_is_last(arena, key, n - 1);
    }
}

/// Whether a map sends each identity among the first `n` entities to its place.
pub open spec fn indexes_first<T: Identified>(
    index: Map<Seq<char>, usize>,
    arena: Seq<T>,
    n: int,
) -> bool {
    forall|key: Seq<char>|
        match #[trigger] position(arena, key, n) {
            Some(i) => index.contains_key(key) && index[key] == i,
            None => !index.contains_key(key),
        }
}

/// The entities that the first `n` identities name, in their order; an identity
/// that names none is passed over.
pub open spec fn resolved<T: Identified>(arena: Seq<T>, ids: Seq<String>, n: int) -> Seq<T>
    decreases n,
{
    if n <= 0 {
        Seq::empty()
    } else {
        let rest = resolved(arena, ids, n - 1);
        match lookup(arena, ids[n - 1]@) {
            Some(entity) => rest.push(entity),
            None => rest,
        }
    }
}

/// An arena with an index of its identities.
#[verifier::reject_recursive_types(T)]
pub struct Catalog<'a, T: Identified> {
    arena: &'a Vec<T>,
    index: StringHashMap<usize>,
}

impl<'a, T: Identified> View for Catalog<'a, T> {
    type V = Seq<T>;

    closed spec fn view(&self) -> Seq<T> {
        self.arena@
    }
}

impl<'a, T: Identified> Catalog<'a, T> {
    #[verifier::type_invariant]
    spec fn indexed(self) -> bool {
        indexes_first(self.index@, self.arena@, self.arena@.len() as int)
    }

    /// Indexes an arena.
    pub fn new(arena: &'a Vec<T>) -> (r: Self)
        ensures
            r@ == arena@,
    {
        let mut index: StringHashMap<usize> = StringHashMap::new();
        let mut i: usize = 0;
        while i < arena.len()
            invariant
                i <= arena@.len(),
                indexes_first(index@, arena@, i as int),
            decreases arena@.len() - i,
        {
            let ghost before = index@;
            index.insert(arena[i].identity().clone(), i);
            proof {
                assert forall|key: Seq<char>|
                    match #[trigger] position(arena@, key, i + 1) {
                        Some(j) => index@.contains_key(key) && index@[key] == j,
                        None => !index@.contains_key(key),
                    } by {
                    let earlier = position(arena@, key, i as int);
                    assert(before.contains_key(key) <==> earlier is Some);
                }
            }
            i += 1;
        }
        Catalog { arena, index }
    }

    /// The arena itself.
    pub fn entities(&self) -> (r: &'a Vec<T>)
        ensures
            r@ == self@,
    {
        self.arena
    }

    /// The number of entities.
    pub fn len(&self) -> (r: usize)
        ensures
            r == self@.len(),
    {
        self.arena.len()
    }

    /// The entity at a place.
    pub fn at(&self, i: usize) -> (r: &'a T)
        requires
            i < self@.len(),
        ensures
            *r == self@[i as int],
    {
        &self.arena[i]
    }

    /// The place of the entity with an identity.
    pub fn place(&self, key: &str) -> (r: Option<usize>)
        ensures
            match r {
                Some(i) => position(self@, key@, self@.len() as int) == Some(i as int) && i
                    < self@.len(),
                None => position(self@, key@, self@.len() as int) is None,
            },
    {
        proof {
            use_type_invariant(self);
            position_is_last(self@, key@, self@.len() as int);
        }
        match self.index.get(key) {
            Some(i) => Some(*i),
            None => None,
        }
    }

    /// The entity with an identity.
    pub fn get(&self, key: &str) -> (r: Option<&'a T>)
        ensures
            match r {
                Some(entity) => lookup(self@, key@) == Some(*entity),
                None => lookup(self@, key@) is None,
            },
    {
        match self.place(key) {
            Some(i) => Some(&self.arena[i]),
            None => None,
        }
    }

    /// The entities that a list of identities names.
    pub fn get_all(&self, ids: &Vec<String>) -> (r: Vec<&'a T>)
        ensures
            r@.unref() == resolved(self@, ids@, ids@.len() as int),
    {
        let mut out: Vec<&'a T> = Vec::new();
        let mut i: usize = 0;
        while i < ids.len()
            invariant
                i <= ids@.len(),
                out@.unref() == resolved(self@, ids@, i as int),
            decreases ids@.len() - i,
        {
            if let Some(entity) = self.get(ids[i].as_str()) {
                let ghost before = out@;
                out.push(entity);
                assert(out@.unref() =~= before.unref().push(*entity));
            }
            i += 1;
        }
        out
    }
}

impl Identified for SketchEntity {
    open spec fn key(self) -> Seq<char> {
        self.id@
    }

    fn identity(&self) -> &String {
        &self.id
    }
}

impl Identified for Surface {
    open spec fn key(self) -> Seq<char> {
        self.id@
    }

    fn identity(&self) -> &String {
        &self.id
    }
}

impl Identified for Curve {
    open spec fn key(self) -> Seq<char> {
        self.id@
    }

    fn identity(&self) -> &String {
        &self.id
    }
}

impl Identified for Face {
    open spec fn key(self) -> Seq<char> {
        self.id@
    }

    fn identity(&self) -> &String {
        &self.id
    }
}

impl Identified for Loop {
    open spec fn key(self) -> Seq<char> {
        self.id@
    }

    fn identity(&self) -> &String {
        &self.id
    }
}

impl Identified for Coedge {
    open spec fn key(self) -> Seq<char> {
        self.id@
    }

    fn identity(&self) -> &String {
        &self.id
    }
}

impl Identified for Edge {
    open spec fn key(self) -> Seq<char> {
        self.id@
    }

    fn identity(&self) -> &String {
        &self.id
    }
}

impl Identified for Vertex {
    open spec fn key(self) -> Seq<char> {
        self.id@
    }

    fn identity(&self) -> &String {
        &self.id
    }
}

impl Identified for Point {
    open spec fn key(self) -> Seq<char> {
        self.id@
    }

    fn identity(&self) -> &String {
        &self.id
    }
}

} // verus!
