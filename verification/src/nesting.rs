//! How the loops of an arrangement lie in one another.

use crate::arrangement;
use crate::arrangement::{ArrangementView, RegionView};
use crate::kernel::Arithmetic;
use crate::ring::RingView;
use vstd::prelude::*;

verus! {

/// Whether no ring has a NaN for an area.
pub open spec fn measured(rings: Seq<RingView>) -> bool {
    forall|i: int| 0 <= i < rings.len() ==> !(#[trigger] rings[i]).area.nan()
}

proof fn tightest_is_least(m: Arithmetic, rings: Seq<RingView>, inner: int, n: int, other: int)
    requires
        measured(rings),
        0 <= inner < rings.len(),
        0 <= other < n <= rings.len(),
        arrangement::surrounds(m, rings, other, inner),
    ensures
        arrangement::tightest(m, rings, inner, n) matches Some(p) && {
            &&& rings[p].area.at_most(rings[other].area)
            &&& rings[other].area.at_most(rings[p].area) ==> p <= other
        },
    decreases n,
{
    arrangement::tightest_in_range(m, rings, inner, n - 1);
    if other < n - 1 {
        tightest_is_least(m, rings, inner, n - 1, other);
    }
}

/// A loop's parent is the tightest loop around it: it is larger and holds the
/// loop's interior point, no other such loop is smaller, and of equals it is the
/// first. A loop without a parent has none around it.
pub proof fn parent_is_tightest(m: Arithmetic, rings: Seq<RingView>, inner: int)
    requires
        measured(rings),
        0 <= inner < rings.len(),
    ensures
        match arrangement::parent(m, rings, inner) {
            Some(p) => {
                &&& 0 <= p < rings.len()
                &&& arrangement::surrounds(m, rings, p, inner)
                &&& rings[inner].area.below(rings[p].area)
                &&& forall|other: int|
                    0 <= other < rings.len() && #[trigger] arrangement::surrounds(m, rings, other, inner)
                        ==> rings[p].area.at_most(rings[other].area) && (rings[other].area.at_most(
                        rings[p].area,
                    ) ==> p <= other)
            },
            None => forall|other: int|
                0 <= other < rings.len() ==> !#[trigger] arrangement::surrounds(m, rings, other, inner),
        },
{
    arrangement::tightest_in_range(m, rings, inner, rings.len() as int);
    assert forall|other: int|
        0 <= other < rings.len() && #[trigger] arrangement::surrounds(
            m,
            rings,
            other,
            inner,
        ) implies (arrangement::parent(m, rings, inner) matches Some(p) && rings[p].area.at_most(rings[other].area) && (rings[other].area.at_most(
        rings[p].area,
    ) ==> p <= other)) by {
        tightest_is_least(m, rings, inner, rings.len() as int, other);
    }
}

/// Whether a path climbs from ring to parent.
pub open spec fn climbs(m: Arithmetic, rings: Seq<RingView>, path: Seq<int>) -> bool {
    &&& path.len() > 0
    &&& forall|i: int| 0 <= i < path.len() ==> 0 <= #[trigger] path[i] < rings.len()
    &&& forall|i: int|
        0 <= i < path.len() - 1 ==> arrangement::parent(m, rings, #[trigger] path[i]) == Some(path[i + 1])
}

/// Whether a ring is another or lies in it, directly or through rings between.
pub open spec fn nested_in(m: Arithmetic, rings: Seq<RingView>, inner: int, outer: int) -> bool {
    exists|path: Seq<int>|
        #[trigger] climbs(m, rings, path) && path[0] == inner && path.last() == outer
}

proof fn climbing_grows(m: Arithmetic, rings: Seq<RingView>, path: Seq<int>)
    requires
        measured(rings),
        climbs(m, rings, path),
    ensures
        rings[path[0]].area.at_most(rings[path.last()].area),
        path.len() > 1 ==> rings[path[0]].area.below(rings[path.last()].area),
    decreases path.len(),
{
    if path.len() > 1 {
        let rest = path.drop_first();
        assert(climbs(m, rings, rest)) by {
            assert forall|i: int| 0 <= i < rest.len() implies 0 <= #[trigger] rest[i]
                < rings.len() by {
                assert(rest[i] == path[i + 1]);
            }
            assert forall|i: int| 0 <= i < rest.len() - 1 implies arrangement::parent(
                m,
                rings,
                #[trigger] rest[i],
            ) == Some(rest[i + 1]) by {
                assert(rest[i] == path[i + 1]);
            }
        }
        climbing_grows(m, rings, rest);
        assert(arrangement::parent(m, rings, path[0]) == Some(path[1]));
        parent_is_tightest(m, rings, path[0]);
        assert(rest.last() == path.last());
    }
}

/// No loop lies inside itself: loops that lie in one another are one loop.
pub proof fn nesting_is_acyclic(m: Arithmetic, rings: Seq<RingView>, a: int, b: int)
    requires
        measured(rings),
        nested_in(m, rings, a, b),
        nested_in(m, rings, b, a),
    ensures
        a == b,
{
    let up = choose|path: Seq<int>|
        #[trigger] climbs(m, rings, path) && path[0] == a && path.last() == b;
    let down = choose|path: Seq<int>|
        #[trigger] climbs(m, rings, path) && path[0] == b && path.last() == a;
    climbing_grows(m, rings, up);
    climbing_grows(m, rings, down);
}

proof fn nested_below(m: Arithmetic, rings: Seq<RingView>, inner: int, middle: int, outer: int)
    requires
        nested_in(m, rings, middle, outer),
        0 <= inner < rings.len(),
        arrangement::parent(m, rings, inner) == Some(middle),
    ensures
        nested_in(m, rings, inner, outer),
{
    let path = choose|path: Seq<int>|
        #[trigger] climbs(m, rings, path) && path[0] == middle && path.last() == outer;
    let longer = seq![inner] + path;
    assert forall|i: int| 0 <= i < longer.len() implies 0 <= #[trigger] longer[i] < rings.len() by {
        if i > 0 {
            assert(longer[i] == path[i - 1]);
        }
    }
    assert forall|i: int| 0 <= i < longer.len() - 1 implies arrangement::parent(
        m,
        rings,
        #[trigger] longer[i],
    ) == Some(longer[i + 1]) by {
        assert(longer[i + 1] == path[i]);
        if i > 0 {
            assert(longer[i] == path[i - 1]);
        }
    }
    assert(climbs(m, rings, longer));
    assert(longer.last() == outer);
}

/// Whether a loop does not lie inside itself.
pub open spec fn rooted(m: Arithmetic, rings: Seq<RingView>, outer: int) -> bool {
    arrangement::parent(m, rings, outer) matches Some(p) ==> !nested_in(m, rings, p, outer)
}

/// No loop lies inside itself where every area is a number.
pub proof fn measured_loops_are_rooted(m: Arithmetic, rings: Seq<RingView>, outer: int)
    requires
        measured(rings),
        0 <= outer < rings.len(),
    ensures
        rooted(m, rings, outer),
{
    if let Some(p) = arrangement::parent(m, rings, outer) {
        parent_is_tightest(m, rings, outer);
        if nested_in(m, rings, p, outer) {
            let path = choose|path: Seq<int>|
                #[trigger] climbs(m, rings, path) && path[0] == p && path.last() == outer;
            climbing_grows(m, rings, path);
        }
    }
}

/// The outer loops of some regions.
pub open spec fn outers(regions: Seq<RegionView>) -> Seq<usize> {
    regions.map_values(|region: RegionView| region.outer)
}

/// What the walk keeps: nothing waits or was seen twice, all of it is nested in
/// the start, and what lies directly in something seen was seen or waits.
spec fn walk_inv(
    m: Arithmetic,
    rings: Seq<RingView>,
    outer: int,
    seen: Seq<usize>,
    frontier: Seq<usize>,
) -> bool {
    let all = seen + frontier;
    &&& all.no_duplicates()
    &&& seen.contains(outer as usize)
    &&& forall|k: int| 0 <= k < all.len() ==> {
        &&& (#[trigger] all[k]) < rings.len()
        &&& nested_in(m, rings, all[k] as int, outer)
        &&& all[k] == outer || (arrangement::parent(m, rings, all[k] as int) matches Some(p) && seen.contains(
            p as usize,
        ))
    }
    &&& forall|k: int|
        0 <= k < rings.len() && (#[trigger] arrangement::parent(m, rings, k) matches Some(p) && seen.contains(
            p as usize,
        )) ==> all.contains(k as usize)
}

proof fn distinct_fit(s: Seq<usize>, n: int)
    requires
        s.no_duplicates(),
        0 <= n,
        forall|i: int| 0 <= i < s.len() ==> (#[trigger] s[i]) < n,
    ensures
        s.len() <= n,
{
    let ints = s.map_values(|x: usize| x as int);
    assert(ints.no_duplicates()) by {
        assert forall|i: int, j: int|
            0 <= i < ints.len() && 0 <= j < ints.len() && i != j implies ints[i] != ints[j] by {
            assert(s[i] != s[j]);
        }
    }
    ints.unique_seq_to_set();
    let range = vstd::set_lib::set_int_range(0, n);
    vstd::set_lib::lemma_int_range(0, n);
    assert(ints.to_set().subset_of(range)) by {
        assert forall|x: int| ints.to_set().contains(x) implies range.contains(x) by {
            let i = choose|i: int| 0 <= i < ints.len() && ints[i] == x;
            assert(s[i] < n);
        }
    }
    vstd::set_lib::lemma_len_subset(ints.to_set(), range);
}

proof fn holes_are_children(m: Arithmetic, rings: Seq<RingView>, outer: int, n: int)
    requires
        0 <= n <= rings.len() <= usize::MAX,
    ensures
        arrangement::holes_of(m, rings, outer, n).no_duplicates(),
        forall|k: int|
            0 <= k < n && #[trigger] arrangement::parent(m, rings, k) == Some(outer)
                ==> arrangement::holes_of(m, rings, outer, n).contains(k as usize),
    decreases n,
{
    if n > 0 {
        holes_are_children(m, rings, outer, n - 1);
        arrangement::holes_in_range(m, rings, outer, n - 1);
        let rest = arrangement::holes_of(m, rings, outer, n - 1);
        let all = arrangement::holes_of(m, rings, outer, n);
        if arrangement::parent(m, rings, n - 1) == Some(outer) {
            assert(all[rest.len() as int] == (n - 1) as usize);
            assert forall|k: int|
                0 <= k < n && #[trigger] arrangement::parent(m, rings, k) == Some(outer) implies all.contains(
                k as usize,
            ) by {
                if k < n - 1 {
                    let i = choose|i: int| 0 <= i < rest.len() && rest[i] == k as usize;
                    assert(all[i] == k as usize);
                }
            }
        }
    }
}

proof fn walk_closed(
    m: Arithmetic,
    rings: Seq<RingView>,
    outer: int,
    seen: Seq<usize>,
    path: Seq<int>,
)
    requires
        rings.len() <= usize::MAX,
        0 <= outer < rings.len(),
        walk_inv(m, rings, outer, seen, Seq::empty()),
        climbs(m, rings, path),
        path.last() == outer,
    ensures
        seen.contains(path[0] as usize),
    decreases path.len(),
{
    assert(seen + Seq::<usize>::empty() =~= seen);
    if path.len() > 1 {
        let rest = path.drop_first();
        assert(climbs(m, rings, rest)) by {
            assert forall|i: int| 0 <= i < rest.len() implies 0 <= #[trigger] rest[i]
                < rings.len() by {
                assert(rest[i] == path[i + 1]);
            }
            assert forall|i: int| 0 <= i < rest.len() - 1 implies arrangement::parent(
                m,
                rings,
                #[trigger] rest[i],
            ) == Some(rest[i + 1]) by {
                assert(rest[i] == path[i + 1]);
            }
        }
        walk_closed(m, rings, outer, seen, rest);
        assert(arrangement::parent(m, rings, path[0]) == Some(path[1]));
    }
}

/// Moving the last waiting item to the seen ones and letting new items wait
/// neither loses nor repeats any.
proof fn step_rearranges(seen: Seq<usize>, frontier: Seq<usize>, holes: Seq<usize>)
    requires
        frontier.len() > 0,
        (seen + frontier).no_duplicates(),
        holes.no_duplicates(),
        forall|j: int| 0 <= j < holes.len() ==> !(seen + frontier).contains(#[trigger] holes[j]),
    ensures
        (seen.push(frontier.last()) + (frontier.drop_last() + holes)).no_duplicates(),
        forall|x: usize| #[trigger]
            (seen.push(frontier.last()) + (frontier.drop_last() + holes)).contains(x) <==> (seen
                + frontier).contains(x) || holes.contains(x),
{
    let all = seen + frontier;
    let all2 = seen.push(frontier.last()) + (frontier.drop_last() + holes);
    assert forall|x: usize| #[trigger] all2.contains(x) <==> all.contains(x) || holes.contains(x) by {
        if all.contains(x) {
            let k = choose|k: int| 0 <= k < all.len() && all[k] == x;
            if k < seen.len() {
                assert(all2[k] == x);
            } else if k == all.len() - 1 {
                assert(all2[seen.len() as int] == x);
            } else {
                assert(all2[k + 1] == x);
            }
        }
        if holes.contains(x) {
            let j = choose|j: int| 0 <= j < holes.len() && holes[j] == x;
            assert(all2[all.len() + j] == x);
        }
        if all2.contains(x) {
            let k = choose|k: int| 0 <= k < all2.len() && all2[k] == x;
            if k < seen.len() {
                assert(all[k] == x);
            } else if k == seen.len() {
                assert(all[all.len() - 1] == x);
            } else if k < all.len() {
                assert(all[k - 1] == x);
            } else {
                assert(holes[k - all.len()] == x);
            }
        }
    }
    assert forall|a: int, b: int| 0 <= a < b < all2.len() implies all2[a] != all2[b] by {
        let pa = if a < seen.len() {
            a
        } else if a == seen.len() {
            all.len() - 1
        } else {
            a - 1
        };
        let pb = if b < seen.len() {
            b
        } else if b == seen.len() {
            all.len() - 1
        } else {
            b - 1
        };
        if b < all.len() {
            assert(all2[a] == all[pa]);
            assert(all2[b] == all[pb]);
        } else {
            assert(all2[b] == holes[b - all.len()]);
            if a < all.len() {
                assert(all2[a] == all[pa]);
                assert(all.contains(all[pa]));
            } else {
                assert(all2[a] == holes[a - all.len()]);
            }
        }
    }
}

/// What lies directly in a waiting ring was neither seen nor does it wait.
proof fn children_are_fresh(
    m: Arithmetic,
    rings: Seq<RingView>,
    outer: int,
    seen: Seq<usize>,
    frontier: Seq<usize>,
    child: usize,
)
    requires
        rooted(m, rings, outer),
        rings.len() <= usize::MAX,
        0 <= outer < rings.len(),
        walk_inv(m, rings, outer, seen, frontier),
        frontier.len() > 0,
        child < rings.len(),
        arrangement::parent(m, rings, child as int) == Some(frontier.last() as int),
    ensures
        !(seen + frontier).contains(child),
{
    let all = seen + frontier;
    let i = frontier.last();
    assert(all[all.len() - 1] == i);
    if all.contains(child) {
        let k = choose|k: int| 0 <= k < all.len() && all[k] == child;
        assert(all[k] == child);
        if child != outer {
            let a = choose|a: int| 0 <= a < seen.len() && seen[a] == i;
            assert(all[a] == i);
        }
    }
}

proof fn walk_step(
    m: Arithmetic,
    rings: Seq<RingView>,
    outer: int,
    seen: Seq<usize>,
    frontier: Seq<usize>,
)
    requires
        rooted(m, rings, outer),
        rings.len() <= usize::MAX,
        0 <= outer < rings.len(),
        walk_inv(m, rings, outer, seen, frontier),
        frontier.len() > 0,
    ensures
        frontier.last() < rings.len(),
        walk_inv(
            m,
            rings,
            outer,
            seen.push(frontier.last()),
            frontier.drop_last() + arrangement::holes_of(
                m,
                rings,
                frontier.last() as int,
                rings.len() as int,
            ),
        ),
{
    let all = seen + frontier;
    let i = frontier.last();
    assert(all[all.len() - 1] == i);
    let holes = arrangement::holes_of(m, rings, i as int, rings.len() as int);
    let seen2 = seen.push(i);
    let all2 = seen2 + (frontier.drop_last() + holes);
    holes_are_children(m, rings, i as int, rings.len() as int);
    arrangement::holes_in_range(m, rings, i as int, rings.len() as int);
    assert forall|j: int| 0 <= j < holes.len() implies !all.contains(#[trigger] holes[j]) by {
        children_are_fresh(m, rings, outer, seen, frontier, holes[j]);
    }
    step_rearranges(seen, frontier, holes);
    assert(seen2[seen.len() as int] == i);
    assert forall|x: usize| seen.contains(x) implies #[trigger] seen2.contains(x) by {
        let a = choose|a: int| 0 <= a < seen.len() && seen[a] == x;
        assert(seen2[a] == x);
    }
    assert forall|k: int| 0 <= k < all2.len() implies {
        &&& (#[trigger] all2[k]) < rings.len()
        &&& nested_in(m, rings, all2[k] as int, outer)
        &&& all2[k] == outer || (arrangement::parent(m, rings, all2[k] as int) matches Some(p)
            && seen2.contains(p as usize))
    } by {
        let x = all2[k];
        assert(all2.contains(x));
        if all.contains(x) {
            let q = choose|q: int| 0 <= q < all.len() && all[q] == x;
            assert(all[q] == x);
        } else {
            let j = choose|j: int| 0 <= j < holes.len() && holes[j] == x;
            assert(holes[j] == x);
            assert(seen2.contains(i));
            nested_below(m, rings, x as int, i as int, outer);
        }
    }
    assert forall|k: int|
        0 <= k < rings.len() && (#[trigger] arrangement::parent(m, rings, k) matches Some(p)
            && seen2.contains(p as usize)) implies all2.contains(k as usize) by {
        arrangement::tightest_in_range(m, rings, k, rings.len() as int);
        let p = arrangement::parent(m, rings, k)->0;
        if seen.contains(p as usize) {
            assert(all.contains(k as usize));
        } else {
            let a = choose|a: int| 0 <= a < seen2.len() && seen2[a] == p as usize;
            if a < seen.len() {
                assert(seen[a] == p as usize);
            }
            assert(holes.contains(k as usize));
        }
    }
}

proof fn walk_visits(
    m: Arithmetic,
    rings: Seq<RingView>,
    outer: int,
    seen: Seq<usize>,
    frontier: Seq<usize>,
    fuel: nat,
)
    requires
        rooted(m, rings, outer),
        rings.len() <= usize::MAX,
        0 <= outer < rings.len(),
        walk_inv(m, rings, outer, seen, frontier),
        seen.len() + fuel >= rings.len(),
    ensures
        walk_inv(
            m,
            rings,
            outer,
            seen + outers(arrangement::descend(arrangement::regions_of(m, rings), frontier, fuel)),
            Seq::empty(),
        ),
    decreases fuel,
{
    let regions = arrangement::regions_of(m, rings);
    if frontier.len() == 0 {
        assert(frontier =~= Seq::empty());
        assert(seen + outers(Seq::<RegionView>::empty()) =~= seen);
    } else {
        distinct_fit(seen + frontier, rings.len() as int);
        walk_step(m, rings, outer, seen, frontier);
        let i = frontier.last();
        let region = regions[i as int];
        let next = frontier.drop_last() + region.holes;
        walk_visits(m, rings, outer, seen.push(i), next, (fuel - 1) as nat);
        let rest = arrangement::descend(regions, next, (fuel - 1) as nat);
        assert(outers(seq![region] + rest) =~= seq![i] + outers(rest));
        assert(seen + (seq![i] + outers(rest)) =~= seen.push(i) + outers(rest));
    }
}

/// The regions within a loop are those of the loop itself and of every loop
/// nested in it, each of them once. This asks that the loop does not lie inside
/// itself, as no loop does whose area is a number; see [`measured_loops_are_rooted`].
pub proof fn every_nested_loop_once(m: Arithmetic, arrangement: ArrangementView, outer: int)
    requires
        arrangement.regions == arrangement::regions_of(m, arrangement.rings),
        rooted(m, arrangement.rings, outer),
        0 <= outer < arrangement.rings.len() <= usize::MAX,
    ensures
        ({
            let found = outers(arrangement.within(outer));
            &&& found.no_duplicates()
            &&& forall|k: usize| #[trigger]
                found.contains(k) <==> k < arrangement.rings.len() && nested_in(
                    m,
                    arrangement.rings,
                    k as int,
                    outer,
                )
        }),
{
    let rings = arrangement.rings;
    let regions = arrangement::regions_of(m, rings);
    let seen = seq![outer as usize];
    let frontier = regions[outer].holes;
    holes_are_children(m, rings, outer, rings.len() as int);
    arrangement::holes_in_range(m, rings, outer, rings.len() as int);
    let own = seq![outer];
    assert(climbs(m, rings, own));
    assert(own.last() == outer);
    assert(nested_in(m, rings, outer, outer));
    let all = seen + frontier;
    assert(seen[0] == outer as usize);
    assert(seen.contains(outer as usize));
    assert forall|j: int| 0 <= j < frontier.len() implies #[trigger] frontier[j] != outer
        && nested_in(m, rings, frontier[j] as int, outer) by {
        assert(arrangement::parent(m, rings, frontier[j] as int) == Some(outer));
        arrangement::tightest_in_range(m, rings, frontier[j] as int, rings.len() as int);
        nested_below(m, rings, frontier[j] as int, outer, outer);
    }
    assert forall|k: int| 0 <= k < all.len() implies {
        &&& (#[trigger] all[k]) < rings.len()
        &&& nested_in(m, rings, all[k] as int, outer)
        &&& all[k] == outer || (arrangement::parent(m, rings, all[k] as int) matches Some(p) && seen.contains(
            p as usize,
        ))
    } by {
        if k > 0 {
            assert(all[k] == frontier[k - 1]);
        }
    }
    assert(all.no_duplicates()) by {
        assert forall|a: int, b: int| 0 <= a < b < all.len() implies all[a] != all[b] by {
            assert(all[b] == frontier[b - 1]);
            if a > 0 {
                assert(all[a] == frontier[a - 1]);
            }
        }
    }
    assert forall|k: int|
        0 <= k < rings.len() && (#[trigger] arrangement::parent(m, rings, k) matches Some(p) && seen.contains(
            p as usize,
        )) implies all.contains(k as usize) by {
        arrangement::tightest_in_range(m, rings, k, rings.len() as int);
        let p = arrangement::parent(m, rings, k)->0;
        assert(p == outer);
        let j = choose|j: int| 0 <= j < frontier.len() && frontier[j] == k as usize;
        assert(all[j + 1] == k as usize);
    }
    let fuel = (rings.len() - 1) as nat;
    walk_visits(m, rings, outer, seen, frontier, fuel);
    let rest = arrangement::descend(regions, frontier, fuel);
    let found = outers(seq![regions[outer]] + rest);
    assert(found =~= seen + outers(rest));
    assert(found + Seq::<usize>::empty() =~= found);
    assert forall|k: usize| #[trigger] found.contains(k) <==> k < rings.len() && nested_in(
        m,
        rings,
        k as int,
        outer,
    ) by {
        if found.contains(k) {
            let i = choose|i: int| 0 <= i < found.len() && found[i] == k;
            assert((found + Seq::<usize>::empty())[i] == k);
        }
        if k < rings.len() && nested_in(m, rings, k as int, outer) {
            let path = choose|path: Seq<int>|
                #[trigger] climbs(m, rings, path) && path[0] == k as int && path.last() == outer;
            walk_closed(m, rings, outer, found, path);
        }
    }
}

} // verus!
