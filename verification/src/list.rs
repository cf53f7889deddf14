//! Copying and stable ordering of lists.

use vstd::prelude::*;

verus! {

/// A list with the same items.
pub fn copied<T: Copy>(items: &Vec<T>) -> (r: Vec<T>)
    ensures
        r@ == items@,
{
    let mut out: Vec<T> = Vec::new();
    let mut i: usize = 0;
    while i < items.len()
        invariant
            i <= items@.len(),
            out@ =~= items@.take(i as int),
        decreases items@.len() - i,
    {
        out.push(items[i]);
        i += 1;
    }
    out
}

/// Values with a strict order that need not tell all of them apart.
pub trait Ranked: Sized {
    /// Whether `self` comes strictly before `other`.
    spec fn before(self, other: Self) -> bool;

    fn precedes(&self, other: &Self) -> (r: bool)
        ensures
            r == self.before(*other),
    ;
}

/// How far from the front `item` goes in: behind everything up to the last one
/// it does not come before.
pub open spec fn slot<T: Ranked>(sorted: Seq<T>, item: T, n: int) -> int
    decreases n,
{
    if n > 0 && item.before(sorted[n - 1]) {
        slot(sorted, item, n - 1)
    } else {
        n
    }
}

/// The first `n` items in stable order.
pub open spec fn stable_order<T: Ranked>(items: Seq<T>, n: int) -> Seq<T>
    decreases n,
{
    if n <= 0 {
        Seq::empty()
    } else {
        let rest = stable_order(items, n - 1);
        rest.insert(slot(rest, items[n - 1], rest.len() as int), items[n - 1])
    }
}

/// A slot lies within the sequence.
pub proof fn slot_in_range<T: Ranked>(sorted: Seq<T>, item: T, n: int)
    requires
        0 <= n,
    ensures
        0 <= slot(sorted, item, n) <= n,
    decreases n,
{
    if n > 0 && item.before(sorted[n - 1]) {
        slot_in_range(sorted, item, n - 1);
    }
}

/// Ordering keeps the number of items.
pub proof fn stable_order_len<T: Ranked>(items: Seq<T>, n: int)
    requires
        0 <= n,
    ensures
        stable_order(items, n).len() == n,
    decreases n,
{
    if n > 0 {
        stable_order_len(items, n - 1);
        let rest = stable_order(items, n - 1);
        slot_in_range(rest, items[n - 1], rest.len() as int);
    }
}

/// Puts items in order, items that neither comes before the other staying as
/// they were.
pub fn sort_stable<'a, T: Ranked>(items: &'a Vec<T>) -> (r: Vec<&'a T>)
    ensures
        r@.unref() == stable_order(items@, items@.len() as int),
        r@.len() == items@.len(),
{
    let mut sorted: Vec<&'a T> = Vec::new();
    let mut i: usize = 0;
    assert(sorted@.unref() =~= Seq::empty());
    while i < items.len()
        invariant
            i <= items@.len(),
            sorted@.len() == i,
            sorted@.unref() == stable_order(items@, i as int),
        decreases items@.len() - i,
    {
        let item: &'a T = &items[i];
        let ghost before = sorted@.unref();
        let mut k: usize = sorted.len();
        while k > 0 && item.precedes(sorted[k - 1])
            invariant
                k <= sorted@.len(),
                before == sorted@.unref(),
                slot(before, *item, before.len() as int) == slot(before, *item, k as int),
            decreases k,
        {
            k -= 1;
        }
        sorted.insert(k, item);
        assert(sorted@.unref() =~= before.insert(k as int, *item));
        i += 1;
    }
    sorted
}

/// Whether a strict order is one of groups in a row: it never runs backwards,
/// not even through items it does not tell apart.
pub open spec fn orderly<T: Ranked>() -> bool {
    &&& forall|a: T, b: T| #[trigger] a.before(b) ==> !b.before(a)
    &&& forall|a: T, b: T, c: T|
        !(#[trigger] b.before(a)) && !(#[trigger] c.before(b)) ==> !c.before(a)
}

/// Whether no item of a sequence comes before one that stands earlier.
pub open spec fn in_order<T: Ranked>(items: Seq<T>) -> bool {
    forall|i: int, j: int|
        0 <= i < j < items.len() ==> !(#[trigger] items[j].before(#[trigger] items[i]))
}

/// In an ordered list, the slot of an item has behind it all that the item comes
/// before, and nothing else.
pub proof fn slot_divides<T: Ranked>(sorted: Seq<T>, item: T, n: int)
    requires
        orderly::<T>(),
        in_order(sorted),
        0 <= n <= sorted.len(),
        forall|i: int| n <= i < sorted.len() ==> item.before(#[trigger] sorted[i]),
    ensures
        forall|i: int|
            0 <= i < slot(sorted, item, n) ==> !item.before(#[trigger] sorted[i]),
        forall|i: int|
            slot(sorted, item, n) <= i < sorted.len() ==> item.before(#[trigger] sorted[i]),
    decreases n,
{
    if n > 0 && item.before(sorted[n - 1]) {
        slot_divides(sorted, item, n - 1);
    } else if n > 0 {
        assert forall|i: int| 0 <= i < n implies !item.before(#[trigger] sorted[i]) by {
            if i < n - 1 {
                assert(!sorted[n - 1].before(sorted[i]));
            }
        }
    }
}

/// Stable order is an order, and neither loses nor adds an item.
pub proof fn stable_order_is_ordered<T: Ranked>(items: Seq<T>, n: int)
    requires
        orderly::<T>(),
        0 <= n <= items.len(),
    ensures
        in_order(stable_order(items, n)),
        stable_order(items, n).to_multiset() =~= items.take(n).to_multiset(),
    decreases n,
{
    broadcast use vstd::seq_lib::group_to_multiset_ensures;

    if n > 0 {
        stable_order_is_ordered(items, n - 1);
        stable_order_len(items, n - 1);
        let rest = stable_order(items, n - 1);
        let item = items[n - 1];
        let k = slot(rest, item, rest.len() as int);
        slot_in_range(rest, item, rest.len() as int);
        slot_divides(rest, item, rest.len() as int);
        let all = rest.insert(k, item);
        assert forall|i: int, j: int| 0 <= i < j < all.len() implies !(#[trigger] all[j].before(
            #[trigger] all[i],
        )) by {
            if j < k {
                assert(all[j] == rest[j] && all[i] == rest[i]);
            } else if j == k {
                assert(all[i] == rest[i]);
            } else if i == k {
                assert(all[j] == rest[j - 1]);
                assert(item.before(rest[j - 1]));
            } else {
                assert(all[j] == rest[j - 1]);
                if i < k {
                    assert(all[i] == rest[i]);
                } else {
                    assert(all[i] == rest[i - 1]);
                }
            }
        }
        assert(all.remove(k) =~= rest);
        vstd::seq_lib::to_multiset_remove(all, k);
        assert(all[k] == item);
        assert(all.contains(item));
        assert(all.to_multiset() =~= rest.to_multiset().insert(item));
        assert(items.take(n) =~= items.take(n - 1).push(item));
    } else {
        assert(stable_order(items, n) =~= items.take(n));
    }
}

} // verus!
