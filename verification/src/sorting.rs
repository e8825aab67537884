//! Stable sorting by integer keys.
use vstd::prelude::*;

verus! {

/// Holds where position `a` comes before position `b`: its key is smaller, or the keys are equal
/// and it comes first.
pub open spec fn precedes(keys: Seq<int>, a: int, b: int) -> bool {
    keys[a] < keys[b] || (keys[a] == keys[b] && a < b)
}

/// Holds where `order` lists every position once, by increasing keys, equal keys in the order of
/// their positions.
pub open spec fn is_stable_order(keys: Seq<int>, order: Seq<usize>) -> bool {
    &&& order.len() == keys.len()
    &&& forall|i: int| 0 <= i < order.len() ==> (#[trigger] order[i]) < keys.len()
    &&& forall|i: int, j: int|
        0 <= i < j < order.len() ==> precedes(
            keys,
            #[trigger] order[i] as int,
            #[trigger] order[j] as int,
        )
    &&& forall|k: int| 0 <= k < keys.len() ==> #[trigger] lists_position(order, k)
}

/// Holds where a list of positions has a position.
pub open spec fn lists_position(order: Seq<usize>, k: int) -> bool {
    exists|i: int| 0 <= i < order.len() && (#[trigger] order[i]) == k
}

/// The items by increasing keys, those with equal keys in the order in which they stand.
pub open spec fn sorted_by<T>(items: Seq<T>, keys: Seq<int>) -> Seq<T> {
    let order = choose|order: Seq<usize>| is_stable_order(keys, order);
    order.map_values(|i: usize| items[i as int])
}

/// There is one stable order.
pub proof fn lemma_stable_order_unique(keys: Seq<int>, a: Seq<usize>, b: Seq<usize>)
    requires
        is_stable_order(keys, a),
        is_stable_order(keys, b),
    ensures
        a == b,
{
    lemma_same_prefix(keys, a, b, keys.len() as int);
    assert(a =~= b);
}

proof fn lemma_same_prefix(keys: Seq<int>, a: Seq<usize>, b: Seq<usize>, n: int)
    requires
        is_stable_order(keys, a),
        is_stable_order(keys, b),
        0 <= n <= keys.len(),
    ensures
        forall|i: int| 0 <= i < n ==> a[i] == b[i],
    decreases n,
{
    if n > 0 {
        lemma_same_prefix(keys, a, b, n - 1);
        lemma_not_after(keys, a, b, n - 1);
        lemma_not_after(keys, b, a, n - 1);
        if a[n - 1] != b[n - 1] {
            assert(precedes(keys, a[n - 1] as int, b[n - 1] as int) || precedes(
                keys,
                b[n - 1] as int,
                a[n - 1] as int,
            ));
        }
    }
}

proof fn lemma_not_after(keys: Seq<int>, a: Seq<usize>, b: Seq<usize>, k: int)
    requires
        is_stable_order(keys, a),
        is_stable_order(keys, b),
        0 <= k < keys.len(),
        forall|i: int| 0 <= i < k ==> a[i] == b[i],
    ensures
        !precedes(keys, a[k] as int, b[k] as int),
{
    if precedes(keys, a[k] as int, b[k] as int) {
        assert(lists_position(b, a[k] as int));
        let m = choose|m: int| 0 <= m < b.len() && (#[trigger] b[m]) == a[k] as int;
        if m < k {
            assert(precedes(keys, a[m] as int, a[k] as int));
        } else if m > k {
            assert(precedes(keys, b[k] as int, b[m] as int));
        }
    }
}

/// Keys as mathematical integers.
pub open spec fn key_values(keys: Seq<i128>) -> Seq<int> {
    keys.map_values(|k: i128| k as int)
}

/// The positions by increasing keys, equal keys in the order of their positions.
pub fn stable_order(keys: &Vec<i128>) -> (r: Vec<usize>)
    ensures
        is_stable_order(key_values(keys@), r@),
{
    let ghost all = key_values(keys@);
    let mut order: Vec<usize> = Vec::new();
    let mut k: usize = 0;
    while k < keys.len()
        invariant
            k <= keys@.len(),
            all == key_values(keys@),
            is_stable_order(all.take(k as int), order@),
        decreases keys.len() - k,
    {
        let mut at: usize = order.len();
        while at > 0 && keys[order[at - 1]] > keys[k]
            invariant
                at <= order@.len() == k,
                k < keys@.len(),
                all == key_values(keys@),
                is_stable_order(all.take(k as int), order@),
                forall|j: int| at <= j < k ==> all[(#[trigger] order@[j]) as int] > all[k as int],
            decreases at,
        {
            assert(all[order@[at - 1] as int] == keys@[order@[at - 1] as int]);
            at -= 1;
        }
        let ghost before = order@;
        proof {
            if at > 0 {
                assert(before[at - 1] < k);
            }
        }
        order.insert(at, k);
        proof {
            lemma_insert(all, before, at as int, k);
        }
        k += 1;
    }
    assert(all.take(all.len() as int) =~= all);
    order
}

proof fn lemma_insert(all: Seq<int>, before: Seq<usize>, at: int, k: usize)
    requires
        k < all.len(),
        is_stable_order(all.take(k as int), before),
        0 <= at <= k,
        forall|j: int| at <= j < k ==> all[(#[trigger] before[j]) as int] > all[k as int],
        at > 0 ==> all[before[at - 1] as int] <= all[k as int],
    ensures
        is_stable_order(all.take(k + 1), before.insert(at, k)),
{
    let small = all.take(k as int);
    let keys = all.take(k + 1);
    let order = before.insert(at, k);
    assert forall|i: int, j: int| 0 <= i < j < order.len() implies precedes(
        keys,
        #[trigger] order[i] as int,
        #[trigger] order[j] as int,
    ) by {
        let bi = if i < at { i } else { i - 1 };
        let bj = if j < at { j } else { j - 1 };
        if i != at && j != at {
            assert(order[i] == before[bi] && order[j] == before[bj]);
            assert(precedes(small, before[bi] as int, before[bj] as int));
        } else if i == at {
            assert(order[j] == before[bj]);
            assert(all[before[bj] as int] > all[k as int]);
        } else {
            assert(order[i] == before[i]);
            if i < at - 1 {
                assert(precedes(small, before[i] as int, before[at - 1] as int));
            }
        }
    }
    assert forall|p: int| 0 <= p < keys.len() implies #[trigger] lists_position(order, p) by {
        if p == k {
            assert(order[at] == p);
        } else {
            assert(lists_position(before, p));
            let i = choose|i: int| 0 <= i < before.len() && (#[trigger] before[i]) == p;
            let oi = if i < at { i } else { i + 1 };
            assert(order[oi] == p);
        }
    }
}

/// There is a stable order.
pub proof fn lemma_order_exists(keys: Seq<int>)
    requires
        keys.len() <= usize::MAX,
    ensures
        exists|order: Seq<usize>| is_stable_order(keys, order),
    decreases keys.len(),
{
    if keys.len() == 0 {
        assert(is_stable_order(keys, Seq::empty()));
    } else {
        let k = keys.len() - 1;
        let init = keys.take(k);
        lemma_order_exists(init);
        let before = choose|order: Seq<usize>| is_stable_order(init, order);
        let at = lemma_place(keys, before, k, k);
        lemma_insert(keys, before, at, k as usize);
        assert(keys.take(k + 1) =~= keys);
    }
}

/// Where the key at `k` belongs among the first `n` of a stable order.
proof fn lemma_place(keys: Seq<int>, before: Seq<usize>, k: int, n: int) -> (at: int)
    requires
        0 <= k < keys.len(),
        is_stable_order(keys.take(k), before),
        0 <= n <= k,
        forall|j: int| n <= j < k ==> keys[(#[trigger] before[j]) as int] > keys[k],
    ensures
        0 <= at <= k,
        forall|j: int| at <= j < k ==> keys[(#[trigger] before[j]) as int] > keys[k],
        at > 0 ==> keys[before[at - 1] as int] <= keys[k],
    decreases n,
{
    if n > 0 && keys[before[n - 1] as int] > keys[k] {
        lemma_place(keys, before, k, n - 1)
    } else {
        n
    }
}

/// Sorting keeps the items and orders their keys: the sorted list has the same length, each of
/// its items stood somewhere before, each item is somewhere in it, and keys never decrease.
pub proof fn law_sorting_keeps_items<T>(items: Seq<T>, keys: Seq<int>, order: Seq<usize>, k: int)
    requires
        items.len() == keys.len(),
        is_stable_order(keys, order),
        0 <= k < items.len(),
    ensures
        sorted_by(items, keys).len() == items.len(),
        items.contains(sorted_by(items, keys)[k]),
        sorted_by(items, keys).contains(items[k]),
        k > 0 ==> keys[order[k - 1] as int] <= keys[order[k] as int],
        sorted_by(items, keys)[k] == items[order[k] as int],
{
    let chosen = choose|o: Seq<usize>| is_stable_order(keys, o);
    lemma_stable_order_unique(keys, order, chosen);
    let out = sorted_by(items, keys);
    assert(out[k] == items[order[k] as int]);
    assert(lists_position(order, k));
    let i = choose|i: int| 0 <= i < order.len() && (#[trigger] order[i]) == k;
    assert(out[i] == items[k]);
    if k > 0 {
        assert(precedes(keys, order[k - 1] as int, order[k] as int));
    }
}

/// Sorting lists every item once, by keys that never fall, and those with equal keys in the order
/// in which they stood.
pub proof fn law_sorted_items_are_ordered<T>(items: Seq<T>, keys: Seq<int>) -> (order: Seq<int>)
    requires
        items.len() == keys.len(),
        keys.len() <= usize::MAX,
    ensures
        order.len() == items.len(),
        sorted_by(items, keys).len() == items.len(),
        forall|i: int|
            #![trigger order[i]]
            #![trigger sorted_by(items, keys)[i]]
            0 <= i < order.len() ==> 0 <= order[i] < items.len() && sorted_by(items, keys)[i]
                == items[order[i]],
        forall|k: int| 0 <= k < items.len() ==> order.contains(k),
        forall|i: int, j: int|
            0 <= i < j < order.len() ==> keys[#[trigger] order[i]] < keys[#[trigger] order[j]] || (
            keys[order[i]] == keys[order[j]] && order[i] < order[j]),
{
    lemma_order_exists(keys);
    let chosen = choose|o: Seq<usize>| is_stable_order(keys, o);
    let order = chosen.map_values(|k: usize| k as int);
    assert forall|i: int, j: int| 0 <= i < j < order.len() implies keys[#[trigger] order[i]]
        < keys[#[trigger] order[j]] || (keys[order[i]] == keys[order[j]] && order[i] < order[j]) by {
        assert(precedes(keys, chosen[i] as int, chosen[j] as int));
    }
    assert forall|k: int| 0 <= k < items.len() implies order.contains(k) by {
        assert(lists_position(chosen, k));
        let i = choose|i: int| 0 <= i < chosen.len() && (#[trigger] chosen[i]) == k;
        assert(order[i] == k);
    }
    order
}

} // verus!
