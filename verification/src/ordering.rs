//! Stable ordering of the entries of a list by a key.
//!
//! The order is a list of indices: smaller keys first, equal keys in the
//! order of the list itself.

use vstd::prelude::*;

verus! {

/// Whether entry `i` comes before entry `j`: by key, equal keys by index.
pub open spec fn precedes(keys: Seq<u64>, i: usize, j: usize) -> bool {
    keys[i as int] < keys[j as int] || (keys[i as int] == keys[j as int] && i < j)
}

/// Whether `order` lists the first `count` indices, each once, so that
/// each entry precedes all that follow it.
pub open spec fn orders_prefix(order: Seq<usize>, keys: Seq<u64>, count: int) -> bool {
    &&& order.len() == count
    &&& forall|k: int| 0 <= k < order.len() ==> (#[trigger] order[k]) < count
    &&& forall|a: int, b: int|
        0 <= a < b < order.len() ==> precedes(keys, #[trigger] order[a], #[trigger] order[b])
    &&& forall|i: usize| i < count ==> #[trigger] order.contains(i)
}

/// Whether `order` is the stable ordering of all indices of `keys`.
pub open spec fn is_stable_order(order: Seq<usize>, keys: Seq<u64>) -> bool {
    orders_prefix(order, keys, keys.len() as int)
}

/// The stable ordering of the indices of `keys`.
pub open spec fn stable_order(keys: Seq<u64>) -> Seq<usize> {
    choose|order: Seq<usize>| is_stable_order(order, keys)
}

proof fn lemma_orders_agree(first: Seq<usize>, second: Seq<usize>, keys: Seq<u64>, upto: int)
    requires
        is_stable_order(first, keys),
        is_stable_order(second, keys),
        0 <= upto <= keys.len(),
    ensures
        forall|k: int| 0 <= k < upto ==> first[k] == second[k],
    decreases upto,
{
    if upto > 0 {
        lemma_orders_agree(first, second, keys, upto - 1);
        let i = upto - 1;
        let x = first[i];
        let y = second[i];
        if x != y {
            assert(second.contains(x));
            let j = choose|j: int| 0 <= j < second.len() && second[j] == x;
            assert(first.contains(y));
            let h = choose|h: int| 0 <= h < first.len() && first[h] == y;
            if j < i {
                assert(first[j] == x);
                assert(precedes(keys, first[j], first[i]));
            } else if h < i {
                assert(second[h] == y);
                assert(precedes(keys, second[h], second[i]));
            } else {
                assert(precedes(keys, second[i], second[j]));
                assert(precedes(keys, first[i], first[h]));
            }
        }
    }
}

/// There is one stable ordering of a list of keys and no other.
pub proof fn lemma_stable_order_unique(first: Seq<usize>, second: Seq<usize>, keys: Seq<u64>)
    requires
        is_stable_order(first, keys),
        is_stable_order(second, keys),
    ensures
        first == second,
{
    lemma_orders_agree(first, second, keys, keys.len() as int);
    assert(first =~= second);
}

/// Inserting the next index behind the entries that do not rank after it
/// keeps the order.
proof fn lemma_insert_keeps_order(before: Seq<usize>, keys: Seq<u64>, i: usize, p: int)
    requires
        i < keys.len(),
        orders_prefix(before, keys, i as int),
        0 <= p <= before.len(),
        forall|q: int| p <= q < before.len() ==> keys[i as int] < keys[#[trigger] before[q] as int],
        p > 0 ==> keys[before[p - 1] as int] <= keys[i as int],
    ensures
        orders_prefix(before.insert(p, i), keys, i + 1),
{
    let after = before.insert(p, i);
    assert(after.len() == before.len() + 1);
    assert(after[p] == i);
    assert forall|k: int| 0 <= k < after.len() implies (#[trigger] after[k]) < i + 1 by {
        if k < p {
            assert(after[k] == before[k]);
        } else if k > p {
            assert(after[k] == before[k - 1]);
        }
    }
    assert forall|a: int, b: int| 0 <= a < b < after.len() implies precedes(
        keys,
        #[trigger] after[a],
        #[trigger] after[b],
    ) by {
        if b < p {
            assert(after[a] == before[a] && after[b] == before[b]);
        } else if b == p {
            assert(after[a] == before[a]);
            if a < p - 1 {
                assert(precedes(keys, before[a], before[p - 1]));
            }
        } else if a < p {
            assert(after[a] == before[a] && after[b] == before[b - 1]);
        } else if a == p {
            assert(after[b] == before[b - 1]);
        } else {
            assert(after[a] == before[a - 1] && after[b] == before[b - 1]);
        }
    }
    assert forall|x: usize| x < i + 1 implies #[trigger] after.contains(x) by {
        if x == i {
            assert(after[p] == x);
        } else {
            assert(before.contains(x));
            let k = choose|k: int| 0 <= k < before.len() && before[k] == x;
            if k < p {
                assert(after[k] == x);
            } else {
                assert(after[k + 1] == x);
            }
        }
    }
}

/// How many leading entries of `order` have a key of at most `key`, where
/// the keys along `order` do not fall.
spec fn insertion_point(order: Seq<usize>, keys: Seq<u64>, key: u64) -> int
    decreases order.len(),
{
    if order.len() == 0 {
        0
    } else if keys[order.last() as int] <= key {
        order.len() as int
    } else {
        insertion_point(order.drop_last(), keys, key)
    }
}

proof fn lemma_insertion_point(order: Seq<usize>, keys: Seq<u64>, key: u64)
    ensures
        ({
            let p = insertion_point(order, keys, key);
            &&& 0 <= p <= order.len()
            &&& forall|q: int| p <= q < order.len() ==> key < keys[#[trigger] order[q] as int]
            &&& p > 0 ==> keys[order[p - 1] as int] <= key
        }),
    decreases order.len(),
{
    if order.len() > 0 && keys[order.last() as int] > key {
        let shorter = order.drop_last();
        lemma_insertion_point(shorter, keys, key);
        let p = insertion_point(shorter, keys, key);
        assert forall|q: int| p <= q < order.len() implies key < keys[#[trigger] order[q] as int] by {
            if q < shorter.len() {
                assert(order[q] == shorter[q]);
            }
        }
        if p > 0 {
            assert(order[p - 1] == shorter[p - 1]);
        }
    }
}

proof fn lemma_order_prefix_exists(keys: Seq<u64>, count: int) -> (order: Seq<usize>)
    requires
        0 <= count <= keys.len(),
        keys.len() <= usize::MAX,
    ensures
        orders_prefix(order, keys, count),
    decreases count,
{
    if count == 0 {
        Seq::empty()
    } else {
        let before = lemma_order_prefix_exists(keys, count - 1);
        let i = (count - 1) as usize;
        lemma_insertion_point(before, keys, keys[i as int]);
        let p = insertion_point(before, keys, keys[i as int]);
        lemma_insert_keeps_order(before, keys, i, p);
        before.insert(p, i)
    }
}

/// Every list of keys that a machine can hold has a stable ordering.
pub proof fn lemma_stable_order_exists(keys: Seq<u64>)
    requires
        keys.len() <= usize::MAX,
    ensures
        is_stable_order(stable_order(keys), keys),
{
    let order = lemma_order_prefix_exists(keys, keys.len() as int);
    assert(is_stable_order(order, keys));
}

/// Orders the indices of `keys`: smaller keys first, equal keys in the
/// order in which they stand.
pub fn sort_indices(keys: &Vec<u64>) -> (order: Vec<usize>)
    ensures
        is_stable_order(order@, keys@),
        order@ == stable_order(keys@),
{
    let mut order: Vec<usize> = Vec::new();
    let mut i: usize = 0;
    while i < keys.len()
        invariant
            i <= keys.len(),
            orders_prefix(order@, keys@, i as int),
        decreases keys.len() - i,
    {
        let mut p: usize = order.len();
        while p > 0 && keys[order[p - 1]] > keys[i]
            invariant
                p <= order.len(),
                i < keys.len(),
                orders_prefix(order@, keys@, i as int),
                forall|q: int|
                    p <= q < order.len() ==> keys@[i as int] < keys@[#[trigger] order@[q] as int],
            decreases p,
        {
            p = p - 1;
        }
        proof {
            lemma_insert_keeps_order(order@, keys@, i, p as int);
        }
        order.insert(p, i);
        i = i + 1;
    }
    proof {
        assert(is_stable_order(order@, keys@));
        lemma_stable_order_unique(order@, stable_order(keys@), keys@);
    }
    order
}

} // verus!
