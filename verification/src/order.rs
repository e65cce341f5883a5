//! Stable ordering of items by pairs of integers.

use vstd::prelude::*;

verus! {

/// A sorting key: the first component counts first.
pub type Key = (i64, i64);

/// `a` comes before `b`.
pub open spec fn key_less(a: Key, b: Key) -> bool {
    a.0 < b.0 || (a.0 == b.0 && a.1 < b.1)
}

/// Item `i` comes before item `j`: by key, and by position where the keys agree.
pub open spec fn precedes(keys: Seq<Key>, i: int, j: int) -> bool {
    key_less(keys[i], keys[j]) || (keys[i] == keys[j] && i < j)
}

/// `order` lists every position of `keys` once, each before all that it
/// precedes.
pub open spec fn is_stable_order(order: Seq<int>, keys: Seq<Key>) -> bool {
    &&& forall|k: int| 0 <= k < order.len() ==> 0 <= #[trigger] order[k] < keys.len()
    &&& forall|i: int| 0 <= i < keys.len() ==> #[trigger] order.contains(i)
    &&& forall|a: int, b: int|
        0 <= a < b < order.len() ==> precedes(keys, #[trigger] order[a], #[trigger] order[b])
}

/// The positions of `keys` in the order of a stable sort.
pub open spec fn stable_order(keys: Seq<Key>) -> Seq<int> {
    choose|order: Seq<int>| is_stable_order(order, keys)
}

/// Where two stable orders agree on the first `n` positions, the item at `n` in
/// the first does not come before the item at `n` in the second.
proof fn lemma_next_agrees(p: Seq<int>, q: Seq<int>, keys: Seq<Key>, n: int)
    requires
        is_stable_order(p, keys),
        is_stable_order(q, keys),
        0 <= n < p.len(),
        forall|k: int| 0 <= k < n ==> k < q.len() && p[k] == #[trigger] q[k],
    ensures
        n < q.len(),
        q[n] == p[n] || precedes(keys, q[n], p[n]),
{
    let x = p[n];
    assert(q.contains(x));
    let m = choose|m: int| 0 <= m < q.len() && q[m] == x;
    if m < n {
        assert(p[m] == q[m]);
        assert(precedes(keys, p[m], p[n]));
    }
    if m > n {
        assert(precedes(keys, q[n], q[m]));
    }
}

proof fn lemma_orders_agree(p: Seq<int>, q: Seq<int>, keys: Seq<Key>, n: int)
    requires
        is_stable_order(p, keys),
        is_stable_order(q, keys),
        0 <= n <= p.len(),
    ensures
        n <= q.len(),
        forall|k: int| 0 <= k < n ==> p[k] == #[trigger] q[k],
    decreases n,
{
    if n > 0 {
        lemma_orders_agree(p, q, keys, n - 1);
        lemma_next_agrees(p, q, keys, n - 1);
        lemma_next_agrees(q, p, keys, n - 1);
    }
}

/// There is only one stable order.
pub proof fn lemma_stable_order_unique(order: Seq<int>, keys: Seq<Key>)
    requires
        is_stable_order(order, keys),
    ensures
        order == stable_order(keys),
        is_stable_order(stable_order(keys), keys),
{
    let chosen = stable_order(keys);
    assert(is_stable_order(chosen, keys));
    lemma_orders_agree(order, chosen, keys, order.len() as int);
    lemma_orders_agree(chosen, order, keys, chosen.len() as int);
    assert(order =~= chosen);
}

/// Inserting the last item behind everything that it does not come before keeps
/// the order.
proof fn lemma_insert_last(order: Seq<int>, keys: Seq<Key>, at: int)
    requires
        keys.len() > 0,
        is_stable_order(order, keys.drop_last()),
        order.len() == keys.len() - 1,
        0 <= at <= order.len(),
        forall|b: int| at <= b < order.len() ==> key_less(keys.last(), keys[#[trigger] order[b]]),
        at > 0 ==> !key_less(keys.last(), keys[order[at - 1]]),
    ensures
        is_stable_order(order.insert(at, keys.len() - 1), keys),
{
    let shorter = keys.drop_last();
    let n = keys.len() - 1;
    let after = order.insert(at, n);
    assert forall|a: int, b: int| 0 <= a < b < order.len() implies precedes(
        keys,
        #[trigger] order[a],
        #[trigger] order[b],
    ) by {
        assert(precedes(shorter, order[a], order[b]));
    }
    assert forall|a: int, b: int| 0 <= a < b < after.len() implies precedes(
        keys,
        #[trigger] after[a],
        #[trigger] after[b],
    ) by {
        if b == at {
            assert(after[a] == order[a]);
            if a != at - 1 {
                assert(precedes(keys, order[a], order[at - 1]));
            }
        } else if a == at {
            assert(after[b] == order[b - 1]);
        } else {
            let a0 = if a < at { a } else { a - 1 };
            let b0 = if b < at { b } else { b - 1 };
            assert(after[a] == order[a0] && after[b] == order[b0]);
            assert(precedes(keys, order[a0], order[b0]));
        }
    }
    assert forall|x: int| 0 <= x < keys.len() implies #[trigger] after.contains(x) by {
        if x == n {
            assert(after[at] == x);
        } else {
            assert(order.contains(x));
            let m = choose|m: int| 0 <= m < order.len() && order[m] == x;
            if m < at {
                assert(after[m] == x);
            } else {
                assert(after[m + 1] == x);
            }
        }
    }
}

/// Where the last item belongs among the first `at` of `order`.
proof fn lemma_place_for_last(order: Seq<int>, keys: Seq<Key>, at: int) -> (place: int)
    requires
        0 <= at <= order.len(),
        forall|b: int| at <= b < order.len() ==> key_less(keys.last(), keys[#[trigger] order[b]]),
    ensures
        0 <= place <= order.len(),
        forall|b: int|
            place <= b < order.len() ==> key_less(keys.last(), keys[#[trigger] order[b]]),
        place > 0 ==> !key_less(keys.last(), keys[order[place - 1]]),
    decreases at,
{
    if at > 0 && key_less(keys.last(), keys[order[at - 1]]) {
        lemma_place_for_last(order, keys, at - 1)
    } else {
        at
    }
}

proof fn lemma_some_stable_order(keys: Seq<Key>) -> (order: Seq<int>)
    ensures
        is_stable_order(order, keys),
        order.len() == keys.len(),
    decreases keys.len(),
{
    if keys.len() == 0 {
        Seq::empty()
    } else {
        let shorter = lemma_some_stable_order(keys.drop_last());
        let at = lemma_place_for_last(shorter, keys, shorter.len() as int);
        lemma_insert_last(shorter, keys, at);
        shorter.insert(at, keys.len() - 1)
    }
}

/// Every list of keys has a stable order.
pub proof fn lemma_stable_order_exists(keys: Seq<Key>)
    ensures
        is_stable_order(stable_order(keys), keys),
        stable_order(keys).len() == keys.len(),
{
    let order = lemma_some_stable_order(keys);
    lemma_stable_order_unique(order, keys);
}

/// The positions `v` as integers.
pub open spec fn as_ints(v: Seq<usize>) -> Seq<int> {
    Seq::new(v.len(), |i: int| v[i] as int)
}

/// The positions of the keys in the order of a stable sort.
pub fn sorted_positions(keys: &Vec<Key>) -> (order: Vec<usize>)
    ensures
        as_ints(order@) == stable_order(keys@),
        is_stable_order(as_ints(order@), keys@),
        order@.len() == keys@.len(),
{
    let mut order: Vec<usize> = Vec::new();
    let mut i: usize = 0;
    while i < keys.len()
        invariant
            i <= keys.len(),
            order@.len() == i,
            is_stable_order(as_ints(order@), keys@.take(i as int)),
        decreases keys.len() - i,
    {
        let ghost before = as_ints(order@);
        let ghost shorter = keys@.take(i as int);
        let ghost longer = keys@.take(i + 1);
        let mut at: usize = order.len();
        let k = keys[i];
        proof {
            assert forall|b: int| 0 <= b < i implies #[trigger] order@[b] < i by {
                assert(before[b] < shorter.len());
            }
        }
        while at > 0 && (k.0 < keys[order[at - 1]].0 || (k.0 == keys[order[at - 1]].0 && k.1
            < keys[order[at - 1]].1))
            invariant
                at <= order.len() == i < keys.len(),
                k == keys@[i as int],
                before == as_ints(order@),
                forall|b: int| 0 <= b < i ==> #[trigger] order@[b] < i,
                is_stable_order(before, keys@.take(i as int)),
                longer == keys@.take(i + 1),
                forall|b: int| at <= b < i ==> key_less(k, longer[#[trigger] before[b]]),
            decreases at,
        {
            at -= 1;
        }
        order.insert(at, i);
        proof {
            assert(longer.drop_last() =~= shorter);
            assert(as_ints(order@) =~= before.insert(at as int, i as int));
            lemma_insert_last(before, longer, at as int);
        }
        i += 1;
    }
    proof {
        assert(keys@.take(keys@.len() as int) == keys@);
        lemma_stable_order_unique(as_ints(order@), keys@);
    }
    order
}

} // verus!
