//! The order in which a stable sort by descending weight visits its input.

use vstd::prelude::*;
use crate::series::{total, lemma_total_insert, lemma_total_push};

verus! {

/// The number of leading entries of `run` that are at least `key`: the place
/// where `key` joins a descending run behind everything that is not smaller.
pub open spec fn slot(run: Seq<nat>, key: nat) -> int
    decreases run.len(),
{
    if run.len() == 0 || run[0] < key {
        0
    } else {
        1 + slot(run.drop_first(), key)
    }
}

/// The entries of `keys` in the order given by `order`.
pub open spec fn arranged(keys: Seq<nat>, order: Seq<int>) -> Seq<nat> {
    Seq::new(order.len(), |k: int| keys[order[k]])
}

/// The positions of `keys` in the order of a stable sort by descending key:
/// entry `k` of the result is the position in `keys` of the entry that comes
/// `k`-th. It is built by letting each entry in turn join the run of those
/// before it.
pub open spec fn stable_order(keys: Seq<nat>) -> Seq<int>
    decreases keys.len(),
{
    if keys.len() == 0 {
        Seq::empty()
    } else {
        let head = keys.drop_last();
        let before = stable_order(head);
        before.insert(slot(arranged(head, before), keys.last()), keys.len() - 1)
    }
}

/// A scan that has passed `j` entries, all at least `key`, and stopped at the
/// end or at a smaller entry, has found the slot.
pub proof fn lemma_slot_found(run: Seq<nat>, key: nat, j: int)
    requires
        0 <= j <= run.len(),
        forall|k: int| 0 <= k < j ==> run[k] >= key,
        j == run.len() || run[j] < key,
    ensures
        slot(run, key) == j,
    decreases j,
{
    if j > 0 {
        lemma_slot_found(run.drop_first(), key, j - 1);
    }
}

/// The slot lies within the run, with nothing smaller before it and nothing
/// as large at it.
pub proof fn lemma_slot_bounds(run: Seq<nat>, key: nat)
    ensures
        0 <= slot(run, key) <= run.len(),
        forall|k: int| 0 <= k < slot(run, key) ==> run[k] >= key,
        slot(run, key) < run.len() ==> run[slot(run, key)] < key,
    decreases run.len(),
{
    if run.len() != 0 && run[0] >= key {
        let rest = run.drop_first();
        lemma_slot_bounds(rest, key);
        assert forall|k: int| 0 <= k < slot(run, key) implies run[k] >= key by {
            if k > 0 {
                assert(run[k] == rest[k - 1]);
            }
        }
        if slot(run, key) < run.len() {
            assert(run[slot(run, key)] == rest[slot(rest, key)]);
        }
    }
}

/// Whether `order` comes to position `e`.
pub open spec fn visits(order: Seq<int>, e: int) -> bool {
    exists|k: int| 0 <= k < order.len() && order[k] == e
}

/// Whether `order` lists each position below `n` exactly once.
pub open spec fn is_permutation(order: Seq<int>, n: int) -> bool {
    &&& order.len() == n
    &&& forall|k: int| 0 <= k < n ==> 0 <= #[trigger] order[k] < n
    &&& forall|a: int, b: int| 0 <= a < b < n ==> order[a] != order[b]
    &&& forall|e: int| 0 <= e < n ==> #[trigger] visits(order, e)
}

/// Whether `order` visits `keys` from large to small, and equal keys in the
/// order in which they stand in `keys`.
pub open spec fn is_stable_descent(keys: Seq<nat>, order: Seq<int>) -> bool {
    forall|a: int, b: int|
        0 <= a < b < order.len() ==> {
            ||| keys[#[trigger] order[a]] > keys[#[trigger] order[b]]
            ||| (keys[order[a]] == keys[order[b]] && order[a] < order[b])
        }
}

/// **Stability.** The stable order is a stable sort: it visits every
/// position once, larger keys first, and equal keys in the order in which
/// they stand.
pub proof fn lemma_stable_order(keys: Seq<nat>)
    ensures
        is_permutation(stable_order(keys), keys.len() as int),
        is_stable_descent(keys, stable_order(keys)),
    decreases keys.len(),
{
    if keys.len() > 0 {
        let n = keys.len() as int;
        let head = keys.drop_last();
        let before = stable_order(head);
        let run = arranged(head, before);
        let key = keys.last();
        let p = slot(run, key);
        let order = stable_order(keys);
        lemma_stable_order(head);
        lemma_slot_bounds(run, key);
        assert(order == before.insert(p, n - 1));
        assert forall|k: int| 0 <= k < n implies 0 <= #[trigger] order[k] < n by {
            if k < p {
                assert(order[k] == before[k]);
            } else if k > p {
                assert(order[k] == before[k - 1]);
            }
        }
        assert forall|a: int, b: int| 0 <= a < b < n implies order[a] != order[b] by {
            let sa = if a < p { a } else { a - 1 };
            let sb = if b < p { b } else { b - 1 };
            if a != p && b != p {
                assert(order[a] == before[sa]);
                assert(order[b] == before[sb]);
            } else if a == p {
                assert(order[b] == before[sb]);
            } else {
                assert(order[a] == before[sa]);
            }
        }
        assert forall|e: int| 0 <= e < n implies #[trigger] visits(order, e) by {
            if e == n - 1 {
                assert(order[p] == e);
            } else {
                assert(visits(before, e));
                let k0 = choose|k: int| 0 <= k < before.len() && before[k] == e;
                let k = if k0 < p { k0 } else { k0 + 1 };
                assert(order[k] == e);
            }
        }
        assert forall|a: int, b: int| 0 <= a < b < n implies {
            ||| keys[#[trigger] order[a]] > keys[#[trigger] order[b]]
            ||| (keys[order[a]] == keys[order[b]] && order[a] < order[b])
        } by {
            let sa = if a < p { a } else { a - 1 };
            let sb = if b < p { b } else { b - 1 };
            if a != p {
                assert(order[a] == before[sa]);
                assert(run[sa] == head[before[sa]]);
                assert(head[before[sa]] == keys[before[sa]]);
            }
            if b != p {
                assert(order[b] == before[sb]);
                assert(run[sb] == head[before[sb]]);
                assert(head[before[sb]] == keys[before[sb]]);
            }
            if a != p && b != p {
                assert(0 <= sa < sb < n - 1);
            } else if a == p {
                // everything behind the slot is smaller than the new key
                assert(run[p] < key);
                if sb > p {
                    assert(0 <= p < sb < n - 1);
                    assert(head[before[p]] == keys[before[p]]);
                    assert(run[p] == head[before[p]]);
                }
            } else {
                assert(sa < p);
            }
        }
    }
}

/// Keys that stand in descending order are visited as they stand.
pub proof fn lemma_stable_order_of_sorted(keys: Seq<nat>)
    requires
        forall|a: int, b: int| 0 <= a < b < keys.len() ==> keys[a] >= keys[b],
    ensures
        stable_order(keys) == Seq::new(keys.len(), |k: int| k),
    decreases keys.len(),
{
    if keys.len() > 0 {
        let n = keys.len() as int;
        let head = keys.drop_last();
        lemma_stable_order_of_sorted(head);
        let before = stable_order(head);
        let run = arranged(head, before);
        assert(run =~= head);
        lemma_slot_found(run, keys.last(), n - 1);
        assert(before.insert(n - 1, n - 1) =~= Seq::new(keys.len(), |k: int| k));
    } else {
        assert(stable_order(keys) =~= Seq::new(keys.len(), |k: int| k));
    }
}

/// Rearranging entries by the stable order of any keys keeps their sum.
pub proof fn lemma_arranged_total(values: Seq<nat>, keys: Seq<nat>)
    requires
        values.len() == keys.len(),
    ensures
        total(arranged(values, stable_order(keys))) == total(values),
    decreases keys.len(),
{
    if keys.len() > 0 {
        let n = keys.len() as int;
        let head = keys.drop_last();
        let front = values.drop_last();
        let before = stable_order(head);
        let p = slot(arranged(head, before), keys.last());
        let moved = arranged(front, before);
        lemma_arranged_total(front, head);
        lemma_stable_order(head);
        lemma_slot_bounds(arranged(head, before), keys.last());
        assert(arranged(values, stable_order(keys)) =~= moved.insert(p, values.last())) by {
            let order = stable_order(keys);
            assert forall|k: int| 0 <= k < n implies arranged(values, order)[k] == moved.insert(p, values.last())[k] by {
                if k < p {
                    assert(order[k] == before[k]);
                    assert(front[before[k]] == values[before[k]]);
                } else if k > p {
                    assert(order[k] == before[k - 1]);
                    assert(front[before[k - 1]] == values[before[k - 1]]);
                }
            }
        }
        lemma_total_insert(moved, p, values.last());
        assert(values =~= front.push(values.last()));
        lemma_total_push(front, values.last());
    }
}

/// The place at which `order` visits position `e`.
pub open spec fn index_in(order: Seq<int>, e: int) -> int {
    choose|k: int| 0 <= k < order.len() && order[k] == e
}

/// In an order that visits every position once, the place of a position is
/// where the order names it, and nowhere else.
pub proof fn lemma_index_in(order: Seq<int>, n: int)
    requires
        is_permutation(order, n),
    ensures
        forall|e: int| 0 <= e < n ==> 0 <= #[trigger] index_in(order, e) < n && order[index_in(order, e)] == e,
        forall|k: int| 0 <= k < n ==> index_in(order, #[trigger] order[k]) == k,
{
    assert forall|e: int| 0 <= e < n implies 0 <= #[trigger] index_in(order, e) < n && order[index_in(order, e)]
        == e by {
        assert(visits(order, e));
    }
    assert forall|k: int| 0 <= k < n implies index_in(order, #[trigger] order[k]) == k by {
        let at = index_in(order, order[k]);
        assert(visits(order, order[k]));
        if at < k {
            assert(order[at] != order[k]);
        } else if k < at {
            assert(order[k] != order[at]);
        }
    }
}

} // verus!
