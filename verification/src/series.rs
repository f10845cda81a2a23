//! Running totals of sequences of weights.

use vstd::prelude::*;
use crate::order::{arranged, is_permutation, visits};

verus! {

/// The sum of the first `n` entries of `w`; zero where `n` is out of range.
pub open spec fn prefix_sum(w: Seq<nat>, n: int) -> nat
    decreases n,
{
    if n <= 0 || n > w.len() {
        0
    } else {
        prefix_sum(w, n - 1) + w[n - 1]
    }
}

/// The sum of all entries of `w`.
pub open spec fn total(w: Seq<nat>) -> nat {
    prefix_sum(w, w.len() as int)
}

/// A running total never shrinks as more entries are taken in.
pub proof fn lemma_prefix_sum_monotone(w: Seq<nat>, i: int, j: int)
    requires
        0 <= i <= j <= w.len(),
    ensures
        prefix_sum(w, i) <= prefix_sum(w, j),
    decreases j - i,
{
    if i < j {
        lemma_prefix_sum_monotone(w, i, j - 1);
    }
}

/// Every entry is bounded by the sum of all entries.
pub proof fn lemma_entry_le_total(w: Seq<nat>, i: int)
    requires
        0 <= i < w.len(),
    ensures
        w[i] <= total(w),
        prefix_sum(w, i) + w[i] <= total(w),
{
    lemma_prefix_sum_monotone(w, i + 1, w.len() as int);
}

/// A running total depends only on the entries it has taken in.
pub proof fn lemma_prefix_sum_agrees(a: Seq<nat>, b: Seq<nat>, n: int)
    requires
        0 <= n <= a.len(),
        n <= b.len(),
        forall|k: int| 0 <= k < n ==> a[k] == b[k],
    ensures
        prefix_sum(a, n) == prefix_sum(b, n),
    decreases n,
{
    if n > 0 {
        lemma_prefix_sum_agrees(a, b, n - 1);
    }
}

/// The sum of all entries is the sum of all but the last, plus the last.
pub proof fn lemma_total_push(w: Seq<nat>, x: nat)
    ensures
        total(w.push(x)) == total(w) + x,
{
    lemma_prefix_sum_agrees(w.push(x), w, w.len() as int);
}

/// Inserting an entry anywhere adds it to the sum.
pub proof fn lemma_total_insert(w: Seq<nat>, p: int, x: nat)
    requires
        0 <= p <= w.len(),
    ensures
        total(w.insert(p, x)) == total(w) + x,
    decreases w.len() - p,
{
    if p == w.len() {
        assert(w.insert(p, x) =~= w.push(x));
        lemma_total_push(w, x);
    } else {
        let head = w.drop_last();
        assert(w =~= head.push(w.last()));
        assert(w.insert(p, x) =~= head.insert(p, x).push(w.last()));
        lemma_total_push(head, w.last());
        lemma_total_push(head.insert(p, x), w.last());
        lemma_total_insert(head, p, x);
    }
}

/// The sum of the last `r` entries of `w`.
pub open spec fn rest_sum(w: Seq<nat>, r: int) -> nat {
    (total(w) - prefix_sum(w, w.len() - r)) as nat
}

/// The sum of the last entries goes down by the first of them when that one
/// is left out.
pub proof fn lemma_rest_split(w: Seq<nat>, r: int)
    requires
        0 <= r <= w.len(),
    ensures
        rest_sum(w, r) == total(w) - prefix_sum(w, w.len() - r),
        r > 0 ==> rest_sum(w, r) == rest_sum(w, r - 1) + w[w.len() - r],
        rest_sum(w, 0) == 0,
        rest_sum(w, w.len() as int) == total(w),
{
    lemma_prefix_sum_monotone(w, w.len() - r, w.len() as int);
    if r > 0 {
        lemma_prefix_sum_monotone(w, w.len() - r + 1, w.len() as int);
    }
}

/// The running totals of a sequence followed by another go on from the sum
/// of the first.
pub proof fn lemma_prefix_sum_concat(a: Seq<nat>, b: Seq<nat>, n: int)
    requires
        0 <= n <= b.len(),
    ensures
        prefix_sum(a + b, a.len() + n) == total(a) + prefix_sum(b, n),
    decreases n,
{
    if n > 0 {
        lemma_prefix_sum_concat(a, b, n - 1);
        assert((a + b)[a.len() + n - 1] == b[n - 1]);
    } else {
        lemma_prefix_sum_agrees(a + b, a, a.len() as int);
    }
}

/// The largest of the first `n` entries of `w`; zero where there is none.
pub open spec fn prefix_max(w: Seq<nat>, n: int) -> nat
    decreases n,
{
    if n <= 0 || n > w.len() {
        0
    } else if w[n - 1] >= prefix_max(w, n - 1) {
        w[n - 1]
    } else {
        prefix_max(w, n - 1)
    }
}

/// The largest entry of `w`; zero for the empty sequence.
pub open spec fn peak(w: Seq<nat>) -> nat {
    prefix_max(w, w.len() as int)
}

/// The largest entry bounds every entry, and is one of them.
pub proof fn lemma_prefix_max(w: Seq<nat>, n: int)
    requires
        0 <= n <= w.len(),
    ensures
        forall|k: int| 0 <= k < n ==> w[k] <= prefix_max(w, n),
        n > 0 ==> exists|k: int| 0 <= k < n && w[k] == prefix_max(w, n),
    decreases n,
{
    if n > 0 {
        lemma_prefix_max(w, n - 1);
        if n > 1 {
            let k = choose|k: int| 0 <= k < n - 1 && w[k] == prefix_max(w, n - 1);
            assert(0 <= k < n);
        }
        assert(w[n - 1] <= prefix_max(w, n));
    }
}

/// Appending an entry raises the largest entry to it, if it is larger.
pub proof fn lemma_peak_push(w: Seq<nat>, x: nat)
    ensures
        peak(w.push(x)) == if x >= peak(w) { x } else { peak(w) },
{
    lemma_prefix_max_agrees(w.push(x), w, w.len() as int);
}

/// The largest entry of a sequence followed by another is the larger of
/// the two largest entries.
pub proof fn lemma_peak_concat(a: Seq<nat>, b: Seq<nat>)
    ensures
        peak(a + b) == if peak(a) >= peak(b) { peak(a) } else { peak(b) },
    decreases b.len(),
{
    if b.len() == 0 {
        assert(a + b =~= a);
    } else {
        let head = b.drop_last();
        assert(a + b =~= (a + head).push(b.last()));
        assert(b =~= head.push(b.last()));
        lemma_peak_concat(a, head);
        lemma_peak_push(a + head, b.last());
        lemma_peak_push(head, b.last());
    }
}

/// The largest entry depends only on the entries it has seen.
pub proof fn lemma_prefix_max_agrees(a: Seq<nat>, b: Seq<nat>, n: int)
    requires
        0 <= n <= a.len(),
        n <= b.len(),
        forall|k: int| 0 <= k < n ==> a[k] == b[k],
    ensures
        prefix_max(a, n) == prefix_max(b, n),
    decreases n,
{
    if n > 0 {
        lemma_prefix_max_agrees(a, b, n - 1);
    }
}

/// Raising every entry by `d` raises the largest entry by `d`.
pub proof fn lemma_prefix_max_shift(a: Seq<nat>, b: Seq<nat>, d: nat, n: int)
    requires
        0 < n <= a.len(),
        n <= b.len(),
        forall|k: int| 0 <= k < n ==> b[k] == a[k] + d,
    ensures
        prefix_max(b, n) == prefix_max(a, n) + d,
    decreases n,
{
    if n > 1 {
        lemma_prefix_max_shift(a, b, d, n - 1);
    } else {
        assert(prefix_max(a, 0) == 0 && prefix_max(b, 0) == 0);
    }
}

/// The largest entry does not depend on the order of the entries.
pub proof fn lemma_peak_arranged(keys: Seq<nat>, order: Seq<int>)
    requires
        is_permutation(order, keys.len() as int),
    ensures
        peak(arranged(keys, order)) == peak(keys),
{
    let moved = arranged(keys, order);
    let n = keys.len() as int;
    lemma_prefix_max(keys, n);
    lemma_prefix_max(moved, n);
    if n > 0 {
        let k = choose|k: int| 0 <= k < n && moved[k] == prefix_max(moved, n);
        assert(moved[k] == keys[order[k]]);
        let e = choose|e: int| 0 <= e < n && keys[e] == prefix_max(keys, n);
        assert(visits(order, e));
        let at = choose|at: int| 0 <= at < order.len() && order[at] == e;
        assert(moved[at] == keys[e]);
    }
}

} // verus!
