//! What the delta queries emit in one round, for one combination of tuples.
//!
//! Fix one tuple of each relation, with weight `a[j]` before a round and net
//! change `d[j]` within it. The delta query of relation `i` multiplies `d[i]`
//! by the weight of every other relation as it sees it: the new weight
//! `a[j] + d[j]` where it sees that relation's change, the old one elsewhere.

use vstd::prelude::*;
use crate::timestamp::{lemma_exactly_one_branch_sees, sees};

verus! {

/// The weight at which the delta query of `i`, at outer time `t`, reads
/// relation `j`; its own change when `j == i`.
pub open spec fn factor(a: Seq<int>, d: Seq<int>, i: int, j: int, t: u64) -> int {
    if j == i {
        d[j]
    } else if sees(i as usize, j as usize, t, t) {
        a[j] + d[j]
    } else {
        a[j]
    }
}

/// The product of the factors of relations `0..n` in the delta query of `i`.
pub open spec fn branch_product(a: Seq<int>, d: Seq<int>, i: int, n: nat, t: u64) -> int
    decreases n,
{
    if n == 0 {
        1
    } else {
        branch_product(a, d, i, (n - 1) as nat, t) * factor(a, d, i, n - 1, t)
    }
}

/// What the delta queries of relations `0..k` emit, over relations `0..n`.
pub open spec fn emitted(a: Seq<int>, d: Seq<int>, k: nat, n: nat, t: u64) -> int
    decreases k,
{
    if k == 0 {
        0
    } else {
        emitted(a, d, (k - 1) as nat, n, t) + branch_product(a, d, k - 1, n, t)
    }
}

/// The product of the weights of relations `0..n` before the round.
pub open spec fn old_product(a: Seq<int>, n: nat) -> int
    decreases n,
{
    if n == 0 {
        1
    } else {
        old_product(a, (n - 1) as nat) * a[n - 1]
    }
}

/// The product of the weights of relations `0..n` after the round.
pub open spec fn new_product(a: Seq<int>, d: Seq<int>, n: nat) -> int
    decreases n,
{
    if n == 0 {
        1
    } else {
        new_product(a, d, (n - 1) as nat) * (a[n - 1] + d[n - 1])
    }
}

proof fn lemma_own_branch_is_new_product(a: Seq<int>, d: Seq<int>, i: int, n: nat, t: u64)
    requires
        0 <= n <= i,
        i < a.len() == d.len(),
        a.len() <= usize::MAX,
    ensures
        branch_product(a, d, i, n, t) == new_product(a, d, n),
    decreases n,
{
    if n > 0 {
        lemma_own_branch_is_new_product(a, d, i, (n - 1) as nat, t);
        lemma_exactly_one_branch_sees(i as usize, (n - 1) as usize, t);
    }
}

proof fn lemma_emitted_extend(a: Seq<int>, d: Seq<int>, k: nat, n: nat, t: u64)
    requires
        k <= n,
        n < a.len() == d.len(),
        a.len() <= usize::MAX,
    ensures
        emitted(a, d, k, n + 1, t) == emitted(a, d, k, n, t) * a[n as int],
    decreases k,
{
    if k > 0 {
        let i = k - 1;
        lemma_emitted_extend(a, d, (k - 1) as nat, n, t);
        lemma_exactly_one_branch_sees(i as usize, n as usize, t);
        assert(factor(a, d, i, n as int, t) == a[n as int]);
        let x = emitted(a, d, (k - 1) as nat, n, t);
        let y = branch_product(a, d, i, n, t);
        let an = a[n as int];
        assert(x * an + y * an == (x + y) * an) by (nonlinear_arith);
    }
}

/// Exactly-once counting: whatever the weights before a round and the
/// changes within it, the delta queries together emit the change of the
/// combination's weight, `prod(a + d) - prod(a)`; a coincidence of changes in
/// two or more relations is counted once, never twice or not at all.
pub proof fn lemma_delta_queries_sum_to_change(a: Seq<int>, d: Seq<int>, t: u64)
    requires
        a.len() == d.len(),
        a.len() <= usize::MAX,
    ensures
        emitted(a, d, a.len(), a.len(), t) == new_product(a, d, a.len()) - old_product(a, a.len()),
    decreases a.len(),
{
    lemma_prefix_sum_to_change(a, d, a.len(), t);
}

proof fn lemma_prefix_sum_to_change(a: Seq<int>, d: Seq<int>, n: nat, t: u64)
    requires
        a.len() == d.len(),
        a.len() <= usize::MAX,
        n <= a.len(),
    ensures
        emitted(a, d, n, n, t) == new_product(a, d, n) - old_product(a, n),
    decreases n,
{
    if n > 0 {
        let m = (n - 1) as nat;
        lemma_prefix_sum_to_change(a, d, m, t);
        lemma_emitted_extend(a, d, m, m, t);
        lemma_own_branch_is_new_product(a, d, m as int, m, t);
        let e = emitted(a, d, m, m, t);
        let pn = new_product(a, d, m);
        let po = old_product(a, m);
        let am = a[m as int];
        let dm = d[m as int];
        assert(branch_product(a, d, m as int, n, t) == pn * dm);
        assert(e * am + pn * dm == pn * (am + dm) - po * am) by (nonlinear_arith)
            requires
                e == pn - po,
        ;
    }
}

/// A round whose changes all net to zero, an insertion and a deletion of
/// the same tuple for instance, emits nothing.
pub proof fn lemma_cancelled_round_emits_nothing(a: Seq<int>, d: Seq<int>, t: u64)
    requires
        a.len() == d.len(),
        a.len() <= usize::MAX,
        forall|j: int| 0 <= j < d.len() ==> d[j] == 0,
    ensures
        emitted(a, d, a.len(), a.len(), t) == 0,
{
    lemma_delta_queries_sum_to_change(a, d, t);
    lemma_new_is_old_when_unchanged(a, d, a.len());
}

proof fn lemma_new_is_old_when_unchanged(a: Seq<int>, d: Seq<int>, n: nat)
    requires
        a.len() == d.len(),
        n <= a.len(),
        forall|j: int| 0 <= j < d.len() ==> d[j] == 0,
    ensures
        new_product(a, d, n) == old_product(a, n),
    decreases n,
{
    if n > 0 {
        lemma_new_is_old_when_unchanged(a, d, (n - 1) as nat);
    }
}

} // verus!
