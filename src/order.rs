//! The order in which relations are folded into a delta query.

use vstd::prelude::*;
use vstd::set_lib::{lemma_int_range, lemma_len_subset, set_int_range};
use crate::attrs::AttrRef;

verus! {

/// Constraint `c` names an attribute of source `s`.
pub open spec fn mentions(c: Seq<AttrRef>, s: usize) -> bool {
    exists|p: int| 0 <= p < c.len() && (#[trigger] c[p]).1 == s
}

/// Constraint `c` names an attribute of some source in `r`.
pub open spec fn touches(c: Seq<AttrRef>, r: Seq<usize>) -> bool {
    exists|p: int| 0 <= p < c.len() && r.contains((#[trigger] c[p]).1)
}

/// Every constraint that names a source of `r` names only sources of `r`.
pub open spec fn closed_under(r: Seq<usize>, eqs: Seq<Vec<AttrRef>>) -> bool {
    forall|k: int, p: int|
        0 <= k < eqs.len() && touches(eqs[k]@, r) && 0 <= p < eqs[k]@.len()
            ==> r.contains((#[trigger] eqs[k]@[p]).1)
}

/// Source `r[m]` shares a constraint with a source listed before it.
pub open spec fn linked_at(r: Seq<usize>, eqs: Seq<Vec<AttrRef>>, m: int) -> bool {
    exists|k: int, l: int|
        0 <= k < eqs.len() && 0 <= l < m && #[trigger] mentions(eqs[k]@, r[l])
            && mentions(eqs[k]@, r[m])
}

/// Every source after the first shares a constraint with an earlier one.
pub open spec fn linked(r: Seq<usize>, eqs: Seq<Vec<AttrRef>>) -> bool {
    forall|m: int| 1 <= m < r.len() ==> #[trigger] linked_at(r, eqs, m)
}

/// `r` lists, seed first and each once, exactly the sources reachable from
/// `seed` through shared equality constraints, each after one it shares a
/// constraint with.
pub open spec fn is_join_order(seed: usize, eqs: Seq<Vec<AttrRef>>, r: Seq<usize>) -> bool {
    &&& r.len() >= 1
    &&& r[0] == seed
    &&& r.no_duplicates()
    &&& closed_under(r, eqs)
    &&& linked(r, eqs)
}

proof fn lemma_distinct_bounded(s: Seq<usize>, m: usize)
    requires
        s.no_duplicates(),
        forall|k: int| 0 <= k < s.len() ==> s[k] <= m,
    ensures
        s.len() <= m + 1,
{
    let t = s.map_values(|x: usize| x as int);
    assert(t.no_duplicates()) by {
        assert forall|i: int, j: int| 0 <= i < t.len() && 0 <= j < t.len() && i != j implies t[i] != t[j] by {
            assert(s[i] != s[j]);
        }
    }
    t.unique_seq_to_set();
    lemma_int_range(0, m + 1);
    assert(t.to_set().subset_of(set_int_range(0, m + 1))) by {
        assert forall|x: int| t.to_set().contains(x) implies set_int_range(0, m + 1).contains(x) by {
            assert(t.contains(x));
            let k = choose|k: int| 0 <= k < t.len() && t[k] == x;
            assert(s[k] <= m);
        }
    }
    lemma_len_subset(t.to_set(), set_int_range(0, m + 1));
}

proof fn lemma_push_linked(r: Seq<usize>, eqs: Seq<Vec<AttrRef>>, s: usize, k: int, l: int)
    requires
        linked(r, eqs),
        0 <= k < eqs.len(),
        0 <= l < r.len(),
        mentions(eqs[k]@, r[l]),
        mentions(eqs[k]@, s),
    ensures
        linked(r.push(s), eqs),
{
    let n = r.push(s);
    assert forall|m: int| 1 <= m < n.len() implies #[trigger] linked_at(n, eqs, m) by {
        if m < r.len() {
            assert(linked_at(r, eqs, m));
            assert(r[m] == n[m]);
            let (k2, l2) = choose|k2: int, l2: int|
                0 <= k2 < eqs.len() && 0 <= l2 < m && #[trigger] mentions(eqs[k2]@, r[l2])
                    && mentions(eqs[k2]@, r[m]);
            assert(n[l2] == r[l2]);
            assert(mentions(eqs[k2]@, n[l2]) && mentions(eqs[k2]@, n[m]));
        } else {
            assert(n[l] == r[l]);
            assert(n[m] == s);
            assert(mentions(eqs[k]@, n[l]) && mentions(eqs[k]@, n[m]));
        }
    }
}

/// `r` followed, in order, by the sources named in `c` that it lacks.
pub open spec fn absorb(r: Seq<usize>, c: Seq<AttrRef>) -> Seq<usize>
    decreases c.len(),
{
    if c.len() == 0 {
        r
    } else {
        let a = absorb(r, c.drop_last());
        if a.contains(c.last().1) {
            a
        } else {
            a.push(c.last().1)
        }
    }
}

/// One scan over the constraints: each, in turn, that names a source
/// sequenced so far appends the sources it names.
pub open spec fn scan(r: Seq<usize>, eqs: Seq<Vec<AttrRef>>) -> Seq<usize>
    decreases eqs.len(),
{
    if eqs.len() == 0 {
        r
    } else {
        let a = scan(r, eqs.drop_last());
        if touches(eqs.last()@, a) {
            absorb(a, eqs.last()@)
        } else {
            a
        }
    }
}

/// `n` scans, one after another.
pub open spec fn iterate(r: Seq<usize>, eqs: Seq<Vec<AttrRef>>, n: nat) -> Seq<usize>
    decreases n,
{
    if n == 0 {
        r
    } else {
        iterate(scan(r, eqs), eqs, (n - 1) as nat)
    }
}

/// `r` is what repeated scans from `[seed]` reach once a scan appends
/// nothing.
pub open spec fn scans_to(seed: usize, eqs: Seq<Vec<AttrRef>>, r: Seq<usize>) -> bool {
    &&& exists|n: nat| r == iterate(seq![seed], eqs, n)
    &&& scan(r, eqs) == r
}

proof fn lemma_iterate_fixed(r: Seq<usize>, eqs: Seq<Vec<AttrRef>>, n: nat)
    requires
        scan(r, eqs) == r,
    ensures
        iterate(r, eqs, n) == r,
    decreases n,
{
    if n > 0 {
        lemma_iterate_fixed(r, eqs, (n - 1) as nat);
    }
}

proof fn lemma_iterate_split(r: Seq<usize>, eqs: Seq<Vec<AttrRef>>, a: nat, b: nat)
    ensures
        iterate(r, eqs, a + b) == iterate(iterate(r, eqs, a), eqs, b),
    decreases a,
{
    if a > 0 {
        lemma_iterate_split(scan(r, eqs), eqs, (a - 1) as nat, b);
        assert((a + b - 1) as nat == (a - 1) as nat + b);
    }
}

/// The join order is a function of the seed and the constraints: two
/// sequences that repeated scans from one seed reach, each unchanged by a
/// further scan, are equal.
pub proof fn lemma_join_order_deterministic(seed: usize, eqs: Seq<Vec<AttrRef>>, r1: Seq<usize>, r2: Seq<usize>)
    requires
        scans_to(seed, eqs, r1),
        scans_to(seed, eqs, r2),
    ensures
        r1 == r2,
{
    let n1 = choose|n: nat| r1 == iterate(seq![seed], eqs, n);
    let n2 = choose|n: nat| r2 == iterate(seq![seed], eqs, n);
    if n1 <= n2 {
        lemma_iterate_split(seq![seed], eqs, n1, (n2 - n1) as nat);
        lemma_iterate_fixed(r1, eqs, (n2 - n1) as nat);
    } else {
        lemma_iterate_split(seq![seed], eqs, n2, (n1 - n2) as nat);
        lemma_iterate_fixed(r2, eqs, (n1 - n2) as nat);
    }
}

/// The largest source index named by the seed or any constraint.
fn max_source(seed: usize, constraints: &[Vec<AttrRef>]) -> (m: usize)
    ensures
        seed <= m,
        forall|k: int, p: int| 0 <= k < constraints@.len() && 0 <= p < constraints@[k]@.len()
            ==> (#[trigger] constraints@[k]@[p]).1 <= m,
{
    let mut m = seed;
    let mut k: usize = 0;
    while k < constraints.len()
        invariant
            k <= constraints@.len(),
            seed <= m,
            forall|q: int, p: int| 0 <= q < k && 0 <= p < constraints@[q]@.len()
                ==> (#[trigger] constraints@[q]@[p]).1 <= m,
        decreases constraints@.len() - k,
    {
        let c = &constraints[k];
        let mut p: usize = 0;
        while p < c.len()
            invariant
                k < constraints@.len(),
                c == constraints@[k as int],
                p <= c@.len(),
                seed <= m,
                forall|q: int, pb: int| 0 <= q < k && 0 <= pb < constraints@[q]@.len()
                    ==> (#[trigger] constraints@[q]@[pb]).1 <= m,
                forall|pb: int| 0 <= pb < p ==> (#[trigger] c@[pb]).1 <= m,
            decreases c@.len() - p,
        {
            if c[p].1 > m {
                m = c[p].1;
            }
            p = p + 1;
        }
        k = k + 1;
    }
    m
}

pub(crate) fn contains_source(r: &Vec<usize>, s: usize) -> (b: bool)
    ensures
        b == r@.contains(s),
{
    let mut i: usize = 0;
    while i < r.len()
        invariant
            i <= r@.len(),
            forall|j: int| 0 <= j < i ==> r@[j] != s,
        decreases r@.len() - i,
    {
        if r[i] == s {
            return true;
        }
        i = i + 1;
    }
    false
}

fn touching(c: &Vec<AttrRef>, r: &Vec<usize>) -> (b: bool)
    ensures
        b == touches(c@, r@),
{
    let mut p: usize = 0;
    while p < c.len()
        invariant
            p <= c@.len(),
            forall|q: int| 0 <= q < p ==> !r@.contains((#[trigger] c@[q]).1),
        decreases c@.len() - p,
    {
        if contains_source(r, c[p].1) {
            return true;
        }
        p = p + 1;
    }
    false
}

/// Sequences the relations reachable from `source`: starting from `[source]`,
/// each constraint that names a sequenced relation appends, in its own order,
/// the relations it names that are not sequenced yet; scans repeat until one
/// appends nothing.
pub fn plan_join_order(source: usize, constraints: &[Vec<AttrRef>]) -> (r: Vec<usize>)
    ensures
        is_join_order(source, constraints@, r@),
        scans_to(source, constraints@, r@),
        exists|n: nat| n <= r@.len() && r@ == iterate(seq![source], constraints@, n),
{
    let ghost eqs = constraints@;
    let m = max_source(source, constraints);
    let mut result: Vec<usize> = vec![source];
    let ghost mut iters: nat = 0;
    assert(result@ == iterate(seq![source], eqs, 0));
    assert(result@.no_duplicates());
    assert(linked(result@, eqs));
    loop
        invariant_except_break
            iters + 1 <= result@.len(),
        invariant
            eqs == constraints@,
            result@.len() >= 1,
            result@[0] == source,
            result@.no_duplicates(),
            linked(result@, eqs),
            forall|i: int| 0 <= i < result@.len() ==> result@[i] <= m,
            result@.len() <= m + 1,
            forall|k: int, p: int| 0 <= k < eqs.len() && 0 <= p < eqs[k]@.len()
                ==> (#[trigger] eqs[k]@[p]).1 <= m,
            result@ == iterate(seq![source], eqs, iters),
        ensures
            iters <= result@.len(),
            closed_under(result@, eqs),
            result@ == iterate(seq![source], eqs, iters),
            scan(result@, eqs) == result@,
        decreases m + 1 - result@.len(),
    {
        let start_len = result.len();
        let ghost start = result@;
        assert(eqs.take(0) =~= Seq::<Vec<AttrRef>>::empty());
        let mut k: usize = 0;
        while k < constraints.len()
            invariant
                eqs == constraints@,
                k <= eqs.len(),
                start_len <= result@.len(),
                start.len() == start_len,
                forall|i: int| 0 <= i < start.len() ==> result@[i] == start[i],
                result@ == scan(start, eqs.take(k as int)),
                result@.len() >= 1,
                result@[0] == source,
                result@.no_duplicates(),
                linked(result@, eqs),
                forall|i: int| 0 <= i < result@.len() ==> result@[i] <= m,
                forall|k2: int, p: int| 0 <= k2 < eqs.len() && 0 <= p < eqs[k2]@.len()
                    ==> (#[trigger] eqs[k2]@[p]).1 <= m,
                result@.len() == start_len ==> forall|q: int, p: int|
                    0 <= q < k && touches(eqs[q]@, result@) && 0 <= p < eqs[q]@.len()
                        ==> result@.contains((#[trigger] eqs[q]@[p]).1),
            decreases eqs.len() - k,
        {
            let c = &constraints[k];
            let ghost before = result@;
            assert(eqs.take(k + 1).drop_last() =~= eqs.take(k as int));
            assert(eqs.take(k + 1).last() == eqs[k as int]);
            if touching(c, &result) {
                let ghost pw = choose|pw: int| 0 <= pw < c@.len() && result@.contains((#[trigger] c@[pw]).1);
                let ghost l = choose|l: int| 0 <= l < result@.len() && result@[l] == c@[pw].1;
                assert(mentions(eqs[k as int]@, result@[l]));
                let mut p: usize = 0;
                assert(c@.take(0) =~= Seq::<AttrRef>::empty());
                while p < c.len()
                    invariant
                        eqs == constraints@,
                        k < eqs.len(),
                        c == eqs[k as int],
                        p <= c@.len(),
                        0 <= l < before.len() <= result@.len(),
                        forall|i: int| 0 <= i < before.len() ==> result@[i] == before[i],
                        mentions(c@, result@[l]),
                        result@.len() >= 1,
                        result@[0] == source,
                        result@.no_duplicates(),
                        linked(result@, eqs),
                        forall|i: int| 0 <= i < result@.len() ==> result@[i] <= m,
                        forall|k2: int, pb: int| 0 <= k2 < eqs.len() && 0 <= pb < eqs[k2]@.len()
                            ==> (#[trigger] eqs[k2]@[pb]).1 <= m,
                        forall|q: int| 0 <= q < p ==> result@.contains((#[trigger] c@[q]).1),
                        result@ == absorb(before, c@.take(p as int)),
                    decreases c@.len() - p,
                {
                    let s = c[p].1;
                    assert(c@.take(p + 1).drop_last() =~= c@.take(p as int));
                    if !contains_source(&result, s) {
                        proof {
                            assert(mentions(eqs[k as int]@, s)) by {
                                assert(c@[p as int].1 == s);
                            }
                            lemma_push_linked(result@, eqs, s, k as int, l);
                        }
                        let ghost prev = result@;
                        result.push(s);
                        assert(result@.no_duplicates()) by {
                            assert forall|i: int, j: int| 0 <= i < j < result@.len() implies result@[i] != result@[j] by {
                                if j == prev.len() {
                                    assert(prev[i] == result@[i]);
                                } else {
                                    assert(prev[i] == result@[i] && prev[j] == result@[j]);
                                }
                            }
                        }
                        assert forall|q: int| 0 <= q <= p implies result@.contains((#[trigger] c@[q]).1) by {
                            if q < p {
                                let i = choose|i: int| 0 <= i < prev.len() && prev[i] == c@[q].1;
                                assert(result@[i] == prev[i]);
                            } else {
                                assert(result@[prev.len() as int] == s);
                            }
                        }
                    }
                    p = p + 1;
                }
                assert(c@.take(c@.len() as int) =~= c@);
                if result.len() == start_len {
                    assert(result@ =~= before);
                }
            }
            k = k + 1;
        }
        assert(eqs.take(eqs.len() as int) =~= eqs);
        proof {
            lemma_iterate_split(seq![source], eqs, iters, 1);
            assert(iterate(start, eqs, 1) == iterate(scan(start, eqs), eqs, 0));
            assert(result@ == scan(start, eqs));
            iters = iters + 1;
        }
        if result.len() == start_len {
            assert(result@ =~= start);
            assert forall|q: int, p: int|
                0 <= q < eqs.len() && touches(eqs[q]@, result@) && 0 <= p < eqs[q]@.len()
                    implies result@.contains((#[trigger] eqs[q]@[p]).1) by {
                assert(q < k);
            }
            break;
        }
        proof {
            lemma_distinct_bounded(result@, m);
        }
    }
    result
}

proof fn lemma_prefix_within(seed: usize, eqs: Seq<Vec<AttrRef>>, r1: Seq<usize>, r2: Seq<usize>, n: int)
    requires
        is_join_order(seed, eqs, r1),
        is_join_order(seed, eqs, r2),
        0 <= n <= r1.len(),
    ensures
        forall|m: int| 0 <= m < n ==> r2.contains(#[trigger] r1[m]),
    decreases n,
{
    if n > 0 {
        lemma_prefix_within(seed, eqs, r1, r2, n - 1);
        let m = n - 1;
        if m == 0 {
            assert(r2[0] == r1[0]);
        } else {
            assert(linked_at(r1, eqs, m));
            let (k, l) = choose|k: int, l: int|
                0 <= k < eqs.len() && 0 <= l < m && #[trigger] mentions(eqs[k]@, r1[l])
                    && mentions(eqs[k]@, r1[m]);
            assert(r2.contains(r1[l]));
            let p = choose|p: int| 0 <= p < eqs[k]@.len() && (#[trigger] eqs[k]@[p]).1 == r1[l];
            assert(touches(eqs[k]@, r2));
            let pb = choose|pb: int| 0 <= pb < eqs[k]@.len() && (#[trigger] eqs[k]@[pb]).1 == r1[m];
            assert(r2.contains(eqs[k]@[pb].1));
        }
    }
}

/// A join order is determined as a set: any two join orders from one seed
/// over the same constraints hold the same sources, so each source reachable
/// from the seed appears in `plan_join_order`'s result exactly once and no
/// other does.
pub proof fn lemma_join_order_same_sources(seed: usize, eqs: Seq<Vec<AttrRef>>, r1: Seq<usize>, r2: Seq<usize>)
    requires
        is_join_order(seed, eqs, r1),
        is_join_order(seed, eqs, r2),
    ensures
        forall|s: usize| r1.contains(s) <==> r2.contains(s),
        r1.len() == r2.len(),
{
    lemma_prefix_within(seed, eqs, r1, r2, r1.len() as int);
    lemma_prefix_within(seed, eqs, r2, r1, r2.len() as int);
    assert forall|s: usize| r1.contains(s) <==> r2.contains(s) by {
        if r1.contains(s) {
            let m = choose|m: int| 0 <= m < r1.len() && r1[m] == s;
            assert(r2.contains(r1[m]));
        }
        if r2.contains(s) {
            let m = choose|m: int| 0 <= m < r2.len() && r2[m] == s;
            assert(r1.contains(r2[m]));
        }
    }
    r1.unique_seq_to_set();
    r2.unique_seq_to_set();
    assert(r1.to_set() =~= r2.to_set());
}

} // verus!
