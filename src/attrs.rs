//! Attribute references and the set of attributes a join must retain.

use vstd::prelude::*;

verus! {

/// An attribute reference: (attribute index, source index).
pub type AttrRef = (usize, usize);

/// Lexicographic order on attribute references.
pub open spec fn ref_lt(a: AttrRef, b: AttrRef) -> bool {
    a.0 < b.0 || (a.0 == b.0 && a.1 < b.1)
}

pub open spec fn strictly_sorted(s: Seq<AttrRef>) -> bool {
    forall|i: int, j: int| 0 <= i < j < s.len() ==> ref_lt(#[trigger] s[i], #[trigger] s[j])
}

/// `x` appears in some equality constraint.
pub open spec fn in_equalities(eqs: Seq<Vec<AttrRef>>, x: AttrRef) -> bool {
    exists|k: int| 0 <= k < eqs.len() && (#[trigger] eqs[k])@.contains(x)
}

/// `x` is a result attribute or takes part in an equality constraint.
pub open spec fn is_relevant(results: Seq<AttrRef>, eqs: Seq<Vec<AttrRef>>, x: AttrRef) -> bool {
    results.contains(x) || in_equalities(eqs, x)
}

/// A prefix one longer holds exactly one more element.
pub proof fn lemma_take_one_more<A>(s: Seq<A>, i: int)
    requires
        0 <= i < s.len(),
    ensures
        forall|x: A| s.take(i + 1).contains(x) <==> (s.take(i).contains(x) || x == s[i]),
{
    let t = s.take(i + 1);
    let u = s.take(i);
    assert forall|x: A| t.contains(x) <==> (u.contains(x) || x == s[i]) by {
        if t.contains(x) {
            let k = choose|k: int| 0 <= k < t.len() && t[k] == x;
            if k < i {
                assert(u[k] == x);
            }
        }
        if u.contains(x) {
            let k = choose|k: int| 0 <= k < u.len() && u[k] == x;
            assert(t[k] == x);
        }
        if x == s[i] {
            assert(t[i] == x);
        }
    }
}

/// Adds `x` to a strictly sorted list, keeping it strictly sorted.
fn insert_sorted(v: &mut Vec<AttrRef>, x: AttrRef)
    requires
        strictly_sorted(old(v)@),
    ensures
        strictly_sorted(final(v)@),
        forall|y: AttrRef| #[trigger] final(v)@.contains(y) <==> (old(v)@.contains(y) || y == x),
{
    let mut i: usize = 0;
    while i < v.len() && (v[i].0 < x.0 || (v[i].0 == x.0 && v[i].1 < x.1))
        invariant
            i <= v.len(),
            forall|k: int| 0 <= k < i ==> ref_lt(#[trigger] v@[k], x),
        decreases v.len() - i,
    {
        i = i + 1;
    }
    if i < v.len() && v[i].0 == x.0 && v[i].1 == x.1 {
        assert(v@[i as int] == x);
        return;
    }
    let ghost pre = v@;
    v.insert(i, x);
    assert forall|a: int, b: int| 0 <= a < b < v@.len() implies ref_lt(#[trigger] v@[a], #[trigger] v@[b]) by {
        if b < i {
            assert(v@[a] == pre[a] && v@[b] == pre[b]);
        } else if b == i {
            assert(v@[a] == pre[a]);
        } else if a == i {
            assert(v@[b] == pre[b - 1]);
            assert(ref_lt(x, pre[i as int]));
            if b - 1 > i {
                assert(ref_lt(pre[i as int], pre[b - 1]));
            }
        } else if a < i {
            assert(v@[a] == pre[a] && v@[b] == pre[b - 1]);
        } else {
            assert(v@[a] == pre[a - 1] && v@[b] == pre[b - 1]);
        }
    }
    assert forall|y: AttrRef| #[trigger] v@.contains(y) <==> (pre.contains(y) || y == x) by {
        if v@.contains(y) {
            let k = choose|k: int| 0 <= k < v@.len() && v@[k] == y;
            if k < i {
                assert(pre[k] == y);
            } else if k > i {
                assert(pre[k - 1] == y);
            }
        }
        if pre.contains(y) {
            let k = choose|k: int| 0 <= k < pre.len() && pre[k] == y;
            if k < i {
                assert(v@[k] == y);
            } else {
                assert(v@[k + 1] == y);
            }
        }
        if y == x {
            assert(v@[i as int] == y);
        }
    }
}

/// The attributes any step of the join needs: every result attribute and every
/// attribute named in an equality constraint, without duplicates, in
/// lexicographic order.
pub fn relevant_attributes(results: &[AttrRef], equalities: &[Vec<AttrRef>]) -> (r: Vec<AttrRef>)
    ensures
        strictly_sorted(r@),
        forall|x: AttrRef| r@.contains(x) <==> is_relevant(results@, equalities@, x),
{
    let mut r: Vec<AttrRef> = Vec::new();
    let mut i: usize = 0;
    while i < results.len()
        invariant
            i <= results@.len(),
            strictly_sorted(r@),
            forall|x: AttrRef| r@.contains(x) <==> results@.take(i as int).contains(x),
        decreases results@.len() - i,
    {
        insert_sorted(&mut r, results[i]);
        proof { lemma_take_one_more(results@, i as int); }
        i = i + 1;
    }
    assert(results@.take(results@.len() as int) =~= results@);
    let mut k: usize = 0;
    while k < equalities.len()
        invariant
            k <= equalities@.len(),
            strictly_sorted(r@),
            forall|x: AttrRef| r@.contains(x) <==> (results@.contains(x) || exists|q: int| 0 <= q < k && (#[trigger] equalities@[q])@.contains(x)),
        decreases equalities@.len() - k,
    {
        let list = &equalities[k];
        let mut j: usize = 0;
        while j < list.len()
            invariant
                k < equalities@.len(),
                list == equalities@[k as int],
                j <= list@.len(),
                strictly_sorted(r@),
                forall|x: AttrRef| r@.contains(x) <==> (results@.contains(x)
                    || (exists|q: int| 0 <= q < k && (#[trigger] equalities@[q])@.contains(x))
                    || list@.take(j as int).contains(x)),
            decreases list@.len() - j,
        {
            insert_sorted(&mut r, list[j]);
            proof { lemma_take_one_more(list@, j as int); }
            j = j + 1;
        }
        assert(list@.take(list@.len() as int) =~= list@);
        assert forall|x: AttrRef| r@.contains(x) <==> (results@.contains(x) || exists|q: int| 0 <= q < k + 1 && (#[trigger] equalities@[q])@.contains(x)) by {
            if list@.contains(x) {
                assert(equalities@[k as int]@.contains(x));
            }
            if exists|q: int| 0 <= q < k + 1 && (#[trigger] equalities@[q])@.contains(x) {
                let q = choose|q: int| 0 <= q < k + 1 && (#[trigger] equalities@[q])@.contains(x);
                if q < k {
                } else {
                    assert(list@.contains(x));
                }
            }
        }
        k = k + 1;
    }
    r
}

/// A strictly sorted list is determined by its elements.
pub proof fn lemma_sorted_unique(a: Seq<AttrRef>, b: Seq<AttrRef>)
    requires
        strictly_sorted(a),
        strictly_sorted(b),
        forall|x: AttrRef| a.contains(x) <==> b.contains(x),
    ensures
        a == b,
    decreases a.len(),
{
    if a.len() == 0 {
        if b.len() > 0 {
            assert(b.contains(b[0]));
        }
        assert(b =~= a);
    } else if b.len() == 0 {
        assert(a.contains(a[0]));
    } else {
        assert(a.contains(a[0]));
        assert(b.contains(b[0]));
        let j = choose|j: int| 0 <= j < b.len() && b[j] == a[0];
        let i = choose|i: int| 0 <= i < a.len() && a[i] == b[0];
        if j > 0 {
            assert(ref_lt(b[0], b[j]));
            if i > 0 {
                assert(ref_lt(a[0], a[i]));
            }
        }
        assert(a[0] == b[0]);
        let a1 = a.drop_first();
        let b1 = b.drop_first();
        assert forall|x: AttrRef| a1.contains(x) <==> b1.contains(x) by {
            if a1.contains(x) {
                let p = choose|p: int| 0 <= p < a1.len() && a1[p] == x;
                assert(a[p + 1] == x);
                assert(ref_lt(a[0], a[p + 1]));
                assert(b.contains(x));
                let q = choose|q: int| 0 <= q < b.len() && b[q] == x;
                assert(q != 0);
                assert(b1[q - 1] == x);
            }
            if b1.contains(x) {
                let p = choose|p: int| 0 <= p < b1.len() && b1[p] == x;
                assert(b[p + 1] == x);
                assert(ref_lt(b[0], b[p + 1]));
                assert(a.contains(x));
                let q = choose|q: int| 0 <= q < a.len() && a[q] == x;
                assert(q != 0);
                assert(a1[q - 1] == x);
            }
        }
        assert(strictly_sorted(a1)) by {
            assert forall|x: int, y: int| 0 <= x < y < a1.len() implies ref_lt(#[trigger] a1[x], #[trigger] a1[y]) by {
                assert(a1[x] == a[x + 1] && a1[y] == a[y + 1]);
            }
        }
        assert(strictly_sorted(b1)) by {
            assert forall|x: int, y: int| 0 <= x < y < b1.len() implies ref_lt(#[trigger] b1[x], #[trigger] b1[y]) by {
                assert(b1[x] == b[x + 1] && b1[y] == b[y + 1]);
            }
        }
        lemma_sorted_unique(a1, b1);
        assert(a =~= b) by {
            assert forall|k: int| 0 <= k < a.len() implies a[k] == b[k] by {
                if k > 0 {
                    assert(a[k] == a1[k - 1] && b[k] == b1[k - 1]);
                }
            }
        }
    }
}

} // verus!
