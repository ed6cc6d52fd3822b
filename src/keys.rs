//! Join keys and the positions of their matching values when a relation is
//! folded into a partly built tuple.

use vstd::prelude::*;
use crate::attrs::{AttrRef, in_equalities};

verus! {

/// The first position of `cur` holding an attribute named in `c`.
pub open spec fn first_in(cur: Seq<AttrRef>, c: Seq<AttrRef>) -> Option<int>
    decreases cur.len(),
{
    if cur.len() == 0 {
        None
    } else {
        match first_in(cur.drop_last(), c) {
            Some(p) => Some(p),
            None => if c.contains(cur.last()) {
                Some(cur.len() - 1)
            } else {
                None
            },
        }
    }
}

/// The attribute indices of `relation` named in `c`, in the order of `c`.
pub open spec fn attrs_of(c: Seq<AttrRef>, relation: usize) -> Seq<usize>
    decreases c.len(),
{
    if c.len() == 0 {
        Seq::empty()
    } else if c.last().1 == relation {
        attrs_of(c.drop_last(), relation).push(c.last().0)
    } else {
        attrs_of(c.drop_last(), relation)
    }
}

/// Keys and priors: for each constraint, in order, that names an attribute of
/// `cur`, each attribute of `relation` it names becomes a key, paired with the
/// first position of `cur` that the constraint names.
pub open spec fn keys_priors(relation: usize, eqs: Seq<Vec<AttrRef>>, cur: Seq<AttrRef>) -> (Seq<usize>, Seq<usize>)
    decreases eqs.len(),
{
    if eqs.len() == 0 {
        (Seq::empty(), Seq::empty())
    } else {
        let (k, p) = keys_priors(relation, eqs.drop_last(), cur);
        let c = eqs.last()@;
        match first_in(cur, c) {
            Some(q) => {
                let a = attrs_of(c, relation);
                (k + a, p + Seq::new(a.len(), |_i: int| q as usize))
            },
            None => (k, p),
        }
    }
}

/// Keys and priors are well formed: as many of one as of the other, each key
/// an attribute index of `relation` named by some constraint, each prior a
/// position of `cur`.
pub open spec fn keys_priors_well_formed(
    relation: usize,
    eqs: Seq<Vec<AttrRef>>,
    cur: Seq<AttrRef>,
    keys: Seq<usize>,
    priors: Seq<usize>,
) -> bool {
    &&& keys.len() == priors.len()
    &&& forall|i: int| 0 <= i < keys.len() ==> in_equalities(eqs, (#[trigger] keys[i], relation))
    &&& forall|i: int| 0 <= i < priors.len() ==> (#[trigger] priors[i]) < cur.len()
}

pub proof fn lemma_first_in_bounds(cur: Seq<AttrRef>, c: Seq<AttrRef>)
    ensures
        match first_in(cur, c) {
            Some(q) => 0 <= q < cur.len() && c.contains(cur[q]),
            None => true,
        },
    decreases cur.len(),
{
    if cur.len() > 0 {
        lemma_first_in_bounds(cur.drop_last(), c);
    }
}

proof fn lemma_first_in_prefix(s: Seq<AttrRef>, c: Seq<AttrRef>, j: int)
    requires
        0 <= j <= s.len(),
        first_in(s.take(j), c) is Some,
    ensures
        first_in(s, c) == first_in(s.take(j), c),
    decreases s.len(),
{
    if j == s.len() {
        assert(s.take(j) =~= s);
    } else {
        assert(s.drop_last().take(j) =~= s.take(j));
        lemma_first_in_prefix(s.drop_last(), c, j);
    }
}

pub proof fn lemma_attrs_of_named(c: Seq<AttrRef>, relation: usize)
    ensures
        forall|i: int| 0 <= i < attrs_of(c, relation).len()
            ==> c.contains((#[trigger] attrs_of(c, relation)[i], relation)),
    decreases c.len(),
{
    if c.len() > 0 {
        lemma_attrs_of_named(c.drop_last(), relation);
        let rest = attrs_of(c.drop_last(), relation);
        assert forall|i: int| 0 <= i < attrs_of(c, relation).len()
            implies c.contains((#[trigger] attrs_of(c, relation)[i], relation)) by {
            if i < rest.len() {
                assert(attrs_of(c, relation)[i] == rest[i]);
                let p = choose|p: int| 0 <= p < c.drop_last().len() && c.drop_last()[p] == (rest[i], relation);
                assert(c[p] == (rest[i], relation));
            } else {
                assert(c[c.len() - 1] == (attrs_of(c, relation)[i], relation));
            }
        }
    }
}

/// Whatever the relation, constraints and accumulated attributes, the keys and
/// priors that the resolver derives are well formed.
pub proof fn lemma_keys_priors_well_formed(relation: usize, eqs: Seq<Vec<AttrRef>>, cur: Seq<AttrRef>)
    ensures
        keys_priors_well_formed(relation, eqs, cur, keys_priors(relation, eqs, cur).0,
            keys_priors(relation, eqs, cur).1),
    decreases eqs.len(),
{
    if eqs.len() > 0 {
        let pre = eqs.drop_last();
        lemma_keys_priors_well_formed(relation, pre, cur);
        let (k, p) = keys_priors(relation, pre, cur);
        let c = eqs.last()@;
        lemma_first_in_bounds(cur, c);
        lemma_attrs_of_named(c, relation);
        let (k2, pb) = keys_priors(relation, eqs, cur);
        assert forall|i: int| 0 <= i < k2.len() implies in_equalities(eqs, (#[trigger] k2[i], relation)) by {
            if i < k.len() {
                assert(k2[i] == k[i]);
                assert(in_equalities(pre, (k[i], relation)));
                let q = choose|q: int| 0 <= q < pre.len() && (#[trigger] pre[q])@.contains((k[i], relation));
                assert(eqs[q] == pre[q]);
            } else {
                assert(eqs[eqs.len() - 1]@ == c);
                assert(c.contains((k2[i], relation)));
            }
        }
    }
}

pub(crate) fn contains_ref(c: &Vec<AttrRef>, x: AttrRef) -> (b: bool)
    ensures
        b == c@.contains(x),
{
    let mut i: usize = 0;
    while i < c.len()
        invariant
            i <= c@.len(),
            forall|j: int| 0 <= j < i ==> c@[j] != x,
        decreases c@.len() - i,
    {
        if c[i].0 == x.0 && c[i].1 == x.1 {
            assert(c@[i as int] == x);
            return true;
        }
        i = i + 1;
    }
    false
}

/// The first position of `cur` holding an attribute named in `c`.
fn first_position(cur: &[AttrRef], c: &Vec<AttrRef>) -> (r: Option<usize>)
    ensures
        match r {
            Some(q) => first_in(cur@, c@) == Some(q as int),
            None => first_in(cur@, c@) is None,
        },
{
    let mut i: usize = 0;
    while i < cur.len()
        invariant
            i <= cur@.len(),
            first_in(cur@.take(i as int), c@) is None,
        decreases cur@.len() - i,
    {
        assert(cur@.take(i + 1).drop_last() =~= cur@.take(i as int));
        if contains_ref(c, cur[i]) {
            proof {
                lemma_first_in_prefix(cur@, c@, i + 1);
            }
            return Some(i);
        }
        i = i + 1;
    }
    assert(cur@.take(cur@.len() as int) =~= cur@);
    None
}

/// Splits `relation`'s attributes that meet `current_attributes` through a
/// constraint into join keys (its local attribute indices) and priors (the
/// positions in `current_attributes` holding the matching values).
pub fn determine_keys_priors(
    relation: usize,
    constraints: &[Vec<AttrRef>],
    current_attributes: &[AttrRef],
) -> (r: (Vec<usize>, Vec<usize>))
    ensures
        (r.0@, r.1@) == keys_priors(relation, constraints@, current_attributes@),
        keys_priors_well_formed(relation, constraints@, current_attributes@, r.0@, r.1@),
{
    let mut keys: Vec<usize> = Vec::new();
    let mut priors: Vec<usize> = Vec::new();
    let mut k: usize = 0;
    while k < constraints.len()
        invariant
            k <= constraints@.len(),
            (keys@, priors@) == keys_priors(relation, constraints@.take(k as int), current_attributes@),
        decreases constraints@.len() - k,
    {
        assert(constraints@.take(k + 1).drop_last() =~= constraints@.take(k as int));
        let c = &constraints[k];
        if let Some(prior) = first_position(current_attributes, c) {
            let ghost kw = keys@;
            let ghost pw = priors@;
            let mut j: usize = 0;
            while j < c.len()
                invariant
                    j <= c@.len(),
                    keys@ == kw + attrs_of(c@.take(j as int), relation),
                    priors@ == pw + Seq::new(attrs_of(c@.take(j as int), relation).len(), |_i: int| prior),
                decreases c@.len() - j,
            {
                assert(c@.take(j + 1).drop_last() =~= c@.take(j as int));
                let (attr, index) = c[j];
                if index == relation {
                    keys.push(attr);
                    priors.push(prior);
                    assert(keys@ =~= kw + attrs_of(c@.take(j + 1), relation));
                    assert(priors@ =~= pw + Seq::new(attrs_of(c@.take(j + 1), relation).len(), |_i: int| prior));
                }
                j = j + 1;
            }
            assert(c@.take(c@.len() as int) =~= c@);
        }
        k = k + 1;
    }
    assert(constraints@.take(constraints@.len() as int) =~= constraints@);
    proof {
        lemma_keys_priors_well_formed(relation, constraints@, current_attributes@);
    }
    (keys, priors)
}

/// `c` names an attribute held in `cur`.
pub open spec fn meets(c: Seq<AttrRef>, cur: Seq<AttrRef>) -> bool {
    exists|p: int| 0 <= p < cur.len() && c.contains(#[trigger] cur[p])
}

pub proof fn lemma_first_in_some(cur: Seq<AttrRef>, c: Seq<AttrRef>)
    ensures
        first_in(cur, c) is Some <==> meets(c, cur),
    decreases cur.len(),
{
    if cur.len() > 0 {
        let d = cur.drop_last();
        lemma_first_in_some(d, c);
        if meets(c, d) {
            let p = choose|p: int| 0 <= p < d.len() && c.contains(#[trigger] d[p]);
            assert(c.contains(cur[p]));
        }
        if meets(c, cur) {
            let p = choose|p: int| 0 <= p < cur.len() && c.contains(#[trigger] cur[p]);
            if p < d.len() {
                assert(c.contains(d[p]));
            }
        }
    }
}

pub proof fn lemma_attrs_of_contains(c: Seq<AttrRef>, relation: usize, a: usize)
    ensures
        attrs_of(c, relation).contains(a) <==> c.contains((a, relation)),
    decreases c.len(),
{
    if c.len() > 0 {
        let d = c.drop_last();
        lemma_attrs_of_contains(d, relation, a);
        let rest = attrs_of(d, relation);
        if rest.contains(a) {
            let p = choose|p: int| 0 <= p < d.len() && d[p] == (a, relation);
            assert(c[p] == (a, relation));
            let i = choose|i: int| 0 <= i < rest.len() && rest[i] == a;
            assert(attrs_of(c, relation)[i] == a);
        }
        if c.contains((a, relation)) {
            let p = choose|p: int| 0 <= p < c.len() && c[p] == (a, relation);
            if p < d.len() {
                assert(d[p] == (a, relation));
            } else {
                assert(attrs_of(c, relation)[rest.len() as int] == a);
            }
        }
        if attrs_of(c, relation).contains(a) {
            let i = choose|i: int| 0 <= i < attrs_of(c, relation).len() && attrs_of(c, relation)[i] == a;
            if i < rest.len() {
                assert(rest[i] == a);
            } else {
                assert(c[c.len() - 1] == (a, relation));
            }
        }
    }
}

/// `a` is a key of `relation` exactly when some constraint names both
/// `(a, relation)` and an attribute of `cur`.
pub proof fn lemma_keys_contains(relation: usize, eqs: Seq<Vec<AttrRef>>, cur: Seq<AttrRef>, a: usize)
    ensures
        keys_priors(relation, eqs, cur).0.contains(a) <==> exists|k: int|
            0 <= k < eqs.len() && meets(eqs[k]@, cur) && (#[trigger] eqs[k])@.contains((a, relation)),
    decreases eqs.len(),
{
    if eqs.len() > 0 {
        let pre = eqs.drop_last();
        lemma_keys_contains(relation, pre, cur, a);
        let c = eqs.last()@;
        lemma_first_in_some(cur, c);
        lemma_attrs_of_contains(c, relation, a);
        let kw = keys_priors(relation, pre, cur).0;
        let k1 = keys_priors(relation, eqs, cur).0;
        if first_in(cur, c) is Some {
            let at = attrs_of(c, relation);
            assert(k1 == kw + at);
            if kw.contains(a) {
                let i = choose|i: int| 0 <= i < kw.len() && kw[i] == a;
                assert(k1[i] == a);
            }
            if at.contains(a) {
                let i = choose|i: int| 0 <= i < at.len() && at[i] == a;
                assert(k1[kw.len() + i] == a);
            }
            if k1.contains(a) {
                let i = choose|i: int| 0 <= i < k1.len() && k1[i] == a;
                if i < kw.len() {
                    assert(kw[i] == a);
                } else {
                    assert(at[i - kw.len()] == a);
                }
            }
        }
        if exists|k: int| 0 <= k < eqs.len() && meets(eqs[k]@, cur) && (#[trigger] eqs[k])@.contains((a, relation)) {
            let k = choose|k: int| 0 <= k < eqs.len() && meets(eqs[k]@, cur) && (#[trigger] eqs[k])@.contains((a, relation));
            if k < pre.len() {
                assert(pre[k] == eqs[k]);
            }
        }
        if exists|k: int| 0 <= k < pre.len() && meets(pre[k]@, cur) && (#[trigger] pre[k])@.contains((a, relation)) {
            let k = choose|k: int| 0 <= k < pre.len() && meets(pre[k]@, cur) && (#[trigger] pre[k])@.contains((a, relation));
            assert(eqs[k] == pre[k]);
        }
    }
}

} // verus!
