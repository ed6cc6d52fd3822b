//! The multiway join plan and the planning of its delta queries.

use vstd::prelude::*;
use crate::attrs::{AttrRef, in_equalities, is_relevant, lemma_sorted_unique, relevant_attributes, strictly_sorted};
use crate::keys::{contains_ref, determine_keys_priors, keys_priors, lemma_keys_contains, meets};
use crate::order::{contains_source, is_join_order, lemma_join_order_deterministic, scans_to, lemma_join_order_same_sources, linked_at, mentions, plan_join_order};
use crate::cache::{ArrangementCache, KeyView};
use vstd::set_lib::{lemma_int_range, lemma_len_subset, set_int_range};
use crate::timestamp::{enters_neu, sees};

verus! {

/// A source plan: its identity, by which arrangements of it are shared, and
/// the number of attributes of its tuples.
#[derive(Clone, Copy, Debug, PartialEq, Eq, Hash, Structural)]
pub struct SourcePlan {
    pub plan: u64,
    pub arity: usize,
}

/// A join of several sources under equality constraints between their
/// attributes, projected onto `results`. Plans are compared by value.
#[derive(Debug, PartialEq, Eq, Hash)]
pub struct MultiwayJoin {
    /// The (attribute index, source index) pairs to produce, in order.
    pub results: Vec<AttrRef>,
    /// The source plans.
    pub sources: Vec<SourcePlan>,
    /// Equality constraints, each a list of attribute references required
    /// equal; an attribute reference appears in at most one list.
    pub equalities: Vec<Vec<AttrRef>>,
}

/// Why a join cannot be planned.
#[derive(Clone, Copy, Debug, PartialEq, Eq)]
pub enum PlanError {
    /// This attribute reference names a source that does not exist.
    SourceOutOfRange(AttrRef),
    /// This attribute reference names an attribute past its source's arity.
    AttributeOutOfRange(AttrRef),
    /// This attribute reference appears in two equality lists.
    SharedAttribute(AttrRef),
    /// Some source is not reachable through the equality constraints.
    Disconnected,
    /// No accumulated attribute holds a result attribute's value; planning a
    /// valid join never ends here.
    UnresolvedResult,
}

/// Every attribute reference names one of `n` sources.
pub open spec fn refs_in_range(results: Seq<AttrRef>, eqs: Seq<Vec<AttrRef>>, n: nat) -> bool {
    &&& forall|i: int| 0 <= i < results.len() ==> (#[trigger] results[i]).1 < n
    &&& forall|k: int, p: int| 0 <= k < eqs.len() && 0 <= p < eqs[k]@.len()
        ==> (#[trigger] eqs[k]@[p]).1 < n
}

/// No two lists share an attribute reference.
pub open spec fn lists_disjoint(eqs: Seq<Vec<AttrRef>>) -> bool {
    forall|k1: int, k2: int, pa: int, pb: int|
        0 <= k1 < k2 < eqs.len() && 0 <= pa < eqs[k1]@.len() && 0 <= pb < eqs[k2]@.len()
            ==> #[trigger] eqs[k1]@[pa] != #[trigger] eqs[k2]@[pb]
}

/// `x` names an existing source and one of its attributes.
pub open spec fn ref_ok(sources: Seq<SourcePlan>, x: AttrRef) -> bool {
    x.1 < sources.len() && x.0 < sources[x.1 as int].arity
}

/// Every attribute reference of the join is in range.
pub open spec fn refs_ok(j: MultiwayJoin) -> bool {
    &&& forall|i: int| 0 <= i < j.results@.len() ==> ref_ok(j.sources@, #[trigger] j.results@[i])
    &&& forall|k: int, p: int| 0 <= k < j.equalities@.len() && 0 <= p < j.equalities@[k]@.len()
        ==> ref_ok(j.sources@, #[trigger] j.equalities@[k]@[p])
}

/// The join can be planned: references in range, equality lists disjoint.
pub open spec fn plan_valid(j: MultiwayJoin) -> bool {
    refs_ok(j) && lists_disjoint(j.equalities@)
}

/// The join names `x`, in its results or its equality lists.
pub open spec fn names(j: MultiwayJoin, x: AttrRef) -> bool {
    j.results@.contains(x) || in_equalities(j.equalities@, x)
}

/// `e` is a validation error that the join exhibits.
pub open spec fn explains(j: MultiwayJoin, e: PlanError) -> bool {
    match e {
        PlanError::SourceOutOfRange(x) => names(j, x) && x.1 >= j.sources@.len(),
        PlanError::AttributeOutOfRange(x) => names(j, x) && x.1 < j.sources@.len()
            && x.0 >= j.sources@[x.1 as int].arity,
        PlanError::SharedAttribute(x) => refs_ok(j) && exists|k1: int, k2: int|
            0 <= k1 < k2 < j.equalities@.len() && (#[trigger] j.equalities@[k1])@.contains(x)
                && (#[trigger] j.equalities@[k2])@.contains(x),
        _ => false,
    }
}

/// A reference of `s` out of range, if any.
fn bad_ref(s: &Vec<AttrRef>, sources: &Vec<SourcePlan>) -> (r: Option<AttrRef>)
    ensures
        match r {
            Some(x) => s@.contains(x) && !ref_ok(sources@, x),
            None => forall|i: int| 0 <= i < s@.len() ==> ref_ok(sources@, #[trigger] s@[i]),
        },
{
    let mut i: usize = 0;
    while i < s.len()
        invariant
            i <= s@.len(),
            forall|q: int| 0 <= q < i ==> ref_ok(sources@, #[trigger] s@[q]),
        decreases s@.len() - i,
    {
        let x = s[i];
        if x.1 >= sources.len() || x.0 >= sources[x.1].arity {
            assert(s@[i as int] == x);
            return Some(x);
        }
        i = i + 1;
    }
    None
}

fn range_error(x: AttrRef, sources: &Vec<SourcePlan>) -> (e: PlanError)
    requires
        !ref_ok(sources@, x),
    ensures
        x.1 >= sources@.len() ==> e == PlanError::SourceOutOfRange(x),
        x.1 < sources@.len() ==> e == PlanError::AttributeOutOfRange(x),
{
    if x.1 >= sources.len() {
        PlanError::SourceOutOfRange(x)
    } else {
        PlanError::AttributeOutOfRange(x)
    }
}

/// An attribute reference both lists hold, if any.
fn shared_ref(a: &Vec<AttrRef>, b: &Vec<AttrRef>) -> (r: Option<AttrRef>)
    ensures
        match r {
            Some(x) => a@.contains(x) && b@.contains(x),
            None => forall|pa: int, pb: int| 0 <= pa < a@.len() && 0 <= pb < b@.len()
                ==> #[trigger] a@[pa] != #[trigger] b@[pb],
        },
{
    let mut i: usize = 0;
    while i < a.len()
        invariant
            i <= a@.len(),
            forall|pa: int, pb: int| 0 <= pa < i && 0 <= pb < b@.len()
                ==> #[trigger] a@[pa] != #[trigger] b@[pb],
        decreases a@.len() - i,
    {
        if contains_ref(b, a[i]) {
            assert(a@[i as int] == a[i as int]);
            return Some(a[i]);
        }
        i = i + 1;
    }
    None
}

impl MultiwayJoin {
    /// Checks that every attribute reference names an existing source and
    /// one of its attributes, and that no reference appears in two equality
    /// lists; an error names the first offending reference.
    pub fn validate(&self) -> (r: Result<(), PlanError>)
        ensures
            r is Ok <==> plan_valid(*self),
            match r {
                Ok(_) => true,
                Err(e) => explains(*self, e),
            },
    {
        if let Some(x) = bad_ref(&self.results, &self.sources) {
            return Err(range_error(x, &self.sources));
        }
        let eqs = &self.equalities;
        let mut k: usize = 0;
        while k < eqs.len()
            invariant
                k <= eqs@.len(),
                eqs@ == self.equalities@,
                forall|i: int| 0 <= i < self.results@.len() ==> ref_ok(self.sources@, #[trigger] self.results@[i]),
                forall|q: int, p: int| 0 <= q < k && 0 <= p < eqs@[q]@.len()
                    ==> ref_ok(self.sources@, #[trigger] eqs@[q]@[p]),
            decreases eqs@.len() - k,
        {
            if let Some(x) = bad_ref(&eqs[k], &self.sources) {
                proof {
                    assert(self.equalities@[k as int]@.contains(x));
                    assert(in_equalities(self.equalities@, x));
                    let i = choose|i: int| 0 <= i < eqs@[k as int]@.len() && eqs@[k as int]@[i] == x;
                    assert(!ref_ok(self.sources@, self.equalities@[k as int]@[i]));
                }
                return Err(range_error(x, &self.sources));
            }
            k = k + 1;
        }
        assert(refs_ok(*self));
        let mut k1: usize = 0;
        while k1 < eqs.len()
            invariant
                k1 <= eqs@.len(),
                eqs@ == self.equalities@,
                refs_ok(*self),
                forall|q1: int, q2: int, pa: int, pb: int|
                    0 <= q1 < k1 && q1 < q2 < eqs@.len() && 0 <= pa < eqs@[q1]@.len() && 0 <= pb < eqs@[q2]@.len()
                        ==> #[trigger] eqs@[q1]@[pa] != #[trigger] eqs@[q2]@[pb],
            decreases eqs@.len() - k1,
        {
            let mut k2: usize = k1 + 1;
            while k2 < eqs.len()
                invariant
                    k1 < k2 <= eqs@.len(),
                    eqs@ == self.equalities@,
                    refs_ok(*self),
                    forall|q1: int, q2: int, pa: int, pb: int|
                        0 <= q1 < k1 && q1 < q2 < eqs@.len() && 0 <= pa < eqs@[q1]@.len() && 0 <= pb < eqs@[q2]@.len()
                            ==> #[trigger] eqs@[q1]@[pa] != #[trigger] eqs@[q2]@[pb],
                    forall|q2: int, pa: int, pb: int|
                        k1 < q2 < k2 && 0 <= pa < eqs@[k1 as int]@.len() && 0 <= pb < eqs@[q2]@.len()
                            ==> #[trigger] eqs@[k1 as int]@[pa] != #[trigger] eqs@[q2]@[pb],
                decreases eqs@.len() - k2,
            {
                if let Some(x) = shared_ref(&eqs[k1], &eqs[k2]) {
                    proof {
                        assert(self.equalities@[k1 as int]@.contains(x));
                        assert(self.equalities@[k2 as int]@.contains(x));
                    }
                    return Err(PlanError::SharedAttribute(x));
                }
                k2 = k2 + 1;
            }
            k1 = k1 + 1;
        }
        Ok(())
    }
}


/// The attributes of `source` in `s`, in order.
pub open spec fn refs_of(s: Seq<AttrRef>, source: usize) -> Seq<AttrRef>
    decreases s.len(),
{
    if s.len() == 0 {
        Seq::empty()
    } else if s.last().1 == source {
        refs_of(s.drop_last(), source).push(s.last())
    } else {
        refs_of(s.drop_last(), source)
    }
}

/// The attributes of `relation` in `s` whose index is not a key, in order.
pub open spec fn vals_of(s: Seq<AttrRef>, relation: usize, keys: Seq<usize>) -> Seq<AttrRef>
    decreases s.len(),
{
    if s.len() == 0 {
        Seq::empty()
    } else if s.last().1 == relation && !keys.contains(s.last().0) {
        vals_of(s.drop_last(), relation, keys).push(s.last())
    } else {
        vals_of(s.drop_last(), relation, keys)
    }
}

pub proof fn lemma_refs_of_contains(s: Seq<AttrRef>, source: usize)
    ensures
        forall|x: AttrRef| #[trigger] refs_of(s, source).contains(x) <==> (s.contains(x) && x.1 == source),
    decreases s.len(),
{
    if s.len() > 0 {
        let d = s.drop_last();
        lemma_refs_of_contains(d, source);
        let r = refs_of(s, source);
        let rd = refs_of(d, source);
        assert forall|x: AttrRef| #[trigger] r.contains(x) <==> (s.contains(x) && x.1 == source) by {
            if r.contains(x) {
                let i = choose|i: int| 0 <= i < r.len() && r[i] == x;
                if i < rd.len() {
                    assert(rd[i] == x);
                    assert(rd.contains(x));
                    let p = choose|p: int| 0 <= p < d.len() && d[p] == x;
                    assert(s[p] == x);
                } else {
                    assert(s[s.len() - 1] == x);
                }
            }
            if s.contains(x) && x.1 == source {
                let p = choose|p: int| 0 <= p < s.len() && s[p] == x;
                if p < d.len() {
                    assert(d[p] == x);
                    assert(rd.contains(x));
                    let i = choose|i: int| 0 <= i < rd.len() && rd[i] == x;
                    assert(r[i] == x);
                } else {
                    assert(r[rd.len() as int] == x);
                }
            }
        }
    }
}

pub proof fn lemma_vals_of_contains(s: Seq<AttrRef>, relation: usize, keys: Seq<usize>)
    ensures
        forall|x: AttrRef| #[trigger] vals_of(s, relation, keys).contains(x)
            <==> (s.contains(x) && x.1 == relation && !keys.contains(x.0)),
    decreases s.len(),
{
    if s.len() > 0 {
        let d = s.drop_last();
        lemma_vals_of_contains(d, relation, keys);
        let r = vals_of(s, relation, keys);
        let rd = vals_of(d, relation, keys);
        assert forall|x: AttrRef| #[trigger] r.contains(x) <==> (s.contains(x) && x.1 == relation && !keys.contains(x.0)) by {
            if r.contains(x) {
                let i = choose|i: int| 0 <= i < r.len() && r[i] == x;
                if i < rd.len() {
                    assert(rd[i] == x);
                    assert(rd.contains(x));
                    let p = choose|p: int| 0 <= p < d.len() && d[p] == x;
                    assert(s[p] == x);
                } else {
                    assert(s[s.len() - 1] == x);
                }
            }
            if s.contains(x) && x.1 == relation && !keys.contains(x.0) {
                let p = choose|p: int| 0 <= p < s.len() && s[p] == x;
                if p < d.len() {
                    assert(d[p] == x);
                    assert(rd.contains(x));
                    let i = choose|i: int| 0 <= i < rd.len() && rd[i] == x;
                    assert(r[i] == x);
                } else {
                    assert(r[rd.len() as int] == x);
                }
            }
        }
    }
}

/// The columns an arrangement of a joined relation keeps: keys, then values.
pub open spec fn projection_spec(keys: Seq<usize>, vals: Seq<AttrRef>) -> Seq<usize> {
    keys + vals.map_values(|a: AttrRef| a.0)
}

/// The attributes of the tuple once the relations `order[1..m]` have been
/// folded into the attributes of `order[0]`, each appending its values.
pub open spec fn accumulated(eqs: Seq<Vec<AttrRef>>, relevant: Seq<AttrRef>, order: Seq<usize>, m: nat) -> Seq<AttrRef>
    decreases m,
{
    if m <= 1 {
        refs_of(relevant, order[0])
    } else {
        let prev = accumulated(eqs, relevant, order, (m - 1) as nat);
        let rel = order[m - 1];
        prev + vals_of(relevant, rel, keys_priors(rel, eqs, prev).0)
    }
}

/// The delta query of `index` can be planned: its join order reaches every
/// source, and every result attribute's value is held by an accumulated
/// attribute (itself, or one that an equality constraint names with it).
pub open spec fn branch_succeeds(j: MultiwayJoin, relevant: Seq<AttrRef>, index: usize) -> bool {
    exists|o: Seq<usize>| #[trigger] scans_to(index, j.equalities@, o) && o.len() == j.sources@.len()
        && forall|i: int| 0 <= i < j.results@.len()
            ==> resolvable(j.equalities@, accumulated(j.equalities@, relevant, o, o.len()), #[trigger] j.results@[i])
}

/// `rel` is the strictly sorted list of the join's relevant attributes.
pub open spec fn is_relevant_list(j: MultiwayJoin, rel: Seq<AttrRef>) -> bool {
    &&& strictly_sorted(rel)
    &&& forall|x: AttrRef| rel.contains(x) <==> is_relevant(j.results@, j.equalities@, x)
}

/// From every source the join order reaches all sources.
#[verifier::opaque]
pub open spec fn all_connected(j: MultiwayJoin) -> bool {
    forall|i: usize, o: Seq<usize>| i < j.sources@.len() && #[trigger] is_join_order(i, j.equalities@, o)
        ==> o.len() == j.sources@.len()
}

/// The delta query of every source can be planned.
pub open spec fn all_branches_succeed(j: MultiwayJoin) -> bool {
    forall|rel: Seq<AttrRef>, i: usize| is_relevant_list(j, rel) && i < j.sources@.len()
        ==> #[trigger] branch_succeeds(j, rel, i)
}

/// One relation folded into a delta query.
pub struct JoinStep {
    /// The source index of the relation.
    pub relation: usize,
    /// Its attribute indices matched against the tuple built so far.
    pub keys: Vec<usize>,
    /// For each key, the position of the matching value in that tuple.
    pub priors: Vec<usize>,
    /// Its attributes appended to the tuple.
    pub vals: Vec<AttrRef>,
    /// Its columns kept in the arrangement: keys, then values.
    pub projection: Vec<usize>,
    /// Its arrangement enters the delta query at the `neu` variant.
    pub neu: bool,
    /// The handle of its arrangement.
    pub arrangement: usize,
    /// How many attributes the tuple holds before this step.
    pub prefix_len: usize,
}

/// The delta query answering changes of one source.
pub struct DeltaBranch {
    pub source: usize,
    /// The source's own attributes, the tuple's first columns.
    pub initial: Vec<AttrRef>,
    /// The handle of the source's arrangement by whole tuple.
    pub changes: usize,
    pub order: Vec<usize>,
    pub steps: Vec<JoinStep>,
    /// The attributes of the complete tuple, in order.
    pub attributes: Vec<AttrRef>,
    /// For each result attribute, its position in `attributes`.
    pub extract: Vec<usize>,
}

#[verifier::opaque]
pub open spec fn step_ok(
    j: MultiwayJoin,
    relevant: Seq<AttrRef>,
    index: usize,
    attributes: Seq<AttrRef>,
    st: JoinStep,
    cache: Seq<KeyView>,
) -> bool {
    &&& st.relation < j.sources@.len()
    &&& st.prefix_len + st.vals@.len() <= attributes.len()
    &&& (st.keys@, st.priors@) == keys_priors(st.relation, j.equalities@, attributes.take(st.prefix_len as int))
    &&& st.keys@.len() > 0
    &&& st.vals@ == vals_of(relevant, st.relation, st.keys@)
    &&& attributes.subrange(st.prefix_len as int, st.prefix_len + st.vals@.len()) == st.vals@
    &&& st.projection@ == projection_spec(st.keys@, st.vals@)
    &&& st.neu == enters_neu(st.relation, index)
    &&& st.arrangement < cache.len()
    &&& cache[st.arrangement as int] == (j.sources@[st.relation as int].plan, Some(st.projection@), Some(st.keys@))
}

/// Where the tuple ends after the first `k` steps.
pub open spec fn end_after(initial_len: nat, steps: Seq<JoinStep>, k: int) -> nat {
    if k <= 0 {
        initial_len
    } else {
        (steps[k - 1].prefix_len + steps[k - 1].vals@.len()) as nat
    }
}

/// `b` is the delta query of source `index`: its own relevant attributes
/// first, then each relation of the join order in turn, keyed and valued as
/// the resolver says, and the results read from the complete tuple.
pub open spec fn branch_ok(
    j: MultiwayJoin,
    relevant: Seq<AttrRef>,
    index: usize,
    b: DeltaBranch,
    cache: Seq<KeyView>,
) -> bool {
    let attrs = b.attributes@;
    let steps = b.steps@;
    &&& b.source == index
    &&& index < j.sources@.len()
    &&& b.initial@ == refs_of(relevant, index)
    &&& b.changes < cache.len()
    &&& cache[b.changes as int] == (j.sources@[index as int].plan, None::<Seq<usize>>, None::<Seq<usize>>)
    &&& is_join_order(index, j.equalities@, b.order@)
    &&& scans_to(index, j.equalities@, b.order@)
    &&& b.order@.len() == j.sources@.len()
    &&& steps.len() + 1 == b.order@.len()
    &&& attrs.take(b.initial@.len() as int) == b.initial@
    &&& attrs.len() == end_after(b.initial@.len(), steps, steps.len() as int)
    &&& forall|k: int| 0 <= k < steps.len() ==> {
        &&& (#[trigger] steps[k]).relation == b.order@[k + 1]
        &&& steps[k].prefix_len == end_after(b.initial@.len(), steps, k)
        &&& step_ok(j, relevant, index, attrs, steps[k], cache)
    }
    &&& b.extract@.len() == j.results@.len()
    &&& forall|i: int| 0 <= i < b.extract@.len() ==> (#[trigger] b.extract@[i]) < attrs.len()
        && stands_for(j.equalities@, j.results@[i], attrs[b.extract@[i] as int])
}

fn refs_for(s: &Vec<AttrRef>, source: usize) -> (r: Vec<AttrRef>)
    ensures
        r@ == refs_of(s@, source),
{
    let mut r: Vec<AttrRef> = Vec::new();
    let mut i: usize = 0;
    while i < s.len()
        invariant
            i <= s@.len(),
            r@ == refs_of(s@.take(i as int), source),
        decreases s@.len() - i,
    {
        assert(s@.take(i + 1).drop_last() =~= s@.take(i as int));
        if s[i].1 == source {
            r.push(s[i]);
        }
        i = i + 1;
    }
    assert(s@.take(s@.len() as int) =~= s@);
    r
}

fn vals_for(s: &Vec<AttrRef>, relation: usize, keys: &Vec<usize>) -> (r: Vec<AttrRef>)
    ensures
        r@ == vals_of(s@, relation, keys@),
{
    let mut r: Vec<AttrRef> = Vec::new();
    let mut i: usize = 0;
    while i < s.len()
        invariant
            i <= s@.len(),
            r@ == vals_of(s@.take(i as int), relation, keys@),
        decreases s@.len() - i,
    {
        assert(s@.take(i + 1).drop_last() =~= s@.take(i as int));
        if s[i].1 == relation && !contains_source(keys, s[i].0) {
            r.push(s[i]);
        }
        i = i + 1;
    }
    assert(s@.take(s@.len() as int) =~= s@);
    r
}

fn projection_for(keys: &Vec<usize>, vals: &Vec<AttrRef>) -> (r: Vec<usize>)
    ensures
        r@ == projection_spec(keys@, vals@),
{
    let mut r: Vec<usize> = Vec::new();
    let mut i: usize = 0;
    while i < keys.len()
        invariant
            i <= keys@.len(),
            r@ == keys@.take(i as int),
        decreases keys@.len() - i,
    {
        r.push(keys[i]);
        assert(r@ =~= keys@.take(i + 1));
        i = i + 1;
    }
    let mut j: usize = 0;
    while j < vals.len()
        invariant
            i == keys@.len(),
            j <= vals@.len(),
            r@ == keys@ + vals@.take(j as int).map_values(|a: AttrRef| a.0),
        decreases vals@.len() - j,
    {
        r.push(vals[j].0);
        assert(r@ =~= keys@ + vals@.take(j + 1).map_values(|a: AttrRef| a.0));
        j = j + 1;
    }
    assert(vals@.take(vals@.len() as int) =~= vals@);
    r
}

fn copy_usizes(v: &Vec<usize>) -> (r: Vec<usize>)
    ensures
        r@ == v@,
{
    let mut r: Vec<usize> = Vec::new();
    let mut i: usize = 0;
    while i < v.len()
        invariant
            i <= v@.len(),
            r@ == v@.take(i as int),
        decreases v@.len() - i,
    {
        r.push(v[i]);
        assert(r@ =~= v@.take(i + 1));
        i = i + 1;
    }
    assert(r@ =~= v@);
    r
}

/// The first position of `x` in `s`.
fn position_of(s: &Vec<AttrRef>, x: AttrRef) -> (r: Option<usize>)
    ensures
        match r {
            Some(p) => p < s@.len() && s@[p as int] == x,
            None => !s@.contains(x),
        },
{
    let mut i: usize = 0;
    while i < s.len()
        invariant
            i <= s@.len(),
            forall|q: int| 0 <= q < i ==> s@[q] != x,
        decreases s@.len() - i,
    {
        if s[i].0 == x.0 && s[i].1 == x.1 {
            return Some(i);
        }
        i = i + 1;
    }
    None
}

/// `y` holds the value of `x`: it is `x`, or an equality constraint names
/// both.
pub open spec fn stands_for(eqs: Seq<Vec<AttrRef>>, x: AttrRef, y: AttrRef) -> bool {
    x == y || exists|k: int| 0 <= k < eqs.len() && (#[trigger] eqs[k])@.contains(x) && eqs[k]@.contains(y)
}

/// Some attribute of `attrs` holds the value of `x`.
pub open spec fn resolvable(eqs: Seq<Vec<AttrRef>>, attrs: Seq<AttrRef>, x: AttrRef) -> bool {
    exists|p: int| 0 <= p < attrs.len() && stands_for(eqs, x, #[trigger] attrs[p])
}

/// The first position of `attrs` holding an attribute named in `c`.
fn member_position(attrs: &Vec<AttrRef>, c: &Vec<AttrRef>) -> (r: Option<usize>)
    ensures
        match r {
            Some(p) => p < attrs@.len() && c@.contains(attrs@[p as int]),
            None => forall|p: int| 0 <= p < attrs@.len() ==> !c@.contains(#[trigger] attrs@[p]),
        },
{
    let mut i: usize = 0;
    while i < attrs.len()
        invariant
            i <= attrs@.len(),
            forall|p: int| 0 <= p < i ==> !c@.contains(#[trigger] attrs@[p]),
        decreases attrs@.len() - i,
    {
        if contains_ref(c, attrs[i]) {
            return Some(i);
        }
        i = i + 1;
    }
    None
}

/// A position of `attrs` holding the value of `x`: that of `x` itself if
/// present, else one of an attribute that `x`'s first constraint with an
/// accumulated member names.
fn resolve(eqs: &[Vec<AttrRef>], attrs: &Vec<AttrRef>, x: AttrRef) -> (r: Option<usize>)
    ensures
        match r {
            Some(p) => p < attrs@.len() && stands_for(eqs@, x, attrs@[p as int]),
            None => !resolvable(eqs@, attrs@, x),
        },
{
    if let Some(p) = position_of(attrs, x) {
        return Some(p);
    }
    let mut k: usize = 0;
    while k < eqs.len()
        invariant
            k <= eqs@.len(),
            !attrs@.contains(x),
            forall|q: int, p: int| 0 <= q < k && (#[trigger] eqs@[q])@.contains(x) && 0 <= p < attrs@.len()
                ==> !eqs@[q]@.contains(#[trigger] attrs@[p]),
        decreases eqs@.len() - k,
    {
        if contains_ref(&eqs[k], x) {
            if let Some(p) = member_position(attrs, &eqs[k]) {
                return Some(p);
            }
        }
        k = k + 1;
    }
    proof {
        if resolvable(eqs@, attrs@, x) {
            let p = choose|p: int| 0 <= p < attrs@.len() && stands_for(eqs@, x, #[trigger] attrs@[p]);
            if x == attrs@[p] {
                assert(attrs@.contains(x));
            } else {
                let q = choose|q: int| 0 <= q < eqs@.len() && (#[trigger] eqs@[q])@.contains(x) && eqs@[q]@.contains(attrs@[p]);
                assert(!eqs@[q]@.contains(attrs@[p]));
            }
        }
    }
    None
}

/// For each result attribute, a position of `attributes` holding its value;
/// an error when one of them has none.
pub fn extract_map(results: &Vec<AttrRef>, equalities: &[Vec<AttrRef>], attributes: &Vec<AttrRef>) -> (r: Result<Vec<usize>, PlanError>)
    ensures
        r is Ok <==> forall|i: int| 0 <= i < results@.len() ==> resolvable(equalities@, attributes@, #[trigger] results@[i]),
        match r {
            Ok(m) => m@.len() == results@.len() && forall|i: int| 0 <= i < m@.len()
                ==> (#[trigger] m@[i]) < attributes@.len() && stands_for(equalities@, results@[i], attributes@[m@[i] as int]),
            Err(e) => e == PlanError::UnresolvedResult,
        },
{
    let mut m: Vec<usize> = Vec::new();
    let mut i: usize = 0;
    while i < results.len()
        invariant
            i <= results@.len(),
            m@.len() == i,
            forall|q: int| 0 <= q < i ==> (#[trigger] m@[q]) < attributes@.len()
                && stands_for(equalities@, results@[q], attributes@[m@[q] as int]),
        decreases results@.len() - i,
    {
        match resolve(equalities, attributes, results[i]) {
            Some(p) => {
                m.push(p);
            },
            None => {
                return Err(PlanError::UnresolvedResult);
            },
        }
        i = i + 1;
    }
    assert forall|q: int| 0 <= q < results@.len() implies resolvable(equalities@, attributes@, #[trigger] results@[q]) by {
        assert(stands_for(equalities@, results@[q], attributes@[m@[q] as int]));
    }
    Ok(m)
}

proof fn lemma_step_ok_grows(
    j: MultiwayJoin,
    relevant: Seq<AttrRef>,
    index: usize,
    attrs: Seq<AttrRef>,
    extra: Seq<AttrRef>,
    st: JoinStep,
    c1: Seq<KeyView>,
    c2: Seq<KeyView>,
)
    requires
        step_ok(j, relevant, index, attrs, st, c1),
        c1.is_prefix_of(c2),
    ensures
        step_ok(j, relevant, index, attrs + extra, st, c2),
{
    reveal(step_ok);
    let a2 = attrs + extra;
    let pl = st.prefix_len as int;
    assert(a2.take(pl) =~= attrs.take(pl));
    assert(a2.subrange(pl, pl + st.vals@.len()) =~= attrs.subrange(pl, pl + st.vals@.len()));
    assert(c2[st.arrangement as int] == c1[st.arrangement as int]);
}

proof fn lemma_order_in_range(j: MultiwayJoin, index: usize, order: Seq<usize>, m: int)
    requires
        refs_in_range(j.results@, j.equalities@, j.sources@.len()),
        is_join_order(index, j.equalities@, order),
        1 <= m < order.len(),
    ensures
        order[m] < j.sources@.len(),
{
    assert(linked_at(order, j.equalities@, m));
    let (k, l) = choose|k: int, l: int|
        0 <= k < j.equalities@.len() && 0 <= l < m && #[trigger] mentions(j.equalities@[k]@, order[l])
            && mentions(j.equalities@[k]@, order[m]);
    let p = choose|p: int| 0 <= p < j.equalities@[k]@.len() && (#[trigger] j.equalities@[k]@[p]).1 == order[m];
    assert(j.equalities@[k]@[p].1 < j.sources@.len());
}

proof fn lemma_covers(o: Seq<usize>, n: nat)
    requires
        o.no_duplicates(),
        o.len() == n,
        forall|i: int| 0 <= i < o.len() ==> o[i] < n,
    ensures
        forall|v: usize| v < n ==> o.contains(v),
{
    assert forall|v: usize| v < n implies o.contains(v) by {
        if !o.contains(v) {
            let t = o.map_values(|x: usize| x as int);
            assert(t.no_duplicates()) by {
                assert forall|i: int, j: int| 0 <= i < t.len() && 0 <= j < t.len() && i != j implies t[i] != t[j] by {
                    assert(o[i] != o[j]);
                }
            }
            t.unique_seq_to_set();
            lemma_int_range(0, n as int);
            let r = set_int_range(0, n as int).remove(v as int);
            assert(t.to_set().subset_of(r)) by {
                assert forall|x: int| t.to_set().contains(x) implies r.contains(x) by {
                    assert(t.contains(x));
                    let k = choose|k: int| 0 <= k < t.len() && t[k] == x;
                    assert(o[k] != v);
                }
            }
            lemma_len_subset(t.to_set(), r);
        }
    }
}

impl MultiwayJoin {
    /// Folds relation `rel` into the tuple whose attributes are `attributes`:
    /// derives its keys, priors and values, fetches or installs its keyed
    /// arrangement, and appends its values to `attributes`.
    fn plan_step(
        &self,
        relevant: &Vec<AttrRef>,
        index: usize,
        rel: usize,
        attributes: &mut Vec<AttrRef>,
        cache: &mut ArrangementCache,
    ) -> (st: JoinStep)
        requires
            rel < self.sources@.len(),
            old(cache).wf(),
            lists_disjoint(self.equalities@),
            forall|x: AttrRef| relevant@.contains(x) <==> is_relevant(self.results@, self.equalities@, x),
            exists|k: int| 0 <= k < self.equalities@.len() && meets(self.equalities@[k]@, old(attributes)@)
                && #[trigger] mentions(self.equalities@[k]@, rel),
        ensures
            final(cache).wf(),
            old(cache)@.is_prefix_of(final(cache)@),
            st.relation == rel,
            st.vals@ == vals_of(relevant@, rel, keys_priors(rel, self.equalities@, old(attributes)@).0),
            st.prefix_len == old(attributes)@.len(),
            final(attributes)@ == old(attributes)@ + st.vals@,
            step_ok(*self, relevant@, index, final(attributes)@, st, final(cache)@),
            forall|k: int, a: usize| 0 <= k < self.equalities@.len() && #[trigger] self.equalities@[k]@.contains((a, rel))
                ==> meets(self.equalities@[k]@, final(attributes)@),
            forall|x: AttrRef| #[trigger] relevant@.contains(x) && x.1 == rel
                ==> resolvable(self.equalities@, final(attributes)@, x),
            forall|x: AttrRef| #[trigger] resolvable(self.equalities@, old(attributes)@, x)
                ==> resolvable(self.equalities@, final(attributes)@, x),
    {
        let ghost eqs = self.equalities@;
        let (keys, priors) = determine_keys_priors(rel, self.equalities.as_slice(), attributes.as_slice());
        proof {
            let k = choose|k: int| 0 <= k < eqs.len() && meets(eqs[k]@, attributes@)
                && #[trigger] mentions(eqs[k]@, rel);
            let p = choose|p: int| 0 <= p < eqs[k]@.len() && (#[trigger] eqs[k]@[p]).1 == rel;
            let a = eqs[k]@[p].0;
            assert(eqs[k]@.contains((a, rel))) by {
                assert(eqs[k]@[p] == (a, rel));
            }
            lemma_keys_contains(rel, eqs, attributes@, a);
            assert(keys@.contains(a));
        }
        let ghost keys_ghost = keys@;
        let vals = vals_for(relevant, rel, &keys);
        let projection = projection_for(&keys, &vals);
        let ghost c_before = cache@;
        let arrangement = cache.fetch_or_build_keyed(self.sources[rel].plan, copy_usizes(&projection), copy_usizes(&keys));
        let prefix_len = attributes.len();
        let ghost attrs_before = attributes@;
        let mut i: usize = 0;
        while i < vals.len()
            invariant
                i <= vals@.len(),
                attributes@ == attrs_before + vals@.take(i as int),
            decreases vals@.len() - i,
        {
            attributes.push(vals[i]);
            assert(attributes@ =~= attrs_before + vals@.take(i + 1));
            i = i + 1;
        }
        assert(vals@.take(vals@.len() as int) =~= vals@);
        assert(attributes@ == attrs_before + vals@);
        let step = JoinStep {
            relation: rel,
            keys,
            priors,
            vals,
            projection,
            neu: rel >= index,
            arrangement,
            prefix_len,
        };
        proof {
            reveal(step_ok);
            assert(attributes@.take(prefix_len as int) =~= attrs_before);
            assert(attributes@.subrange(prefix_len as int, prefix_len + step.vals@.len()) =~= step.vals@);
            lemma_vals_of_contains(relevant@, rel, keys_ghost);
            assert forall|k: int, a: usize| 0 <= k < eqs.len() && #[trigger] eqs[k]@.contains((a, rel))
                implies meets(eqs[k]@, attributes@) by {
                lemma_keys_contains(rel, eqs, attrs_before, a);
                if keys_ghost.contains(a) {
                    let k2 = choose|k2: int| 0 <= k2 < eqs.len() && meets(eqs[k2]@, attrs_before)
                        && (#[trigger] eqs[k2])@.contains((a, rel));
                    if k2 != k {
                        let pa = choose|pa: int| 0 <= pa < eqs[k]@.len() && eqs[k]@[pa] == (a, rel);
                        let pb = choose|pb: int| 0 <= pb < eqs[k2]@.len() && eqs[k2]@[pb] == (a, rel);
                        if k < k2 {
                            assert(eqs[k]@[pa] != eqs[k2]@[pb]);
                        } else {
                            assert(eqs[k2]@[pb] != eqs[k]@[pa]);
                        }
                    }
                    let q = choose|q: int| 0 <= q < attrs_before.len() && eqs[k]@.contains(#[trigger] attrs_before[q]);
                    assert(attributes@[q] == attrs_before[q]);
                } else {
                    assert(in_equalities(eqs, (a, rel)));
                    assert(relevant@.contains((a, rel)));
                    assert(step.vals@.contains((a, rel)));
                    let i = choose|i: int| 0 <= i < step.vals@.len() && step.vals@[i] == (a, rel);
                    assert(attributes@[prefix_len + i] == (a, rel));
                }
            }
            assert forall|x: AttrRef| #[trigger] relevant@.contains(x) && x.1 == rel
                implies resolvable(eqs, attributes@, x) by {
                let a = x.0;
                lemma_keys_contains(rel, eqs, attrs_before, a);
                if keys_ghost.contains(a) {
                    let k2 = choose|k2: int| 0 <= k2 < eqs.len() && meets(eqs[k2]@, attrs_before)
                        && (#[trigger] eqs[k2])@.contains((a, rel));
                    let q = choose|q: int| 0 <= q < attrs_before.len() && eqs[k2]@.contains(#[trigger] attrs_before[q]);
                    assert(attributes@[q] == attrs_before[q]);
                    assert(stands_for(eqs, x, attributes@[q]));
                } else {
                    assert(step.vals@.contains(x));
                    let i = choose|i: int| 0 <= i < step.vals@.len() && step.vals@[i] == x;
                    assert(attributes@[prefix_len + i] == x);
                    assert(stands_for(eqs, x, attributes@[prefix_len + i]));
                }
            }
            assert forall|x: AttrRef| #[trigger] resolvable(eqs, attrs_before, x)
                implies resolvable(eqs, attributes@, x) by {
                let q = choose|q: int| 0 <= q < attrs_before.len() && stands_for(eqs, x, #[trigger] attrs_before[q]);
                assert(attributes@[q] == attrs_before[q]);
            }
        }
        step
    }

    /// Plans the delta query of source `index`: its arrangement by whole
    /// tuple, the join order from it, and for each further relation its keys,
    /// priors, values and keyed arrangement, fetched from or installed in
    /// `cache`; then where each result attribute is read.
    pub fn plan_branch(&self, relevant: &Vec<AttrRef>, index: usize, cache: &mut ArrangementCache) -> (r: Result<DeltaBranch, PlanError>)
        requires
            index < self.sources@.len(),
            refs_in_range(self.results@, self.equalities@, self.sources@.len()),
            lists_disjoint(self.equalities@),
            forall|x: AttrRef| relevant@.contains(x) <==> is_relevant(self.results@, self.equalities@, x),
            old(cache).wf(),
        ensures
            final(cache).wf(),
            old(cache)@.is_prefix_of(final(cache)@),
            match r {
                Ok(b) => branch_ok(*self, relevant@, index, b, final(cache)@),
                Err(e) => e == PlanError::Disconnected,
            },
            (r == Err::<DeltaBranch, PlanError>(PlanError::Disconnected)) <==> exists|o: Seq<usize>|
                is_join_order(index, self.equalities@, o) && o.len() != self.sources@.len(),
            r is Ok <==> branch_succeeds(*self, relevant@, index),
    {
        let n = self.sources.len();
        let initial = refs_for(relevant, index);
        let changes = cache.fetch_or_build_unkeyed(self.sources[index].plan);
        let order = plan_join_order(index, self.equalities.as_slice());
        if order.len() != n {
            proof {
                assert forall|o: Seq<usize>| #[trigger] scans_to(index, self.equalities@, o) implies o.len() != n by {
                    lemma_join_order_deterministic(index, self.equalities@, order@, o);
                }
            }
            return Err(PlanError::Disconnected);
        }
        proof {
            assert forall|o: Seq<usize>| is_join_order(index, self.equalities@, o) implies o.len() == n by {
                lemma_join_order_same_sources(index, self.equalities@, order@, o);
            }
            assert forall|o: Seq<usize>| #[trigger] scans_to(index, self.equalities@, o) implies o == order@ by {
                lemma_join_order_deterministic(index, self.equalities@, order@, o);
            }
        }
        let mut attributes = refs_for(relevant, index);
        assert(attributes@.take(initial@.len() as int) =~= initial@);
        assert(attributes@ == accumulated(self.equalities@, relevant@, order@, 1));
        proof {
            lemma_refs_of_contains(relevant@, index);
            assert forall|x: AttrRef| #[trigger] relevant@.contains(x) && order@.subrange(0, 1).contains(x.1)
                implies resolvable(self.equalities@, attributes@, x) by {
                let sub = order@.subrange(0, 1);
                let l = choose|l: int| 0 <= l < sub.len() && sub[l] == x.1;
                assert(x.1 == index);
                assert(attributes@.contains(x));
                let p = choose|p: int| 0 <= p < attributes@.len() && attributes@[p] == x;
                assert(stands_for(self.equalities@, x, attributes@[p]));
            }
        }
        proof {
            lemma_refs_of_contains(relevant@, index);
            assert forall|l: int, k: int, a: usize| 0 <= l < 1 && 0 <= k < self.equalities@.len()
                && #[trigger] self.equalities@[k]@.contains((a, order@[l]))
                implies meets(self.equalities@[k]@, attributes@) by {
                assert(in_equalities(self.equalities@, (a, index)));
                assert(relevant@.contains((a, index)));
                assert(attributes@.contains((a, index)));
                let q = choose|q: int| 0 <= q < attributes@.len() && attributes@[q] == (a, index);
                assert(self.equalities@[k]@.contains(attributes@[q]));
            }
        }
        let mut steps: Vec<JoinStep> = Vec::new();
        let mut m: usize = 1;
        while m < order.len()
            invariant
                n == self.sources@.len(),
                1 <= m <= order@.len(),
                order@.len() == n,
                is_join_order(index, self.equalities@, order@),
                scans_to(index, self.equalities@, order@),
                attributes@ == accumulated(self.equalities@, relevant@, order@, m as nat),
                forall|x: AttrRef| #[trigger] relevant@.contains(x) && order@.subrange(0, m as int).contains(x.1)
                    ==> resolvable(self.equalities@, attributes@, x),
                forall|o: Seq<usize>| is_join_order(index, self.equalities@, o) ==> o.len() == n,
                forall|o: Seq<usize>| #[trigger] scans_to(index, self.equalities@, o) ==> o == order@,
                lists_disjoint(self.equalities@),
                forall|x: AttrRef| relevant@.contains(x) <==> is_relevant(self.results@, self.equalities@, x),
                forall|l: int, k: int, a: usize| 0 <= l < m && 0 <= k < self.equalities@.len()
                    && #[trigger] self.equalities@[k]@.contains((a, order@[l]))
                    ==> meets(self.equalities@[k]@, attributes@),
                refs_in_range(self.results@, self.equalities@, self.sources@.len()),
                index < n,
                cache.wf(),
                old(cache)@.is_prefix_of(cache@),
                changes < cache@.len(),
                cache@[changes as int] == (self.sources@[index as int].plan, None::<Seq<usize>>, None::<Seq<usize>>),
                initial@ == refs_of(relevant@, index),
                steps@.len() + 1 == m,
                attributes@.take(initial@.len() as int) == initial@,
                initial@.len() <= attributes@.len(),
                attributes@.len() == end_after(initial@.len(), steps@, steps@.len() as int),
                forall|k: int| 0 <= k < steps@.len() ==> {
                    &&& (#[trigger] steps@[k]).relation == order@[k + 1]
                    &&& steps@[k].prefix_len == end_after(initial@.len(), steps@, k)
                    &&& step_ok(*self, relevant@, index, attributes@, steps@[k], cache@)
                },
            decreases order@.len() - m,
        {
            let rel = order[m];
            proof {
                lemma_order_in_range(*self, index, order@, m as int);
            }
            let ghost attrs_before = attributes@;
            let ghost c_before = cache@;
            proof {
                assert(linked_at(order@, self.equalities@, m as int));
                let (k, l) = choose|k: int, l: int|
                    0 <= k < self.equalities@.len() && 0 <= l < m && #[trigger] mentions(self.equalities@[k]@, order@[l])
                        && mentions(self.equalities@[k]@, order@[m as int]);
                let p = choose|p: int| 0 <= p < self.equalities@[k]@.len() && (#[trigger] self.equalities@[k]@[p]).1 == order@[l];
                let a = self.equalities@[k]@[p].0;
                assert(self.equalities@[k]@[p] == (a, order@[l]));
                assert(self.equalities@[k]@.contains((a, order@[l])));
                assert(meets(self.equalities@[k]@, attributes@));
            }
            let step = self.plan_step(relevant, index, rel, &mut attributes, cache);
            assert(attributes@ == accumulated(self.equalities@, relevant@, order@, (m + 1) as nat));
            proof {
                assert forall|x: AttrRef| #[trigger] relevant@.contains(x) && order@.subrange(0, m + 1).contains(x.1)
                    implies resolvable(self.equalities@, attributes@, x) by {
                    let sub = order@.subrange(0, m + 1);
                    let l = choose|l: int| 0 <= l < sub.len() && sub[l] == x.1;
                    if l < m {
                        assert(order@.subrange(0, m as int)[l] == x.1);
                        assert(resolvable(self.equalities@, attrs_before, x));
                    } else {
                        assert(x.1 == rel);
                    }
                }
            }
            assert(attributes@.take(initial@.len() as int) =~= attrs_before.take(initial@.len() as int));
            let ghost old_steps = steps@;
            proof {
                assert forall|k: int| 0 <= k < old_steps.len() implies
                    step_ok(*self, relevant@, index, attributes@, #[trigger] old_steps[k], cache@) by {
                    lemma_step_ok_grows(*self, relevant@, index, attrs_before, step.vals@, old_steps[k], c_before, cache@);
                }
            }
            proof {
                assert forall|l: int, k: int, a: usize| 0 <= l < m + 1 && 0 <= k < self.equalities@.len()
                    && #[trigger] self.equalities@[k]@.contains((a, order@[l]))
                    implies meets(self.equalities@[k]@, attributes@) by {
                    if l < m {
                        assert(meets(self.equalities@[k]@, attrs_before));
                        let q = choose|q: int| 0 <= q < attrs_before.len() && self.equalities@[k]@.contains(#[trigger] attrs_before[q]);
                        assert(attributes@[q] == attrs_before[q]);
                    }
                }
            }
            steps.push(step);
            proof {
                assert forall|k: int| 0 <= k < steps@.len() implies {
                    &&& (#[trigger] steps@[k]).relation == order@[k + 1]
                    &&& steps@[k].prefix_len == end_after(initial@.len(), steps@, k)
                    &&& step_ok(*self, relevant@, index, attributes@, steps@[k], cache@)
                } by {
                    if k < old_steps.len() {
                        assert(steps@[k] == old_steps[k]);
                        assert(end_after(initial@.len(), steps@, k) == end_after(initial@.len(), old_steps, k));
                    } else {
                        assert(steps@[k] == step);
                    }
                }
            }
            m = m + 1;
        }
        proof {
            assert forall|i: int| 0 <= i < order@.len() implies order@[i] < n by {
                if i > 0 {
                    lemma_order_in_range(*self, index, order@, i);
                }
            }
            lemma_covers(order@, n as nat);
            assert(order@.subrange(0, m as int) =~= order@);
            assert forall|i: int| 0 <= i < self.results@.len()
                implies resolvable(self.equalities@, attributes@, #[trigger] self.results@[i]) by {
                let x = self.results@[i];
                assert(self.results@.contains(x));
                assert(is_relevant(self.results@, self.equalities@, x));
                assert(relevant@.contains(x));
                assert(x.1 < n);
                assert(order@.contains(x.1));
                assert(order@.subrange(0, m as int).contains(x.1));
            }
        }
        let extract = match extract_map(&self.results, self.equalities.as_slice(), &attributes) {
            Ok(x) => x,
            Err(e) => {
                return Err(e);
            },
        };
        Ok(DeltaBranch { source: index, initial, changes, order, steps, attributes, extract })
    }
}

/// The delta queries of a join, one per source, over its relevant attributes.
pub struct DeltaPlan {
    pub relevant: Vec<AttrRef>,
    pub branches: Vec<DeltaBranch>,
}

proof fn lemma_branch_ok_grows(
    j: MultiwayJoin,
    relevant: Seq<AttrRef>,
    index: usize,
    b: DeltaBranch,
    c1: Seq<KeyView>,
    c2: Seq<KeyView>,
)
    requires
        branch_ok(j, relevant, index, b, c1),
        c1.is_prefix_of(c2),
    ensures
        branch_ok(j, relevant, index, b, c2),
{
    let attrs = b.attributes@;
    assert(attrs + Seq::<AttrRef>::empty() =~= attrs);
    assert forall|k: int| 0 <= k < b.steps@.len() implies
        step_ok(j, relevant, index, attrs, #[trigger] b.steps@[k], c2) by {
        lemma_step_ok_grows(j, relevant, index, attrs, Seq::<AttrRef>::empty(), b.steps@[k], c1, c2);
    }
    assert(c2[b.changes as int] == c1[b.changes as int]);
}

impl MultiwayJoin {
    /// Validates the join, then plans the delta query of every source in
    /// order, sharing arrangements through `cache`.
    #[verifier::rlimit(40)]
    pub fn plan_delta_queries(&self, cache: &mut ArrangementCache) -> (r: Result<DeltaPlan, PlanError>)
        requires
            old(cache).wf(),
        ensures
            final(cache).wf(),
            old(cache)@.is_prefix_of(final(cache)@),
            !plan_valid(*self) ==> r is Err && explains(*self, r->Err_0),
            match r {
                Ok(p) => {
                    &&& plan_valid(*self)
                    &&& strictly_sorted(p.relevant@)
                    &&& forall|x: AttrRef| p.relevant@.contains(x) <==> is_relevant(self.results@, self.equalities@, x)
                    &&& p.branches@.len() == self.sources@.len()
                    &&& forall|i: int| 0 <= i < p.branches@.len()
                        ==> branch_ok(*self, p.relevant@, i as usize, #[trigger] p.branches@[i], final(cache)@)
                },
                Err(e) => (!plan_valid(*self) && explains(*self, e)) || e == PlanError::Disconnected,
            },
            plan_valid(*self) ==> (r is Ok <==> all_branches_succeed(*self)),
            plan_valid(*self) ==> (r is Ok || r == Err::<DeltaPlan, PlanError>(PlanError::Disconnected)),
            plan_valid(*self) ==> ((r == Err::<DeltaPlan, PlanError>(PlanError::Disconnected))
                <==> exists|i: usize, o: Seq<usize>| i < self.sources@.len()
                    && #[trigger] is_join_order(i, self.equalities@, o) && o.len() != self.sources@.len()),
    {
        match self.validate() {
            Ok(()) => {},
            Err(e) => {
                return Err(e);
            },
        }
        let relevant = relevant_attributes(self.results.as_slice(), self.equalities.as_slice());
        let n = self.sources.len();
        let mut s: usize = 0;
        while s < n
            invariant
                n == self.sources@.len(),
                s <= n,
                plan_valid(*self),
                is_relevant_list(*self, relevant@),
                cache.wf(),
                cache@ == old(cache)@,
                forall|i: usize, o: Seq<usize>| i < s && #[trigger] is_join_order(i, self.equalities@, o)
                    ==> o.len() == n,
            decreases n - s,
        {
            let order = plan_join_order(s, self.equalities.as_slice());
            if order.len() != n {
                proof {
                    assert forall|o: Seq<usize>| #[trigger] scans_to(s, self.equalities@, o) implies o.len() != n by {
                        lemma_join_order_deterministic(s, self.equalities@, order@, o);
                    }
                    assert(!branch_succeeds(*self, relevant@, s));
                }
                return Err(PlanError::Disconnected);
            }
            proof {
                assert forall|i: usize, o: Seq<usize>| i < s + 1 && #[trigger] is_join_order(i, self.equalities@, o)
                    implies o.len() == n by {
                    if i == s {
                        lemma_join_order_same_sources(s, self.equalities@, order@, o);
                    }
                }
            }
            s = s + 1;
        }
        proof {
            reveal(all_connected);
        }
        let mut branches: Vec<DeltaBranch> = Vec::new();
        let mut index: usize = 0;
        while index < self.sources.len()
            invariant
                plan_valid(*self),
                forall|x: AttrRef| relevant@.contains(x) <==> is_relevant(self.results@, self.equalities@, x),
                index <= self.sources@.len(),
                branches@.len() == index,
                cache.wf(),
                old(cache)@.is_prefix_of(cache@),
                forall|i: int| 0 <= i < branches@.len()
                    ==> branch_ok(*self, relevant@, i as usize, #[trigger] branches@[i], cache@),
                strictly_sorted(relevant@),
                forall|i: usize| i < index ==> #[trigger] branch_succeeds(*self, relevant@, i),
                all_connected(*self),
            decreases self.sources@.len() - index,
        {
            let ghost c_before = cache@;
            let b = match self.plan_branch(&relevant, index, cache) {
                Ok(b) => b,
                Err(e) => {
                    proof {
                        reveal(all_connected);
                    }
                    assert(is_relevant_list(*self, relevant@));
                    assert(!branch_succeeds(*self, relevant@, index));
                    return Err(e);
                },
            };
            let ghost old_branches = branches@;
            proof {
                assert forall|i: int| 0 <= i < old_branches.len()
                    implies branch_ok(*self, relevant@, i as usize, #[trigger] old_branches[i], cache@) by {
                    lemma_branch_ok_grows(*self, relevant@, i as usize, old_branches[i], c_before, cache@);
                }
            }
            branches.push(b);
            proof {
                assert forall|i: int| 0 <= i < branches@.len()
                    implies branch_ok(*self, relevant@, i as usize, #[trigger] branches@[i], cache@) by {
                    if i < old_branches.len() {
                        assert(branches@[i] == old_branches[i]);
                    }
                }
            }
            index = index + 1;
        }
        proof {
            assert forall|rel: Seq<AttrRef>, i: usize| is_relevant_list(*self, rel) && i < self.sources@.len()
                implies #[trigger] branch_succeeds(*self, rel, i) by {
                lemma_sorted_unique(rel, relevant@);
            }
        }
        Ok(DeltaPlan { relevant, branches })
    }
}

/// Each step of a planned delta query reads its relation as the counting
/// rule says: at the `alt` time (seeing that relation's changes of the same
/// outer time) exactly when the delta query's own source sees it.
pub proof fn lemma_step_reads_as_seen(
    j: MultiwayJoin,
    relevant: Seq<AttrRef>,
    index: usize,
    b: DeltaBranch,
    cache: Seq<KeyView>,
    k: int,
    t: u64,
)
    requires
        branch_ok(j, relevant, index, b, cache),
        0 <= k < b.steps@.len(),
    ensures
        b.steps@[k].neu == !sees(index, b.steps@[k].relation, t, t),
        b.steps@[k].relation != index,
{
    reveal(step_ok);
    assert(b.steps@[k].relation == b.order@[k + 1]);
    assert(b.order@[0] == index);
}

} // verus!
