//! Arrangements shared by every delta query that asks for the same plan and
//! key columns.

use vstd::prelude::*;

verus! {

/// What an arrangement is built from: a source plan, an optional projection
/// of its columns, and the key columns it is arranged by (none: arranged by
/// the whole tuple).
#[derive(Debug)]
pub struct ArrangementKey {
    pub plan: u64,
    pub projection: Option<Vec<usize>>,
    pub keys: Option<Vec<usize>>,
}

pub type KeyView = (u64, Option<Seq<usize>>, Option<Seq<usize>>);

pub open spec fn opt_view(o: Option<Vec<usize>>) -> Option<Seq<usize>> {
    match o {
        Some(v) => Some(v@),
        None => None,
    }
}

impl View for ArrangementKey {
    type V = KeyView;

    open spec fn view(&self) -> KeyView {
        (self.plan, opt_view(self.projection), opt_view(self.keys))
    }
}

fn same_vec(a: &Vec<usize>, b: &Vec<usize>) -> (r: bool)
    ensures
        r == (a@ == b@),
{
    if a.len() != b.len() {
        return false;
    }
    let mut i: usize = 0;
    while i < a.len()
        invariant
            a@.len() == b@.len(),
            i <= a@.len(),
            forall|j: int| 0 <= j < i ==> a@[j] == b@[j],
        decreases a@.len() - i,
    {
        if a[i] != b[i] {
            return false;
        }
        i = i + 1;
    }
    assert(a@ =~= b@);
    true
}

fn same_opt(a: &Option<Vec<usize>>, b: &Option<Vec<usize>>) -> (r: bool)
    ensures
        r == (opt_view(*a) == opt_view(*b)),
{
    match (a, b) {
        (Some(x), Some(y)) => same_vec(x, y),
        (None, None) => true,
        _ => false,
    }
}

impl ArrangementKey {
    /// The whole output of `plan`, arranged by the whole tuple.
    pub fn unkeyed(plan: u64) -> (r: ArrangementKey)
        ensures
            r@ == (plan, None::<Seq<usize>>, None::<Seq<usize>>),
    {
        ArrangementKey { plan, projection: None, keys: None }
    }

    /// `plan` projected onto `projection`, arranged by `keys`.
    pub fn keyed(plan: u64, projection: Vec<usize>, keys: Vec<usize>) -> (r: ArrangementKey)
        ensures
            r@ == (plan, Some(projection@), Some(keys@)),
    {
        ArrangementKey { plan, projection: Some(projection), keys: Some(keys) }
    }

    /// Structural equality.
    pub fn same(&self, other: &ArrangementKey) -> (r: bool)
        ensures
            r == (self@ == other@),
    {
        self.plan == other.plan && same_opt(&self.projection, &other.projection) && same_opt(
            &self.keys,
            &other.keys,
        )
    }
}

/// The arrangements built so far; an arrangement's handle is its position.
pub struct ArrangementCache {
    entries: Vec<ArrangementKey>,
}

impl View for ArrangementCache {
    type V = Seq<KeyView>;

    closed spec fn view(&self) -> Seq<KeyView> {
        self.entries@.map_values(|k: ArrangementKey| k@)
    }
}

impl ArrangementCache {
    /// No key is held twice.
    pub open spec fn wf(&self) -> bool {
        self@.no_duplicates()
    }

    pub fn new() -> (r: ArrangementCache)
        ensures
            r.wf(),
            r@ == Seq::<KeyView>::empty(),
    {
        let r = ArrangementCache { entries: Vec::new() };
        assert(r@ =~= Seq::<KeyView>::empty());
        r
    }

    pub fn len(&self) -> (r: usize)
        ensures
            r == self@.len(),
    {
        self.entries.len()
    }

    /// The handle of the arrangement built for `key`, if any.
    pub fn get(&self, key: &ArrangementKey) -> (r: Option<usize>)
        ensures
            match r {
                Some(h) => h < self@.len() && self@[h as int] == key@,
                None => !self@.contains(key@),
            },
    {
        let mut i: usize = 0;
        while i < self.entries.len()
            invariant
                i <= self@.len(),
                self@.len() == self.entries@.len(),
                forall|j: int| 0 <= j < i ==> self@[j] != key@,
            decreases self@.len() - i,
        {
            if self.entries[i].same(key) {
                return Some(i);
            }
            i = i + 1;
        }
        None
    }

    /// The handle of the arrangement for `key`, installing it first if no
    /// request has asked for an equal key before.
    pub fn fetch_or_build(&mut self, key: ArrangementKey) -> (h: usize)
        requires
            old(self).wf(),
        ensures
            final(self).wf(),
            h < final(self)@.len(),
            final(self)@[h as int] == key@,
            old(self)@.contains(key@) ==> final(self)@ == old(self)@,
            !old(self)@.contains(key@) ==> final(self)@ == old(self)@.push(key@) && h == old(self)@.len(),
    {
        match self.get(&key) {
            Some(h) => h,
            None => {
                let ghost pre = self@;
                let h = self.entries.len();
                self.entries.push(key);
                assert(self@ =~= pre.push(key@));
                assert(self@.no_duplicates()) by {
                    assert forall|i: int, j: int| 0 <= i < j < self@.len() implies self@[i] != self@[j] by {
                        if j == pre.len() {
                            assert(pre[i] == self@[i]);
                        }
                    }
                }
                h
            },
        }
    }

    /// The handle of the arrangement of `plan` by whole tuple.
    pub fn fetch_or_build_unkeyed(&mut self, plan: u64) -> (h: usize)
        requires
            old(self).wf(),
        ensures
            final(self).wf(),
            h < final(self)@.len(),
            final(self)@[h as int] == (plan, None::<Seq<usize>>, None::<Seq<usize>>),
            old(self)@.is_prefix_of(final(self)@),
            old(self)@.contains((plan, None::<Seq<usize>>, None::<Seq<usize>>)) ==> final(self)@ == old(self)@,
            !old(self)@.contains((plan, None::<Seq<usize>>, None::<Seq<usize>>)) ==> final(self)@ == old(self)@.push((plan, None::<Seq<usize>>, None::<Seq<usize>>))
                && h == old(self)@.len(),
    {
        self.fetch_or_build(ArrangementKey::unkeyed(plan))
    }

    /// The handle of the arrangement of `plan`, projected onto `projection`,
    /// by `keys`.
    pub fn fetch_or_build_keyed(&mut self, plan: u64, projection: Vec<usize>, keys: Vec<usize>) -> (h: usize)
        requires
            old(self).wf(),
        ensures
            final(self).wf(),
            h < final(self)@.len(),
            final(self)@[h as int] == (plan, Some(projection@), Some(keys@)),
            old(self)@.is_prefix_of(final(self)@),
            old(self)@.contains((plan, Some(projection@), Some(keys@))) ==> final(self)@ == old(self)@,
            !old(self)@.contains((plan, Some(projection@), Some(keys@))) ==> final(self)@ == old(self)@.push((plan, Some(projection@), Some(keys@)))
                && h == old(self)@.len(),
    {
        self.fetch_or_build(ArrangementKey::keyed(plan, projection, keys))
    }
}

/// Handles name arrangements one to one: in a well-formed cache two handles
/// are equal exactly when their keys are structurally equal, so equal
/// requests share one arrangement and requests that differ (in the key
/// columns alone, say) get distinct ones.
pub proof fn lemma_cache_sharing(c: ArrangementCache, h1: int, h2: int)
    requires
        c.wf(),
        0 <= h1 < c@.len(),
        0 <= h2 < c@.len(),
    ensures
        (h1 == h2) <==> (c@[h1] == c@[h2]),
{
}

/// Handles stay valid as the cache grows: a key found at `h1` in a cache and
/// at `h2` in a well-formed later state of it has the same handle.
pub proof fn lemma_handles_persist(before: ArrangementCache, after: ArrangementCache, key: KeyView, h1: int, h2: int)
    requires
        after.wf(),
        before@.is_prefix_of(after@),
        0 <= h1 < before@.len(),
        0 <= h2 < after@.len(),
        before@[h1] == key,
        after@[h2] == key,
    ensures
        h1 == h2,
{
    assert(after@[h1] == before@[h1]);
}

} // verus!
