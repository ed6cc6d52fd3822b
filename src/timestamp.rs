//! The two-valued refinement of a logical time that orders concurrent updates
//! of different relations inside one delta query.

use vstd::prelude::*;

verus! {

/// An outer time refined by a discriminator: `alt` before `neu`.
#[derive(Clone, Copy, Debug, PartialEq, Eq, Structural)]
pub struct AltNeu {
    pub time: u64,
    pub neu: bool,
}

pub open spec fn alt_spec(time: u64) -> AltNeu {
    AltNeu { time, neu: false }
}

pub open spec fn neu_spec(time: u64) -> AltNeu {
    AltNeu { time, neu: true }
}

/// `a` is at or before `b`: `alt(t) < neu(t) < alt(t')` whenever `t < t'`.
pub open spec fn le_spec(a: AltNeu, b: AltNeu) -> bool {
    a.time < b.time || (a.time == b.time && (!a.neu || b.neu))
}

/// In the delta query of `source`, the arrangement of `joined` enters at the
/// `alt` variant when `joined` comes before `source`, else at `neu`.
pub open spec fn enters_neu(joined: usize, source: usize) -> bool {
    joined >= source
}

pub open spec fn tag_spec(joined: usize, source: usize, time: u64) -> AltNeu {
    AltNeu { time, neu: enters_neu(joined, source) }
}

/// The delta query of `branch`, reacting to its own change at `t_branch`
/// (entered at `alt`), sees a change of `other` made at `t_other`.
pub open spec fn sees(branch: usize, other: usize, t_branch: u64, t_other: u64) -> bool {
    le_spec(tag_spec(other, branch, t_other), alt_spec(t_branch))
}

impl AltNeu {
    pub fn alt(time: u64) -> (r: AltNeu)
        ensures
            r == alt_spec(time),
    {
        AltNeu { time, neu: false }
    }

    pub fn neu(time: u64) -> (r: AltNeu)
        ensures
            r == neu_spec(time),
    {
        AltNeu { time, neu: true }
    }

    /// The outer time, with the discriminator stripped.
    pub fn outer(&self) -> (r: u64)
        ensures
            r == self.time,
    {
        self.time
    }

    pub fn less_equal(&self, other: &AltNeu) -> (r: bool)
        ensures
            r == le_spec(*self, *other),
    {
        self.time < other.time || (self.time == other.time && (!self.neu || other.neu))
    }

    pub fn less_than(&self, other: &AltNeu) -> (r: bool)
        ensures
            r == (le_spec(*self, *other) && *self != *other),
    {
        self.less_equal(other) && !(self.time == other.time && self.neu == other.neu)
    }
}

/// The time at which the arrangement of `joined` enters the delta query of
/// `source`, for an update at outer time `time`.
pub fn enter_time(joined: usize, source: usize, time: u64) -> (r: AltNeu)
    ensures
        r == tag_spec(joined, source, time),
        r.neu == (joined >= source),
{
    if joined < source {
        AltNeu::alt(time)
    } else {
        AltNeu::neu(time)
    }
}

/// The refined times are totally ordered, and `alt(t) < neu(t) < alt(t')`
/// whenever `t < t'`.
pub proof fn lemma_alt_neu_order(a: AltNeu, b: AltNeu, c: AltNeu, t: u64, u: u64)
    ensures
        le_spec(a, a),
        le_spec(a, b) && le_spec(b, a) ==> a == b,
        le_spec(a, b) && le_spec(b, c) ==> le_spec(a, c),
        le_spec(a, b) || le_spec(b, a),
        le_spec(alt_spec(t), neu_spec(t)) && alt_spec(t) != neu_spec(t),
        t < u ==> le_spec(neu_spec(t), alt_spec(u)) && !le_spec(alt_spec(u), neu_spec(t)),
        le_spec(a, b) ==> a.time <= b.time,
{
}

/// For two distinct relations changing at the same outer time, exactly one of
/// the two delta queries sees the other's change, and which one depends only
/// on the relations' indices.
pub proof fn lemma_exactly_one_branch_sees(i: usize, j: usize, t: u64)
    requires
        i != j,
    ensures
        sees(i, j, t, t) != sees(j, i, t, t),
        sees(i, j, t, t) == (j < i),
{
}

/// A change at an earlier outer time is always seen, one at a later outer
/// time never, whatever the relations' indices.
pub proof fn lemma_other_times_by_outer_order(i: usize, j: usize, t_i: u64, t_j: u64)
    ensures
        t_j < t_i ==> sees(i, j, t_i, t_j),
        t_i < t_j ==> !sees(i, j, t_i, t_j),
{
}

} // verus!
