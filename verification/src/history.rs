//! Time-indexed value history: an ordered sequence of checkpoints.
//!
//! A checkpoint records the value of one tracked quantity (an account
//! balance, or the total supply) as of a timestamp. A history is sorted by
//! strictly increasing timestamp; a query at timestamp `t` answers with the
//! value of the most recent checkpoint at or before `t`, or zero if there
//! is none: every quantity implicitly starts at zero.

use vstd::prelude::*;

verus! {

/// One recorded (timestamp, value) pair of a history.
#[derive(Clone, Copy, PartialEq, Eq, Structural, Debug)]
pub struct Checkpoint {
    /// Block time, in seconds, at which the value was recorded.
    pub time: u64,
    /// The recorded value.
    pub value: u128,
}

/// The value a history holds as of timestamp `t`: the value of the most
/// recent checkpoint whose time is at or before `t`, or zero if none is.
pub open spec fn value_at(h: Seq<Checkpoint>, t: int) -> u128
    decreases h.len(),
{
    if h.len() == 0 {
        0
    } else if h.last().time <= t {
        h.last().value
    } else {
        value_at(h.drop_last(), t)
    }
}

/// A history is well formed when its timestamps strictly increase.
pub open spec fn sorted(h: Seq<Checkpoint>) -> bool {
    forall|i: int, j: int| 0 <= i < j < h.len() ==> h[i].time < h[j].time
}

/// Every checkpoint of `h` lies at or before timestamp `t`.
pub open spec fn bounded_by(h: Seq<Checkpoint>, t: int) -> bool {
    forall|i: int| 0 <= i < h.len() ==> h[i].time <= t
}

/// The history after writing value `v` at timestamp `t`: a write at the
/// timestamp of the last checkpoint overwrites it, any later timestamp
/// appends a new checkpoint.
pub open spec fn written(h: Seq<Checkpoint>, t: u64, v: u128) -> Seq<Checkpoint> {
    if h.len() > 0 && h.last().time == t {
        h.update(h.len() - 1, Checkpoint { time: t, value: v })
    } else {
        h.push(Checkpoint { time: t, value: v })
    }
}

/// The ordered checkpoint history of one tracked quantity.
pub struct History {
    entries: Vec<Checkpoint>,
}

impl History {
    /// Timestamps strictly increase along the stored sequence.
    pub open spec fn wf(&self) -> bool {
        sorted(self@)
    }

    pub closed spec fn view(&self) -> Seq<Checkpoint> {
        self.entries@
    }

    /// An empty history: every query on it answers zero.
    pub fn new() -> (h: History)
        ensures
            h@ == Seq::<Checkpoint>::empty(),
            h.wf(),
    {
        History { entries: Vec::new() }
    }

    /// The value as of timestamp `t`, by binary search for the most recent
    /// checkpoint at or before `t`; zero when no checkpoint is that old.
    pub fn query_at(&self, t: u64) -> (v: u128)
        requires
            self.wf(),
        ensures
            v == value_at(self@, t as int),
    {
        let mut lo: usize = 0;
        let mut hi: usize = self.entries.len();
        while lo < hi
            invariant
                self.wf(),
                lo <= hi <= self@.len(),
                forall|i: int| 0 <= i < lo ==> self@[i].time <= t,
                forall|i: int| hi <= i < self@.len() ==> self@[i].time > t,
            decreases hi - lo,
        {
            let mid: usize = lo + (hi - lo) / 2;
            if self.entries[mid].time <= t {
                lo = mid + 1;
            } else {
                hi = mid;
            }
        }
        if lo == 0 {
            proof {
                lemma_value_at_none(self@, t as int);
            }
            0
        } else {
            proof {
                lemma_value_at_latest(self@, lo - 1, t as int);
            }
            self.entries[lo - 1].value
        }
    }

    /// Record value `v` as of timestamp `t`. A write at the timestamp of
    /// the most recent checkpoint overwrites it; a later timestamp appends.
    /// Afterwards every query at or after `t` answers `v`, and queries
    /// strictly before `t` are unchanged.
    pub fn write(&mut self, t: u64, v: u128)
        requires
            old(self).wf(),
            bounded_by(old(self)@, t as int),
        ensures
            final(self)@ == written(old(self)@, t, v),
            final(self).wf(),
            bounded_by(final(self)@, t as int),
            forall|q: int|
                value_at(final(self)@, q) == if q >= t {
                    v
                } else {
                    value_at(old(self)@, q)
                },
    {
        let n = self.entries.len();
        if n > 0 && self.entries[n - 1].time == t {
            self.entries.pop();
        }
        self.entries.push(Checkpoint { time: t, value: v });
        proof {
            assert(self@ =~= written(old(self)@, t, v));
            lemma_write_shape(old(self)@, t, v);
            assert forall|q: int|
                value_at(self@, q) == if q >= t {
                    v
                } else {
                    value_at(old(self)@, q)
                } by {
                lemma_value_at_written(old(self)@, t, v, q);
            }
        }
    }
}

/// When every checkpoint of `h` lies strictly after `t`, the value as of
/// `t` is the zero default.
pub proof fn lemma_value_at_none(h: Seq<Checkpoint>, t: int)
    requires
        forall|i: int| 0 <= i < h.len() ==> h[i].time > t,
    ensures
        value_at(h, t) == 0,
    decreases h.len(),
{
    if h.len() > 0 {
        lemma_value_at_none(h.drop_last(), t);
    }
}

/// In a sorted history the value as of `t` is the value of the last
/// checkpoint at or before `t`: the one at index `j` when everything after
/// `j` lies strictly after `t`.
pub proof fn lemma_value_at_latest(h: Seq<Checkpoint>, j: int, t: int)
    requires
        sorted(h),
        0 <= j < h.len(),
        h[j].time <= t,
        forall|i: int| j < i < h.len() ==> h[i].time > t,
    ensures
        value_at(h, t) == h[j].value,
    decreases h.len(),
{
    if j == h.len() - 1 {
    } else {
        lemma_value_at_latest(h.drop_last(), j, t);
    }
}

/// Monotonic read consistency: a query at `t` is decided only by the
/// checkpoints written at or before `t` — with `n` the number of those,
/// dropping every later checkpoint leaves the answer unchanged, and
/// together with `lemma_value_at_latest` the answer is exactly the most
/// recent of them.
pub proof fn lemma_read_ignores_later(h: Seq<Checkpoint>, n: int, t: int)
    requires
        sorted(h),
        0 <= n <= h.len(),
        forall|i: int| 0 <= i < n ==> h[i].time <= t,
        forall|i: int| n <= i < h.len() ==> h[i].time > t,
    ensures
        value_at(h, t) == value_at(h.subrange(0, n), t),
    decreases h.len(),
{
    if n == h.len() {
        assert(h.subrange(0, n) =~= h);
    } else {
        assert(h.drop_last().subrange(0, n) =~= h.subrange(0, n));
        lemma_read_ignores_later(h.drop_last(), n, t);
    }
}

/// Once a history is bounded by `t`, queries at or after `t` all answer
/// alike: no later checkpoint exists to change the answer.
pub proof fn lemma_value_at_stable(h: Seq<Checkpoint>, t: int, q: int)
    requires
        bounded_by(h, t),
        t <= q,
    ensures
        value_at(h, q) == value_at(h, t),
{
    if h.len() > 0 {
        assert(h[h.len() - 1].time <= t);
    }
}

/// A write keeps a history sorted and bounded by the written timestamp.
pub proof fn lemma_write_shape(h: Seq<Checkpoint>, t: u64, v: u128)
    requires
        sorted(h),
        bounded_by(h, t as int),
    ensures
        sorted(written(h, t, v)),
        bounded_by(written(h, t, v), t as int),
        written(h, t, v).len() >= 1,
{
}

/// How one write changes the value as of each timestamp `q`: queries at or
/// after the written time answer the new value, earlier ones are unchanged.
pub proof fn lemma_value_at_written(h: Seq<Checkpoint>, t: u64, v: u128, q: int)
    requires
        sorted(h),
        bounded_by(h, t as int),
    ensures
        value_at(written(h, t, v), q) == if q >= t {
            v
        } else {
            value_at(h, q)
        },
{
    let w = written(h, t, v);
    if h.len() > 0 && h.last().time == t {
        assert(w.drop_last() =~= h.drop_last());
        if q < t {
            assert(value_at(h, q) == value_at(h.drop_last(), q));
        }
    } else {
        assert(w.drop_last() =~= h);
    }
}

} // verus!
