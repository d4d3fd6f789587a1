//! Transfer classifier and update engine over the two ledgers.
//!
//! A tracker holds the immutable configuration, the per-account balance
//! ledger, the single total-supply history, and the timestamp of the last
//! committed update (the host delivers block times in non-decreasing
//! order). Each movement of the tracked token is classified, relative to
//! the configured sink address, as a mint, a burn, an ordinary transfer,
//! or a mint immediately burned, and the matching checked debits and
//! credits are applied so that at every timestamp the sum of all account
//! balances equals the total supply. A call either commits in full or
//! fails with nothing changed.

use vstd::prelude::*;

use crate::history::{bounded_by, value_at, History};
use crate::store::{all_bounded_by, hist_of, lemma_balance_stable, sum_at, Balances};

verus! {

/// Immutable configuration, set once at initialization.
pub struct Config {
    /// The one token identifier this tracker accounts for.
    pub tracked_denom: String,
    /// The mint/burn boundary: transfers from it are mints, transfers to
    /// it are burns.
    pub sink_address: String,
}

impl Config {
    pub fn new(tracked_denom: String, sink_address: String) -> (c: Config)
        ensures
            c.tracked_denom@ == tracked_denom@,
            c.sink_address@ == sink_address@,
    {
        Config { tracked_denom, sink_address }
    }
}

/// How a movement relates to the sink address.
#[derive(Clone, Copy, PartialEq, Eq, Structural, Debug)]
pub enum EventKind {
    /// Neither side is the sink: an ordinary transfer between accounts.
    Transfer,
    /// The sender is the sink: new tokens enter circulation.
    Mint,
    /// The receiver is the sink: tokens leave circulation.
    Burn,
    /// Both sides are the sink: a mint immediately burned, net zero.
    MintThenBurn,
}

/// Why an update was rejected. Any rejection leaves both ledgers unchanged
/// and, by the host's calling convention, blocks the movement that
/// triggered the call.
#[derive(Clone, Copy, PartialEq, Eq, Structural, Debug)]
pub enum TrackError {
    /// The notification names a token other than the tracked one.
    DenomMismatch,
    /// A debit would drive a balance or the supply negative.
    Underflow,
    /// A credit would exceed the unsigned 128-bit range.
    Overflow,
}

/// Classification of a movement: the sink side decides mint and burn.
pub open spec fn classify_spec(from: Seq<char>, to: Seq<char>, sink: Seq<char>) -> EventKind {
    if from == sink && to == sink {
        EventKind::MintThenBurn
    } else if from == sink {
        EventKind::Mint
    } else if to == sink {
        EventKind::Burn
    } else {
        EventKind::Transfer
    }
}

/// How far a committed update at or after its timestamp moves the supply.
pub open spec fn supply_delta(k: EventKind, amount: u128) -> int {
    match k {
        EventKind::Transfer => 0,
        EventKind::Mint => amount as int,
        EventKind::Burn => -(amount as int),
        EventKind::MintThenBurn => 0,
    }
}

/// How far a committed update at or after its timestamp moves the balance
/// of account `a`.
pub open spec fn balance_delta(
    k: EventKind,
    from: Seq<char>,
    to: Seq<char>,
    a: Seq<char>,
    amount: u128,
) -> int {
    match k {
        EventKind::Transfer => (if a == from {
            -(amount as int)
        } else {
            0
        }) + (if a == to {
            amount as int
        } else {
            0
        }),
        EventKind::Mint => if a == to {
            amount as int
        } else {
            0
        },
        EventKind::Burn => if a == from {
            -(amount as int)
        } else {
            0
        },
        EventKind::MintThenBurn => 0,
    }
}

/// The checkpointed accounting engine: configuration, balance ledger,
/// supply ledger, and the time of the last committed update.
pub struct Tracker {
    pub config: Config,
    pub balances: Balances,
    pub supply: History,
    pub last_time: u64,
}

impl Tracker {
    /// Both ledgers well formed, no checkpoint after `last_time`, and the
    /// sum of all balances equal to the supply at every timestamp.
    pub open spec fn wf(&self) -> bool {
        &&& self.balances.wf()
        &&& self.supply.wf()
        &&& all_bounded_by(self.balances@, self.last_time as int)
        &&& bounded_by(self.supply@, self.last_time as int)
        &&& forall|q: int| sum_at(self.balances@, q) == value_at(self.supply@, q) as int
    }

    /// The balance of `a` as of timestamp `t`.
    pub open spec fn spec_balance_at(&self, a: Seq<char>, t: int) -> u128 {
        self.balances.spec_balance_at(a, t)
    }

    /// The total supply as of timestamp `t`.
    pub open spec fn spec_supply_at(&self, t: int) -> u128 {
        value_at(self.supply@, t)
    }

    /// Which result an update call must return: success exactly when every
    /// checked debit stays non-negative and every checked credit stays
    /// within the unsigned 128-bit range, in the order the engine applies
    /// them.
    pub open spec fn track_outcome(
        &self,
        t: u64,
        from: Seq<char>,
        to: Seq<char>,
        amount: u128,
    ) -> Result<(), TrackError> {
        let bf = self.spec_balance_at(from, t as int);
        let bt = self.spec_balance_at(to, t as int);
        let s = self.spec_supply_at(t as int);
        match classify_spec(from, to, self.config.sink_address@) {
            EventKind::Transfer => if bf < amount {
                Err(TrackError::Underflow)
            } else if from != to && bt + amount > u128::MAX {
                Err(TrackError::Overflow)
            } else {
                Ok(())
            },
            EventKind::Mint => if s + amount > u128::MAX {
                Err(TrackError::Overflow)
            } else if bt + amount > u128::MAX {
                Err(TrackError::Overflow)
            } else {
                Ok(())
            },
            EventKind::Burn => if bf < amount {
                Err(TrackError::Underflow)
            } else if s < amount {
                Err(TrackError::Underflow)
            } else {
                Ok(())
            },
            EventKind::MintThenBurn => if s + amount > u128::MAX {
                Err(TrackError::Overflow)
            } else {
                Ok(())
            },
        }
    }

    /// What a committed update did: the configuration is untouched, the
    /// last update time is the call's timestamp, and every balance and
    /// supply query at or after the call's timestamp moves by exactly the
    /// classified delta while earlier queries are unchanged.
    pub open spec fn track_commit(
        pre: Tracker,
        post: Tracker,
        t: u64,
        from: Seq<char>,
        to: Seq<char>,
        amount: u128,
    ) -> bool {
        let k = classify_spec(from, to, pre.config.sink_address@);
        &&& post.config == pre.config
        &&& post.last_time == t
        &&& forall|q: int|
            value_at(post.supply@, q) as int == value_at(pre.supply@, q) as int + (if q >= t {
                supply_delta(k, amount)
            } else {
                0
            })
        &&& forall|a: Seq<char>, q: int|
            post.spec_balance_at(a, q) as int == pre.spec_balance_at(a, q) as int + (if q >= t {
                balance_delta(k, from, to, a, amount)
            } else {
                0
            })
    }

    /// A fresh tracker: no checkpoints, every balance and the supply zero
    /// at every timestamp.
    pub fn new(config: Config) -> (tr: Tracker)
        ensures
            tr.wf(),
            tr.config == config,
            tr.last_time == 0,
            tr.balances@.len() == 0,
            tr.supply@.len() == 0,
    {
        let tr = Tracker {
            config,
            balances: Balances::new(),
            supply: History::new(),
            last_time: 0,
        };
        proof {
            assert(forall|q: int|
                sum_at(tr.balances@, q) == value_at(tr.supply@, q) as int);
        }
        tr
    }

    /// The balance of `account` as of timestamp `t`; zero before the
    /// account's first recorded event.
    pub fn balance_at(&self, account: &String, t: u64) -> (v: u128)
        requires
            self.wf(),
        ensures
            v == self.spec_balance_at(account@, t as int),
    {
        self.balances.query_at(account, t)
    }

    /// The total supply as of timestamp `t`; zero before the token's first
    /// recorded event.
    pub fn supply_at(&self, t: u64) -> (v: u128)
        requires
            self.wf(),
        ensures
            v == self.spec_supply_at(t as int),
    {
        self.supply.query_at(t)
    }

    /// Classify a movement relative to the configured sink address.
    pub fn classify(&self, from: &String, to: &String) -> (k: EventKind)
        ensures
            k == classify_spec(from@, to@, self.config.sink_address@),
    {
        let from_sink = *from == self.config.sink_address;
        let to_sink = *to == self.config.sink_address;
        if from_sink && to_sink {
            EventKind::MintThenBurn
        } else if from_sink {
            EventKind::Mint
        } else if to_sink {
            EventKind::Burn
        } else {
            EventKind::Transfer
        }
    }

    /// Apply one movement of `amount` from `from` to `to` at timestamp
    /// `t`: debit and credit the ledgers as the classification demands,
    /// with every step checked. On any failure nothing is changed.
    pub fn track_balances(&mut self, t: u64, from: &String, to: &String, amount: u128) -> (r:
        Result<(), TrackError>)
        requires
            old(self).wf(),
            t >= old(self).last_time,
        ensures
            final(self).wf(),
            r == old(self).track_outcome(t, from@, to@, amount),
            r is Ok ==> Tracker::track_commit(*old(self), *final(self), t, from@, to@, amount),
            r is Err ==> *final(self) == *old(self),
    {
        proof {
            lemma_bounds_relax(*old(self), t);
        }
        let ghost pre = *old(self);
        let ghost bal0 = self.balances;
        let ghost sup0 = self.supply;
        let k = self.classify(from, to);
        match k {
            EventKind::Transfer => {
                let bf = self.balances.query_at(from, t);
                if bf < amount {
                    return Err(TrackError::Underflow);
                }
                if *from == *to {
                    self.balances.write(from, t, bf);
                    self.last_time = t;
                    proof {
                        let post = *self;
                        assert forall|q: int|
                            sum_at(post.balances@, q) == value_at(post.supply@, q) as int by {
                            assert(sum_at(pre.balances@, q) == value_at(pre.supply@, q) as int);
                        }
                        assert forall|a: Seq<char>, q: int|
                            post.spec_balance_at(a, q) as int == pre.spec_balance_at(a, q) as int
                                + (if q >= t {
                                balance_delta(k, from@, to@, a, amount)
                            } else {
                                0
                            }) by {
                            if a == from@ {
                                if q >= t {
                                    lemma_balance_stable(bal0@, a, t as int, q);
                                }
                            } else {
                                assert(hist_of(post.balances@, a) == hist_of(bal0@, a));
                            }
                        }
                    }
                    Ok(())
                } else {
                    let bt = self.balances.query_at(to, t);
                    if amount > u128::MAX - bt {
                        return Err(TrackError::Overflow);
                    }
                    self.balances.write(from, t, bf - amount);
                    let ghost bal1 = self.balances;
                    proof {
                        assert(hist_of(bal1@, to@) == hist_of(bal0@, to@));
                        assert(bal1.spec_balance_at(to@, t as int) == bt);
                    }
                    self.balances.write(to, t, bt + amount);
                    self.last_time = t;
                    proof {
                        let post = *self;
                        assert forall|q: int|
                            sum_at(post.balances@, q) == value_at(post.supply@, q) as int by {
                            assert(sum_at(bal1@, q) == sum_at(bal0@, q) + (if q >= t {
                                (bf - amount) as int - bf as int
                            } else {
                                0
                            }));
                            assert(sum_at(pre.balances@, q) == value_at(pre.supply@, q) as int);
                        }
                        assert forall|a: Seq<char>, q: int|
                            post.spec_balance_at(a, q) as int == pre.spec_balance_at(a, q) as int
                                + (if q >= t {
                                balance_delta(k, from@, to@, a, amount)
                            } else {
                                0
                            }) by {
                            if a == from@ {
                                assert(hist_of(post.balances@, a) == hist_of(bal1@, a));
                                assert(bal1.spec_balance_at(a, q) == if q >= t {
                                    (bf - amount) as u128
                                } else {
                                    bal0.spec_balance_at(a, q)
                                });
                                if q >= t {
                                    lemma_balance_stable(bal0@, a, t as int, q);
                                }
                            } else if a == to@ {
                                assert(hist_of(bal1@, a) == hist_of(bal0@, a));
                                assert(post.spec_balance_at(a, q) == if q >= t {
                                    (bt + amount) as u128
                                } else {
                                    bal1.spec_balance_at(a, q)
                                });
                                if q >= t {
                                    lemma_balance_stable(bal0@, a, t as int, q);
                                }
                            } else {
                                assert(hist_of(post.balances@, a) == hist_of(bal1@, a));
                                assert(hist_of(bal1@, a) == hist_of(bal0@, a));
                            }
                        }
                    }
                    Ok(())
                }
            },
            EventKind::Mint => {
                let s = self.supply.query_at(t);
                if amount > u128::MAX - s {
                    return Err(TrackError::Overflow);
                }
                let bt = self.balances.query_at(to, t);
                if amount > u128::MAX - bt {
                    return Err(TrackError::Overflow);
                }
                self.supply.write(t, s + amount);
                self.balances.write(to, t, bt + amount);
                self.last_time = t;
                proof {
                    let post = *self;
                    assert forall|q: int|
                        value_at(post.supply@, q) as int == value_at(pre.supply@, q) as int + (
                        if q >= t {
                            supply_delta(k, amount)
                        } else {
                            0
                        }) by {
                        if q >= t {
                            crate::history::lemma_value_at_stable(sup0@, t as int, q);
                        }
                    }
                    assert forall|q: int|
                        sum_at(post.balances@, q) == value_at(post.supply@, q) as int by {
                        assert(sum_at(pre.balances@, q) == value_at(pre.supply@, q) as int);
                        if q >= t {
                            crate::history::lemma_value_at_stable(sup0@, t as int, q);
                        }
                    }
                    assert forall|a: Seq<char>, q: int|
                        post.spec_balance_at(a, q) as int == pre.spec_balance_at(a, q) as int + (
                        if q >= t {
                            balance_delta(k, from@, to@, a, amount)
                        } else {
                            0
                        }) by {
                        if a == to@ {
                            if q >= t {
                                lemma_balance_stable(bal0@, a, t as int, q);
                            }
                        } else {
                            assert(hist_of(post.balances@, a) == hist_of(bal0@, a));
                        }
                    }
                }
                Ok(())
            },
            EventKind::Burn => {
                let bf = self.balances.query_at(from, t);
                if bf < amount {
                    return Err(TrackError::Underflow);
                }
                let s = self.supply.query_at(t);
                if s < amount {
                    return Err(TrackError::Underflow);
                }
                self.balances.write(from, t, bf - amount);
                self.supply.write(t, s - amount);
                self.last_time = t;
                proof {
                    let post = *self;
                    assert forall|q: int|
                        value_at(post.supply@, q) as int == value_at(pre.supply@, q) as int + (
                        if q >= t {
                            supply_delta(k, amount)
                        } else {
                            0
                        }) by {
                        if q >= t {
                            crate::history::lemma_value_at_stable(sup0@, t as int, q);
                        }
                    }
                    assert forall|q: int|
                        sum_at(post.balances@, q) == value_at(post.supply@, q) as int by {
                        assert(sum_at(pre.balances@, q) == value_at(pre.supply@, q) as int);
                        if q >= t {
                            crate::history::lemma_value_at_stable(sup0@, t as int, q);
                        }
                    }
                    assert forall|a: Seq<char>, q: int|
                        post.spec_balance_at(a, q) as int == pre.spec_balance_at(a, q) as int + (
                        if q >= t {
                            balance_delta(k, from@, to@, a, amount)
                        } else {
                            0
                        }) by {
                        if a == from@ {
                            if q >= t {
                                lemma_balance_stable(bal0@, a, t as int, q);
                            }
                        } else {
                            assert(hist_of(post.balances@, a) == hist_of(bal0@, a));
                        }
                    }
                }
                Ok(())
            },
            EventKind::MintThenBurn => {
                let s = self.supply.query_at(t);
                if amount > u128::MAX - s {
                    return Err(TrackError::Overflow);
                }
                self.supply.write(t, s);
                self.last_time = t;
                proof {
                    let post = *self;
                    assert forall|q: int|
                        value_at(post.supply@, q) as int == value_at(pre.supply@, q) as int + (
                        if q >= t {
                            supply_delta(k, amount)
                        } else {
                            0
                        }) by {
                        if q >= t {
                            crate::history::lemma_value_at_stable(sup0@, t as int, q);
                        }
                    }
                    assert forall|q: int|
                        sum_at(post.balances@, q) == value_at(post.supply@, q) as int by {
                        assert(sum_at(pre.balances@, q) == value_at(pre.supply@, q) as int);
                        if q >= t {
                            crate::history::lemma_value_at_stable(sup0@, t as int, q);
                        }
                    }
                }
                Ok(())
            },
        }
    }
}

impl Tracker {
    /// Hook entry point for the uncapped notification: reject a
    /// notification for any token but the tracked one before touching
    /// either ledger, otherwise delegate to the update engine. Any
    /// failure blocks the movement that triggered the call, and leaves
    /// both ledgers exactly as they were.
    pub fn block_before_send(
        &mut self,
        t: u64,
        from: &String,
        to: &String,
        denom: &String,
        amount: u128,
    ) -> (r: Result<(), TrackError>)
        requires
            old(self).wf(),
            t >= old(self).last_time,
        ensures
            final(self).wf(),
            denom@ != old(self).config.tracked_denom@ ==> r == Err::<(), TrackError>(
                TrackError::DenomMismatch,
            ),
            denom@ == old(self).config.tracked_denom@ ==> r == old(self).track_outcome(
                t,
                from@,
                to@,
                amount,
            ),
            r is Ok ==> Tracker::track_commit(*old(self), *final(self), t, from@, to@, amount),
            r is Err ==> *final(self) == *old(self),
    {
        if *denom != self.config.tracked_denom {
            return Err(TrackError::DenomMismatch);
        }
        self.track_balances(t, from, to, amount)
    }
}

/// The accounting invariant: in every well-formed tracker — and every
/// tracker reachable from a fresh one by committed updates is well formed
/// — the sum of all account balances equals the total supply at every
/// timestamp.
pub proof fn lemma_sum_equals_supply(tr: Tracker, q: int)
    requires
        tr.wf(),
    ensures
        sum_at(tr.balances@, q) == tr.spec_supply_at(q) as int,
{
}

/// The zero default: at any timestamp before an account's first recorded
/// checkpoint its balance reads zero, and before the token's first
/// recorded checkpoint the supply reads zero.
pub proof fn lemma_zero_default(tr: Tracker, a: Seq<char>, q: int)
    requires
        tr.wf(),
        forall|i: int|
            0 <= i < hist_of(tr.balances@, a).len() ==> hist_of(tr.balances@, a)[i].time > q,
        forall|i: int| 0 <= i < tr.supply@.len() ==> tr.supply@[i].time > q,
    ensures
        tr.spec_balance_at(a, q) == 0,
        tr.spec_supply_at(q) == 0,
{
    crate::history::lemma_value_at_none(hist_of(tr.balances@, a), q);
    crate::history::lemma_value_at_none(tr.supply@, q);
}

/// Checkpoint bounds only loosen as time moves forward.
pub proof fn lemma_bounds_relax(tr: Tracker, t: u64)
    requires
        tr.wf(),
        t >= tr.last_time,
    ensures
        all_bounded_by(tr.balances@, t as int),
        bounded_by(tr.supply@, t as int),
{
    assert forall|i: int| 0 <= i < tr.balances@.len() implies bounded_by(
        tr.balances@[i].hist@,
        t as int,
    ) by {
        assert(bounded_by(tr.balances@[i].hist@, tr.last_time as int));
    }
}

} // verus!
