//! Per-account checkpoint store: the balance ledger.
//!
//! Each account name owns one history. Accounts not yet written hold the
//! empty history, so their balance reads as zero at every timestamp. The
//! store also carries the spec-level sum of all balances as of a timestamp,
//! which the update engine uses to tie balances to the total supply.

use vstd::prelude::*;

use crate::history::{bounded_by, sorted, value_at, written, Checkpoint, History};

verus! {

/// One account's name and its balance history.
pub struct Account {
    pub name: String,
    pub hist: History,
}

/// The balance history of the account named `a`: the history of the entry
/// of `s` carrying that name, or the empty history when no entry does.
pub open spec fn hist_of(s: Seq<Account>, a: Seq<char>) -> Seq<Checkpoint>
    decreases s.len(),
{
    if s.len() == 0 {
        Seq::<Checkpoint>::empty()
    } else if s.last().name@ == a {
        s.last().hist@
    } else {
        hist_of(s.drop_last(), a)
    }
}

/// The sum, over all entries of `s`, of the balances as of timestamp `t`.
pub open spec fn sum_at(s: Seq<Account>, t: int) -> int
    decreases s.len(),
{
    if s.len() == 0 {
        0
    } else {
        sum_at(s.drop_last(), t) + value_at(s.last().hist@, t)
    }
}

/// Entries carry pairwise distinct account names.
pub open spec fn distinct_names(s: Seq<Account>) -> bool {
    forall|i: int, j: int| 0 <= i < j < s.len() ==> s[i].name@ != s[j].name@
}

/// Every history of `s` has strictly increasing timestamps.
pub open spec fn all_sorted(s: Seq<Account>) -> bool {
    forall|i: int| 0 <= i < s.len() ==> sorted(s[i].hist@)
}

/// Every checkpoint of every history of `s` lies at or before `t`.
pub open spec fn all_bounded_by(s: Seq<Account>, t: int) -> bool {
    forall|i: int| 0 <= i < s.len() ==> bounded_by(s[i].hist@, t)
}

/// The balance ledger: one checkpoint history per account name.
pub struct Balances {
    accounts: Vec<Account>,
}

impl Balances {
    pub closed spec fn view(&self) -> Seq<Account> {
        self.accounts@
    }

    /// Distinct account names, each history sorted by timestamp.
    pub open spec fn wf(&self) -> bool {
        distinct_names(self@) && all_sorted(self@)
    }

    /// The balance of the account named `a` as of timestamp `t`.
    pub open spec fn spec_balance_at(&self, a: Seq<char>, t: int) -> u128 {
        value_at(hist_of(self@, a), t)
    }

    /// An empty ledger: every account reads zero at every timestamp.
    pub fn new() -> (b: Balances)
        ensures
            b@ == Seq::<Account>::empty(),
            b.wf(),
    {
        Balances { accounts: Vec::new() }
    }

    /// The index of the entry named `account`, if one exists.
    fn find(&self, account: &String) -> (r: Option<usize>)
        ensures
            match r {
                Some(i) => i < self@.len() && self@[i as int].name@ == account@,
                None => forall|j: int| 0 <= j < self@.len() ==> self@[j].name@ != account@,
            },
    {
        let n = self.accounts.len();
        let mut i: usize = 0;
        while i < n
            invariant
                n == self@.len(),
                i <= n,
                forall|j: int| 0 <= j < i ==> self@[j].name@ != account@,
            decreases n - i,
        {
            if self.accounts[i].name == *account {
                return Some(i);
            }
            i = i + 1;
        }
        None
    }

    /// The balance of `account` as of timestamp `t`; zero for an account
    /// with no checkpoint at or before `t`.
    pub fn query_at(&self, account: &String, t: u64) -> (v: u128)
        requires
            self.wf(),
        ensures
            v == self.spec_balance_at(account@, t as int),
    {
        match self.find(account) {
            Some(i) => {
                proof {
                    lemma_hist_of_found(self@, account@, i as int);
                }
                self.accounts[i].hist.query_at(t)
            },
            None => {
                proof {
                    lemma_hist_of_absent(self@, account@);
                }
                0
            },
        }
    }

    /// Record balance `v` for `account` as of timestamp `t`, creating the
    /// account's history if it has none. Other accounts are untouched, and
    /// the sum of all balances moves exactly by the change to `account`.
    pub fn write(&mut self, account: &String, t: u64, v: u128)
        requires
            old(self).wf(),
            all_bounded_by(old(self)@, t as int),
        ensures
            final(self).wf(),
            all_bounded_by(final(self)@, t as int),
            hist_of(final(self)@, account@) == written(hist_of(old(self)@, account@), t, v),
            forall|b: Seq<char>|
                b != account@ ==> hist_of(final(self)@, b) == hist_of(old(self)@, b),
            forall|q: int|
                final(self).spec_balance_at(account@, q) == if q >= t {
                    v
                } else {
                    old(self).spec_balance_at(account@, q)
                },
            forall|q: int|
                sum_at(final(self)@, q) == sum_at(old(self)@, q) + (if q >= t {
                    v as int - old(self).spec_balance_at(account@, t as int) as int
                } else {
                    0
                }),
    {
        let ghost s0 = self@;
        match self.find(account) {
            Some(i) => {
                proof {
                    lemma_hist_of_found(s0, account@, i as int);
                    assert(sorted(s0[i as int].hist@));
                    assert(bounded_by(s0[i as int].hist@, t as int));
                }
                let mut acc = self.accounts.remove(i);
                acc.hist.write(t, v);
                self.accounts.insert(i, acc);
                proof {
                    let s1 = self@;
                    let a2 = s1[i as int];
                    assert(s1 =~= s0.update(i as int, a2));
                    lemma_hist_of_update(s0, i as int, a2, account@);
                    assert forall|b: Seq<char>| b != account@ implies hist_of(s1, b) == hist_of(
                        s0,
                        b,
                    ) by {
                        lemma_hist_of_update(s0, i as int, a2, b);
                    }
                    assert forall|q: int|
                        sum_at(s1, q) == sum_at(s0, q) + (if q >= t {
                            v as int - value_at(hist_of(s0, account@), t as int) as int
                        } else {
                            0
                        }) by {
                        lemma_sum_update(s0, i as int, a2, q);
                        if q >= t {
                            crate::history::lemma_value_at_stable(s0[i as int].hist@, t as int, q);
                        }
                    }
                }
            },
            None => {
                proof {
                    lemma_hist_of_absent(s0, account@);
                }
                let mut h = History::new();
                h.write(t, v);
                let acc = Account { name: account.clone(), hist: h };
                self.accounts.push(acc);
                proof {
                    let s1 = self@;
                    assert(s1.drop_last() =~= s0);
                    assert(s1.last().name@ == account@);
                    assert(hist_of(s1, account@) == written(hist_of(s0, account@), t, v));
                    assert forall|b: Seq<char>| b != account@ implies hist_of(s1, b) == hist_of(
                        s0,
                        b,
                    ) by {
                    }
                    assert forall|q: int|
                        sum_at(s1, q) == sum_at(s0, q) + (if q >= t {
                            v as int - value_at(hist_of(s0, account@), t as int) as int
                        } else {
                            0
                        }) by {
                        crate::history::lemma_value_at_none(hist_of(s0, account@), q);
                        crate::history::lemma_value_at_none(hist_of(s0, account@), t as int);
                    }
                }
            },
        }
    }
}

/// With distinct names, the history of the name at index `i` is that
/// entry's history.
pub proof fn lemma_hist_of_found(s: Seq<Account>, a: Seq<char>, i: int)
    requires
        distinct_names(s),
        0 <= i < s.len(),
        s[i].name@ == a,
    ensures
        hist_of(s, a) == s[i].hist@,
    decreases s.len(),
{
    if i < s.len() - 1 {
        lemma_hist_of_found(s.drop_last(), a, i);
    }
}

/// A name carried by no entry owns the empty history.
pub proof fn lemma_hist_of_absent(s: Seq<Account>, a: Seq<char>)
    requires
        forall|j: int| 0 <= j < s.len() ==> s[j].name@ != a,
    ensures
        hist_of(s, a) == Seq::<Checkpoint>::empty(),
    decreases s.len(),
{
    if s.len() > 0 {
        lemma_hist_of_absent(s.drop_last(), a);
    }
}

/// Replacing the entry at `i` by one with the same name rebinds that name's
/// history and leaves every other name's history unchanged.
pub proof fn lemma_hist_of_update(s: Seq<Account>, i: int, a2: Account, b: Seq<char>)
    requires
        distinct_names(s),
        0 <= i < s.len(),
        a2.name@ == s[i].name@,
    ensures
        hist_of(s.update(i, a2), b) == if b == a2.name@ {
            a2.hist@
        } else {
            hist_of(s, b)
        },
    decreases s.len(),
{
    let s2 = s.update(i, a2);
    if i == s.len() - 1 {
        assert(s2.drop_last() =~= s.drop_last());
    } else {
        assert(s2.drop_last() =~= s.drop_last().update(i, a2));
        assert(s2.last() == s.last());
        lemma_hist_of_update(s.drop_last(), i, a2, b);
    }
}

/// Replacing the entry at `i` moves the sum of balances, at each timestamp,
/// by exactly the difference between the new and the old history's value.
pub proof fn lemma_sum_update(s: Seq<Account>, i: int, a2: Account, q: int)
    requires
        0 <= i < s.len(),
    ensures
        sum_at(s.update(i, a2), q) == sum_at(s, q) - value_at(s[i].hist@, q) + value_at(
            a2.hist@,
            q,
        ),
    decreases s.len(),
{
    let s2 = s.update(i, a2);
    if i == s.len() - 1 {
        assert(s2.drop_last() =~= s.drop_last());
    } else {
        assert(s2.drop_last() =~= s.drop_last().update(i, a2));
        assert(s2.last() == s.last());
        lemma_sum_update(s.drop_last(), i, a2, q);
    }
}

/// Once every history of `s` is bounded by `t`, any one account's balance
/// reads alike at `t` and at every later timestamp.
pub proof fn lemma_balance_stable(s: Seq<Account>, a: Seq<char>, t: int, q: int)
    requires
        all_sorted(s),
        all_bounded_by(s, t),
        t <= q,
    ensures
        value_at(hist_of(s, a), q) == value_at(hist_of(s, a), t),
{
    lemma_hist_of_wf(s, a, t);
    crate::history::lemma_value_at_stable(hist_of(s, a), t, q);
}

/// The history any single name owns is sorted and bounded whenever every
/// entry's history is.
pub proof fn lemma_hist_of_wf(s: Seq<Account>, a: Seq<char>, t: int)
    requires
        all_sorted(s),
        all_bounded_by(s, t),
    ensures
        sorted(hist_of(s, a)),
        bounded_by(hist_of(s, a), t),
    decreases s.len(),
{
    if s.len() > 0 {
        lemma_hist_of_wf(s.drop_last(), a, t);
    }
}

} // verus!
