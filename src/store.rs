//! Key-value stores of balances in which a missing key reads as zero.

use vstd::prelude::*;
use crate::{AccountId, Balance, CurrencyId};

verus! {

/// The value stored under `(currency_id, who)`, or zero where no entry has that key.
pub open spec fn entry_value(s: Seq<(CurrencyId, AccountId, Balance)>, currency_id: CurrencyId, who: AccountId) -> Balance
    decreases s.len(),
{
    if s.len() == 0 {
        0
    } else if s.last().0 == currency_id && s.last().1 == who {
        s.last().2
    } else {
        entry_value(s.drop_last(), currency_id, who)
    }
}

/// The sum of the values of all entries of `currency_id`.
pub open spec fn entries_total(s: Seq<(CurrencyId, AccountId, Balance)>, currency_id: CurrencyId) -> int
    decreases s.len(),
{
    if s.len() == 0 {
        0
    } else {
        entries_total(s.drop_last(), currency_id) + share(s.last(), currency_id)
    }
}

/// No two entries share a key.
pub open spec fn keys_unique(s: Seq<(CurrencyId, AccountId, Balance)>) -> bool {
    forall|i: int, j: int|
        0 <= i < j < s.len() ==> !(#[trigger] s[i].0 == #[trigger] s[j].0 && s[i].1 == s[j].1)
}

proof fn lemma_value_at(s: Seq<(CurrencyId, AccountId, Balance)>, i: int)
    requires
        keys_unique(s),
        0 <= i < s.len(),
    ensures
        entry_value(s, s[i].0, s[i].1) == s[i].2,
    decreases s.len(),
{
    if i < s.len() - 1 {
        lemma_value_at(s.drop_last(), i);
    }
}

proof fn lemma_value_absent(s: Seq<(CurrencyId, AccountId, Balance)>, currency_id: CurrencyId, who: AccountId)
    requires
        forall|i: int| 0 <= i < s.len() ==> !(#[trigger] s[i].0 == currency_id && s[i].1 == who),
    ensures
        entry_value(s, currency_id, who) == 0,
    decreases s.len(),
{
    if s.len() > 0 {
        assert(!(s[s.len() - 1].0 == currency_id && s[s.len() - 1].1 == who));
        lemma_value_absent(s.drop_last(), currency_id, who);
    }
}


/// What an entry adds to the total of `currency_id`.
pub open spec fn share(e: (CurrencyId, AccountId, Balance), currency_id: CurrencyId) -> int {
    if e.0 == currency_id {
        e.2 as int
    } else {
        0
    }
}

proof fn lemma_value_update(
    s: Seq<(CurrencyId, AccountId, Balance)>,
    i: int,
    e: (CurrencyId, AccountId, Balance),
    currency_id: CurrencyId,
    who: AccountId,
)
    requires
        0 <= i < s.len(),
        e.0 == s[i].0 && e.1 == s[i].1,
        !(e.0 == currency_id && e.1 == who),
    ensures
        entry_value(s.update(i, e), currency_id, who) == entry_value(s, currency_id, who),
    decreases s.len(),
{
    let t = s.update(i, e);
    if i == s.len() - 1 {
        assert(t.drop_last() =~= s.drop_last());
    } else {
        assert(t.drop_last() =~= s.drop_last().update(i, e));
        lemma_value_update(s.drop_last(), i, e, currency_id, who);
    }
}

proof fn lemma_total_update(
    s: Seq<(CurrencyId, AccountId, Balance)>,
    i: int,
    e: (CurrencyId, AccountId, Balance),
    currency_id: CurrencyId,
)
    requires
        0 <= i < s.len(),
    ensures
        entries_total(s.update(i, e), currency_id) == entries_total(s, currency_id) - share(s[i], currency_id)
            + share(e, currency_id),
    decreases s.len(),
{
    let t = s.update(i, e);
    if i == s.len() - 1 {
        assert(t.drop_last() =~= s.drop_last());
    } else {
        assert(t.drop_last() =~= s.drop_last().update(i, e));
        lemma_total_update(s.drop_last(), i, e, currency_id);
    }
}

proof fn lemma_entries_total_covers(
    s: Seq<(CurrencyId, AccountId, Balance)>,
    currency_id: CurrencyId,
    a: AccountId,
    b: AccountId,
)
    requires
        keys_unique(s),
    ensures
        entries_total(s, currency_id) >= entry_value(s, currency_id, a) + if a != b {
            entry_value(s, currency_id, b) as int
        } else {
            0
        },
    decreases s.len(),
{
    if s.len() > 0 {
        let d = s.drop_last();
        assert forall|i: int, j: int| 0 <= i < j < d.len() implies !(#[trigger] d[i].0 == #[trigger] d[j].0
            && d[i].1 == d[j].1) by {
            assert(d[i] == s[i] && d[j] == s[j]);
        }
        lemma_entries_total_covers(d, currency_id, a, b);
        let l = s.last();
        if l.0 == currency_id && (l.1 == a || l.1 == b) {
            assert forall|i: int| 0 <= i < d.len() implies !(#[trigger] d[i].0 == currency_id && d[i].1 == l.1) by {
                assert(d[i] == s[i]);
                assert(s[s.len() - 1] == l);
            }
            lemma_value_absent(d, currency_id, l.1);
        }
    }
}

/// The balances of all accounts in all assets, one entry per key.
pub struct BalanceStore {
    entries: Vec<(CurrencyId, AccountId, Balance)>,
}

impl BalanceStore {
    /// The entries held, in the order in which their keys were first written.
    pub closed spec fn entries(&self) -> Seq<(CurrencyId, AccountId, Balance)> {
        self.entries@
    }

    pub open spec fn wf(&self) -> bool {
        keys_unique(self.entries())
    }

    /// The balance of `who` in `currency_id`; zero where none was written.
    pub open spec fn value(&self, currency_id: CurrencyId, who: AccountId) -> Balance {
        entry_value(self.entries(), currency_id, who)
    }

    /// The sum of the balances of all accounts in `currency_id`.
    pub open spec fn total(&self, currency_id: CurrencyId) -> int {
        entries_total(self.entries(), currency_id)
    }

    /// An empty store, in which every balance reads as zero.
    pub fn new() -> (r: Self)
        ensures
            r.wf(),
            forall|c: CurrencyId, w: AccountId| #[trigger] r.value(c, w) == 0,
            forall|c: CurrencyId| #[trigger] r.total(c) == 0,
    {
        BalanceStore { entries: Vec::new() }
    }

    /// The sum of an asset's balances covers the balance of any one account,
    /// and of any two distinct accounts together.
    pub proof fn lemma_total_covers(&self, currency_id: CurrencyId, a: AccountId, b: AccountId)
        requires
            self.wf(),
        ensures
            self.total(currency_id) >= self.value(currency_id, a) + if a != b {
                self.value(currency_id, b) as int
            } else {
                0
            },
    {
        lemma_entries_total_covers(self.entries(), currency_id, a, b);
    }

    fn find(&self, currency_id: CurrencyId, who: AccountId) -> (r: Option<usize>)
        ensures
            match r {
                Some(i) => i < self.entries().len() && self.entries()[i as int].0 == currency_id
                    && self.entries()[i as int].1 == who,
                None => forall|i: int|
                    0 <= i < self.entries().len() ==> !(#[trigger] self.entries()[i].0 == currency_id
                        && self.entries()[i].1 == who),
            },
    {
        let mut i: usize = 0;
        while i < self.entries.len()
            invariant
                i <= self.entries@.len(),
                forall|j: int| 0 <= j < i ==> !(#[trigger] self.entries@[j].0 == currency_id
                    && self.entries@[j].1 == who),
            decreases self.entries@.len() - i,
        {
            if self.entries[i].0 == currency_id && self.entries[i].1 == who {
                return Some(i);
            }
            i = i + 1;
        }
        None
    }

    /// Reads the balance of `who` in `currency_id`.
    pub fn get(&self, currency_id: CurrencyId, who: AccountId) -> (r: Balance)
        requires
            self.wf(),
        ensures
            r == self.value(currency_id, who),
    {
        match self.find(currency_id, who) {
            Some(i) => {
                proof {
                    lemma_value_at(self.entries(), i as int);
                }
                self.entries[i].2
            },
            None => {
                proof {
                    lemma_value_absent(self.entries(), currency_id, who);
                }
                0
            },
        }
    }

    /// Writes the balance of `who` in `currency_id`, leaving every other key as it was.
    pub fn set(&mut self, currency_id: CurrencyId, who: AccountId, v: Balance)
        requires
            old(self).wf(),
        ensures
            final(self).wf(),
            final(self).value(currency_id, who) == v,
            forall|c: CurrencyId, w: AccountId|
                !(c == currency_id && w == who) ==> #[trigger] final(self).value(c, w) == old(self).value(c, w),
            forall|c: CurrencyId|
                #[trigger] final(self).total(c) == old(self).total(c) + if c == currency_id {
                    v - old(self).value(currency_id, who)
                } else {
                    0
                },
    {
        let e = (currency_id, who, v);
        match self.find(currency_id, who) {
            Some(i) => {
                let ghost s = self.entries();
                proof {
                    lemma_value_at(s, i as int);
                }
                self.entries.set(i, e);
                proof {
                    let t = s.update(i as int, e);
                    assert(self.entries@ == t);
                    assert forall|a: int, b: int| 0 <= a < b < t.len() implies !(#[trigger] t[a].0
                        == #[trigger] t[b].0 && t[a].1 == t[b].1) by {
                        assert(s[a].0 == t[a].0 && s[a].1 == t[a].1);
                        assert(s[b].0 == t[b].0 && s[b].1 == t[b].1);
                    }
                    lemma_value_at(t, i as int);
                    assert forall|c: CurrencyId, w: AccountId| !(c == currency_id && w == who) implies entry_value(t, c, w)
                        == entry_value(s, c, w) by {
                        lemma_value_update(s, i as int, e, c, w);
                    }
                    assert forall|c: CurrencyId| entries_total(t, c) == entries_total(s, c) + if c == currency_id {
                        v - entry_value(s, currency_id, who)
                    } else {
                        0
                    } by {
                        lemma_total_update(s, i as int, e, c);
                    }
                }
            },
            None => {
                let ghost s = self.entries();
                proof {
                    lemma_value_absent(s, currency_id, who);
                }
                self.entries.push(e);
                proof {
                    let t = s.push(e);
                    assert(self.entries@ == t);
                    assert(t.drop_last() =~= s);
                    assert forall|a: int, b: int| 0 <= a < b < t.len() implies !(#[trigger] t[a].0
                        == #[trigger] t[b].0 && t[a].1 == t[b].1) by {
                        assert(t[a] == s[a]);
                        if b < s.len() {
                            assert(t[b] == s[b]);
                        }
                    }
                }
            },
        }
    }
}


/// The value stored under `currency_id`, or zero where no entry has that key.
pub open spec fn issuance_value(s: Seq<(CurrencyId, Balance)>, currency_id: CurrencyId) -> Balance
    decreases s.len(),
{
    if s.len() == 0 {
        0
    } else if s.last().0 == currency_id {
        s.last().1
    } else {
        issuance_value(s.drop_last(), currency_id)
    }
}

proof fn lemma_issuance_at(s: Seq<(CurrencyId, Balance)>, i: int)
    requires
        forall|a: int, b: int| 0 <= a < b < s.len() ==> #[trigger] s[a].0 != #[trigger] s[b].0,
        0 <= i < s.len(),
    ensures
        issuance_value(s, s[i].0) == s[i].1,
    decreases s.len(),
{
    if i < s.len() - 1 {
        lemma_issuance_at(s.drop_last(), i);
    }
}

proof fn lemma_issuance_absent(s: Seq<(CurrencyId, Balance)>, currency_id: CurrencyId)
    requires
        forall|i: int| 0 <= i < s.len() ==> #[trigger] s[i].0 != currency_id,
    ensures
        issuance_value(s, currency_id) == 0,
    decreases s.len(),
{
    if s.len() > 0 {
        assert(s[s.len() - 1].0 != currency_id);
        lemma_issuance_absent(s.drop_last(), currency_id);
    }
}

proof fn lemma_issuance_update(s: Seq<(CurrencyId, Balance)>, i: int, e: (CurrencyId, Balance), currency_id: CurrencyId)
    requires
        0 <= i < s.len(),
        e.0 == s[i].0,
        e.0 != currency_id,
    ensures
        issuance_value(s.update(i, e), currency_id) == issuance_value(s, currency_id),
    decreases s.len(),
{
    let t = s.update(i, e);
    if i == s.len() - 1 {
        assert(t.drop_last() =~= s.drop_last());
    } else {
        assert(t.drop_last() =~= s.drop_last().update(i, e));
        lemma_issuance_update(s.drop_last(), i, e, currency_id);
    }
}

/// The total issuance of every asset, one entry per asset.
pub struct IssuanceStore {
    entries: Vec<(CurrencyId, Balance)>,
}

impl IssuanceStore {
    /// The entries held, in the order in which their keys were first written.
    pub closed spec fn entries(&self) -> Seq<(CurrencyId, Balance)> {
        self.entries@
    }

    pub open spec fn wf(&self) -> bool {
        forall|a: int, b: int|
            0 <= a < b < self.entries().len() ==> #[trigger] self.entries()[a].0 != #[trigger] self.entries()[b].0
    }

    /// The total issuance of `currency_id`; zero where none was written.
    pub open spec fn value(&self, currency_id: CurrencyId) -> Balance {
        issuance_value(self.entries(), currency_id)
    }

    /// An empty store, in which every issuance reads as zero.
    pub fn new() -> (r: Self)
        ensures
            r.wf(),
            forall|c: CurrencyId| #[trigger] r.value(c) == 0,
    {
        IssuanceStore { entries: Vec::new() }
    }

    fn find(&self, currency_id: CurrencyId) -> (r: Option<usize>)
        ensures
            match r {
                Some(i) => i < self.entries().len() && self.entries()[i as int].0 == currency_id,
                None => forall|i: int| 0 <= i < self.entries().len() ==> #[trigger] self.entries()[i].0 != currency_id,
            },
    {
        let mut i: usize = 0;
        while i < self.entries.len()
            invariant
                i <= self.entries@.len(),
                forall|j: int| 0 <= j < i ==> #[trigger] self.entries@[j].0 != currency_id,
            decreases self.entries@.len() - i,
        {
            if self.entries[i].0 == currency_id {
                return Some(i);
            }
            i = i + 1;
        }
        None
    }

    /// Reads the total issuance of `currency_id`.
    pub fn get(&self, currency_id: CurrencyId) -> (r: Balance)
        requires
            self.wf(),
        ensures
            r == self.value(currency_id),
    {
        match self.find(currency_id) {
            Some(i) => {
                proof {
                    lemma_issuance_at(self.entries(), i as int);
                }
                self.entries[i].1
            },
            None => {
                proof {
                    lemma_issuance_absent(self.entries(), currency_id);
                }
                0
            },
        }
    }

    /// Writes the total issuance of `currency_id`, leaving every other asset as it was.
    pub fn set(&mut self, currency_id: CurrencyId, v: Balance)
        requires
            old(self).wf(),
        ensures
            final(self).wf(),
            final(self).value(currency_id) == v,
            forall|c: CurrencyId| c != currency_id ==> #[trigger] final(self).value(c) == old(self).value(c),
    {
        let e = (currency_id, v);
        match self.find(currency_id) {
            Some(i) => {
                let ghost s = self.entries();
                self.entries.set(i, e);
                proof {
                    let t = s.update(i as int, e);
                    assert(self.entries@ == t);
                    assert forall|a: int, b: int| 0 <= a < b < t.len() implies #[trigger] t[a].0 != #[trigger] t[b].0 by {
                        assert(s[a].0 == t[a].0 && s[b].0 == t[b].0);
                    }
                    lemma_issuance_at(t, i as int);
                    assert forall|c: CurrencyId| c != currency_id implies issuance_value(t, c) == issuance_value(s, c) by {
                        lemma_issuance_update(s, i as int, e, c);
                    }
                }
            },
            None => {
                let ghost s = self.entries();
                self.entries.push(e);
                proof {
                    let t = s.push(e);
                    assert(self.entries@ == t);
                    assert(t.drop_last() =~= s);
                    assert forall|a: int, b: int| 0 <= a < b < t.len() implies #[trigger] t[a].0 != #[trigger] t[b].0 by {
                        assert(t[a] == s[a]);
                        if b < s.len() {
                            assert(t[b] == s[b]);
                        }
                    }
                }
            },
        }
    }
}

} // verus!
