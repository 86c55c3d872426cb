//! The ledger: operations over the balance and issuance stores that keep
//! each asset's total issuance equal to the sum of its balances.

use vstd::prelude::*;
use crate::store::{BalanceStore, IssuanceStore};
use crate::{AccountId, Amount, Balance, CurrencyId};

verus! {

/// Why a ledger operation was refused. A refused operation changes nothing.
#[derive(Debug, Clone, Copy, PartialEq, Eq, Structural)]
pub enum Error {
    /// The account holds less than the amount asked for.
    BalanceTooLow,
    /// The asset's total issuance would exceed the largest balance.
    TotalIssuanceOverflow,
    /// The magnitude of a signed amount is not a balance.
    AmountIntoBalanceFailed,
}

/// What a successful request reports to its observers.
#[derive(Debug, Clone, Copy, PartialEq, Eq, Structural)]
pub enum Event {
    /// `(currency_id, from, to, amount)`: a transfer took place.
    Transferred(CurrencyId, AccountId, AccountId, Balance),
}

/// A multi-asset ledger: the balance of every account in every asset, and
/// the total issuance of every asset.
pub struct Module {
    issuance: IssuanceStore,
    balances: BalanceStore,
}

/// Every balance outside `currency_id`'s accounts `a` and `b`, and every
/// issuance but `currency_id`'s, is the same in `post` as in `pre`.
pub open spec fn others_kept(pre: Module, post: Module, currency_id: CurrencyId, a: AccountId, b: AccountId) -> bool {
    &&& forall|c: CurrencyId, w: AccountId|
        !(c == currency_id && (w == a || w == b)) ==> #[trigger] post.balance_of(c, w) == pre.balance_of(c, w)
    &&& forall|c: CurrencyId| c != currency_id ==> #[trigger] post.issuance_of(c) == pre.issuance_of(c)
}

/// Every balance and every issuance is the same in `post` as in `pre`.
pub open spec fn same_ledger(pre: Module, post: Module) -> bool {
    &&& forall|c: CurrencyId, w: AccountId| #[trigger] post.balance_of(c, w) == pre.balance_of(c, w)
    &&& forall|c: CurrencyId| #[trigger] post.issuance_of(c) == pre.issuance_of(c)
}

/// How `transfer` of `amount` from `from` to `to` takes `pre` to `post` with result `r`.
pub open spec fn transfer_outcome(
    pre: Module,
    post: Module,
    currency_id: CurrencyId,
    from: AccountId,
    to: AccountId,
    amount: Balance,
    r: Result<(), Error>,
) -> bool {
    if pre.balance_of(currency_id, from) < amount {
        r == Err::<(), Error>(Error::BalanceTooLow) && post == pre
    } else if from == to {
        r == Ok::<(), Error>(()) && post == pre
    } else {
        &&& r == Ok::<(), Error>(())
        &&& post.balance_of(currency_id, from) == pre.balance_of(currency_id, from) - amount
        &&& post.balance_of(currency_id, to) == pre.balance_of(currency_id, to) + amount
        &&& post.issuance_of(currency_id) == pre.issuance_of(currency_id)
        &&& others_kept(pre, post, currency_id, from, to)
    }
}

/// How `deposit` of `amount` to `who` takes `pre` to `post` with result `r`.
pub open spec fn deposit_outcome(
    pre: Module,
    post: Module,
    currency_id: CurrencyId,
    who: AccountId,
    amount: Balance,
    r: Result<(), Error>,
) -> bool {
    if pre.issuance_of(currency_id) + amount > u64::MAX {
        r == Err::<(), Error>(Error::TotalIssuanceOverflow) && post == pre
    } else {
        &&& r == Ok::<(), Error>(())
        &&& post.balance_of(currency_id, who) == pre.balance_of(currency_id, who) + amount
        &&& post.issuance_of(currency_id) == pre.issuance_of(currency_id) + amount
        &&& others_kept(pre, post, currency_id, who, who)
    }
}

/// How `withdraw` of `amount` from `who` takes `pre` to `post` with result `r`.
pub open spec fn withdraw_outcome(
    pre: Module,
    post: Module,
    currency_id: CurrencyId,
    who: AccountId,
    amount: Balance,
    r: Result<(), Error>,
) -> bool {
    if pre.balance_of(currency_id, who) < amount {
        r == Err::<(), Error>(Error::BalanceTooLow) && post == pre
    } else {
        &&& r == Ok::<(), Error>(())
        &&& post.balance_of(currency_id, who) == pre.balance_of(currency_id, who) - amount
        &&& post.issuance_of(currency_id) == pre.issuance_of(currency_id) - amount
        &&& others_kept(pre, post, currency_id, who, who)
    }
}

/// The total of the balances given to `currency_id` by an allocation list
/// of `(account, currency, balance)` triples.
pub open spec fn genesis_issuance(endowed: Seq<(AccountId, CurrencyId, Balance)>, currency_id: CurrencyId) -> int
    decreases endowed.len(),
{
    if endowed.len() == 0 {
        0
    } else {
        genesis_issuance(endowed.drop_last(), currency_id) + if endowed.last().1 == currency_id {
            endowed.last().2 as int
        } else {
            0
        }
    }
}

/// The total of the balances given to `who` in `currency_id` by an allocation list.
pub open spec fn genesis_balance(
    endowed: Seq<(AccountId, CurrencyId, Balance)>,
    currency_id: CurrencyId,
    who: AccountId,
) -> int
    decreases endowed.len(),
{
    if endowed.len() == 0 {
        0
    } else {
        genesis_balance(endowed.drop_last(), currency_id, who) + if endowed.last().1 == currency_id
            && endowed.last().0 == who {
            endowed.last().2 as int
        } else {
            0
        }
    }
}

proof fn lemma_genesis_prefix(endowed: Seq<(AccountId, CurrencyId, Balance)>, n: int, currency_id: CurrencyId)
    requires
        0 <= n <= endowed.len(),
    ensures
        genesis_issuance(endowed.take(n), currency_id) <= genesis_issuance(endowed, currency_id),
    decreases endowed.len(),
{
    if n == endowed.len() {
        assert(endowed.take(n) =~= endowed);
    } else {
        assert(endowed.drop_last().take(n) =~= endowed.take(n));
        lemma_genesis_prefix(endowed.drop_last(), n, currency_id);
    }
}

/// The magnitude of a signed amount.
pub open spec fn magnitude(by_amount: Amount) -> int {
    if by_amount < 0 {
        -by_amount
    } else {
        by_amount as int
    }
}

/// A deposit of `amount` followed at once by a withdrawal of the same amount
/// from the same account succeeds and restores every balance and issuance.
pub proof fn lemma_deposit_withdraw_round_trip(
    s0: Module,
    s1: Module,
    s2: Module,
    currency_id: CurrencyId,
    who: AccountId,
    amount: Balance,
    r1: Result<(), Error>,
    r2: Result<(), Error>,
)
    requires
        deposit_outcome(s0, s1, currency_id, who, amount, r1),
        r1 is Ok,
        withdraw_outcome(s1, s2, currency_id, who, amount, r2),
    ensures
        r2 is Ok,
        same_ledger(s0, s2),
{
}

impl Module {
    /// The total issuance of `currency_id`.
    pub closed spec fn issuance_of(&self, currency_id: CurrencyId) -> Balance {
        self.issuance.value(currency_id)
    }

    /// The balance of `who` in `currency_id`; zero for an account never credited.
    pub closed spec fn balance_of(&self, currency_id: CurrencyId, who: AccountId) -> Balance {
        self.balances.value(currency_id, who)
    }

    /// The sum, over all accounts, of their balances in `currency_id`.
    pub closed spec fn held(&self, currency_id: CurrencyId) -> int {
        self.balances.total(currency_id)
    }

    /// The stores are well formed and each asset's issuance is the sum of its balances.
    pub closed spec fn wf(&self) -> bool {
        &&& self.issuance.wf()
        &&& self.balances.wf()
        &&& forall|c: CurrencyId| #[trigger] self.issuance.value(c) == self.balances.total(c)
    }

    /// In a well-formed ledger the total issuance of an asset is the sum of
    /// the balances of all accounts in it.
    pub proof fn lemma_conservation(&self, currency_id: CurrencyId)
        requires
            self.wf(),
        ensures
            self.issuance_of(currency_id) == self.held(currency_id),
    {
    }

    /// An empty ledger: no issuance and no balance in any asset.
    pub fn new() -> (r: Module)
        ensures
            r.wf(),
            forall|c: CurrencyId, w: AccountId| #[trigger] r.balance_of(c, w) == 0,
            forall|c: CurrencyId| #[trigger] r.issuance_of(c) == 0,
    {
        Module { issuance: IssuanceStore::new(), balances: BalanceStore::new() }
    }

    /// The total issuance of `currency_id`.
    pub fn total_issuance(&self, currency_id: CurrencyId) -> (r: Balance)
        requires
            self.wf(),
        ensures
            r == self.issuance_of(currency_id),
    {
        self.issuance.get(currency_id)
    }

    /// The balance of `who` in `currency_id`.
    pub fn balance(&self, currency_id: CurrencyId, who: AccountId) -> (r: Balance)
        requires
            self.wf(),
        ensures
            r == self.balance_of(currency_id, who),
    {
        self.balances.get(currency_id, who)
    }

    /// Whether `who` could withdraw `amount` of `currency_id`; changes nothing.
    pub fn ensure_can_withdraw(&self, currency_id: CurrencyId, who: AccountId, amount: Balance) -> (r: Result<(), Error>)
        requires
            self.wf(),
        ensures
            r == if self.balance_of(currency_id, who) >= amount {
                Ok::<(), Error>(())
            } else {
                Err(Error::BalanceTooLow)
            },
    {
        if self.balances.get(currency_id, who) >= amount {
            Ok(())
        } else {
            Err(Error::BalanceTooLow)
        }
    }

    /// Moves `amount` of `currency_id` from `from` to `to`. A transfer to the
    /// sender itself changes nothing; no transfer changes any issuance.
    pub fn transfer(&mut self, currency_id: CurrencyId, from: AccountId, to: AccountId, amount: Balance) -> (r: Result<(), Error>)
        requires
            old(self).wf(),
        ensures
            final(self).wf(),
            transfer_outcome(*old(self), *final(self), currency_id, from, to, amount, r),
            forall|c: CurrencyId| #[trigger] final(self).issuance_of(c) == old(self).issuance_of(c),
    {
        let from_balance = self.balances.get(currency_id, from);
        if from_balance < amount {
            return Err(Error::BalanceTooLow);
        }
        if from != to {
            let to_balance = self.balances.get(currency_id, to);
            proof {
                self.balances.lemma_total_covers(currency_id, from, to);
                assert(self.issuance.value(currency_id) == self.balances.total(currency_id));
            }
            self.balances.set(currency_id, from, from_balance - amount);
            self.balances.set(currency_id, to, to_balance + amount);
        }
        Ok(())
    }

    /// Creates `amount` of `currency_id` in the account `who`.
    pub fn deposit(&mut self, currency_id: CurrencyId, who: AccountId, amount: Balance) -> (r: Result<(), Error>)
        requires
            old(self).wf(),
        ensures
            final(self).wf(),
            deposit_outcome(*old(self), *final(self), currency_id, who, amount, r),
    {
        let issued = self.issuance.get(currency_id);
        if amount > u64::MAX - issued {
            return Err(Error::TotalIssuanceOverflow);
        }
        let held = self.balances.get(currency_id, who);
        proof {
            self.balances.lemma_total_covers(currency_id, who, who);
        }
        self.issuance.set(currency_id, issued + amount);
        self.balances.set(currency_id, who, held + amount);
        Ok(())
    }

    /// Destroys `amount` of `currency_id` held by `who`.
    pub fn withdraw(&mut self, currency_id: CurrencyId, who: AccountId, amount: Balance) -> (r: Result<(), Error>)
        requires
            old(self).wf(),
        ensures
            final(self).wf(),
            withdraw_outcome(*old(self), *final(self), currency_id, who, amount, r),
    {
        let held = self.balances.get(currency_id, who);
        if held < amount {
            return Err(Error::BalanceTooLow);
        }
        let issued = self.issuance.get(currency_id);
        proof {
            self.balances.lemma_total_covers(currency_id, who, who);
        }
        self.issuance.set(currency_id, issued - amount);
        self.balances.set(currency_id, who, held - amount);
        Ok(())
    }

    /// Destroys up to `amount` of `currency_id` held by `who`, as much as it
    /// holds, and returns the part of `amount` that could not be taken.
    pub fn slash(&mut self, currency_id: CurrencyId, who: AccountId, amount: Balance) -> (r: Balance)
        requires
            old(self).wf(),
        ensures
            final(self).wf(),
            old(self).balance_of(currency_id, who) >= amount ==> {
                &&& r == 0
                &&& final(self).balance_of(currency_id, who) == old(self).balance_of(currency_id, who) - amount
                &&& final(self).issuance_of(currency_id) == old(self).issuance_of(currency_id) - amount
            },
            old(self).balance_of(currency_id, who) < amount ==> {
                &&& r == amount - old(self).balance_of(currency_id, who)
                &&& final(self).balance_of(currency_id, who) == 0
                &&& final(self).issuance_of(currency_id) == old(self).issuance_of(currency_id) - old(self).balance_of(
                    currency_id,
                    who,
                )
            },
            others_kept(*old(self), *final(self), currency_id, who, who),
    {
        let held = self.balances.get(currency_id, who);
        let slashed = if held < amount {
            held
        } else {
            amount
        };
        let issued = self.issuance.get(currency_id);
        proof {
            self.balances.lemma_total_covers(currency_id, who, who);
        }
        self.issuance.set(currency_id, issued - slashed);
        self.balances.set(currency_id, who, held - slashed);
        amount - slashed
    }

    /// Adjusts the balance of `who` in `currency_id` by a signed amount: a
    /// positive one is deposited, and the magnitude of any other is withdrawn.
    pub fn update_balance(&mut self, currency_id: CurrencyId, who: AccountId, by_amount: Amount) -> (r: Result<(), Error>)
        requires
            old(self).wf(),
        ensures
            final(self).wf(),
            magnitude(by_amount) > u64::MAX ==> r == Err::<(), Error>(Error::AmountIntoBalanceFailed) && *final(self)
                == *old(self),
            magnitude(by_amount) <= u64::MAX && by_amount > 0 ==> deposit_outcome(
                *old(self),
                *final(self),
                currency_id,
                who,
                by_amount as Balance,
                r,
            ),
            magnitude(by_amount) <= u64::MAX && by_amount <= 0 ==> withdraw_outcome(
                *old(self),
                *final(self),
                currency_id,
                who,
                magnitude(by_amount) as Balance,
                r,
            ),
    {
        if by_amount > u64::MAX as i128 || by_amount < -(u64::MAX as i128) {
            return Err(Error::AmountIntoBalanceFailed);
        }
        let by_balance: Balance = if by_amount < 0 {
            (-by_amount) as u64
        } else {
            by_amount as u64
        };
        if by_amount > 0 {
            self.deposit(currency_id, who, by_balance)
        } else {
            self.withdraw(currency_id, who, by_balance)
        }
    }

    /// Serves a transfer request from the authenticated account `from` to the
    /// resolved account `to`, and returns the event that reports it.
    pub fn handle_transfer(&mut self, from: AccountId, to: AccountId, currency_id: CurrencyId, amount: Balance) -> (r: Result<Event, Error>)
        requires
            old(self).wf(),
        ensures
            final(self).wf(),
            transfer_outcome(
                *old(self),
                *final(self),
                currency_id,
                from,
                to,
                amount,
                match r {
                    Ok(_) => Ok::<(), Error>(()),
                    Err(e) => Err(e),
                },
            ),
            r is Ok ==> r == Ok::<Event, Error>(Event::Transferred(currency_id, from, to, amount)),
    {
        match self.transfer(currency_id, from, to, amount) {
            Ok(()) => Ok(Event::Transferred(currency_id, from, to, amount)),
            Err(e) => Err(e),
        }
    }

    /// Builds the ledger from an allocation list of `(account, currency,
    /// balance)` triples. Each triple credits its account and its asset's
    /// issuance, so repeated keys add up in both. Fails, with no ledger, where
    /// the allocations of some asset add up past the largest balance.
    pub fn initialize(endowed_accounts: &Vec<(AccountId, CurrencyId, Balance)>) -> (r: Result<Module, Error>)
        ensures
            r is Ok <==> forall|c: CurrencyId| #[trigger] genesis_issuance(endowed_accounts@, c) <= u64::MAX,
            r is Err ==> r == Err::<Module, Error>(Error::TotalIssuanceOverflow),
            r matches Ok(m) ==> {
                &&& m.wf()
                &&& forall|c: CurrencyId| #[trigger] m.issuance_of(c) == genesis_issuance(endowed_accounts@, c)
                &&& forall|c: CurrencyId, w: AccountId| #[trigger] m.balance_of(c, w) == genesis_balance(
                    endowed_accounts@,
                    c,
                    w,
                )
            },
    {
        let ghost s = endowed_accounts@;
        let mut m = Module::new();
        let mut i: usize = 0;
        proof {
            assert(s.take(0) =~= Seq::<(AccountId, CurrencyId, Balance)>::empty());
        }
        while i < endowed_accounts.len()
            invariant
                s == endowed_accounts@,
                i <= s.len(),
                m.wf(),
                forall|c: CurrencyId| #[trigger] m.issuance_of(c) == genesis_issuance(s.take(i as int), c),
                forall|c: CurrencyId, w: AccountId| #[trigger] m.balance_of(c, w) == genesis_balance(s.take(i as int), c, w),
            decreases s.len() - i,
        {
            let (who, currency_id, amount) = endowed_accounts[i];
            let res = m.deposit(currency_id, who, amount);
            proof {
                assert(s.take(i + 1).drop_last() =~= s.take(i as int));
            }
            if res.is_err() {
                proof {
                    lemma_genesis_prefix(s, i + 1, currency_id);
                    assert(genesis_issuance(s, currency_id) > u64::MAX);
                }
                return Err(Error::TotalIssuanceOverflow);
            }
            i = i + 1;
        }
        proof {
            assert(s.take(s.len() as int) =~= s);
            assert forall|c: CurrencyId| #[trigger] genesis_issuance(s, c) <= u64::MAX by {
                assert(m.issuance_of(c) == genesis_issuance(s, c));
            }
        }
        Ok(m)
    }
}

} // verus!
