//! A multi-asset balance ledger: per-asset account balances and total
//! issuance, with operations that move, create, destroy and reduce balances
//! while keeping every issuance equal to the sum of the balances it counts.

pub mod ledger;
pub mod store;

use vstd::prelude::*;

verus! {

/// Identifies a fungible asset class.
pub type CurrencyId = u64;

/// Identifies a participant of the ledger.
pub type AccountId = u64;

/// A non-negative ledger quantity.
pub type Balance = u64;

/// A signed adjustment of a balance.
pub type Amount = i128;

} // verus!
