//! The requests that change the ledger.

use vstd::prelude::*;
use crate::state::Store;
use crate::token::Coin;

pub mod claim;
pub mod set_config;
pub mod upsert;

verus! {

/// What a request that changes the ledger comes with: the ledger's store, the
/// present time in nanoseconds, who sent the request, and the funds attached.
pub struct Context<'a> {
    pub store: Store<'a>,
    pub now: u64,
    pub sender: String,
    pub funds: Vec<Coin>,
}

impl<'a> Context<'a> {
    /// Whether `self` and `other` differ in nothing but the store.
    pub open spec fn same_caller(&self, other: &Context<'a>) -> bool {
        &&& self.now == other.now
        &&& self.sender == other.sender
        &&& self.funds == other.funds
    }
}

} // verus!
