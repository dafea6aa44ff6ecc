//! The data that the ledger keeps.

use vstd::prelude::*;
use crate::token::{Token, TokenView};

verus! {

/// The ledger's configuration. It holds nothing yet.
#[derive(Clone, Copy, Debug, PartialEq, Eq, Structural)]
pub struct Config {}

/// A claim: an amount of one token owed to one recipient under one batch name.
#[derive(Debug, PartialEq, Eq)]
pub struct ClaimRecord {
    /// When the claim was last changed, in nanoseconds.
    pub updated_at: u64,
    /// The name of the batch that the claim belongs to.
    pub name: String,
    /// The token that is owed.
    pub token: Token,
    /// How much is owed.
    pub amount: u128,
}

/// What a [`ClaimRecord`] stands for in contracts.
pub struct ClaimRecordView {
    pub updated_at: u64,
    pub name: Seq<char>,
    pub token: TokenView,
    pub amount: u128,
}

impl View for ClaimRecord {
    type V = ClaimRecordView;

    open spec fn view(&self) -> ClaimRecordView {
        ClaimRecordView {
            updated_at: self.updated_at,
            name: self.name@,
            token: self.token@,
            amount: self.amount,
        }
    }
}

impl Clone for ClaimRecord {
    fn clone(&self) -> (r: ClaimRecord)
        ensures
            r == *self,
    {
        ClaimRecord {
            updated_at: self.updated_at,
            name: self.name.clone(),
            token: self.token.clone(),
            amount: self.amount,
        }
    }
}

} // verus!
