//! A claims ledger: amounts of fungible tokens owed to recipients under named
//! claim batches, kept in a key-value store together with four secondary
//! indexes that stay in step with the primary records.

pub mod error;
pub mod math;
pub mod token;
pub mod models;
pub mod msg;
pub mod ledger;
pub mod paging;
pub mod state;
pub mod index;
pub mod execute;
pub mod query;
pub mod consistency;
