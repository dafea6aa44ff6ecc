//! The requests that read the ledger.

pub mod claims;
pub mod config;
