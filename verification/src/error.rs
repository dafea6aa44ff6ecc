//! The errors that end a request.

use vstd::prelude::*;

verus! {

/// `cosmwasm_std::StdError`, carried through without being looked into.
#[verifier::external_type_specification]
#[verifier::external_body]
pub struct ExStdError(cosmwasm_std::StdError);

/// Why a request was turned down. Every error aborts the request it occurs in.
#[derive(Debug)]
pub enum LedgerError {
    /// A cap was exceeded: too many claim IDs, too many distinct tokens, or a
    /// key part too long for the store.
    Validation,
    /// The funds that came with a request do not equal the declared total.
    InsufficientFunds,
    /// A pushed token did not come from the token the request names.
    NotAuthorized,
    /// An amount or counter would leave its integer's range.
    Overflow,
    /// A division by zero.
    DivideByZero,
    /// An index entry names a record that the store does not hold.
    NotFound,
    /// An index holds a key that is no key of the index.
    Corrupt,
    /// The store reported a failure of its own.
    Store(cosmwasm_std::StdError),
}

} // verus!
