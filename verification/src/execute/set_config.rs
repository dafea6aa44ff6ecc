//! Changing the configuration.

use vstd::prelude::*;
use crate::error::LedgerError;
use crate::execute::Context;
use crate::models::Config;

verus! {

/// Takes a new configuration. There is nothing to configure yet, so the
/// ledger stays as it is.
pub fn exec_set_config(ctx: &mut Context, config: Config) -> (r: Result<(), LedgerError>)
    ensures
        r is Ok,
        *final(ctx) == *old(ctx),
{
    Ok(())
}

} // verus!
