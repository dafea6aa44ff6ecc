//! Reading the configuration.

use vstd::prelude::*;
use crate::error::LedgerError;
use crate::models::Config;
use crate::msg::ConfigResponse;

verus! {

/// The ledger's configuration, which holds nothing yet.
pub fn query_config() -> (r: Result<ConfigResponse, LedgerError>)
    ensures
        r is Ok,
        r->Ok_0 == ConfigResponse(Config {}),
{
    Ok(ConfigResponse(Config {}))
}

} // verus!
