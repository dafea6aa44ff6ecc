//! The requests that the ledger takes and the answers that it gives.

use vstd::prelude::*;
use crate::models::{ClaimRecord, Config};
use crate::token::Token;

verus! {

/// The request that sets the ledger up.
#[derive(Clone, Copy, Debug, PartialEq, Eq, Structural)]
pub struct InstantiateMsg {}

/// A request that changes the ledger's configuration.
#[derive(Clone, Copy, Debug, PartialEq, Eq, Structural)]
pub enum ExecuteMsg {
    SetConfig(Config),
}

/// A request that reads the ledger's configuration.
#[derive(Clone, Copy, Debug, PartialEq, Eq, Structural)]
pub enum QueryMsg {
    Config {},
}

/// The request that moves the ledger to a new version.
#[derive(Clone, Copy, Debug, PartialEq, Eq, Structural)]
pub struct MigrateMsg {}

/// The answer to [`QueryMsg::Config`].
#[derive(Clone, Copy, Debug, PartialEq, Eq, Structural)]
pub struct ConfigResponse(pub Config);

/// A request to add to what recipients are owed: under the batch `name`, each
/// recipient in `amounts` is owed that much more of `token`.
#[derive(Debug, PartialEq, Eq)]
pub struct UpsertMsg {
    pub name: String,
    pub token: Token,
    pub amounts: Vec<(String, u128)>,
}

/// A request to withdraw claims: the claims with the given IDs, or, where none
/// are given, the sender's claims up to the batch cap.
#[derive(Debug, PartialEq, Eq)]
pub struct ClaimMsg {
    pub ids: Option<Vec<u64>>,
}

/// The orderings by which a recipient's claims can be read.
#[derive(Clone, Copy, Debug, PartialEq, Eq, Structural)]
pub enum OrderKey {
    UpdatedAt,
    Amount,
    Token,
}

/// Where a paginated read resumes: the sort value and the ID of the last
/// claim of the page before.
#[derive(Debug, PartialEq, Eq)]
pub enum OrderKeyCursor {
    UpdatedAt((u64, u64)),
    Amount((u128, u64)),
    Token((String, u64)),
}

/// What an [`OrderKeyCursor`] stands for in contracts.
pub enum OrderKeyCursorView {
    UpdatedAt((u64, u64)),
    Amount((u128, u64)),
    Token((Seq<char>, u64)),
}

impl View for OrderKeyCursor {
    type V = OrderKeyCursorView;

    open spec fn view(&self) -> OrderKeyCursorView {
        match self {
            OrderKeyCursor::UpdatedAt(k) => OrderKeyCursorView::UpdatedAt(*k),
            OrderKeyCursor::Amount(k) => OrderKeyCursorView::Amount(*k),
            OrderKeyCursor::Token(k) => OrderKeyCursorView::Token((k.0@, k.1)),
        }
    }
}

/// A request for one page of the claims of `address`, ordered by `order_by`
/// and resuming after `cursor`.
#[derive(Debug, PartialEq, Eq)]
pub struct ClaimsQueryMsg {
    pub address: String,
    pub order_by: OrderKey,
    pub cursor: Option<OrderKeyCursor>,
}

/// One page of claims, and the cursor for the next page where there may be one.
#[derive(Debug, PartialEq, Eq)]
pub struct ClaimsResponse {
    pub claims: Vec<ClaimRecord>,
    pub cursor: Option<OrderKeyCursor>,
}

} // verus!
