//! The ledger's storage: one counter, the table of claim IDs, the claim
//! records and four indexes, all kept in a key-value store through
//! `cw_storage_plus`.
//!
//! What the store holds is named by functions without a body: one for the
//! counter, one for each of the six maps, one for the stray keys that the
//! decoder of the sorted indexes cannot take apart, and one for the other
//! keys whose bytes cannot be read. A key counts as held where the bytes
//! stored under it read as a value of its map. The functions that call `cw_storage_plus` state what
//! each call does to these contents, and nothing here proves those
//! statements. Writing and removing never fail. Reading a key that is held
//! always succeeds; any other read fails only where the store holds bytes that
//! cannot be read, which the unreadable keys name.

use vstd::prelude::*;
use vstd::utf8::encode_utf8;
use cosmwasm_std::StdError;
use crate::error::LedgerError;
use crate::execute::Context;
use crate::ledger::{IdentityKey, LedgerState};
use crate::models::{ClaimRecord, ClaimRecordView};
use crate::msg::{InstantiateMsg, OrderKey};
use crate::paging::{
    amount_descending, amount_keys, ids_ascending, is_page, recipient_ids, time_descending,
    time_keys, token_keys,
};
use crate::token::{Token, TokenView};

verus! {

/// The longest key part, in bytes, that the store can take in any place but
/// the last of a key.
pub const MAX_KEY_PART: usize = 0xFFFF;

/// Whether `part` is short enough to stand anywhere in a key.
pub open spec fn key_part_fits(part: Seq<char>) -> bool {
    encode_utf8(part).len() <= MAX_KEY_PART
}

/// A ledger's storage: a key-value store of the host, reached through
/// `cosmwasm_std::Storage`. What it holds is known only through the functions
/// of this module.
#[verifier::external_body]
pub struct Store<'a> {
    inner: &'a mut dyn cosmwasm_std::Storage,
}

/// The counter of claim IDs, as stored under `id_counter`.
pub uninterp spec fn stored_counter(s: Store) -> Option<u64>;

/// The table from identity keys to claim IDs, as stored under `id_lutab`.
pub uninterp spec fn stored_ids(s: Store) -> Map<IdentityKey, u64>;

/// The claim records, as stored under `claim_records`.
pub uninterp spec fn stored_records(s: Store) -> Map<u64, ClaimRecordView>;

/// The index by recipient, as stored under `addr_2_claim_id`.
pub uninterp spec fn recipient_index(s: Store) -> Set<(Seq<char>, u64)>;

/// The index by time, as stored under `time_2_claim_id`.
pub uninterp spec fn time_index(s: Store) -> Set<(Seq<char>, u64, u64)>;

/// The index by amount, as stored under `amount_2_claim_id`.
pub uninterp spec fn amount_index(s: Store) -> Set<(Seq<char>, u128, u64)>;

/// The index by token, as stored under `token_2_claim_id`.
pub uninterp spec fn token_index(s: Store) -> Set<(Seq<char>, Seq<char>, u64)>;

/// The stray keys of the three sorted indexes: for each index and each
/// recipient, the raw keys under the recipient's prefix in the index, taken
/// without that prefix, that are not framed as `is_framed` says. These are
/// the keys that the decoder of `cw_storage_plus` cannot take apart. The index
/// is named by the ordering that reads it.
pub uninterp spec fn stray_keys(s: Store) -> Set<(OrderKey, Seq<char>, Seq<u8>)>;

/// The unreadable keys: the raw keys under the ledger's namespaces, the key of
/// the counter among them, that are no stray key and under which the store
/// holds bytes that do not read as an entry of their map, be it for the key or
/// for the value. Writing an entry makes its key readable and no other key
/// unreadable.
pub uninterp spec fn unreadable_keys(s: Store) -> Set<Seq<u8>>;

/// No raw keys.
pub open spec fn no_keys() -> Set<Seq<u8>> {
    Set::empty()
}

/// Whether `keys` holds no key.
pub open spec fn holds_none(keys: Set<Seq<u8>>) -> bool {
    forall|key: Seq<u8>| !keys.contains(key)
}

/// Whether a raw key, taken without the recipient's prefix, starts with two
/// bytes that give, in big-endian order, a length that the rest of the key
/// can hold. The keys of the sorted indexes are framed so: the length of the
/// sort value, the sort value, the ID.
pub open spec fn is_framed(key: Seq<u8>) -> bool {
    key.len() >= 2 && key[0] * 256 + key[1] <= key.len() - 2
}

/// Whether the index read by `order` holds no stray key for `recipient`.
pub open spec fn no_strays(
    stray: Set<(OrderKey, Seq<char>, Seq<u8>)>,
    order: OrderKey,
    recipient: Seq<char>,
) -> bool {
    forall|key: Seq<u8>| !stray.contains((order, recipient, key))
}

/// Whether the stray keys that the index read by `order` holds for
/// `recipient` are those of `keys` that are not framed.
pub open spec fn strays_are_among(
    stray: Set<(OrderKey, Seq<char>, Seq<u8>)>,
    order: OrderKey,
    recipient: Seq<char>,
    keys: Seq<Seq<u8>>,
) -> bool {
    forall|key: Seq<u8>|
        #[trigger] stray.contains((order, recipient, key)) <==> keys.contains(key) && !is_framed(
            key,
        )
}

/// Whether `list` holds the keys of `among` and no others.
pub open spec fn lists<K>(list: Seq<K>, among: Set<K>) -> bool {
    forall|k: K| #[trigger] among.contains(k) <==> list.contains(k)
}

/// What a list of token keys stands for in contracts.
pub open spec fn token_keys_view(keys: Seq<(String, u64)>) -> Seq<(Seq<char>, u64)> {
    keys.map_values(|k: (String, u64)| (k.0@, k.1))
}

/// Whether every token key of `keys` is short enough to stand in a key.
pub open spec fn token_keys_fit(keys: Seq<(Seq<char>, u64)>) -> bool {
    forall|i: int| 0 <= i < keys.len() ==> key_part_fits((#[trigger] keys[i]).0)
}

/// What a list of raw keys stands for in contracts.
pub open spec fn raw_keys_view(keys: Seq<Vec<u8>>) -> Seq<Seq<u8>> {
    keys.map_values(|k: Vec<u8>| k@)
}

impl<'a> View for Store<'a> {
    type V = LedgerState;

    open spec fn view(&self) -> LedgerState {
        LedgerState {
            counter: stored_counter(*self),
            ids: stored_ids(*self),
            records: stored_records(*self),
            by_recipient: recipient_index(*self),
            by_time: time_index(*self),
            by_amount: amount_index(*self),
            by_token: token_index(*self),
            stray: stray_keys(*self),
        }
    }
}

/// The record that the stored fields stand for.
pub open spec fn record_of_parts(
    updated_at: u64,
    name: Seq<char>,
    is_address: bool,
    ident: Seq<char>,
    amount: u128,
) -> ClaimRecordView {
    ClaimRecordView {
        updated_at,
        name,
        token: if is_address {
            TokenView::Address(ident)
        } else {
            TokenView::Denom(ident)
        },
        amount,
    }
}

/// The fields of a record as plain values: time, batch name, whether the
/// token is a contract address, the token's denomination or address, and the
/// amount.
pub type RecordParts = (u64, String, bool, String, u128);

/// The record that `parts` stand for.
pub open spec fn parts_view(parts: RecordParts) -> ClaimRecordView {
    record_of_parts(parts.0, parts.1@, parts.2, parts.3@, parts.4)
}

impl<'a> Store<'a> {
    /// Whether the store holds no unreadable key. Reads of such a store do
    /// not fail.
    pub open spec fn readable(&self) -> bool {
        holds_none(unreadable_keys(*self))
    }

    /// Takes `storage` as a ledger's storage. Nothing is read or written. The
    /// operations on the result hold what they state as long as `storage`
    /// behaves as `cosmwasm_std::Storage` describes a key-value store.
    #[verifier::external_body]
    pub fn open<S: cosmwasm_std::Storage>(storage: &'a mut S) -> (r: Store<'a>) {
        Store { inner: storage }
    }

    /// Empties the ledger: removes the counter and every key under the
    /// ledger's namespaces.
    pub fn clear(&mut self)
        ensures
            final(self)@ == LedgerState::empty(),
            final(self).readable(),
    {
        clear_all(self)
    }
}

/// `cw_storage_plus::Item::remove` on the counter and `cw_storage_plus::Map::clear`
/// on each of the six maps: afterwards the store holds no key of the ledger.
#[verifier::external_body]
fn clear_all(s: &mut Store)
    ensures
        stored_counter(*final(s)) == LedgerState::empty().counter,
        stored_ids(*final(s)) == LedgerState::empty().ids,
        stored_records(*final(s)) == LedgerState::empty().records,
        recipient_index(*final(s)) == LedgerState::empty().by_recipient,
        time_index(*final(s)) == LedgerState::empty().by_time,
        amount_index(*final(s)) == LedgerState::empty().by_amount,
        token_index(*final(s)) == LedgerState::empty().by_token,
        stray_keys(*final(s)) == LedgerState::empty().stray,
        unreadable_keys(*final(s)) == no_keys(),
{
    cw_storage_plus::Item::<cosmwasm_std::Uint64>::new("id_counter").remove(s.inner);
    cw_storage_plus::Map::<(&str, &str, &str), cosmwasm_std::Uint64>::new("id_lutab").clear(s.inner);
    cw_storage_plus::Map::<u64, StoredRecord>::new("claim_records").clear(s.inner);
    cw_storage_plus::Map::<(&str, u64), ()>::new("addr_2_claim_id").clear(s.inner);
    cw_storage_plus::Map::<(&str, u64, u64), ()>::new("time_2_claim_id").clear(s.inner);
    cw_storage_plus::Map::<(&str, u128, u64), ()>::new("amount_2_claim_id").clear(s.inner);
    cw_storage_plus::Map::<(&str, &str, u64), ()>::new("token_2_claim_id").clear(s.inner);
}

/// `cw_storage_plus::Item::may_load` on the counter: the stored value where
/// there is one. Where none is stored it gives nothing, or fails
/// where the bytes stored under the key cannot be read.
#[verifier::external_body]
pub(crate) fn counter_may_load(s: &Store) -> (r: Result<Option<u64>, StdError>)
    ensures
        stored_counter(*s) is Some ==> r is Ok && r->Ok_0 == stored_counter(*s),
        stored_counter(*s) is None && r is Ok ==> r->Ok_0 is None,
        holds_none(unreadable_keys(*s)) ==> r is Ok,
{
    cw_storage_plus::Item::<cosmwasm_std::Uint64>::new("id_counter").may_load(s.inner).map(
        |o| o.map(|n| n.u64()),
    )
}

/// `cw_storage_plus::Item::save` on the counter: it succeeds, since a number
/// always turns into bytes; the counter is `n` afterwards and nothing else
/// changed.
#[verifier::external_body]
pub(crate) fn counter_save(s: &mut Store, n: u64) -> (r: Result<(), StdError>)
    ensures
        stored_counter(*final(s)) == Some(n),
        final(s)@ == (LedgerState { counter: stored_counter(*final(s)), ..old(s)@ }),
        r is Ok,
        unreadable_keys(*final(s)).subset_of(unreadable_keys(*old(s))),
{
    cw_storage_plus::Item::<cosmwasm_std::Uint64>::new("id_counter").save(
        s.inner,
        &cosmwasm_std::Uint64::new(n),
    )
}

/// `cw_storage_plus::Map::may_load` on the table of IDs: the ID stored for the
/// key where there is one. Where none is stored it gives nothing, or fails
/// where the bytes stored under the key cannot be read.
#[verifier::external_body]
pub(crate) fn ids_may_load(s: &Store, name: &str, token_key: &str, recipient: &str) -> (r: Result<
    Option<u64>,
    StdError,
>)
    requires
        key_part_fits(name@),
        key_part_fits(token_key@),
    ensures
        stored_ids(*s).dom().contains((name@, token_key@, recipient@)) ==> r is Ok && r->Ok_0
            == Some(stored_ids(*s)[(name@, token_key@, recipient@)]),
        !stored_ids(*s).dom().contains((name@, token_key@, recipient@)) && r is Ok ==> r->Ok_0
            is None,
        holds_none(unreadable_keys(*s)) ==> r is Ok,
{
    cw_storage_plus::Map::<(&str, &str, &str), cosmwasm_std::Uint64>::new("id_lutab").may_load(
        s.inner,
        (name, token_key, recipient),
    ).map(|o| o.map(|n| n.u64()))
}

/// `cw_storage_plus::Map::save` on the table of IDs: it succeeds, since a
/// number always turns into bytes; the key is bound to `id` afterwards and
/// nothing else changed.
#[verifier::external_body]
pub(crate) fn ids_save(s: &mut Store, name: &str, token_key: &str, recipient: &str, id: u64) -> (r:
    Result<(), StdError>)
    requires
        key_part_fits(name@),
        key_part_fits(token_key@),
    ensures
        stored_ids(*final(s)) == stored_ids(*old(s)).insert(
            (name@, token_key@, recipient@),
            id,
        ),
        final(s)@ == (LedgerState { ids: stored_ids(*final(s)), ..old(s)@ }),
        r is Ok,
        unreadable_keys(*final(s)).subset_of(unreadable_keys(*old(s))),
{
    cw_storage_plus::Map::<(&str, &str, &str), cosmwasm_std::Uint64>::new("id_lutab").save(
        s.inner,
        (name, token_key, recipient),
        &cosmwasm_std::Uint64::new(id),
    )
}

/// The fields of a record as the store holds them: time, batch name, whether
/// the token is a contract address, the token's denomination or address, and
/// the amount.
pub type StoredRecord = (cosmwasm_std::Uint64, String, bool, String, cosmwasm_std::Uint128);

/// `cw_storage_plus::Map::may_load` on the records: the fields of the record
/// stored under `id` where there is one. Where none is stored it gives nothing,
/// or fails where the bytes stored under the key cannot be read.
#[verifier::external_body]
pub(crate) fn records_may_load(s: &Store, id: u64) -> (r: Result<Option<RecordParts>, StdError>)
    ensures
        stored_records(*s).dom().contains(id) ==> r is Ok && r->Ok_0 is Some && parts_view(
            r->Ok_0->0,
        ) == stored_records(*s)[id],
        !stored_records(*s).dom().contains(id) && r is Ok ==> r->Ok_0 is None,
        holds_none(unreadable_keys(*s)) ==> r is Ok,
{
    cw_storage_plus::Map::<u64, StoredRecord>::new("claim_records").may_load(s.inner, id).map(
        |o| o.map(|v| (v.0.u64(), v.1, v.2, v.3, v.4.u128())),
    )
}

/// `cw_storage_plus::Map::save` on the records: it succeeds, since these
/// fields always turn into bytes; the record made of them is stored under `id`
/// afterwards and nothing else changed.
#[verifier::external_body]
pub(crate) fn records_save(
    s: &mut Store,
    id: u64,
    updated_at: u64,
    name: &str,
    is_address: bool,
    ident: &str,
    amount: u128,
) -> (r: Result<(), StdError>)
    ensures
        stored_records(*final(s)) == stored_records(*old(s)).insert(
            id,
            record_of_parts(updated_at, name@, is_address, ident@, amount),
        ),
        final(s)@ == (LedgerState { records: stored_records(*final(s)), ..old(s)@ }),
        r is Ok,
        unreadable_keys(*final(s)).subset_of(unreadable_keys(*old(s))),
{
    cw_storage_plus::Map::<u64, StoredRecord>::new("claim_records").save(
        s.inner,
        id,
        &(updated_at.into(), name.to_string(), is_address, ident.to_string(), amount.into()),
    )
}

/// `cw_storage_plus::Map::remove` on the records: no record is stored under
/// `id` afterwards, nothing else changed, and no key became unreadable.
#[verifier::external_body]
pub(crate) fn records_remove(s: &mut Store, id: u64)
    ensures
        stored_records(*final(s)) == stored_records(*old(s)).remove(id),
        final(s)@ == (LedgerState { records: stored_records(*final(s)), ..old(s)@ }),
        unreadable_keys(*final(s)).subset_of(unreadable_keys(*old(s))),
{
    cw_storage_plus::Map::<u64, StoredRecord>::new("claim_records").remove(s.inner, id)
}

/// `cw_storage_plus::Map::save` on the index by recipient: it succeeds, the
/// entry is in the index afterwards, and nothing else changed.
#[verifier::external_body]
pub(crate) fn recipient_index_save(s: &mut Store, recipient: &str, id: u64) -> (r: Result<
    (),
    StdError,
>)
    requires
        key_part_fits(recipient@),
    ensures
        recipient_index(*final(s)) == recipient_index(*old(s)).insert(
            (recipient@, id),
        ),
        final(s)@ == (LedgerState {
            by_recipient: recipient_index(*final(s)),
            ..old(s)@
        }),
        r is Ok,
        unreadable_keys(*final(s)).subset_of(unreadable_keys(*old(s))),
{
    cw_storage_plus::Map::<(&str, u64), ()>::new("addr_2_claim_id").save(
        s.inner,
        (recipient, id),
        &(),
    )
}

/// `cw_storage_plus::Map::remove` on the index by recipient: the entry is not
/// in the index afterwards, and nothing else changed.
#[verifier::external_body]
pub(crate) fn recipient_index_remove(s: &mut Store, recipient: &str, id: u64)
    requires
        key_part_fits(recipient@),
    ensures
        recipient_index(*final(s)) == recipient_index(*old(s)).remove((recipient@, id)),
        final(s)@ == (LedgerState { by_recipient: recipient_index(*final(s)), ..old(s)@ }),
        unreadable_keys(*final(s)).subset_of(unreadable_keys(*old(s))),
{
    cw_storage_plus::Map::<(&str, u64), ()>::new("addr_2_claim_id").remove(
        s.inner,
        (recipient, id),
    )
}

/// `cw_storage_plus::Prefix::keys` under the prefix of `recipient` in the
/// index by recipient, ascending, cut off after `limit` keys: where it
/// succeeds, the first page of the IDs of `recipient` in ascending order. It
/// succeeds where the store holds no unreadable key.
#[verifier::external_body]
pub(crate) fn recipient_index_page(s: &Store, recipient: &str, limit: usize) -> (r: Result<
    Vec<u64>,
    StdError,
>)
    requires
        key_part_fits(recipient@),
    ensures
        holds_none(unreadable_keys(*s)) ==> r is Ok,
        r is Ok ==> is_page(
            r->Ok_0@,
            recipient_ids(recipient_index(*s), recipient@),
            ids_ascending(),
            limit as nat,
        ),
{
    cw_storage_plus::Map::<(&str, u64), ()>::new("addr_2_claim_id").prefix(recipient).keys(
        s.inner,
        None,
        None,
        cosmwasm_std::Order::Ascending,
    ).take(limit).collect()
}

/// `cw_storage_plus::Map::save` on the index by time: it succeeds, the entry is
/// in the index afterwards, and nothing else changed.
#[verifier::external_body]
pub(crate) fn time_index_save(s: &mut Store, recipient: &str, updated_at: u64, id: u64) -> (r:
    Result<(), StdError>)
    requires
        key_part_fits(recipient@),
    ensures
        time_index(*final(s)) == time_index(*old(s)).insert(
            (recipient@, updated_at, id),
        ),
        final(s)@ == (LedgerState { by_time: time_index(*final(s)), ..old(s)@ }),
        r is Ok,
        unreadable_keys(*final(s)).subset_of(unreadable_keys(*old(s))),
{
    cw_storage_plus::Map::<(&str, u64, u64), ()>::new("time_2_claim_id").save(
        s.inner,
        (recipient, updated_at, id),
        &(),
    )
}

/// `cw_storage_plus::Map::remove` on the index by time: the entry is not in
/// the index afterwards, and nothing else changed.
#[verifier::external_body]
pub(crate) fn time_index_remove(s: &mut Store, recipient: &str, updated_at: u64, id: u64)
    requires
        key_part_fits(recipient@),
    ensures
        time_index(*final(s)) == time_index(*old(s)).remove((recipient@, updated_at, id)),
        final(s)@ == (LedgerState { by_time: time_index(*final(s)), ..old(s)@ }),
        unreadable_keys(*final(s)).subset_of(unreadable_keys(*old(s))),
{
    cw_storage_plus::Map::<(&str, u64, u64), ()>::new("time_2_claim_id").remove(
        s.inner,
        (recipient, updated_at, id),
    )
}

/// `cw_storage_plus::Prefix::keys` under the prefix of `recipient` in the
/// index by time, descending, below `below` where one is given, cut off after
/// `limit` keys: where it succeeds, the first page of those keys in
/// descending order. It succeeds where the store holds no unreadable key. The
/// index must hold no stray key for `recipient`, which the decoder could not
/// take apart.
#[verifier::external_body]
pub(crate) fn time_index_page(
    s: &Store,
    recipient: &str,
    below: Option<(u64, u64)>,
    limit: usize,
) -> (r: Result<Vec<(u64, u64)>, StdError>)
    requires
        key_part_fits(recipient@),
        no_strays(stray_keys(*s), OrderKey::UpdatedAt, recipient@),
    ensures
        holds_none(unreadable_keys(*s)) ==> r is Ok,
        r is Ok ==> is_page(
            r->Ok_0@,
            time_keys(time_index(*s), recipient@, below),
            time_descending(),
            limit as nat,
        ),
{
    cw_storage_plus::Map::<(&str, u64, u64), ()>::new("time_2_claim_id").sub_prefix(recipient).keys(
        s.inner,
        None,
        below.map(cw_storage_plus::Bound::exclusive),
        cosmwasm_std::Order::Descending,
    ).take(limit).collect()
}

/// `cw_storage_plus::Map::save` on the index by amount: it succeeds, the entry
/// is in the index afterwards, and nothing else changed.
#[verifier::external_body]
pub(crate) fn amount_index_save(s: &mut Store, recipient: &str, amount: u128, id: u64) -> (r:
    Result<(), StdError>)
    requires
        key_part_fits(recipient@),
    ensures
        amount_index(*final(s)) == amount_index(*old(s)).insert(
            (recipient@, amount, id),
        ),
        final(s)@ == (LedgerState { by_amount: amount_index(*final(s)), ..old(s)@ }),
        r is Ok,
        unreadable_keys(*final(s)).subset_of(unreadable_keys(*old(s))),
{
    cw_storage_plus::Map::<(&str, u128, u64), ()>::new("amount_2_claim_id").save(
        s.inner,
        (recipient, amount, id),
        &(),
    )
}

/// `cw_storage_plus::Map::remove` on the index by amount: the entry is not in
/// the index afterwards, and nothing else changed.
#[verifier::external_body]
pub(crate) fn amount_index_remove(s: &mut Store, recipient: &str, amount: u128, id: u64)
    requires
        key_part_fits(recipient@),
    ensures
        amount_index(*final(s)) == amount_index(*old(s)).remove((recipient@, amount, id)),
        final(s)@ == (LedgerState { by_amount: amount_index(*final(s)), ..old(s)@ }),
        unreadable_keys(*final(s)).subset_of(unreadable_keys(*old(s))),
{
    cw_storage_plus::Map::<(&str, u128, u64), ()>::new("amount_2_claim_id").remove(
        s.inner,
        (recipient, amount, id),
    )
}

/// `cw_storage_plus::Prefix::keys` under the prefix of `recipient` in the
/// index by amount, descending, below `below` where one is given, cut off
/// after `limit` keys: where it succeeds, the first page of those keys in
/// descending order. It succeeds where the store holds no unreadable key. The
/// index must hold no stray key for `recipient`, which the decoder could not
/// take apart.
#[verifier::external_body]
pub(crate) fn amount_index_page(
    s: &Store,
    recipient: &str,
    below: Option<(u128, u64)>,
    limit: usize,
) -> (r: Result<Vec<(u128, u64)>, StdError>)
    requires
        key_part_fits(recipient@),
        no_strays(stray_keys(*s), OrderKey::Amount, recipient@),
    ensures
        holds_none(unreadable_keys(*s)) ==> r is Ok,
        r is Ok ==> is_page(
            r->Ok_0@,
            amount_keys(amount_index(*s), recipient@, below),
            amount_descending(),
            limit as nat,
        ),
{
    cw_storage_plus::Map::<(&str, u128, u64), ()>::new("amount_2_claim_id").sub_prefix(
        recipient,
    ).keys(
        s.inner,
        None,
        below.map(cw_storage_plus::Bound::exclusive),
        cosmwasm_std::Order::Descending,
    ).take(limit).collect()
}

/// `cw_storage_plus::Map::save` on the index by token: it succeeds, the entry is
/// in the index afterwards, and nothing else changed.
#[verifier::external_body]
pub(crate) fn token_index_save(s: &mut Store, recipient: &str, token_key: &str, id: u64) -> (r:
    Result<(), StdError>)
    requires
        key_part_fits(recipient@),
        key_part_fits(token_key@),
    ensures
        token_index(*final(s)) == token_index(*old(s)).insert(
            (recipient@, token_key@, id),
        ),
        final(s)@ == (LedgerState { by_token: token_index(*final(s)), ..old(s)@ }),
        r is Ok,
        unreadable_keys(*final(s)).subset_of(unreadable_keys(*old(s))),
{
    cw_storage_plus::Map::<(&str, &str, u64), ()>::new("token_2_claim_id").save(
        s.inner,
        (recipient, token_key, id),
        &(),
    )
}

/// `cw_storage_plus::Map::remove` on the index by token: the entry is not in
/// the index afterwards, and nothing else changed.
#[verifier::external_body]
pub(crate) fn token_index_remove(s: &mut Store, recipient: &str, token_key: &str, id: u64)
    requires
        key_part_fits(recipient@),
        key_part_fits(token_key@),
    ensures
        token_index(*final(s)) == token_index(*old(s)).remove((recipient@, token_key@, id)),
        final(s)@ == (LedgerState { by_token: token_index(*final(s)), ..old(s)@ }),
        unreadable_keys(*final(s)).subset_of(unreadable_keys(*old(s))),
{
    cw_storage_plus::Map::<(&str, &str, u64), ()>::new("token_2_claim_id").remove(
        s.inner,
        (recipient, token_key, id),
    )
}

/// `cw_storage_plus::Map::may_load` on the index by recipient: whether the
/// entry is in the index. Where it is not, the answer is no, or a failure
/// where the bytes stored under the key cannot be read.
#[verifier::external_body]
pub(crate) fn recipient_index_may_load(s: &Store, recipient: &str, id: u64) -> (r: Result<
    bool,
    StdError,
>)
    requires
        key_part_fits(recipient@),
    ensures
        recipient_index(*s).contains((recipient@, id)) ==> r is Ok && r->Ok_0,
        !recipient_index(*s).contains((recipient@, id)) && r is Ok ==> !r->Ok_0,
        holds_none(unreadable_keys(*s)) ==> r is Ok,
{
    cw_storage_plus::Map::<(&str, u64), ()>::new("addr_2_claim_id").may_load(
        s.inner,
        (recipient, id),
    ).map(|o| o.is_some())
}

/// `cw_storage_plus::Prefix::keys` under the prefix of `recipient` in the
/// index by time, from end to end: where it succeeds, the keys that the index
/// holds for `recipient`. It succeeds where the store holds no unreadable
/// key. The index must hold no stray key for `recipient`, which the decoder
/// could not take apart.
#[verifier::external_body]
pub(crate) fn time_index_entries(s: &Store, recipient: &str) -> (r: Result<
    Vec<(u64, u64)>,
    StdError,
>)
    requires
        key_part_fits(recipient@),
        no_strays(stray_keys(*s), OrderKey::UpdatedAt, recipient@),
    ensures
        holds_none(unreadable_keys(*s)) ==> r is Ok,
        r is Ok ==> lists(r->Ok_0@, time_keys(time_index(*s), recipient@, None)),
{
    cw_storage_plus::Map::<(&str, u64, u64), ()>::new("time_2_claim_id").sub_prefix(recipient).keys(
        s.inner,
        None,
        None,
        cosmwasm_std::Order::Ascending,
    ).collect()
}

/// `cw_storage_plus::Prefix::keys` under the prefix of `recipient` in the
/// index by amount, from end to end: where it succeeds, the keys that the
/// index holds for `recipient`. It succeeds where the store holds no
/// unreadable key. The index must hold no stray key for `recipient`, which the
/// decoder could not take apart.
#[verifier::external_body]
pub(crate) fn amount_index_entries(s: &Store, recipient: &str) -> (r: Result<
    Vec<(u128, u64)>,
    StdError,
>)
    requires
        key_part_fits(recipient@),
        no_strays(stray_keys(*s), OrderKey::Amount, recipient@),
    ensures
        holds_none(unreadable_keys(*s)) ==> r is Ok,
        r is Ok ==> lists(r->Ok_0@, amount_keys(amount_index(*s), recipient@, None)),
{
    cw_storage_plus::Map::<(&str, u128, u64), ()>::new("amount_2_claim_id").sub_prefix(
        recipient,
    ).keys(s.inner, None, None, cosmwasm_std::Order::Ascending).collect()
}

/// `cw_storage_plus::Prefix::keys` under the prefix of `recipient` in the
/// index by token, from end to end: where it succeeds, the keys that the index
/// holds for `recipient`, each with a token key that is short enough to stand
/// in a key, as it stood in one. It succeeds where the store holds no
/// unreadable key. The index must hold no stray key for `recipient`, which the
/// decoder could not take apart.
#[verifier::external_body]
pub(crate) fn token_index_entries(s: &Store, recipient: &str) -> (r: Result<
    Vec<(String, u64)>,
    StdError,
>)
    requires
        key_part_fits(recipient@),
        no_strays(stray_keys(*s), OrderKey::Token, recipient@),
    ensures
        holds_none(unreadable_keys(*s)) ==> r is Ok,
        r is Ok ==> lists(token_keys_view(r->Ok_0@), token_keys(token_index(*s), recipient@, None)),
        r is Ok ==> token_keys_fit(token_keys_view(r->Ok_0@)),
{
    cw_storage_plus::Map::<(&str, &str, u64), ()>::new("token_2_claim_id").sub_prefix(
        recipient,
    ).keys(s.inner, None, None, cosmwasm_std::Order::Ascending).collect()
}

/// `cw_storage_plus::Prefix::keys_raw` under the prefix of `recipient` in the
/// index by time: every raw key there, without the prefix and not decoded. The
/// stray keys of `recipient` in this index are those among them that are not
/// framed.
#[verifier::external_body]
pub(crate) fn time_index_raw_keys(s: &Store, recipient: &str) -> (r: Vec<Vec<u8>>)
    requires
        key_part_fits(recipient@),
    ensures
        strays_are_among(stray_keys(*s), OrderKey::UpdatedAt, recipient@, raw_keys_view(r@)),
{
    cw_storage_plus::Map::<(&str, u64, u64), ()>::new("time_2_claim_id").sub_prefix(
        recipient,
    ).keys_raw(s.inner, None, None, cosmwasm_std::Order::Ascending).collect()
}

/// `cw_storage_plus::Prefix::keys_raw` under the prefix of `recipient` in the
/// index by amount: every raw key there, without the prefix and not decoded.
/// The stray keys of `recipient` in this index are those among them that are
/// not framed.
#[verifier::external_body]
pub(crate) fn amount_index_raw_keys(s: &Store, recipient: &str) -> (r: Vec<Vec<u8>>)
    requires
        key_part_fits(recipient@),
    ensures
        strays_are_among(stray_keys(*s), OrderKey::Amount, recipient@, raw_keys_view(r@)),
{
    cw_storage_plus::Map::<(&str, u128, u64), ()>::new("amount_2_claim_id").sub_prefix(
        recipient,
    ).keys_raw(s.inner, None, None, cosmwasm_std::Order::Ascending).collect()
}

/// `cw_storage_plus::Prefix::keys_raw` under the prefix of `recipient` in the
/// index by token: every raw key there, without the prefix and not decoded.
/// The stray keys of `recipient` in this index are those among them that are
/// not framed.
#[verifier::external_body]
pub(crate) fn token_index_raw_keys(s: &Store, recipient: &str) -> (r: Vec<Vec<u8>>)
    requires
        key_part_fits(recipient@),
    ensures
        strays_are_among(stray_keys(*s), OrderKey::Token, recipient@, raw_keys_view(r@)),
{
    cw_storage_plus::Map::<(&str, &str, u64), ()>::new("token_2_claim_id").sub_prefix(
        recipient,
    ).keys_raw(s.inner, None, None, cosmwasm_std::Order::Ascending).collect()
}

/// Whether `part` is short enough to stand anywhere in a key.
pub fn fits_key_part(part: &String) -> (b: bool)
    ensures
        b == key_part_fits(part@),
{
    part.as_str().as_bytes().len() <= MAX_KEY_PART
}

/// Whether `key` is framed: its first two bytes give a length that the rest
/// of the key can hold.
pub fn key_is_framed(key: &Vec<u8>) -> (b: bool)
    ensures
        b == is_framed(key@),
{
    if key.len() < 2 {
        false
    } else {
        let high: usize = key[0] as usize;
        let low: usize = key[1] as usize;
        high * 256 + low <= key.len() - 2
    }
}

/// Whether the index read by `order_by` holds no stray key for `recipient`:
/// every raw key under the recipient's prefix is looked at, and none is
/// decoded.
pub fn has_no_strays(s: &Store, order_by: OrderKey, recipient: &String) -> (b: bool)
    requires
        key_part_fits(recipient@),
    ensures
        b == no_strays(s@.stray, order_by, recipient@),
{
    let keys = match order_by {
        OrderKey::UpdatedAt => time_index_raw_keys(s, recipient.as_str()),
        OrderKey::Amount => amount_index_raw_keys(s, recipient.as_str()),
        OrderKey::Token => token_index_raw_keys(s, recipient.as_str()),
    };
    let ghost raw = raw_keys_view(keys@);
    assert(strays_are_among(s@.stray, order_by, recipient@, raw));
    let mut i: usize = 0;
    while i < keys.len()
        invariant
            i <= keys.len(),
            raw == raw_keys_view(keys@),
            strays_are_among(s@.stray, order_by, recipient@, raw),
            forall|j: int| 0 <= j < i ==> is_framed(#[trigger] raw[j]),
        decreases keys.len() - i,
    {
        assert(raw[i as int] == keys[i as int]@);
        if !key_is_framed(&keys[i]) {
            proof {
                assert(raw.contains(raw[i as int]));
                assert(s@.stray.contains((order_by, recipient@, raw[i as int])));
            }
            return false;
        }
        i = i + 1;
    }
    proof {
        assert forall|key: Seq<u8>| !s@.stray.contains((order_by, recipient@, key)) by {
            if s@.stray.contains((order_by, recipient@, key)) {
                let j = choose|j: int| 0 <= j < raw.len() && raw[j] == key;
                assert(is_framed(raw[j]));
            }
        }
    }
    true
}

/// What an optional record stands for in contracts.
pub open spec fn record_option_view(record: Option<ClaimRecord>) -> Option<ClaimRecordView> {
    match record {
        Some(rec) => Some(rec@),
        None => None,
    }
}

/// The record stored under `id`, if there is one. A live record is always
/// found. Where there is none, nothing is given, unless the store holds
/// unreadable bytes, when it may report a failure instead.
pub fn load_record(s: &Store, id: u64) -> (r: Result<Option<ClaimRecord>, LedgerError>)
    ensures
        r is Ok ==> record_option_view(r->Ok_0) == s@.record_at(id),
        r is Err ==> r->Err_0 is Store && !s@.records.dom().contains(id) && !s.readable(),
{
    match records_may_load(s, id) {
        Ok(Some(parts)) => {
            let token = if parts.2 {
                Token::Address(parts.3)
            } else {
                Token::Denom(parts.3)
            };
            Ok(Some(ClaimRecord { updated_at: parts.0, name: parts.1, token, amount: parts.4 }))
        },
        Ok(None) => Ok(None),
        Err(e) => Err(LedgerError::Store(e)),
    }
}

/// Stores `record` under `id`. It always succeeds, and nothing else changes.
pub fn save_record(s: &mut Store, id: u64, record: &ClaimRecord) -> (r: Result<(), LedgerError>)
    ensures
        r is Ok,
        final(s)@ == (LedgerState { records: old(s)@.records.insert(id, record@), ..old(s)@ }),
        old(s).readable() ==> final(s).readable(),
{
    let stored = match &record.token {
        Token::Address(address) => records_save(
            s,
            id,
            record.updated_at,
            record.name.as_str(),
            true,
            address.as_str(),
            record.amount,
        ),
        Token::Denom(denom) => records_save(
            s,
            id,
            record.updated_at,
            record.name.as_str(),
            false,
            denom.as_str(),
            record.amount,
        ),
    };
    match stored {
        Ok(()) => Ok(()),
        Err(e) => Err(LedgerError::Store(e)),
    }
}

/// Sets the ledger up. Nothing is written: a ledger starts from what its
/// store holds.
pub fn init(ctx: &mut Context, msg: InstantiateMsg) -> (r: Result<(), LedgerError>)
    ensures
        r is Ok,
        *final(ctx) == *old(ctx),
{
    Ok(())
}

} // verus!
