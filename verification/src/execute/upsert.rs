//! Crediting recipients: the ID of a claim is resolved or allocated, the
//! amount is merged into its record, and its index entries are brought in
//! step with the record.

use vstd::prelude::*;
use crate::error::LedgerError;
use crate::execute::Context;
use crate::ledger::{
    law_request_frame, law_stopped_request_frame, lemma_claims_stay_live, LedgerState,
};
use crate::math::{add_u128, add_u64};
use crate::models::ClaimRecord;
use crate::msg::UpsertMsg;
use crate::index::{apply_index_changes, index_changes, lemma_changes_reindex};
use crate::state::{
    counter_may_load, counter_save, fits_key_part, ids_may_load, ids_save, key_part_fits,
    load_record, record_option_view, save_record, Store,
};
use crate::token::{token_key, Coin, Token, TokenView};

verus! {

/// The ID that follows the counter's value `counter`, where a missing counter
/// counts as zero; `Overflow` where the counter is at its maximum.
pub fn next_id(counter: Option<u64>) -> (r: Result<u64, LedgerError>)
    ensures
        match counter {
            Some(n) => if n < u64::MAX {
                r is Ok && r->Ok_0 == n + 1
            } else {
                r is Err && r->Err_0 is Overflow
            },
            None => r is Ok && r->Ok_0 == 1,
        },
{
    match counter {
        Some(n) => add_u64(n, 1),
        None => add_u64(0, 1),
    }
}

/// The ID of the identity key `(name, token_key, recipient)`: the one it has,
/// or else a new one, for which the counter is raised and the key is bound.
/// A key that has an ID always gets it. `Overflow` comes only where the key
/// has none and the counter is at its maximum. The store fails only where it
/// holds unreadable bytes. On any error the ledger is unchanged.
pub fn resolve_or_create(s: &mut Store, name: &String, token_key: &String, recipient: &String) -> (r:
    Result<u64, LedgerError>)
    requires
        key_part_fits(name@),
        key_part_fits(token_key@),
    ensures
        r is Ok ==> old(s)@.can_resolve((name@, token_key@, recipient@)),
        r is Ok ==> r->Ok_0 == old(s)@.resolved_id((name@, token_key@, recipient@)),
        r is Ok ==> final(s)@ == old(s)@.resolved((name@, token_key@, recipient@)),
        r is Err ==> (r->Err_0 is Overflow || r->Err_0 is Store) && final(s)@ == old(s)@,
        r is Err && r->Err_0 is Overflow ==> !old(s)@.can_resolve((name@, token_key@, recipient@)),
        r is Err && r->Err_0 is Store ==> !old(s).readable() && !old(s)@.ids.dom().contains(
            (name@, token_key@, recipient@),
        ),
        !old(s)@.can_resolve((name@, token_key@, recipient@)) ==> r is Err,
        old(s).readable() ==> final(s).readable(),
{
    let found = match ids_may_load(s, name.as_str(), token_key.as_str(), recipient.as_str()) {
        Ok(found) => found,
        Err(e) => {
            return Err(LedgerError::Store(e));
        },
    };
    match found {
        Some(id) => Ok(id),
        None => {
            let counter = match counter_may_load(s) {
                Ok(counter) => counter,
                Err(e) => {
                    return Err(LedgerError::Store(e));
                },
            };
            let id: u64 = next_id(counter)?;
            let counted = counter_save(s, id);
            let bound = ids_save(s, name.as_str(), token_key.as_str(), recipient.as_str(), id);
            assert(counted is Ok && bound is Ok);
            Ok(id)
        },
    }
}

/// The record that a contribution of `amount` of `token` under the batch
/// `name` at time `now` leaves where `prev` was: `prev` with the amount added
/// and the time refreshed, or a fresh record. `Overflow` where the sum leaves
/// 128 bits.
pub fn merge_contribution(
    prev: &Option<ClaimRecord>,
    name: &String,
    token: &Token,
    amount: u128,
    now: u64,
) -> (r: Result<ClaimRecord, LedgerError>)
    ensures
        match LedgerState::merged(record_option_view(*prev), name@, token@, amount, now) {
            Some(merged) => r is Ok && r->Ok_0@ == merged,
            None => r is Err && r->Err_0 is Overflow,
        },
{
    match prev {
        Some(p) => {
            let sum: u128 = add_u128(p.amount, amount)?;
            Ok(ClaimRecord { updated_at: now, name: p.name.clone(), token: p.token.clone(), amount: sum })
        },
        None => Ok(ClaimRecord { updated_at: now, name: name.clone(), token: token.clone(), amount }),
    }
}

/// Merges a contribution into the record of claim `id`, or creates the record:
/// gives the new record and the one that was there before. `Overflow` comes
/// exactly where the owed amount would leave 128 bits. The store fails only
/// where no record is live under `id` and it holds unreadable bytes. On any
/// error the ledger is unchanged.
pub fn upsert_contribution(
    s: &mut Store,
    id: u64,
    token: &Token,
    name: &String,
    amount_delta: u128,
    now: u64,
) -> (r: Result<(ClaimRecord, Option<ClaimRecord>), LedgerError>)
    ensures
        r is Ok ==> record_option_view(r->Ok_0.1) == old(s)@.record_at(id) && Some(r->Ok_0.0@)
            == LedgerState::merged(old(s)@.record_at(id), name@, token@, amount_delta, now)
            && final(s)@ == (LedgerState {
            records: old(s)@.records.insert(id, r->Ok_0.0@),
            ..old(s)@
        }),
        r is Err ==> r->Err_0 is Overflow || r->Err_0 is Store,
        r is Err ==> final(s)@ == old(s)@,
        LedgerState::merged(old(s)@.record_at(id), name@, token@, amount_delta, now) is None <==> r
            is Err && r->Err_0 is Overflow,
        r is Err && r->Err_0 is Store ==> !old(s).readable() && !old(s)@.records.dom().contains(id),
        old(s).readable() ==> final(s).readable(),
{
    let prev = load_record(s, id)?;
    let record = merge_contribution(&prev, name, token, amount_delta, now)?;
    let saved = save_record(s, id, &record);
    assert(saved is Ok);
    Ok((record, prev))
}

/// Brings the index entries of claim `id` of `recipient` in step with the
/// record `new`, which replaced `prev`: the entries by time and by amount of
/// `prev` are removed, those of `new` are written, and the entries by token
/// and by recipient are written again. It always succeeds.
pub fn reindex_after_upsert(
    s: &mut Store,
    recipient: &String,
    id: u64,
    token_key: &String,
    prev: &Option<ClaimRecord>,
    new: &ClaimRecord,
) -> (r: Result<(), LedgerError>)
    requires
        key_part_fits(recipient@),
        key_part_fits(token_key@),
    ensures
        r is Ok,
        final(s)@ == old(s)@.reindexed(recipient@, id, token_key@, record_option_view(*prev), new@),
        old(s).readable() ==> final(s).readable(),
{
    let changes = index_changes(recipient, id, token_key, prev, new);
    proof {
        lemma_changes_reindex(
            s@,
            recipient@,
            id,
            token_key@,
            record_option_view(*prev),
            new@,
        );
    }
    apply_index_changes(s, &changes)
}

/// What crediting `recipient` with `amount` of `token` under the batch `name`
/// may end in, where the key parts fit, with `readable` saying whether the
/// store held no unreadable bytes:
/// - success, with the contribution applied;
/// - `Overflow`, where the counter or the owed amount would overflow, with the
///   ledger as the resolution of the ID left it;
/// - a failure of the store, only where the store held unreadable bytes and
///   the identity key had no live claim, with the ledger unchanged or as the
///   resolution of the ID left it.
/// Where the store is readable or the identity key has its ID, the outcome is
/// success or `Overflow`, whichever the ledger calls for.
pub open spec fn credit_outcome(
    before: LedgerState,
    after: LedgerState,
    readable: bool,
    name: Seq<char>,
    token: TokenView,
    recipient: Seq<char>,
    amount: u128,
    now: u64,
    r: Result<(), LedgerError>,
) -> bool {
    let key = (name, token_key(token), recipient);
    match r {
        Ok(_) => before.upserted(name, token, recipient, amount, now) == Some(after),
        Err(LedgerError::Overflow) => before.upserted(name, token, recipient, amount, now) is None
            && after == before.resolved(key),
        Err(LedgerError::Store(_)) => !readable && !before.has_live_claim(key) && (after == before
            || after == before.resolved(key)),
        Err(_) => false,
    }
}

/// Credits `recipient` with `amount` of `token` under the batch `name`: the
/// claim's ID is resolved, the amount is merged into its record, and its index
/// entries are brought in step.
fn upsert_with_key(
    s: &mut Store,
    name: &String,
    token: &Token,
    tkey: &String,
    recipient: &String,
    amount: u128,
    now: u64,
) -> (r: Result<(), LedgerError>)
    requires
        key_part_fits(name@),
        key_part_fits(tkey@),
        key_part_fits(recipient@),
        tkey@ == token_key(token@),
    ensures
        credit_outcome(
            old(s)@,
            final(s)@,
            old(s).readable(),
            name@,
            token@,
            recipient@,
            amount,
            now,
            r,
        ),
        old(s).readable() ==> final(s).readable(),
{
    let id: u64 = resolve_or_create(s, name, tkey, recipient)?;
    let (record, prev) = upsert_contribution(s, id, token, name, amount, now)?;
    let indexed = reindex_after_upsert(s, recipient, id, tkey, &prev, &record);
    assert(indexed is Ok);
    Ok(())
}

/// Whether a contribution has key parts that the store can take.
pub open spec fn contribution_fits(name: Seq<char>, token: TokenView, recipient: Seq<char>) -> bool {
    key_part_fits(name) && key_part_fits(token_key(token)) && key_part_fits(recipient)
}

/// Credits `recipient` with `amount` of `token` under the batch `name` at time
/// `now`. `Validation` comes exactly where a key part is too long for the
/// store, with nothing written; otherwise the call ends as `credit_outcome`
/// describes. So a contribution to a live claim always succeeds, unless it
/// would push the owed amount past 128 bits: then `Overflow` comes and the
/// ledger is unchanged.
pub fn upsert_one(
    s: &mut Store,
    name: &String,
    token: &Token,
    recipient: &String,
    amount: u128,
    now: u64,
) -> (r: Result<(), LedgerError>)
    ensures
        !contribution_fits(name@, token@, recipient@) <==> r is Err && r->Err_0 is Validation,
        r is Err && r->Err_0 is Validation ==> final(s)@ == old(s)@,
        contribution_fits(name@, token@, recipient@) ==> credit_outcome(
            old(s)@,
            final(s)@,
            old(s).readable(),
            name@,
            token@,
            recipient@,
            amount,
            now,
            r,
        ),
        old(s).readable() ==> final(s).readable(),
{
    let tkey = token.to_key();
    if !fits_key_part(name) || !fits_key_part(&tkey) || !fits_key_part(recipient) {
        return Err(LedgerError::Validation);
    }
    upsert_with_key(s, name, token, &tkey, recipient, amount, now)
}

/// What a list of contributions stands for in contracts.
pub open spec fn amounts_view(amounts: Seq<(String, u128)>) -> Seq<(Seq<char>, u128)> {
    amounts.map_values(|p: (String, u128)| (p.0@, p.1))
}

/// Whether a request has key parts that the store can take.
pub open spec fn request_fits(name: Seq<char>, token: TokenView, amounts: Seq<(Seq<char>, u128)>) -> bool {
    &&& key_part_fits(name)
    &&& key_part_fits(token_key(token))
    &&& forall|i: int| 0 <= i < amounts.len() ==> key_part_fits((#[trigger] amounts[i]).0)
}

/// The sum of the amounts of a list of contributions.
pub open spec fn total_amount(amounts: Seq<(Seq<char>, u128)>) -> nat
    decreases amounts.len(),
{
    if amounts.len() == 0 {
        0
    } else {
        total_amount(amounts.drop_last()) + amounts.last().1 as nat
    }
}

/// The sum over a part of a list is at most the sum over the whole.
pub proof fn lemma_total_amount_grows(amounts: Seq<(Seq<char>, u128)>, n: int)
    requires
        0 <= n <= amounts.len(),
    ensures
        total_amount(amounts.take(n)) <= total_amount(amounts),
    decreases amounts.len(),
{
    if n == amounts.len() {
        assert(amounts.take(n) =~= amounts);
    } else {
        lemma_total_amount_grows(amounts.drop_last(), n);
        assert(amounts.drop_last().take(n) =~= amounts.take(n));
    }
}

/// The sum of the amounts of `amounts`; none where it leaves 128 bits.
pub fn sum_amounts(amounts: &Vec<(String, u128)>) -> (r: Option<u128>)
    ensures
        match r {
            Some(total) => total == total_amount(amounts_view(amounts@)),
            None => total_amount(amounts_view(amounts@)) > u128::MAX,
        },
{
    let mut total: u128 = 0;
    let mut i: usize = 0;
    let ghost all = amounts_view(amounts@);
    while i < amounts.len()
        invariant
            i <= amounts.len(),
            all == amounts_view(amounts@),
            total == total_amount(all.take(i as int)),
        decreases amounts.len() - i,
    {
        proof {
            assert(all.take(i + 1).drop_last() =~= all.take(i as int));
            lemma_total_amount_grows(all, i + 1);
        }
        match total.checked_add(amounts[i].1) {
            Some(sum) => {
                total = sum;
            },
            None => {
                return None;
            },
        }
        i = i + 1;
    }
    proof {
        assert(all.take(i as int) =~= all);
    }
    Some(total)
}

/// What applying the contributions `amounts` to the ledger `before` may end
/// in, with `readable` saying whether the store held no unreadable bytes:
/// - `Validation` exactly where a key part is too long for the store, with
///   nothing written;
/// - success, with every contribution credited in turn;
/// - `Overflow`, at the first contribution whose counter or owed amount would
///   overflow, the earlier ones staying applied;
/// - a failure of the store, only where the store held unreadable bytes, at
///   one of the contributions, the earlier ones staying applied and the ledger
///   as it was before that contribution or as the resolution of its ID left
///   it.
///
/// Where the store is readable, or every identity key of the request has a
/// live claim, the outcome is success or `Overflow`, whichever the ledger
/// calls for; so a request without contributions succeeds and changes
/// nothing, and a request whose first contribution would push a live claim
/// past 128 bits ends in `Overflow` with the ledger unchanged.
///
/// Whatever the outcome, no record is deleted, every identity key keeps its
/// ID, and every claim that is not the claim of an identity key of the request
/// is left as it is.
pub open spec fn upsert_outcome(
    before: LedgerState,
    after: LedgerState,
    readable: bool,
    name: Seq<char>,
    token: TokenView,
    amounts: Seq<(Seq<char>, u128)>,
    now: u64,
    r: Result<(), LedgerError>,
) -> bool {
    let run = before.upserted_all(name, token, amounts, now);
    &&& r is Err ==> r->Err_0 is Validation || r->Err_0 is Overflow || r->Err_0 is Store
    &&& !request_fits(name, token, amounts) <==> r is Err && r->Err_0 is Validation
    &&& r is Err && r->Err_0 is Validation ==> after == before
    &&& r is Ok ==> run == (after, true)
    &&& r is Err && r->Err_0 is Overflow ==> run == (after, false)
    &&& r is Err && r->Err_0 is Store ==> !readable && !before.all_live(name, token, amounts)
        && exists|k: int| stopped_at(before, after, name, token, amounts, now, k)
    &&& request_fits(name, token, amounts) && (readable || before.all_live(name, token, amounts))
        ==> if run.1 {
        r is Ok
    } else {
        r is Err && r->Err_0 is Overflow
    }
    &&& request_fits(name, token, amounts) && amounts.len() == 0 ==> r is Ok && after == before
    &&& request_fits(name, token, amounts) && amounts.len() >= 1 && before.overflows(
        name,
        token,
        amounts[0].0,
        amounts[0].1,
    ) ==> r is Err && r->Err_0 is Overflow && after == before
    &&& before.is_kept_by(after)
    &&& forall|id: u64|
        after.is_untouched(name, token, amounts, id) ==> #[trigger] before.has_same_claim(after, id)
}

/// Whether a run of contributions that the store failed at the `k`-th of them
/// can have left the ledger `after`: the contributions before it are applied,
/// and the ledger is as they left it or as the resolution of the ID of the
/// `k`-th left it.
pub open spec fn stopped_at(
    before: LedgerState,
    after: LedgerState,
    name: Seq<char>,
    token: TokenView,
    amounts: Seq<(Seq<char>, u128)>,
    now: u64,
    k: int,
) -> bool {
    let reached = before.upserted_all(name, token, amounts.take(k), now);
    &&& 0 <= k < amounts.len()
    &&& reached.1
    &&& after == reached.0 || after == reached.0.resolved((name, token_key(token), amounts[k].0))
}

/// Applies the contributions of `msg` in order, at the time of `ctx`, and ends
/// as `upsert_outcome` describes. A recipient that occurs twice is credited
/// twice, the second contribution merging into what the first left.
pub fn upsert(ctx: &mut Context, msg: UpsertMsg) -> (r: Result<(), LedgerError>)
    ensures
        final(ctx).same_caller(old(ctx)),
        upsert_outcome(
            old(ctx).store@,
            final(ctx).store@,
            old(ctx).store.readable(),
            msg.name@,
            msg.token@,
            amounts_view(msg.amounts@),
            old(ctx).now,
            r,
        ),
        old(ctx).store.readable() ==> final(ctx).store.readable(),
{
    let tkey = msg.token.to_key();
    let ghost all = amounts_view(msg.amounts@);
    let ghost before = ctx.store@;
    if !fits_key_part(&msg.name) || !fits_key_part(&tkey) {
        proof {
            law_request_frame(before, msg.name@, msg.token@, Seq::empty(), ctx.now);
        }
        return Err(LedgerError::Validation);
    }
    let mut i: usize = 0;
    while i < msg.amounts.len()
        invariant
            i <= msg.amounts.len(),
            all == amounts_view(msg.amounts@),
            forall|j: int| 0 <= j < i ==> key_part_fits((#[trigger] all[j]).0),
        decreases msg.amounts.len() - i,
    {
        assert(all[i as int].0 == msg.amounts[i as int].0@);
        if !fits_key_part(&msg.amounts[i].0) {
            proof {
                law_request_frame(before, msg.name@, msg.token@, Seq::empty(), ctx.now);
            }
            return Err(LedgerError::Validation);
        }
        i = i + 1;
    }
    let now: u64 = ctx.now;
    let mut i: usize = 0;
    while i < msg.amounts.len()
        invariant
            i <= msg.amounts.len(),
            all == amounts_view(msg.amounts@),
            request_fits(msg.name@, msg.token@, all),
            tkey@ == token_key(msg.token@),
            ctx.same_caller(old(ctx)),
            now == ctx.now,
            before == old(ctx).store@,
            before.upserted_all(msg.name@, msg.token@, all.take(i as int), now) == (
                ctx.store@,
                true,
            ),
            old(ctx).store.readable() ==> ctx.store.readable(),
            i >= 1 ==> before.upserted(msg.name@, msg.token@, all[0].0, all[0].1, now) is Some,
        decreases msg.amounts.len() - i,
    {
        let ghost reached = ctx.store@;
        proof {
            if i == 0 {
                assert(all.take(0) =~= Seq::empty());
                assert(reached == before);
            }
            assert(all.take(i + 1).drop_last() =~= all.take(i as int));
            assert(all.take(i + 1).last() == all[i as int]);
            assert(all[i as int] == (msg.amounts[i as int].0@, msg.amounts[i as int].1));
            law_request_frame(before, msg.name@, msg.token@, all.take(i as int), now);
            if before.all_live(msg.name@, msg.token@, all) {
                lemma_claims_stay_live(before, reached, msg.name@, msg.token@, all);
                assert(reached.has_live_claim(
                    (msg.name@, token_key(msg.token@), all[i as int].0),
                ));
            }
        }
        let r = upsert_with_key(
            &mut ctx.store,
            &msg.name,
            &msg.token,
            &tkey,
            &msg.amounts[i].0,
            msg.amounts[i].1,
            now,
        );
        match r {
            Ok(()) => {},
            Err(e) => {
                proof {
                    if e is Overflow {
                        lemma_upserted_all_stops(before, msg.name@, msg.token@, all, now, i + 1);
                        law_request_frame(before, msg.name@, msg.token@, all, now);
                    } else {
                        assert(stopped_at(
                            before,
                            ctx.store@,
                            msg.name@,
                            msg.token@,
                            all,
                            now,
                            i as int,
                        ));
                        law_stopped_request_frame(
                            before,
                            msg.name@,
                            msg.token@,
                            all,
                            now,
                            i as int,
                            ctx.store@,
                        );
                    }
                }
                return Err(e);
            },
        }
        i = i + 1;
    }
    proof {
        assert(all.take(i as int) =~= all);
        law_request_frame(before, msg.name@, msg.token@, all, now);
        if all.len() == 0 {
            assert(ctx.store@ == before);
        }
        if all.len() >= 1 && before.overflows(msg.name@, msg.token@, all[0].0, all[0].1) {
            assert(all.take(1).drop_last() =~= Seq::empty());
            assert(all.take(1).last() == all[0]);
            assert(!before.upserted_all(msg.name@, msg.token@, all.take(1), now).1);
            lemma_upserted_all_stops(before, msg.name@, msg.token@, all, now, 1);
        }
    }
    Ok(())
}

/// Once a run of contributions has stopped, further contributions change
/// nothing.
pub proof fn lemma_upserted_all_stops(
    st: LedgerState,
    name: Seq<char>,
    token: TokenView,
    amounts: Seq<(Seq<char>, u128)>,
    now: u64,
    n: int,
)
    requires
        0 <= n <= amounts.len(),
        !st.upserted_all(name, token, amounts.take(n), now).1,
    ensures
        st.upserted_all(name, token, amounts, now) == st.upserted_all(
            name,
            token,
            amounts.take(n),
            now,
        ),
    decreases amounts.len(),
{
    if n == amounts.len() {
        assert(amounts.take(n) =~= amounts);
    } else {
        assert(amounts.drop_last().take(n) =~= amounts.take(n));
        lemma_upserted_all_stops(st, name, token, amounts.drop_last(), now, n);
    }
}

/// Whether `funds` hold a coin of the denomination `token` that amounts to
/// exactly `total`.
pub open spec fn funds_cover(token: TokenView, funds: Seq<Coin>, total: nat) -> bool {
    token matches TokenView::Denom(denom) && exists|i: int|
        0 <= i < funds.len() && (#[trigger] funds[i])@.denom == denom && funds[i]@.amount == total
}

/// Adds to what recipients are owed, paid for by the funds attached to the
/// request. The funds must hold a coin of the request's denomination whose
/// amount is exactly the sum of the contributions: otherwise the request
/// fails with `InsufficientFunds` and nothing is written.
pub fn exec_upsert_native(ctx: &mut Context, msg: UpsertMsg) -> (r: Result<(), LedgerError>)
    ensures
        final(ctx).same_caller(old(ctx)),
        !funds_cover(msg.token@, old(ctx).funds@, total_amount(amounts_view(msg.amounts@))) <==> r
            is Err && r->Err_0 is InsufficientFunds,
        r is Err && r->Err_0 is InsufficientFunds ==> final(ctx).store@ == old(ctx).store@,
        !(r is Err && r->Err_0 is InsufficientFunds) ==> upsert_outcome(
            old(ctx).store@,
            final(ctx).store@,
            old(ctx).store.readable(),
            msg.name@,
            msg.token@,
            amounts_view(msg.amounts@),
            old(ctx).now,
            r,
        ),
        old(ctx).store.readable() ==> final(ctx).store.readable(),
{
    let covered = match sum_amounts(&msg.amounts) {
        Some(total) => msg.token.find_in_funds(&ctx.funds, Some(total)).is_some(),
        None => false,
    };
    if !covered {
        return Err(LedgerError::InsufficientFunds);
    }
    upsert(ctx, msg)
}

/// Whether `sender` is the contract that keeps `token`.
pub open spec fn sent_by_token(token: TokenView, sender: Seq<char>) -> bool {
    token matches TokenView::Address(address) && address == sender
}

/// Adds to what recipients are owed, paid for by `amount` of a token that its
/// contract pushed to the ledger along with the request. The request must come
/// from the contract of the token it names, else it fails with
/// `NotAuthorized`; and `amount` must be exactly the sum of the contributions,
/// else it fails with `InsufficientFunds`. Nothing is written in either case.
pub fn exec_upsert_cw20(ctx: &mut Context, amount: u128, msg: UpsertMsg) -> (r: Result<
    (),
    LedgerError,
>)
    ensures
        final(ctx).same_caller(old(ctx)),
        !sent_by_token(msg.token@, old(ctx).sender@) <==> r is Err && r->Err_0 is NotAuthorized,
        sent_by_token(msg.token@, old(ctx).sender@) && total_amount(amounts_view(msg.amounts@))
            != amount <==> r is Err && r->Err_0 is InsufficientFunds,
        r is Err && (r->Err_0 is NotAuthorized || r->Err_0 is InsufficientFunds) ==> final(ctx).store@
            == old(ctx).store@,
        !(r is Err && (r->Err_0 is NotAuthorized || r->Err_0 is InsufficientFunds))
            ==> upsert_outcome(
            old(ctx).store@,
            final(ctx).store@,
            old(ctx).store.readable(),
            msg.name@,
            msg.token@,
            amounts_view(msg.amounts@),
            old(ctx).now,
            r,
        ),
        old(ctx).store.readable() ==> final(ctx).store.readable(),
{
    match msg.token.get_address() {
        Some(address) => {
            if ctx.sender != address {
                return Err(LedgerError::NotAuthorized);
            }
        },
        None => {
            return Err(LedgerError::NotAuthorized);
        },
    }
    match sum_amounts(&msg.amounts) {
        Some(total) => {
            if total != amount {
                return Err(LedgerError::InsufficientFunds);
            }
        },
        None => {
            return Err(LedgerError::InsufficientFunds);
        },
    }
    upsert(ctx, msg)
}

} // verus!
