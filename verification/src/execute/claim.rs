//! Withdrawing claims: each claim's record and index entries are removed, and
//! what the claims held is added up per token and paid out.

use vstd::prelude::*;
use crate::error::LedgerError;
use crate::execute::Context;
use crate::ledger::LedgerState;
use crate::models::{ClaimRecord, ClaimRecordView};
use crate::msg::ClaimMsg;
use crate::msg::OrderKey;
use crate::paging::{amount_keys, ids_ascending, is_page, recipient_ids, time_keys, token_keys};
use crate::state::{
    amount_index_entries, amount_index_remove, fits_key_part, has_no_strays, key_part_fits, lists,
    load_record, no_strays, recipient_index_may_load, recipient_index_page,
    recipient_index_remove, record_option_view, records_remove, time_index_entries,
    time_index_remove, token_index_entries, token_index_remove, token_keys_fit, token_keys_view,
    Store,
};
use crate::token::{transfer_of, TokenAmount, TokenView, TransferMsg, TransferMsgView};

verus! {

/// The most claims that one request can withdraw.
pub const DEFAULT_LIMIT: usize = 100;

/// The most distinct tokens that one request can withdraw.
pub const DEFAULT_SUBMSG_LIMIT: usize = 30;

/// Whether none of the three sorted indexes holds a stray key for
/// `recipient`.
pub open spec fn no_strays_at_all(
    stray: Set<(OrderKey, Seq<char>, Seq<u8>)>,
    recipient: Seq<char>,
) -> bool {
    &&& no_strays(stray, OrderKey::UpdatedAt, recipient)
    &&& no_strays(stray, OrderKey::Amount, recipient)
    &&& no_strays(stray, OrderKey::Token, recipient)
}

/// Removes from the index by time the entries of `recipient` for claim `id`
/// that `keys`, the keys of `recipient` in that index, show.
fn purge_by_time(s: &mut Store, recipient: &String, id: u64, keys: &Vec<(u64, u64)>)
    requires
        key_part_fits(recipient@),
        lists(keys@, time_keys(old(s)@.by_time, recipient@, None)),
    ensures
        final(s)@ == (LedgerState {
            by_time: Set::new(
                |e: (Seq<char>, u64, u64)|
                    old(s)@.by_time.contains(e) && !(e.0 == recipient@ && e.2 == id),
            ),
            ..old(s)@
        }),
        old(s).readable() ==> final(s).readable(),
{
    let ghost before = s@.by_time;
    let mut i: usize = 0;
    while i < keys.len()
        invariant
            i <= keys.len(),
            key_part_fits(recipient@),
            before == old(s)@.by_time,
            lists(keys@, time_keys(before, recipient@, None)),
            s@ == (LedgerState { by_time: s@.by_time, ..old(s)@ }),
            old(s).readable() ==> s.readable(),
            forall|e: (Seq<char>, u64, u64)| s@.by_time.contains(e) ==> before.contains(e),
            forall|e: (Seq<char>, u64, u64)|
                before.contains(e) && !(e.0 == recipient@ && e.2 == id) ==> s@.by_time.contains(e),
            forall|j: int|
                0 <= j < i && (#[trigger] keys[j]).1 == id ==> !s@.by_time.contains(
                    (recipient@, keys[j].0, id),
                ),
        decreases keys.len() - i,
    {
        if keys[i].1 == id {
            time_index_remove(s, recipient.as_str(), keys[i].0, id);
        }
        i = i + 1;
    }
    proof {
        let purged = Set::new(
            |e: (Seq<char>, u64, u64)| before.contains(e) && !(e.0 == recipient@ && e.2 == id),
        );
        assert forall|e: (Seq<char>, u64, u64)| s@.by_time.contains(e) implies purged.contains(
            e,
        ) by {
            if e.0 == recipient@ && e.2 == id {
                assert(time_keys(before, recipient@, None).contains((e.1, e.2)));
                let j = choose|j: int| 0 <= j < keys.len() && keys[j] == (e.1, e.2);
                assert(!s@.by_time.contains((recipient@, keys[j].0, id)));
            }
        }
        assert(s@.by_time =~= purged);
    }
}

/// Removes from the index by amount the entries of `recipient` for claim `id`
/// that `keys`, the keys of `recipient` in that index, show.
fn purge_by_amount(s: &mut Store, recipient: &String, id: u64, keys: &Vec<(u128, u64)>)
    requires
        key_part_fits(recipient@),
        lists(keys@, amount_keys(old(s)@.by_amount, recipient@, None)),
    ensures
        final(s)@ == (LedgerState {
            by_amount: Set::new(
                |e: (Seq<char>, u128, u64)|
                    old(s)@.by_amount.contains(e) && !(e.0 == recipient@ && e.2 == id),
            ),
            ..old(s)@
        }),
        old(s).readable() ==> final(s).readable(),
{
    let ghost before = s@.by_amount;
    let mut i: usize = 0;
    while i < keys.len()
        invariant
            i <= keys.len(),
            key_part_fits(recipient@),
            before == old(s)@.by_amount,
            lists(keys@, amount_keys(before, recipient@, None)),
            s@ == (LedgerState { by_amount: s@.by_amount, ..old(s)@ }),
            old(s).readable() ==> s.readable(),
            forall|e: (Seq<char>, u128, u64)| s@.by_amount.contains(e) ==> before.contains(e),
            forall|e: (Seq<char>, u128, u64)|
                before.contains(e) && !(e.0 == recipient@ && e.2 == id) ==> s@.by_amount.contains(
                    e,
                ),
            forall|j: int|
                0 <= j < i && (#[trigger] keys[j]).1 == id ==> !s@.by_amount.contains(
                    (recipient@, keys[j].0, id),
                ),
        decreases keys.len() - i,
    {
        if keys[i].1 == id {
            amount_index_remove(s, recipient.as_str(), keys[i].0, id);
        }
        i = i + 1;
    }
    proof {
        let purged = Set::new(
            |e: (Seq<char>, u128, u64)| before.contains(e) && !(e.0 == recipient@ && e.2 == id),
        );
        assert forall|e: (Seq<char>, u128, u64)| s@.by_amount.contains(e) implies purged.contains(
            e,
        ) by {
            if e.0 == recipient@ && e.2 == id {
                assert(amount_keys(before, recipient@, None).contains((e.1, e.2)));
                let j = choose|j: int| 0 <= j < keys.len() && keys[j] == (e.1, e.2);
                assert(!s@.by_amount.contains((recipient@, keys[j].0, id)));
            }
        }
        assert(s@.by_amount =~= purged);
    }
}

/// Removes from the index by token the entries of `recipient` for claim `id`
/// that `keys`, the keys of `recipient` in that index, show.
fn purge_by_token(s: &mut Store, recipient: &String, id: u64, keys: &Vec<(String, u64)>)
    requires
        key_part_fits(recipient@),
        lists(token_keys_view(keys@), token_keys(old(s)@.by_token, recipient@, None)),
        token_keys_fit(token_keys_view(keys@)),
    ensures
        final(s)@ == (LedgerState {
            by_token: Set::new(
                |e: (Seq<char>, Seq<char>, u64)|
                    old(s)@.by_token.contains(e) && !(e.0 == recipient@ && e.2 == id),
            ),
            ..old(s)@
        }),
        old(s).readable() ==> final(s).readable(),
{
    let ghost before = s@.by_token;
    let ghost views = token_keys_view(keys@);
    let mut i: usize = 0;
    while i < keys.len()
        invariant
            i <= keys.len(),
            key_part_fits(recipient@),
            before == old(s)@.by_token,
            views == token_keys_view(keys@),
            lists(views, token_keys(before, recipient@, None)),
            token_keys_fit(views),
            s@ == (LedgerState { by_token: s@.by_token, ..old(s)@ }),
            old(s).readable() ==> s.readable(),
            forall|e: (Seq<char>, Seq<char>, u64)| s@.by_token.contains(e) ==> before.contains(e),
            forall|e: (Seq<char>, Seq<char>, u64)|
                before.contains(e) && !(e.0 == recipient@ && e.2 == id) ==> s@.by_token.contains(e),
            forall|j: int|
                0 <= j < i && (#[trigger] views[j]).1 == id ==> !s@.by_token.contains(
                    (recipient@, views[j].0, id),
                ),
        decreases keys.len() - i,
    {
        assert(views[i as int] == (keys[i as int].0@, keys[i as int].1));
        if keys[i].1 == id {
            token_index_remove(s, recipient.as_str(), keys[i].0.as_str(), id);
        }
        i = i + 1;
    }
    proof {
        let purged = Set::new(
            |e: (Seq<char>, Seq<char>, u64)|
                before.contains(e) && !(e.0 == recipient@ && e.2 == id),
        );
        assert forall|e: (Seq<char>, Seq<char>, u64)| s@.by_token.contains(e) implies purged.contains(
            e,
        ) by {
            if e.0 == recipient@ && e.2 == id {
                assert(token_keys(before, recipient@, None).contains((e.1, e.2)));
                let j = choose|j: int| 0 <= j < views.len() && views[j] == (e.1, e.2);
                assert(!s@.by_token.contains((recipient@, views[j].0, id)));
            }
        }
        assert(s@.by_token =~= purged);
    }
}

/// Withdraws claim `id` on behalf of `recipient`. A live claim that is not
/// owed to `recipient`, which is one without an entry of `recipient` in the
/// index by recipient, stays: nothing is given and nothing changes. In any
/// other case the record, if there is one, is given and removed, and every
/// entry of `recipient` for the ID leaves the four indexes; for that the
/// keys of `recipient` in the three sorted indexes are listed, so that the
/// entries are found whether a record tells of them or not.
///
/// `Validation` comes exactly where `recipient` is too long for the store.
/// `Corrupt` comes only where a sorted index holds a stray key for
/// `recipient`, and a failure of the store only where the store holds
/// unreadable bytes; otherwise the call succeeds. On any error the ledger is
/// unchanged.
pub fn process_claim(s: &mut Store, recipient: &String, id: u64) -> (r: Result<
    Option<ClaimRecord>,
    LedgerError,
>)
    ensures
        r is Ok ==> final(s)@ == old(s)@.removed(recipient@, id) && record_option_view(r->Ok_0)
            == old(s)@.taken(recipient@, id),
        r is Err ==> final(s)@ == old(s)@ && (r->Err_0 is Validation || r->Err_0 is Store
            || r->Err_0 is Corrupt),
        !key_part_fits(recipient@) <==> r is Err && r->Err_0 is Validation,
        r is Err && r->Err_0 is Store ==> !old(s).readable(),
        r is Err && r->Err_0 is Corrupt ==> !no_strays_at_all(old(s)@.stray, recipient@),
        old(s).readable() ==> final(s).readable(),
{
    if !fits_key_part(recipient) {
        return Err(LedgerError::Validation);
    }
    let record = load_record(s, id)?;
    match &record {
        Some(_) => {
            let owed = match recipient_index_may_load(s, recipient.as_str(), id) {
                Ok(owed) => owed,
                Err(e) => {
                    return Err(LedgerError::Store(e));
                },
            };
            if !owed {
                return Ok(None);
            }
        },
        None => {},
    }
    if !has_no_strays(s, OrderKey::UpdatedAt, recipient) || !has_no_strays(
        s,
        OrderKey::Amount,
        recipient,
    ) || !has_no_strays(s, OrderKey::Token, recipient) {
        return Err(LedgerError::Corrupt);
    }
    let times = match time_index_entries(s, recipient.as_str()) {
        Ok(keys) => keys,
        Err(e) => {
            return Err(LedgerError::Store(e));
        },
    };
    let amounts = match amount_index_entries(s, recipient.as_str()) {
        Ok(keys) => keys,
        Err(e) => {
            return Err(LedgerError::Store(e));
        },
    };
    let tokens = match token_index_entries(s, recipient.as_str()) {
        Ok(keys) => keys,
        Err(e) => {
            return Err(LedgerError::Store(e));
        },
    };
    purge_by_time(s, recipient, id, &times);
    purge_by_amount(s, recipient, id, &amounts);
    purge_by_token(s, recipient, id, &tokens);
    records_remove(s, id);
    recipient_index_remove(s, recipient.as_str(), id);
    proof {
        assert(s@.records =~= old(s)@.removed(recipient@, id).records);
    }
    Ok(record)
}

/// What a list of totals stands for in contracts: each token with its total.
pub open spec fn totals_view(totals: Seq<TokenAmount>) -> Seq<(TokenView, nat)> {
    totals.map_values(|t: TokenAmount| (t.token@, t.amount as nat))
}

/// Whether no token occurs twice in `totals`.
pub open spec fn distinct_tokens(totals: Seq<(TokenView, nat)>) -> bool {
    forall|i: int, j: int|
        0 <= i < j < totals.len() ==> (#[trigger] totals[i]).0 != (#[trigger] totals[j]).0
}

/// Whether `i` is the first place in `totals` that holds a total of `token`.
pub open spec fn is_place_of(totals: Seq<(TokenView, nat)>, token: TokenView, i: int) -> bool {
    &&& 0 <= i < totals.len()
    &&& totals[i].0 == token
    &&& forall|j: int| 0 <= j < i ==> (#[trigger] totals[j]).0 != token
}

/// Whether `token` has a total in `totals`.
pub open spec fn has_token(totals: Seq<(TokenView, nat)>, token: TokenView) -> bool {
    exists|i: int| is_place_of(totals, token, i)
}

/// The first place in `totals` that holds a total of `token`.
pub open spec fn place_of(totals: Seq<(TokenView, nat)>, token: TokenView) -> int {
    choose|i: int| is_place_of(totals, token, i)
}

/// The totals after `amount` of `token` was added: to the total that the token
/// has, or as a new total at the end.
pub open spec fn credited(totals: Seq<(TokenView, nat)>, token: TokenView, amount: nat) -> Seq<
    (TokenView, nat),
> {
    if has_token(totals, token) {
        let i = place_of(totals, token);
        totals.update(i, (token, totals[i].1 + amount))
    } else {
        totals.push((token, amount))
    }
}

/// The total owed per token over `records`, the tokens in the order in which
/// they first occur.
pub open spec fn aggregated(records: Seq<ClaimRecordView>) -> Seq<(TokenView, nat)>
    decreases records.len(),
{
    if records.len() == 0 {
        Seq::empty()
    } else {
        credited(
            aggregated(records.drop_last()),
            records.last().token,
            records.last().amount as nat,
        )
    }
}

/// A token without a first place among the totals has no place among them.
pub proof fn lemma_no_place(totals: Seq<(TokenView, nat)>, token: TokenView)
    requires
        !has_token(totals, token),
    ensures
        forall|i: int| 0 <= i < totals.len() ==> (#[trigger] totals[i]).0 != token,
    decreases totals.len(),
{
    if totals.len() > 0 {
        let front = totals.drop_last();
        assert forall|p: int| !is_place_of(front, token, p) by {
            if is_place_of(front, token, p) {
                assert forall|j: int| 0 <= j < p implies (#[trigger] totals[j]).0 != token by {
                    assert(front[j].0 != token);
                }
                assert(is_place_of(totals, token, p));
            }
        }
        lemma_no_place(front, token);
        assert forall|i: int| 0 <= i < totals.len() implies (#[trigger] totals[i]).0 != token by {
            if i < front.len() {
                assert(front[i].0 != token);
            } else if totals[i].0 == token {
                assert forall|j: int| 0 <= j < i implies (#[trigger] totals[j]).0 != token by {
                    assert(front[j].0 != token);
                }
                assert(is_place_of(totals, token, i));
            }
        }
    }
}

/// Crediting keeps tokens distinct.
pub proof fn lemma_credited_distinct(totals: Seq<(TokenView, nat)>, token: TokenView, amount: nat)
    requires
        distinct_tokens(totals),
    ensures
        distinct_tokens(credited(totals, token, amount)),
{
    let after = credited(totals, token, amount);
    if has_token(totals, token) {
        let p = place_of(totals, token);
        assert forall|i: int, j: int| 0 <= i < j < after.len() implies (#[trigger] after[i]).0 != (
        #[trigger] after[j]).0 by {
            assert(after[i].0 == totals[i].0);
            assert(after[j].0 == totals[j].0);
        }
    } else {
        lemma_no_place(totals, token);
        assert forall|i: int, j: int| 0 <= i < j < after.len() implies (#[trigger] after[i]).0 != (
        #[trigger] after[j]).0 by {
            if j < totals.len() {
                assert(after[i] == totals[i]);
                assert(after[j] == totals[j]);
            } else {
                assert(after[i] == totals[i]);
            }
        }
    }
}

/// No token occurs twice among aggregated totals.
pub proof fn lemma_aggregated_distinct(records: Seq<ClaimRecordView>)
    ensures
        distinct_tokens(aggregated(records)),
    decreases records.len(),
{
    if records.len() > 0 {
        lemma_aggregated_distinct(records.drop_last());
        lemma_credited_distinct(
            aggregated(records.drop_last()),
            records.last().token,
            records.last().amount as nat,
        );
    }
}

/// What `records` owe of `token` in all.
pub open spec fn owed_of(records: Seq<ClaimRecordView>, token: TokenView) -> nat
    decreases records.len(),
{
    if records.len() == 0 {
        0
    } else if records.last().token == token {
        owed_of(records.drop_last(), token) + records.last().amount as nat
    } else {
        owed_of(records.drop_last(), token)
    }
}

/// Every token that occurs among `records` has a total.
pub proof fn lemma_every_token_has_total(records: Seq<ClaimRecordView>)
    ensures
        forall|j: int|
            0 <= j < records.len() ==> has_token(
                aggregated(records),
                (#[trigger] records[j]).token,
            ),
    decreases records.len(),
{
    if records.len() > 0 {
        let front = records.drop_last();
        let last = records.last();
        let before = aggregated(front);
        let after = aggregated(records);
        lemma_every_token_has_total(front);
        if !has_token(before, last.token) {
            lemma_no_place(before, last.token);
        }
        assert forall|j: int| 0 <= j < records.len() implies has_token(
            after,
            (#[trigger] records[j]).token,
        ) by {
            let t = records[j].token;
            if j < front.len() || has_token(before, last.token) {
                if j < front.len() {
                    assert(front[j].token == t);
                }
                let q = place_of(before, t);
                assert(is_place_of(before, t, q));
                assert forall|n: int| 0 <= n < q implies (#[trigger] after[n]).0 != t by {
                    assert(after[n].0 == before[n].0);
                    assert(before[n].0 != t);
                }
                assert(after[q].0 == before[q].0);
                assert(is_place_of(after, t, q));
            } else {
                assert forall|n: int| 0 <= n < before.len() implies (#[trigger] after[n]).0
                    != t by {
                    assert(after[n] == before[n]);
                    assert(before[n].0 != t);
                }
                assert(is_place_of(after, t, before.len() as int));
            }
        }
    }
}

/// Records among which a token does not occur owe nothing of it.
pub proof fn lemma_owes_nothing(records: Seq<ClaimRecordView>, token: TokenView)
    requires
        forall|j: int| 0 <= j < records.len() ==> (#[trigger] records[j]).token != token,
    ensures
        owed_of(records, token) == 0,
    decreases records.len(),
{
    if records.len() > 0 {
        let front = records.drop_last();
        assert forall|j: int| 0 <= j < front.len() implies (#[trigger] front[j]).token != token by {
            assert(records[j].token != token);
        }
        lemma_owes_nothing(front, token);
        assert(records[records.len() - 1].token != token);
    }
}

/// The aggregated totals hold, for each token that occurs among `records`
/// and for no other, what the records owe of it in all.
pub proof fn law_totals_are_sums(records: Seq<ClaimRecordView>)
    ensures
        forall|i: int|
            0 <= i < aggregated(records).len() ==> (#[trigger] aggregated(records)[i]).1
                == owed_of(records, aggregated(records)[i].0),
        forall|i: int|
            0 <= i < aggregated(records).len() ==> exists|j: int|
                0 <= j < records.len() && (#[trigger] records[j]).token == (
                #[trigger] aggregated(records)[i]).0,
        forall|j: int|
            0 <= j < records.len() ==> has_token(
                aggregated(records),
                (#[trigger] records[j]).token,
            ),
    decreases records.len(),
{
    lemma_every_token_has_total(records);
    if records.len() > 0 {
        let front = records.drop_last();
        let last = records.last();
        let before = aggregated(front);
        let after = aggregated(records);
        law_totals_are_sums(front);
        lemma_aggregated_distinct(front);
        if has_token(before, last.token) {
            let p = place_of(before, last.token);
            assert forall|i: int| 0 <= i < after.len() implies (#[trigger] after[i]).1 == owed_of(
                records,
                after[i].0,
            ) by {
                if i != p {
                    assert(before[i].0 != before[p].0);
                    assert(after[i] == before[i]);
                }
            }
            assert forall|i: int| 0 <= i < after.len() implies exists|j: int|
                0 <= j < records.len() && (#[trigger] records[j]).token == (#[trigger] after[i]).0 by {
                assert(after[i].0 == before[i].0);
                let j = choose|j: int|
                    0 <= j < front.len() && (#[trigger] front[j]).token == before[i].0;
                assert(records[j].token == after[i].0);
            }
        } else {
            lemma_no_place(before, last.token);
            assert forall|j: int| 0 <= j < front.len() implies (#[trigger] front[j]).token
                != last.token by {
                assert(has_token(before, front[j].token));
            }
            lemma_owes_nothing(front, last.token);
            assert forall|i: int| 0 <= i < after.len() implies (#[trigger] after[i]).1 == owed_of(
                records,
                after[i].0,
            ) by {
                if i < before.len() {
                    assert(after[i] == before[i]);
                    assert(before[i].0 != last.token);
                }
            }
            assert forall|i: int| 0 <= i < after.len() implies exists|j: int|
                0 <= j < records.len() && (#[trigger] records[j]).token == (#[trigger] after[i]).0 by {
                if i < before.len() {
                    assert(after[i] == before[i]);
                    let j = choose|j: int|
                        0 <= j < front.len() && (#[trigger] front[j]).token == before[i].0;
                    assert(records[j].token == after[i].0);
                } else {
                    assert(records[records.len() - 1].token == after[i].0);
                }
            }
        }
    }
}

/// Adds the owed amount of `claim` to the total of its token in `totals`, or
/// appends a total for a token that has none yet. `Overflow` comes exactly
/// where the token's total would leave 128 bits; `totals` is then unchanged.
pub fn accumulate(totals: &mut Vec<TokenAmount>, claim: ClaimRecord) -> (r: Result<(), LedgerError>)
    ensures
        r is Ok ==> totals_view(final(totals)@) == credited(
            totals_view(old(totals)@),
            claim@.token,
            claim@.amount as nat,
        ),
        r is Err ==> r->Err_0 is Overflow && final(totals)@ == old(totals)@ && has_token(
            totals_view(old(totals)@),
            claim@.token,
        ) && totals_view(old(totals)@)[place_of(totals_view(old(totals)@), claim@.token)].1
            + claim@.amount > u128::MAX,
{
    let ghost before = totals_view(totals@);
    let mut i: usize = 0;
    while i < totals.len()
        invariant
            i <= totals.len(),
            *totals == *old(totals),
            before == totals_view(totals@),
            forall|j: int| 0 <= j < i ==> (#[trigger] before[j]).0 != claim@.token,
        decreases totals.len() - i,
    {
        assert(before[i as int] == (totals[i as int].token@, totals[i as int].amount as nat));
        if totals[i].token == claim.token {
            proof {
                assert(is_place_of(before, claim@.token, i as int));
                let p = place_of(before, claim@.token);
                assert(p == i) by {
                    if p < i {
                        assert(before[p].0 != claim@.token);
                    } else if p > i {
                        assert(before[i as int].0 != claim@.token);
                    }
                }
            }
            let sum: u128 = crate::math::add_u128(totals[i].amount, claim.amount)?;
            totals.set(i, TokenAmount { token: claim.token, amount: sum });
            proof {
                assert(totals_view(totals@) =~= credited(before, claim@.token, claim@.amount as nat));
            }
            return Ok(());
        }
        i = i + 1;
    }
    proof {
        assert forall|p: int| !is_place_of(before, claim@.token, p) by {
            if 0 <= p < before.len() {
                assert(before[p].0 != claim@.token);
            }
        }
    }
    totals.push(TokenAmount { token: claim.token, amount: claim.amount });
    proof {
        assert(totals_view(totals@) =~= credited(before, claim@.token, claim@.amount as nat));
    }
    Ok(())
}

/// Whether every total fits in 128 bits.
pub open spec fn totals_fit(totals: Seq<(TokenView, nat)>) -> bool {
    forall|i: int| 0 <= i < totals.len() ==> (#[trigger] totals[i]).1 <= u128::MAX
}

/// Whether withdrawing the claims `ids` of the ledger `before` on behalf of
/// `recipient` can have stopped with the error `e` at the `k`-th of them,
/// leaving the ledger `after`:
/// - `Overflow`: claim `k` is withdrawn as well, and its amount pushes the
///   total of its token past 128 bits;
/// - `Corrupt`: the claims before it are withdrawn, and a sorted index holds a
///   stray key for `recipient`;
/// - a failure of the store: the claims before it are withdrawn.
pub open spec fn claim_stopped(
    before: LedgerState,
    after: LedgerState,
    recipient: Seq<char>,
    ids: Seq<u64>,
    k: int,
    e: LedgerError,
) -> bool {
    let reached = before.removed_all(recipient, ids.take(k));
    &&& 0 <= k < ids.len()
    &&& match e {
        LedgerError::Overflow => after == before.removed_all(recipient, ids.take(k + 1))
            && !totals_fit(aggregated(before.withdrawn(recipient, ids.take(k + 1)))),
        LedgerError::Corrupt => after == reached && !no_strays_at_all(before.stray, recipient),
        LedgerError::Store(_) => after == reached,
        _ => false,
    }
}

/// What withdrawing the claims `ids` of the ledger `before` on behalf of
/// `recipient` may end in, with the ledger `after`:
/// - success: all of them are withdrawn in order, and the result holds the
///   total owed per token over the records taken out, at most
///   `DEFAULT_SUBMSG_LIMIT` of them;
/// - `Validation` with all of them withdrawn, where the totals number more
///   than `DEFAULT_SUBMSG_LIMIT`;
/// - or an error at one of the claims, as `claim_stopped` describes.
pub open spec fn claim_outcome(
    before: LedgerState,
    after: LedgerState,
    recipient: Seq<char>,
    ids: Seq<u64>,
    r: Result<Vec<TokenAmount>, LedgerError>,
) -> bool {
    match r {
        Ok(totals) => {
            &&& after == before.removed_all(recipient, ids)
            &&& totals_view(totals@) == aggregated(before.withdrawn(recipient, ids))
            &&& totals.len() <= DEFAULT_SUBMSG_LIMIT
        },
        Err(e) => {
            ||| exists|k: int| claim_stopped(before, after, recipient, ids, k, e)
            ||| {
                &&& e is Validation
                &&& after == before.removed_all(recipient, ids)
                &&& totals_fit(aggregated(before.withdrawn(recipient, ids)))
                &&& aggregated(before.withdrawn(recipient, ids)).len() > DEFAULT_SUBMSG_LIMIT
            }
        },
    }
}

/// Withdraws the claims `ids` in order on behalf of `recipient` and adds up
/// what they held, per token.
fn claim_ids(s: &mut Store, recipient: &String, ids: &Vec<u64>) -> (r: Result<
    Vec<TokenAmount>,
    LedgerError,
>)
    requires
        key_part_fits(recipient@),
    ensures
        claim_outcome(old(s)@, final(s)@, recipient@, ids@, r),
        r is Err && r->Err_0 is Store ==> !old(s).readable(),
        old(s).readable() ==> final(s).readable(),
        final(s)@.stray == old(s)@.stray,
{
    let mut totals: Vec<TokenAmount> = Vec::new();
    let mut i: usize = 0;
    while i < ids.len()
        invariant
            i <= ids.len(),
            key_part_fits(recipient@),
            s@ == old(s)@.removed_all(recipient@, ids@.take(i as int)),
            s@.stray == old(s)@.stray,
            old(s).readable() ==> s.readable(),
            totals_view(totals@) == aggregated(old(s)@.withdrawn(recipient@, ids@.take(i as int))),
        decreases ids.len() - i,
    {
        proof {
            assert(ids@.take(i + 1).drop_last() =~= ids@.take(i as int));
            assert(ids@.take(i + 1).last() == ids@[i as int]);
        }
        let ghost reached = s@;
        match process_claim(s, recipient, ids[i]) {
            Ok(Some(claim)) => {
                let ghost taken = old(s)@.withdrawn(recipient@, ids@.take(i as int));
                let ghost sums = aggregated(taken);
                let ghost next = aggregated(old(s)@.withdrawn(recipient@, ids@.take(i + 1)));
                proof {
                    assert(reached.taken(recipient@, ids@[i as int]) == Some(claim@));
                    assert(old(s)@.withdrawn(recipient@, ids@.take(i + 1)) == taken.push(claim@));
                    assert(taken.push(claim@).drop_last() =~= taken);
                    assert(next == credited(sums, claim@.token, claim@.amount as nat));
                }
                match accumulate(&mut totals, claim) {
                    Ok(()) => {},
                    Err(e) => {
                        proof {
                            let p = place_of(sums, claim@.token);
                            assert(is_place_of(sums, claim@.token, p));
                            assert(next[p].1 > u128::MAX);
                            assert(claim_stopped(old(s)@, s@, recipient@, ids@, i as int, e));
                        }
                        return Err(e);
                    },
                }
            },
            Ok(None) => {},
            Err(e) => {
                proof {
                    assert(claim_stopped(old(s)@, s@, recipient@, ids@, i as int, e));
                }
                return Err(e);
            },
        }
        i = i + 1;
    }
    proof {
        assert(ids@.take(i as int) =~= ids@);
    }
    if totals.len() > DEFAULT_SUBMSG_LIMIT {
        proof {
            let sums = aggregated(old(s)@.withdrawn(recipient@, ids@));
            assert forall|j: int| 0 <= j < sums.len() implies (#[trigger] sums[j]).1
                <= u128::MAX by {
                assert(sums[j] == (totals@[j].token@, totals@[j].amount as nat));
            }
        }
        return Err(LedgerError::Validation);
    }
    Ok(totals)
}

/// What a request to withdraw claims on behalf of `recipient` may end in:
/// - `Validation`, with nothing written, where `recipient` is too long for the
///   store or more than `DEFAULT_LIMIT` IDs are given;
/// - where IDs are given, what `claim_outcome` says of them;
/// - where none are given, a failure of the store with nothing written, or
///   what `claim_outcome` says of the first `DEFAULT_LIMIT` IDs of `recipient`
///   in ascending order.
pub open spec fn claim_ensures(
    before: LedgerState,
    after: LedgerState,
    recipient: Seq<char>,
    ids: Option<Vec<u64>>,
    r: Result<Vec<TokenAmount>, LedgerError>,
) -> bool {
    if !key_part_fits(recipient) || (ids is Some && ids->0.len() > DEFAULT_LIMIT) {
        r is Err && r->Err_0 is Validation && after == before
    } else if ids is Some {
        claim_outcome(before, after, recipient, ids->0@, r)
    } else {
        (r is Err && r->Err_0 is Store && after == before) || exists|page: Seq<u64>|
            is_page(
                page,
                recipient_ids(before.by_recipient, recipient),
                ids_ascending(),
                DEFAULT_LIMIT as nat,
            ) && claim_outcome(before, after, recipient, page, r)
    }
}

/// Withdraws claims on behalf of `recipient` and gives the total that they
/// held, per token: the claims with the given IDs, or, where none are given,
/// the first `DEFAULT_LIMIT` claims of `recipient` in ascending order of ID.
/// IDs of claims that are not live, and of claims that are owed to another,
/// are passed over. `Corrupt` comes only where a sorted index holds a stray key
/// for `recipient`, and a failure of the store only where it holds unreadable
/// bytes.
///
/// `Validation` comes, with nothing written, where `recipient` is too long for
/// the store or more than `DEFAULT_LIMIT` IDs are given. Where no IDs are
/// given and the store fails to list the recipient's claims, the failure is
/// returned and nothing is written. Otherwise the request ends as
/// `claim_outcome` describes.
pub fn claim(s: &mut Store, recipient: &String, ids: Option<Vec<u64>>) -> (r: Result<
    Vec<TokenAmount>,
    LedgerError,
>)
    ensures
        claim_ensures(old(s)@, final(s)@, recipient@, ids, r),
        r is Err && r->Err_0 is Store ==> !old(s).readable(),
        old(s).readable() ==> final(s).readable(),
        final(s)@.stray == old(s)@.stray,
{
    if !fits_key_part(recipient) {
        return Err(LedgerError::Validation);
    }
    let ids = match ids {
        Some(ids) => {
            if ids.len() > DEFAULT_LIMIT {
                return Err(LedgerError::Validation);
            }
            ids
        },
        None => match recipient_index_page(s, recipient.as_str(), DEFAULT_LIMIT) {
            Ok(page) => page,
            Err(e) => {
                return Err(LedgerError::Store(e));
            },
        },
    };
    claim_ids(s, recipient, &ids)
}

/// The transfers that pay `totals` out to `recipient`: one for each total
/// that is positive, in the order of the totals.
pub open spec fn transfers_of(recipient: Seq<char>, totals: Seq<TokenAmount>) -> Seq<
    TransferMsgView,
>
    decreases totals.len(),
{
    if totals.len() == 0 {
        Seq::empty()
    } else if totals.last().amount > 0 {
        transfers_of(recipient, totals.drop_last()).push(
            transfer_of(totals.last().token@, recipient, totals.last().amount),
        )
    } else {
        transfers_of(recipient, totals.drop_last())
    }
}

/// What a list of transfers stands for in contracts.
pub open spec fn transfers_view(transfers: Seq<TransferMsg>) -> Seq<TransferMsgView> {
    transfers.map_values(|t: TransferMsg| t@)
}

/// The transfers that pay `totals` out to `recipient`: one for each total
/// that is positive.
pub fn transfers_for(recipient: &String, totals: &Vec<TokenAmount>) -> (r: Vec<TransferMsg>)
    ensures
        transfers_view(r@) == transfers_of(recipient@, totals@),
{
    let mut transfers: Vec<TransferMsg> = Vec::new();
    let mut i: usize = 0;
    while i < totals.len()
        invariant
            i <= totals.len(),
            transfers_view(transfers@) == transfers_of(recipient@, totals@.take(i as int)),
        decreases totals.len() - i,
    {
        proof {
            assert(totals@.take(i + 1).drop_last() =~= totals@.take(i as int));
        }
        if totals[i].amount > 0 {
            transfers.push(totals[i].token.transfer(recipient, totals[i].amount));
        }
        i = i + 1;
    }
    proof {
        assert(totals@.take(i as int) =~= totals@);
    }
    transfers
}


/// Withdraws claims of the sender of the request, as `claim` does, and gives
/// the transfers that pay the totals out to the sender: one for each token
/// with a positive total.
pub fn exec_claim(ctx: &mut Context, msg: ClaimMsg) -> (r: Result<Vec<TransferMsg>, LedgerError>)
    ensures
        final(ctx).same_caller(old(ctx)),
        r is Ok ==> exists|totals: Vec<TokenAmount>|
            transfers_view(r->Ok_0@) == transfers_of(old(ctx).sender@, totals@) && claim_ensures(
                old(ctx).store@,
                final(ctx).store@,
                old(ctx).sender@,
                msg.ids,
                Ok(totals),
            ),
        r is Err ==> claim_ensures(
            old(ctx).store@,
            final(ctx).store@,
            old(ctx).sender@,
            msg.ids,
            Err(r->Err_0),
        ),
        r is Err && r->Err_0 is Store ==> !old(ctx).store.readable(),
        old(ctx).store.readable() ==> final(ctx).store.readable(),
{
    let totals = claim(&mut ctx.store, &ctx.sender, msg.ids)?;
    Ok(transfers_for(&ctx.sender, &totals))
}

} // verus!
