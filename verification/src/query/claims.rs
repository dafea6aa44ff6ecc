//! Reading a recipient's claims page by page, by time, by amount or by token.

use vstd::prelude::*;
use crate::error::LedgerError;
use crate::ledger::LedgerState;
use crate::models::ClaimRecord;
use crate::msg::{ClaimsQueryMsg, ClaimsResponse, OrderKey, OrderKeyCursor, OrderKeyCursorView};
use crate::paging::{
    amount_descending, amount_keys, is_page, lemma_token_descending_is_order, next_position,
    precedes, time_descending, time_keys, token_descending, token_key_is_below, token_key_lt,
    token_keys,
};
use crate::state::{
    amount_index_page, fits_key_part, has_no_strays, key_part_fits, lists, load_record, no_strays,
    time_index_page, token_index_entries, token_keys_view, Store,
};

verus! {

/// The most claims that one page holds.
pub const DEFAULT_LIMIT: usize = 100;

/// One page of claims and the cursor for the next page.
pub type ClaimsPage = (Vec<ClaimRecord>, Option<OrderKeyCursor>);

/// Whether every claim of `ids` is live in `st`.
pub open spec fn all_live(st: LedgerState, ids: Seq<u64>) -> bool {
    forall|i: int| 0 <= i < ids.len() ==> st.records.dom().contains(#[trigger] ids[i])
}

/// Whether `records` are the records of the claims `ids` in `st`, one for one.
pub open spec fn records_of(st: LedgerState, ids: Seq<u64>, records: Seq<ClaimRecord>) -> bool {
    &&& records.len() == ids.len()
    &&& forall|i: int|
        0 <= i < ids.len() ==> st.records.dom().contains(#[trigger] ids[i]) && records[i]@
            == st.records[ids[i]]
}

/// What an optional cursor stands for in contracts.
pub open spec fn cursor_view(cursor: Option<OrderKeyCursor>) -> Option<OrderKeyCursorView> {
    match cursor {
        Some(c) => Some(c@),
        None => None,
    }
}

/// Whether `r` is what reading the claims `ids` of `st` gives, with `cursor`
/// for the next page: the records one for one, or, where one of the claims is
/// not live, `NotFound` or a failure of the store.
pub open spec fn hydrated(
    st: LedgerState,
    ids: Seq<u64>,
    cursor: Option<OrderKeyCursorView>,
    r: Result<ClaimsPage, LedgerError>,
) -> bool {
    match r {
        Ok((records, next)) => records_of(st, ids, records@) && cursor_view(next) == cursor,
        Err(e) => (e is NotFound || e is Store) && !all_live(st, ids),
    }
}

/// The records of the claims `ids`, one for one. Where all of them are live
/// the records are always given; a claim that is not live makes the read fail
/// with `NotFound`, unless the store reports a failure of its own.
pub fn load_records(s: &Store, ids: &Vec<u64>) -> (r: Result<Vec<ClaimRecord>, LedgerError>)
    ensures
        r is Ok ==> records_of(s@, ids@, r->Ok_0@),
        r is Err ==> (r->Err_0 is NotFound || r->Err_0 is Store) && !all_live(s@, ids@),
        r is Err && r->Err_0 is Store ==> !s.readable(),
{
    let mut records: Vec<ClaimRecord> = Vec::new();
    let mut i: usize = 0;
    while i < ids.len()
        invariant
            i <= ids.len(),
            records_of(s@, ids@.take(i as int), records@),
        decreases ids.len() - i,
    {
        match load_record(s, ids[i])? {
            Some(record) => {
                records.push(record);
            },
            None => {
                return Err(LedgerError::NotFound);
            },
        }
        i = i + 1;
        proof {
            assert forall|j: int| 0 <= j < i implies s@.records.dom().contains(
                #[trigger] ids@.take(i as int)[j],
            ) && records@[j]@ == s@.records[ids@.take(i as int)[j]] by {
                if j < i - 1 {
                    assert(ids@.take(i - 1)[j] == ids@[j]);
                }
            }
        }
    }
    proof {
        assert(ids@.take(i as int) =~= ids@);
    }
    Ok(records)
}

/// The IDs of a page of keys.
pub open spec fn ids_of<S>(keys: Seq<(S, u64)>) -> Seq<u64> {
    keys.map_values(|k: (S, u64)| k.1)
}

/// What a page of the claims of `address` by time, resuming below
/// `start_from`, may be:
/// - `Validation` exactly where `address` is too long for the store;
/// - else a failure of the store;
/// - or else, with `keys` the first `DEFAULT_LIMIT` index keys of `address`
///   below `start_from` in descending order, the records of those claims and
///   the last key as the next cursor where the page is full, as `hydrated`
///   describes.
pub open spec fn time_page_ensures(
    st: LedgerState,
    address: Seq<char>,
    start_from: Option<(u64, u64)>,
    r: Result<ClaimsPage, LedgerError>,
) -> bool {
    if !key_part_fits(address) {
        r is Err && r->Err_0 is Validation
    } else {
        (r is Err && r->Err_0 is Store) || exists|keys: Seq<(u64, u64)>|
            is_page(
                keys,
                time_keys(st.by_time, address, start_from),
                time_descending(),
                DEFAULT_LIMIT as nat,
            ) && hydrated(
                st,
                ids_of(keys),
                match next_position(keys, DEFAULT_LIMIT as nat) {
                    Some(k) => Some(OrderKeyCursorView::UpdatedAt(k)),
                    None => None,
                },
                r,
            )
    }
}

/// One page of the claims of `address`, latest first: the claims whose key
/// `(updated_at, id)` lies below `start_from`, or all where none is given.
pub fn claims_by_time(s: &Store, address: &String, start_from: Option<(u64, u64)>) -> (r: Result<
    ClaimsPage,
    LedgerError,
>)
    requires
        key_part_fits(address@) ==> no_strays(s@.stray, OrderKey::UpdatedAt, address@),
    ensures
        time_page_ensures(s@, address@, start_from, r),
        r is Err && r->Err_0 is Store ==> !s.readable(),
{
    if !fits_key_part(address) {
        return Err(LedgerError::Validation);
    }
    let keys = match time_index_page(s, address.as_str(), start_from, DEFAULT_LIMIT) {
        Ok(keys) => keys,
        Err(e) => {
            return Err(LedgerError::Store(e));
        },
    };
    let mut ids: Vec<u64> = Vec::new();
    let mut i: usize = 0;
    while i < keys.len()
        invariant
            i <= keys.len(),
            ids@ == ids_of(keys@.take(i as int)),
        decreases keys.len() - i,
    {
        ids.push(keys[i].1);
        i = i + 1;
        proof {
            assert(ids@ =~= ids_of(keys@.take(i as int)));
        }
    }
    proof {
        assert(keys@.take(i as int) =~= keys@);
    }
    let next_cursor = if keys.len() < DEFAULT_LIMIT {
        None
    } else {
        Some(OrderKeyCursor::UpdatedAt(keys[keys.len() - 1]))
    };
    let r = match load_records(s, &ids) {
        Ok(records) => Ok((records, next_cursor)),
        Err(e) => Err(e),
    };
    proof {
        let cursor = match next_position(keys@, DEFAULT_LIMIT as nat) {
            Some(k) => Some(OrderKeyCursorView::UpdatedAt(k)),
            None => None,
        };
        assert(hydrated(s@, ids_of(keys@), cursor, r));
        assert(is_page(
            keys@,
            time_keys(s@.by_time, address@, start_from),
            time_descending(),
            DEFAULT_LIMIT as nat,
        ));
    }
    r
}

/// What a page of the claims of `address` by amount, resuming below
/// `start_from`, may be; as `time_page_ensures`, over the index by amount.
pub open spec fn amount_page_ensures(
    st: LedgerState,
    address: Seq<char>,
    start_from: Option<(u128, u64)>,
    r: Result<ClaimsPage, LedgerError>,
) -> bool {
    if !key_part_fits(address) {
        r is Err && r->Err_0 is Validation
    } else {
        (r is Err && r->Err_0 is Store) || exists|keys: Seq<(u128, u64)>|
            is_page(
                keys,
                amount_keys(st.by_amount, address, start_from),
                amount_descending(),
                DEFAULT_LIMIT as nat,
            ) && hydrated(
                st,
                ids_of(keys),
                match next_position(keys, DEFAULT_LIMIT as nat) {
                    Some(k) => Some(OrderKeyCursorView::Amount(k)),
                    None => None,
                },
                r,
            )
    }
}

/// One page of the claims of `address`, largest first: the claims whose key
/// `(amount, id)` lies below `start_from`, or all where none is given.
pub fn claims_by_amount(s: &Store, address: &String, start_from: Option<(u128, u64)>) -> (r: Result<
    ClaimsPage,
    LedgerError,
>)
    requires
        key_part_fits(address@) ==> no_strays(s@.stray, OrderKey::Amount, address@),
    ensures
        amount_page_ensures(s@, address@, start_from, r),
        r is Err && r->Err_0 is Store ==> !s.readable(),
{
    if !fits_key_part(address) {
        return Err(LedgerError::Validation);
    }
    let keys = match amount_index_page(s, address.as_str(), start_from, DEFAULT_LIMIT) {
        Ok(keys) => keys,
        Err(e) => {
            return Err(LedgerError::Store(e));
        },
    };
    let mut ids: Vec<u64> = Vec::new();
    let mut i: usize = 0;
    while i < keys.len()
        invariant
            i <= keys.len(),
            ids@ == ids_of(keys@.take(i as int)),
        decreases keys.len() - i,
    {
        ids.push(keys[i].1);
        i = i + 1;
        proof {
            assert(ids@ =~= ids_of(keys@.take(i as int)));
        }
    }
    proof {
        assert(keys@.take(i as int) =~= keys@);
    }
    let next_cursor = if keys.len() < DEFAULT_LIMIT {
        None
    } else {
        Some(OrderKeyCursor::Amount(keys[keys.len() - 1]))
    };
    let r = match load_records(s, &ids) {
        Ok(records) => Ok((records, next_cursor)),
        Err(e) => Err(e),
    };
    proof {
        let cursor = match next_position(keys@, DEFAULT_LIMIT as nat) {
            Some(k) => Some(OrderKeyCursorView::Amount(k)),
            None => None,
        };
        assert(hydrated(s@, ids_of(keys@), cursor, r));
        assert(is_page(
            keys@,
            amount_keys(s@.by_amount, address@, start_from),
            amount_descending(),
            DEFAULT_LIMIT as nat,
        ));
    }
    r
}

/// What an optional token key stands for in contracts.
pub open spec fn token_start_view(start_from: Option<(String, u64)>) -> Option<(Seq<char>, u64)> {
    match start_from {
        Some(c) => Some((c.0@, c.1)),
        None => None,
    }
}

/// What a page of the claims of `address` by token, resuming below
/// `start_from`, may be; as `time_page_ensures`, over the index by token, whose
/// keys come in the order of strings.
pub open spec fn token_page_ensures(
    st: LedgerState,
    address: Seq<char>,
    start_from: Option<(Seq<char>, u64)>,
    r: Result<ClaimsPage, LedgerError>,
) -> bool {
    if !key_part_fits(address) {
        r is Err && r->Err_0 is Validation
    } else {
        (r is Err && r->Err_0 is Store) || exists|keys: Seq<(Seq<char>, u64)>|
            is_page(
                keys,
                token_keys(st.by_token, address, start_from),
                token_descending(),
                DEFAULT_LIMIT as nat,
            ) && hydrated(
                st,
                ids_of(keys),
                match next_position(keys, DEFAULT_LIMIT as nat) {
                    Some(k) => Some(OrderKeyCursorView::Token(k)),
                    None => None,
                },
                r,
            )
    }
}

/// The greatest key of `keys` that lies below `bound`, or below no bound where
/// none is given: its place, or nothing where no key lies below.
fn greatest_below(keys: &Vec<(String, u64)>, bound: &Option<(String, u64)>) -> (r: Option<usize>)
    ensures
        match r {
            Some(m) => m < keys.len() && is_below(token_keys_view(keys@)[m as int], *bound)
                && forall|j: int|
                0 <= j < keys.len() && is_below(#[trigger] token_keys_view(keys@)[j], *bound)
                    ==> token_keys_view(keys@)[j] == token_keys_view(keys@)[m as int]
                    || token_key_lt(token_keys_view(keys@)[j], token_keys_view(keys@)[m as int]),
            None => forall|j: int|
                0 <= j < keys.len() ==> !is_below(#[trigger] token_keys_view(keys@)[j], *bound),
        },
{
    let ghost views = token_keys_view(keys@);
    let mut best: Option<usize> = None;
    let mut i: usize = 0;
    while i < keys.len()
        invariant
            i <= keys.len(),
            views == token_keys_view(keys@),
            match best {
                Some(m) => m < i && is_below(views[m as int], *bound) && forall|j: int|
                    0 <= j < i && is_below(#[trigger] views[j], *bound) ==> views[j] == views[m as int]
                        || token_key_lt(views[j], views[m as int]),
                None => forall|j: int| 0 <= j < i ==> !is_below(#[trigger] views[j], *bound),
            },
        decreases keys.len() - i,
    {
        assert(views[i as int] == (keys[i as int].0@, keys[i as int].1));
        let below = match bound {
            Some(c) => token_key_is_below(&keys[i].0, keys[i].1, &c.0, c.1),
            None => true,
        };
        if below {
            match best {
                Some(m) => {
                    assert(views[m as int] == (keys[m as int].0@, keys[m as int].1));
                    if token_key_is_below(&keys[m].0, keys[m].1, &keys[i].0, keys[i].1) {
                        proof {
                            lemma_token_descending_is_order();
                            assert forall|j: int|
                                0 <= j < i + 1 && is_below(
                                    #[trigger] views[j],
                                    *bound,
                                ) implies views[j] == views[i as int] || token_key_lt(
                                views[j],
                                views[i as int],
                            ) by {
                                if j < i && views[j] != views[m as int] {
                                    assert(precedes(token_descending(), views[m as int], views[j]));
                                    assert(precedes(
                                        token_descending(),
                                        views[i as int],
                                        views[m as int],
                                    ));
                                    assert(precedes(token_descending(), views[i as int], views[j]));
                                }
                            }
                        }
                        best = Some(i);
                    } else {
                        proof {
                            lemma_token_descending_is_order();
                            if views[i as int] != views[m as int] {
                                assert(precedes(token_descending(), views[m as int], views[i as int])
                                    || precedes(
                                    token_descending(),
                                    views[i as int],
                                    views[m as int],
                                ));
                            }
                        }
                    }
                },
                None => {
                    best = Some(i);
                },
            }
        }
        i = i + 1;
    }
    best
}

/// Whether `key` lies below `bound`, or any key where no bound is given.
pub open spec fn is_below(key: (Seq<char>, u64), bound: Option<(String, u64)>) -> bool {
    match bound {
        Some(c) => token_key_lt(key, (c.0@, c.1)),
        None => true,
    }
}

/// The keys of `among` that lie below `bound`.
pub open spec fn keys_below(among: Set<(Seq<char>, u64)>, bound: Option<(String, u64)>) -> Set<
    (Seq<char>, u64),
> {
    Set::new(|k: (Seq<char>, u64)| among.contains(k) && is_below(k, bound))
}

/// The first `limit` of `keys` below `start_from` in descending order, where
/// `keys` are the keys that an index holds.
fn top_token_keys(keys: &Vec<(String, u64)>, start_from: Option<(String, u64)>, limit: usize) -> (r:
    Vec<(String, u64)>)
    ensures
        forall|among: Set<(Seq<char>, u64)>|
            #[trigger] lists(token_keys_view(keys@), among) ==> is_page(
                token_keys_view(r@),
                keys_below(among, start_from),
                token_descending(),
                limit as nat,
            ),
{
    let ghost views = token_keys_view(keys@);
    let mut page: Vec<(String, u64)> = Vec::new();
    let mut bound: Option<(String, u64)> = start_from;
    let ghost start = bound;
    while page.len() < limit
        invariant
            page.len() <= limit,
            views == token_keys_view(keys@),
            start == start_from,
            page.len() == 0 ==> bound == start,
            page.len() > 0 ==> token_start_view(bound) == Some(token_keys_view(page@).last()),
            forall|i: int|
                0 <= i < page.len() ==> views.contains(#[trigger] token_keys_view(page@)[i])
                    && is_below(token_keys_view(page@)[i], start),
            forall|i: int, j: int|
                0 <= i < j < page.len() ==> token_key_lt(
                    #[trigger] token_keys_view(page@)[j],
                    #[trigger] token_keys_view(page@)[i],
                ),
            forall|k: (Seq<char>, u64)|
                #[trigger] views.contains(k) && is_below(k, start) && !token_keys_view(
                    page@,
                ).contains(k) ==> is_below(k, bound),
        decreases limit - page.len(),
    {
        let ghost shown = token_keys_view(page@);
        match greatest_below(keys, &bound) {
            Some(m) => {
                let picked: (String, u64) = (keys[m].0.clone(), keys[m].1);
                let next: (String, u64) = (keys[m].0.clone(), keys[m].1);
                proof {
                    lemma_token_descending_is_order();
                    let pk = views[m as int];
                    assert(pk == (keys[m as int].0@, keys[m as int].1));
                    assert(views.contains(pk));
                    assert(is_below(pk, start)) by {
                        if page.len() > 0 {
                            let last = shown[shown.len() - 1];
                            assert(views.contains(last) && is_below(last, start));
                            if start is Some {
                                let c = token_start_view(start)->0;
                                assert(precedes(token_descending(), last, pk));
                                assert(precedes(token_descending(), c, last));
                                assert(precedes(token_descending(), c, pk));
                            }
                        }
                    }
                }
                page.push(picked);
                bound = Some(next);
                proof {
                    let pk = views[m as int];
                    let now = token_keys_view(page@);
                    assert(now =~= shown.push(pk));
                    assert forall|i: int, j: int| 0 <= i < j < now.len() implies token_key_lt(
                        #[trigger] now[j],
                        #[trigger] now[i],
                    ) by {
                        if j == now.len() - 1 {
                            let last = shown[shown.len() - 1];
                            assert(token_key_lt(pk, last));
                            if i < shown.len() - 1 {
                                assert(token_key_lt(shown[shown.len() - 1], shown[i]));
                                assert(precedes(token_descending(), shown[i], last));
                                assert(precedes(token_descending(), last, pk));
                                assert(precedes(token_descending(), shown[i], pk));
                            }
                        } else {
                            assert(token_key_lt(shown[j], shown[i]));
                        }
                    }
                    assert forall|k: (Seq<char>, u64)|
                        #[trigger] views.contains(k) && is_below(k, start) && !now.contains(
                            k,
                        ) implies is_below(k, bound) by {
                        assert(!shown.contains(k)) by {
                            if shown.contains(k) {
                                let i = choose|i: int| 0 <= i < shown.len() && shown[i] == k;
                                assert(now[i] == k);
                            }
                        }
                        assert(k != pk) by {
                            assert(now[now.len() - 1] == pk);
                        }
                        let j = choose|j: int| 0 <= j < views.len() && views[j] == k;
                        assert(is_below(views[j], Some(next)) || true);
                    }
                }
            },
            None => {
                proof {
                    lemma_token_descending_is_order();
                    let shown = token_keys_view(page@);
                    assert forall|among: Set<(Seq<char>, u64)>|
                        #[trigger] lists(views, among) implies is_page(
                        shown,
                        keys_below(among, start),
                        token_descending(),
                        limit as nat,
                    ) by {
                        let scope = keys_below(among, start);
                        assert forall|k: (Seq<char>, u64)|
                            #[trigger] scope.contains(k) implies shown.contains(k) by {
                            if !shown.contains(k) {
                                assert(views.contains(k));
                                let j = choose|j: int| 0 <= j < views.len() && views[j] == k;
                                assert(!is_below(views[j], bound));
                            }
                        }
                    }
                }
                return page;
            },
        }
    }
    proof {
        lemma_token_descending_is_order();
        let shown = token_keys_view(page@);
        assert forall|among: Set<(Seq<char>, u64)>| #[trigger] lists(views, among) implies is_page(
            shown,
            keys_below(among, start),
            token_descending(),
            limit as nat,
        ) by {
            let scope = keys_below(among, start);
            if limit > 0 {
                let last = shown[shown.len() - 1];
                assert forall|k: (Seq<char>, u64), i: int|
                    #[trigger] scope.contains(k) && !shown.contains(k) && 0 <= i
                        < shown.len() implies token_key_lt(k, #[trigger] shown[i]) by {
                    assert(views.contains(k));
                    assert(is_below(k, bound));
                    assert(token_key_lt(k, last));
                    if i < shown.len() - 1 {
                        assert(token_key_lt(shown[shown.len() - 1], shown[i]));
                        assert(precedes(token_descending(), shown[i], last));
                        assert(precedes(token_descending(), last, k));
                        assert(precedes(token_descending(), shown[i], k));
                    }
                }
            }
        }
    }
    page
}

/// One page of the claims of `address` by token key, highest first in the
/// order of strings: the claims whose key `(token key, id)` lies below
/// `start_from`, or all where none is given. The keys of `address` in the
/// index are listed in full and the page is picked from them, since the store
/// keeps them in another order.
pub fn claims_by_token(s: &Store, address: &String, start_from: Option<(String, u64)>) -> (r: Result<
    ClaimsPage,
    LedgerError,
>)
    requires
        key_part_fits(address@) ==> no_strays(s@.stray, OrderKey::Token, address@),
    ensures
        token_page_ensures(s@, address@, token_start_view(start_from), r),
        r is Err && r->Err_0 is Store ==> !s.readable(),
{
    if !fits_key_part(address) {
        return Err(LedgerError::Validation);
    }
    let all = match token_index_entries(s, address.as_str()) {
        Ok(keys) => keys,
        Err(e) => {
            return Err(LedgerError::Store(e));
        },
    };
    let ghost start = token_start_view(start_from);
    let ghost bound = start_from;
    let mut keys = top_token_keys(&all, start_from, DEFAULT_LIMIT);
    let ghost key_views = token_keys_view(keys@);
    proof {
        let among = token_keys(s@.by_token, address@, None);
        let scope = keys_below(among, bound);
        assert(is_page(key_views, scope, token_descending(), DEFAULT_LIMIT as nat));
        assert(scope =~= token_keys(s@.by_token, address@, start));
    }
    let mut ids: Vec<u64> = Vec::new();
    let mut i: usize = 0;
    while i < keys.len()
        invariant
            i <= keys.len(),
            key_views == token_keys_view(keys@),
            ids@ == ids_of(key_views.take(i as int)),
        decreases keys.len() - i,
    {
        ids.push(keys[i].1);
        i = i + 1;
        proof {
            assert(ids@ =~= ids_of(key_views.take(i as int)));
        }
    }
    proof {
        assert(key_views.take(i as int) =~= key_views);
    }
    let next_cursor = if keys.len() < DEFAULT_LIMIT {
        None
    } else {
        match keys.pop() {
            Some(last) => Some(OrderKeyCursor::Token(last)),
            None => None,
        }
    };
    let r = match load_records(s, &ids) {
        Ok(records) => Ok((records, next_cursor)),
        Err(e) => Err(e),
    };
    proof {
        let cursor = match next_position(key_views, DEFAULT_LIMIT as nat) {
            Some(k) => Some(OrderKeyCursorView::Token(k)),
            None => None,
        };
        assert(hydrated(s@, ids_of(key_views), cursor, r));
        assert(is_page(
            key_views,
            token_keys(s@.by_token, address@, token_start_view(start_from)),
            token_descending(),
            DEFAULT_LIMIT as nat,
        ));
    }
    r
}

/// The key that a scan by time resumes below: that of `cursor` where it is a
/// cursor by time, none otherwise.
pub open spec fn time_start(cursor: Option<OrderKeyCursor>) -> Option<(u64, u64)> {
    match cursor {
        Some(OrderKeyCursor::UpdatedAt(k)) => Some(k),
        _ => None,
    }
}

/// The key that a scan by amount resumes below: that of `cursor` where it is
/// a cursor by amount, none otherwise.
pub open spec fn amount_start(cursor: Option<OrderKeyCursor>) -> Option<(u128, u64)> {
    match cursor {
        Some(OrderKeyCursor::Amount(k)) => Some(k),
        _ => None,
    }
}

/// The key that a scan by token resumes below: that of `cursor` where it is a
/// cursor by token, none otherwise.
pub open spec fn token_start(cursor: Option<OrderKeyCursor>) -> Option<(Seq<char>, u64)> {
    match cursor {
        Some(OrderKeyCursor::Token(k)) => Some((k.0@, k.1)),
        _ => None,
    }
}

/// The page that a response holds.
pub open spec fn response_page(r: Result<ClaimsResponse, LedgerError>) -> Result<
    ClaimsPage,
    LedgerError,
> {
    match r {
        Ok(response) => Ok((response.claims, response.cursor)),
        Err(e) => Err(e),
    }
}

/// What one page of the claims of `address` in the order `order_by`,
/// resuming below `cursor`, may be: what the ordering's own page may be.
pub open spec fn page_ensures(
    st: LedgerState,
    address: Seq<char>,
    order_by: OrderKey,
    cursor: Option<OrderKeyCursor>,
    r: Result<ClaimsPage, LedgerError>,
) -> bool {
    match order_by {
        OrderKey::UpdatedAt => time_page_ensures(st, address, time_start(cursor), r),
        OrderKey::Amount => amount_page_ensures(st, address, amount_start(cursor), r),
        OrderKey::Token => token_page_ensures(st, address, token_start(cursor), r),
    }
}

/// One page of the claims of `msg.address` in the order `msg.order_by`,
/// resuming below `msg.cursor`. A cursor of another ordering than the one
/// asked for counts as no cursor. The store fails only where it holds
/// unreadable bytes. The index that is read must hold no stray key for the
/// address; `query_claims_checked` asks for nothing.
pub fn query_claims(s: &Store, msg: ClaimsQueryMsg) -> (r: Result<ClaimsResponse, LedgerError>)
    requires
        key_part_fits(msg.address@) ==> no_strays(s@.stray, msg.order_by, msg.address@),
    ensures
        page_ensures(s@, msg.address@, msg.order_by, msg.cursor, response_page(r)),
        r is Err && r->Err_0 is Store ==> !s.readable(),
{
    let ClaimsQueryMsg { address, order_by, cursor } = msg;
    let page = match order_by {
        OrderKey::UpdatedAt => {
            let start_from = match cursor {
                Some(OrderKeyCursor::UpdatedAt(k)) => Some(k),
                _ => None,
            };
            claims_by_time(s, &address, start_from)
        },
        OrderKey::Amount => {
            let start_from = match cursor {
                Some(OrderKeyCursor::Amount(k)) => Some(k),
                _ => None,
            };
            claims_by_amount(s, &address, start_from)
        },
        OrderKey::Token => {
            let start_from = match cursor {
                Some(OrderKeyCursor::Token(k)) => Some(k),
                _ => None,
            };
            claims_by_token(s, &address, start_from)
        },
    };
    match page {
        Ok((claims, next_cursor)) => Ok(ClaimsResponse { claims, cursor: next_cursor }),
        Err(e) => Err(e),
    }
}

/// One page of claims as `query_claims` gives it, for any store: the index
/// that is to be read is first looked through for stray keys, which its
/// decoder cannot take apart, and the query is made only where there is none.
/// `Validation` comes exactly where the address is too long for the store,
/// and `Corrupt` exactly where the address fits and the index holds a stray
/// key for it.
pub fn query_claims_checked(s: &Store, msg: ClaimsQueryMsg) -> (r: Result<
    ClaimsResponse,
    LedgerError,
>)
    ensures
        !key_part_fits(msg.address@) ==> r is Err && r->Err_0 is Validation,
        key_part_fits(msg.address@) ==> (r is Err && r->Err_0 is Corrupt <==> !no_strays(
            s@.stray,
            msg.order_by,
            msg.address@,
        )),
        !(r is Err && r->Err_0 is Corrupt) ==> page_ensures(
            s@,
            msg.address@,
            msg.order_by,
            msg.cursor,
            response_page(r),
        ),
        r is Err && r->Err_0 is Store ==> !s.readable(),
{
    if !fits_key_part(&msg.address) {
        return Err(LedgerError::Validation);
    }
    if !has_no_strays(s, msg.order_by, &msg.address) {
        return Err(LedgerError::Corrupt);
    }
    query_claims(s, msg)
}

} // verus!
