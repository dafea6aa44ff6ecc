//! Pages of index entries: the order in which each index is read, and what it
//! means for a sequence of keys to be one page of a scan.

use vstd::prelude::*;
use vstd::std_specs::iter::IteratorSpec;

verus! {

broadcast use vstd::string::group_string_axioms;

/// Whether the key `a = (updated_at, id)` sorts below `b`.
pub open spec fn time_key_lt(a: (u64, u64), b: (u64, u64)) -> bool {
    a.0 < b.0 || (a.0 == b.0 && a.1 < b.1)
}

/// Whether the key `a = (amount, id)` sorts below `b`.
pub open spec fn amount_key_lt(a: (u128, u64), b: (u128, u64)) -> bool {
    a.0 < b.0 || (a.0 == b.0 && a.1 < b.1)
}

/// Whether `x` differs from `y` first at place `i`, with the smaller
/// character.
pub open spec fn is_smaller_at(x: Seq<char>, y: Seq<char>, i: int) -> bool {
    0 <= i < x.len() && i < y.len() && (x[i] as u32) < (y[i] as u32) && x.take(i) == y.take(i)
}

/// Whether the string `x` sorts below `y` in lexicographic order: `x` is the
/// start of `y` and shorter, or, where the two first differ, `x` has the
/// smaller character.
pub open spec fn string_lt(x: Seq<char>, y: Seq<char>) -> bool {
    (x.len() < y.len() && y.take(x.len() as int) == x) || exists|i: int| is_smaller_at(x, y, i)
}

/// Whether the key `a = (token key, id)` sorts below `b`: by the token key as
/// a string, in lexicographic order, and then by the ID.
pub open spec fn token_key_lt(a: (Seq<char>, u64), b: (Seq<char>, u64)) -> bool {
    string_lt(a.0, b.0) || (a.0 == b.0 && a.1 < b.1)
}

/// The order in which the index by recipient is read: ascending IDs.
pub open spec fn ids_ascending() -> spec_fn(u64, u64) -> bool {
    |a: u64, b: u64| a < b
}

/// The order in which the index by time is read: descending keys.
pub open spec fn time_descending() -> spec_fn((u64, u64), (u64, u64)) -> bool {
    |a: (u64, u64), b: (u64, u64)| time_key_lt(b, a)
}

/// The order in which the index by amount is read: descending keys.
pub open spec fn amount_descending() -> spec_fn((u128, u64), (u128, u64)) -> bool {
    |a: (u128, u64), b: (u128, u64)| amount_key_lt(b, a)
}

/// The order in which the index by token is read: descending keys.
pub open spec fn token_descending() -> spec_fn((Seq<char>, u64), (Seq<char>, u64)) -> bool {
    |a: (Seq<char>, u64), b: (Seq<char>, u64)| token_key_lt(b, a)
}

/// The IDs that the index by recipient holds for `recipient`.
pub open spec fn recipient_ids(index: Set<(Seq<char>, u64)>, recipient: Seq<char>) -> Set<u64> {
    Set::new(|id: u64| index.contains((recipient, id)))
}

/// The keys `(updated_at, id)` that the index by time holds for `recipient`,
/// and that sort below `below` where one is given.
pub open spec fn time_keys(
    index: Set<(Seq<char>, u64, u64)>,
    recipient: Seq<char>,
    below: Option<(u64, u64)>,
) -> Set<(u64, u64)> {
    Set::new(
        |k: (u64, u64)|
            index.contains((recipient, k.0, k.1)) && (below matches Some(c) ==> time_key_lt(k, c)),
    )
}

/// The keys `(amount, id)` that the index by amount holds for `recipient`, and
/// that sort below `below` where one is given.
pub open spec fn amount_keys(
    index: Set<(Seq<char>, u128, u64)>,
    recipient: Seq<char>,
    below: Option<(u128, u64)>,
) -> Set<(u128, u64)> {
    Set::new(
        |k: (u128, u64)|
            index.contains((recipient, k.0, k.1)) && (below matches Some(c) ==> amount_key_lt(
                k,
                c,
            )),
    )
}

/// The keys `(token key, id)` that the index by token holds for `recipient`,
/// and that sort below `below` where one is given.
pub open spec fn token_keys(
    index: Set<(Seq<char>, Seq<char>, u64)>,
    recipient: Seq<char>,
    below: Option<(Seq<char>, u64)>,
) -> Set<(Seq<char>, u64)> {
    Set::new(
        |k: (Seq<char>, u64)|
            index.contains((recipient, k.0, k.1)) && (below matches Some(c) ==> token_key_lt(k, c)),
    )
}

/// Whether `page` is the first page of a scan over `among`, where
/// `before(a, b)` says that the scan meets `a` before `b`: the page holds at
/// most `limit` keys of `among`, in scan order, and whatever key of `among` it
/// leaves out comes after all of its keys, which then number `limit`.
pub open spec fn is_page<K>(
    page: Seq<K>,
    among: Set<K>,
    before: spec_fn(K, K) -> bool,
    limit: nat,
) -> bool {
    &&& page.len() <= limit
    &&& forall|i: int| 0 <= i < page.len() ==> among.contains(#[trigger] page[i])
    &&& forall|i: int, j: int|
        0 <= i < j < page.len() ==> before(#[trigger] page[i], #[trigger] page[j])
    &&& forall|k: K| #[trigger] among.contains(k) && !page.contains(k) ==> page.len() == limit
    &&& forall|k: K, i: int|
        #[trigger] among.contains(k) && !page.contains(k) && 0 <= i < page.len() ==> before(
            #[trigger] page[i],
            k,
        )
}

/// The cursor position that a page of keys leaves: the last key where the
/// page is full, none where it holds fewer keys than `limit`.
pub open spec fn next_position<K>(page: Seq<K>, limit: nat) -> Option<K> {
    if page.len() < limit || page.len() == 0 {
        None
    } else {
        Some(page.last())
    }
}


/// Whether the scan meets `a` before `b`.
pub open spec fn precedes<K>(before: spec_fn(K, K) -> bool, a: K, b: K) -> bool {
    before(a, b)
}

/// Whether `before` puts any two different keys in one order, and no key
/// before itself.
pub open spec fn is_scan_order<K>(before: spec_fn(K, K) -> bool) -> bool {
    &&& forall|a: K| !#[trigger] precedes(before, a, a)
    &&& forall|a: K, b: K, c: K|
        #[trigger] precedes(before, a, b) && #[trigger] precedes(before, b, c) ==> precedes(
            before,
            a,
            c,
        )
    &&& forall|a: K, b: K| a != b ==> #[trigger] precedes(before, a, b) || precedes(before, b, a)
}

/// Ascending IDs are a scan order.
pub proof fn lemma_ids_ascending_is_order()
    ensures
        is_scan_order(ids_ascending()),
{
    let before = ids_ascending();
    assert forall|a: u64, b: u64| a != b implies #[trigger] precedes(before, a, b) || precedes(
        before,
        b,
        a,
    ) by {}
}

/// Descending keys by time are a scan order.
pub proof fn lemma_time_descending_is_order()
    ensures
        is_scan_order(time_descending()),
{
    let before = time_descending();
    assert forall|a: (u64, u64), b: (u64, u64)| a != b implies #[trigger] precedes(before, a, b)
        || precedes(before, b, a) by {}
}

/// Descending keys by amount are a scan order.
pub proof fn lemma_amount_descending_is_order()
    ensures
        is_scan_order(amount_descending()),
{
    let before = amount_descending();
    assert forall|a: (u128, u64), b: (u128, u64)| a != b implies #[trigger] precedes(before, a, b)
        || precedes(before, b, a) by {}
}

/// Two strings that agree up to place `n` differ first at a later place that
/// both have, or one of them is the start of the other.
proof fn lemma_first_difference(x: Seq<char>, y: Seq<char>, n: int)
    requires
        0 <= n <= x.len(),
        n <= y.len(),
        x.take(n) == y.take(n),
    ensures
        (exists|i: int| is_smaller_at(x, y, i)) || (exists|i: int| is_smaller_at(y, x, i)) || (
        x.len() <= y.len() && y.take(x.len() as int) == x) || (y.len() <= x.len() && x.take(
            y.len() as int,
        ) == y),
    decreases x.len() - n,
{
    if n == x.len() {
        assert(x.take(n) =~= x);
    } else if n == y.len() {
        assert(y.take(n) =~= y);
    } else if (x[n] as u32) < (y[n] as u32) {
        assert(is_smaller_at(x, y, n));
    } else if (y[n] as u32) < (x[n] as u32) {
        assert(is_smaller_at(y, x, n));
    } else {
        vstd::utf8::char_u32_cast(x[n], x[n] as u32);
        vstd::utf8::char_u32_cast(y[n], y[n] as u32);
        assert(x[n] == y[n]);
        assert(x.take(n + 1) =~= x.take(n).push(x[n]));
        assert(y.take(n + 1) =~= y.take(n).push(y[n]));
        lemma_first_difference(x, y, n + 1);
    }
}

/// Of two different strings one sorts below the other.
pub proof fn lemma_string_lt_total(x: Seq<char>, y: Seq<char>)
    requires
        x != y,
    ensures
        string_lt(x, y) || string_lt(y, x),
{
    assert(x.take(0) =~= y.take(0));
    lemma_first_difference(x, y, 0);
    if x.len() == y.len() {
        assert(x.take(x.len() as int) =~= x);
        assert(y.take(y.len() as int) =~= y);
    }
}

/// No string sorts below itself.
pub proof fn lemma_string_lt_irreflexive(x: Seq<char>)
    ensures
        !string_lt(x, x),
{
}

/// The order of strings carries over from `x` and `y`, and `y` and `z`, to `x`
/// and `z`.
pub proof fn lemma_string_lt_transitive(x: Seq<char>, y: Seq<char>, z: Seq<char>)
    requires
        string_lt(x, y),
        string_lt(y, z),
    ensures
        string_lt(x, z),
{
    let x_starts_y = x.len() < y.len() && y.take(x.len() as int) == x;
    let y_starts_z = y.len() < z.len() && z.take(y.len() as int) == y;
    if x_starts_y && y_starts_z {
        assert(z.take(x.len() as int) =~= x) by {
            assert forall|n: int| 0 <= n < x.len() implies z.take(x.len() as int)[n] == x[n] by {
                assert(y.take(x.len() as int)[n] == x[n]);
                assert(z.take(y.len() as int)[n] == y[n]);
            }
        }
    } else if x_starts_y {
        let j = choose|j: int| is_smaller_at(y, z, j);
        if j < x.len() {
            assert(y.take(x.len() as int)[j] == x[j]);
            assert(x.take(j) =~= z.take(j)) by {
                assert forall|n: int| 0 <= n < j implies x.take(j)[n] == z.take(j)[n] by {
                    assert(y.take(x.len() as int)[n] == x[n]);
                    assert(y.take(j)[n] == z.take(j)[n]);
                }
            }
            assert(is_smaller_at(x, z, j));
        } else {
            assert(z.take(x.len() as int) =~= x) by {
                assert forall|n: int| 0 <= n < x.len() implies z.take(x.len() as int)[n]
                    == x[n] by {
                    assert(y.take(x.len() as int)[n] == x[n]);
                    assert(y.take(j)[n] == z.take(j)[n]);
                }
            }
        }
    } else if y_starts_z {
        let i = choose|i: int| is_smaller_at(x, y, i);
        assert(z.take(y.len() as int)[i] == y[i]);
        assert(x.take(i) =~= z.take(i)) by {
            assert forall|n: int| 0 <= n < i implies x.take(i)[n] == z.take(i)[n] by {
                assert(x.take(i)[n] == y.take(i)[n]);
                assert(z.take(y.len() as int)[n] == y[n]);
            }
        }
        assert(is_smaller_at(x, z, i));
    } else {
        let i = choose|i: int| is_smaller_at(x, y, i);
        let j = choose|j: int| is_smaller_at(y, z, j);
        let m = if i < j {
            i
        } else {
            j
        };
        assert(x.take(m) =~= z.take(m)) by {
            assert forall|n: int| 0 <= n < m implies x.take(m)[n] == z.take(m)[n] by {
                assert(x.take(i)[n] == y.take(i)[n]);
                assert(y.take(j)[n] == z.take(j)[n]);
            }
        }
        if i < j {
            assert(y.take(j)[i] == z.take(j)[i]);
        } else if j < i {
            assert(x.take(i)[j] == y.take(i)[j]);
        }
        assert(is_smaller_at(x, z, m));
    }
}

/// Of two strings at most one sorts below the other.
pub proof fn lemma_string_lt_asymmetric(x: Seq<char>, y: Seq<char>)
    requires
        string_lt(x, y),
    ensures
        !string_lt(y, x),
{
    if string_lt(y, x) {
        lemma_string_lt_transitive(x, y, x);
        lemma_string_lt_irreflexive(x);
    }
}

/// Whether the string `a` sorts below `b` in lexicographic order.
pub fn string_is_below(a: &str, b: &str) -> (r: bool)
    ensures
        r == string_lt(a@, b@),
{
    let mut rest_a = a.chars();
    let mut rest_b = b.chars();
    let ghost mut n: int = 0;
    loop
        invariant
            0 <= n <= a@.len(),
            n <= b@.len(),
            rest_a.remaining() == a@.skip(n),
            rest_b.remaining() == b@.skip(n),
            a@.take(n) == b@.take(n),
        decreases a@.len() - n,
    {
        let next_a = rest_a.next();
        let next_b = rest_b.next();
        proof {
            if n < a@.len() {
                assert(a@.skip(n)[0] == a@[n]);
                assert(a@.skip(n).drop_first() =~= a@.skip(n + 1));
            }
            if n < b@.len() {
                assert(b@.skip(n)[0] == b@[n]);
                assert(b@.skip(n).drop_first() =~= b@.skip(n + 1));
            }
        }
        match (next_a, next_b) {
            (Some(x), Some(y)) => {
                let x_code: u32 = x as u32;
                let y_code: u32 = y as u32;
                if x_code < y_code {
                    assert(is_smaller_at(a@, b@, n));
                    return true;
                }
                if y_code < x_code {
                    proof {
                        assert(is_smaller_at(b@, a@, n));
                        lemma_string_lt_asymmetric(b@, a@);
                    }
                    return false;
                }
                proof {
                    vstd::utf8::char_u32_cast(x, x_code);
                    vstd::utf8::char_u32_cast(y, y_code);
                    assert(x == y);
                    assert(a@.take(n + 1) =~= a@.take(n).push(a@[n]));
                    assert(b@.take(n + 1) =~= b@.take(n).push(b@[n]));
                    n = n + 1;
                }
            },
            (None, Some(_)) => {
                proof {
                    assert(a@.take(n) =~= a@);
                }
                return true;
            },
            (Some(_), None) => {
                proof {
                    assert(b@.take(n) =~= b@);
                    lemma_string_lt_asymmetric(b@, a@);
                }
                return false;
            },
            (None, None) => {
                proof {
                    assert(a@.take(n) =~= a@);
                    assert(b@.take(n) =~= b@);
                    lemma_string_lt_irreflexive(a@);
                }
                return false;
            },
        }
    }
}

/// Whether the key `a = (token key, id)` sorts below `b`.
pub fn token_key_is_below(a_key: &String, a_id: u64, b_key: &String, b_id: u64) -> (r: bool)
    ensures
        r == token_key_lt((a_key@, a_id), (b_key@, b_id)),
{
    if string_is_below(a_key.as_str(), b_key.as_str()) {
        true
    } else {
        *a_key == *b_key && a_id < b_id
    }
}

/// Descending keys by token are a scan order.
pub proof fn lemma_token_descending_is_order()
    ensures
        is_scan_order(token_descending()),
{
    let before = token_descending();
    assert forall|a: (Seq<char>, u64)| !#[trigger] precedes(before, a, a) by {
        lemma_string_lt_irreflexive(a.0);
    }
    assert forall|a: (Seq<char>, u64), b: (Seq<char>, u64), c: (Seq<char>, u64)|
        #[trigger] precedes(before, a, b) && #[trigger] precedes(before, b, c) implies precedes(
        before,
        a,
        c,
    ) by {
        if string_lt(c.0, b.0) && string_lt(b.0, a.0) {
            lemma_string_lt_transitive(c.0, b.0, a.0);
        }
    }
    assert forall|a: (Seq<char>, u64), b: (Seq<char>, u64)| a != b implies #[trigger] precedes(
        before,
        a,
        b,
    ) || precedes(before, b, a) by {
        if a.0 != b.0 {
            lemma_string_lt_total(a.0, b.0);
        }
    }
}

/// No key occurs twice on a page.
pub proof fn lemma_page_has_no_duplicates<K>(
    page: Seq<K>,
    among: Set<K>,
    before: spec_fn(K, K) -> bool,
    limit: nat,
)
    requires
        is_page(page, among, before, limit),
        is_scan_order(before),
    ensures
        page.no_duplicates(),
{
    assert forall|i: int, j: int| 0 <= i < page.len() && 0 <= j < page.len() && i != j implies page[i]
        != page[j] by {
        if i < j {
            assert(precedes(before, page[i], page[j]));
        } else {
            assert(precedes(before, page[j], page[i]));
        }
        assert(!precedes(before, page[i], page[i]));
    }
}

/// A page that is not full holds every key there is.
pub proof fn law_short_page_is_everything<K>(
    page: Seq<K>,
    among: Set<K>,
    before: spec_fn(K, K) -> bool,
    limit: nat,
)
    requires
        is_page(page, among, before, limit),
        page.len() < limit,
    ensures
        among == page.to_set(),
{
    assert forall|k: K| among.contains(k) <==> page.to_set().contains(k) by {
        if page.to_set().contains(k) {
            let i = choose|i: int| 0 <= i < page.len() && page[i] == k;
            assert(among.contains(page[i]));
        }
    }
    assert(among =~= page.to_set());
}

/// Where there are at least `limit` keys, the page is full, so that it leaves
/// a cursor.
pub proof fn law_full_index_fills_page<K>(
    page: Seq<K>,
    among: Set<K>,
    before: spec_fn(K, K) -> bool,
    limit: nat,
)
    requires
        is_page(page, among, before, limit),
        among.finite(),
        among.len() >= limit,
        limit > 0,
    ensures
        page.len() == limit,
        next_position(page, limit) == Some(page.last()),
{
    if page.len() < limit {
        law_short_page_is_everything(page, among, before, limit);
        page.lemma_cardinality_of_set();
    }
}

/// Where there is one key more than a page holds, the page that resumes after
/// the first page's last key holds that one key and leaves no cursor.
pub proof fn law_second_page_finishes<K>(
    first: Seq<K>,
    second: Seq<K>,
    among: Set<K>,
    before: spec_fn(K, K) -> bool,
    limit: nat,
)
    requires
        is_scan_order(before),
        limit >= 2,
        among.finite(),
        among.len() == limit + 1,
        is_page(first, among, before, limit),
        is_page(
            second,
            Set::new(|k: K| among.contains(k) && precedes(before, first.last(), k)),
            before,
            limit,
        ),
    ensures
        first.len() == limit,
        second.len() == 1,
        !first.contains(second[0]),
        among == first.to_set().insert(second[0]),
        next_position(second, limit) is None,
{
    let rest = Set::new(|k: K| among.contains(k) && precedes(before, first.last(), k));
    law_full_index_fills_page(first, among, before, limit);
    lemma_page_has_no_duplicates(first, among, before, limit);
    first.unique_seq_to_set();
    vstd::seq_lib::seq_to_set_is_finite(first);
    // A key that the first page leaves out.
    assert(exists|x: K| among.contains(x) && !first.contains(x)) by {
        if forall|x: K| among.contains(x) ==> first.contains(x) {
            assert(among.subset_of(first.to_set()));
            vstd::set_lib::lemma_len_subset(among, first.to_set());
        }
    }
    let x = choose|x: K| among.contains(x) && !first.contains(x);
    assert(precedes(before, first[first.len() - 1], x));
    assert(rest.contains(x));
    // It is the only one.
    assert forall|k: K| rest.contains(k) implies k == x by {
        if k != x {
            if first.contains(k) {
                let i = choose|i: int| 0 <= i < first.len() && first[i] == k;
                if i < first.len() - 1 {
                    assert(precedes(before, first[i], first[first.len() - 1]));
                    assert(precedes(before, first.last(), k));
                    assert(precedes(before, k, k));
                } else {
                    assert(!precedes(before, k, k));
                }
            } else {
                let more = first.to_set().insert(x).insert(k);
                assert(more.subset_of(among)) by {
                    assert forall|y: K| more.contains(y) implies among.contains(y) by {
                        if first.to_set().contains(y) {
                            let i = choose|i: int| 0 <= i < first.len() && first[i] == y;
                            assert(among.contains(first[i]));
                        }
                    }
                }
                vstd::set_lib::lemma_len_subset(more, among);
                assert(first.to_set().insert(x).len() == limit + 1);
                assert(more.len() == limit + 2);
            }
        }
    }
    // So the second page is that key alone.
    lemma_page_has_no_duplicates(second, rest, before, limit);
    assert(second.len() <= 1) by {
        if second.len() >= 2 {
            assert(rest.contains(second[0]));
            assert(rest.contains(second[1]));
        }
    }
    if second.len() == 0 {
        assert(!second.contains(x));
    }
    assert(rest.contains(second[0]));
    assert(among =~= first.to_set().insert(second[0])) by {
        let whole = first.to_set().insert(x);
        assert(whole.subset_of(among)) by {
            assert forall|y: K| whole.contains(y) implies among.contains(y) by {
                if first.to_set().contains(y) {
                    let i = choose|i: int| 0 <= i < first.len() && first[i] == y;
                    assert(among.contains(first[i]));
                }
            }
        }
        assert forall|y: K| among.contains(y) implies whole.contains(y) by {
            if !whole.contains(y) {
                let more = whole.insert(y);
                assert(more.subset_of(among));
                vstd::set_lib::lemma_len_subset(more, among);
                assert(whole.len() == limit + 1);
                assert(more.len() == limit + 2);
            }
        }
    }
}

/// Over the index by amount: where `recipient` has as many entries as a page
/// holds, the first page leaves a cursor; and where there is one entry more,
/// the page that resumes from that cursor holds the one entry left and leaves
/// no cursor.
pub proof fn law_amount_pages_are_complete(
    index: Set<(Seq<char>, u128, u64)>,
    recipient: Seq<char>,
    first: Seq<(u128, u64)>,
    second: Seq<(u128, u64)>,
    limit: nat,
)
    requires
        limit >= 2,
        amount_keys(index, recipient, None).finite(),
        is_page(first, amount_keys(index, recipient, None), amount_descending(), limit),
        is_page(
            second,
            amount_keys(index, recipient, next_position(first, limit)),
            amount_descending(),
            limit,
        ),
    ensures
        amount_keys(index, recipient, None).len() >= limit ==> next_position(first, limit)
            is Some,
        amount_keys(index, recipient, None).len() == limit + 1 ==> second.len() == 1
            && !first.contains(second[0]) && amount_keys(index, recipient, None)
            == first.to_set().insert(second[0]) && next_position(second, limit) is None,
{
    let all = amount_keys(index, recipient, None);
    let before = amount_descending();
    lemma_amount_descending_is_order();
    if all.len() >= limit {
        law_full_index_fills_page(first, all, before, limit);
    }
    if all.len() == limit + 1 {
        let rest = Set::new(|k: (u128, u64)| all.contains(k) && precedes(before, first.last(), k));
        assert(rest =~= amount_keys(index, recipient, next_position(first, limit)));
        law_second_page_finishes(first, second, all, before, limit);
    }
}

/// One scan has one first page: two pages of the same keys in the same order
/// are the same page.
pub proof fn law_page_is_unique<K>(
    one: Seq<K>,
    other: Seq<K>,
    among: Set<K>,
    before: spec_fn(K, K) -> bool,
    limit: nat,
)
    requires
        is_scan_order(before),
        is_page(one, among, before, limit),
        is_page(other, among, before, limit),
    ensures
        one == other,
{
    lemma_pages_agree(one, other, among, before, limit, one.len() as int);
    lemma_not_shorter(one, other, among, before, limit);
    assert forall|i: int| 0 <= i < other.len() && i < one.len() implies other[i] == one[i] by {}
    lemma_not_shorter(other, one, among, before, limit);
    assert(one =~= other);
}

/// Two pages of the same keys agree wherever both hold a key.
proof fn lemma_pages_agree<K>(
    one: Seq<K>,
    other: Seq<K>,
    among: Set<K>,
    before: spec_fn(K, K) -> bool,
    limit: nat,
    n: int,
)
    requires
        is_scan_order(before),
        is_page(one, among, before, limit),
        is_page(other, among, before, limit),
        0 <= n <= one.len(),
    ensures
        forall|i: int| 0 <= i < n && i < other.len() ==> one[i] == other[i],
    decreases n,
{
    if n > 0 {
        lemma_pages_agree(one, other, among, before, limit, n - 1);
        let i = n - 1;
        if i < other.len() {
            lemma_not_earlier(one, other, among, before, limit, i);
            assert forall|j: int| 0 <= j < i implies other[j] == one[j] by {}
            lemma_not_earlier(other, one, among, before, limit, i);
        }
    }
}

/// Where two pages agree before place `i`, the key that one of them holds at
/// `i` does not come before the key that the other holds there.
proof fn lemma_not_earlier<K>(
    one: Seq<K>,
    other: Seq<K>,
    among: Set<K>,
    before: spec_fn(K, K) -> bool,
    limit: nat,
    i: int,
)
    requires
        is_scan_order(before),
        is_page(one, among, before, limit),
        is_page(other, among, before, limit),
        0 <= i < one.len(),
        i < other.len(),
        forall|j: int| 0 <= j < i ==> one[j] == other[j],
    ensures
        !precedes(before, one[i], other[i]),
{
    let k = one[i];
    assert(among.contains(one[i]));
    assert(!precedes(before, k, k));
    if precedes(before, one[i], other[i]) {
        if other.contains(k) {
            let j = choose|j: int| 0 <= j < other.len() && other[j] == k;
            if j < i {
                assert(precedes(before, one[j], one[i]));
            } else if j > i {
                assert(precedes(before, other[i], other[j]));
                assert(precedes(before, k, k));
            }
        } else {
            assert(precedes(before, other[i], k));
            assert(precedes(before, k, k));
        }
    }
}

/// Of two pages of the same keys that agree where both hold a key, the one is
/// as long as the other at least.
proof fn lemma_not_shorter<K>(
    one: Seq<K>,
    other: Seq<K>,
    among: Set<K>,
    before: spec_fn(K, K) -> bool,
    limit: nat,
)
    requires
        is_scan_order(before),
        is_page(one, among, before, limit),
        is_page(other, among, before, limit),
        forall|i: int| 0 <= i < one.len() && i < other.len() ==> one[i] == other[i],
    ensures
        one.len() >= other.len(),
{
    if one.len() < other.len() {
        let k = other[one.len() as int];
        assert(among.contains(other[one.len() as int]));
        assert(!precedes(before, k, k));
        if one.contains(k) {
            let j = choose|j: int| 0 <= j < one.len() && one[j] == k;
            assert(precedes(before, other[j], other[one.len() as int]));
        }
    }
}

/// The keys that come after the last key of `page` in the scan over `among`,
/// which are the keys that the next page is taken from.
pub open spec fn keys_after<K>(among: Set<K>, before: spec_fn(K, K) -> bool, page: Seq<K>) -> Set<K> {
    Set::new(|k: K| among.contains(k) && precedes(before, page.last(), k))
}

/// A full page and the page that resumes after its last key make, one after
/// the other, the first page of twice the size.
pub proof fn law_pages_join<K>(
    first: Seq<K>,
    second: Seq<K>,
    among: Set<K>,
    before: spec_fn(K, K) -> bool,
    first_limit: nat,
    limit: nat,
)
    requires
        is_scan_order(before),
        first_limit > 0,
        first.len() == first_limit,
        is_page(first, among, before, first_limit),
        is_page(second, keys_after(among, before, first), before, limit),
    ensures
        is_page(first + second, among, before, first_limit + limit),
{
    let both = first + second;
    let rest = keys_after(among, before, first);
    let last = first[first.len() - 1];
    assert forall|i: int| 0 <= i < both.len() implies among.contains(#[trigger] both[i]) by {
        if i < first.len() {
            assert(among.contains(first[i]));
        } else {
            assert(rest.contains(second[i - first.len()]));
        }
    }
    assert forall|i: int, j: int| 0 <= i < j < both.len() implies before(
        #[trigger] both[i],
        #[trigger] both[j],
    ) by {
        if j < first.len() {
            assert(before(first[i], first[j]));
        } else if i >= first.len() {
            assert(before(second[i - first.len()], second[j - first.len()]));
        } else {
            assert(rest.contains(second[j - first.len()]));
            assert(precedes(before, last, both[j]));
            if i < first.len() - 1 {
                assert(precedes(before, first[i], last));
            }
            assert(precedes(before, both[i], both[j]));
        }
    }
    assert forall|k: K| #[trigger] among.contains(k) && !both.contains(k) implies both.len()
        == first_limit + limit && forall|i: int|
        0 <= i < both.len() ==> before(#[trigger] both[i], k) by {
        assert(!first.contains(k)) by {
            if first.contains(k) {
                let i = choose|i: int| 0 <= i < first.len() && first[i] == k;
                assert(both[i] == k);
            }
        }
        assert(!second.contains(k)) by {
            if second.contains(k) {
                let i = choose|i: int| 0 <= i < second.len() && second[i] == k;
                assert(both[first.len() + i] == k);
            }
        }
        assert(precedes(before, first[first.len() - 1], k));
        assert(rest.contains(k));
        assert(second.len() == limit);
        assert forall|i: int| 0 <= i < both.len() implies before(#[trigger] both[i], k) by {
            if i < first.len() {
                assert(before(first[i], k));
            } else {
                assert(before(second[i - first.len()], k));
            }
        }
    }
}

/// The pages of a walk, one after the other.
pub open spec fn joined<K>(pages: Seq<Seq<K>>) -> Seq<K>
    decreases pages.len(),
{
    if pages.len() == 0 {
        Seq::empty()
    } else {
        joined(pages.drop_last()) + pages.last()
    }
}

/// Whether `pages` are the pages of a walk over `among` with the page size
/// `limit`: the first is the first page of the scan, each later one resumes
/// after the last key of the page before it, and every page but the last is
/// full.
pub open spec fn is_walk<K>(
    pages: Seq<Seq<K>>,
    among: Set<K>,
    before: spec_fn(K, K) -> bool,
    limit: nat,
) -> bool {
    &&& pages.len() >= 1
    &&& is_page(pages[0], among, before, limit)
    &&& forall|i: int|
        0 <= i < pages.len() - 1 ==> (#[trigger] pages[i]).len() == limit && is_page(
            pages[i + 1],
            keys_after(among, before, pages[i]),
            before,
            limit,
        )
}

/// The pages of a walk, one after the other, are one scan: the first page of
/// as many times the page size as there are pages. So they hold their keys in
/// scan order and none twice; and where the last page is not full, which is
/// where the walk gets no further cursor, they hold every key there is.
pub proof fn law_walk_is_one_scan<K>(
    pages: Seq<Seq<K>>,
    among: Set<K>,
    before: spec_fn(K, K) -> bool,
    limit: nat,
)
    requires
        is_scan_order(before),
        limit > 0,
        is_walk(pages, among, before, limit),
    ensures
        is_page(joined(pages), among, before, pages.len() * limit),
        joined(pages).no_duplicates(),
        joined(pages).len() == (pages.len() - 1) * limit + pages.last().len(),
        pages.last().len() < limit ==> among == joined(pages).to_set(),
    decreases pages.len(),
{
    let n = pages.len();
    if n == 1 {
        assert(pages.drop_last() =~= Seq::<Seq<K>>::empty());
        assert(joined(pages.drop_last()) =~= Seq::<K>::empty());
        assert(joined(pages) =~= pages[0]);
        assert(1 * limit == limit) by (nonlinear_arith);
        assert((1 - 1) * limit == 0) by (nonlinear_arith);
    } else {
        let front = pages.drop_last();
        assert(n >= 2);
        assert(is_walk(front, among, before, limit)) by {
            assert(front[0] == pages[0]);
            assert forall|i: int| 0 <= i < front.len() - 1 implies (#[trigger] front[i]).len()
                == limit && is_page(
                front[i + 1],
                keys_after(among, before, front[i]),
                before,
                limit,
            ) by {
                assert(pages[i].len() == limit);
                assert(front[i] == pages[i]);
                assert(front[i + 1] == pages[i + 1]);
            }
        }
        law_walk_is_one_scan(front, among, before, limit);
        let so_far = joined(front);
        let last_full = pages[n - 2];
        assert(pages[n - 2].len() == limit && is_page(
            pages[n - 2 + 1],
            keys_after(among, before, pages[n - 2]),
            before,
            limit,
        ));
        assert(front.last() == last_full);
        assert(so_far.len() == (n - 1) * limit) by {
            assert((n - 2) * limit + limit == (n - 1) * limit) by (nonlinear_arith);
        }
        assert((n - 1) * limit >= limit) by (nonlinear_arith)
            requires
                n >= 2,
        ;
        assert(so_far.last() == last_full.last()) by {
            let earlier = joined(front.drop_last());
            assert(so_far == earlier + last_full);
            assert((earlier + last_full)[earlier.len() + last_full.len() - 1] == last_full[
                last_full.len() - 1
            ]);
        }
        assert(keys_after(among, before, so_far) =~= keys_after(among, before, last_full));
        law_pages_join(so_far, pages[n - 1], among, before, ((n - 1) * limit) as nat, limit);
        assert((n - 1) * limit + limit == n * limit) by (nonlinear_arith);
    }
    lemma_page_has_no_duplicates(joined(pages), among, before, pages.len() * limit);
    if pages.last().len() < limit {
        assert(joined(pages).len() < pages.len() * limit) by {
            assert((n - 1) * limit + limit == n * limit) by (nonlinear_arith);
        }
        law_short_page_is_everything(joined(pages), among, before, pages.len() * limit);
    }
}

} // verus!
