use claims_ledger::query::claims::query_claims_checked;
use claims_ledger::paging::{string_is_below, token_key_is_below};
use claims_ledger::state::has_no_strays;
use cosmwasm_std::Storage;
use claims_ledger::error::LedgerError;
use claims_ledger::execute::upsert::upsert_one;
use claims_ledger::models::{ClaimRecord, Config};
use claims_ledger::msg::{ClaimsQueryMsg, ConfigResponse, OrderKey, OrderKeyCursor};
use claims_ledger::query::claims::{
    claims_by_amount, claims_by_time, claims_by_token, load_records, query_claims, DEFAULT_LIMIT,
};
use claims_ledger::query::config::query_config;
use claims_ledger::state::Store;
use claims_ledger::token::Token;
use cosmwasm_std::testing::MockStorage;

fn denom(d: &str) -> Token {
    Token::Denom(d.to_string())
}

fn credit(store: &mut Store, name: &str, token: Token, who: &str, amount: u128, now: u64) {
    upsert_one(store, &name.to_string(), &token, &who.to_string(), amount, now).unwrap();
}

fn names(claims: &Vec<ClaimRecord>) -> Vec<String> {
    claims.iter().map(|c| c.name.clone()).collect()
}

fn query(store: &Store, who: &str, order_by: OrderKey, cursor: Option<OrderKeyCursor>) -> (Vec<ClaimRecord>, Option<OrderKeyCursor>) {
    let response =
        query_claims(store, ClaimsQueryMsg { address: who.to_string(), order_by, cursor }).unwrap();
    (response.claims, response.cursor)
}

#[test]
fn a_page_holds_one_hundred_claims() {
    assert_eq!(DEFAULT_LIMIT, 100);
}

#[test]
fn claims_come_largest_amount_first() {
    let mut mem = MockStorage::new();
    let mut store = Store::open(&mut mem);
    credit(&mut store, "small", denom("uatom"), "alice", 5, 1);
    credit(&mut store, "large", denom("uatom"), "alice", 1 << 100, 2);
    credit(&mut store, "middle", denom("uatom"), "alice", 300, 3);
    credit(&mut store, "middle too", denom("uosmo"), "alice", 300, 4);
    credit(&mut store, "not mine", denom("uatom"), "bob", 1000, 5);

    let alice = "alice".to_string();
    let (claims, cursor) = claims_by_amount(&store, &alice, None).unwrap();
    assert_eq!(names(&claims), vec!["large", "middle too", "middle", "small"]);
    assert_eq!(cursor, None);
    // Resuming below a key leaves out that key and everything above.
    let (claims, _) = claims_by_amount(&store, &alice, Some((300, 4))).unwrap();
    assert_eq!(names(&claims), vec!["middle", "small"]);
    let (claims, _) = claims_by_amount(&store, &alice, Some((300, 3))).unwrap();
    assert_eq!(names(&claims), vec!["small"]);
    let (claims, _) = claims_by_amount(&store, &alice, Some((5, 1))).unwrap();
    assert!(claims.is_empty());
    let (claims, _) = claims_by_amount(&store, &alice, Some((0, 0))).unwrap();
    assert!(claims.is_empty());
    let (claims, _) = claims_by_amount(&store, &alice, Some((u128::MAX, u64::MAX))).unwrap();
    assert_eq!(claims.len(), 4);
}

#[test]
fn claims_come_latest_first() {
    let mut mem = MockStorage::new();
    let mut store = Store::open(&mut mem);
    credit(&mut store, "first", denom("uatom"), "alice", 5, 1_000);
    credit(&mut store, "third", denom("uatom"), "alice", 5, 70_000);
    credit(&mut store, "second", denom("uatom"), "alice", 5, 256);
    credit(&mut store, "second", denom("uatom"), "alice", 5, 2_000);
    credit(&mut store, "third too", denom("uatom"), "alice", 5, 70_000);

    let alice = "alice".to_string();
    let (claims, cursor) = claims_by_time(&store, &alice, None).unwrap();
    assert_eq!(names(&claims), vec!["third too", "third", "second", "first"]);
    assert_eq!(claims[2].updated_at, 2_000);
    assert_eq!(claims[2].amount, 10);
    assert_eq!(cursor, None);
    let (claims, _) = claims_by_time(&store, &alice, Some((70_000, 2))).unwrap();
    assert_eq!(names(&claims), vec!["second", "first"]);
    let (claims, _) = claims_by_time(&store, &alice, Some((1_000, 1))).unwrap();
    assert!(claims.is_empty());
}

#[test]
fn claims_come_by_token_key_in_the_order_of_strings() {
    let mut mem = MockStorage::new();
    let mut store = Store::open(&mut mem);
    credit(&mut store, "b", denom("b"), "alice", 1, 1);
    credit(&mut store, "aa", denom("aa"), "alice", 1, 1);
    credit(&mut store, "contract z", Token::Address("z".to_string()), "alice", 1, 1);
    credit(&mut store, "ab", denom("ab"), "alice", 1, 1);
    credit(&mut store, "b again", denom("b"), "alice", 1, 1);
    credit(&mut store, "empty", denom(""), "alice", 1, 1);
    credit(&mut store, "z", denom("z"), "alice", 1, 1);
    credit(&mut store, "not mine", denom("zz"), "bob", 1, 1);

    let alice = "alice".to_string();
    let (claims, cursor) = claims_by_token(&store, &alice, None).unwrap();
    // "d:z" comes before "d:aa", though it is the shorter key.
    assert_eq!(names(&claims), vec!["z", "b again", "b", "ab", "aa", "empty", "contract z"]);
    assert_eq!(cursor, None);
    let (claims, _) = claims_by_token(&store, &alice, Some(("d:b".to_string(), 5))).unwrap();
    assert_eq!(names(&claims), vec!["b", "ab", "aa", "empty", "contract z"]);
    let (claims, _) = claims_by_token(&store, &alice, Some(("d:".to_string(), 6))).unwrap();
    assert_eq!(names(&claims), vec!["contract z"]);
    let (claims, _) = claims_by_token(&store, &alice, Some(("d:aa".to_string(), 0))).unwrap();
    assert_eq!(names(&claims), vec!["empty", "contract z"]);
    let (claims, _) = claims_by_token(&store, &alice, Some(("a:z".to_string(), 3))).unwrap();
    assert!(claims.is_empty());
    let (claims, _) = claims_by_token(&store, &alice, Some(("e".to_string(), 0))).unwrap();
    assert_eq!(claims.len(), 7);
}

#[test]
fn strings_compare_in_lexicographic_order() {
    assert!(string_is_below("", "a"));
    assert!(!string_is_below("", ""));
    assert!(!string_is_below("a", ""));
    assert!(string_is_below("ab", "abc"));
    assert!(!string_is_below("abc", "ab"));
    assert!(string_is_below("aa", "z"));
    assert!(!string_is_below("z", "aa"));
    assert!(string_is_below("abc", "abd"));
    assert!(!string_is_below("abc", "abc"));
    assert!(string_is_below("z", "\u{e9}"));
    assert!(string_is_below("\u{e9}z", "\u{ea}"));
    assert!(string_is_below("\u{ffff}", "\u{10000}"));
    assert!(!string_is_below("\u{10000}", "\u{ffff}"));
    for (a, b) in [("", "a"), ("ab", "abc"), ("aa", "z"), ("z", "\u{e9}"), ("\u{ffff}", "\u{10000}")] {
        assert_eq!(string_is_below(a, b), a < b);
        assert_eq!(string_is_below(b, a), b < a);
    }
    let (aa, z) = ("d:aa".to_string(), "d:z".to_string());
    assert!(token_key_is_below(&aa, 9, &z, 1));
    assert!(!token_key_is_below(&z, 1, &aa, 9));
    assert!(token_key_is_below(&z, 1, &z, 2));
    assert!(!token_key_is_below(&z, 2, &z, 2));
    assert!(!token_key_is_below(&z, 3, &z, 2));
}

#[test]
fn a_full_page_leaves_a_cursor_and_the_next_page_finishes() {
    let mut mem = MockStorage::new();
    let mut store = Store::open(&mut mem);
    for i in 0..100u128 {
        credit(&mut store, &format!("batch{}", i), denom("uatom"), "alice", 1000 + i, 1);
    }
    let alice = "alice".to_string();
    let (page, cursor) = claims_by_amount(&store, &alice, None).unwrap();
    assert_eq!(page.len(), 100);
    assert_eq!(page[0].amount, 1099);
    assert_eq!(page[99].amount, 1000);
    assert_eq!(cursor, Some(OrderKeyCursor::Amount((1000, 1))));
    // With exactly one page of claims, the page after it is empty.
    let (page, cursor) = claims_by_amount(&store, &alice, Some((1000, 1))).unwrap();
    assert!(page.is_empty());
    assert_eq!(cursor, None);

    // One claim more, and the second page holds the one that is left.
    credit(&mut store, "smallest", denom("uatom"), "alice", 7, 1);
    let (page, cursor) = claims_by_amount(&store, &alice, None).unwrap();
    assert_eq!(page.len(), 100);
    assert_eq!(cursor, Some(OrderKeyCursor::Amount((1000, 1))));
    let (page, cursor) = claims_by_amount(&store, &alice, Some((1000, 1))).unwrap();
    assert_eq!(names(&page), vec!["smallest"]);
    assert_eq!(cursor, None);
}

#[test]
fn pages_by_time_and_by_token_leave_their_own_cursors() {
    let mut mem = MockStorage::new();
    let mut store = Store::open(&mut mem);
    for i in 0..101u64 {
        credit(&mut store, "batch", denom(&format!("coin{:03}", i)), "alice", 1, 50 + i);
    }
    let (page, cursor) = query(&store, "alice", OrderKey::UpdatedAt, None);
    assert_eq!(page.len(), 100);
    assert_eq!(cursor, Some(OrderKeyCursor::UpdatedAt((51, 2))));
    let (page, next) = query(&store, "alice", OrderKey::UpdatedAt, cursor);
    assert_eq!(page.len(), 1);
    assert_eq!(page[0].updated_at, 50);
    assert_eq!(next, None);

    let (page, cursor) = query(&store, "alice", OrderKey::Token, None);
    assert_eq!(page.len(), 100);
    assert_eq!(page[0].token, denom("coin100"));
    assert_eq!(cursor, Some(OrderKeyCursor::Token(("d:coin001".to_string(), 2))));
    let (page, next) = query(&store, "alice", OrderKey::Token, cursor);
    assert_eq!(page.len(), 1);
    assert_eq!(page[0].token, denom("coin000"));
    assert_eq!(next, None);

    let (page, cursor) = query(&store, "alice", OrderKey::Amount, None);
    assert_eq!(page.len(), 100);
    assert_eq!(cursor, Some(OrderKeyCursor::Amount((1, 2))));
    let (page, next) = query(&store, "alice", OrderKey::Amount, cursor);
    assert_eq!(page.len(), 1);
    assert_eq!(next, None);
}

#[test]
fn a_cursor_of_another_ordering_counts_as_none() {
    let mut mem = MockStorage::new();
    let mut store = Store::open(&mut mem);
    credit(&mut store, "a", denom("uatom"), "alice", 5, 10);
    credit(&mut store, "b", denom("uatom"), "alice", 6, 11);
    let (page, _) = query(&store, "alice", OrderKey::Amount, Some(OrderKeyCursor::UpdatedAt((0, 0))));
    assert_eq!(names(&page), vec!["b", "a"]);
    let (page, _) = query(&store, "alice", OrderKey::UpdatedAt, Some(OrderKeyCursor::Amount((0, 0))));
    assert_eq!(names(&page), vec!["b", "a"]);
    let (page, _) =
        query(&store, "alice", OrderKey::Token, Some(OrderKeyCursor::Amount((0, 0))));
    assert_eq!(names(&page), vec!["b", "a"]);
    let (page, _) = query(&store, "alice", OrderKey::Amount, Some(OrderKeyCursor::Amount((6, 2))));
    assert_eq!(names(&page), vec!["a"]);
}

#[test]
fn key_parts_that_are_too_long_are_rejected_by_queries() {
    let mut mem = MockStorage::new();
    let store = Store::open(&mut mem);
    let long = "x".repeat(0x1_0000);
    let alice = "alice".to_string();
    assert!(matches!(claims_by_time(&store, &long, None), Err(LedgerError::Validation)));
    assert!(matches!(claims_by_amount(&store, &long, None), Err(LedgerError::Validation)));
    assert!(matches!(claims_by_token(&store, &long, None), Err(LedgerError::Validation)));
    // A cursor is compared, not stored, and may be of any length.
    assert!(claims_by_token(&store, &alice, Some((long.clone(), 1))).unwrap().0.is_empty());
    let r = query_claims(
        &store,
        ClaimsQueryMsg { address: long, order_by: OrderKey::Amount, cursor: None },
    );
    assert!(matches!(r, Err(LedgerError::Validation)));
    let ok = "x".repeat(0xFFFF);
    assert!(claims_by_token(&store, &ok, Some((ok.clone(), 1))).unwrap().0.is_empty());
}

#[test]
fn load_records_gives_the_records_one_for_one() {
    let mut mem = MockStorage::new();
    let mut store = Store::open(&mut mem);
    credit(&mut store, "a", denom("uatom"), "alice", 5, 10);
    credit(&mut store, "b", denom("uatom"), "bob", 6, 11);
    let records = load_records(&store, &vec![2, 1, 2]).unwrap();
    assert_eq!(names(&records), vec!["b", "a", "b"]);
    assert_eq!(load_records(&store, &vec![]).unwrap(), vec![]);
    assert!(matches!(load_records(&store, &vec![1, 3]), Err(LedgerError::NotFound)));
}

#[test]
fn query_config_gives_the_empty_configuration() {
    assert_eq!(query_config().unwrap(), ConfigResponse(Config {}));
}

fn stray_key(namespace: &str, who: &str, suffix: &[u8]) -> Vec<u8> {
    let mut key = vec![0u8, namespace.len() as u8];
    key.extend_from_slice(namespace.as_bytes());
    key.extend_from_slice(&[0u8, who.len() as u8]);
    key.extend_from_slice(who.as_bytes());
    key.extend_from_slice(suffix);
    key
}

#[test]
fn a_stray_key_is_found_before_the_index_is_read() {

    let mut mem = MockStorage::new();
    mem.set(&stray_key("time_2_claim_id", "alice", &[7]), b"null");
    mem.set(&stray_key("token_2_claim_id", "bob", &[0, 9, 1]), b"null");
    let mut store = Store::open(&mut mem);
    credit(&mut store, "a", denom("uatom"), "alice", 5, 10);
    credit(&mut store, "b", denom("uatom"), "bob", 6, 11);

    let alice = "alice".to_string();
    let bob = "bob".to_string();
    assert!(!has_no_strays(&store, OrderKey::UpdatedAt, &alice));
    assert!(has_no_strays(&store, OrderKey::Amount, &alice));
    assert!(has_no_strays(&store, OrderKey::Token, &alice));
    assert!(has_no_strays(&store, OrderKey::UpdatedAt, &bob));
    assert!(!has_no_strays(&store, OrderKey::Token, &bob));
    assert!(has_no_strays(&store, OrderKey::Token, &"carol".to_string()));

    let ask = |who: &str, order_by: OrderKey| {
        query_claims_checked(
            &store,
            ClaimsQueryMsg { address: who.to_string(), order_by, cursor: None },
        )
    };
    assert!(matches!(ask("alice", OrderKey::UpdatedAt), Err(LedgerError::Corrupt)));
    assert_eq!(names(&ask("alice", OrderKey::Amount).unwrap().claims), vec!["a"]);
    assert_eq!(names(&ask("alice", OrderKey::Token).unwrap().claims), vec!["a"]);
    assert_eq!(names(&ask("bob", OrderKey::UpdatedAt).unwrap().claims), vec!["b"]);
    assert!(matches!(ask("bob", OrderKey::Token), Err(LedgerError::Corrupt)));
    assert!(matches!(
        ask(&"x".repeat(0x1_0000), OrderKey::Token),
        Err(LedgerError::Validation)
    ));
}

#[test]
fn the_checked_query_pages_like_the_plain_one() {

    let mut mem = MockStorage::new();
    let mut store = Store::open(&mut mem);
    for i in 0..101u128 {
        credit(&mut store, &format!("batch{}", i), denom("uatom"), "alice", 1000 + i, 1);
    }
    let first = query_claims_checked(
        &store,
        ClaimsQueryMsg { address: "alice".to_string(), order_by: OrderKey::Amount, cursor: None },
    )
    .unwrap();
    assert_eq!(first.claims.len(), 100);
    assert_eq!(first.cursor, Some(OrderKeyCursor::Amount((1001, 2))));
    let second = query_claims_checked(
        &store,
        ClaimsQueryMsg {
            address: "alice".to_string(),
            order_by: OrderKey::Amount,
            cursor: first.cursor,
        },
    )
    .unwrap();
    assert_eq!(names(&second.claims), vec!["batch0"]);
    assert_eq!(second.cursor, None);
}

#[test]
fn an_entry_that_cannot_be_read_is_a_store_failure_not_a_panic() {
    let mut mem = MockStorage::new();
    // Framed, but the sort value is one byte where eight are due.
    mem.set(&stray_key("time_2_claim_id", "alice", &[0, 1, 9, 0, 0, 0, 0, 0, 0, 0, 1]), b"null");
    let store = Store::open(&mut mem);
    let r = claims_by_time(&store, &"alice".to_string(), None);
    assert!(matches!(r, Err(LedgerError::Store(_))));
}
