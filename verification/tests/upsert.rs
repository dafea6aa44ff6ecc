use claims_ledger::error::LedgerError;
use claims_ledger::execute::upsert::{
    exec_upsert_cw20, exec_upsert_native, merge_contribution, next_id, reindex_after_upsert,
    resolve_or_create, sum_amounts, upsert, upsert_contribution, upsert_one,
};
use claims_ledger::execute::Context;
use claims_ledger::models::ClaimRecord;
use claims_ledger::msg::UpsertMsg;
use claims_ledger::query::claims::{claims_by_amount, claims_by_time, claims_by_token};
use claims_ledger::state::{load_record, Store};
use claims_ledger::token::{Coin, Token};
use cosmwasm_std::testing::MockStorage;
use cosmwasm_std::Storage;

fn denom(d: &str) -> Token {
    Token::Denom(d.to_string())
}

fn context<'a>(mem: &'a mut MockStorage, now: u64, sender: &str, funds: Vec<Coin>) -> Context<'a> {
    Context { store: Store::open(mem), now, sender: sender.to_string(), funds }
}

fn upsert_msg(name: &str, token: Token, amounts: &[(&str, u128)]) -> UpsertMsg {
    UpsertMsg {
        name: name.to_string(),
        token,
        amounts: amounts.iter().map(|(r, a)| (r.to_string(), *a)).collect(),
    }
}

fn record(updated_at: u64, name: &str, token: Token, amount: u128) -> ClaimRecord {
    ClaimRecord { updated_at, name: name.to_string(), token, amount }
}

fn amounts_by_amount(store: &Store, who: &str) -> Vec<u128> {
    let (claims, _) = claims_by_amount(store, &who.to_string(), None).unwrap();
    claims.iter().map(|c| c.amount).collect()
}

#[test]
fn upsert_creates_record_with_all_index_entries() {
    let mut mem = MockStorage::new();
    let mut ctx = context(&mut mem, 1_000, "admin", vec![]);
    upsert(&mut ctx, upsert_msg("drop", denom("uatom"), &[("alice", 10)])).unwrap();

    let expected = record(1_000, "drop", denom("uatom"), 10);
    let alice = "alice".to_string();
    let (by_time, cursor) = claims_by_time(&ctx.store, &alice, None).unwrap();
    assert_eq!(by_time, vec![expected.clone()]);
    assert_eq!(cursor, None);
    let (by_amount, _) = claims_by_amount(&ctx.store, &alice, None).unwrap();
    assert_eq!(by_amount, vec![expected.clone()]);
    let (by_token, _) = claims_by_token(&ctx.store, &alice, None).unwrap();
    assert_eq!(by_token, vec![expected.clone()]);
    assert_eq!(load_record(&ctx.store, 1).unwrap(), Some(expected));
    assert_eq!(load_record(&ctx.store, 2).unwrap(), None);
    let (none, _) = claims_by_time(&ctx.store, &"bob".to_string(), None).unwrap();
    assert!(none.is_empty());
}

#[test]
fn upsert_twice_merges_into_one_record_under_one_id() {
    let mut mem = MockStorage::new();
    let mut ctx = context(&mut mem, 5, "admin", vec![]);
    upsert(&mut ctx, upsert_msg("drop", denom("uatom"), &[("alice", 7)])).unwrap();
    let name = "drop".to_string();
    let key = denom("uatom").to_key();
    let alice = "alice".to_string();
    assert_eq!(resolve_or_create(&mut ctx.store, &name, &key, &alice).unwrap(), 1);
    ctx.now = 9;
    upsert(&mut ctx, upsert_msg("drop", denom("uatom"), &[("alice", 13)])).unwrap();

    assert_eq!(resolve_or_create(&mut ctx.store, &name, &key, &alice).unwrap(), 1);
    assert_eq!(load_record(&ctx.store, 1).unwrap(), Some(record(9, "drop", denom("uatom"), 20)));
    assert_eq!(load_record(&ctx.store, 2).unwrap(), None);
    let (by_time, _) = claims_by_time(&ctx.store, &alice, None).unwrap();
    assert_eq!(by_time, vec![record(9, "drop", denom("uatom"), 20)]);
}

#[test]
fn merge_leaves_no_stale_index_entries() {
    let mut mem = MockStorage::new();
    let mut ctx = context(&mut mem, 100, "admin", vec![]);
    upsert(&mut ctx, upsert_msg("drop", denom("uatom"), &[("alice", 7)])).unwrap();
    ctx.now = 200;
    upsert(&mut ctx, upsert_msg("drop", denom("uatom"), &[("alice", 1)])).unwrap();
    ctx.now = 300;
    upsert(&mut ctx, upsert_msg("drop", denom("uatom"), &[("alice", 2)])).unwrap();

    let alice = "alice".to_string();
    // One entry in each index, carrying the present time and amount.
    assert_eq!(amounts_by_amount(&ctx.store, "alice"), vec![10]);
    let (by_time, _) = claims_by_time(&ctx.store, &alice, None).unwrap();
    assert_eq!(by_time, vec![record(300, "drop", denom("uatom"), 10)]);
    // Nothing is left below the present keys.
    let (older, _) = claims_by_time(&ctx.store, &alice, Some((300, 1))).unwrap();
    assert!(older.is_empty());
    let (smaller, _) = claims_by_amount(&ctx.store, &alice, Some((10, 1))).unwrap();
    assert!(smaller.is_empty());
    let (by_token, _) = claims_by_token(&ctx.store, &alice, None).unwrap();
    assert_eq!(by_token.len(), 1);
}

#[test]
fn ids_are_allocated_in_order_one_per_identity_key() {
    let mut mem = MockStorage::new();
    let mut ctx = context(&mut mem, 1, "admin", vec![]);
    upsert(
        &mut ctx,
        upsert_msg("drop", denom("uatom"), &[("alice", 1), ("bob", 2), ("alice", 3)]),
    )
    .unwrap();
    upsert(&mut ctx, upsert_msg("other", denom("uatom"), &[("alice", 4)])).unwrap();
    upsert(&mut ctx, upsert_msg("drop", Token::Address("uatom".to_string()), &[("alice", 5)]))
        .unwrap();

    // Same recipient twice in one request: both contributions apply in turn.
    assert_eq!(load_record(&ctx.store, 1).unwrap().unwrap().amount, 4);
    assert_eq!(load_record(&ctx.store, 2).unwrap().unwrap().amount, 2);
    assert_eq!(load_record(&ctx.store, 3).unwrap().unwrap().name, "other");
    assert_eq!(
        load_record(&ctx.store, 4).unwrap().unwrap().token,
        Token::Address("uatom".to_string())
    );
    assert_eq!(load_record(&ctx.store, 5).unwrap(), None);
    let alice = "alice".to_string();
    let bob = "bob".to_string();
    let drop = "drop".to_string();
    let key = denom("uatom").to_key();
    assert_eq!(resolve_or_create(&mut ctx.store, &drop, &key, &alice).unwrap(), 1);
    assert_eq!(resolve_or_create(&mut ctx.store, &drop, &key, &bob).unwrap(), 2);
    // An identity key never seen before gets the next ID.
    let carol = "carol".to_string();
    assert_eq!(resolve_or_create(&mut ctx.store, &drop, &key, &carol).unwrap(), 5);
    assert_eq!(resolve_or_create(&mut ctx.store, &drop, &key, &carol).unwrap(), 5);
}

#[test]
fn next_id_counts_from_one_and_overflows_at_the_maximum() {
    assert_eq!(next_id(None).unwrap(), 1);
    assert_eq!(next_id(Some(0)).unwrap(), 1);
    assert_eq!(next_id(Some(41)).unwrap(), 42);
    assert_eq!(next_id(Some(u64::MAX - 1)).unwrap(), u64::MAX);
    assert!(matches!(next_id(Some(u64::MAX)), Err(LedgerError::Overflow)));
}

#[test]
fn counter_overflow_is_rejected_and_writes_nothing() {
    let mut mem = MockStorage::new();
    mem.set(b"id_counter", b"\"18446744073709551615\"");
    let mut ctx = context(&mut mem, 1, "admin", vec![]);
    let r = upsert(&mut ctx, upsert_msg("drop", denom("uatom"), &[("alice", 1)]));
    assert!(matches!(r, Err(LedgerError::Overflow)));
    assert_eq!(load_record(&ctx.store, 1).unwrap(), None);
    assert!(amounts_by_amount(&ctx.store, "alice").is_empty());
}

#[test]
fn merge_contribution_adds_to_the_previous_record() {
    let name = "new".to_string();
    let fresh = merge_contribution(&None, &name, &denom("uatom"), 5, 77).unwrap();
    assert_eq!(fresh, record(77, "new", denom("uatom"), 5));
    let prev = Some(record(10, "old", denom("uosmo"), 8));
    let merged = merge_contribution(&prev, &name, &denom("uatom"), 5, 77).unwrap();
    assert_eq!(merged, record(77, "old", denom("uosmo"), 13));
    let full = Some(record(10, "old", denom("uosmo"), u128::MAX));
    assert!(matches!(
        merge_contribution(&full, &name, &denom("uatom"), 1, 77),
        Err(LedgerError::Overflow)
    ));
    assert_eq!(merge_contribution(&full, &name, &denom("uatom"), 0, 77).unwrap().amount, u128::MAX);
}

#[test]
fn upsert_contribution_returns_new_and_previous_record() {
    let mut mem = MockStorage::new();
    let mut store = Store::open(&mut mem);
    let name = "drop".to_string();
    let (new, prev) = upsert_contribution(&mut store, 9, &denom("uatom"), &name, 4, 50).unwrap();
    assert_eq!(new, record(50, "drop", denom("uatom"), 4));
    assert_eq!(prev, None);
    let (new, prev) = upsert_contribution(&mut store, 9, &denom("uatom"), &name, 6, 60).unwrap();
    assert_eq!(new, record(60, "drop", denom("uatom"), 10));
    assert_eq!(prev, Some(record(50, "drop", denom("uatom"), 4)));
    assert_eq!(load_record(&store, 9).unwrap(), Some(new));
}

#[test]
fn reindex_after_upsert_replaces_the_sorted_entries() {
    let mut mem = MockStorage::new();
    let mut store = Store::open(&mut mem);
    let name = "drop".to_string();
    let alice = "alice".to_string();
    let key = denom("uatom").to_key();
    let (first, prev) = upsert_contribution(&mut store, 1, &denom("uatom"), &name, 4, 50).unwrap();
    reindex_after_upsert(&mut store, &alice, 1, &key, &prev, &first).unwrap();
    assert_eq!(amounts_by_amount(&store, "alice"), vec![4]);
    let (second, prev) = upsert_contribution(&mut store, 1, &denom("uatom"), &name, 6, 60).unwrap();
    reindex_after_upsert(&mut store, &alice, 1, &key, &prev, &second).unwrap();
    assert_eq!(amounts_by_amount(&store, "alice"), vec![10]);
    let (by_time, _) = claims_by_time(&store, &alice, None).unwrap();
    assert_eq!(by_time, vec![record(60, "drop", denom("uatom"), 10)]);
}

#[test]
fn overflow_is_rejected_and_leaves_the_record_unchanged() {
    let mut mem = MockStorage::new();
    let mut ctx = context(&mut mem, 10, "admin", vec![]);
    upsert(&mut ctx, upsert_msg("drop", denom("uatom"), &[("alice", u128::MAX - 5)])).unwrap();
    ctx.now = 20;
    let r = upsert(&mut ctx, upsert_msg("drop", denom("uatom"), &[("alice", 6)]));
    assert!(matches!(r, Err(LedgerError::Overflow)));

    let before = record(10, "drop", denom("uatom"), u128::MAX - 5);
    assert_eq!(load_record(&ctx.store, 1).unwrap(), Some(before.clone()));
    let alice = "alice".to_string();
    assert_eq!(claims_by_time(&ctx.store, &alice, None).unwrap().0, vec![before.clone()]);
    assert_eq!(claims_by_amount(&ctx.store, &alice, None).unwrap().0, vec![before]);
    // Filling the claim up to the maximum still works.
    upsert(&mut ctx, upsert_msg("drop", denom("uatom"), &[("alice", 5)])).unwrap();
    assert_eq!(load_record(&ctx.store, 1).unwrap().unwrap().amount, u128::MAX);
}

#[test]
fn overflow_keeps_the_contributions_before_it() {
    let mut mem = MockStorage::new();
    let mut ctx = context(&mut mem, 10, "admin", vec![]);
    let r = upsert(
        &mut ctx,
        upsert_msg("drop", denom("uatom"), &[("bob", 1), ("alice", u128::MAX), ("alice", 1), ("carol", 1)]),
    );
    assert!(matches!(r, Err(LedgerError::Overflow)));
    assert_eq!(load_record(&ctx.store, 1).unwrap().unwrap().amount, 1);
    assert_eq!(load_record(&ctx.store, 2).unwrap().unwrap().amount, u128::MAX);
    assert_eq!(load_record(&ctx.store, 3).unwrap(), None);
    assert!(amounts_by_amount(&ctx.store, "carol").is_empty());
}

#[test]
fn upsert_one_credits_a_single_recipient() {
    let mut mem = MockStorage::new();
    let mut store = Store::open(&mut mem);
    let name = "drop".to_string();
    let alice = "alice".to_string();
    upsert_one(&mut store, &name, &denom("uatom"), &alice, 3, 40).unwrap();
    upsert_one(&mut store, &name, &denom("uatom"), &alice, 4, 41).unwrap();
    assert_eq!(load_record(&store, 1).unwrap(), Some(record(41, "drop", denom("uatom"), 7)));
    let r = upsert_one(&mut store, &name, &denom("uatom"), &alice, u128::MAX, 42);
    assert!(matches!(r, Err(LedgerError::Overflow)));
    assert_eq!(load_record(&store, 1).unwrap(), Some(record(41, "drop", denom("uatom"), 7)));
}

#[test]
fn zero_contribution_creates_a_record_owed_nothing() {
    let mut mem = MockStorage::new();
    let mut ctx = context(&mut mem, 10, "admin", vec![]);
    upsert(&mut ctx, upsert_msg("drop", denom("uatom"), &[("alice", 0)])).unwrap();
    assert_eq!(load_record(&ctx.store, 1).unwrap(), Some(record(10, "drop", denom("uatom"), 0)));
    assert_eq!(amounts_by_amount(&ctx.store, "alice"), vec![0]);
}

#[test]
fn empty_request_writes_nothing() {
    let mut mem = MockStorage::new();
    let mut ctx = context(&mut mem, 10, "admin", vec![]);
    upsert(&mut ctx, upsert_msg("drop", denom("uatom"), &[])).unwrap();
    assert_eq!(load_record(&ctx.store, 1).unwrap(), None);
    let carol = "carol".to_string();
    let key = denom("uatom").to_key();
    assert_eq!(resolve_or_create(&mut ctx.store, &"drop".to_string(), &key, &carol).unwrap(), 1);
}

#[test]
fn key_parts_that_are_too_long_are_rejected() {
    let mut mem = MockStorage::new();
    let mut ctx = context(&mut mem, 10, "admin", vec![]);
    let long = "x".repeat(0x1_0000);
    let longest_ok = "x".repeat(0xFFFF);

    let r = upsert(&mut ctx, upsert_msg(&long, denom("uatom"), &[("alice", 1)]));
    assert!(matches!(r, Err(LedgerError::Validation)));
    let r = upsert(&mut ctx, upsert_msg("drop", denom("uatom"), &[("bob", 1), (&long, 1)]));
    assert!(matches!(r, Err(LedgerError::Validation)));
    // The token key is two bytes longer than the denomination.
    let r = upsert(&mut ctx, upsert_msg("drop", denom(&"x".repeat(0xFFFE)), &[("alice", 1)]));
    assert!(matches!(r, Err(LedgerError::Validation)));
    // Nothing was written, not even for the recipient before the long one.
    assert_eq!(load_record(&ctx.store, 1).unwrap(), None);
    assert!(amounts_by_amount(&ctx.store, "bob").is_empty());

    upsert(&mut ctx, upsert_msg(&longest_ok, denom(&"x".repeat(0xFFFD)), &[(&longest_ok, 1)]))
        .unwrap();
    assert_eq!(amounts_by_amount(&ctx.store, &longest_ok), vec![1]);
}

#[test]
fn odd_strings_come_back_as_they_went_in() {
    let mut mem = MockStorage::new();
    let mut ctx = context(&mut mem, 10, "admin", vec![]);
    let name = "a \"quoted\" \\ name\n\twith \u{0001} and \u{7f} and \u{1F600} and é";
    let who = "r\u{0000}e\"c\\ipient";
    let token = denom("de\"nom\\\u{0007}");
    upsert(&mut ctx, upsert_msg(name, token.clone(), &[(who, 3)])).unwrap();
    upsert(&mut ctx, upsert_msg(name, token.clone(), &[(who, 4)])).unwrap();
    let (claims, _) = claims_by_token(&ctx.store, &who.to_string(), None).unwrap();
    assert_eq!(claims, vec![record(10, name, token, 7)]);
}

#[test]
fn sum_amounts_adds_up_or_reports_overflow() {
    assert_eq!(sum_amounts(&vec![]), Some(0));
    assert_eq!(sum_amounts(&vec![("a".to_string(), 1), ("b".to_string(), 2)]), Some(3));
    assert_eq!(sum_amounts(&vec![("a".to_string(), u128::MAX), ("b".to_string(), 0)]), Some(u128::MAX));
    assert_eq!(sum_amounts(&vec![("a".to_string(), u128::MAX), ("b".to_string(), 1)]), None);
}

#[test]
fn native_upsert_needs_the_exact_total_attached() {
    let mut mem = MockStorage::new();
    let funds = vec![Coin { denom: "uosmo".to_string(), amount: 30 }, Coin { denom: "uatom".to_string(), amount: 30 }];
    let mut ctx = context(&mut mem, 10, "admin", funds);
    exec_upsert_native(&mut ctx, upsert_msg("drop", denom("uatom"), &[("alice", 10), ("bob", 20)]))
        .unwrap();
    assert_eq!(amounts_by_amount(&ctx.store, "alice"), vec![10]);
    assert_eq!(amounts_by_amount(&ctx.store, "bob"), vec![20]);
}

#[test]
fn native_upsert_with_other_funds_fails_and_writes_nothing() {
    let mut mem = MockStorage::new();
    let funds = vec![Coin { denom: "uatom".to_string(), amount: 29 }, Coin { denom: "uosmo".to_string(), amount: 30 }];
    let mut ctx = context(&mut mem, 10, "admin", funds);
    let msg = || upsert_msg("drop", denom("uatom"), &[("alice", 10), ("bob", 20)]);
    assert!(matches!(exec_upsert_native(&mut ctx, msg()), Err(LedgerError::InsufficientFunds)));
    ctx.funds = vec![Coin { denom: "uatom".to_string(), amount: 31 }];
    assert!(matches!(exec_upsert_native(&mut ctx, msg()), Err(LedgerError::InsufficientFunds)));
    ctx.funds = vec![];
    assert!(matches!(exec_upsert_native(&mut ctx, msg()), Err(LedgerError::InsufficientFunds)));
    // A contract token cannot be paid for by attached funds.
    ctx.funds = vec![Coin { denom: "uatom".to_string(), amount: 30 }];
    let contract = upsert_msg("drop", Token::Address("uatom".to_string()), &[("alice", 30)]);
    assert!(matches!(exec_upsert_native(&mut ctx, contract), Err(LedgerError::InsufficientFunds)));
    // A total beyond 128 bits can be matched by no funds.
    ctx.funds = vec![Coin { denom: "uatom".to_string(), amount: u128::MAX }];
    let huge = upsert_msg("drop", denom("uatom"), &[("alice", u128::MAX), ("bob", 1)]);
    assert!(matches!(exec_upsert_native(&mut ctx, huge), Err(LedgerError::InsufficientFunds)));

    assert_eq!(load_record(&ctx.store, 1).unwrap(), None);
    assert!(amounts_by_amount(&ctx.store, "alice").is_empty());
    drop(ctx);
    assert_eq!(mem.range(None, None, cosmwasm_std::Order::Ascending).count(), 0);
}

#[test]
fn pushed_upsert_needs_the_token_as_sender_and_the_exact_amount() {
    let mut mem = MockStorage::new();
    let mut ctx = context(&mut mem, 10, "cosmos1token", vec![]);
    let token = Token::Address("cosmos1token".to_string());
    exec_upsert_cw20(&mut ctx, 30, upsert_msg("drop", token, &[("alice", 10), ("bob", 20)])).unwrap();
    assert_eq!(amounts_by_amount(&ctx.store, "alice"), vec![10]);
    assert_eq!(amounts_by_amount(&ctx.store, "bob"), vec![20]);
}

#[test]
fn pushed_upsert_from_elsewhere_is_not_authorized() {
    let mut mem = MockStorage::new();
    let mut ctx = context(&mut mem, 10, "cosmos1other", vec![]);
    let token = Token::Address("cosmos1token".to_string());
    let r = exec_upsert_cw20(&mut ctx, 30, upsert_msg("drop", token, &[("alice", 30)]));
    assert!(matches!(r, Err(LedgerError::NotAuthorized)));
    // A native token is pushed by no contract, whatever the sender is called.
    ctx.sender = "uatom".to_string();
    let r = exec_upsert_cw20(&mut ctx, 30, upsert_msg("drop", denom("uatom"), &[("alice", 30)]));
    assert!(matches!(r, Err(LedgerError::NotAuthorized)));
    assert_eq!(load_record(&ctx.store, 1).unwrap(), None);
    drop(ctx);
    assert_eq!(mem.range(None, None, cosmwasm_std::Order::Ascending).count(), 0);
}

#[test]
fn pushed_upsert_with_another_amount_fails_and_writes_nothing() {
    let mut mem = MockStorage::new();
    let mut ctx = context(&mut mem, 10, "cosmos1token", vec![]);
    let token = || Token::Address("cosmos1token".to_string());
    let r = exec_upsert_cw20(&mut ctx, 29, upsert_msg("drop", token(), &[("alice", 10), ("bob", 20)]));
    assert!(matches!(r, Err(LedgerError::InsufficientFunds)));
    let r = exec_upsert_cw20(&mut ctx, 31, upsert_msg("drop", token(), &[("alice", 10), ("bob", 20)]));
    assert!(matches!(r, Err(LedgerError::InsufficientFunds)));
    let r = exec_upsert_cw20(
        &mut ctx,
        u128::MAX,
        upsert_msg("drop", token(), &[("alice", u128::MAX), ("bob", 1)]),
    );
    assert!(matches!(r, Err(LedgerError::InsufficientFunds)));
    assert_eq!(load_record(&ctx.store, 1).unwrap(), None);
    drop(ctx);
    assert_eq!(mem.range(None, None, cosmwasm_std::Order::Ascending).count(), 0);
}

#[test]
fn store_failure_is_passed_on() {
    let mut mem = MockStorage::new();
    mem.set(b"id_counter", b"not a number");
    let mut ctx = context(&mut mem, 1, "admin", vec![]);
    let r = upsert(&mut ctx, upsert_msg("drop", denom("uatom"), &[("alice", 1)]));
    assert!(matches!(r, Err(LedgerError::Store(_))));
}
