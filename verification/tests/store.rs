use claims_ledger::state::key_is_framed;
use claims_ledger::error::LedgerError;
use claims_ledger::execute::set_config::exec_set_config;
use claims_ledger::execute::upsert::upsert_one;
use claims_ledger::execute::Context;
use claims_ledger::models::{ClaimRecord, Config};
use claims_ledger::msg::InstantiateMsg;
use claims_ledger::query::claims::claims_by_time;
use claims_ledger::state::{fits_key_part, init, load_record, save_record, Store, MAX_KEY_PART};
use claims_ledger::token::Token;
use cosmwasm_std::testing::MockStorage;
use cosmwasm_std::{Order, Storage};

fn sample(token: Token) -> ClaimRecord {
    ClaimRecord { updated_at: 12, name: "drop".to_string(), token, amount: 34 }
}

#[test]
fn records_are_stored_under_their_id() {
    let mut mem = MockStorage::new();
    let mut store = Store::open(&mut mem);
    let native = sample(Token::Denom("uatom".to_string()));
    let contract = sample(Token::Address("uatom".to_string()));
    save_record(&mut store, 1, &native).unwrap();
    save_record(&mut store, u64::MAX, &contract).unwrap();
    assert_eq!(load_record(&store, 1).unwrap(), Some(native));
    assert_eq!(load_record(&store, u64::MAX).unwrap(), Some(contract.clone()));
    assert_eq!(load_record(&store, 2).unwrap(), None);
    save_record(&mut store, 1, &contract).unwrap();
    assert_eq!(load_record(&store, 1).unwrap(), Some(contract));
}

#[test]
fn a_record_that_cannot_be_read_is_a_store_failure() {
    let mut mem = MockStorage::new();
    let mut key = vec![0u8, 13];
    key.extend_from_slice(b"claim_records");
    key.extend_from_slice(&7u64.to_be_bytes());
    mem.set(&key, b"{}");
    let store = Store::open(&mut mem);
    assert!(matches!(load_record(&store, 7), Err(LedgerError::Store(_))));
    assert_eq!(load_record(&store, 8).unwrap(), None);
}

#[test]
fn clear_empties_the_ledger() {
    let mut mem = MockStorage::new();
    mem.set(b"unrelated", b"stays");
    let mut store = Store::open(&mut mem);
    let name = "drop".to_string();
    let alice = "alice".to_string();
    upsert_one(&mut store, &name, &Token::Denom("uatom".to_string()), &alice, 5, 1).unwrap();
    store.clear();
    assert_eq!(load_record(&store, 1).unwrap(), None);
    assert!(claims_by_time(&store, &alice, None).unwrap().0.is_empty());
    // The counter starts over.
    upsert_one(&mut store, &name, &Token::Denom("uosmo".to_string()), &alice, 5, 1).unwrap();
    assert_eq!(load_record(&store, 1).unwrap().unwrap().token, Token::Denom("uosmo".to_string()));
    store.clear();
    drop(store);
    let left: Vec<_> = mem.range(None, None, Order::Ascending).collect();
    assert_eq!(left, vec![(b"unrelated".to_vec(), b"stays".to_vec())]);
}

#[test]
fn init_and_set_config_write_nothing() {
    let mut mem = MockStorage::new();
    let mut ctx = Context {
        store: Store::open(&mut mem),
        now: 1,
        sender: "admin".to_string(),
        funds: vec![],
    };
    init(&mut ctx, InstantiateMsg {}).unwrap();
    exec_set_config(&mut ctx, Config {}).unwrap();
    assert_eq!(ctx.now, 1);
    assert_eq!(ctx.sender, "admin");
    drop(ctx);
    assert_eq!(mem.range(None, None, Order::Ascending).count(), 0);
}

#[test]
fn key_parts_fit_up_to_65535_bytes() {
    assert_eq!(MAX_KEY_PART, 65535);
    assert!(fits_key_part(&String::new()));
    assert!(fits_key_part(&"x".repeat(65535)));
    assert!(!fits_key_part(&"x".repeat(65536)));
    // Bytes count, not characters.
    assert!(fits_key_part(&"é".repeat(32767)));
    assert!(!fits_key_part(&"é".repeat(32768)));
}

#[test]
fn a_key_is_framed_when_its_length_prefix_fits() {
    assert!(!key_is_framed(&vec![]));
    assert!(!key_is_framed(&vec![0]));
    assert!(key_is_framed(&vec![0, 0]));
    assert!(!key_is_framed(&vec![0, 1]));
    assert!(key_is_framed(&vec![0, 1, 9]));
    assert!(key_is_framed(&vec![0, 8, 1, 2, 3, 4, 5, 6, 7, 8, 1, 2, 3, 4, 5, 6, 7, 8]));
    assert!(!key_is_framed(&vec![1, 0, 1, 2, 3]));
    let mut long = vec![1u8, 0];
    long.extend_from_slice(&[7u8; 256]);
    assert!(key_is_framed(&long));
    long.pop();
    assert!(!key_is_framed(&long));
}
