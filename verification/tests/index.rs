use claims_ledger::index::{
    apply_index_changes, index_changes, remove_entry, save_entry, IndexChanges, IndexEntry,
};
use claims_ledger::models::ClaimRecord;
use claims_ledger::query::claims::{claims_by_amount, claims_by_time, claims_by_token};
use claims_ledger::state::{save_record, Store};
use claims_ledger::token::Token;
use cosmwasm_std::testing::MockStorage;

fn record(updated_at: u64, amount: u128) -> ClaimRecord {
    ClaimRecord {
        updated_at,
        name: "drop".to_string(),
        token: Token::Denom("uatom".to_string()),
        amount,
    }
}

fn by_time(updated_at: u64) -> IndexEntry {
    IndexEntry::ByTime { recipient: "alice".to_string(), updated_at, id: 3 }
}

fn by_amount(amount: u128) -> IndexEntry {
    IndexEntry::ByAmount { recipient: "alice".to_string(), amount, id: 3 }
}

#[test]
fn a_new_record_calls_for_four_inserts_and_no_delete() {
    let changes = index_changes(
        &"alice".to_string(),
        3,
        &"d:uatom".to_string(),
        &None,
        &record(50, 7),
    );
    assert_eq!(changes.deletes, vec![]);
    assert_eq!(
        changes.inserts,
        vec![
            by_time(50),
            by_amount(7),
            IndexEntry::ByToken {
                recipient: "alice".to_string(),
                token_key: "d:uatom".to_string(),
                id: 3,
            },
            IndexEntry::ByRecipient { recipient: "alice".to_string(), id: 3 },
        ]
    );
}

#[test]
fn a_merged_record_calls_for_the_old_sorted_entries_to_go() {
    let changes = index_changes(
        &"alice".to_string(),
        3,
        &"d:uatom".to_string(),
        &Some(record(50, 7)),
        &record(60, 9),
    );
    assert_eq!(changes.deletes, vec![by_time(50), by_amount(7)]);
    assert_eq!(changes.inserts.len(), 4);
    assert_eq!(changes.inserts[0], by_time(60));
    assert_eq!(changes.inserts[1], by_amount(9));
}

#[test]
fn an_unchanged_sort_value_is_deleted_and_inserted_again() {
    let changes = index_changes(
        &"alice".to_string(),
        3,
        &"d:uatom".to_string(),
        &Some(record(50, 7)),
        &record(50, 7),
    );
    assert_eq!(changes.deletes, vec![by_time(50), by_amount(7)]);
    assert_eq!(changes.inserts[0], by_time(50));
    assert_eq!(changes.inserts[1], by_amount(7));
    let mut mem = MockStorage::new();
    let mut store = Store::open(&mut mem);
    save_record(&mut store, 3, &record(50, 7)).unwrap();
    apply_index_changes(&mut store, &changes).unwrap();
    apply_index_changes(&mut store, &changes).unwrap();
    let alice = "alice".to_string();
    assert_eq!(claims_by_time(&store, &alice, None).unwrap().0, vec![record(50, 7)]);
    assert_eq!(claims_by_amount(&store, &alice, None).unwrap().0, vec![record(50, 7)]);
    assert_eq!(claims_by_token(&store, &alice, None).unwrap().0, vec![record(50, 7)]);
}

#[test]
fn entries_are_saved_and_removed_one_by_one() {
    let mut mem = MockStorage::new();
    let mut store = Store::open(&mut mem);
    save_record(&mut store, 3, &record(50, 7)).unwrap();
    let alice = "alice".to_string();
    save_entry(&mut store, &by_time(50)).unwrap();
    save_entry(&mut store, &by_time(40)).unwrap();
    save_entry(&mut store, &by_time(40)).unwrap();
    assert_eq!(claims_by_time(&store, &alice, None).unwrap().0.len(), 2);
    assert!(claims_by_amount(&store, &alice, None).unwrap().0.is_empty());
    remove_entry(&mut store, &by_time(40));
    remove_entry(&mut store, &by_time(41));
    remove_entry(&mut store, &by_amount(40));
    assert_eq!(claims_by_time(&store, &alice, None).unwrap().0.len(), 1);
    remove_entry(&mut store, &by_time(50));
    assert!(claims_by_time(&store, &alice, None).unwrap().0.is_empty());
}

#[test]
fn changes_are_made_deletes_first() {
    let mut mem = MockStorage::new();
    let mut store = Store::open(&mut mem);
    save_record(&mut store, 3, &record(50, 7)).unwrap();
    let changes = IndexChanges {
        deletes: vec![by_amount(7), by_amount(8)],
        inserts: vec![by_amount(8), by_amount(9)],
    };
    apply_index_changes(&mut store, &changes).unwrap();
    let (claims, _) = claims_by_amount(&store, &"alice".to_string(), None).unwrap();
    assert_eq!(claims.len(), 2);
    let none = IndexChanges { deletes: vec![], inserts: vec![] };
    apply_index_changes(&mut store, &none).unwrap();
    let (claims, _) = claims_by_amount(&store, &"alice".to_string(), None).unwrap();
    assert_eq!(claims.len(), 2);
}
