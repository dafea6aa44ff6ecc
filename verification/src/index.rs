//! The entries of the four indexes, and the changes to them that a changed
//! record calls for.

use vstd::prelude::*;
use crate::error::LedgerError;
use crate::ledger::LedgerState;
use crate::models::{ClaimRecord, ClaimRecordView};
use crate::state::{
    amount_index_remove, amount_index_save, key_part_fits, recipient_index_remove,
    recipient_index_save, record_option_view, time_index_remove, time_index_save,
    token_index_remove, token_index_save, Store,
};

verus! {

/// One entry of one of the four indexes. Each holds the recipient first, then
/// what the index sorts by, then the claim's ID.
#[derive(Debug, PartialEq, Eq)]
pub enum IndexEntry {
    ByRecipient { recipient: String, id: u64 },
    ByTime { recipient: String, updated_at: u64, id: u64 },
    ByAmount { recipient: String, amount: u128, id: u64 },
    ByToken { recipient: String, token_key: String, id: u64 },
}

/// What an [`IndexEntry`] stands for in contracts.
pub enum IndexEntryView {
    ByRecipient { recipient: Seq<char>, id: u64 },
    ByTime { recipient: Seq<char>, updated_at: u64, id: u64 },
    ByAmount { recipient: Seq<char>, amount: u128, id: u64 },
    ByToken { recipient: Seq<char>, token_key: Seq<char>, id: u64 },
}

impl View for IndexEntry {
    type V = IndexEntryView;

    open spec fn view(&self) -> IndexEntryView {
        match self {
            IndexEntry::ByRecipient { recipient, id } => IndexEntryView::ByRecipient {
                recipient: recipient@,
                id: *id,
            },
            IndexEntry::ByTime { recipient, updated_at, id } => IndexEntryView::ByTime {
                recipient: recipient@,
                updated_at: *updated_at,
                id: *id,
            },
            IndexEntry::ByAmount { recipient, amount, id } => IndexEntryView::ByAmount {
                recipient: recipient@,
                amount: *amount,
                id: *id,
            },
            IndexEntry::ByToken { recipient, token_key, id } => IndexEntryView::ByToken {
                recipient: recipient@,
                token_key: token_key@,
                id: *id,
            },
        }
    }
}

/// What a list of entries stands for in contracts.
pub open spec fn entries_view(entries: Seq<IndexEntry>) -> Seq<IndexEntryView> {
    entries.map_values(|e: IndexEntry| e@)
}

/// Whether the key parts of `entry` are short enough for the store.
pub open spec fn entry_fits(entry: IndexEntryView) -> bool {
    match entry {
        IndexEntryView::ByRecipient { recipient, .. } => key_part_fits(recipient),
        IndexEntryView::ByTime { recipient, .. } => key_part_fits(recipient),
        IndexEntryView::ByAmount { recipient, .. } => key_part_fits(recipient),
        IndexEntryView::ByToken { recipient, token_key, .. } => key_part_fits(recipient)
            && key_part_fits(token_key),
    }
}

/// Whether the key parts of all of `entries` are short enough for the store.
pub open spec fn entries_fit(entries: Seq<IndexEntryView>) -> bool {
    forall|i: int| 0 <= i < entries.len() ==> entry_fits(#[trigger] entries[i])
}

impl LedgerState {
    /// The ledger with `entry` in its index.
    pub open spec fn with_entry(self, entry: IndexEntryView) -> LedgerState {
        match entry {
            IndexEntryView::ByRecipient { recipient, id } => LedgerState {
                by_recipient: self.by_recipient.insert((recipient, id)),
                ..self
            },
            IndexEntryView::ByTime { recipient, updated_at, id } => LedgerState {
                by_time: self.by_time.insert((recipient, updated_at, id)),
                ..self
            },
            IndexEntryView::ByAmount { recipient, amount, id } => LedgerState {
                by_amount: self.by_amount.insert((recipient, amount, id)),
                ..self
            },
            IndexEntryView::ByToken { recipient, token_key, id } => LedgerState {
                by_token: self.by_token.insert((recipient, token_key, id)),
                ..self
            },
        }
    }

    /// The ledger without `entry` in its index.
    pub open spec fn without_entry(self, entry: IndexEntryView) -> LedgerState {
        match entry {
            IndexEntryView::ByRecipient { recipient, id } => LedgerState {
                by_recipient: self.by_recipient.remove((recipient, id)),
                ..self
            },
            IndexEntryView::ByTime { recipient, updated_at, id } => LedgerState {
                by_time: self.by_time.remove((recipient, updated_at, id)),
                ..self
            },
            IndexEntryView::ByAmount { recipient, amount, id } => LedgerState {
                by_amount: self.by_amount.remove((recipient, amount, id)),
                ..self
            },
            IndexEntryView::ByToken { recipient, token_key, id } => LedgerState {
                by_token: self.by_token.remove((recipient, token_key, id)),
                ..self
            },
        }
    }

    /// The ledger with `entries` in their indexes.
    pub open spec fn with_entries(self, entries: Seq<IndexEntryView>) -> LedgerState
        decreases entries.len(),
    {
        if entries.len() == 0 {
            self
        } else {
            self.with_entries(entries.drop_last()).with_entry(entries.last())
        }
    }

    /// The ledger without `entries` in their indexes.
    pub open spec fn without_entries(self, entries: Seq<IndexEntryView>) -> LedgerState
        decreases entries.len(),
    {
        if entries.len() == 0 {
            self
        } else {
            self.without_entries(entries.drop_last()).without_entry(entries.last())
        }
    }
}

/// The changes to the indexes that a changed record calls for: the entries to
/// delete, and then the entries to insert.
#[derive(Debug, PartialEq, Eq)]
pub struct IndexChanges {
    pub deletes: Vec<IndexEntry>,
    pub inserts: Vec<IndexEntry>,
}

/// The entries to delete when the record of claim `id` of `recipient` is
/// replaced: those by time and by amount of the record that was there before.
pub open spec fn stale_entries(recipient: Seq<char>, id: u64, prev: Option<ClaimRecordView>) -> Seq<
    IndexEntryView,
> {
    match prev {
        Some(p) => seq![
            IndexEntryView::ByTime { recipient, updated_at: p.updated_at, id },
            IndexEntryView::ByAmount { recipient, amount: p.amount, id },
        ],
        None => Seq::empty(),
    }
}

/// The entries to insert when `new` becomes the record of claim `id` of
/// `recipient`: one in each index.
pub open spec fn fresh_entries(
    recipient: Seq<char>,
    id: u64,
    key_of_token: Seq<char>,
    new: ClaimRecordView,
) -> Seq<IndexEntryView> {
    seq![
        IndexEntryView::ByTime { recipient, updated_at: new.updated_at, id },
        IndexEntryView::ByAmount { recipient, amount: new.amount, id },
        IndexEntryView::ByToken { recipient, token_key: key_of_token, id },
        IndexEntryView::ByRecipient { recipient, id },
    ]
}

/// The changes to the indexes that are called for when `new` replaces `prev`
/// as the record of claim `id` of `recipient`. The entries by time and by
/// amount are keyed by what the record holds, so the old ones are deleted and
/// new ones inserted; the entries by token and by recipient are inserted again,
/// which changes nothing where they stand already.
pub fn index_changes(
    recipient: &String,
    id: u64,
    token_key: &String,
    prev: &Option<ClaimRecord>,
    new: &ClaimRecord,
) -> (r: IndexChanges)
    ensures
        entries_view(r.deletes@) == stale_entries(recipient@, id, record_option_view(*prev)),
        entries_view(r.inserts@) == fresh_entries(recipient@, id, token_key@, new@),
{
    let mut deletes: Vec<IndexEntry> = Vec::new();
    match prev {
        Some(p) => {
            deletes.push(
                IndexEntry::ByTime { recipient: recipient.clone(), updated_at: p.updated_at, id },
            );
            deletes.push(IndexEntry::ByAmount { recipient: recipient.clone(), amount: p.amount, id });
        },
        None => {},
    }
    let mut inserts: Vec<IndexEntry> = Vec::new();
    inserts.push(
        IndexEntry::ByTime { recipient: recipient.clone(), updated_at: new.updated_at, id },
    );
    inserts.push(IndexEntry::ByAmount { recipient: recipient.clone(), amount: new.amount, id });
    inserts.push(
        IndexEntry::ByToken { recipient: recipient.clone(), token_key: token_key.clone(), id },
    );
    inserts.push(IndexEntry::ByRecipient { recipient: recipient.clone(), id });
    proof {
        assert(entries_view(deletes@) =~= stale_entries(
            recipient@,
            id,
            record_option_view(*prev),
        ));
        assert(entries_view(inserts@) =~= fresh_entries(recipient@, id, token_key@, new@));
    }
    IndexChanges { deletes, inserts }
}

/// Deleting the stale entries and inserting the fresh ones brings the indexes
/// in step with the new record.
pub proof fn lemma_changes_reindex(
    st: LedgerState,
    recipient: Seq<char>,
    id: u64,
    key_of_token: Seq<char>,
    prev: Option<ClaimRecordView>,
    new: ClaimRecordView,
)
    ensures
        st.without_entries(stale_entries(recipient, id, prev)).with_entries(
            fresh_entries(recipient, id, key_of_token, new),
        ) == st.reindexed(recipient, id, key_of_token, prev, new),
{
    let stale = stale_entries(recipient, id, prev);
    let fresh = fresh_entries(recipient, id, key_of_token, new);
    let cleaned = st.without_entries(stale);
    match prev {
        Some(p) => {
            assert(stale.drop_last() =~= seq![stale[0]]);
            assert(stale.drop_last().drop_last() =~= Seq::<IndexEntryView>::empty());
            assert(cleaned == st.without_entry(stale[0]).without_entry(stale[1])) by {
                reveal_with_fuel(LedgerState::without_entries, 3);
            }
        },
        None => {},
    }
    let f3 = fresh.drop_last();
    let f2 = f3.drop_last();
    let f1 = f2.drop_last();
    assert(f3 =~= seq![fresh[0], fresh[1], fresh[2]]);
    assert(f2 =~= seq![fresh[0], fresh[1]]);
    assert(f1 =~= seq![fresh[0]]);
    assert(f1.drop_last() =~= Seq::<IndexEntryView>::empty());
    assert(cleaned.with_entries(fresh) == cleaned.with_entry(fresh[0]).with_entry(
        fresh[1],
    ).with_entry(fresh[2]).with_entry(fresh[3])) by {
        reveal_with_fuel(LedgerState::with_entries, 5);
    }
    assert(cleaned.with_entries(fresh) =~= st.reindexed(recipient, id, key_of_token, prev, new));
}

/// Removes `entry` from its index. Nothing else changes.
pub fn remove_entry(s: &mut Store, entry: &IndexEntry)
    requires
        entry_fits(entry@),
    ensures
        final(s)@ == old(s)@.without_entry(entry@),
        old(s).readable() ==> final(s).readable(),
{
    match entry {
        IndexEntry::ByRecipient { recipient, id } => recipient_index_remove(
            s,
            recipient.as_str(),
            *id,
        ),
        IndexEntry::ByTime { recipient, updated_at, id } => time_index_remove(
            s,
            recipient.as_str(),
            *updated_at,
            *id,
        ),
        IndexEntry::ByAmount { recipient, amount, id } => amount_index_remove(
            s,
            recipient.as_str(),
            *amount,
            *id,
        ),
        IndexEntry::ByToken { recipient, token_key, id } => token_index_remove(
            s,
            recipient.as_str(),
            token_key.as_str(),
            *id,
        ),
    }
}

/// Writes `entry` into its index. It always succeeds, and nothing else
/// changes.
pub fn save_entry(s: &mut Store, entry: &IndexEntry) -> (r: Result<(), LedgerError>)
    requires
        entry_fits(entry@),
    ensures
        r is Ok,
        final(s)@ == old(s)@.with_entry(entry@),
        old(s).readable() ==> final(s).readable(),
{
    let saved = match entry {
        IndexEntry::ByRecipient { recipient, id } => recipient_index_save(
            s,
            recipient.as_str(),
            *id,
        ),
        IndexEntry::ByTime { recipient, updated_at, id } => time_index_save(
            s,
            recipient.as_str(),
            *updated_at,
            *id,
        ),
        IndexEntry::ByAmount { recipient, amount, id } => amount_index_save(
            s,
            recipient.as_str(),
            *amount,
            *id,
        ),
        IndexEntry::ByToken { recipient, token_key, id } => token_index_save(
            s,
            recipient.as_str(),
            token_key.as_str(),
            *id,
        ),
    };
    match saved {
        Ok(()) => Ok(()),
        Err(e) => Err(LedgerError::Store(e)),
    }
}

/// Makes `changes` to the indexes: first the deletes, then the inserts, each
/// in order. It always succeeds.
pub fn apply_index_changes(s: &mut Store, changes: &IndexChanges) -> (r: Result<(), LedgerError>)
    requires
        entries_fit(entries_view(changes.deletes@)),
        entries_fit(entries_view(changes.inserts@)),
    ensures
        r is Ok,
        final(s)@ == old(s)@.without_entries(entries_view(changes.deletes@)).with_entries(
            entries_view(changes.inserts@),
        ),
        old(s).readable() ==> final(s).readable(),
{
    let ghost deletes = entries_view(changes.deletes@);
    let ghost inserts = entries_view(changes.inserts@);
    let mut i: usize = 0;
    while i < changes.deletes.len()
        invariant
            i <= changes.deletes.len(),
            deletes == entries_view(changes.deletes@),
            entries_fit(deletes),
            s@ == old(s)@.without_entries(deletes.take(i as int)),
            old(s).readable() ==> s.readable(),
        decreases changes.deletes.len() - i,
    {
        proof {
            assert(deletes.take(i + 1).drop_last() =~= deletes.take(i as int));
            assert(entry_fits(deletes[i as int]));
        }
        remove_entry(s, &changes.deletes[i]);
        i = i + 1;
    }
    proof {
        assert(deletes.take(i as int) =~= deletes);
    }
    let ghost cleaned = s@;
    let mut j: usize = 0;
    while j < changes.inserts.len()
        invariant
            j <= changes.inserts.len(),
            inserts == entries_view(changes.inserts@),
            entries_fit(inserts),
            s@ == cleaned.with_entries(inserts.take(j as int)),
            old(s).readable() ==> s.readable(),
        decreases changes.inserts.len() - j,
    {
        proof {
            assert(inserts.take(j + 1).drop_last() =~= inserts.take(j as int));
            assert(entry_fits(inserts[j as int]));
        }
        let saved = save_entry(s, &changes.inserts[j]);
        assert(saved is Ok);
        j = j + 1;
    }
    proof {
        assert(inserts.take(j as int) =~= inserts);
    }
    Ok(())
}

} // verus!
