//! The ledger as a mathematical state, and what each operation makes of it.

use vstd::prelude::*;
use crate::models::ClaimRecordView;
use crate::msg::OrderKey;
use crate::token::{token_key, TokenView};

verus! {

/// The key that gives a claim its identity: batch name, token key, recipient.
pub type IdentityKey = (Seq<char>, Seq<char>, Seq<char>);

/// Everything a ledger holds.
#[verifier::ext_equal]
pub struct LedgerState {
    /// The ID allocated last; none before the first allocation.
    pub counter: Option<u64>,
    /// The ID of each identity key that ever received a contribution.
    pub ids: Map<IdentityKey, u64>,
    /// The live claims, by ID.
    pub records: Map<u64, ClaimRecordView>,
    /// Index entries `(recipient, id)`.
    pub by_recipient: Set<(Seq<char>, u64)>,
    /// Index entries `(recipient, updated_at, id)`.
    pub by_time: Set<(Seq<char>, u64, u64)>,
    /// Index entries `(recipient, amount, id)`.
    pub by_amount: Set<(Seq<char>, u128, u64)>,
    /// Index entries `(recipient, token key, id)`.
    pub by_token: Set<(Seq<char>, Seq<char>, u64)>,
    /// The stray keys of the sorted indexes: index, recipient, raw key.
    pub stray: Set<(OrderKey, Seq<char>, Seq<u8>)>,
}

impl LedgerState {
    /// The ledger that holds nothing.
    pub open spec fn empty() -> LedgerState {
        LedgerState {
            counter: None,
            ids: Map::empty(),
            records: Map::empty(),
            by_recipient: Set::empty(),
            by_time: Set::empty(),
            by_amount: Set::empty(),
            by_token: Set::empty(),
            stray: Set::empty(),
        }
    }

    /// The ID allocated last, zero before the first allocation.
    pub open spec fn last_id(self) -> u64 {
        match self.counter {
            Some(n) => n,
            None => 0,
        }
    }

    /// The live claim with the given ID, if there is one.
    pub open spec fn record_at(self, id: u64) -> Option<ClaimRecordView> {
        if self.records.dom().contains(id) {
            Some(self.records[id])
        } else {
            None
        }
    }

    /// Whether an ID can be had for `key`: it has one, or the counter can still
    /// be raised.
    pub open spec fn can_resolve(self, key: IdentityKey) -> bool {
        self.ids.dom().contains(key) || self.last_id() < u64::MAX
    }

    /// The ID of `key`: the one it has, or else the next one of the counter.
    pub open spec fn resolved_id(self, key: IdentityKey) -> u64 {
        if self.ids.dom().contains(key) {
            self.ids[key]
        } else {
            (self.last_id() + 1) as u64
        }
    }

    /// The ledger after an ID was resolved for `key`: unchanged where the key
    /// has an ID or none can be allocated, else with the counter raised and the
    /// key bound to the new ID.
    pub open spec fn resolved(self, key: IdentityKey) -> LedgerState {
        if self.ids.dom().contains(key) || self.last_id() == u64::MAX {
            self
        } else {
            LedgerState {
                counter: Some(self.resolved_id(key)),
                ids: self.ids.insert(key, self.resolved_id(key)),
                ..self
            }
        }
    }

    /// The record that a contribution of `amount` at time `now` leaves: the
    /// previous one with the amount added and the time refreshed, or a fresh
    /// one; none where the sum leaves 128 bits.
    pub open spec fn merged(
        prev: Option<ClaimRecordView>,
        name: Seq<char>,
        token: TokenView,
        amount: u128,
        now: u64,
    ) -> Option<ClaimRecordView> {
        match prev {
            Some(p) => if p.amount + amount > u128::MAX {
                None
            } else {
                Some(ClaimRecordView { updated_at: now, amount: (p.amount + amount) as u128, ..p })
            },
            None => Some(ClaimRecordView { updated_at: now, name, token, amount }),
        }
    }

    /// The ledger with the index entries of claim `id` of `recipient` brought in
    /// step with the record `new`, which replaced `prev`: the entries by time
    /// and by amount of `prev` leave, those of `new` enter, and the entries by
    /// token and by recipient are written.
    pub open spec fn reindexed(
        self,
        recipient: Seq<char>,
        id: u64,
        key_of_token: Seq<char>,
        prev: Option<ClaimRecordView>,
        new: ClaimRecordView,
    ) -> LedgerState {
        let by_time = match prev {
            Some(p) => self.by_time.remove((recipient, p.updated_at, id)),
            None => self.by_time,
        };
        let by_amount = match prev {
            Some(p) => self.by_amount.remove((recipient, p.amount, id)),
            None => self.by_amount,
        };
        LedgerState {
            by_time: by_time.insert((recipient, new.updated_at, id)),
            by_amount: by_amount.insert((recipient, new.amount, id)),
            by_token: self.by_token.insert((recipient, key_of_token, id)),
            by_recipient: self.by_recipient.insert((recipient, id)),
            ..self
        }
    }

    /// The ledger after `recipient` was credited `amount` of `token` under the
    /// batch `name` at time `now`; none where the counter or the owed amount
    /// would overflow.
    pub open spec fn upserted(
        self,
        name: Seq<char>,
        token: TokenView,
        recipient: Seq<char>,
        amount: u128,
        now: u64,
    ) -> Option<LedgerState> {
        let key = (name, token_key(token), recipient);
        let id = self.resolved_id(key);
        let st = self.resolved(key);
        if !self.can_resolve(key) {
            None
        } else {
            match Self::merged(st.record_at(id), name, token, amount, now) {
                None => None,
                Some(new) => Some(
                    (LedgerState { records: st.records.insert(id, new), ..st }).reindexed(
                        recipient,
                        id,
                        token_key(token),
                        st.record_at(id),
                        new,
                    ),
                ),
            }
        }
    }

    /// Whether the identity key of a contribution has a live claim whose owed
    /// amount the contribution would push past 128 bits.
    pub open spec fn overflows(
        self,
        name: Seq<char>,
        token: TokenView,
        recipient: Seq<char>,
        amount: u128,
    ) -> bool {
        let key = (name, token_key(token), recipient);
        &&& self.ids.dom().contains(key)
        &&& self.records.dom().contains(self.ids[key])
        &&& self.records[self.ids[key]].amount + amount > u128::MAX
    }

    /// The ledger after the contributions `amounts` were applied in order, and
    /// whether all of them were: at the first one that overflows the run stops,
    /// with the ledger as that contribution's ID resolution left it.
    pub open spec fn upserted_all(
        self,
        name: Seq<char>,
        token: TokenView,
        amounts: Seq<(Seq<char>, u128)>,
        now: u64,
    ) -> (LedgerState, bool)
        decreases amounts.len(),
    {
        if amounts.len() == 0 {
            (self, true)
        } else {
            let (st, done) = self.upserted_all(name, token, amounts.drop_last(), now);
            let (recipient, amount) = amounts.last();
            if !done {
                (st, false)
            } else {
                match st.upserted(name, token, recipient, amount, now) {
                    Some(next) => (next, true),
                    None => (st.resolved((name, token_key(token), recipient)), false),
                }
            }
        }
    }

    /// Whether claim `id` is owed to `recipient`, as the index by recipient
    /// has it.
    pub open spec fn is_owed(self, recipient: Seq<char>, id: u64) -> bool {
        self.by_recipient.contains((recipient, id))
    }

    /// The record that `recipient` takes out when withdrawing claim `id`: that
    /// of the claim where it is live and owed to `recipient`, else none.
    pub open spec fn taken(self, recipient: Seq<char>, id: u64) -> Option<ClaimRecordView> {
        if self.records.dom().contains(id) && self.is_owed(recipient, id) {
            Some(self.records[id])
        } else {
            None
        }
    }

    /// The ledger after `recipient` asked to withdraw claim `id`. A live claim
    /// that is not owed to `recipient` stays, and so does the ledger. In any
    /// other case the record, if there is one, is gone, and none of the four
    /// indexes holds an entry of `recipient` for the ID any more.
    pub open spec fn removed(self, recipient: Seq<char>, id: u64) -> LedgerState {
        if self.records.dom().contains(id) && !self.is_owed(recipient, id) {
            self
        } else {
            LedgerState {
                records: self.records.remove(id),
                by_recipient: self.by_recipient.remove((recipient, id)),
                by_time: Set::new(
                    |e: (Seq<char>, u64, u64)|
                        self.by_time.contains(e) && !(e.0 == recipient && e.2 == id),
                ),
                by_amount: Set::new(
                    |e: (Seq<char>, u128, u64)|
                        self.by_amount.contains(e) && !(e.0 == recipient && e.2 == id),
                ),
                by_token: Set::new(
                    |e: (Seq<char>, Seq<char>, u64)|
                        self.by_token.contains(e) && !(e.0 == recipient && e.2 == id),
                ),
                ..self
            }
        }
    }

    /// The ledger after the claims `ids` were withdrawn by `recipient`, in order.
    pub open spec fn removed_all(self, recipient: Seq<char>, ids: Seq<u64>) -> LedgerState
        decreases ids.len(),
    {
        if ids.len() == 0 {
            self
        } else {
            self.removed_all(recipient, ids.drop_last()).removed(recipient, ids.last())
        }
    }

    /// The records that withdrawing the claims `ids` in order takes out: one for
    /// each ID that is live and owed to `recipient` when its turn comes.
    pub open spec fn withdrawn(self, recipient: Seq<char>, ids: Seq<u64>) -> Seq<ClaimRecordView>
        decreases ids.len(),
    {
        if ids.len() == 0 {
            Seq::empty()
        } else {
            let before = self.removed_all(recipient, ids.drop_last());
            let taken = self.withdrawn(recipient, ids.drop_last());
            match before.taken(recipient, ids.last()) {
                Some(rec) => taken.push(rec),
                None => taken,
            }
        }
    }
}


/// Crediting one identity key twice, with `a` and then with `b`, leaves one
/// claim that is owed `a + b` more than before, under one ID for both
/// contributions: the second allocates no ID and adds no record.
pub proof fn law_merge_keeps_identity(
    st: LedgerState,
    name: Seq<char>,
    token: TokenView,
    recipient: Seq<char>,
    a: u128,
    b: u128,
    first: u64,
    second: u64,
)
    requires
        st.upserted(name, token, recipient, a, first) is Some,
        st.upserted(name, token, recipient, a, first)->0.upserted(
            name,
            token,
            recipient,
            b,
            second,
        ) is Some,
    ensures
        ({
            let key = (name, token_key(token), recipient);
            let id = st.resolved_id(key);
            let once = st.upserted(name, token, recipient, a, first)->0;
            let twice = once.upserted(name, token, recipient, b, second)->0;
            let owed_before: int = match st.record_at(id) {
                Some(rec) => rec.amount as int,
                None => 0,
            };
            &&& once.ids.dom().contains(key) && once.ids[key] == id
            &&& twice.ids == once.ids
            &&& twice.counter == once.counter
            &&& twice.records.dom() == st.records.dom().insert(id)
            &&& twice.records[id].amount == owed_before + a + b
            &&& twice.records[id].updated_at == second
        }),
{
    let key = (name, token_key(token), recipient);
    let id = st.resolved_id(key);
    let once = st.upserted(name, token, recipient, a, first)->0;
    assert(once.ids == st.resolved(key).ids);
    assert(once.resolved(key) == once);
    assert(once.resolved_id(key) == id);
    let twice = once.upserted(name, token, recipient, b, second)->0;
    assert(twice.records.dom() =~= st.records.dom().insert(id));
}

/// A contribution that would push the owed amount of a live claim past 128
/// bits is not applied, and resolving its ID changes nothing.
pub proof fn law_overflow_is_rejected(
    st: LedgerState,
    name: Seq<char>,
    token: TokenView,
    recipient: Seq<char>,
    amount: u128,
    now: u64,
)
    requires
        st.overflows(name, token, recipient, amount),
    ensures
        st.upserted(name, token, recipient, amount, now) is None,
        st.resolved((name, token_key(token), recipient)) == st,
{
}


impl LedgerState {
    /// Whether `after` keeps what `self` holds of records and IDs: no record
    /// is gone, and every identity key has the ID that it had.
    pub open spec fn is_kept_by(self, after: LedgerState) -> bool {
        &&& self.records.dom().subset_of(after.records.dom())
        &&& forall|k: IdentityKey| #[trigger]
            self.ids.dom().contains(k) ==> after.ids.dom().contains(k) && after.ids[k]
                == self.ids[k]
    }

    /// Whether claim `id` is in `after` as it is in `self`: the same record,
    /// or none, and the same entries in the four indexes.
    pub open spec fn has_same_claim(self, after: LedgerState, id: u64) -> bool {
        &&& self.record_at(id) == after.record_at(id)
        &&& forall|r: Seq<char>|
            self.by_recipient.contains((r, id)) == #[trigger] after.by_recipient.contains((r, id))
        &&& forall|r: Seq<char>, t: u64|
            self.by_time.contains((r, t, id)) == #[trigger] after.by_time.contains((r, t, id))
        &&& forall|r: Seq<char>, a: u128|
            self.by_amount.contains((r, a, id)) == #[trigger] after.by_amount.contains((r, a, id))
        &&& forall|r: Seq<char>, k: Seq<char>|
            self.by_token.contains((r, k, id)) == #[trigger] after.by_token.contains((r, k, id))
    }

    /// Whether `id` is the ID of none of the identity keys that the
    /// contributions `amounts` under `name` and `token` go to.
    pub open spec fn is_untouched(
        self,
        name: Seq<char>,
        token: TokenView,
        amounts: Seq<(Seq<char>, u128)>,
        id: u64,
    ) -> bool {
        forall|i: int|
            0 <= i < amounts.len() ==> !(self.ids.dom().contains(
                (name, token_key(token), (#[trigger] amounts[i]).0),
            ) && self.ids[(name, token_key(token), amounts[i].0)] == id)
    }

    /// Whether every identity key that the contributions `amounts` go to has
    /// an ID and a live claim.
    pub open spec fn all_live(
        self,
        name: Seq<char>,
        token: TokenView,
        amounts: Seq<(Seq<char>, u128)>,
    ) -> bool {
        forall|i: int|
            0 <= i < amounts.len() ==> self.has_live_claim(
                (name, token_key(token), (#[trigger] amounts[i]).0),
            )
    }

    /// Whether `key` has an ID and a live claim.
    pub open spec fn has_live_claim(self, key: IdentityKey) -> bool {
        self.ids.dom().contains(key) && self.records.dom().contains(self.ids[key])
    }
}

/// A contribution, applied or stopped short, deletes no record, keeps every
/// ID, and leaves every claim but its own as it is.
pub proof fn law_upsert_frame(
    st: LedgerState,
    name: Seq<char>,
    token: TokenView,
    recipient: Seq<char>,
    amount: u128,
    now: u64,
)
    ensures
        st.is_kept_by(st.resolved((name, token_key(token), recipient))),
        forall|id: u64| #[trigger]
            st.has_same_claim(st.resolved((name, token_key(token), recipient)), id),
        st.upserted(name, token, recipient, amount, now) matches Some(after) ==> st.is_kept_by(after)
            && after.ids.dom().contains((name, token_key(token), recipient)) && forall|id: u64|
            id != after.ids[(name, token_key(token), recipient)] ==> #[trigger] st.has_same_claim(
                after,
                id,
            ),
{
}

/// A run of contributions, wherever it ends, deletes no record, keeps every
/// ID, and leaves as it is every claim that is not the claim of one of its
/// identity keys.
pub proof fn law_request_frame(
    st: LedgerState,
    name: Seq<char>,
    token: TokenView,
    amounts: Seq<(Seq<char>, u128)>,
    now: u64,
)
    ensures
        st.is_kept_by(st.upserted_all(name, token, amounts, now).0),
        forall|id: u64|
            st.upserted_all(name, token, amounts, now).0.is_untouched(name, token, amounts, id)
                ==> #[trigger] st.has_same_claim(
                st.upserted_all(name, token, amounts, now).0,
                id,
            ),
    decreases amounts.len(),
{
    let after = st.upserted_all(name, token, amounts, now).0;
    if amounts.len() == 0 {
        assert forall|id: u64| #[trigger] st.has_same_claim(after, id) by {}
    } else {
        let front = amounts.drop_last();
        let (reached, done) = st.upserted_all(name, token, front, now);
        let (recipient, amount) = amounts.last();
        let key = (name, token_key(token), recipient);
        law_request_frame(st, name, token, front, now);
        law_upsert_frame(reached, name, token, recipient, amount, now);
        assert(reached.is_kept_by(after));
        assert(st.is_kept_by(after)) by {
            assert forall|k: IdentityKey| #[trigger] st.ids.dom().contains(k) implies after.ids.dom().contains(
                k,
            ) && after.ids[k] == st.ids[k] by {
                assert(reached.ids.dom().contains(k));
            }
        }
        assert forall|id: u64| after.is_untouched(name, token, amounts, id) implies #[trigger] st.has_same_claim(
            after,
            id,
        ) by {
            assert forall|i: int| 0 <= i < front.len() implies !(reached.ids.dom().contains(
                (name, token_key(token), (#[trigger] front[i]).0),
            ) && reached.ids[(name, token_key(token), front[i].0)] == id) by {
                assert(front[i] == amounts[i]);
                let k = (name, token_key(token), amounts[i].0);
                if reached.ids.dom().contains(k) {
                    assert(after.ids.dom().contains(k) && after.ids[k] == reached.ids[k]);
                }
            }
            assert(st.has_same_claim(reached, id));
            assert(reached.has_same_claim(after, id)) by {
                if done && reached.upserted(name, token, recipient, amount, now) is Some {
                    assert(amounts[amounts.len() - 1].0 == recipient);
                    assert(after.ids.dom().contains(key));
                    assert(after.ids[key] != id);
                }
            }
        }
    }
}

/// A run of contributions that was stopped at the `k`-th of them, before or
/// after the resolution of its ID, deletes no record, keeps every ID, and
/// leaves as it is every claim that is not the claim of one of its identity
/// keys.
pub proof fn law_stopped_request_frame(
    st: LedgerState,
    name: Seq<char>,
    token: TokenView,
    amounts: Seq<(Seq<char>, u128)>,
    now: u64,
    k: int,
    after: LedgerState,
)
    requires
        0 <= k < amounts.len(),
        after == st.upserted_all(name, token, amounts.take(k), now).0 || after == st.upserted_all(
            name,
            token,
            amounts.take(k),
            now,
        ).0.resolved((name, token_key(token), amounts[k].0)),
    ensures
        st.is_kept_by(after),
        forall|id: u64|
            after.is_untouched(name, token, amounts, id) ==> #[trigger] st.has_same_claim(after, id),
{
    let front = amounts.take(k);
    let reached = st.upserted_all(name, token, front, now).0;
    law_request_frame(st, name, token, front, now);
    law_upsert_frame(reached, name, token, amounts[k].0, amounts[k].1, now);
    assert(reached.is_kept_by(after));
    assert(st.is_kept_by(after)) by {
        assert forall|key: IdentityKey| #[trigger] st.ids.dom().contains(key) implies after.ids.dom().contains(
            key,
        ) && after.ids[key] == st.ids[key] by {
            assert(reached.ids.dom().contains(key));
        }
    }
    assert forall|id: u64| after.is_untouched(name, token, amounts, id) implies #[trigger] st.has_same_claim(
        after,
        id,
    ) by {
        assert forall|i: int| 0 <= i < front.len() implies !(reached.ids.dom().contains(
            (name, token_key(token), (#[trigger] front[i]).0),
        ) && reached.ids[(name, token_key(token), front[i].0)] == id) by {
            assert(front[i] == amounts[i]);
            let key = (name, token_key(token), amounts[i].0);
            if reached.ids.dom().contains(key) {
                assert(after.ids.dom().contains(key) && after.ids[key] == reached.ids[key]);
            }
        }
        assert(st.has_same_claim(reached, id));
        assert(reached.has_same_claim(after, id));
    }
}

/// Where every identity key of a run of contributions has a live claim, it
/// still has one wherever the run has got to.
pub proof fn lemma_claims_stay_live(
    st: LedgerState,
    after: LedgerState,
    name: Seq<char>,
    token: TokenView,
    amounts: Seq<(Seq<char>, u128)>,
)
    requires
        st.all_live(name, token, amounts),
        st.is_kept_by(after),
    ensures
        after.all_live(name, token, amounts),
{
    assert forall|i: int| 0 <= i < amounts.len() implies after.has_live_claim(
        (name, token_key(token), (#[trigger] amounts[i]).0),
    ) by {
        let key = (name, token_key(token), amounts[i].0);
        assert(st.has_live_claim(key));
        assert(st.ids.dom().contains(key));
        assert(st.records.dom().contains(st.ids[key]));
    }
}

} // verus!
