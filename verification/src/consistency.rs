//! What it means for the indexes to be in step with the records, and why the
//! ledger's operations keep them so.

use vstd::prelude::*;
use crate::ledger::{IdentityKey, LedgerState};
use crate::models::ClaimRecordView;
use crate::paging::{
    ids_ascending, is_page, lemma_ids_ascending_is_order, lemma_page_has_no_duplicates,
    recipient_ids,
};
use crate::token::{token_key, TokenView};

verus! {

impl LedgerState {
    /// The identity key under which `recipient` would hold the live claim `id`.
    pub open spec fn owner_key(self, id: u64, recipient: Seq<char>) -> IdentityKey {
        (self.records[id].name, token_key(self.records[id].token), recipient)
    }

    /// Whether claim `id` is live and `recipient` is the one it is owed to.
    pub open spec fn owns(self, recipient: Seq<char>, id: u64) -> bool {
        &&& self.records.dom().contains(id)
        &&& self.ids.dom().contains(self.owner_key(id, recipient))
        &&& self.ids[self.owner_key(id, recipient)] == id
    }

    /// Whether the IDs in use are those that the counter has given out, one
    /// for each identity key.
    pub open spec fn ids_sound(self) -> bool {
        &&& forall|k: IdentityKey|
            self.ids.dom().contains(k) ==> 1 <= #[trigger] self.ids[k] <= self.last_id()
        &&& forall|k1: IdentityKey, k2: IdentityKey|
            self.ids.dom().contains(k1) && self.ids.dom().contains(k2) && #[trigger] self.ids[k1]
                == #[trigger] self.ids[k2] ==> k1 == k2
    }

    /// Whether the four indexes hold exactly one entry for each live claim,
    /// under the recipient it is owed to and with the record's present time,
    /// amount and token key, and no entry besides.
    pub open spec fn indexes_in_step(self) -> bool {
        &&& forall|r: Seq<char>, id: u64| #[trigger]
            self.by_recipient.contains((r, id)) <==> self.owns(r, id)
        &&& forall|r: Seq<char>, t: u64, id: u64| #[trigger]
            self.by_time.contains((r, t, id)) <==> self.owns(r, id) && self.records[id].updated_at
                == t
        &&& forall|r: Seq<char>, a: u128, id: u64| #[trigger]
            self.by_amount.contains((r, a, id)) <==> self.owns(r, id) && self.records[id].amount
                == a
        &&& forall|r: Seq<char>, k: Seq<char>, id: u64| #[trigger]
            self.by_token.contains((r, k, id)) <==> self.owns(r, id) && token_key(
                self.records[id].token,
            ) == k
    }

    /// Whether the ledger is consistent: its IDs are sound, every live claim
    /// is owed to someone, and the indexes are in step with the records.
    pub open spec fn consistent(self) -> bool {
        &&& self.ids_sound()
        &&& forall|id: u64| #[trigger]
            self.records.dom().contains(id) ==> exists|r: Seq<char>| self.owns(r, id)
        &&& self.indexes_in_step()
    }
}

/// The empty ledger is consistent.
pub proof fn law_empty_is_consistent()
    ensures
        LedgerState::empty().consistent(),
{
}

/// In a consistent ledger a live claim is owed to one recipient only.
pub proof fn lemma_one_owner(st: LedgerState, r1: Seq<char>, r2: Seq<char>, id: u64)
    requires
        st.ids_sound(),
        st.owns(r1, id),
        st.owns(r2, id),
    ensures
        r1 == r2,
{
    let k1 = st.owner_key(id, r1);
    let k2 = st.owner_key(id, r2);
    assert(st.ids[k1] == st.ids[k2]);
}

/// Resolving an ID keeps a consistent ledger consistent, and a newly allocated
/// ID names no live claim.
pub proof fn lemma_resolved_consistent(st: LedgerState, key: IdentityKey)
    requires
        st.consistent(),
        st.can_resolve(key),
    ensures
        st.resolved(key).consistent(),
        st.resolved(key).ids.dom().contains(key),
        st.resolved(key).ids[key] == st.resolved_id(key),
        !st.ids.dom().contains(key) ==> !st.records.dom().contains(st.resolved_id(key)),
{
    let after = st.resolved(key);
    let id = st.resolved_id(key);
    if !st.ids.dom().contains(key) {
        assert forall|i: u64| st.records.dom().contains(i) implies i <= st.last_id() by {
            let r = choose|r: Seq<char>| st.owns(r, i);
            assert(st.ids[st.owner_key(i, r)] == i);
        }
        assert forall|r: Seq<char>, i: u64| after.owns(r, i) <==> st.owns(r, i) by {
            if st.records.dom().contains(i) {
                assert(after.owner_key(i, r) == st.owner_key(i, r));
                if st.owner_key(i, r) == key {
                    assert(after.ids[key] == id);
                }
            }
        }
        assert(after.ids_sound()) by {
            assert forall|k: IdentityKey| after.ids.dom().contains(k) implies 1
                <= #[trigger] after.ids[k] <= after.last_id() by {
                if k != key {
                    assert(st.ids[k] <= st.last_id());
                }
            }
            assert forall|k1: IdentityKey, k2: IdentityKey|
                after.ids.dom().contains(k1) && after.ids.dom().contains(k2)
                    && #[trigger] after.ids[k1] == #[trigger] after.ids[k2] implies k1 == k2 by {
                if k1 != key {
                    assert(st.ids[k1] <= st.last_id());
                }
                if k2 != key {
                    assert(st.ids[k2] <= st.last_id());
                }
            }
        }
        assert forall|i: u64| #[trigger] after.records.dom().contains(i) implies exists|
            r: Seq<char>,
        | after.owns(r, i) by {
            let r = choose|r: Seq<char>| st.owns(r, i);
            assert(after.owns(r, i));
        }
        assert(after.indexes_in_step()) by {
            assert forall|r: Seq<char>, i: u64| #[trigger]
                after.by_recipient.contains((r, i)) <==> after.owns(r, i) by {
                assert(st.by_recipient.contains((r, i)) <==> st.owns(r, i));
            }
            assert forall|r: Seq<char>, t: u64, i: u64| #[trigger]
                after.by_time.contains((r, t, i)) <==> after.owns(r, i)
                    && after.records[i].updated_at == t by {
                assert(st.by_time.contains((r, t, i)) <==> st.owns(r, i) && st.records[i].updated_at
                    == t);
            }
            assert forall|r: Seq<char>, a: u128, i: u64| #[trigger]
                after.by_amount.contains((r, a, i)) <==> after.owns(r, i) && after.records[i].amount
                    == a by {
                assert(st.by_amount.contains((r, a, i)) <==> st.owns(r, i) && st.records[i].amount
                    == a);
            }
            assert forall|r: Seq<char>, k: Seq<char>, i: u64| #[trigger]
                after.by_token.contains((r, k, i)) <==> after.owns(r, i) && token_key(
                    after.records[i].token,
                ) == k by {
                assert(st.by_token.contains((r, k, i)) <==> st.owns(r, i) && token_key(
                    st.records[i].token,
                ) == k);
            }
        }
    }
}


/// Crediting a recipient keeps a consistent ledger consistent: afterwards the
/// claim's entries by time and by amount carry the record's new time and
/// amount, and none carries the old ones.
pub proof fn law_upsert_keeps_consistency(
    st: LedgerState,
    name: Seq<char>,
    token: TokenView,
    recipient: Seq<char>,
    amount: u128,
    now: u64,
)
    requires
        st.consistent(),
        st.upserted(name, token, recipient, amount, now) is Some,
    ensures
        st.upserted(name, token, recipient, amount, now)->0.consistent(),
        st.upserted(name, token, recipient, amount, now)->0.owns(
            recipient,
            st.resolved_id((name, token_key(token), recipient)),
        ),
{
    let key = (name, token_key(token), recipient);
    let id = st.resolved_id(key);
    let mid = st.resolved(key);
    let prev = mid.record_at(id);
    let new = LedgerState::merged(prev, name, token, amount, now)->0;
    let after = st.upserted(name, token, recipient, amount, now)->0;
    lemma_resolved_consistent(st, key);
    assert(after.ids == mid.ids);
    assert(after.records == mid.records.insert(id, new));
    // The record keeps the name and the token key of its identity key.
    assert(new.name == name && token_key(new.token) == token_key(token)) by {
        if prev is Some {
            let r0 = choose|r: Seq<char>| mid.owns(r, id);
            assert(mid.ids[mid.owner_key(id, r0)] == mid.ids[key]);
        }
    }
    assert(after.owner_key(id, recipient) == key);
    assert forall|r: Seq<char>| after.owns(r, id) <==> r == recipient by {
        if after.owns(r, id) {
            assert(after.ids[after.owner_key(id, r)] == after.ids[key]);
        }
    }
    assert forall|r: Seq<char>| prev is Some implies (mid.owns(r, id) <==> r == recipient) by {
        assert(mid.owner_key(id, recipient) == key);
        if mid.owns(r, id) {
            assert(mid.ids[mid.owner_key(id, r)] == mid.ids[key]);
        }
    }
    assert forall|r: Seq<char>, i: u64| i != id implies (after.owns(r, i) <==> mid.owns(r, i)) by {
        if mid.records.dom().contains(i) {
            assert(after.owner_key(i, r) == mid.owner_key(i, r));
        }
    }
    assert(after.ids_sound());
    assert forall|i: u64| #[trigger] after.records.dom().contains(i) implies exists|r: Seq<char>|
        after.owns(r, i) by {
        if i == id {
            assert(after.owns(recipient, i));
        } else {
            let r = choose|r: Seq<char>| mid.owns(r, i);
            assert(after.owns(r, i));
        }
    }
    assert(after.indexes_in_step()) by {
        assert forall|r: Seq<char>, i: u64| #[trigger]
            after.by_recipient.contains((r, i)) <==> after.owns(r, i) by {
            assert(mid.by_recipient.contains((r, i)) <==> mid.owns(r, i));
        }
        assert forall|r: Seq<char>, t: u64, i: u64| #[trigger]
            after.by_time.contains((r, t, i)) <==> after.owns(r, i) && after.records[i].updated_at
                == t by {
            assert(mid.by_time.contains((r, t, i)) <==> mid.owns(r, i) && mid.records[i].updated_at
                == t);
        }
        assert forall|r: Seq<char>, a: u128, i: u64| #[trigger]
            after.by_amount.contains((r, a, i)) <==> after.owns(r, i) && after.records[i].amount
                == a by {
            assert(mid.by_amount.contains((r, a, i)) <==> mid.owns(r, i) && mid.records[i].amount
                == a);
        }
        assert forall|r: Seq<char>, k: Seq<char>, i: u64| #[trigger]
            after.by_token.contains((r, k, i)) <==> after.owns(r, i) && token_key(
                after.records[i].token,
            ) == k by {
            assert(mid.by_token.contains((r, k, i)) <==> mid.owns(r, i) && token_key(
                mid.records[i].token,
            ) == k);
        }
    }
}

/// A run of contributions keeps a consistent ledger consistent, wherever it
/// ends.
pub proof fn law_request_keeps_consistency(
    st: LedgerState,
    name: Seq<char>,
    token: TokenView,
    amounts: Seq<(Seq<char>, u128)>,
    now: u64,
)
    requires
        st.consistent(),
    ensures
        st.upserted_all(name, token, amounts, now).0.consistent(),
    decreases amounts.len(),
{
    if amounts.len() > 0 {
        law_request_keeps_consistency(st, name, token, amounts.drop_last(), now);
        let (reached, done) = st.upserted_all(name, token, amounts.drop_last(), now);
        let (recipient, amount) = amounts.last();
        let key = (name, token_key(token), recipient);
        if done {
            if reached.upserted(name, token, recipient, amount, now) is Some {
                law_upsert_keeps_consistency(reached, name, token, recipient, amount, now);
            } else if reached.can_resolve(key) {
                lemma_resolved_consistent(reached, key);
            }
        }
    }
}

/// An ID, once given to an identity key, stays with it: neither crediting nor
/// withdrawing rebinds or unbinds a key.
pub proof fn law_ids_are_kept(
    st: LedgerState,
    name: Seq<char>,
    token: TokenView,
    recipient: Seq<char>,
    amount: u128,
    now: u64,
    id: u64,
    key: IdentityKey,
)
    requires
        st.ids.dom().contains(key),
    ensures
        st.removed(recipient, id).ids == st.ids,
        st.upserted(name, token, recipient, amount, now) matches Some(after)
            ==> after.ids.dom().contains(key) && after.ids[key] == st.ids[key],
{
}

impl LedgerState {
    /// Whether every live claim is owed a positive amount.
    pub open spec fn all_owed_positive(self) -> bool {
        forall|id: u64| self.records.dom().contains(id) ==> (#[trigger] self.records[id]).amount > 0
    }
}

/// Where every live claim is owed a positive amount, it stays so when a
/// positive amount is credited and when a claim is withdrawn.
pub proof fn law_owed_stays_positive(
    st: LedgerState,
    name: Seq<char>,
    token: TokenView,
    recipient: Seq<char>,
    amount: u128,
    now: u64,
    id: u64,
)
    requires
        st.all_owed_positive(),
    ensures
        st.removed(recipient, id).all_owed_positive(),
        amount > 0 ==> (st.upserted(name, token, recipient, amount, now) matches Some(after)
            ==> after.all_owed_positive()),
{
    if amount > 0 && st.upserted(name, token, recipient, amount, now) is Some {
        let after = st.upserted(name, token, recipient, amount, now)->0;
        let key = (name, token_key(token), recipient);
        let target = st.resolved_id(key);
        assert forall|i: u64| after.records.dom().contains(i) implies (
        #[trigger] after.records[i]).amount > 0 by {
            if i != target {
                assert(st.records[i].amount > 0);
            } else if st.records.dom().contains(target) {
                assert(st.records[target].amount > 0);
            }
        }
    }
    let gone = st.removed(recipient, id);
    assert forall|i: u64| gone.records.dom().contains(i) implies (#[trigger] gone.records[i]).amount
        > 0 by {
        assert(st.records[i].amount > 0);
    }
}

/// Withdrawing a claim keeps a consistent ledger consistent: the claim goes
/// where it is owed to the one who withdraws it, and else nothing changes.
pub proof fn law_claim_keeps_consistency(st: LedgerState, recipient: Seq<char>, id: u64)
    requires
        st.consistent(),
    ensures
        st.removed(recipient, id).consistent(),
        st.owns(recipient, id) ==> !st.removed(recipient, id).records.dom().contains(id),
        !st.owns(recipient, id) ==> st.removed(recipient, id) == st,
        forall|r: Seq<char>, i: u64| #[trigger]
            st.removed(recipient, id).owns(r, i) <==> st.owns(r, i) && !(i == id && st.owns(
                recipient,
                id,
            )),
{
    let after = st.removed(recipient, id);
    assert(st.by_recipient.contains((recipient, id)) <==> st.owns(recipient, id));
    if !st.owns(recipient, id) {
        if !st.records.dom().contains(id) {
            assert(after.records =~= st.records);
            assert(after.by_recipient =~= st.by_recipient);
            assert(after.by_time =~= st.by_time) by {
                assert forall|e: (Seq<char>, u64, u64)| st.by_time.contains(e) implies !(e.0
                    == recipient && e.2 == id) by {
                    assert(st.by_time.contains((e.0, e.1, e.2)) ==> st.owns(e.0, e.2));
                }
            }
            assert(after.by_amount =~= st.by_amount) by {
                assert forall|e: (Seq<char>, u128, u64)| st.by_amount.contains(e) implies !(e.0
                    == recipient && e.2 == id) by {
                    assert(st.by_amount.contains((e.0, e.1, e.2)) ==> st.owns(e.0, e.2));
                }
            }
            assert(after.by_token =~= st.by_token) by {
                assert forall|e: (Seq<char>, Seq<char>, u64)| st.by_token.contains(e) implies !(
                e.0 == recipient && e.2 == id) by {
                    assert(st.by_token.contains((e.0, e.1, e.2)) ==> st.owns(e.0, e.2));
                }
            }
            assert(after =~= st);
        }
        assert(after == st);
    } else {
        assert forall|r: Seq<char>, i: u64| after.owns(r, i) <==> i != id && st.owns(r, i) by {
            if i != id && st.records.dom().contains(i) {
                assert(after.owner_key(i, r) == st.owner_key(i, r));
            }
        }
        assert forall|r: Seq<char>| st.owns(r, id) implies r == recipient by {
            lemma_one_owner(st, r, recipient, id);
        }
        assert forall|i: u64| #[trigger] after.records.dom().contains(i) implies exists|
            r: Seq<char>,
        | after.owns(r, i) by {
            let r = choose|r: Seq<char>| st.owns(r, i);
            assert(after.owns(r, i));
        }
        assert(after.indexes_in_step()) by {
            assert forall|r: Seq<char>, i: u64| #[trigger]
                after.by_recipient.contains((r, i)) <==> after.owns(r, i) by {
                assert(st.by_recipient.contains((r, i)) <==> st.owns(r, i));
            }
            assert forall|r: Seq<char>, t: u64, i: u64| #[trigger]
                after.by_time.contains((r, t, i)) <==> after.owns(r, i)
                    && after.records[i].updated_at == t by {
                assert(st.by_time.contains((r, t, i)) <==> st.owns(r, i) && st.records[i].updated_at
                    == t);
            }
            assert forall|r: Seq<char>, a: u128, i: u64| #[trigger]
                after.by_amount.contains((r, a, i)) <==> after.owns(r, i) && after.records[i].amount
                    == a by {
                assert(st.by_amount.contains((r, a, i)) <==> st.owns(r, i) && st.records[i].amount
                    == a);
            }
            assert forall|r: Seq<char>, k: Seq<char>, i: u64| #[trigger]
                after.by_token.contains((r, k, i)) <==> after.owns(r, i) && token_key(
                    after.records[i].token,
                ) == k by {
                assert(st.by_token.contains((r, k, i)) <==> st.owns(r, i) && token_key(
                    st.records[i].token,
                ) == k);
            }
        }
    }
}

/// Withdrawing claims on behalf of one recipient keeps a consistent ledger
/// consistent, and takes out exactly those of them that are owed to the
/// recipient.
pub proof fn law_claims_keep_consistency(st: LedgerState, recipient: Seq<char>, ids: Seq<u64>)
    requires
        st.consistent(),
    ensures
        st.removed_all(recipient, ids).consistent(),
        forall|r: Seq<char>, id: u64| #[trigger]
            st.removed_all(recipient, ids).owns(r, id) <==> st.owns(r, id) && !(ids.contains(id)
                && st.owns(recipient, id)),
    decreases ids.len(),
{
    let after = st.removed_all(recipient, ids);
    if ids.len() == 0 {
        assert forall|r: Seq<char>, id: u64| after.owns(r, id) <==> st.owns(r, id) && !(
        ids.contains(id) && st.owns(recipient, id)) by {}
    } else {
        let front = ids.drop_last();
        let last = ids.last();
        let reached = st.removed_all(recipient, front);
        law_claims_keep_consistency(st, recipient, front);
        law_claim_keeps_consistency(reached, recipient, last);
        assert forall|r: Seq<char>, id: u64| after.owns(r, id) <==> st.owns(r, id) && !(
        ids.contains(id) && st.owns(recipient, id)) by {
            assert(after.owns(r, id) <==> reached.owns(r, id) && !(id == last && reached.owns(
                recipient,
                last,
            )));
            assert(reached.owns(r, id) <==> st.owns(r, id) && !(front.contains(id) && st.owns(
                recipient,
                id,
            )));
            assert(reached.owns(recipient, last) <==> st.owns(recipient, last) && !(
            front.contains(last) && st.owns(recipient, last)));
            if ids.contains(id) {
                let i = choose|i: int| 0 <= i < ids.len() && ids[i] == id;
                if i < front.len() {
                    assert(front[i] == id);
                }
            }
            if front.contains(id) {
                let i = choose|i: int| 0 <= i < front.len() && front[i] == id;
                assert(ids[i] == id);
            }
            if id == last {
                assert(ids[ids.len() - 1] == id);
            }
        }
    }
}

/// Withdrawing everything: where a recipient is owed no more claims than a
/// page holds, withdrawing the first page of the recipient's IDs takes out
/// every claim of the recipient and leaves no entry under the recipient in any
/// of the four indexes.
pub proof fn law_claim_all_drains(
    st: LedgerState,
    recipient: Seq<char>,
    page: Seq<u64>,
    limit: nat,
)
    requires
        st.consistent(),
        Set::new(|id: u64| st.owns(recipient, id)).finite(),
        Set::new(|id: u64| st.owns(recipient, id)).len() <= limit,
        is_page(page, recipient_ids(st.by_recipient, recipient), ids_ascending(), limit),
    ensures
        st.removed_all(recipient, page).consistent(),
        forall|id: u64|
            st.owns(recipient, id) ==> !st.removed_all(recipient, page).records.dom().contains(id),
        forall|id: u64| !st.removed_all(recipient, page).by_recipient.contains((recipient, id)),
        forall|t: u64, id: u64| !st.removed_all(recipient, page).by_time.contains((recipient, t, id)),
        forall|a: u128, id: u64|
            !st.removed_all(recipient, page).by_amount.contains((recipient, a, id)),
        forall|k: Seq<char>, id: u64|
            !st.removed_all(recipient, page).by_token.contains((recipient, k, id)),
{
    let owned = Set::new(|id: u64| st.owns(recipient, id));
    let listed = recipient_ids(st.by_recipient, recipient);
    let after = st.removed_all(recipient, page);
    assert forall|id: u64| listed.contains(id) <==> owned.contains(id) by {
        assert(st.by_recipient.contains((recipient, id)) <==> st.owns(recipient, id));
    }
    law_claims_keep_consistency(st, recipient, page);
    // The page leaves no claim of the recipient out.
    assert forall|id: u64| owned.contains(id) implies page.contains(id) by {
        if !page.contains(id) {
            assert(listed.contains(id));
            assert(page.len() == limit);
            lemma_ids_ascending_is_order();
            lemma_page_has_no_duplicates(page, listed, ids_ascending(), limit);
            page.unique_seq_to_set();
            let rest = owned.remove(id);
            assert(page.to_set().subset_of(rest)) by {
                assert forall|x: u64| page.to_set().contains(x) implies rest.contains(x) by {
                    let i = choose|i: int| 0 <= i < page.len() && page[i] == x;
                    assert(listed.contains(page[i]));
                }
            }
            vstd::set_lib::lemma_len_subset(page.to_set(), rest);
        }
    }
    assert forall|id: u64| !after.owns(recipient, id) by {
        if st.owns(recipient, id) {
            assert(owned.contains(id));
        }
    }
    assert forall|id: u64| st.owns(recipient, id) implies !after.records.dom().contains(id) by {
        assert(owned.contains(id));
        if after.records.dom().contains(id) {
            let r = choose|r: Seq<char>| after.owns(r, id);
            assert(st.owns(r, id));
            lemma_one_owner(st, r, recipient, id);
        }
    }
    assert forall|id: u64| !after.by_recipient.contains((recipient, id)) by {
        assert(after.by_recipient.contains((recipient, id)) <==> after.owns(recipient, id));
    }
    assert forall|t: u64, id: u64| !after.by_time.contains((recipient, t, id)) by {
        assert(after.by_time.contains((recipient, t, id)) ==> after.owns(recipient, id));
    }
    assert forall|a: u128, id: u64| !after.by_amount.contains((recipient, a, id)) by {
        assert(after.by_amount.contains((recipient, a, id)) ==> after.owns(recipient, id));
    }
    assert forall|k: Seq<char>, id: u64| !after.by_token.contains((recipient, k, id)) by {
        assert(after.by_token.contains((recipient, k, id)) ==> after.owns(recipient, id));
    }
}

/// After a withdrawal, whatever the ledger held, no index holds an entry of
/// the one who withdrew for the ID, unless the claim is live and owed to
/// another, when nothing changed.
pub proof fn law_withdrawn_id_surfaces_nowhere(st: LedgerState, recipient: Seq<char>, id: u64)
    requires
        !st.records.dom().contains(id) || st.is_owed(recipient, id),
    ensures
        !st.removed(recipient, id).records.dom().contains(id),
        !st.removed(recipient, id).by_recipient.contains((recipient, id)),
        forall|t: u64| !st.removed(recipient, id).by_time.contains((recipient, t, id)),
        forall|a: u128| !st.removed(recipient, id).by_amount.contains((recipient, a, id)),
        forall|k: Seq<char>| !st.removed(recipient, id).by_token.contains((recipient, k, id)),
{
}

/// One change to the ledger: a contribution credited, or a claim withdrawn.
pub enum LedgerOp {
    Credit { name: Seq<char>, token: TokenView, recipient: Seq<char>, amount: u128, now: u64 },
    Withdraw { recipient: Seq<char>, id: u64 },
}

impl LedgerState {
    /// The ledger after `op`. A contribution that overflows leaves the ledger
    /// as the resolution of its ID left it.
    pub open spec fn after(self, op: LedgerOp) -> LedgerState {
        match op {
            LedgerOp::Credit { name, token, recipient, amount, now } => match self.upserted(
                name,
                token,
                recipient,
                amount,
                now,
            ) {
                Some(next) => next,
                None => self.resolved((name, token_key(token), recipient)),
            },
            LedgerOp::Withdraw { recipient, id } => self.removed(recipient, id),
        }
    }

    /// The ledger after the changes `ops`, in order.
    pub open spec fn after_all(self, ops: Seq<LedgerOp>) -> LedgerState
        decreases ops.len(),
    {
        if ops.len() == 0 {
            self
        } else {
            self.after_all(ops.drop_last()).after(ops.last())
        }
    }
}

/// After any sequence of contributions and withdrawals, starting from a
/// consistent ledger, the ledger is consistent: every live claim has its one
/// entry in each index, with the record's present time and amount, and no
/// index holds a stale entry.
pub proof fn law_history_keeps_consistency(st: LedgerState, ops: Seq<LedgerOp>)
    requires
        st.consistent(),
    ensures
        st.after_all(ops).consistent(),
    decreases ops.len(),
{
    if ops.len() > 0 {
        let front = ops.drop_last();
        law_history_keeps_consistency(st, front);
        let reached = st.after_all(front);
        match ops.last() {
            LedgerOp::Credit { name, token, recipient, amount, now } => {
                let key = (name, token_key(token), recipient);
                if reached.upserted(name, token, recipient, amount, now) is Some {
                    law_upsert_keeps_consistency(reached, name, token, recipient, amount, now);
                } else if reached.can_resolve(key) {
                    lemma_resolved_consistent(reached, key);
                }
            },
            LedgerOp::Withdraw { recipient, id } => {
                law_claim_keeps_consistency(reached, recipient, id);
            },
        }
    }
}

} // verus!
