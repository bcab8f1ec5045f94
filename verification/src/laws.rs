//! The ledger's laws: invariant preservation, atomicity of failure, strict
//! alternation of stake and unstake, idempotence of a repeated stake, the
//! stake/unstake round trip, authorization, and staleness rejection. Each is
//! proved of the transitions in `model`, which the executable operations are
//! contracted to perform exactly.

use vstd::prelude::*;
use crate::errors::StakingError;
use crate::model::{
    coll_pred, collection_index, find_first, has_collection, holder_pred, holder_record_index,
    inv, is_staked, item_pred, item_record_index, lemma_find_first_congruent,
    lemma_find_first_exists, lemma_find_first_props, lemma_find_first_push, proof_matches,
    record_ok, records_distinct, spec_create_collection, spec_issue_item, spec_stake,
    spec_unstake, CollectionModel, LedgerModel, ProofModel,
};

verus! {

/// Lookups agree on two collection lists whose identifiers agree pointwise.
pub proof fn lemma_same_ids_same_lookup(cs1: Seq<CollectionModel>, cs2: Seq<CollectionModel>, id: Seq<u8>)
    requires
        cs1.len() == cs2.len(),
        forall|j: int| 0 <= j < cs1.len() ==> (#[trigger] cs1[j]).id == (#[trigger] cs2[j]).id,
    ensures
        find_first(cs1, coll_pred(id)) == find_first(cs2, coll_pred(id)),
{
    assert(forall|j: int|
        0 <= j < cs1.len() ==> coll_pred(id)(#[trigger] cs1[j]) == coll_pred(id)(#[trigger] cs2[j]));
    lemma_find_first_congruent(cs1, cs2, coll_pred(id));
}

/// Creating a collection preserves the ledger invariant.
pub proof fn lemma_create_preserves_inv(m: LedgerModel, id: Seq<u8>, max_depth: u32, max_buffer_size: u32)
    requires
        inv(m),
    ensures
        inv(spec_create_collection(m, id, max_depth, max_buffer_size).0),
{
    let m2 = spec_create_collection(m, id, max_depth, max_buffer_size).0;
    let r = spec_create_collection(m, id, max_depth, max_buffer_size).1;
    if r is Ok {
        lemma_find_first_props(m.collections, coll_pred(id));
        assert(forall|j: int|
            0 <= j < m.collections.len() ==> (#[trigger] m.collections[j]).id != id);
        assert forall|k: int| 0 <= k < m2.records.len() implies record_ok(m2, #[trigger] m2.records[k]) by {
            let rec = m.records[k];
            assert(record_ok(m, rec));
            let newc = m2.collections[m.collections.len() as int];
            lemma_find_first_push(m.collections, coll_pred(rec.collection), newc);
            lemma_find_first_props(m.collections, coll_pred(rec.collection));
            match collection_index(m, rec.collection) {
                Some(ci) => {
                    assert(m2.collections[ci] == m.collections[ci]);
                }
                None => {}
            }
        }
    }
}

/// Issuing an item preserves the ledger invariant.
pub proof fn lemma_issue_preserves_inv(m: LedgerModel, collection: Seq<u8>, holder: Seq<u8>)
    requires
        inv(m),
    ensures
        inv(spec_issue_item(m, collection, holder).0),
{
    let m2 = spec_issue_item(m, collection, holder).0;
    let r = spec_issue_item(m, collection, holder).1;
    if r is Ok {
        match collection_index(m, collection) {
            Some(ci) => {
                lemma_find_first_props(m.collections, coll_pred(collection));
                assert(forall|j: int|
                    0 <= j < m2.collections.len()
                        ==> (#[trigger] m2.collections[j]).id == m.collections[j].id);
                assert forall|k: int| 0 <= k < m2.records.len() implies record_ok(
                    m2,
                    #[trigger] m2.records[k],
                ) by {
                    let rec = m.records[k];
                    assert(record_ok(m, rec));
                    lemma_same_ids_same_lookup(m.collections, m2.collections, rec.collection);
                    lemma_find_first_props(m.collections, coll_pred(rec.collection));
                    match collection_index(m, rec.collection) {
                        Some(cj) => {
                            if cj == ci {
                                assert(m2.collections[cj].items[rec.index as int]
                                    == m.collections[cj].items[rec.index as int]);
                            } else {
                                assert(m2.collections[cj] == m.collections[cj]);
                            }
                        }
                        None => {}
                    }
                }
            }
            None => {}
        }
    }
}

/// Staking preserves the ledger invariant.
pub proof fn lemma_stake_preserves_inv(m: LedgerModel, collection: Seq<u8>, holder: Seq<u8>, p: ProofModel)
    requires
        inv(m),
    ensures
        inv(spec_stake(m, collection, holder, p).0),
{
    let m2 = spec_stake(m, collection, holder, p).0;
    let r = spec_stake(m, collection, holder, p).1;
    if r is Ok {
        match collection_index(m, collection) {
            Some(ci) => {
                lemma_find_first_props(m.collections, coll_pred(collection));
                lemma_find_first_props(m.records, holder_pred(collection, holder));
                lemma_find_first_props(m.records, item_pred(collection, p.index));
                assert(forall|k: int|
                    0 <= k < m.records.len()
                        ==> !holder_pred(collection, holder)(#[trigger] m.records[k]));
                assert(forall|k: int|
                    0 <= k < m.records.len()
                        ==> !item_pred(collection, p.index)(#[trigger] m.records[k]));
                assert(forall|j: int|
                    0 <= j < m2.collections.len()
                        ==> (#[trigger] m2.collections[j]).id == m.collections[j].id);
                let newrec = m2.records[m.records.len() as int];
                assert forall|k: int| 0 <= k < m2.records.len() implies record_ok(
                    m2,
                    #[trigger] m2.records[k],
                ) by {
                    let rec = m2.records[k];
                    lemma_same_ids_same_lookup(m.collections, m2.collections, rec.collection);
                    if k < m.records.len() {
                        assert(rec == m.records[k]);
                        assert(record_ok(m, rec));
                        lemma_find_first_props(m.collections, coll_pred(rec.collection));
                        match collection_index(m, rec.collection) {
                            Some(cj) => {
                                if cj == ci {
                                    assert(rec.collection == m.collections[ci].id);
                                    assert(rec.index != p.index);
                                    assert(m2.collections[cj].items[rec.index as int]
                                        == m.collections[cj].items[rec.index as int]);
                                } else {
                                    assert(m2.collections[cj] == m.collections[cj]);
                                }
                            }
                            None => {}
                        }
                    } else {
                        assert(rec == newrec);
                        assert(collection_index(m2, collection) == Some(ci));
                    }
                }
                assert forall|i: int, j: int|
                    0 <= i < m2.records.len() && 0 <= j < m2.records.len() && i != j implies
                    records_distinct(#[trigger] m2.records[i], #[trigger] m2.records[j]) by {
                    if i < m.records.len() && j < m.records.len() {
                        assert(records_distinct(m.records[i], m.records[j]));
                    }
                }
            }
            None => {}
        }
    }
}

/// Unstaking preserves the ledger invariant.
pub proof fn lemma_unstake_preserves_inv(m: LedgerModel, collection: Seq<u8>, caller: Seq<u8>, p: ProofModel)
    requires
        inv(m),
    ensures
        inv(spec_unstake(m, collection, caller, p).0),
{
    let m2 = spec_unstake(m, collection, caller, p).0;
    let r = spec_unstake(m, collection, caller, p).1;
    if r is Ok {
        match (collection_index(m, collection), item_record_index(m, collection, p.index)) {
            (Some(ci), Some(ri)) => {
                lemma_find_first_props(m.collections, coll_pred(collection));
                lemma_find_first_props(m.records, item_pred(collection, p.index));
                let gone = m.records[ri];
                assert(gone.collection == collection && gone.index == p.index);
                assert(forall|j: int|
                    0 <= j < m2.collections.len()
                        ==> (#[trigger] m2.collections[j]).id == m.collections[j].id);
                assert(forall|k: int|
                    0 <= k < m2.records.len()
                        ==> #[trigger] m2.records[k] == (if k < ri {
                            m.records[k]
                        } else {
                            m.records[k + 1]
                        }));
                assert forall|k: int| 0 <= k < m2.records.len() implies record_ok(
                    m2,
                    #[trigger] m2.records[k],
                ) by {
                    let k0: int = if k < ri { k } else { k + 1 };
                    let rec = m.records[k0];
                    assert(record_ok(m, rec));
                    assert(records_distinct(gone, rec) || k0 == ri);
                    lemma_same_ids_same_lookup(m.collections, m2.collections, rec.collection);
                    lemma_find_first_props(m.collections, coll_pred(rec.collection));
                    match collection_index(m, rec.collection) {
                        Some(cj) => {
                            if cj == ci {
                                assert(rec.collection == m.collections[ci].id);
                                assert(rec.index != p.index);
                                assert(m2.collections[cj].items[rec.index as int]
                                    == m.collections[cj].items[rec.index as int]);
                            } else {
                                assert(m2.collections[cj] == m.collections[cj]);
                            }
                        }
                        None => {}
                    }
                }
                assert forall|i: int, j: int|
                    0 <= i < m2.records.len() && 0 <= j < m2.records.len() && i != j implies
                    records_distinct(#[trigger] m2.records[i], #[trigger] m2.records[j]) by {
                    let i0: int = if i < ri { i } else { i + 1 };
                    let j0: int = if j < ri { j } else { j + 1 };
                    assert(records_distinct(m.records[i0], m.records[j0]));
                }
            }
            _ => {}
        }
    }
}

/// Every failure aborts the whole unit of work: on any error, the ledger —
/// commitment roots, items and staking records together — is unchanged.
pub proof fn lemma_failure_changes_nothing(
    m: LedgerModel,
    id: Seq<u8>,
    max_depth: u32,
    max_buffer_size: u32,
    collection: Seq<u8>,
    holder: Seq<u8>,
    p: ProofModel,
)
    ensures
        spec_create_collection(m, id, max_depth, max_buffer_size).1 is Err
            ==> spec_create_collection(m, id, max_depth, max_buffer_size).0 == m,
        spec_issue_item(m, collection, holder).1 is Err ==> spec_issue_item(m, collection, holder).0 == m,
        spec_stake(m, collection, holder, p).1 is Err ==> spec_stake(m, collection, holder, p).0 == m,
        spec_unstake(m, collection, holder, p).1 is Err ==> spec_unstake(m, collection, holder, p).0 == m,
{
}

/// Strict alternation, one half: an unstake can succeed only while the pair
/// (collection, caller) is in the Staked state.
pub proof fn lemma_unstake_needs_active_stake(m: LedgerModel, collection: Seq<u8>, caller: Seq<u8>, p: ProofModel)
    requires
        inv(m),
        spec_unstake(m, collection, caller, p).1 is Ok,
    ensures
        is_staked(m, collection, caller),
{
    match item_record_index(m, collection, p.index) {
        Some(ri) => {
            lemma_find_first_props(m.records, item_pred(collection, p.index));
            lemma_find_first_exists(m.records, holder_pred(collection, caller));
            assert(holder_pred(collection, caller)(m.records[ri]));
        }
        None => {
            assert(false);
        }
    }
}

/// Strict alternation, the other half: a stake can succeed only while the
/// pair is Unstaked, and leaves it Staked.
pub proof fn lemma_stake_alternation(m: LedgerModel, collection: Seq<u8>, holder: Seq<u8>, p: ProofModel)
    requires
        inv(m),
        spec_stake(m, collection, holder, p).1 is Ok,
    ensures
        !is_staked(m, collection, holder),
        is_staked(spec_stake(m, collection, holder, p).0, collection, holder),
{
    let m2 = spec_stake(m, collection, holder, p).0;
    let newrec = m2.records[m.records.len() as int];
    lemma_find_first_push(m.records, holder_pred(collection, holder), newrec);
    assert(holder_pred(collection, holder)(newrec));
}

/// A successful unstake leaves the pair Unstaked again.
pub proof fn lemma_unstake_clears_stake(m: LedgerModel, collection: Seq<u8>, caller: Seq<u8>, p: ProofModel)
    requires
        inv(m),
        spec_unstake(m, collection, caller, p).1 is Ok,
    ensures
        !is_staked(spec_unstake(m, collection, caller, p).0, collection, caller),
{
    let m2 = spec_unstake(m, collection, caller, p).0;
    match item_record_index(m, collection, p.index) {
        Some(ri) => {
            lemma_find_first_props(m.records, item_pred(collection, p.index));
            let gone = m.records[ri];
            assert(gone.owner == caller && gone.collection == collection);
            lemma_find_first_exists(m2.records, holder_pred(collection, caller));
            assert(forall|k: int|
                0 <= k < m2.records.len()
                    ==> #[trigger] m2.records[k] == (if k < ri {
                        m.records[k]
                    } else {
                        m.records[k + 1]
                    }));
            if is_staked(m2, collection, caller) {
                let k = choose|k: int|
                    0 <= k < m2.records.len() && holder_pred(collection, caller)(#[trigger] m2.records[k]);
                let k0: int = if k < ri { k } else { k + 1 };
                assert(m.records[k0].owner == caller && m.records[k0].collection == collection);
                assert(records_distinct(m.records[k0], m.records[ri]));
                assert(false);
            }
        }
        None => {
            assert(false);
        }
    }
}

/// Operations for one pair do not disturb the staking state of another: a
/// stake or unstake for (collection, holder) leaves every other
/// (collection, holder) pair's state as it was, and creating a collection or
/// issuing an item touches no staking record at all.
pub proof fn lemma_other_pairs_undisturbed(
    m: LedgerModel,
    collection: Seq<u8>,
    holder: Seq<u8>,
    p: ProofModel,
    c2: Seq<u8>,
    h2: Seq<u8>,
    id: Seq<u8>,
    max_depth: u32,
    max_buffer_size: u32,
)
    requires
        inv(m),
        !(c2 == collection && h2 == holder),
    ensures
        is_staked(spec_stake(m, collection, holder, p).0, c2, h2) == is_staked(m, c2, h2),
        is_staked(spec_unstake(m, collection, holder, p).0, c2, h2) == is_staked(m, c2, h2),
        is_staked(spec_create_collection(m, id, max_depth, max_buffer_size).0, c2, h2) == is_staked(m, c2, h2),
        is_staked(spec_issue_item(m, collection, holder).0, c2, h2) == is_staked(m, c2, h2),
{
    let ms = spec_stake(m, collection, holder, p).0;
    if spec_stake(m, collection, holder, p).1 is Ok {
        let newrec = ms.records[m.records.len() as int];
        lemma_find_first_push(m.records, holder_pred(c2, h2), newrec);
        assert(!holder_pred(c2, h2)(newrec));
    }
    let mu = spec_unstake(m, collection, holder, p).0;
    if spec_unstake(m, collection, holder, p).1 is Ok {
        match item_record_index(m, collection, p.index) {
            Some(ri) => {
                lemma_find_first_props(m.records, item_pred(collection, p.index));
                let gone = m.records[ri];
                assert(gone.collection == collection && gone.owner == holder);
                assert(!holder_pred(c2, h2)(gone));
                assert(forall|k: int|
                    0 <= k < mu.records.len()
                        ==> #[trigger] mu.records[k] == (if k < ri {
                            m.records[k]
                        } else {
                            m.records[k + 1]
                        }));
                lemma_find_first_exists(m.records, holder_pred(c2, h2));
                lemma_find_first_exists(mu.records, holder_pred(c2, h2));
                if is_staked(m, c2, h2) {
                    let k = choose|k: int|
                        0 <= k < m.records.len() && holder_pred(c2, h2)(#[trigger] m.records[k]);
                    assert(k != ri);
                    let k2: int = if k < ri { k } else { k - 1 };
                    assert(holder_pred(c2, h2)(mu.records[k2]));
                }
                if is_staked(mu, c2, h2) {
                    let k = choose|k: int|
                        0 <= k < mu.records.len() && holder_pred(c2, h2)(#[trigger] mu.records[k]);
                    let k0: int = if k < ri { k } else { k + 1 };
                    assert(holder_pred(c2, h2)(m.records[k0]));
                }
            }
            None => {}
        }
    }
}

/// Idempotence of failure: immediately repeating a successful stake for the
/// same pair with the same proof fails with `AlreadyStaked` and leaves the
/// ledger exactly as the first stake left it.
pub proof fn lemma_stake_repeat_fails(m: LedgerModel, collection: Seq<u8>, holder: Seq<u8>, p: ProofModel)
    requires
        inv(m),
        spec_stake(m, collection, holder, p).1 is Ok,
    ensures
        spec_stake(spec_stake(m, collection, holder, p).0, collection, holder, p)
            == (spec_stake(m, collection, holder, p).0, Err::<(), StakingError>(StakingError::AlreadyStaked)),
{
    let m1 = spec_stake(m, collection, holder, p).0;
    lemma_find_first_props(m.collections, coll_pred(collection));
    assert(forall|j: int|
        0 <= j < m1.collections.len() ==> (#[trigger] m1.collections[j]).id == m.collections[j].id);
    lemma_same_ids_same_lookup(m.collections, m1.collections, collection);
    let newrec = m1.records[m.records.len() as int];
    lemma_find_first_push(m.records, holder_pred(collection, holder), newrec);
    assert(holder_pred(collection, holder)(newrec));
    assert(holder_record_index(m1, collection, holder) is Some);
}

/// The proof for an item as the ledger stands after an operation: the same
/// leaf values, re-attested against the current commitment root.
pub open spec fn refreshed_proof(m: LedgerModel, collection: Seq<u8>, p: ProofModel) -> ProofModel {
    match collection_index(m, collection) {
        Some(ci) => ProofModel {
            root: m.collections[ci].root,
            content_hash: p.content_hash,
            attribution_hash: p.attribution_hash,
            nonce: p.nonce,
            index: p.index,
        },
        None => p,
    }
}

/// Round trip: a successful stake followed by an unstake with a correctly
/// refreshed proof succeeds, restores the item's owner to the original
/// holder, and leaves no staking record for the pair.
pub proof fn lemma_stake_unstake_round_trip(m: LedgerModel, collection: Seq<u8>, holder: Seq<u8>, p: ProofModel)
    requires
        inv(m),
        spec_stake(m, collection, holder, p).1 is Ok,
    ensures
        ({
            let m1 = spec_stake(m, collection, holder, p).0;
            let m2 = spec_unstake(m1, collection, holder, refreshed_proof(m1, collection, p)).0;
            let r2 = spec_unstake(m1, collection, holder, refreshed_proof(m1, collection, p)).1;
            &&& r2 is Ok
            &&& collection_index(m2, collection) == collection_index(m, collection)
            &&& match collection_index(m, collection) {
                Some(ci) => m2.collections[ci].items[p.index as int].owner == holder,
                None => false,
            }
            &&& !is_staked(m2, collection, holder)
        }),
{
    let m1 = spec_stake(m, collection, holder, p).0;
    let p1 = refreshed_proof(m1, collection, p);
    match collection_index(m, collection) {
        Some(ci) => {
            lemma_find_first_props(m.collections, coll_pred(collection));
            assert(forall|j: int|
                0 <= j < m1.collections.len()
                    ==> (#[trigger] m1.collections[j]).id == m.collections[j].id);
            lemma_same_ids_same_lookup(m.collections, m1.collections, collection);
            assert(collection_index(m1, collection) == Some(ci));
            let newrec = m1.records[m.records.len() as int];
            lemma_find_first_props(m.records, item_pred(collection, p.index));
            lemma_find_first_push(m.records, item_pred(collection, p.index), newrec);
            assert(item_pred(collection, p.index)(newrec));
            assert(item_record_index(m1, collection, p.index) == Some(m.records.len() as int));
            assert(newrec.owner == holder);
            let col1 = m1.collections[ci];
            assert(proof_matches(col1, p1));
            let m2 = spec_unstake(m1, collection, holder, p1).0;
            assert(spec_unstake(m1, collection, holder, p1).1 is Ok);
            assert(m2.records =~= m.records);
            lemma_same_ids_same_lookup(m.collections, m2.collections, collection);
            assert(m2.collections[ci].items[p.index as int].owner == holder);
            lemma_find_first_props(m.records, holder_pred(collection, holder));
        }
        None => {
            assert(false);
        }
    }
}

/// Authorization: an unstake by a caller other than the recorded staker
/// fails with `NotStaker` and changes nothing, however fresh and well-formed
/// the supplied proof is.
pub proof fn lemma_unstake_foreign_caller_rejected(m: LedgerModel, collection: Seq<u8>, caller: Seq<u8>, p: ProofModel)
    requires
        inv(m),
        has_collection(m, collection),
        match item_record_index(m, collection, p.index) {
            Some(ri) => m.records[ri].owner != caller,
            None => false,
        },
    ensures
        spec_unstake(m, collection, caller, p)
            == (m, Err::<(), StakingError>(StakingError::NotStaker)),
{
}

/// Staleness: a stake whose proof does not carry the collection's current
/// root fails with `StaleProof` and leaves the ledger, its root included,
/// unchanged — for every pair not already staked, where the tie-break rule
/// puts `AlreadyStaked` first.
pub proof fn lemma_stale_stake_rejected(m: LedgerModel, collection: Seq<u8>, holder: Seq<u8>, p: ProofModel)
    requires
        inv(m),
        has_collection(m, collection),
        !is_staked(m, collection, holder),
        match collection_index(m, collection) {
            Some(ci) => p.root != m.collections[ci].root,
            None => false,
        },
    ensures
        spec_stake(m, collection, holder, p) == (m, Err::<(), StakingError>(StakingError::StaleProof)),
{
}

/// Staleness: an unstake by the rightful staker whose proof does not carry
/// the current root fails with `StaleProof` and changes nothing.
pub proof fn lemma_stale_unstake_rejected(m: LedgerModel, collection: Seq<u8>, caller: Seq<u8>, p: ProofModel)
    requires
        inv(m),
        has_collection(m, collection),
        match item_record_index(m, collection, p.index) {
            Some(ri) => m.records[ri].owner == caller,
            None => false,
        },
        match collection_index(m, collection) {
            Some(ci) => p.root != m.collections[ci].root,
            None => false,
        },
    ensures
        spec_unstake(m, collection, caller, p) == (m, Err::<(), StakingError>(StakingError::StaleProof)),
{
}

} // verus!
