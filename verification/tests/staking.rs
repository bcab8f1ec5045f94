use chack_staking::authority::{escrow_authority, tree_authority};
use chack_staking::errors::StakingError;
use chack_staking::ledger::{Ledger, MembershipProof};

const PROGRAM: [u8; 32] = [7u8; 32];
const COLLECTION: [u8; 32] = [1u8; 32];
const HOLDER: [u8; 32] = [2u8; 32];
const OTHER: [u8; 32] = [3u8; 32];

fn fresh_proof(ledger: &Ledger, collection: &[u8; 32], index: u32) -> MembershipProof {
    ledger.item_proof(collection, index).expect("item must exist")
}

#[test]
fn scenario_round_trip() {
    // Collection with depth 14 / buffer 64, one item issued to the holder at
    // index 0, nonce 0; stake, then unstake with the refreshed proof.
    let mut ledger = Ledger::new(PROGRAM);
    assert!(ledger.create_collection(&COLLECTION, 14, 64) == Ok(()));
    assert!(ledger.contains_collection(&COLLECTION));
    assert!(ledger.issue_item(&COLLECTION, &HOLDER) == Ok((0, 0)));
    assert!(ledger.item_owner(&COLLECTION, 0) == Some(HOLDER));

    let proof0 = fresh_proof(&ledger, &COLLECTION, 0);
    let root0 = proof0.root;
    assert!(ledger.stake(&COLLECTION, &HOLDER, &proof0) == Ok(()));
    assert!(ledger.is_staked_pair(&COLLECTION, &HOLDER));

    // The item now belongs to the derived escrow authority.
    let (escrow, _bump) = escrow_authority(&PROGRAM, &COLLECTION, &HOLDER).expect("derivable");
    assert!(ledger.item_owner(&COLLECTION, 0) == Some(escrow));
    assert!(ledger.record_owner(&COLLECTION, 0) == Some(HOLDER));

    // The root moved; an unstake needs the refreshed proof.
    let proof1 = fresh_proof(&ledger, &COLLECTION, 0);
    assert!(proof1.root != root0);
    assert!(ledger.unstake(&COLLECTION, &HOLDER, &proof1) == Ok(()));
    assert!(ledger.item_owner(&COLLECTION, 0) == Some(HOLDER));
    assert!(!ledger.is_staked_pair(&COLLECTION, &HOLDER));
    assert!(ledger.record_owner(&COLLECTION, 0) == None);
}

#[test]
fn scenario_second_holder_cannot_unstake() {
    let mut ledger = Ledger::new(PROGRAM);
    assert!(ledger.create_collection(&COLLECTION, 14, 64) == Ok(()));
    assert!(ledger.issue_item(&COLLECTION, &HOLDER) == Ok((0, 0)));
    let proof0 = fresh_proof(&ledger, &COLLECTION, 0);
    assert!(ledger.stake(&COLLECTION, &HOLDER, &proof0) == Ok(()));

    // A structurally valid, fresh proof does not help another identity.
    let proof1 = fresh_proof(&ledger, &COLLECTION, 0);
    assert!(ledger.unstake(&COLLECTION, &OTHER, &proof1) == Err(StakingError::NotStaker));
    assert!(ledger.is_staked_pair(&COLLECTION, &HOLDER));
    assert!(ledger.record_owner(&COLLECTION, 0) == Some(HOLDER));
}

#[test]
fn double_stake_fails_and_changes_nothing() {
    let mut ledger = Ledger::new(PROGRAM);
    assert!(ledger.create_collection(&COLLECTION, 14, 64) == Ok(()));
    assert!(ledger.issue_item(&COLLECTION, &HOLDER) == Ok((0, 0)));
    let proof0 = fresh_proof(&ledger, &COLLECTION, 0);
    let proof0_again = MembershipProof {
        root: proof0.root,
        content_hash: proof0.content_hash,
        attribution_hash: proof0.attribution_hash,
        nonce: proof0.nonce,
        index: proof0.index,
    };
    assert!(ledger.stake(&COLLECTION, &HOLDER, &proof0) == Ok(()));
    let root_after_first = ledger.collection_root(&COLLECTION).unwrap();

    assert!(
        ledger.stake(&COLLECTION, &HOLDER, &proof0_again) == Err(StakingError::AlreadyStaked)
    );
    assert!(ledger.collection_root(&COLLECTION).unwrap() == root_after_first);
    assert!(ledger.is_staked_pair(&COLLECTION, &HOLDER));
}

#[test]
fn stale_proof_rejected_and_root_unchanged() {
    let mut ledger = Ledger::new(PROGRAM);
    assert!(ledger.create_collection(&COLLECTION, 14, 64) == Ok(()));
    assert!(ledger.issue_item(&COLLECTION, &HOLDER) == Ok((0, 0)));

    // A stake whose proof carries a wrong root.
    let good = fresh_proof(&ledger, &COLLECTION, 0);
    let stale = MembershipProof {
        root: [9u8; 32],
        content_hash: good.content_hash,
        attribution_hash: good.attribution_hash,
        nonce: good.nonce,
        index: good.index,
    };
    let root_before = ledger.collection_root(&COLLECTION).unwrap();
    assert!(ledger.stake(&COLLECTION, &HOLDER, &stale) == Err(StakingError::StaleProof));
    assert!(ledger.collection_root(&COLLECTION).unwrap() == root_before);
    assert!(!ledger.is_staked_pair(&COLLECTION, &HOLDER));

    // An unstake whose proof is the one from before the stake.
    assert!(ledger.stake(&COLLECTION, &HOLDER, &good) == Ok(()));
    let outdated = MembershipProof {
        root: root_before,
        content_hash: good.content_hash,
        attribution_hash: good.attribution_hash,
        nonce: good.nonce,
        index: good.index,
    };
    let root_staked = ledger.collection_root(&COLLECTION).unwrap();
    assert!(ledger.unstake(&COLLECTION, &HOLDER, &outdated) == Err(StakingError::StaleProof));
    assert!(ledger.collection_root(&COLLECTION).unwrap() == root_staked);
    assert!(ledger.is_staked_pair(&COLLECTION, &HOLDER));
}

#[test]
fn alternation_no_stake_no_unstake() {
    let mut ledger = Ledger::new(PROGRAM);
    assert!(ledger.create_collection(&COLLECTION, 14, 64) == Ok(()));
    assert!(ledger.issue_item(&COLLECTION, &HOLDER) == Ok((0, 0)));

    // Unstake before any stake.
    let proof0 = fresh_proof(&ledger, &COLLECTION, 0);
    assert!(ledger.unstake(&COLLECTION, &HOLDER, &proof0) == Err(StakingError::NoActiveStake));

    // Stake, unstake, then unstake again.
    let proof0 = fresh_proof(&ledger, &COLLECTION, 0);
    assert!(ledger.stake(&COLLECTION, &HOLDER, &proof0) == Ok(()));
    let proof1 = fresh_proof(&ledger, &COLLECTION, 0);
    assert!(ledger.unstake(&COLLECTION, &HOLDER, &proof1) == Ok(()));
    let proof2 = fresh_proof(&ledger, &COLLECTION, 0);
    assert!(ledger.unstake(&COLLECTION, &HOLDER, &proof2) == Err(StakingError::NoActiveStake));

    // And a second round trip is possible after the first.
    let proof3 = fresh_proof(&ledger, &COLLECTION, 0);
    assert!(ledger.stake(&COLLECTION, &HOLDER, &proof3) == Ok(()));
    assert!(ledger.is_staked_pair(&COLLECTION, &HOLDER));
}

#[test]
fn stake_of_anothers_item_is_not_owner() {
    let mut ledger = Ledger::new(PROGRAM);
    assert!(ledger.create_collection(&COLLECTION, 14, 64) == Ok(()));
    assert!(ledger.issue_item(&COLLECTION, &HOLDER) == Ok((0, 0)));
    let proof0 = fresh_proof(&ledger, &COLLECTION, 0);
    assert!(ledger.stake(&COLLECTION, &OTHER, &proof0) == Err(StakingError::NotOwner));
    assert!(!ledger.is_staked_pair(&COLLECTION, &OTHER));
}

#[test]
fn foreign_stake_of_staked_item() {
    let mut ledger = Ledger::new(PROGRAM);
    assert!(ledger.create_collection(&COLLECTION, 14, 64) == Ok(()));
    assert!(ledger.issue_item(&COLLECTION, &HOLDER) == Ok((0, 0)));
    let proof0 = fresh_proof(&ledger, &COLLECTION, 0);
    let root0 = proof0.root;
    assert!(ledger.stake(&COLLECTION, &HOLDER, &proof0) == Ok(()));

    // A second holder with no record of their own and a fresh proof for the
    // staked item is turned away as not the owner: the item now belongs to
    // the escrow identity.
    let fresh = fresh_proof(&ledger, &COLLECTION, 0);
    assert!(ledger.stake(&COLLECTION, &OTHER, &fresh) == Err(StakingError::NotOwner));
    assert!(!ledger.is_staked_pair(&COLLECTION, &OTHER));

    // With a stale proof instead, staleness decides.
    let stale = MembershipProof {
        root: root0,
        content_hash: fresh.content_hash,
        attribution_hash: fresh.attribution_hash,
        nonce: fresh.nonce,
        index: fresh.index,
    };
    assert!(ledger.stake(&COLLECTION, &OTHER, &stale) == Err(StakingError::StaleProof));
    assert!(ledger.is_staked_pair(&COLLECTION, &HOLDER));
    assert!(ledger.record_owner(&COLLECTION, 0) == Some(HOLDER));
}

#[test]
fn create_collection_errors() {
    let mut ledger = Ledger::new(PROGRAM);
    assert!(ledger.create_collection(&COLLECTION, 0, 64) == Err(StakingError::InvalidCapacity));
    assert!(ledger.create_collection(&COLLECTION, 31, 64) == Err(StakingError::InvalidCapacity));
    assert!(ledger.create_collection(&COLLECTION, 14, 0) == Err(StakingError::InvalidCapacity));
    assert!(
        ledger.create_collection(&COLLECTION, 14, 4096) == Err(StakingError::InvalidCapacity)
    );
    assert!(!ledger.contains_collection(&COLLECTION));
    assert!(ledger.create_collection(&COLLECTION, 14, 64) == Ok(()));
    assert!(
        ledger.create_collection(&COLLECTION, 20, 256) == Err(StakingError::AlreadyInitialized)
    );
}

#[test]
fn issuance_fills_smallest_collection() {
    let mut ledger = Ledger::new(PROGRAM);
    assert!(ledger.create_collection(&COLLECTION, 1, 8) == Ok(()));
    assert!(ledger.issue_item(&COLLECTION, &HOLDER) == Ok((0, 0)));
    assert!(ledger.issue_item(&COLLECTION, &OTHER) == Ok((1, 1)));
    assert!(ledger.issue_item(&COLLECTION, &HOLDER) == Err(StakingError::CollectionFull));
    assert!(ledger.item_owner(&COLLECTION, 0) == Some(HOLDER));
    assert!(ledger.item_owner(&COLLECTION, 1) == Some(OTHER));
    assert!(ledger.item_owner(&COLLECTION, 2) == None);
}

#[test]
fn commitment_root_moves_on_every_mutation() {
    let mut ledger = Ledger::new(PROGRAM);
    assert!(ledger.create_collection(&COLLECTION, 14, 64) == Ok(()));
    let r0 = ledger.collection_root(&COLLECTION).unwrap();
    assert!(ledger.issue_item(&COLLECTION, &HOLDER) == Ok((0, 0)));
    let r1 = ledger.collection_root(&COLLECTION).unwrap();
    let proof = fresh_proof(&ledger, &COLLECTION, 0);
    assert!(ledger.stake(&COLLECTION, &HOLDER, &proof) == Ok(()));
    let r2 = ledger.collection_root(&COLLECTION).unwrap();
    assert!(r0 != r1 && r1 != r2 && r0 != r2);
}

#[test]
fn derived_authorities_are_deterministic_and_distinct() {
    let a1 = tree_authority(&PROGRAM, &COLLECTION).expect("derivable");
    let a2 = tree_authority(&PROGRAM, &COLLECTION).expect("derivable");
    assert!(a1 == a2);

    let other_collection = [4u8; 32];
    let b = tree_authority(&PROGRAM, &other_collection).expect("derivable");
    assert!(a1.0 != b.0);

    let e1 = escrow_authority(&PROGRAM, &COLLECTION, &HOLDER).expect("derivable");
    let e2 = escrow_authority(&PROGRAM, &COLLECTION, &OTHER).expect("derivable");
    assert!(e1.0 != e2.0);
    assert!(e1.0 != a1.0);
    assert!(e1.0 != HOLDER);
}

#[test]
fn pairs_are_independent() {
    let mut ledger = Ledger::new(PROGRAM);
    assert!(ledger.create_collection(&COLLECTION, 14, 64) == Ok(()));
    assert!(ledger.issue_item(&COLLECTION, &HOLDER) == Ok((0, 0)));
    assert!(ledger.issue_item(&COLLECTION, &OTHER) == Ok((1, 1)));

    let p0 = fresh_proof(&ledger, &COLLECTION, 0);
    assert!(ledger.stake(&COLLECTION, &HOLDER, &p0) == Ok(()));
    assert!(ledger.is_staked_pair(&COLLECTION, &HOLDER));
    assert!(!ledger.is_staked_pair(&COLLECTION, &OTHER));

    // The other holder stakes their own item with a proof fresh against the
    // root the first stake produced.
    let p1 = fresh_proof(&ledger, &COLLECTION, 1);
    assert!(ledger.stake(&COLLECTION, &OTHER, &p1) == Ok(()));
    assert!(ledger.is_staked_pair(&COLLECTION, &OTHER));

    // Unstaking one pair leaves the other staked.
    let p0b = fresh_proof(&ledger, &COLLECTION, 0);
    assert!(ledger.unstake(&COLLECTION, &HOLDER, &p0b) == Ok(()));
    assert!(!ledger.is_staked_pair(&COLLECTION, &HOLDER));
    assert!(ledger.is_staked_pair(&COLLECTION, &OTHER));
}
