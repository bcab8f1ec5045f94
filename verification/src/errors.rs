//! Every operation aborts as a whole with one of these kinds; no error is
//! retried or recovered internally. The kind tells the caller whether to
//! refresh a proof (`StaleProof`), pick a different pair (`AlreadyStaked`), or
//! treat the failure as a permanent authorization failure (`NotOwner`,
//! `NotStaker`, `Unauthorized`).

use vstd::prelude::*;

verus! {

/// The failure kinds of the staking ledger.
#[derive(Clone, Copy, PartialEq, Eq, Structural, Debug)]
pub enum StakingError {
    /// The requested capacity profile is outside the supported range.
    InvalidCapacity,
    /// A collection with this identifier already exists.
    AlreadyInitialized,
    /// The collection has no room for another item.
    CollectionFull,
    /// A signing authority could not be derived or does not match the one
    /// bound to the collection.
    Unauthorized,
    /// The proof does not attest the item's current state under the
    /// collection's current commitment root.
    StaleProof,
    /// A staking record for the pair, or for the item, already exists.
    AlreadyStaked,
    /// The proof's item is not currently owned by the would-be staker.
    NotOwner,
    /// The caller is not the identity recorded as entitled to reclaim.
    NotStaker,
    /// No staking record exists for the item.
    NoActiveStake,
}

} // verus!
