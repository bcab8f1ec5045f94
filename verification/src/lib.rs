//! Custody and staking ledger for items held in a compressed, Merkle-committed
//! collection. Ownership of an item is never looked up directly: every custody
//! change must present a membership proof against the collection's current
//! commitment root, and a staking record tracks who may reverse the change.

pub mod authority;
pub mod errors;
pub mod laws;
pub mod ledger;
pub mod model;
pub mod hashing;
pub mod util;
