//! The one hash primitive the ledger model uses: keccak-256, taken from the
//! same crate family that the authenticated-structure service builds on. The
//! digest itself is left uninterpreted; the model only relies on it being a
//! function of the input bytes.

use vstd::prelude::*;

verus! {

/// The keccak-256 digest of a byte string. What the bytes of the digest are
/// is stated nowhere: the model treats a commitment root as an opaque token
/// that changes whenever the collection is mutated.
pub uninterp spec fn keccak_of(data: Seq<u8>) -> Seq<u8>;

/// Relies on solana_program::keccak::hash: returns the keccak-256 digest of
/// the input bytes, a pure function of the input alone.
#[verifier::external_body]
pub fn keccak_bytes(data: &Vec<u8>) -> (r: [u8; 32])
    ensures
        r@ == keccak_of(data@),
{
    solana_program::keccak::hash(data.as_slice()).to_bytes()
}

} // verus!
