//! Keyless signing identities. A tree authority (one per collection) and an
//! escrow authority (one per collection/holder pair) are derived
//! deterministically from seed tuples; whoever can reproduce the seeds can
//! exercise the identity, so no private key ever exists. Derivation is done
//! by the platform's program-derived-address scheme and is left
//! uninterpreted here: the model only relies on it being a pure function of
//! the seeds and on the bump seed it returns alongside the identity.

use vstd::prelude::*;
use crate::util::vec_from_32;

verus! {

/// The program-derived address (identity and bump seed) for a seed tuple
/// under a program identity, or `None` in the statistically improbable case
/// that no bump seed yields a valid address. Pure in its arguments.
pub uninterp spec fn pda_of(seeds: Seq<Seq<u8>>, program: Seq<u8>) -> Option<(Seq<u8>, u8)>;

/// Relates an executable derivation result to the model-level one.
pub open spec fn derived_eq(r: Option<([u8; 32], u8)>, s: Option<(Seq<u8>, u8)>) -> bool {
    match (r, s) {
        (Some(p), Some(q)) => p.0@ == q.0 && p.1 == q.1,
        (None, None) => true,
        _ => false,
    }
}

/// The views of a seed list.
pub open spec fn seed_views(seeds: Seq<Vec<u8>>) -> Seq<Seq<u8>> {
    seeds.map_values(|s: Vec<u8>| s@)
}

/// The domain tag of tree-authority seeds: the bytes of "tree_owner".
pub open spec fn tree_seed_tag() -> Seq<u8> {
    seq![116u8, 114u8, 101u8, 101u8, 95u8, 111u8, 119u8, 110u8, 101u8, 114u8]
}

/// The domain tag of escrow-authority seeds: the bytes of "staking_details".
pub open spec fn escrow_seed_tag() -> Seq<u8> {
    seq![
        115u8, 116u8, 97u8, 107u8, 105u8, 110u8, 103u8, 95u8, 100u8, 101u8, 116u8, 97u8,
        105u8, 108u8, 115u8,
    ]
}

/// Identity and bump of the tree authority bound to a collection.
pub open spec fn spec_tree_authority(program: Seq<u8>, collection: Seq<u8>) -> Option<(Seq<u8>, u8)> {
    pda_of(seq![tree_seed_tag(), collection], program)
}

/// Identity and bump of the escrow authority for a (collection, holder) pair.
pub open spec fn spec_escrow_authority(
    program: Seq<u8>,
    collection: Seq<u8>,
    holder: Seq<u8>,
) -> Option<(Seq<u8>, u8)> {
    pda_of(seq![escrow_seed_tag(), collection, holder], program)
}

/// Relies on solana_program::pubkey::Pubkey::try_find_program_address: the
/// derived address and its bump seed are a pure function of the seeds and the
/// program identity; `None` comes only when no bump seed yields a valid
/// derived address for these seeds.
#[verifier::external_body]
fn try_derive_address(seeds: &Vec<Vec<u8>>, program: &[u8; 32]) -> (r: Option<([u8; 32], u8)>)
    ensures
        derived_eq(r, pda_of(seed_views(seeds@), program@)),
{
    let seed_refs: Vec<&[u8]> = seeds.iter().map(|s| s.as_slice()).collect();
    let program_key = solana_program::pubkey::Pubkey::new_from_array(*program);
    solana_program::pubkey::Pubkey::try_find_program_address(&seed_refs, &program_key)
        .map(|(address, bump)| (address.to_bytes(), bump))
}

/// The bytes of "tree_owner".
fn tree_tag_bytes() -> (r: Vec<u8>)
    ensures
        r@ == tree_seed_tag(),
{
    let mut v: Vec<u8> = Vec::new();
    v.push(116);
    v.push(114);
    v.push(101);
    v.push(101);
    v.push(95);
    v.push(111);
    v.push(119);
    v.push(110);
    v.push(101);
    v.push(114);
    proof {
        assert(v@ =~= tree_seed_tag());
    }
    v
}

/// The bytes of "staking_details".
fn escrow_tag_bytes() -> (r: Vec<u8>)
    ensures
        r@ == escrow_seed_tag(),
{
    let mut v: Vec<u8> = Vec::new();
    v.push(115);
    v.push(116);
    v.push(97);
    v.push(107);
    v.push(105);
    v.push(110);
    v.push(103);
    v.push(95);
    v.push(100);
    v.push(101);
    v.push(116);
    v.push(97);
    v.push(105);
    v.push(108);
    v.push(115);
    proof {
        assert(v@ =~= escrow_seed_tag());
    }
    v
}

/// Derives the tree authority bound to `collection` under `program`.
pub fn tree_authority(program: &[u8; 32], collection: &[u8; 32]) -> (r: Option<([u8; 32], u8)>)
    ensures
        derived_eq(r, spec_tree_authority(program@, collection@)),
{
    let mut seeds: Vec<Vec<u8>> = Vec::new();
    seeds.push(tree_tag_bytes());
    seeds.push(vec_from_32(collection));
    proof {
        assert(seed_views(seeds@) =~~= seq![tree_seed_tag(), collection@]);
    }
    try_derive_address(&seeds, program)
}

/// Derives the escrow authority for the (collection, holder) pair under
/// `program`.
pub fn escrow_authority(
    program: &[u8; 32],
    collection: &[u8; 32],
    holder: &[u8; 32],
) -> (r: Option<([u8; 32], u8)>)
    ensures
        derived_eq(r, spec_escrow_authority(program@, collection@, holder@)),
{
    let mut seeds: Vec<Vec<u8>> = Vec::new();
    seeds.push(escrow_tag_bytes());
    seeds.push(vec_from_32(collection));
    seeds.push(vec_from_32(holder));
    proof {
        assert(seed_views(seeds@) =~~= seq![escrow_seed_tag(), collection@, holder@]);
    }
    try_derive_address(&seeds, program)
}

} // verus!
