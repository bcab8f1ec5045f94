//! Mathematical model of the staking ledger: the state, the transition of
//! each operation, and the state invariant. The executable ledger's contracts
//! say that each operation performs exactly the transition written here.

use vstd::prelude::*;
use crate::authority::{spec_escrow_authority, spec_tree_authority};
use crate::errors::StakingError;
use crate::hashing::keccak_of;

verus! {

/// One item (leaf) of a collection. An item is identified by its position,
/// not by an address of its own; its ownership is proven, never looked up.
#[verifier::ext_equal]
pub ghost struct ItemModel {
    pub owner: Seq<u8>,
    pub content_hash: Seq<u8>,
    pub attribution_hash: Seq<u8>,
    pub nonce: u64,
}

/// One collection: a commitment root, its capacity profile, the tree
/// authority bound at creation, and the items issued so far.
#[verifier::ext_equal]
pub ghost struct CollectionModel {
    pub id: Seq<u8>,
    pub tree_authority: Seq<u8>,
    pub root: Seq<u8>,
    pub max_depth: u32,
    pub max_buffer_size: u32,
    pub items: Seq<ItemModel>,
}

/// One staking record: while it exists, the item at `index` of `collection`
/// is owned by `escrow`, and only `owner` may reclaim it.
#[verifier::ext_equal]
pub ghost struct RecordModel {
    pub collection: Seq<u8>,
    pub owner: Seq<u8>,
    pub index: u32,
    pub escrow: Seq<u8>,
}

/// The whole ledger: the governing program identity, the collections it
/// mirrors, and the open staking records.
#[verifier::ext_equal]
pub ghost struct LedgerModel {
    pub program: Seq<u8>,
    pub collections: Seq<CollectionModel>,
    pub records: Seq<RecordModel>,
}

/// A membership proof: the commitment root it was taken against, the item's
/// two leaf hashes, its sequence nonce and its position.
#[verifier::ext_equal]
pub ghost struct ProofModel {
    pub root: Seq<u8>,
    pub content_hash: Seq<u8>,
    pub attribution_hash: Seq<u8>,
    pub nonce: u64,
    pub index: u32,
}

// ---------------------------------------------------------------------------
// Lookups
// ---------------------------------------------------------------------------

/// Position of the first element satisfying `p`, if any.
pub open spec fn find_first<T>(s: Seq<T>, p: spec_fn(T) -> bool) -> Option<int>
    decreases s.len(),
{
    if s.len() == 0 {
        None
    } else if p(s[0]) {
        Some(0int)
    } else {
        match find_first(s.drop_first(), p) {
            Some(i) => Some(i + 1),
            None => None,
        }
    }
}

/// What a `find_first` result means: a found position is the first match,
/// and `None` means no element matches.
pub proof fn lemma_find_first_props<T>(s: Seq<T>, p: spec_fn(T) -> bool)
    ensures
        match find_first(s, p) {
            Some(i) => 0 <= i < s.len() && p(s[i]) && (forall|j: int|
                0 <= j < i ==> !p(#[trigger] s[j])),
            None => forall|j: int| 0 <= j < s.len() ==> !p(#[trigger] s[j]),
        },
    decreases s.len(),
{
    if s.len() > 0 && !p(s[0]) {
        lemma_find_first_props(s.drop_first(), p);
        let rest = s.drop_first();
        assert(forall|j: int| 0 <= j < rest.len() ==> #[trigger] rest[j] == s[j + 1]);
        match find_first(rest, p) {
            Some(i) => {
                assert(p(s[i + 1]));
                assert forall|j: int| 0 <= j < i + 1 implies !p(#[trigger] s[j]) by {
                    if j > 0 {
                        assert(!p(rest[j - 1]));
                    }
                }
            }
            None => {
                assert forall|j: int| 0 <= j < s.len() implies !p(#[trigger] s[j]) by {
                    if j > 0 {
                        assert(!p(rest[j - 1]));
                    }
                }
            }
        }
    }
}

/// Appending an element does not disturb an earlier match; it is found
/// exactly when nothing before it matches and it does itself.
pub proof fn lemma_find_first_push<T>(s: Seq<T>, p: spec_fn(T) -> bool, x: T)
    ensures
        find_first(s.push(x), p) == (match find_first(s, p) {
            Some(i) => Some(i),
            None => if p(x) {
                Some(s.len() as int)
            } else {
                None::<int>
            },
        }),
    decreases s.len(),
{
    if s.len() == 0 {
        assert(s.push(x).len() == 1);
        assert(s.push(x)[0] == x);
        assert(find_first(s, p) is None);
        if p(x) {
            assert(find_first(s.push(x), p) == Some(0int));
        } else {
            assert(s.push(x).drop_first() =~= Seq::<T>::empty());
            assert(find_first(Seq::<T>::empty(), p) is None);
            assert(find_first(s.push(x), p) is None);
        }
    } else {
        assert(s.push(x)[0] == s[0]);
        assert(s.push(x).drop_first() =~= s.drop_first().push(x));
        lemma_find_first_push(s.drop_first(), p, x);
        if p(s[0]) {
            assert(find_first(s, p) == Some(0int));
            assert(find_first(s.push(x), p) == Some(0int));
        } else {
            match find_first(s.drop_first(), p) {
                Some(i) => {
                    assert(find_first(s, p) == Some(i + 1));
                    assert(find_first(s.drop_first().push(x), p) == Some(i));
                    assert(find_first(s.push(x), p) == Some(i + 1));
                }
                None => {
                    if p(x) {
                        assert(find_first(s.drop_first().push(x), p)
                            == Some(s.drop_first().len() as int));
                        assert(find_first(s.push(x), p) == Some(s.len() as int));
                    } else {
                        assert(find_first(s.drop_first().push(x), p) is None);
                        assert(find_first(s.push(x), p) is None);
                    }
                }
            }
        }
    }
}

/// Two sequences on which the predicate agrees pointwise are searched alike.
pub proof fn lemma_find_first_congruent<T>(s1: Seq<T>, s2: Seq<T>, p: spec_fn(T) -> bool)
    requires
        s1.len() == s2.len(),
        forall|j: int| 0 <= j < s1.len() ==> p(#[trigger] s1[j]) == p(#[trigger] s2[j]),
    ensures
        find_first(s1, p) == find_first(s2, p),
    decreases s1.len(),
{
    if s1.len() > 0 {
        assert(p(s1[0]) == p(s2[0]));
        assert(forall|j: int|
            0 <= j < s1.drop_first().len() ==> #[trigger] s1.drop_first()[j] == s1[j + 1]);
        assert(forall|j: int|
            0 <= j < s2.drop_first().len() ==> #[trigger] s2.drop_first()[j] == s2[j + 1]);
        lemma_find_first_congruent(s1.drop_first(), s2.drop_first(), p);
    }
}

/// A search succeeds exactly when some element matches.
pub proof fn lemma_find_first_exists<T>(s: Seq<T>, p: spec_fn(T) -> bool)
    ensures
        (find_first(s, p) is Some) == (exists|j: int| 0 <= j < s.len() && p(#[trigger] s[j])),
{
    lemma_find_first_props(s, p);
    if find_first(s, p) is None {
    } else {
        match find_first(s, p) {
            Some(i) => {
                assert(0 <= i < s.len() && p(s[i]));
            }
            None => {}
        }
    }
}

/// The predicate of a collection lookup by identifier.
pub open spec fn coll_pred(id: Seq<u8>) -> spec_fn(CollectionModel) -> bool {
    |c: CollectionModel| c.id == id
}

/// The predicate of a record lookup by (collection, original holder).
pub open spec fn holder_pred(collection: Seq<u8>, owner: Seq<u8>) -> spec_fn(RecordModel) -> bool {
    |r: RecordModel| r.collection == collection && r.owner == owner
}

/// The predicate of a record lookup by (collection, item position).
pub open spec fn item_pred(collection: Seq<u8>, index: u32) -> spec_fn(RecordModel) -> bool {
    |r: RecordModel| r.collection == collection && r.index == index
}

/// Position of the collection with identifier `id`.
pub open spec fn collection_index(m: LedgerModel, id: Seq<u8>) -> Option<int> {
    find_first(m.collections, coll_pred(id))
}

/// Whether the ledger governs a collection with identifier `id`.
pub open spec fn has_collection(m: LedgerModel, id: Seq<u8>) -> bool {
    collection_index(m, id) is Some
}

/// Position of the record for the (collection, holder) pair.
pub open spec fn holder_record_index(m: LedgerModel, collection: Seq<u8>, owner: Seq<u8>) -> Option<int> {
    find_first(m.records, holder_pred(collection, owner))
}

/// Position of the record holding the item at `index` of `collection`.
pub open spec fn item_record_index(m: LedgerModel, collection: Seq<u8>, index: u32) -> Option<int> {
    find_first(m.records, item_pred(collection, index))
}

/// The (collection, holder) pair is in the Staked state: a record exists.
pub open spec fn is_staked(m: LedgerModel, collection: Seq<u8>, holder: Seq<u8>) -> bool {
    holder_record_index(m, collection, holder) is Some
}

// ---------------------------------------------------------------------------
// Fixed issuance policy and commitment roots
// ---------------------------------------------------------------------------

/// The canonical encoding of the fixed default attribute bundle every item is
/// issued with: name "cNFT", content descriptor "https://c.nft", symbol
/// "cNFT", a sole attribution share of 100, a royalty rate of 500 basis
/// points (little endian), the mutability flag and the primary-sale flag.
pub open spec fn default_attr_encoding() -> Seq<u8> {
    seq![99u8, 78u8, 70u8, 84u8]
        + seq![104u8, 116u8, 116u8, 112u8, 115u8, 58u8, 47u8, 47u8, 99u8, 46u8, 110u8, 102u8, 116u8]
        + seq![99u8, 78u8, 70u8, 84u8]
        + seq![100u8]
        + seq![244u8, 1u8]
        + seq![1u8]
        + seq![1u8]
}

/// The content hash every item carries: the digest of the fixed bundle.
pub open spec fn default_content_hash() -> Seq<u8> {
    keccak_of(default_attr_encoding())
}

/// The attribution hash of an item whose sole creator is `creator` with a
/// share of 100.
pub open spec fn attribution_hash_of(creator: Seq<u8>) -> Seq<u8> {
    keccak_of(creator + seq![100u8])
}

/// The commitment root of a freshly initialized, empty collection.
pub open spec fn initial_root(id: Seq<u8>) -> Seq<u8> {
    keccak_of(id)
}

/// The commitment root after a mutation: the previous root chained with the
/// mutated leaf's hashes and its new owner.
pub open spec fn next_root(prev: Seq<u8>, content: Seq<u8>, attribution: Seq<u8>, owner: Seq<u8>) -> Seq<u8> {
    keccak_of(prev + content + attribution + owner)
}

/// The capacity profiles the storage collaborator supports.
pub open spec fn valid_capacity(max_depth: u32, max_buffer_size: u32) -> bool {
    1 <= max_depth <= 30 && 1 <= max_buffer_size <= 2048
}

/// How many items a collection of the given depth can hold.
pub open spec fn capacity_of(max_depth: u32) -> u64 {
    1u64 << (max_depth as u64)
}

/// Whether the proof attests the current state of the item it points at: it
/// carries the collection's current root, points inside the collection, and
/// repeats the item's leaf hashes and nonce.
pub open spec fn proof_matches(col: CollectionModel, p: ProofModel) -> bool {
    &&& p.root == col.root
    &&& (p.index as int) < col.items.len()
    &&& col.items[p.index as int].content_hash == p.content_hash
    &&& col.items[p.index as int].attribution_hash == p.attribution_hash
    &&& col.items[p.index as int].nonce == p.nonce
}

// ---------------------------------------------------------------------------
// Transitions
// ---------------------------------------------------------------------------

/// Creating a collection: refused while the capacity profile is unsupported
/// or the identifier is taken; otherwise the collection starts empty, with
/// its initial root and the tree authority derived from its identifier. A
/// failed derivation surfaces as `Unauthorized`.
pub open spec fn spec_create_collection(
    m: LedgerModel,
    id: Seq<u8>,
    max_depth: u32,
    max_buffer_size: u32,
) -> (LedgerModel, Result<(), StakingError>) {
    if !valid_capacity(max_depth, max_buffer_size) {
        (m, Err(StakingError::InvalidCapacity))
    } else if has_collection(m, id) {
        (m, Err(StakingError::AlreadyInitialized))
    } else {
        match spec_tree_authority(m.program, id) {
            None => (m, Err(StakingError::Unauthorized)),
            Some(auth) => (
                LedgerModel {
                    program: m.program,
                    collections: m.collections.push(CollectionModel {
                        id: id,
                        tree_authority: auth.0,
                        root: initial_root(id),
                        max_depth: max_depth,
                        max_buffer_size: max_buffer_size,
                        items: Seq::empty(),
                    }),
                    records: m.records,
                },
                Ok(()),
            ),
        }
    }
}

/// Issuing an item: the tree authority is re-derived and must match the one
/// bound at creation; the collection must have room. The new item goes to
/// `holder` with the fixed default attributes, and the root moves.
pub open spec fn spec_issue_item(
    m: LedgerModel,
    collection: Seq<u8>,
    holder: Seq<u8>,
) -> (LedgerModel, Result<(u32, u64), StakingError>) {
    match collection_index(m, collection) {
        None => (m, Err(StakingError::Unauthorized)),
        Some(ci) => {
            let col = m.collections[ci];
            match spec_tree_authority(m.program, collection) {
                None => (m, Err(StakingError::Unauthorized)),
                Some(auth) => {
                    if auth.0 != col.tree_authority {
                        (m, Err(StakingError::Unauthorized))
                    } else if col.items.len() >= capacity_of(col.max_depth) {
                        (m, Err(StakingError::CollectionFull))
                    } else {
                        let item = ItemModel {
                            owner: holder,
                            content_hash: default_content_hash(),
                            attribution_hash: attribution_hash_of(col.tree_authority),
                            nonce: col.items.len() as u64,
                        };
                        let new_col = CollectionModel {
                            id: col.id,
                            tree_authority: col.tree_authority,
                            root: next_root(col.root, item.content_hash, item.attribution_hash, holder),
                            max_depth: col.max_depth,
                            max_buffer_size: col.max_buffer_size,
                            items: col.items.push(item),
                        };
                        (
                            LedgerModel {
                                program: m.program,
                                collections: m.collections.update(ci, new_col),
                                records: m.records,
                            },
                            Ok(((col.items.len() as u32), (col.items.len() as u64))),
                        )
                    }
                }
            }
        }
    }
}

/// Staking: refused with `AlreadyStaked` while a record for the pair
/// exists; the proof must be fresh and the item must belong to the staker.
/// One corner remains for the invariant: an item that an open record already
/// holds can only be owned by that record's escrow identity, so a staker who
/// passes the ownership check there is the escrow itself, and the item-keyed
/// check refuses it as `AlreadyStaked`. On success the item moves to the
/// escrow authority derived from the pair, the root moves, and a record
/// opens. Both effects happen together or not at all.
pub open spec fn spec_stake(
    m: LedgerModel,
    collection: Seq<u8>,
    holder: Seq<u8>,
    p: ProofModel,
) -> (LedgerModel, Result<(), StakingError>) {
    match collection_index(m, collection) {
        None => (m, Err(StakingError::Unauthorized)),
        Some(ci) => {
            let col = m.collections[ci];
            if holder_record_index(m, collection, holder) is Some {
                (m, Err(StakingError::AlreadyStaked))
            } else if !proof_matches(col, p) {
                (m, Err(StakingError::StaleProof))
            } else if col.items[p.index as int].owner != holder {
                (m, Err(StakingError::NotOwner))
            } else if item_record_index(m, collection, p.index) is Some {
                (m, Err(StakingError::AlreadyStaked))
            } else {
                match spec_escrow_authority(m.program, collection, holder) {
                    None => (m, Err(StakingError::Unauthorized)),
                    Some(esc) => {
                        let item = col.items[p.index as int];
                        let new_item = ItemModel {
                            owner: esc.0,
                            content_hash: item.content_hash,
                            attribution_hash: item.attribution_hash,
                            nonce: item.nonce,
                        };
                        let new_col = CollectionModel {
                            id: col.id,
                            tree_authority: col.tree_authority,
                            root: next_root(col.root, item.content_hash, item.attribution_hash, esc.0),
                            max_depth: col.max_depth,
                            max_buffer_size: col.max_buffer_size,
                            items: col.items.update(p.index as int, new_item),
                        };
                        (
                            LedgerModel {
                                program: m.program,
                                collections: m.collections.update(ci, new_col),
                                records: m.records.push(RecordModel {
                                    collection: collection,
                                    owner: holder,
                                    index: p.index,
                                    escrow: esc.0,
                                }),
                            },
                            Ok(()),
                        )
                    }
                }
            }
        }
    }
}

/// Unstaking: the record is found through the item the proof points at;
/// authorization is checked against the record, not the proof. On success
/// the item returns to the recorded holder, the root moves, and the record
/// closes. Both effects happen together or not at all.
pub open spec fn spec_unstake(
    m: LedgerModel,
    collection: Seq<u8>,
    caller: Seq<u8>,
    p: ProofModel,
) -> (LedgerModel, Result<(), StakingError>) {
    match collection_index(m, collection) {
        None => (m, Err(StakingError::Unauthorized)),
        Some(ci) => {
            let col = m.collections[ci];
            match item_record_index(m, collection, p.index) {
                None => (m, Err(StakingError::NoActiveStake)),
                Some(ri) => {
                    let rec = m.records[ri];
                    if rec.owner != caller {
                        (m, Err(StakingError::NotStaker))
                    } else if !proof_matches(col, p) {
                        (m, Err(StakingError::StaleProof))
                    } else {
                        let item = col.items[p.index as int];
                        let new_item = ItemModel {
                            owner: rec.owner,
                            content_hash: item.content_hash,
                            attribution_hash: item.attribution_hash,
                            nonce: item.nonce,
                        };
                        let new_col = CollectionModel {
                            id: col.id,
                            tree_authority: col.tree_authority,
                            root: next_root(col.root, item.content_hash, item.attribution_hash, rec.owner),
                            max_depth: col.max_depth,
                            max_buffer_size: col.max_buffer_size,
                            items: col.items.update(p.index as int, new_item),
                        };
                        (
                            LedgerModel {
                                program: m.program,
                                collections: m.collections.update(ci, new_col),
                                records: m.records.remove(ri),
                            },
                            Ok(()),
                        )
                    }
                }
            }
        }
    }
}

// ---------------------------------------------------------------------------
// Invariant
// ---------------------------------------------------------------------------

/// A collection's own well-formedness: its capacity profile is supported.
pub open spec fn collection_ok(c: CollectionModel) -> bool {
    valid_capacity(c.max_depth, c.max_buffer_size)
}

/// A record's binding: its collection exists, its item exists, and the item
/// is owned by the record's escrow authority.
pub open spec fn record_ok(m: LedgerModel, r: RecordModel) -> bool {
    match collection_index(m, r.collection) {
        None => false,
        Some(ci) => {
            &&& (r.index as int) < m.collections[ci].items.len()
            &&& m.collections[ci].items[r.index as int].owner == r.escrow
        }
    }
}

/// No two records share a pair or an item.
pub open spec fn records_distinct(a: RecordModel, b: RecordModel) -> bool {
    a.collection == b.collection ==> a.owner != b.owner && a.index != b.index
}

/// The ledger invariant: collection identifiers are unique, capacity
/// profiles are supported, every record is bound to an existing, escrowed
/// item, and records are unique per pair and per item.
pub open spec fn inv(m: LedgerModel) -> bool {
    &&& forall|i: int, j: int|
        0 <= i < m.collections.len() && 0 <= j < m.collections.len() && i != j
            ==> (#[trigger] m.collections[i]).id != (#[trigger] m.collections[j]).id
    &&& forall|i: int| 0 <= i < m.collections.len() ==> collection_ok(#[trigger] m.collections[i])
    &&& forall|i: int| 0 <= i < m.records.len() ==> record_ok(m, #[trigger] m.records[i])
    &&& forall|i: int, j: int|
        0 <= i < m.records.len() && 0 <= j < m.records.len() && i != j
            ==> records_distinct(#[trigger] m.records[i], #[trigger] m.records[j])
}

} // verus!
