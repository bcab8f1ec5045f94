//! The executable staking ledger. Each operation's contract says that it
//! performs exactly the transition of `model` on the ledger's view, and that
//! it preserves the ledger invariant.

use vstd::prelude::*;
use crate::authority::{escrow_authority, tree_authority};
use crate::errors::StakingError;
use crate::hashing::keccak_bytes;
use crate::laws::{
    lemma_create_preserves_inv, lemma_issue_preserves_inv, lemma_stake_preserves_inv,
    lemma_unstake_preserves_inv,
};
use crate::model::{
    coll_pred, collection_index, collection_ok, default_attr_encoding, has_collection,
    holder_pred, holder_record_index, inv, is_staked, item_pred, item_record_index,
    lemma_find_first_props, proof_matches, spec_create_collection, spec_issue_item, spec_stake,
    spec_unstake, CollectionModel, ItemModel, LedgerModel, ProofModel, RecordModel,
};
use crate::util::{eq32, push_bytes32, vec_from_32};

verus! {

/// A membership proof, exactly as the external indexer hands it out: the
/// commitment root it was taken against, the item's two leaf hashes, its
/// sequence nonce and its position.
pub struct MembershipProof {
    pub root: [u8; 32],
    pub content_hash: [u8; 32],
    pub attribution_hash: [u8; 32],
    pub nonce: u64,
    pub index: u32,
}

impl View for MembershipProof {
    type V = ProofModel;

    open spec fn view(&self) -> ProofModel {
        ProofModel {
            root: self.root@,
            content_hash: self.content_hash@,
            attribution_hash: self.attribution_hash@,
            nonce: self.nonce,
            index: self.index,
        }
    }
}

/// One item of a collection.
pub struct Item {
    pub(crate) owner: [u8; 32],
    pub(crate) content_hash: [u8; 32],
    pub(crate) attribution_hash: [u8; 32],
    pub(crate) nonce: u64,
}

impl View for Item {
    type V = ItemModel;

    closed spec fn view(&self) -> ItemModel {
        ItemModel {
            owner: self.owner@,
            content_hash: self.content_hash@,
            attribution_hash: self.attribution_hash@,
            nonce: self.nonce,
        }
    }
}

/// One collection and the items issued into it.
pub struct Collection {
    pub(crate) id: [u8; 32],
    pub(crate) tree_authority: [u8; 32],
    pub(crate) root: [u8; 32],
    pub(crate) max_depth: u32,
    pub(crate) max_buffer_size: u32,
    pub(crate) items: Vec<Item>,
}

impl View for Collection {
    type V = CollectionModel;

    closed spec fn view(&self) -> CollectionModel {
        CollectionModel {
            id: self.id@,
            tree_authority: self.tree_authority@,
            root: self.root@,
            max_depth: self.max_depth,
            max_buffer_size: self.max_buffer_size,
            items: self.items@.map_values(|it: Item| it@),
        }
    }
}

/// One open staking record.
pub struct StakingRecord {
    pub(crate) collection: [u8; 32],
    pub(crate) owner: [u8; 32],
    pub(crate) index: u32,
    pub(crate) escrow: [u8; 32],
}

impl View for StakingRecord {
    type V = RecordModel;

    closed spec fn view(&self) -> RecordModel {
        RecordModel {
            collection: self.collection@,
            owner: self.owner@,
            index: self.index,
            escrow: self.escrow@,
        }
    }
}

/// The staking ledger of one program identity.
pub struct Ledger {
    program: [u8; 32],
    collections: Vec<Collection>,
    records: Vec<StakingRecord>,
}

impl View for Ledger {
    type V = LedgerModel;

    closed spec fn view(&self) -> LedgerModel {
        LedgerModel {
            program: self.program@,
            collections: self.collections@.map_values(|c: Collection| c@),
            records: self.records@.map_values(|r: StakingRecord| r@),
        }
    }
}

/// The fixed default attribute bundle, in its canonical byte encoding.
pub fn default_attr_bytes() -> (r: Vec<u8>)
    ensures
        r@ == default_attr_encoding(),
{
    let mut v: Vec<u8> = Vec::new();
    v.push(99);
    v.push(78);
    v.push(70);
    v.push(84);
    v.push(104);
    v.push(116);
    v.push(116);
    v.push(112);
    v.push(115);
    v.push(58);
    v.push(47);
    v.push(47);
    v.push(99);
    v.push(46);
    v.push(110);
    v.push(102);
    v.push(116);
    v.push(99);
    v.push(78);
    v.push(70);
    v.push(84);
    v.push(100);
    v.push(244);
    v.push(1);
    v.push(1);
    v.push(1);
    proof {
        assert(v@ =~= default_attr_encoding());
    }
    v
}

impl Ledger {
    /// The ledger invariant, as a property of this value's view.
    pub open spec fn wf(&self) -> bool {
        inv(self@)
    }

    /// A fresh, empty ledger governed by `program`.
    pub fn new(program: [u8; 32]) -> (r: Ledger)
        ensures
            r.wf(),
            r@.program == program@,
            r@.collections == Seq::<CollectionModel>::empty(),
            r@.records == Seq::<RecordModel>::empty(),
    {
        let r = Ledger { program, collections: Vec::new(), records: Vec::new() };
        proof {
            assert(r@.collections =~= Seq::<CollectionModel>::empty());
            assert(r@.records =~= Seq::<RecordModel>::empty());
        }
        r
    }

    /// The governing program identity.
    pub fn program_id(&self) -> (r: [u8; 32])
        ensures
            r@ == self@.program,
    {
        self.program
    }

    /// Position of the collection with this identifier, if the ledger
    /// governs one.
    fn find_collection(&self, id: &[u8; 32]) -> (r: Option<usize>)
        ensures
            match r {
                Some(i) => i < self.collections@.len() && collection_index(self@, id@) == Some(
                    i as int,
                ),
                None => collection_index(self@, id@) is None,
            },
    {
        let n = self.collections.len();
        let mut i: usize = 0;
        while i < n
            invariant
                n == self.collections@.len(),
                i <= n,
                forall|j: int| 0 <= j < i ==> !coll_pred(id@)((#[trigger] self@.collections[j])),
            decreases n - i,
        {
            if eq32(&self.collections[i].id, id) {
                proof {
                    lemma_find_first_props(self@.collections, coll_pred(id@));
                    assert(coll_pred(id@)(self@.collections[i as int]));
                }
                return Some(i);
            }
            i += 1;
        }
        proof {
            lemma_find_first_props(self@.collections, coll_pred(id@));
        }
        None
    }

    /// Position of the record for the (collection, holder) pair, if open.
    fn find_holder_record(&self, collection: &[u8; 32], owner: &[u8; 32]) -> (r: Option<usize>)
        ensures
            match r {
                Some(i) => i < self.records@.len() && holder_record_index(
                    self@,
                    collection@,
                    owner@,
                ) == Some(i as int),
                None => holder_record_index(self@, collection@, owner@) is None,
            },
    {
        let n = self.records.len();
        let mut i: usize = 0;
        while i < n
            invariant
                n == self.records@.len(),
                i <= n,
                forall|j: int|
                    0 <= j < i ==> !holder_pred(collection@, owner@)(
                        (#[trigger] self@.records[j]),
                    ),
            decreases n - i,
        {
            if eq32(&self.records[i].collection, collection) && eq32(&self.records[i].owner, owner) {
                proof {
                    lemma_find_first_props(self@.records, holder_pred(collection@, owner@));
                    assert(holder_pred(collection@, owner@)(self@.records[i as int]));
                }
                return Some(i);
            }
            i += 1;
        }
        proof {
            lemma_find_first_props(self@.records, holder_pred(collection@, owner@));
        }
        None
    }

    /// Position of the record holding the item at `index`, if open.
    fn find_item_record(&self, collection: &[u8; 32], index: u32) -> (r: Option<usize>)
        ensures
            match r {
                Some(i) => i < self.records@.len() && item_record_index(
                    self@,
                    collection@,
                    index,
                ) == Some(i as int),
                None => item_record_index(self@, collection@, index) is None,
            },
    {
        let n = self.records.len();
        let mut i: usize = 0;
        while i < n
            invariant
                n == self.records@.len(),
                i <= n,
                forall|j: int|
                    0 <= j < i ==> !item_pred(collection@, index)((#[trigger] self@.records[j])),
            decreases n - i,
        {
            if eq32(&self.records[i].collection, collection) && self.records[i].index == index {
                proof {
                    lemma_find_first_props(self@.records, item_pred(collection@, index));
                    assert(item_pred(collection@, index)(self@.records[i as int]));
                }
                return Some(i);
            }
            i += 1;
        }
        proof {
            lemma_find_first_props(self@.records, item_pred(collection@, index));
        }
        None
    }

    /// Whether the ledger governs a collection with this identifier.
    pub fn contains_collection(&self, id: &[u8; 32]) -> (r: bool)
        ensures
            r == has_collection(self@, id@),
    {
        self.find_collection(id).is_some()
    }

    /// The collection's current commitment root.
    pub fn collection_root(&self, id: &[u8; 32]) -> (r: Option<[u8; 32]>)
        ensures
            match (r, collection_index(self@, id@)) {
                (Some(root), Some(ci)) => root@ == self@.collections[ci].root,
                (None, None) => true,
                _ => false,
            },
    {
        match self.find_collection(id) {
            Some(i) => Some(self.collections[i].root),
            None => None,
        }
    }

    /// The current owner of the item at `index` of the collection.
    pub fn item_owner(&self, id: &[u8; 32], index: u32) -> (r: Option<[u8; 32]>)
        ensures
            match (r, collection_index(self@, id@)) {
                (Some(o), Some(ci)) => (index as int) < self@.collections[ci].items.len()
                    && o@ == self@.collections[ci].items[index as int].owner,
                (None, Some(ci)) => (index as int) >= self@.collections[ci].items.len(),
                (None, None) => true,
                (Some(o), None) => false,
            },
    {
        match self.find_collection(id) {
            Some(i) => {
                if (index as usize) < self.collections[i].items.len() {
                    Some(self.collections[i].items[index as usize].owner)
                } else {
                    None
                }
            }
            None => None,
        }
    }

    /// A fresh membership proof for the item at `index`: its current leaf
    /// values attested against the collection's current root.
    pub fn item_proof(&self, id: &[u8; 32], index: u32) -> (r: Option<MembershipProof>)
        ensures
            match (r, collection_index(self@, id@)) {
                (Some(p), Some(ci)) => {
                    &&& (index as int) < self@.collections[ci].items.len()
                    &&& p@.root == self@.collections[ci].root
                    &&& p@.content_hash == self@.collections[ci].items[index as int].content_hash
                    &&& p@.attribution_hash == self@.collections[ci].items[
                        index as int
                    ].attribution_hash
                    &&& p@.nonce == self@.collections[ci].items[index as int].nonce
                    &&& p@.index == index
                    &&& proof_matches(self@.collections[ci], p@)
                },
                (None, Some(ci)) => (index as int) >= self@.collections[ci].items.len(),
                (None, None) => true,
                (Some(p), None) => false,
            },
    {
        match self.find_collection(id) {
            Some(i) => {
                if (index as usize) < self.collections[i].items.len() {
                    let it = &self.collections[i].items[index as usize];
                    Some(MembershipProof {
                        root: self.collections[i].root,
                        content_hash: it.content_hash,
                        attribution_hash: it.attribution_hash,
                        nonce: it.nonce,
                        index,
                    })
                } else {
                    None
                }
            }
            None => None,
        }
    }

    /// Whether the (collection, holder) pair is currently staked.
    pub fn is_staked_pair(&self, collection: &[u8; 32], holder: &[u8; 32]) -> (r: bool)
        ensures
            r == is_staked(self@, collection@, holder@),
    {
        self.find_holder_record(collection, holder).is_some()
    }

    /// Creates a new, empty collection with the chosen capacity profile and
    /// binds it to the tree authority derived from its identifier. Fails
    /// with `InvalidCapacity` outside the supported range, with
    /// `AlreadyInitialized` if the identifier is taken, and with
    /// `Unauthorized` if no tree authority can be derived; on any failure
    /// the ledger is unchanged.
    pub fn create_collection(&mut self, id: &[u8; 32], max_depth: u32, max_buffer_size: u32) -> (r:
        Result<(), StakingError>)
        requires
            old(self).wf(),
        ensures
            final(self).wf(),
            (final(self)@, r) == spec_create_collection(old(self)@, id@, max_depth, max_buffer_size),
    {
        let ghost pre = self@;
        if !(1 <= max_depth && max_depth <= 30 && 1 <= max_buffer_size && max_buffer_size <= 2048) {
            return Err(StakingError::InvalidCapacity);
        }
        if self.find_collection(id).is_some() {
            return Err(StakingError::AlreadyInitialized);
        }
        let auth = match tree_authority(&self.program, id) {
            None => {
                return Err(StakingError::Unauthorized);
            }
            Some(ab) => ab.0,
        };
        let root = keccak_bytes(&vec_from_32(id));
        self.collections.push(Collection {
            id: *id,
            tree_authority: auth,
            root,
            max_depth,
            max_buffer_size,
            items: Vec::new(),
        });
        proof {
            let target = spec_create_collection(pre, id@, max_depth, max_buffer_size);
            assert(target.1 == Ok::<(), StakingError>(()));
            assert(self@.collections[pre.collections.len() as int].items
                =~= Seq::<ItemModel>::empty());
            assert(self@.collections =~~= target.0.collections);
            assert(self@.records =~~= target.0.records);
            assert(self@ =~~= target.0);
            lemma_create_preserves_inv(pre, id@, max_depth, max_buffer_size);
        }
        Ok(())
    }

    /// Issues a new item into the collection under the tree authority's
    /// delegated signing right, giving it to `holder` with the fixed default
    /// attributes, and returns the item's position and nonce. Fails with
    /// `Unauthorized` if the re-derived tree authority does not match the
    /// bound one and with `CollectionFull` when capacity is exhausted; on
    /// any failure the ledger is unchanged.
    pub fn issue_item(&mut self, collection: &[u8; 32], holder: &[u8; 32]) -> (r: Result<
        (u32, u64),
        StakingError,
    >)
        requires
            old(self).wf(),
            has_collection(old(self)@, collection@),
        ensures
            final(self).wf(),
            (final(self)@, r) == spec_issue_item(old(self)@, collection@, holder@),
    {
        let ghost pre = self@;
        let ci = match self.find_collection(collection) {
            Some(i) => i,
            None => {
                proof {
                    assert(false);
                }
                return Err(StakingError::Unauthorized);
            }
        };
        let auth = match tree_authority(&self.program, collection) {
            None => {
                return Err(StakingError::Unauthorized);
            }
            Some(ab) => ab.0,
        };
        if !eq32(&auth, &self.collections[ci].tree_authority) {
            return Err(StakingError::Unauthorized);
        }
        proof {
            assert(collection_ok(pre.collections[ci as int]));
        }
        let depth = self.collections[ci].max_depth;
        let cap: u64 = 1u64 << (depth as u64);
        let len = self.collections[ci].items.len();
        if (len as u64) >= cap {
            return Err(StakingError::CollectionFull);
        }
        proof {
            let dd = depth as u64;
            assert(dd <= 30 ==> (1u64 << dd) <= 0x40000000u64) by (bit_vector);
        }
        let index32: u32 = len as u32;
        let nonce: u64 = len as u64;
        let attrs = default_attr_bytes();
        let content = keccak_bytes(&attrs);
        let mut abuf = vec_from_32(&auth);
        abuf.push(100);
        let attribution = keccak_bytes(&abuf);
        let mut rbuf = vec_from_32(&self.collections[ci].root);
        push_bytes32(&mut rbuf, &content);
        push_bytes32(&mut rbuf, &attribution);
        push_bytes32(&mut rbuf, holder);
        let new_root = keccak_bytes(&rbuf);
        let mut col = self.collections.remove(ci);
        col.items.push(Item {
            owner: *holder,
            content_hash: content,
            attribution_hash: attribution,
            nonce,
        });
        col.root = new_root;
        self.collections.insert(ci, col);
        proof {
            let target = spec_issue_item(pre, collection@, holder@);
            assert(abuf@ =~= pre.collections[ci as int].tree_authority + seq![100u8]);
            assert(rbuf@ =~= pre.collections[ci as int].root
                + crate::model::default_content_hash()
                + crate::model::attribution_hash_of(pre.collections[ci as int].tree_authority)
                + holder@);
            assert(target.1 == Ok::<(u32, u64), StakingError>((index32, nonce)));
            assert(self@.collections =~~= target.0.collections);
            assert(self@.records =~~= target.0.records);
            assert(self@ =~~= target.0);
            lemma_issue_preserves_inv(pre, collection@, holder@);
        }
        Ok((index32, nonce))
    }

    /// Stakes the item the proof points at: verifies the proof against the
    /// collection's current root, moves the item's ownership from `holder`
    /// to the escrow authority derived from (collection, holder), and opens
    /// the staking record that entitles `holder` to reverse the move — both
    /// effects together or not at all. Fails with `AlreadyStaked` if a
    /// record for the pair is open, with `StaleProof` if the proof does not
    /// attest the item's current state, with `NotOwner` if the item is not
    /// held by `holder`, with `AlreadyStaked` again in the one corner where
    /// `holder` is itself the escrow identity an open record holds the item
    /// under, and with `Unauthorized` if no escrow authority can be derived;
    /// on any failure the ledger is unchanged.
    pub fn stake(&mut self, collection: &[u8; 32], holder: &[u8; 32], p: &MembershipProof) -> (r:
        Result<(), StakingError>)
        requires
            old(self).wf(),
            has_collection(old(self)@, collection@),
        ensures
            final(self).wf(),
            (final(self)@, r) == spec_stake(old(self)@, collection@, holder@, p@),
    {
        let ghost pre = self@;
        let ci = match self.find_collection(collection) {
            Some(i) => i,
            None => {
                proof {
                    assert(false);
                }
                return Err(StakingError::Unauthorized);
            }
        };
        if self.find_holder_record(collection, holder).is_some() {
            return Err(StakingError::AlreadyStaked);
        }
        if (p.index as usize) >= self.collections[ci].items.len() {
            return Err(StakingError::StaleProof);
        }
        let ii: usize = p.index as usize;
        if !eq32(&p.root, &self.collections[ci].root) {
            return Err(StakingError::StaleProof);
        }
        if !eq32(&p.content_hash, &self.collections[ci].items[ii].content_hash) {
            return Err(StakingError::StaleProof);
        }
        if !eq32(&p.attribution_hash, &self.collections[ci].items[ii].attribution_hash) {
            return Err(StakingError::StaleProof);
        }
        if p.nonce != self.collections[ci].items[ii].nonce {
            return Err(StakingError::StaleProof);
        }
        proof {
            assert(proof_matches(pre.collections[ci as int], p@));
        }
        if !eq32(&self.collections[ci].items[ii].owner, holder) {
            return Err(StakingError::NotOwner);
        }
        if self.find_item_record(collection, p.index).is_some() {
            return Err(StakingError::AlreadyStaked);
        }
        let esc = match escrow_authority(&self.program, collection, holder) {
            None => {
                return Err(StakingError::Unauthorized);
            }
            Some(ab) => ab.0,
        };
        let mut rbuf = vec_from_32(&self.collections[ci].root);
        push_bytes32(&mut rbuf, &self.collections[ci].items[ii].content_hash);
        push_bytes32(&mut rbuf, &self.collections[ci].items[ii].attribution_hash);
        push_bytes32(&mut rbuf, &esc);
        let new_root = keccak_bytes(&rbuf);
        let mut col = self.collections.remove(ci);
        let mut item = col.items.remove(ii);
        item.owner = esc;
        col.items.insert(ii, item);
        col.root = new_root;
        self.collections.insert(ci, col);
        self.records.push(StakingRecord {
            collection: *collection,
            owner: *holder,
            index: p.index,
            escrow: esc,
        });
        proof {
            let target = spec_stake(pre, collection@, holder@, p@);
            let olditem = pre.collections[ci as int].items[ii as int];
            assert(rbuf@ =~= pre.collections[ci as int].root + olditem.content_hash
                + olditem.attribution_hash + esc@);
            assert(target.1 == Ok::<(), StakingError>(()));
            assert(self@.collections =~~= target.0.collections);
            assert(self@.records =~~= target.0.records);
            assert(self@ =~~= target.0);
            lemma_stake_preserves_inv(pre, collection@, holder@, p@);
        }
        Ok(())
    }

    /// Unstakes the item the proof points at: finds the open staking record
    /// through the item, checks the caller against the record — persisted
    /// state, not the proof, decides who may reclaim — verifies the proof
    /// against the current root, returns the item to the recorded holder
    /// signing as the escrow authority, and closes the record — both
    /// effects together or not at all. Fails with `NoActiveStake` if no
    /// record holds the item, with `NotStaker` if the caller is not the
    /// recorded holder, and with `StaleProof` if the proof does not attest
    /// the item's current state; on any failure the ledger is unchanged.
    pub fn unstake(&mut self, collection: &[u8; 32], caller: &[u8; 32], p: &MembershipProof) -> (r:
        Result<(), StakingError>)
        requires
            old(self).wf(),
            has_collection(old(self)@, collection@),
        ensures
            final(self).wf(),
            (final(self)@, r) == spec_unstake(old(self)@, collection@, caller@, p@),
    {
        let ghost pre = self@;
        let ci = match self.find_collection(collection) {
            Some(i) => i,
            None => {
                proof {
                    assert(false);
                }
                return Err(StakingError::Unauthorized);
            }
        };
        let ri = match self.find_item_record(collection, p.index) {
            None => {
                return Err(StakingError::NoActiveStake);
            }
            Some(i) => i,
        };
        let rec_owner = self.records[ri].owner;
        if !eq32(&rec_owner, caller) {
            return Err(StakingError::NotStaker);
        }
        if (p.index as usize) >= self.collections[ci].items.len() {
            return Err(StakingError::StaleProof);
        }
        let ii: usize = p.index as usize;
        if !eq32(&p.root, &self.collections[ci].root) {
            return Err(StakingError::StaleProof);
        }
        if !eq32(&p.content_hash, &self.collections[ci].items[ii].content_hash) {
            return Err(StakingError::StaleProof);
        }
        if !eq32(&p.attribution_hash, &self.collections[ci].items[ii].attribution_hash) {
            return Err(StakingError::StaleProof);
        }
        if p.nonce != self.collections[ci].items[ii].nonce {
            return Err(StakingError::StaleProof);
        }
        proof {
            assert(proof_matches(pre.collections[ci as int], p@));
        }
        let mut rbuf = vec_from_32(&self.collections[ci].root);
        push_bytes32(&mut rbuf, &self.collections[ci].items[ii].content_hash);
        push_bytes32(&mut rbuf, &self.collections[ci].items[ii].attribution_hash);
        push_bytes32(&mut rbuf, &rec_owner);
        let new_root = keccak_bytes(&rbuf);
        let mut col = self.collections.remove(ci);
        let mut item = col.items.remove(ii);
        item.owner = rec_owner;
        col.items.insert(ii, item);
        col.root = new_root;
        self.collections.insert(ci, col);
        self.records.remove(ri);
        proof {
            let target = spec_unstake(pre, collection@, caller@, p@);
            let olditem = pre.collections[ci as int].items[ii as int];
            assert(rbuf@ =~= pre.collections[ci as int].root + olditem.content_hash
                + olditem.attribution_hash + pre.records[ri as int].owner);
            assert(target.1 == Ok::<(), StakingError>(()));
            assert(self@.collections =~~= target.0.collections);
            assert(self@.records =~~= target.0.records);
            assert(self@ =~~= target.0);
            lemma_unstake_preserves_inv(pre, collection@, caller@, p@);
        }
        Ok(())
    }

    /// The identity recorded as entitled to reclaim the item at `index`.
    pub fn record_owner(&self, collection: &[u8; 32], index: u32) -> (r: Option<[u8; 32]>)
        ensures
            match (r, item_record_index(self@, collection@, index)) {
                (Some(o), Some(ri)) => o@ == self@.records[ri].owner,
                (None, None) => true,
                _ => false,
            },
    {
        match self.find_item_record(collection, index) {
            Some(i) => Some(self.records[i].owner),
            None => None,
        }
    }
}

} // verus!
