//! The building blocks of sparse Merkle trees: inner nodes, leaf indices and
//! the changes that an update makes.

use std::collections::BTreeMap;
use vstd::prelude::*;
use crate::merkle::{merge_digest, MerkleError};
use crate::merkle::index::{NodeIndex, index_valid};
use crate::rescue::digest::RpoDigest;
use crate::rescue::rpo::Rpo256;
use crate::rescue::digest::{digest_bytes_spec, read_felts_spec, ReadFailure};
use crate::utils::bytes::{DeserializationError, SliceReader, write_u8};

verus! {

/// The least depth of a sparse Merkle tree.
pub const SMT_MIN_DEPTH: u8 = 1;
/// The greatest depth of a sparse Merkle tree.
pub const SMT_MAX_DEPTH: u8 = 64;

/// An inner node by its two children.
#[derive(Debug, Clone, Copy, PartialEq, Eq)]
pub struct InnerNode {
    pub left: RpoDigest,
    pub right: RpoDigest,
}

impl InnerNode {
    /// The digest of the node: its children merged.
    pub fn hash(self) -> (r: RpoDigest)
        ensures
            r@ == merge_digest(self.left@, self.right@),
    {
        Rpo256::merge(&[self.left, self.right])
    }
}

/// Reading two digests one after the other at `pos`.
pub open spec fn read_two_digests(data: Seq<u8>, pos: int) -> Result<(Seq<nat>, Seq<nat>), ReadFailure> {
    match read_felts_spec(data, pos, 4) {
        Err(e) => Err(e),
        Ok(a) => match read_felts_spec(data, pos + 32, 4) {
            Err(e) => Err(e),
            Ok(b) => Ok((a, b)),
        },
    }
}

/// Whether a read of an inner node agrees with [`read_two_digests`].
pub open spec fn inner_read_matches(r: Result<InnerNode, DeserializationError>, s: Result<(Seq<nat>, Seq<nat>), ReadFailure>) -> bool {
    match s {
        Ok((a, b)) => r matches Ok(n) && n.left@ == a && n.right@ == b,
        Err(ReadFailure::Eof) => r == Err::<InnerNode, DeserializationError>(DeserializationError::UnexpectedEOF),
        Err(ReadFailure::OutOfRange) => r matches Err(DeserializationError::InvalidValue(_)),
    }
}

/// The message of a decoding error for a byte that is not a boolean.
#[verifier::external_body]
fn not_boolean_message(byte: u8) -> String {
    format!("{byte} is not a boolean value")
}

impl InnerNode {
    /// Appends the left child, then the right one.
    pub fn write_into(&self, target: &mut Vec<u8>)
        ensures
            final(target)@ == old(target)@ + digest_bytes_spec(self.left@) + digest_bytes_spec(self.right@),
    {
        self.left.write_into(target);
        self.right.write_into(target);
        assert(final(target)@ =~= old(target)@ + digest_bytes_spec(self.left@) + digest_bytes_spec(self.right@));
    }

    /// Reads a left child, then a right one.
    pub fn read_from(source: &mut SliceReader) -> (r: Result<InnerNode, DeserializationError>)
        requires
            old(source).wf(),
        ensures
            final(source).wf(),
            final(source).data() == old(source).data(),
            inner_read_matches(r, read_two_digests(old(source).data(), old(source).position() as int)),
            r is Ok ==> final(source).position() == old(source).position() + 64,
    {
        let ghost data = source.data();
        let ghost pos = source.position() as int;
        let left = match RpoDigest::read_from(source) {
            Ok(d) => d,
            Err(e) => return Err(e),
        };
        let right = match RpoDigest::read_from(source) {
            Ok(d) => d,
            Err(e) => return Err(e),
        };
        Ok(InnerNode { left, right })
    }
}

impl NodeMutation {
    /// Appends `0` for a removal, `1` and the node for an addition.
    pub fn write_into(&self, target: &mut Vec<u8>)
        ensures
            self is Removal ==> final(target)@ == old(target)@.push(0u8),
            self matches NodeMutation::Addition(n) ==> final(target)@ == old(target)@.push(1u8)
                + digest_bytes_spec(n.left@) + digest_bytes_spec(n.right@),
    {
        match self {
            NodeMutation::Removal => write_u8(target, 0),
            NodeMutation::Addition(n) => {
                write_u8(target, 1);
                n.write_into(target);
            },
        }
    }

    /// Reads a flag byte, then for `1` the node of an addition; another flag
    /// than `0` or `1` is an error.
    pub fn read_from(source: &mut SliceReader) -> (r: Result<NodeMutation, DeserializationError>)
        requires
            old(source).wf(),
        ensures
            final(source).wf(),
            final(source).data() == old(source).data(),
            old(source).position() >= old(source).data().len() ==> r == Err::<NodeMutation, DeserializationError>(
                DeserializationError::UnexpectedEOF),
            old(source).position() < old(source).data().len() ==> {
                let b = old(source).data()[old(source).position() as int];
                &&& b == 0 ==> r == Ok::<NodeMutation, DeserializationError>(NodeMutation::Removal)
                &&& b == 1 ==> inner_read_matches(
                    match r { Ok(m) => Ok(m->Addition_0), Err(e) => Err(e) },
                    read_two_digests(old(source).data(), old(source).position() + 1int))
                &&& b == 1 && r is Ok ==> r->Ok_0 is Addition
                &&& b > 1 ==> r matches Err(DeserializationError::InvalidValue(_))
            },
    {
        let b = match source.read_u8() {
            Ok(b) => b,
            Err(e) => return Err(e),
        };
        if b == 0 {
            Ok(NodeMutation::Removal)
        } else if b == 1 {
            match InnerNode::read_from(source) {
                Ok(n) => Ok(NodeMutation::Addition(n)),
                Err(e) => Err(e),
            }
        } else {
            Err(DeserializationError::InvalidValue(not_boolean_message(b)))
        }
    }
}

/// The index of a leaf of a sparse Merkle tree of depth `DEPTH`.
#[derive(Debug, Clone, Copy)]
pub struct LeafIndex<const DEPTH: u8> {
    index: NodeIndex,
}

impl<const DEPTH: u8> LeafIndex<DEPTH> {
    /// A leaf index sits at depth `DEPTH`, at a position that fits in it.
    #[verifier::type_invariant]
    closed spec fn inv(self) -> bool {
        self.index@.0 == DEPTH && index_valid(DEPTH as nat, self.index@.1)
    }

    /// The depth and position of the leaf.
    pub closed spec fn index_spec(&self) -> (nat, nat) {
        self.index@
    }

    /// The leaf at `value`; the depth must be at least one, and `value` below `2^DEPTH`.
    pub fn new(value: u64) -> (r: Result<Self, MerkleError>)
        ensures
            DEPTH < 1 ==> r == Err::<Self, MerkleError>(MerkleError::DepthTooSmall(DEPTH)),
            DEPTH >= 1 && !index_valid(DEPTH as nat, value as nat) ==> r == Err::<Self, MerkleError>(
                MerkleError::InvalidNodeIndex { depth: DEPTH, value }),
            DEPTH >= 1 && index_valid(DEPTH as nat, value as nat) ==> (r matches Ok(l)
                && l.index_spec() == (DEPTH as nat, value as nat)),
    {
        if DEPTH < SMT_MIN_DEPTH {
            return Err(MerkleError::DepthTooSmall(DEPTH));
        }
        match NodeIndex::new(DEPTH, value) {
            Ok(index) => Ok(LeafIndex { index }),
            Err(e) => Err(e),
        }
    }

    /// The leaf at `index`, which must be at depth `DEPTH`.
    pub fn try_from(index: NodeIndex) -> (r: Result<Self, MerkleError>)
        ensures
            index@.0 != DEPTH ==> r == Err::<Self, MerkleError>(MerkleError::InvalidNodeIndexDepth {
                expected: DEPTH, provided: index@.0 as u8 }),
            index@.0 == DEPTH && DEPTH < 1 ==> r == Err::<Self, MerkleError>(MerkleError::DepthTooSmall(DEPTH)),
            index@.0 == DEPTH && DEPTH >= 1 && !index_valid(DEPTH as nat, index@.1) ==> r == Err::<Self, MerkleError>(
                MerkleError::InvalidNodeIndex { depth: DEPTH, value: index@.1 as u64 }),
            index@.0 == DEPTH && DEPTH >= 1 && index_valid(DEPTH as nat, index@.1) ==> (r matches Ok(l)
                && l.index_spec() == index@),
    {
        if index.depth() != DEPTH {
            return Err(MerkleError::InvalidNodeIndexDepth { expected: DEPTH, provided: index.depth() });
        }
        Self::new(index.value())
    }

    /// The position of the leaf.
    pub fn value(self) -> (r: u64)
        ensures
            r == self.index_spec().1,
            self.index_spec().0 == DEPTH,
            index_valid(DEPTH as nat, r as nat),
    {
        proof { use_type_invariant(&self); }
        self.index.value()
    }

    /// The node index of the leaf.
    pub fn index(self) -> (r: NodeIndex)
        ensures
            r@ == self.index_spec(),
    {
        self.index
    }
}

impl LeafIndex<64> {
    /// The leaf at `value` of a tree of the greatest depth.
    pub fn new_max_depth(value: u64) -> (r: Self)
        ensures
            r.index_spec() == (64nat, value as nat),
    {
        LeafIndex { index: NodeIndex::new_unchecked(SMT_MAX_DEPTH, value) }
    }
}

/// A change to an inner node of a tree.
#[derive(Debug, Clone, Copy, PartialEq, Eq)]
pub enum NodeMutation {
    /// The node is removed: its subtree became empty.
    Removal,
    /// The node is added or replaced.
    Addition(InnerNode),
}

/// The changes that a batch of updates makes to a sparse Merkle tree: the root
/// before and after, the inner nodes changed, and the new key-value pairs.
#[derive(Debug)]
pub struct MutationSet<K, V, const DEPTH: u8> {
    old_root: RpoDigest,
    node_mutations: BTreeMap<(u8, u64), NodeMutation>,
    new_pairs: BTreeMap<K, V>,
    new_root: RpoDigest,
}

impl<K, V, const DEPTH: u8> MutationSet<K, V, DEPTH> {
    /// The root after the changes.
    pub closed spec fn root_spec(&self) -> Seq<nat> {
        self.new_root@
    }

    /// The root before the changes.
    pub closed spec fn old_root_spec(&self) -> Seq<nat> {
        self.old_root@
    }

    /// The inner nodes changed, by depth and position.
    pub closed spec fn mutations_spec(&self) -> Map<(u8, u64), NodeMutation> {
        self.node_mutations@
    }

    /// The new key-value pairs.
    pub closed spec fn pairs_spec(&self) -> Map<K, V> {
        self.new_pairs@
    }

    /// A set of changes from its parts.
    pub fn from_parts(old_root: RpoDigest, node_mutations: BTreeMap<(u8, u64), NodeMutation>,
        new_pairs: BTreeMap<K, V>, new_root: RpoDigest) -> (r: Self)
        ensures
            r.root_spec() == new_root@,
            r.old_root_spec() == old_root@,
            r.mutations_spec() == node_mutations@,
            r.pairs_spec() == new_pairs@,
    {
        MutationSet { old_root, node_mutations, new_pairs, new_root }
    }

    /// The root after the changes.
    pub fn root(&self) -> (r: RpoDigest)
        ensures
            r@ == self.root_spec(),
    {
        self.new_root
    }

    /// The root before the changes.
    pub fn old_root(&self) -> (r: RpoDigest)
        ensures
            r@ == self.old_root_spec(),
    {
        self.old_root
    }

    /// The inner nodes changed.
    pub fn node_mutations(&self) -> (r: &BTreeMap<(u8, u64), NodeMutation>)
        ensures
            r@ == self.mutations_spec(),
    {
        &self.node_mutations
    }

    /// The new key-value pairs.
    pub fn new_pairs(&self) -> (r: &BTreeMap<K, V>)
        ensures
            r@ == self.pairs_spec(),
    {
        &self.new_pairs
    }

    /// The parts: the root before, the inner nodes changed, the new pairs and
    /// the root after.
    pub fn into_parts(self) -> (r: (RpoDigest, BTreeMap<(u8, u64), NodeMutation>, BTreeMap<K, V>, RpoDigest))
        ensures
            r.0@ == self.old_root_spec(),
            r.1@ == self.mutations_spec(),
            r.2@ == self.pairs_spec(),
            r.3@ == self.root_spec(),
    {
        (self.old_root, self.node_mutations, self.new_pairs, self.new_root)
    }
}

} // verus!
