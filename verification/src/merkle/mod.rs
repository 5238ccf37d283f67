//! Merkle structures over RPO digests: node indices, authentication paths,
//! full trees, partial trees, the node store, Merkle mountain ranges and the
//! sparse Merkle tree types.

use vstd::prelude::*;
use crate::rescue::digest::RpoDigest;
use crate::rescue::rpo::rpo_perm;
use crate::rescue::sponge::merge_spec;

pub mod index;
pub mod path;
pub mod tree;
pub mod empty_roots;

verus! {

/// The digest of a parent node with children `left` and `right`.
pub open spec fn merge_digest(left: Seq<nat>, right: Seq<nat>) -> Seq<nat> {
    merge_spec(rpo_perm(), left, right)
}

/// Values of a sequence of digests.
pub open spec fn digests_view(s: Seq<RpoDigest>) -> Seq<Seq<nat>> {
    Seq::new(s.len(), |i: int| s[i]@)
}

/// Errors raised by the Merkle structures.
#[derive(Debug, Clone, PartialEq, Eq)]
pub enum MerkleError {
    /// A computed root differs from the expected one.
    ConflictingRoots { expected: RpoDigest, actual: RpoDigest },
    /// A depth is below the minimum.
    DepthTooSmall(u8),
    /// A depth is above the maximum.
    DepthTooBig(u64),
    /// Two values were given for the same index.
    DuplicateValuesForIndex(u64),
    /// The value of an index does not fit in its depth.
    InvalidNodeIndex { depth: u8, value: u64 },
    /// An index has the wrong depth.
    InvalidNodeIndexDepth { expected: u8, provided: u8 },
    /// The index is not in the tree.
    NodeIndexNotFoundInTree(index::NodeIndex),
    /// The index is not below the given root in the store.
    NodeIndexNotFoundInStore(RpoDigest, index::NodeIndex),
    /// The number of leaves is not a power of two.
    NumLeavesNotPowerOfTwo(usize),
    /// The root is not in the store.
    RootNotInStore(RpoDigest),
    /// A subtree is deeper than the tree.
    SubtreeDepthExceedsDepth { subtree_depth: u8, tree_depth: u8 },
    /// More entries than the tree can hold.
    TooManyEntries(usize),
}

/// A node of a tree with its two children.
#[derive(Debug, Clone, PartialEq, Eq)]
pub struct InnerNodeInfo {
    pub value: RpoDigest,
    pub left: RpoDigest,
    pub right: RpoDigest,
}

} // verus!
pub mod partial_mt;
pub mod store;
pub mod smt;
pub mod simple_smt;
pub mod text;
pub mod mmr;
