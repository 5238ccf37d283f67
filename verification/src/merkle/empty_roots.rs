//! Roots of subtrees whose leaves are all empty (the zero word).

use vstd::prelude::*;
use crate::merkle::{merge_digest, digests_view};
use crate::rescue::digest::RpoDigest;
use crate::rescue::rpo::Rpo256;
use crate::merkle::smt::InnerNode;

verus! {

/// The root of a subtree of height `h` whose leaves are all the zero word.
pub open spec fn empty_root_spec(h: nat) -> Seq<nat>
    decreases h,
{
    if h == 0 {
        seq![0nat, 0nat, 0nat, 0nat]
    } else {
        merge_digest(empty_root_spec((h - 1) as nat), empty_root_spec((h - 1) as nat))
    }
}

/// Roots of empty subtrees.
pub struct EmptySubtreeRoots;

impl EmptySubtreeRoots {
    /// For a tree of depth `depth`, the roots of the empty subtrees rooted at each
    /// depth from 0 (the whole tree) to `depth` (a single leaf).
    pub fn empty_hashes(depth: u8) -> (r: Vec<RpoDigest>)
        ensures
            r@.len() == depth + 1,
            forall|i: int| 0 <= i <= depth ==> #[trigger] r@[i]@ == empty_root_spec((depth - i) as nat),
    {
        let mut by_height: Vec<RpoDigest> = Vec::new();
        let mut cur = RpoDigest::default();
        by_height.push(cur);
        let mut h: u8 = 0;
        while h < depth
            invariant
                0 <= h <= depth,
                by_height@.len() == h + 1,
                cur@ == empty_root_spec(h as nat),
                forall|j: int| 0 <= j <= h ==> #[trigger] by_height@[j]@ == empty_root_spec(j as nat),
            decreases depth - h,
        {
            cur = Rpo256::merge(&[cur, cur]);
            by_height.push(cur);
            h = h + 1;
        }
        let mut r: Vec<RpoDigest> = Vec::new();
        let mut i: usize = 0;
        while i <= depth as usize
            invariant
                0 <= i <= depth + 1,
                by_height@.len() == depth + 1,
                forall|j: int| 0 <= j <= depth ==> #[trigger] by_height@[j]@ == empty_root_spec(j as nat),
                r@.len() == i,
                forall|j: int| 0 <= j < i ==> #[trigger] r@[j]@ == empty_root_spec((depth - j) as nat),
            decreases depth + 1 - i,
        {
            r.push(by_height[depth as usize - i]);
            i = i + 1;
        }
        r
    }

    /// The root of the empty subtree at `node_depth` in a tree of depth `tree_depth`.
    pub fn entry(tree_depth: u8, node_depth: u8) -> (r: RpoDigest)
        requires
            node_depth <= tree_depth,
        ensures
            r@ == empty_root_spec((tree_depth - node_depth) as nat),
    {
        let mut cur = RpoDigest::default();
        let mut h: u8 = 0;
        let target = tree_depth - node_depth;
        while h < target
            invariant
                0 <= h <= target,
                cur@ == empty_root_spec(h as nat),
            decreases target - h,
        {
            cur = Rpo256::merge(&[cur, cur]);
            h = h + 1;
        }
        cur
    }

    /// The inner node at `node_depth` of an empty tree of depth `tree_depth`:
    /// two empty subtrees one level down.
    pub fn get_inner_node(tree_depth: u8, node_depth: u8) -> (r: InnerNode)
        requires
            node_depth < tree_depth,
        ensures
            r.left@ == empty_root_spec((tree_depth - node_depth - 1) as nat),
            r.right@ == empty_root_spec((tree_depth - node_depth - 1) as nat),
    {
        let child = Self::entry(tree_depth, node_depth + 1);
        InnerNode { left: child, right: child }
    }
}

} // verus!
