//! A sparse Merkle tree of fixed depth whose leaves are words. Only the leaves
//! that hold a non-zero word, and the inner nodes that differ from those of an
//! empty tree, are stored.

use vstd::prelude::*;
use vstd::arithmetic::power2::pow2;
use std::collections::BTreeMap;
use std::collections::BTreeSet;
use crate::felt::Felt;
use crate::merkle::{MerkleError, InnerNodeInfo, merge_digest};
use crate::merkle::path::{MerklePath, ValuePath, path_node_at, path_root, lemma_div_pow2_step};
use crate::merkle::smt::{InnerNode, LeafIndex, MutationSet, NodeMutation, SMT_MIN_DEPTH, SMT_MAX_DEPTH};
use crate::merkle::empty_roots::{EmptySubtreeRoots, empty_root_spec};
use crate::merkle::index::{NodeIndex, index_valid};
use crate::rescue::digest::{RpoDigest, word_seq};
use crate::rescue::rpo::Rpo256;

verus! {

/// The word at leaf `v`: the stored one, or the zero word.
pub open spec fn leaf_value(leaves: Map<u64, Seq<nat>>, v: nat) -> Seq<nat> {
    if v < 0x1_0000_0000_0000_0000 && leaves.dom().contains(v as u64) {
        leaves[v as u64]
    } else {
        empty_root_spec(0)
    }
}

/// The digest of node `v` at depth `d` of a tree of depth `depth` over `leaves`.
pub open spec fn smt_node(leaves: Map<u64, Seq<nat>>, depth: nat, d: nat, v: nat) -> Seq<nat>
    decreases depth - d,
{
    if d >= depth {
        leaf_value(leaves, v)
    } else {
        merge_digest(smt_node(leaves, depth, d + 1, 2 * v), smt_node(leaves, depth, d + 1, 2 * v + 1))
    }
}

/// The digests of the two children of node `v` at depth `d`.
pub open spec fn smt_children(leaves: Map<u64, Seq<nat>>, depth: nat, d: nat, v: nat) -> (Seq<nat>, Seq<nat>) {
    (smt_node(leaves, depth, d + 1, 2 * v), smt_node(leaves, depth, d + 1, 2 * v + 1))
}

/// Up to height `depth`, only two empty subtree roots merge into the root of an
/// empty subtree. A tree drops an inner node whose digest is that of an empty
/// subtree; it loses nothing exactly when this holds of the hash.
pub open spec fn no_empty_root_collision(depth: nat) -> bool {
    forall|h: nat, a: Seq<nat>, b: Seq<nat>|
        #![trigger merge_digest(a, b), empty_root_spec(h)]
        1 <= h <= depth && merge_digest(a, b) == empty_root_spec(h)
            ==> a == empty_root_spec((h - 1) as nat) && b == empty_root_spec((h - 1) as nat)
}

/// Changing one leaf changes no node off the way from that leaf to the root.
pub proof fn lemma_smt_node_frame(a: Map<u64, Seq<nat>>, b: Map<u64, Seq<nat>>, depth: nat, d: nat, v: nat, k: nat)
    requires
        d <= depth,
        forall|j: nat| j != k ==> #[trigger] leaf_value(a, j) == leaf_value(b, j),
        k / pow2((depth - d) as nat) != v,
    ensures
        smt_node(a, depth, d, v) == smt_node(b, depth, d, v),
    decreases depth - d,
{
    if d == depth {
        vstd::arithmetic::power2::lemma2_to64();
        assert(k / 1 == k);
        assert(leaf_value(a, v) == leaf_value(b, v));
    } else {
        let h = (depth - d - 1) as nat;
        lemma_div_pow2_step(k, h);
        assert((depth - d) as nat == h + 1);
        let q = k / pow2(h);
        assert(q / 2 != v);
        assert(q != 2 * v && q != 2 * v + 1);
        assert((depth - (d + 1)) as nat == h);
        lemma_smt_node_frame(a, b, depth, d + 1, 2 * v, k);
        lemma_smt_node_frame(a, b, depth, d + 1, 2 * v + 1, k);
    }
}

/// Every node of a tree without leaves is the root of an empty subtree.
pub proof fn lemma_smt_node_empty(depth: nat, d: nat, v: nat)
    requires
        d <= depth,
    ensures
        smt_node(Map::<u64, Seq<nat>>::empty(), depth, d, v) == empty_root_spec((depth - d) as nat),
    decreases depth - d,
{
    if d < depth {
        lemma_smt_node_empty(depth, d + 1, 2 * v);
        lemma_smt_node_empty(depth, d + 1, 2 * v + 1);
        assert((depth - d) as nat == (depth - (d + 1)) as nat + 1);
    }
}

/// The leaves after setting position `k` to the word `w`: a zero word removes the leaf.
pub open spec fn set_leaf(leaves: Map<u64, Seq<nat>>, k: u64, w: Seq<nat>) -> Map<u64, Seq<nat>> {
    if w == empty_root_spec(0) {
        leaves.remove(k)
    } else {
        leaves.insert(k, w)
    }
}

/// A depth below 64 and a position below `2^d` survive the casts to a key.
proof fn lemma_key_cast(d: nat, v: nat)
    requires
        d < 64,
        v < pow2(d),
    ensures
        (d as u8) as nat == d,
        (v as u64) as nat == v,
{
    vstd::arithmetic::power2::lemma2_to64();
    vstd::arithmetic::power2::lemma_pow2_strictly_increases(d, 64);
}

/// The position on the way up from `k` at `c` steps below depth `c - 1`: halving
/// keeps it a quotient of `k` and keeps its bound.
proof fn lemma_halve_step(k: nat, depth: nat, c: nat, u: nat)
    requires
        1 <= c <= depth,
        u == k / pow2((depth - c) as nat),
        u < pow2(c),
    ensures
        u / 2 == k / pow2((depth - (c - 1)) as nat),
        u / 2 < pow2((c - 1) as nat),
        u == 2 * (u / 2) || u == 2 * (u / 2) + 1,
{
    lemma_div_pow2_step(k, (depth - c) as nat);
    assert((depth - c) as nat + 1 == (depth - (c - 1)) as nat);
    vstd::arithmetic::power2::lemma_pow2_unfold(c);
}

/// The children of the inner node at depth `d`, position `v` among `nodes` of a
/// tree of depth `depth`: the stored ones, or those of an empty tree.
pub open spec fn children_in(nodes: Map<(u8, u64), InnerNode>, depth: nat, d: nat, v: nat) -> (Seq<nat>, Seq<nat>) {
    if nodes.contains_key((d as u8, v as u64)) {
        (nodes[(d as u8, v as u64)].left@, nodes[(d as u8, v as u64)].right@)
    } else {
        (empty_root_spec((depth - d - 1) as nat), empty_root_spec((depth - d - 1) as nat))
    }
}

/// The inner node at depth `d`, position `v` of `nodes`, in a tree of depth `depth`.
fn inner_node_at(nodes: &BTreeMap<(u8, u64), InnerNode>, depth: u8, d: u8, v: u64) -> (r: InnerNode)
    requires
        d < depth,
    ensures
        (r.left@, r.right@) == children_in(nodes@, depth as nat, d as nat, v as nat),
{
    match nodes.get(&(d, v)) {
        Some(n) => *n,
        None => EmptySubtreeRoots::get_inner_node(depth, d),
    }
}

/// The sibling met at step `i` on the way up from leaf `k` of a tree of depth
/// `depth` with inner nodes `nodes`.
pub open spec fn smt_sibling(nodes: Map<(u8, u64), InnerNode>, depth: nat, k: nat, i: nat) -> Seq<nat> {
    let w = k / pow2(i);
    let ch = children_in(nodes, depth, (depth - i - 1) as nat, w / 2);
    if w % 2 == 1 { ch.0 } else { ch.1 }
}

/// The siblings met on the way up from leaf `k`, lowest first.
pub open spec fn smt_path(nodes: Map<(u8, u64), InnerNode>, depth: nat, k: nat) -> Seq<Seq<nat>> {
    Seq::new(depth, |i: int| smt_sibling(nodes, depth, k, i as nat))
}

/// Walking up from leaf `k` through the stored siblings of a consistent tree
/// meets the nodes of the tree over its leaves.
proof fn lemma_smt_path_node(nodes: Map<(u8, u64), InnerNode>, leaves: Map<u64, Seq<nat>>, depth: nat, k: nat, i: nat)
    requires
        1 <= depth <= 64,
        k < pow2(depth),
        i <= depth,
        forall|d: nat, v: nat| d < depth && v < pow2(d)
            ==> #[trigger] children_in(nodes, depth, d, v) == smt_children(leaves, depth, d, v),
    ensures
        k / pow2(i) < pow2((depth - i) as nat),
        path_node_at(smt_path(nodes, depth, k), k, leaf_value(leaves, k), i)
            == smt_node(leaves, depth, (depth - i) as nat, k / pow2(i)),
    decreases i,
{
    if i == 0 {
        vstd::arithmetic::power2::lemma2_to64();
        assert(k / 1 == k);
    } else {
        let i1 = (i - 1) as nat;
        lemma_smt_path_node(nodes, leaves, depth, k, i1);
        let c = (depth - i1) as nat;
        let w = k / pow2(i1);
        assert((depth - c) as nat == i1);
        lemma_halve_step(k, depth, c, w);
        assert((depth - (c - 1)) as nat == i);
        let dd = (depth - i) as nat;
        assert(dd == (c - 1) as nat);
        assert(children_in(nodes, depth, dd, w / 2) == smt_children(leaves, depth, dd, w / 2));
        assert(smt_path(nodes, depth, k)[i1 as int] == smt_sibling(nodes, depth, k, i1));
        assert((depth - i1 - 1) as nat == dd);
        assert(dd + 1 == c);
    }
}

/// The keys of a map of leaves, each once.
fn leaf_keys<V>(m: &BTreeMap<u64, V>) -> (r: Vec<u64>)
    ensures
        r@.to_set() == m@.dom(),
        r@.no_duplicates(),
{
    let mut r: Vec<u64> = Vec::new();
    for k in it: m.keys()
        invariant
            r@ == it.seq().unref().take(it.index() as int),
            it.seq().unref().to_set() == m@.dom(),
            it.seq().unref().no_duplicates(),
            it.seq().len() == m@.dom().len(),
            r@.len() == it.index(),
            r@.no_duplicates(),
            forall|x: u64| r@.contains(x) ==> m@.dom().contains(x),
    {
        proof {
            let s = it.seq().unref();
            assert(s[it.index() as int] == *k);
            assert(s.to_set().contains(s[it.index() as int]));
            assert forall|j: int| 0 <= j < r@.len() implies r@[j] != *k by {
                assert(r@[j] == s[j]);
            }
        }
        r.push(*k);
        assert(r@ =~= it.seq().unref().take(it.index() + 1));
    }
    proof {
        r@.unique_seq_to_set();
        assert(r@.to_set().subset_of(m@.dom()));
        vstd::set_lib::lemma_subset_equality(r@.to_set(), m@.dom());
    }
    r
}

/// The keys of a map of inner nodes, each once.
fn node_keys<V>(m: &BTreeMap<(u8, u64), V>) -> (r: Vec<(u8, u64)>)
    ensures
        r@.to_set() == m@.dom(),
        r@.no_duplicates(),
{
    let mut r: Vec<(u8, u64)> = Vec::new();
    for k in it: m.keys()
        invariant
            r@ == it.seq().unref().take(it.index() as int),
            it.seq().unref().to_set() == m@.dom(),
            it.seq().unref().no_duplicates(),
            it.seq().len() == m@.dom().len(),
            r@.len() == it.index(),
            r@.no_duplicates(),
            forall|x: (u8, u64)| r@.contains(x) ==> m@.dom().contains(x),
    {
        proof {
            let s = it.seq().unref();
            assert(s[it.index() as int] == *k);
            assert(s.to_set().contains(s[it.index() as int]));
            assert forall|j: int| 0 <= j < r@.len() implies r@[j] != *k by {
                assert(r@[j] == s[j]);
            }
        }
        r.push(*k);
        assert(r@ =~= it.seq().unref().take(it.index() + 1));
    }
    proof {
        r@.unique_seq_to_set();
        assert(r@.to_set().subset_of(m@.dom()));
        vstd::set_lib::lemma_subset_equality(r@.to_set(), m@.dom());
    }
    r
}

/// The leaves set by `entries` in turn.
pub open spec fn leaves_of(entries: Seq<(u64, [Felt; 4])>) -> Map<u64, Seq<nat>>
    decreases entries.len(),
{
    if entries.len() == 0 {
        Map::empty()
    } else {
        let last = entries[entries.len() - 1];
        set_leaf(leaves_of(entries.drop_last()), last.0, word_seq(last.1))
    }
}

/// What is wrong with entry `i` of `entries` for a tree of depth `depth` that
/// holds at most `max` entries, if anything.
pub open spec fn entry_error(entries: Seq<(u64, [Felt; 4])>, i: int, depth: u8, max: nat) -> Option<MerkleError> {
    if i >= max {
        Some(MerkleError::TooManyEntries(max as usize))
    } else if !index_valid(depth as nat, entries[i].0 as nat) {
        Some(MerkleError::InvalidNodeIndex { depth, value: entries[i].0 })
    } else if exists|j: int| 0 <= j < i && #[trigger] entries[j].0 == entries[i].0 {
        Some(MerkleError::DuplicateValuesForIndex(entries[i].0))
    } else {
        None
    }
}

/// The words of `entries`, each with its position.
pub open spec fn numbered(entries: Seq<[Felt; 4]>) -> Seq<(u64, [Felt; 4])> {
    Seq::new(entries.len(), |i: int| (i as u64, entries[i]))
}

/// The most entries a tree of depth `depth` takes.
pub open spec fn max_entries(depth: u8) -> nat {
    pow2(if depth < 63 { depth as nat } else { 63 })
}

/// In entries with distinct keys, a key is stored exactly when some entry sets
/// it to a non-zero word, and then holds that word.
proof fn lemma_leaves_of_distinct(entries: Seq<(u64, [Felt; 4])>, k: u64)
    requires
        forall|a: int, b: int| 0 <= a < b < entries.len() ==> #[trigger] entries[a].0 != #[trigger] entries[b].0,
    ensures
        forall|j: int| 0 <= j < entries.len() && #[trigger] entries[j].0 == k ==>
            leaf_value(leaves_of(entries), k as nat) == word_seq(entries[j].1),
        (forall|j: int| 0 <= j < entries.len() ==> #[trigger] entries[j].0 != k) ==>
            !leaves_of(entries).contains_key(k),
    decreases entries.len(),
{
    if entries.len() > 0 {
        let init = entries.drop_last();
        assert forall|a: int, b: int| 0 <= a < b < init.len() implies #[trigger] init[a].0 != #[trigger] init[b].0 by {
            assert(init[a] == entries[a] && init[b] == entries[b]);
        }
        lemma_leaves_of_distinct(init, k);
        let n = entries.len() - 1;
        assert forall|j: int| 0 <= j < entries.len() && #[trigger] entries[j].0 == k implies
            leaf_value(leaves_of(entries), k as nat) == word_seq(entries[j].1) by {
            if j < n {
                assert(init[j] == entries[j]);
                assert(entries[n].0 != k);
            }
        }
        if forall|j: int| 0 <= j < entries.len() ==> #[trigger] entries[j].0 != k {
            assert forall|j: int| 0 <= j < init.len() implies #[trigger] init[j].0 != k by {
                assert(init[j] == entries[j]);
            }
            assert(entries[n].0 != k);
        }
    }
}

/// Inner nodes after a set of changes: a removal drops the node, an addition
/// sets it.
pub open spec fn apply_node_mutations(nodes: Map<(u8, u64), InnerNode>, muts: Map<(u8, u64), NodeMutation>) -> Map<(u8, u64), InnerNode> {
    Map::new(
        |k: (u8, u64)| if muts.contains_key(k) { muts[k] is Addition } else { nodes.contains_key(k) },
        |k: (u8, u64)| if muts.contains_key(k) { muts[k]->Addition_0 } else { nodes[k] },
    )
}

/// Leaves after new words: a zero word drops the leaf, another sets it.
pub open spec fn apply_pairs(leaves: Map<u64, Seq<nat>>, pairs: Map<u64, Seq<nat>>) -> Map<u64, Seq<nat>> {
    Map::new(
        |k: u64| if pairs.contains_key(k) { pairs[k] != empty_root_spec(0) } else { leaves.contains_key(k) },
        |k: u64| if pairs.contains_key(k) { pairs[k] } else { leaves[k] },
    )
}

/// The words of a map of new pairs.
pub open spec fn pairs_view(pairs: Map<u64, [Felt; 4]>) -> Map<u64, Seq<nat>> {
    pairs.map_values(|w: [Felt; 4]| word_seq(w))
}

/// The leaves after setting each of `kv` in turn.
pub open spec fn leaves_after<const DEPTH: u8>(leaves: Map<u64, Seq<nat>>, kv: Seq<(LeafIndex<DEPTH>, [Felt; 4])>) -> Map<u64, Seq<nat>>
    decreases kv.len(),
{
    if kv.len() == 0 {
        leaves
    } else {
        let last = kv[kv.len() - 1];
        set_leaf(leaves_after(leaves, kv.drop_last()), last.0.index_spec().1 as u64, word_seq(last.1))
    }
}

/// `root` and `nodes` are the root and inner nodes of the tree of depth
/// `depth` over `leaves`.
pub open spec fn tree_consistent(nodes: Map<(u8, u64), InnerNode>, leaves: Map<u64, Seq<nat>>, root: Seq<nat>, depth: nat) -> bool {
    &&& root == smt_node(leaves, depth, 0, 0)
    &&& forall|d: nat, v: nat| d < depth && v < pow2(d)
        ==> #[trigger] children_in(nodes, depth, d, v) == smt_children(leaves, depth, d, v)
}

/// The changes that undo `muts` applied to `nodes`: each changed node gets back
/// its old value, or is removed where there was none.
pub open spec fn reverse_nodes(nodes: Map<(u8, u64), InnerNode>, muts: Map<(u8, u64), NodeMutation>) -> Map<(u8, u64), NodeMutation> {
    Map::new(
        |k: (u8, u64)| muts.contains_key(k) && (nodes.contains_key(k) || muts[k] is Addition),
        |k: (u8, u64)| if nodes.contains_key(k) { NodeMutation::Addition(nodes[k]) } else { NodeMutation::Removal },
    )
}

/// The words that undo `pairs` applied to `leaves`: each changed leaf gets back
/// its old word, the zero word where there was none.
pub open spec fn reverse_pairs(leaves: Map<u64, Seq<nat>>, pairs: Map<u64, Seq<nat>>) -> Map<u64, Seq<nat>> {
    Map::new(|k: u64| pairs.contains_key(k), |k: u64| leaf_value(leaves, k as nat))
}

/// The law of reversion: applying the changes, then the changes that undo
/// them, gives back the inner nodes and the leaves (which hold no zero word).
pub proof fn lemma_reversion_restores(
    nodes: Map<(u8, u64), InnerNode>,
    muts: Map<(u8, u64), NodeMutation>,
    leaves: Map<u64, Seq<nat>>,
    pairs: Map<u64, Seq<nat>>,
)
    requires
        forall|k: u64| #[trigger] leaves.contains_key(k) ==> leaves[k] != empty_root_spec(0),
    ensures
        apply_node_mutations(apply_node_mutations(nodes, muts), reverse_nodes(nodes, muts)) == nodes,
        apply_pairs(apply_pairs(leaves, pairs), reverse_pairs(leaves, pairs)) == leaves,
{
    assert(apply_node_mutations(apply_node_mutations(nodes, muts), reverse_nodes(nodes, muts)) =~= nodes);
    assert(apply_pairs(apply_pairs(leaves, pairs), reverse_pairs(leaves, pairs)) =~= leaves);
}

/// The leaves of `base` with those of `small` moved up by `shift` put over them.
pub open spec fn shifted_leaves(base: Map<u64, Seq<nat>>, small: Map<u64, Seq<nat>>, shift: nat) -> Map<u64, Seq<nat>> {
    Map::new(
        |k: u64| base.contains_key(k) || (k >= shift && small.contains_key((k - shift) as u64)),
        |k: u64| if k >= shift && small.contains_key((k - shift) as u64) { small[(k - shift) as u64] } else { base[k] },
    )
}

/// A position below `2^rd` moved down `bd` levels, plus an offset below `2^bd`,
/// stays below `2^(rd + bd)` and fits in 64 bits.
proof fn lemma_moved_index(index: nat, rd: nat, bd: nat, bv: nat)
    requires
        rd + bd <= 64,
        index < pow2(rd),
        bv < pow2(bd),
    ensures
        index * pow2(bd) + bv < pow2(rd + bd),
        index * pow2(bd) + pow2(bd) <= pow2(rd + bd),
        pow2(rd + bd) <= 0x1_0000_0000_0000_0000,
{
    vstd::arithmetic::power2::lemma_pow2_adds(rd, bd);
    vstd::arithmetic::power2::lemma2_to64();
    if rd + bd < 64 {
        vstd::arithmetic::power2::lemma_pow2_strictly_increases(rd + bd, 64);
    }
    let pb = pow2(bd);
    let pr = pow2(rd);
    vstd::arithmetic::mul::lemma_mul_inequality((index + 1) as int, pr as int, pb as int);
    vstd::arithmetic::mul::lemma_mul_is_distributive_add_other_way(pb as int, index as int, 1);
    assert(index * pb + pb <= pr * pb);
}

/// The law of reads after writes: after setting leaf `k` to `w`, leaf `k`
/// holds `w` and every other leaf is unchanged.
pub proof fn lemma_set_leaf_get(leaves: Map<u64, Seq<nat>>, k: u64, w: Seq<nat>, j: nat)
    ensures
        leaf_value(set_leaf(leaves, k, w), k as nat) == w,
        j != k ==> leaf_value(set_leaf(leaves, k, w), j) == leaf_value(leaves, j),
{
}

/// A sparse Merkle tree of depth `DEPTH` over words.
#[derive(Debug)]
pub struct SimpleSmt<const DEPTH: u8> {
    root: RpoDigest,
    leaves: BTreeMap<u64, RpoDigest>,
    inner_nodes: BTreeMap<(u8, u64), InnerNode>,
}

impl<const DEPTH: u8> Clone for SimpleSmt<DEPTH> {
    fn clone(&self) -> (r: Self)
        ensures
            r.root_spec() == self.root_spec(),
            r.leaves_spec() == self.leaves_spec(),
            r.inner_spec() == self.inner_spec(),
    {
        proof { use_type_invariant(self); }
        SimpleSmt { root: self.root, leaves: self.leaves.clone(), inner_nodes: self.inner_nodes.clone() }
    }
}

impl<const DEPTH: u8> SimpleSmt<DEPTH> {
    /// The depth is in range and no stored leaf is the zero word.
    #[verifier::type_invariant]
    closed spec fn inv(self) -> bool {
        &&& 1 <= DEPTH <= 64
        &&& forall|k: u64| #[trigger] self.leaves@.contains_key(k) ==> self.leaves@[k]@ != empty_root_spec(0)
    }

    /// The stored root.
    pub closed spec fn root_spec(&self) -> Seq<nat> {
        self.root@
    }

    /// The stored leaves, by position.
    pub closed spec fn leaves_spec(&self) -> Map<u64, Seq<nat>> {
        self.leaves@.map_values(|d: RpoDigest| d@)
    }

    /// The stored inner nodes, by depth and position.
    pub closed spec fn inner_spec(&self) -> Map<(u8, u64), InnerNode> {
        self.inner_nodes@
    }

    /// The children of the inner node at depth `d`, position `v`: the stored
    /// ones, or those of an empty tree.
    pub open spec fn stored_children(&self, d: nat, v: nat) -> (Seq<nat>, Seq<nat>) {
        children_in(self.inner_spec(), DEPTH as nat, d, v)
    }

    /// `info` is the stored inner node at `k`, with its digest.
    pub open spec fn describes_node(&self, info: InnerNodeInfo, k: (u8, u64)) -> bool {
        &&& self.inner_spec().contains_key(k)
        &&& info.left == self.inner_spec()[k].left
        &&& info.right == self.inner_spec()[k].right
        &&& info.value@ == merge_digest(info.left@, info.right@)
    }

    /// `info` is some stored inner node, with its digest.
    pub open spec fn is_stored_info(&self, info: InnerNodeInfo) -> bool {
        exists|k: (u8, u64)| #[trigger] self.describes_node(info, k)
    }

    /// The stored root and inner nodes are those of the tree over the stored leaves.
    pub open spec fn consistent(&self) -> bool {
        &&& self.root_spec() == smt_node(self.leaves_spec(), DEPTH as nat, 0, 0)
        &&& forall|d: nat, v: nat| d < DEPTH && v < pow2(d)
            ==> #[trigger] self.stored_children(d, v) == smt_children(self.leaves_spec(), DEPTH as nat, d, v)
    }

    /// An empty tree; the depth must be between 1 and 64.
    pub fn new() -> (r: Result<Self, MerkleError>)
        ensures
            DEPTH < 1 ==> r == Err::<Self, MerkleError>(MerkleError::DepthTooSmall(DEPTH)),
            DEPTH > 64 ==> r == Err::<Self, MerkleError>(MerkleError::DepthTooBig(DEPTH as u64)),
            1 <= DEPTH <= 64 ==> (r matches Ok(t) && t.leaves_spec() == Map::<u64, Seq<nat>>::empty()
                && t.inner_spec() == Map::<(u8, u64), InnerNode>::empty()
                && t.root_spec() == empty_root_spec(DEPTH as nat) && t.consistent()),
    {
        if DEPTH < SMT_MIN_DEPTH {
            return Err(MerkleError::DepthTooSmall(DEPTH));
        } else if SMT_MAX_DEPTH < DEPTH {
            return Err(MerkleError::DepthTooBig(DEPTH as u64));
        }
        let root = EmptySubtreeRoots::entry(DEPTH, 0);
        let t = SimpleSmt { root, leaves: BTreeMap::new(), inner_nodes: BTreeMap::new() };
        proof {
            assert(t.leaves_spec() =~= Map::<u64, Seq<nat>>::empty());
            lemma_smt_node_empty(DEPTH as nat, 0, 0);
            assert forall|d: nat, v: nat| d < DEPTH && v < pow2(d) implies
                #[trigger] t.stored_children(d, v) == smt_children(t.leaves_spec(), DEPTH as nat, d, v) by {
                lemma_smt_node_empty(DEPTH as nat, d + 1, 2 * v);
                lemma_smt_node_empty(DEPTH as nat, d + 1, 2 * v + 1);
            }
        }
        Ok(t)
    }

    /// What building a tree from `entries` gives: the errors of `new`; else the
    /// error of the first bad entry; else a tree holding the entries' words.
    pub open spec fn with_leaves_spec(entries: Seq<(u64, [Felt; 4])>, r: Result<Self, MerkleError>) -> bool {
        &&& DEPTH < 1 ==> r == Err::<Self, MerkleError>(MerkleError::DepthTooSmall(DEPTH))
        &&& DEPTH > 64 ==> r == Err::<Self, MerkleError>(MerkleError::DepthTooBig(DEPTH as u64))
        &&& 1 <= DEPTH <= 64 ==> {
            &&& forall|i: int| 0 <= i < entries.len()
                && (forall|j: int| 0 <= j < i ==> #[trigger] entry_error(entries, j, DEPTH, max_entries(DEPTH)) is None)
                && #[trigger] entry_error(entries, i, DEPTH, max_entries(DEPTH)) is Some
                ==> r == Err::<Self, MerkleError>(entry_error(entries, i, DEPTH, max_entries(DEPTH))->0)
            &&& (forall|i: int| 0 <= i < entries.len() ==> #[trigger] entry_error(entries, i, DEPTH, max_entries(DEPTH)) is None)
                ==> (r matches Ok(t) && t.leaves_spec() == leaves_of(entries)
                    && (no_empty_root_collision(DEPTH as nat) ==> t.consistent()))
        }
    }

    /// A tree holding the given words at the given positions. Fails on more
    /// entries than `2^min(DEPTH, 63)`, on a position out of range and on a
    /// position given twice.
    pub fn with_leaves(entries: &[(u64, [Felt; 4])]) -> (r: Result<Self, MerkleError>)
        ensures
            Self::with_leaves_spec(entries@, r),
    {
        let mut tree = match Self::new() {
            Ok(t) => t,
            Err(e) => return Err(e),
        };
        proof { use_type_invariant(&tree); }
        let shift: u64 = if DEPTH < 63 { DEPTH as u64 } else { 63 };
        let max_num_entries: u64 = 1u64 << shift;
        proof {
            vstd::arithmetic::power2::lemma2_to64();
            vstd::arithmetic::power2::lemma_pow2_strictly_increases(shift as nat, 64);
            vstd::bits::lemma_u64_shl_is_mul(1u64, shift);
            assert(max_num_entries as nat == max_entries(DEPTH));
        }
        let ghost nc = no_empty_root_collision(DEPTH as nat);
        let ghost es = entries@;
        let mut zeros: BTreeSet<u64> = BTreeSet::new();
        let mut idx: usize = 0;
        let zero = RpoDigest::default();
        while idx < entries.len()
            invariant
                0 <= idx <= es.len(),
                es == entries@,
                1 <= DEPTH <= 64,
                max_num_entries as nat == max_entries(DEPTH),
                forall|j: int| 0 <= j < idx ==> #[trigger] entry_error(es, j, DEPTH, max_entries(DEPTH)) is None,
                tree.leaves_spec() == leaves_of(es.take(idx as int)),
                nc ==> tree.consistent(),
                nc == no_empty_root_collision(DEPTH as nat),
                forall|k: u64| zeros@.contains(k) <==> exists|j: int| 0 <= j < idx && #[trigger] es[j].0 == k
                    && word_seq(es[j].1) == empty_root_spec(0),
                zero@ == empty_root_spec(0),
            decreases es.len() - idx,
        {
            let ghost pre = es.take(idx as int);
            proof {
                assert forall|a: int, b: int| 0 <= a < b < pre.len() implies #[trigger] pre[a].0 != #[trigger] pre[b].0 by {
                    assert(entry_error(es, b, DEPTH, max_entries(DEPTH)) is None);
                    assert(es[a].0 == pre[a].0 && es[b].0 == pre[b].0);
                }
            }
            if idx as u64 >= max_num_entries {
                return Err(MerkleError::TooManyEntries(max_num_entries as usize));
            }
            let (key, value) = entries[idx];
            let li = match LeafIndex::<DEPTH>::new(key) {
                Ok(l) => l,
                Err(e) => return Err(e),
            };
            let old_value = tree.insert(li, value);
            let old_digest = RpoDigest::new(old_value);
            proof {
                lemma_leaves_of_distinct(pre, key);
            }
            if old_digest != zero || zeros.contains(&key) {
                proof {
                    if old_digest@ != zero@ {
                        if forall|j: int| 0 <= j < pre.len() ==> #[trigger] pre[j].0 != key {
                            assert(!leaves_of(pre).contains_key(key));
                        }
                        let j = choose|j: int| 0 <= j < pre.len() && #[trigger] pre[j].0 == key;
                        assert(es[j].0 == pre[j].0);
                    } else {
                        let j = choose|j: int| 0 <= j < idx && #[trigger] es[j].0 == key
                            && word_seq(es[j].1) == empty_root_spec(0);
                    }
                    assert(entry_error(es, idx as int, DEPTH, max_entries(DEPTH)) == Some(MerkleError::DuplicateValuesForIndex(key)));
                }
                return Err(MerkleError::DuplicateValuesForIndex(key));
            }
            proof {
                assert forall|j: int| 0 <= j < idx implies #[trigger] es[j].0 != key by {
                    if es[j].0 == key {
                        assert(pre[j] == es[j]);
                        if word_seq(es[j].1) == empty_root_spec(0) {
                            assert(zeros@.contains(key));
                        } else {
                            assert(leaf_value(leaves_of(pre), key as nat) == word_seq(es[j].1));
                        }
                    }
                }
                assert(entry_error(es, idx as int, DEPTH, max_entries(DEPTH)) is None);
                assert(es.take(idx + 1).drop_last() =~= pre);
                assert(es.take(idx + 1)[idx as int] == es[idx as int]);
            }
            if RpoDigest::new(value) == zero {
                zeros.insert(key);
            }
            idx = idx + 1;
        }
        proof {
            assert(es.take(es.len() as int) =~= es);
        }
        Ok(tree)
    }

    /// A tree holding the given words at positions 0, 1, 2 and so on.
    pub fn with_contiguous_leaves(entries: &[[Felt; 4]]) -> (r: Result<Self, MerkleError>)
        ensures
            Self::with_leaves_spec(numbered(entries@), r),
    {
        let mut pairs: Vec<(u64, [Felt; 4])> = Vec::new();
        let mut i: usize = 0;
        while i < entries.len()
            invariant
                0 <= i <= entries@.len(),
                pairs@ == numbered(entries@).take(i as int),
            decreases entries@.len() - i,
        {
            pairs.push((i as u64, entries[i]));
            i = i + 1;
            assert(pairs@ =~= numbered(entries@).take(i as int));
        }
        assert(pairs@ =~= numbered(entries@));
        Self::with_leaves(pairs.as_slice())
    }

    /// The depth of the tree.
    pub fn depth(&self) -> (r: u8)
        ensures
            r == DEPTH,
    {
        DEPTH
    }

    /// The root of the tree.
    pub fn root(&self) -> (r: RpoDigest)
        ensures
            r@ == self.root_spec(),
    {
        self.root
    }

    /// The number of leaves holding a non-zero word.
    pub fn num_leaves(&self) -> (r: usize)
        ensures
            r == self.leaves_spec().len(),
    {
        assert(self.leaves_spec().dom() =~= self.leaves@.dom());
        self.leaves.len()
    }

    /// The word at `key`: the zero word where none is stored.
    pub fn get_leaf(&self, key: &LeafIndex<DEPTH>) -> (r: [Felt; 4])
        ensures
            word_seq(r) == leaf_value(self.leaves_spec(), key.index_spec().1),
    {
        let v = key.value();
        match self.leaves.get(&v) {
            Some(d) => d.to_felts(),
            None => {
                let z = RpoDigest::default();
                z.to_felts()
            },
        }
    }

    /// Whether the root is that of an empty tree.
    pub fn is_empty(&self) -> (r: bool)
        ensures
            r == (self.root_spec() == empty_root_spec(DEPTH as nat)),
    {
        proof { use_type_invariant(self); }
        self.root == EmptySubtreeRoots::entry(DEPTH, 0)
    }

    /// The node at `index`: a leaf at depth `DEPTH`, an inner node above it.
    pub fn get_node(&self, index: NodeIndex) -> (r: Result<RpoDigest, MerkleError>)
        ensures
            index@.0 == 0 ==> r == Err::<RpoDigest, MerkleError>(MerkleError::DepthTooSmall(0u8)),
            index@.0 > DEPTH ==> r == Err::<RpoDigest, MerkleError>(MerkleError::DepthTooBig(index@.0 as u64)),
            index@.0 == DEPTH && !index_valid(DEPTH as nat, index@.1) ==> r == Err::<RpoDigest, MerkleError>(
                MerkleError::InvalidNodeIndex { depth: DEPTH, value: index@.1 as u64 }),
            index@.0 == DEPTH && index_valid(DEPTH as nat, index@.1) ==> (r matches Ok(x)
                && x@ == leaf_value(self.leaves_spec(), index@.1)),
            0 < index@.0 < DEPTH ==> (r matches Ok(x) && x@ == merge_digest(
                self.stored_children(index@.0, index@.1).0, self.stored_children(index@.0, index@.1).1)),
            self.consistent() && 0 < index@.0 <= DEPTH && index_valid(index@.0, index@.1) ==> (r matches Ok(x)
                && x@ == smt_node(self.leaves_spec(), DEPTH as nat, index@.0, index@.1)),
    {
        proof { use_type_invariant(self); }
        let d = index.depth();
        let v = index.value();
        if index.is_root() {
            Err(MerkleError::DepthTooSmall(d))
        } else if d > DEPTH {
            Err(MerkleError::DepthTooBig(d as u64))
        } else if d == DEPTH {
            match LeafIndex::<DEPTH>::new(v) {
                Ok(li) => {
                    let leaf = self.get_leaf(&li);
                    Ok(RpoDigest::new(leaf))
                },
                Err(e) => Err(e),
            }
        } else {
            let node = self.inner_node(d, v);
            let r = node.hash();
            proof {
                if self.consistent() && index_valid(d as nat, v as nat) {
                    assert(self.stored_children(d as nat, v as nat) == smt_children(self.leaves_spec(), DEPTH as nat, d as nat, v as nat));
                }
            }
            Ok(r)
        }
    }

    /// The word at `key` with the siblings on the way up to the root. In a
    /// consistent tree the path leads from the word to the root.
    pub fn open(&self, key: &LeafIndex<DEPTH>) -> (r: ValuePath)
        ensures
            r.value@ == leaf_value(self.leaves_spec(), key.index_spec().1),
            r.path@ == smt_path(self.inner_spec(), DEPTH as nat, key.index_spec().1),
            self.consistent() ==> path_root(r.path@, key.index_spec().1, r.value@) == self.root_spec(),
    {
        proof { use_type_invariant(self); }
        let k = key.value();
        let leaf = self.get_leaf(key);
        let mut path: Vec<RpoDigest> = Vec::new();
        let mut c: u8 = DEPTH;
        let mut u: u64 = k;
        proof {
            vstd::arithmetic::power2::lemma2_to64();
            assert(k as nat / 1 == k as nat);
            if DEPTH == 64 {
                assert(k < pow2(64));
            }
        }
        while c > 0
            invariant
                c <= DEPTH,
                1 <= DEPTH <= 64,
                path@.len() == DEPTH - c,
                u as nat == k as nat / pow2((DEPTH - c) as nat),
                u < pow2(c as nat),
                forall|i: int| 0 <= i < path@.len() ==> #[trigger] path@[i]@ == smt_sibling(self.inner_spec(), DEPTH as nat, k as nat, i as nat),
            decreases c,
        {
            proof {
                lemma_halve_step(k as nat, DEPTH as nat, c as nat, u as nat);
            }
            let parent = u / 2;
            let node = self.inner_node(c - 1, parent);
            if u % 2 == 1 {
                path.push(node.left);
            } else {
                path.push(node.right);
            }
            proof {
                let i = (DEPTH - c) as nat;
                assert((DEPTH - i - 1) as nat == (c - 1) as nat);
                assert(path@[i as int]@ == smt_sibling(self.inner_spec(), DEPTH as nat, k as nat, i));
            }
            c = c - 1;
            u = parent;
        }
        let mp = MerklePath::new(path);
        let r = ValuePath::new(RpoDigest::new(leaf), mp);
        proof {
            assert(r.path@ =~= smt_path(self.inner_spec(), DEPTH as nat, k as nat));
            if self.consistent() {
                assert forall|d: nat, v: nat| d < DEPTH && v < pow2(d) implies
                    #[trigger] children_in(self.inner_spec(), DEPTH as nat, d, v) == smt_children(self.leaves_spec(), DEPTH as nat, d, v) by {
                    assert(self.stored_children(d, v) == smt_children(self.leaves_spec(), DEPTH as nat, d, v));
                }
                lemma_smt_path_node(self.inner_spec(), self.leaves_spec(), DEPTH as nat, k as nat, DEPTH as nat);
                assert(k as nat / pow2(DEPTH as nat) == 0);
            }
        }
        r
    }

    /// The stored leaves with their words, each once.
    pub fn leaves(&self) -> (r: Vec<(u64, [Felt; 4])>)
        ensures
            r@.len() == self.leaves_spec().len(),
            forall|i: int| 0 <= i < r@.len() ==> self.leaves_spec().contains_key((#[trigger] r@[i]).0)
                && word_seq(r@[i].1) == self.leaves_spec()[r@[i].0],
            forall|k: u64| #[trigger] self.leaves_spec().contains_key(k) ==> exists|i: int| 0 <= i < r@.len() && r@[i].0 == k,
    {
        let keys = leaf_keys(&self.leaves);
        let mut r: Vec<(u64, [Felt; 4])> = Vec::new();
        let mut i: usize = 0;
        while i < keys.len()
            invariant
                0 <= i <= keys@.len(),
                keys@.to_set() == self.leaves@.dom(),
                r@.len() == i,
                forall|j: int| 0 <= j < i ==> (#[trigger] r@[j]).0 == keys@[j]
                    && self.leaves@.contains_key(keys@[j]) && word_seq(r@[j].1) == self.leaves@[keys@[j]]@,
            decreases keys@.len() - i,
        {
            let k = keys[i];
            proof {
                assert(keys@.to_set().contains(keys@[i as int]));
            }
            let d = *self.leaves.get(&k).unwrap();
            r.push((k, d.to_felts()));
            i = i + 1;
        }
        proof {
            keys@.unique_seq_to_set();
            assert(self.leaves_spec().dom() =~= self.leaves@.dom());
            assert forall|k: u64| #[trigger] self.leaves_spec().contains_key(k) implies exists|i: int| 0 <= i < r@.len() && r@[i].0 == k by {
                assert(keys@.to_set().contains(k));
                let i = choose|i: int| 0 <= i < keys@.len() && keys@[i] == k;
                assert(r@[i].0 == k);
            }
        }
        r
    }

    /// The stored inner nodes, each once, with their digests.
    pub fn inner_nodes(&self) -> (r: Vec<InnerNodeInfo>)
        ensures
            r@.len() == self.inner_spec().len(),
            forall|i: int| 0 <= i < r@.len() ==> #[trigger] self.is_stored_info(r@[i]),
    {
        let keys = node_keys(&self.inner_nodes);
        let mut r: Vec<InnerNodeInfo> = Vec::new();
        let mut i: usize = 0;
        while i < keys.len()
            invariant
                0 <= i <= keys@.len(),
                keys@.to_set() == self.inner_nodes@.dom(),
                r@.len() == i,
                forall|j: int| 0 <= j < i ==> self.inner_nodes@.contains_key(keys@[j])
                    && (#[trigger] r@[j]).left == self.inner_nodes@[keys@[j]].left
                    && r@[j].right == self.inner_nodes@[keys@[j]].right
                    && r@[j].value@ == merge_digest(r@[j].left@, r@[j].right@),
            decreases keys@.len() - i,
        {
            let k = keys[i];
            proof {
                assert(keys@.to_set().contains(keys@[i as int]));
            }
            let n = *self.inner_nodes.get(&k).unwrap();
            r.push(InnerNodeInfo { value: n.hash(), left: n.left, right: n.right });
            i = i + 1;
        }
        proof {
            keys@.unique_seq_to_set();
            assert forall|i: int| 0 <= i < r@.len() implies #[trigger] self.is_stored_info(r@[i]) by {
                assert(self.describes_node(r@[i], keys@[i]));
            }
        }
        r
    }

    /// The inner node at `index`, above the leaves: the stored one, or that of
    /// an empty tree.
    pub fn get_inner_node(&self, index: NodeIndex) -> (r: InnerNode)
        requires
            index@.0 < DEPTH,
        ensures
            (r.left@, r.right@) == self.stored_children(index@.0, index@.1),
    {
        self.inner_node(index.depth(), index.value())
    }

    /// The root of an empty tree of this depth.
    pub fn empty_root() -> (r: RpoDigest)
        requires
            DEPTH <= 64,
        ensures
            r@ == empty_root_spec(DEPTH as nat),
    {
        EmptySubtreeRoots::entry(DEPTH, 0)
    }

    /// The inner node at depth `d`, position `v`: the stored one, or that of an empty tree.
    fn inner_node(&self, d: u8, v: u64) -> (r: InnerNode)
        requires
            d < DEPTH,
        ensures
            (r.left@, r.right@) == self.stored_children(d as nat, v as nat),
    {
        inner_node_at(&self.inner_nodes, DEPTH, d, v)
    }

    /// Sets the word at `key` and returns the word it held; the zero word
    /// removes the leaf. The inner nodes on the way to the root and the root are
    /// recomputed; a node whose digest is that of an empty subtree is dropped.
    pub fn insert(&mut self, key: LeafIndex<DEPTH>, value: [Felt; 4]) -> (r: [Felt; 4])
        ensures
            word_seq(r) == leaf_value(old(self).leaves_spec(), key.index_spec().1),
            final(self).leaves_spec() == set_leaf(old(self).leaves_spec(), key.index_spec().1 as u64, word_seq(value)),
            no_empty_root_collision(DEPTH as nat) && old(self).consistent() ==> final(self).consistent(),
    {
        proof { use_type_invariant(&*self); }
        let ghost s0 = *self;
        let k = key.value();
        let new_digest = RpoDigest::new(value);
        let zero = RpoDigest::default();
        let mut leaves: BTreeMap<u64, RpoDigest> = BTreeMap::new();
        std::mem::swap(&mut leaves, &mut self.leaves);
        let old_value: RpoDigest = if new_digest == zero {
            match leaves.remove(&k) {
                Some(d) => d,
                None => zero,
            }
        } else {
            match leaves.insert(k, new_digest) {
                Some(d) => d,
                None => zero,
            }
        };
        self.leaves = leaves;
        let ghost lv = self.leaves_spec();
        proof {
            assert(lv =~= set_leaf(s0.leaves_spec(), k, word_seq(value)));
            assert forall|j: nat| j != k implies #[trigger] leaf_value(lv, j) == leaf_value(s0.leaves_spec(), j) by {}
            assert(leaf_value(lv, k as nat) == new_digest@);
            assert(old_value@ == leaf_value(s0.leaves_spec(), k as nat));
        }
        if new_digest == old_value {
            proof {
                assert(lv =~= s0.leaves_spec());
                assert(self.inner_spec() == s0.inner_spec());
                assert(self.root_spec() == s0.root_spec());
                if s0.consistent() {
                    assert forall|d: nat, v: nat| d < DEPTH && v < pow2(d) implies
                        #[trigger] self.stored_children(d, v) == smt_children(self.leaves_spec(), DEPTH as nat, d, v) by {
                        assert(s0.stored_children(d, v) == smt_children(s0.leaves_spec(), DEPTH as nat, d, v));
                    }
                }
            }
            return value;
        }
        let ghost ok = no_empty_root_collision(DEPTH as nat) && s0.consistent();
        let mut nodes: BTreeMap<(u8, u64), InnerNode> = BTreeMap::new();
        std::mem::swap(&mut nodes, &mut self.inner_nodes);
        let mut hash = new_digest;
        let mut c: u8 = DEPTH;
        let mut u: u64 = k;
        proof {
            vstd::arithmetic::power2::lemma2_to64();
            assert(k as nat / 1 == k as nat);
            if DEPTH == 64 {
                assert(k < pow2(64));
            }
        }
        while c > 0
            invariant
                c <= DEPTH,
                1 <= DEPTH <= 64,
                u as nat == k as nat / pow2((DEPTH - c) as nat),
                u < pow2(c as nat),
                forall|j: nat| j != k ==> #[trigger] leaf_value(lv, j) == leaf_value(s0.leaves_spec(), j),
                ok == (no_empty_root_collision(DEPTH as nat) && s0.consistent()),
                ok ==> hash@ == smt_node(lv, DEPTH as nat, c as nat, u as nat),
                ok ==> forall|d: nat, v: nat| c <= d < DEPTH && v < pow2(d)
                    ==> #[trigger] children_in(nodes@, DEPTH as nat, d, v) == smt_children(lv, DEPTH as nat, d, v),
                forall|d: nat, v: nat| d < c && v < pow2(d)
                    ==> #[trigger] children_in(nodes@, DEPTH as nat, d, v) == s0.stored_children(d, v),
            decreases c,
        {
            let is_right = u % 2 == 1;
            let parent = u / 2;
            let d = c - 1;
            proof {
                lemma_halve_step(k as nat, DEPTH as nat, c as nat, u as nat);
            }
            let node = inner_node_at(&nodes, DEPTH, d, parent);
            let left: RpoDigest;
            let right: RpoDigest;
            if is_right {
                left = node.left;
                right = hash;
            } else {
                left = hash;
                right = node.right;
            }
            hash = Rpo256::merge(&[left, right]);
            let empty = EmptySubtreeRoots::entry(DEPTH, d);
            let ghost before = nodes@;
            if hash == empty {
                nodes.remove(&(d, parent));
            } else {
                nodes.insert((d, parent), InnerNode { left, right });
            }
            proof {
                lemma_key_cast(d as nat, parent as nat);
                assert forall|d2: nat, v2: nat| d2 < DEPTH && v2 < pow2(d2) && (d2 != d || v2 != parent) implies
                    #[trigger] children_in(nodes@, DEPTH as nat, d2, v2) == children_in(before, DEPTH as nat, d2, v2) by {
                    lemma_key_cast(d2, v2);
                }
                if ok {
                    let p = parent as nat;
                    let dn = d as nat;
                    assert(children_in(before, DEPTH as nat, dn, p) == s0.stored_children(dn, p));
                    assert(s0.stored_children(dn, p) == smt_children(s0.leaves_spec(), DEPTH as nat, dn, p));
                    if is_right {
                        lemma_smt_node_frame(lv, s0.leaves_spec(), DEPTH as nat, c as nat, 2 * p, k as nat);
                    } else {
                        lemma_smt_node_frame(lv, s0.leaves_spec(), DEPTH as nat, c as nat, 2 * p + 1, k as nat);
                    }
                    assert(hash@ == smt_node(lv, DEPTH as nat, dn, p));
                    if hash@ == empty@ {
                        assert(merge_digest(left@, right@) == empty_root_spec((DEPTH - dn) as nat));
                        assert(left@ == empty_root_spec((DEPTH - dn - 1) as nat));
                    }
                    assert(children_in(nodes@, DEPTH as nat, dn, p) == smt_children(lv, DEPTH as nat, dn, p));
                    assert forall|d2: nat, v2: nat| d <= d2 < DEPTH && v2 < pow2(d2) implies
                        #[trigger] children_in(nodes@, DEPTH as nat, d2, v2) == smt_children(lv, DEPTH as nat, d2, v2) by {
                        if d2 == d && v2 != p {
                            assert(children_in(nodes@, DEPTH as nat, d2, v2) == s0.stored_children(d2, v2));
                            lemma_smt_node_frame(lv, s0.leaves_spec(), DEPTH as nat, c as nat, 2 * v2, k as nat);
                            lemma_smt_node_frame(lv, s0.leaves_spec(), DEPTH as nat, c as nat, 2 * v2 + 1, k as nat);
                        }
                    }
                }
            }
            c = d;
            u = parent;
        }
        self.inner_nodes = nodes;
        self.root = hash;
        proof {
            if ok {
                assert(u == 0);
            }
        }
        old_value.to_felts()
    }

    /// The changes that setting each of `kv_pairs` in turn would make, without
    /// making them: the changed inner nodes, the new words and the new root.
    /// A pair that would not change its leaf is skipped.
    #[verifier::rlimit(40)]
    pub fn compute_mutations(&self, kv_pairs: &[(LeafIndex<DEPTH>, [Felt; 4])]) -> (r: MutationSet<u64, [Felt; 4], DEPTH>)
        ensures
            r.old_root_spec() == self.root_spec(),
            apply_pairs(self.leaves_spec(), pairs_view(r.pairs_spec())) == leaves_after(self.leaves_spec(), kv_pairs@),
            no_empty_root_collision(DEPTH as nat) && self.consistent() ==> tree_consistent(
                apply_node_mutations(self.inner_spec(), r.mutations_spec()),
                apply_pairs(self.leaves_spec(), pairs_view(r.pairs_spec())), r.root_spec(), DEPTH as nat),
    {
        proof { use_type_invariant(self); }
        let ghost l0 = self.leaves_spec();
        let ghost n0 = self.inner_spec();
        let ghost ok = no_empty_root_collision(DEPTH as nat) && self.consistent();
        let ghost kv = kv_pairs@;
        let mut new_root = self.root;
        let mut new_pairs: BTreeMap<u64, [Felt; 4]> = BTreeMap::new();
        let mut node_mutations: BTreeMap<(u8, u64), NodeMutation> = BTreeMap::new();
        let zero = RpoDigest::default();
        proof {
            assert(apply_pairs(l0, pairs_view(new_pairs@)) =~= l0);
            assert(apply_node_mutations(n0, node_mutations@) =~= n0);
            assert(kv.take(0) =~= Seq::<(LeafIndex<DEPTH>, [Felt; 4])>::empty());
            if ok {
                assert forall|d: nat, v: nat| d < DEPTH && v < pow2(d) implies
                    #[trigger] children_in(n0, DEPTH as nat, d, v) == smt_children(l0, DEPTH as nat, d, v) by {
                    assert(self.stored_children(d, v) == smt_children(l0, DEPTH as nat, d, v));
                }
            }
        }
        let mut t: usize = 0;
        while t < kv_pairs.len()
            invariant
                0 <= t <= kv.len(),
                kv == kv_pairs@,
                1 <= DEPTH <= 64,
                zero@ == empty_root_spec(0),
                l0 == self.leaves_spec(),
                n0 == self.inner_spec(),
                forall|k: u64| #[trigger] l0.contains_key(k) ==> l0[k] != empty_root_spec(0),
                ok == (no_empty_root_collision(DEPTH as nat) && self.consistent()),
                apply_pairs(l0, pairs_view(new_pairs@)) == leaves_after(l0, kv.take(t as int)),
                ok ==> tree_consistent(apply_node_mutations(n0, node_mutations@),
                    apply_pairs(l0, pairs_view(new_pairs@)), new_root@, DEPTH as nat),
            decreases kv.len() - t,
        {
            let (key, value) = kv_pairs[t];
            let k = key.value();
            let ghost lvt = apply_pairs(l0, pairs_view(new_pairs@));
            let ghost nvt = apply_node_mutations(n0, node_mutations@);
            let old_word: [Felt; 4] = match new_pairs.get(&k) {
                Some(w) => *w,
                None => self.get_leaf(&key),
            };
            let new_digest = RpoDigest::new(value);
            let ghost lnext = set_leaf(lvt, k, word_seq(value));
            proof {
                assert(kv.take(t + 1).drop_last() =~= kv.take(t as int));
                assert(kv.take(t + 1)[t as int] == kv[t as int]);
                assert(word_seq(old_word) == leaf_value(lvt, k as nat));
                assert(leaves_after(l0, kv.take(t + 1)) == lnext);
            }
            if new_digest == RpoDigest::new(old_word) {
                proof {
                    assert(lnext =~= lvt);
                }
                t = t + 1;
                continue;
            }
            proof {
                assert forall|j: nat| j != k implies #[trigger] leaf_value(lnext, j) == leaf_value(lvt, j) by {}
                assert(leaf_value(lnext, k as nat) == new_digest@);
            }
            let mut hash = new_digest;
            let mut c: u8 = DEPTH;
            let mut u: u64 = k;
            proof {
                vstd::arithmetic::power2::lemma2_to64();
                assert(k as nat / 1 == k as nat);
                if DEPTH == 64 {
                    assert(k < pow2(64));
                }
            }
            while c > 0
                invariant
                    c <= DEPTH,
                    1 <= DEPTH <= 64,
                    n0 == self.inner_spec(),
                    u as nat == k as nat / pow2((DEPTH - c) as nat),
                    u < pow2(c as nat),
                    forall|j: nat| j != k ==> #[trigger] leaf_value(lnext, j) == leaf_value(lvt, j),
                    ok ==> hash@ == smt_node(lnext, DEPTH as nat, c as nat, u as nat),
                    ok ==> forall|d: nat, v: nat| c <= d < DEPTH && v < pow2(d)
                        ==> #[trigger] children_in(apply_node_mutations(n0, node_mutations@), DEPTH as nat, d, v)
                            == smt_children(lnext, DEPTH as nat, d, v),
                    forall|d: nat, v: nat| d < c && v < pow2(d)
                        ==> #[trigger] children_in(apply_node_mutations(n0, node_mutations@), DEPTH as nat, d, v)
                            == children_in(nvt, DEPTH as nat, d, v),
                    ok ==> tree_consistent(nvt, lvt, new_root@, DEPTH as nat),
                    ok ==> no_empty_root_collision(DEPTH as nat),
                decreases c,
            {
                let is_right = u % 2 == 1;
                let parent = u / 2;
                let d = c - 1;
                proof {
                    lemma_halve_step(k as nat, DEPTH as nat, c as nat, u as nat);
                }
                let node: InnerNode = match node_mutations.get(&(d, parent)) {
                    Some(m) => match m {
                        NodeMutation::Addition(n) => *n,
                        NodeMutation::Removal => EmptySubtreeRoots::get_inner_node(DEPTH, d),
                    },
                    None => self.inner_node(d, parent),
                };
                let left: RpoDigest;
                let right: RpoDigest;
                if is_right {
                    left = node.left;
                    right = hash;
                } else {
                    left = hash;
                    right = node.right;
                }
                let new_node = InnerNode { left, right };
                hash = new_node.hash();
                let empty = EmptySubtreeRoots::entry(DEPTH, d);
                let ghost before = apply_node_mutations(n0, node_mutations@);
                proof {
                    assert((node.left@, node.right@) == children_in(before, DEPTH as nat, d as nat, parent as nat));
                }
                if hash == empty {
                    node_mutations.insert((d, parent), NodeMutation::Removal);
                } else {
                    node_mutations.insert((d, parent), NodeMutation::Addition(new_node));
                }
                proof {
                    let after = apply_node_mutations(n0, node_mutations@);
                    lemma_key_cast(d as nat, parent as nat);
                    assert forall|d2: nat, v2: nat| d2 < DEPTH && v2 < pow2(d2) && (d2 != d || v2 != parent) implies
                        #[trigger] children_in(after, DEPTH as nat, d2, v2) == children_in(before, DEPTH as nat, d2, v2) by {
                        lemma_key_cast(d2, v2);
                    }
                    if ok {
                        let p = parent as nat;
                        let dn = d as nat;
                        assert(children_in(before, DEPTH as nat, dn, p) == children_in(nvt, DEPTH as nat, dn, p));
                        assert(children_in(nvt, DEPTH as nat, dn, p) == smt_children(lvt, DEPTH as nat, dn, p));
                        if is_right {
                            lemma_smt_node_frame(lnext, lvt, DEPTH as nat, c as nat, 2 * p, k as nat);
                        } else {
                            lemma_smt_node_frame(lnext, lvt, DEPTH as nat, c as nat, 2 * p + 1, k as nat);
                        }
                        assert(hash@ == smt_node(lnext, DEPTH as nat, dn, p));
                        if hash@ == empty@ {
                            assert(merge_digest(left@, right@) == empty_root_spec((DEPTH - dn) as nat));
                            assert(left@ == empty_root_spec((DEPTH - dn - 1) as nat));
                        }
                        assert(children_in(after, DEPTH as nat, dn, p) == smt_children(lnext, DEPTH as nat, dn, p));
                        assert forall|d2: nat, v2: nat| d <= d2 < DEPTH && v2 < pow2(d2) implies
                            #[trigger] children_in(after, DEPTH as nat, d2, v2) == smt_children(lnext, DEPTH as nat, d2, v2) by {
                            if d2 == d && v2 != p {
                                assert(children_in(after, DEPTH as nat, d2, v2) == children_in(nvt, DEPTH as nat, d2, v2));
                                assert(children_in(nvt, DEPTH as nat, d2, v2) == smt_children(lvt, DEPTH as nat, d2, v2));
                                lemma_smt_node_frame(lnext, lvt, DEPTH as nat, c as nat, 2 * v2, k as nat);
                                lemma_smt_node_frame(lnext, lvt, DEPTH as nat, c as nat, 2 * v2 + 1, k as nat);
                            }
                        }
                    }
                }
                c = d;
                u = parent;
            }
            new_root = hash;
            new_pairs.insert(k, value);
            proof {
                assert(apply_pairs(l0, pairs_view(new_pairs@)) =~= lnext);
                if ok {
                    assert(u == 0);
                }
            }
            t = t + 1;
        }
        proof {
            assert(kv.take(kv.len() as int) =~= kv);
        }
        MutationSet::from_parts(self.root, node_mutations, new_pairs, new_root)
    }

    /// Applies changes computed for this tree: fails, changing nothing, when
    /// they were computed for another root.
    pub fn apply_mutations(&mut self, mutations: MutationSet<u64, [Felt; 4], DEPTH>) -> (r: Result<(), MerkleError>)
        ensures
            mutations.old_root_spec() != old(self).root_spec() ==> (r matches Err(MerkleError::ConflictingRoots { expected, actual })
                && expected@ == old(self).root_spec() && actual@ == mutations.old_root_spec()
                && final(self).root_spec() == old(self).root_spec()
                && final(self).leaves_spec() == old(self).leaves_spec()
                && final(self).inner_spec() == old(self).inner_spec()),
            mutations.old_root_spec() == old(self).root_spec() ==> (r is Ok
                && final(self).root_spec() == mutations.root_spec()
                && final(self).leaves_spec() == apply_pairs(old(self).leaves_spec(), pairs_view(mutations.pairs_spec()))
                && final(self).inner_spec() == apply_node_mutations(old(self).inner_spec(), mutations.mutations_spec())),
    {
        match self.apply_mutations_with_reversion(mutations) {
            Ok(_) => Ok(()),
            Err(e) => Err(e),
        }
    }

    /// Applies changes computed for this tree and returns the changes that undo
    /// them; fails, changing nothing, when they were computed for another root.
    #[verifier::rlimit(30)]
    pub fn apply_mutations_with_reversion(&mut self, mutations: MutationSet<u64, [Felt; 4], DEPTH>)
        -> (r: Result<MutationSet<u64, [Felt; 4], DEPTH>, MerkleError>)
        ensures
            mutations.old_root_spec() != old(self).root_spec() ==> (r matches Err(MerkleError::ConflictingRoots { expected, actual })
                && expected@ == old(self).root_spec() && actual@ == mutations.old_root_spec()
                && final(self).root_spec() == old(self).root_spec()
                && final(self).leaves_spec() == old(self).leaves_spec()
                && final(self).inner_spec() == old(self).inner_spec()),
            mutations.old_root_spec() == old(self).root_spec() ==> (r matches Ok(rev)
                && final(self).root_spec() == mutations.root_spec()
                && final(self).leaves_spec() == apply_pairs(old(self).leaves_spec(), pairs_view(mutations.pairs_spec()))
                && final(self).inner_spec() == apply_node_mutations(old(self).inner_spec(), mutations.mutations_spec())
                && rev.old_root_spec() == mutations.root_spec()
                && rev.root_spec() == old(self).root_spec()
                && rev.mutations_spec() == reverse_nodes(old(self).inner_spec(), mutations.mutations_spec())
                && pairs_view(rev.pairs_spec()) == reverse_pairs(old(self).leaves_spec(), pairs_view(mutations.pairs_spec()))),
    {
        proof { use_type_invariant(&*self); }
        let ghost m_old = mutations.old_root_spec();
        let ghost mm = mutations.mutations_spec();
        let ghost pp = mutations.pairs_spec();
        let ghost m_new = mutations.root_spec();
        let (old_root, node_mutations, new_pairs, new_root) = mutations.into_parts();
        if old_root != self.root {
            return Err(MerkleError::ConflictingRoots { expected: self.root, actual: old_root });
        }
        let ghost n0 = self.inner_spec();
        let ghost l0 = self.leaves_spec();
        let mut nodes: BTreeMap<(u8, u64), InnerNode> = BTreeMap::new();
        std::mem::swap(&mut nodes, &mut self.inner_nodes);
        let mut reverse: BTreeMap<(u8, u64), NodeMutation> = BTreeMap::new();
        let keys = node_keys(&node_mutations);
        let mut i: usize = 0;
        proof {
            assert(mm.restrict(keys@.take(0).to_set()) =~= Map::<(u8, u64), NodeMutation>::empty());
            assert(apply_node_mutations(n0, Map::<(u8, u64), NodeMutation>::empty()) =~= n0);
            assert(reverse_nodes(n0, Map::<(u8, u64), NodeMutation>::empty()) =~= Map::<(u8, u64), NodeMutation>::empty());
        }
        while i < keys.len()
            invariant
                0 <= i <= keys@.len(),
                keys@.to_set() == mm.dom(),
                keys@.no_duplicates(),
                node_mutations@ == mm,
                nodes@ == apply_node_mutations(n0, mm.restrict(keys@.take(i as int).to_set())),
                reverse@ == reverse_nodes(n0, mm.restrict(keys@.take(i as int).to_set())),
            decreases keys@.len() - i,
        {
            let k = keys[i];
            proof {
                assert(keys@.to_set().contains(keys@[i as int]));
                assert(!keys@.take(i as int).contains(k)) by {
                    if keys@.take(i as int).contains(k) {
                        let j = choose|j: int| 0 <= j < i && keys@.take(i as int)[j] == k;
                        assert(keys@[j] == keys@[i as int]);
                    }
                }
                assert(keys@.take(i + 1).to_set() =~= keys@.take(i as int).to_set().insert(k)) by {
                    assert(keys@.take(i + 1) =~= keys@.take(i as int).push(k));
                    vstd::seq_lib::lemma_seq_contains_after_push(keys@.take(i as int), k, k);
                }
            }
            let ghost before_nodes = nodes@;
            let ghost before_rev = reverse@;
            let ghost taken = mm.restrict(keys@.take(i as int).to_set());
            let ghost taken2 = mm.restrict(keys@.take(i + 1).to_set());
            proof {
                assert(taken2 =~= taken.insert(k, mm[k]));
                assert(!taken.contains_key(k));
                assert(before_nodes.contains_key(k) == n0.contains_key(k));
            }
            match node_mutations.get(&k).unwrap() {
                NodeMutation::Removal => {
                    match nodes.remove(&k) {
                        Some(n) => {
                            reverse.insert(k, NodeMutation::Addition(n));
                        },
                        None => {},
                    }
                },
                NodeMutation::Addition(n) => {
                    match nodes.insert(k, *n) {
                        Some(o) => {
                            reverse.insert(k, NodeMutation::Addition(o));
                        },
                        None => {
                            reverse.insert(k, NodeMutation::Removal);
                        },
                    }
                },
            }
            proof {
                assert(nodes@ =~= apply_node_mutations(n0, taken2));
                assert(reverse@ =~= reverse_nodes(n0, taken2));
            }
            i = i + 1;
        }
        proof {
            assert(keys@.take(keys@.len() as int) =~= keys@);
            assert(mm.restrict(keys@.to_set()) =~= mm);
        }
        self.inner_nodes = nodes;
        let mut leaves: BTreeMap<u64, RpoDigest> = BTreeMap::new();
        std::mem::swap(&mut leaves, &mut self.leaves);
        let mut reverse_words: BTreeMap<u64, [Felt; 4]> = BTreeMap::new();
        let pkeys = leaf_keys(&new_pairs);
        let zero = RpoDigest::default();
        let ghost pv = pairs_view(pp);
        let mut j: usize = 0;
        proof {
            assert(pv.restrict(pkeys@.take(0).to_set()) =~= Map::<u64, Seq<nat>>::empty());
            assert(apply_pairs(l0, Map::<u64, Seq<nat>>::empty()) =~= l0);
            assert(pairs_view(reverse_words@) =~= reverse_pairs(l0, Map::<u64, Seq<nat>>::empty()));
            assert(leaves@.map_values(|d: RpoDigest| d@) =~= l0);
        }
        while j < pkeys.len()
            invariant
                0 <= j <= pkeys@.len(),
                pkeys@.to_set() == pp.dom(),
                pkeys@.no_duplicates(),
                new_pairs@ == pp,
                pv == pairs_view(pp),
                zero@ == empty_root_spec(0),
                forall|k: u64| #[trigger] l0.contains_key(k) ==> l0[k] != empty_root_spec(0),
                forall|k: u64| #[trigger] leaves@.contains_key(k) ==> leaves@[k]@ != empty_root_spec(0),
                leaves@.map_values(|d: RpoDigest| d@) == apply_pairs(l0, pv.restrict(pkeys@.take(j as int).to_set())),
                pairs_view(reverse_words@) == reverse_pairs(l0, pv.restrict(pkeys@.take(j as int).to_set())),
            decreases pkeys@.len() - j,
        {
            let k = pkeys[j];
            proof {
                assert(pkeys@.to_set().contains(pkeys@[j as int]));
                assert(!pkeys@.take(j as int).contains(k)) by {
                    if pkeys@.take(j as int).contains(k) {
                        let a = choose|a: int| 0 <= a < j && pkeys@.take(j as int)[a] == k;
                        assert(pkeys@[a] == pkeys@[j as int]);
                    }
                }
                assert(pkeys@.take(j + 1).to_set() =~= pkeys@.take(j as int).to_set().insert(k)) by {
                    assert(pkeys@.take(j + 1) =~= pkeys@.take(j as int).push(k));
                    vstd::seq_lib::lemma_seq_contains_after_push(pkeys@.take(j as int), k, k);
                }
            }
            let ghost taken = pv.restrict(pkeys@.take(j as int).to_set());
            let ghost taken2 = pv.restrict(pkeys@.take(j + 1).to_set());
            let ghost before = leaves@.map_values(|d: RpoDigest| d@);
            proof {
                assert(taken2 =~= taken.insert(k, pv[k]));
                assert(!taken.contains_key(k));
                assert(before.contains_key(k) == l0.contains_key(k));
                if leaves@.contains_key(k) {
                    assert(before[k] == leaves@[k]@);
                    assert(before[k] == l0[k]);
                }
            }
            let ghost lm = leaves@;
            let ghost rw = reverse_words@;
            let w = *new_pairs.get(&k).unwrap();
            let d = RpoDigest::new(w);
            let prev: Option<RpoDigest> = if d == zero {
                leaves.remove(&k)
            } else {
                leaves.insert(k, d)
            };
            match prev {
                Some(o) => {
                    reverse_words.insert(k, o.to_felts());
                },
                None => {
                    reverse_words.insert(k, zero.to_felts());
                },
            }
            proof {
                assert(pv[k] == word_seq(w));
                assert(d@ == word_seq(w));
                let target = if d@ == empty_root_spec(0) { before.remove(k) } else { before.insert(k, d@) };
                assert(apply_pairs(l0, taken2) =~= target);
                if d@ == empty_root_spec(0) {
                    assert(leaves@ == lm.remove(k));
                } else {
                    assert(leaves@ == lm.insert(k, d));
                }
                assert forall|x: u64| #[trigger] leaves@.contains_key(x) implies leaves@.map_values(|d: RpoDigest| d@)[x] == target[x] by {
                    if x != k {
                        assert(lm.contains_key(x));
                        assert(before[x] == lm[x]@);
                    }
                }
                assert(leaves@.map_values(|d: RpoDigest| d@) =~= target);
                let rtarget = reverse_pairs(l0, taken).insert(k, leaf_value(l0, k as nat));
                assert(reverse_pairs(l0, taken2) =~= rtarget);
                match prev {
                    Some(o) => {
                        assert(lm.contains_key(k) && o == lm[k]);
                        assert(o@ == leaf_value(l0, k as nat));
                    },
                    None => {
                        assert(!lm.contains_key(k));
                        assert(!l0.contains_key(k));
                    },
                }
                assert(pairs_view(reverse_words@) =~= pairs_view(rw).insert(k, leaf_value(l0, k as nat)));
            }
            j = j + 1;
        }
        proof {
            assert(pkeys@.take(pkeys@.len() as int) =~= pkeys@);
            assert(pv.restrict(pkeys@.to_set()) =~= pv);
        }
        self.leaves = leaves;
        self.root = new_root;
        let rev = MutationSet::from_parts(new_root, reverse, reverse_words, old_root);
        Ok(rev)
    }

    /// Puts `subtree` in place of the subtree rooted at position `index` of
    /// depth `DEPTH - SUBTREE_DEPTH`: its leaves and inner nodes are copied,
    /// moved to their positions in this tree, and the nodes from there to the
    /// root are recomputed. Returns the new root.
    pub fn set_subtree<const SUBTREE_DEPTH: u8>(&mut self, index: u64, subtree: SimpleSmt<SUBTREE_DEPTH>) -> (r: Result<RpoDigest, MerkleError>)
        requires
            SUBTREE_DEPTH < 64,
            forall|k: u64| #[trigger] subtree.leaves_spec().contains_key(k) ==> k < pow2(SUBTREE_DEPTH as nat),
            forall|k: (u8, u64)| #[trigger] subtree.inner_spec().contains_key(k) ==> k.0 < SUBTREE_DEPTH && k.1 < pow2(k.0 as nat),
        ensures
            SUBTREE_DEPTH > DEPTH ==> r == Err::<RpoDigest, MerkleError>(MerkleError::SubtreeDepthExceedsDepth {
                subtree_depth: SUBTREE_DEPTH, tree_depth: DEPTH }),
            SUBTREE_DEPTH <= DEPTH && !index_valid((DEPTH - SUBTREE_DEPTH) as nat, index as nat) ==> r
                == Err::<RpoDigest, MerkleError>(MerkleError::InvalidNodeIndex { depth: (DEPTH - SUBTREE_DEPTH) as u8, value: index }),
            r is Err ==> final(self).root_spec() == old(self).root_spec() && final(self).leaves_spec() == old(self).leaves_spec()
                && final(self).inner_spec() == old(self).inner_spec(),
            SUBTREE_DEPTH <= DEPTH && index_valid((DEPTH - SUBTREE_DEPTH) as nat, index as nat) ==> (r matches Ok(root)
                && root@ == final(self).root_spec()
                && final(self).leaves_spec() == shifted_leaves(old(self).leaves_spec(), subtree.leaves_spec(),
                    (index * pow2(SUBTREE_DEPTH as nat)) as nat)),
    {
        proof {
            use_type_invariant(&*self);
            use_type_invariant(&subtree);
        }
        if SUBTREE_DEPTH > DEPTH {
            return Err(MerkleError::SubtreeDepthExceedsDepth { subtree_depth: SUBTREE_DEPTH, tree_depth: DEPTH });
        }
        let root_depth: u8 = DEPTH - SUBTREE_DEPTH;
        match NodeIndex::new(root_depth, index) {
            Ok(_) => {},
            Err(e) => return Err(e),
        }
        let ghost l0 = self.leaves_spec();
        let ghost sl = subtree.leaves_spec();
        let ghost si = subtree.inner_spec();
        let width: u64 = 1u64 << SUBTREE_DEPTH;
        proof {
            vstd::arithmetic::power2::lemma2_to64();
            vstd::arithmetic::power2::lemma_pow2_strictly_increases(SUBTREE_DEPTH as nat, 64);
            vstd::bits::lemma_u64_shl_is_mul(1u64, SUBTREE_DEPTH as u64);
            if root_depth == 64 {
                assert(false);
            }
            vstd::arithmetic::power2::lemma_pow2_pos(SUBTREE_DEPTH as nat);
            lemma_moved_index(index as nat, root_depth as nat, SUBTREE_DEPTH as nat, 0);
        }
        let shift: u64 = index * width;
        let sub_leaves = subtree.leaves();
        let mut leaves: BTreeMap<u64, RpoDigest> = BTreeMap::new();
        std::mem::swap(&mut leaves, &mut self.leaves);
        let ghost mut done: Set<u64> = Set::empty();
        let mut i: usize = 0;
        proof {
            assert(leaves@.map_values(|d: RpoDigest| d@) =~= shifted_leaves(l0, sl.restrict(done), shift as nat));
        }
        while i < sub_leaves.len()
            invariant
                0 <= i <= sub_leaves@.len(),
                forall|j: int| 0 <= j < sub_leaves@.len() ==> sl.contains_key((#[trigger] sub_leaves@[j]).0)
                    && word_seq(sub_leaves@[j].1) == sl[sub_leaves@[j].0],
                forall|k: u64| #[trigger] sl.contains_key(k) ==> exists|j: int| 0 <= j < sub_leaves@.len() && sub_leaves@[j].0 == k,
                forall|k: u64| #[trigger] sl.contains_key(k) ==> k < pow2(SUBTREE_DEPTH as nat) && sl[k] != empty_root_spec(0),
                shift as nat + pow2(SUBTREE_DEPTH as nat) <= 0x1_0000_0000_0000_0000,
                forall|k: u64| #[trigger] leaves@.contains_key(k) ==> leaves@[k]@ != empty_root_spec(0),
                forall|j: int| 0 <= j < i ==> done.contains((#[trigger] sub_leaves@[j]).0),
                forall|k: u64| #[trigger] done.contains(k) ==> sl.contains_key(k),
                leaves@.map_values(|d: RpoDigest| d@) == shifted_leaves(l0, sl.restrict(done), shift as nat),
            decreases sub_leaves@.len() - i,
        {
            let (k, w) = sub_leaves[i];
            proof {
                assert(sl.contains_key(k));
            }
            let ghost before = leaves@;
            leaves.insert(shift + k, RpoDigest::new(w));
            proof {
                let nd = done.insert(k);
                let target = shifted_leaves(l0, sl.restrict(nd), shift as nat);
                assert(sl.restrict(nd) =~= sl.restrict(done).insert(k, sl[k]));
                assert forall|x: u64| #[trigger] leaves@.contains_key(x) implies leaves@.map_values(|d: RpoDigest| d@)[x] == target[x] by {
                    if x == shift + k {
                        assert((x - shift) as u64 == k);
                        assert(leaves@[x]@ == word_seq(w));
                        assert(sub_leaves@[i as int] == (k, w));
                        assert(word_seq(w) == sl[k]);
                        assert(sl.restrict(nd).contains_key(k));
                        assert(target.contains_key(x));
                        assert(target[x] == sl[k]);
                        assert(leaves@.map_values(|d: RpoDigest| d@)[x] == leaves@[x]@);
                    } else {
                        assert(before.contains_key(x));
                        let bview = before.map_values(|d: RpoDigest| d@);
                        assert(bview[x] == before[x]@);
                        assert(bview == shifted_leaves(l0, sl.restrict(done), shift as nat));
                        assert(x < shift || (x - shift) as u64 != k);
                        assert(leaves@[x] == before[x]);
                        let sd = shifted_leaves(l0, sl.restrict(done), shift as nat);
                        assert(bview.contains_key(x));
                        assert(sd.contains_key(x));
                        assert(target.contains_key(x));
                        assert(bview[x] == sd[x]);
                        if x >= shift {
                            let y = (x - shift) as u64;
                            assert(y != k);
                            assert(sl.restrict(nd).contains_key(y) == sl.restrict(done).contains_key(y));
                            if sl.restrict(done).contains_key(y) {
                                assert(sl.restrict(nd)[y] == sl.restrict(done)[y]);
                            }
                        }
                        assert(target[x] == bview[x]);
                        assert(leaves@.map_values(|d: RpoDigest| d@)[x] == leaves@[x]@);
                    }
                }
                assert forall|x: u64| #[trigger] target.contains_key(x) implies leaves@.contains_key(x) by {
                    if x != shift + k {
                        let sd = shifted_leaves(l0, sl.restrict(done), shift as nat);
                        if x >= shift {
                            let y = (x - shift) as u64;
                            assert(y != k);
                            assert(sl.restrict(nd).contains_key(y) == sl.restrict(done).contains_key(y));
                        }
                        assert(sd.contains_key(x));
                        assert(before.map_values(|d: RpoDigest| d@).contains_key(x));
                        assert(before.contains_key(x));
                    }
                }
                assert(leaves@.map_values(|d: RpoDigest| d@).dom() =~= leaves@.dom());
                assert forall|x: u64| #[trigger] leaves@.dom().contains(x) implies target.contains_key(x) by {
                    if x == shift + k {
                        assert((x - shift) as u64 == k);
                        assert(sl.restrict(nd).contains_key(k));
                    } else {
                        assert(before.contains_key(x));
                        let bview = before.map_values(|d: RpoDigest| d@);
                        let sd = shifted_leaves(l0, sl.restrict(done), shift as nat);
                        assert(bview.contains_key(x));
                        assert(sd.contains_key(x));
                        if x >= shift {
                            let y = (x - shift) as u64;
                            assert(sl.restrict(done).contains_key(y) ==> sl.restrict(nd).contains_key(y));
                        }
                    }
                }
                assert(leaves@.dom() =~= target.dom());
                assert(leaves@.map_values(|d: RpoDigest| d@) =~= target);
                done = nd;
            }
            i = i + 1;
        }
        proof {
            assert(sl.restrict(done) =~= sl) by {
                assert forall|k: u64| #[trigger] sl.contains_key(k) implies done.contains(k) by {
                    let j = choose|j: int| 0 <= j < sub_leaves@.len() && sub_leaves@[j].0 == k;
                }
            }
        }
        self.leaves = leaves;
        let mut nodes: BTreeMap<(u8, u64), InnerNode> = BTreeMap::new();
        std::mem::swap(&mut nodes, &mut self.inner_nodes);
        let keys = node_keys(&subtree.inner_nodes);
        let mut b: usize = 0;
        while b < keys.len()
            invariant
                0 <= b <= keys@.len(),
                keys@.to_set() == si.dom(),
                si == subtree.inner_nodes@,
                forall|k: (u8, u64)| #[trigger] si.contains_key(k) ==> k.0 < SUBTREE_DEPTH && k.1 < pow2(k.0 as nat),
                root_depth + SUBTREE_DEPTH == DEPTH,
                DEPTH <= 64,
                index < pow2(root_depth as nat),
            decreases keys@.len() - b,
        {
            let key = keys[b];
            proof {
                assert(keys@.to_set().contains(keys@[b as int]));
                vstd::arithmetic::power2::lemma_pow2_strictly_increases(key.0 as nat, 64);
                vstd::arithmetic::power2::lemma2_to64();
                vstd::bits::lemma_u64_shl_is_mul(1u64, key.0 as u64);
                lemma_moved_index(index as nat, root_depth as nat, key.0 as nat, key.1 as nat);
                lemma_moved_index(index as nat, root_depth as nat, key.0 as nat, 0);
            }
            let node = *subtree.inner_nodes.get(&key).unwrap();
            let new_depth: u8 = root_depth + key.0;
            let new_value: u64 = index * (1u64 << key.0) + key.1;
            match NodeIndex::new(new_depth, new_value) {
                Ok(_) => {},
                Err(e) => {
                    proof {
                        assert(index_valid(new_depth as nat, new_value as nat));
                    }
                    return Err(e);
                },
            }
            nodes.insert((new_depth, new_value), node);
            b = b + 1;
        }
        let mut hash = subtree.root;
        let mut c: u8 = root_depth;
        let mut u: u64 = index;
        while c > 0
            invariant
                c <= root_depth,
                root_depth <= DEPTH,
            decreases c,
        {
            let is_right = u % 2 == 1;
            let parent = u / 2;
            let d = c - 1;
            let node = inner_node_at(&nodes, DEPTH, d, parent);
            let left: RpoDigest;
            let right: RpoDigest;
            if is_right {
                left = node.left;
                right = hash;
            } else {
                left = hash;
                right = node.right;
            }
            hash = Rpo256::merge(&[left, right]);
            let empty = EmptySubtreeRoots::entry(DEPTH, d);
            if hash == empty {
                nodes.remove(&(d, parent));
            } else {
                nodes.insert((d, parent), InnerNode { left, right });
            }
            c = d;
            u = parent;
        }
        self.inner_nodes = nodes;
        self.root = hash;
        Ok(self.root)
    }
}

/// The law of batched updates: changes computed for a consistent tree and then
/// applied to it give a consistent tree over the leaves after the updates.
pub proof fn lemma_computed_then_applied<const DEPTH: u8>(
    t: SimpleSmt<DEPTH>,
    m: MutationSet<u64, [Felt; 4], DEPTH>,
    t2: SimpleSmt<DEPTH>,
    kv: Seq<(LeafIndex<DEPTH>, [Felt; 4])>,
)
    requires
        no_empty_root_collision(DEPTH as nat),
        t.consistent(),
        apply_pairs(t.leaves_spec(), pairs_view(m.pairs_spec())) == leaves_after(t.leaves_spec(), kv),
        tree_consistent(apply_node_mutations(t.inner_spec(), m.mutations_spec()),
            apply_pairs(t.leaves_spec(), pairs_view(m.pairs_spec())), m.root_spec(), DEPTH as nat),
        t2.root_spec() == m.root_spec(),
        t2.leaves_spec() == apply_pairs(t.leaves_spec(), pairs_view(m.pairs_spec())),
        t2.inner_spec() == apply_node_mutations(t.inner_spec(), m.mutations_spec()),
    ensures
        t2.consistent(),
        t2.leaves_spec() == leaves_after(t.leaves_spec(), kv),
{
    assert forall|d: nat, v: nat| d < DEPTH && v < pow2(d) implies
        #[trigger] t2.stored_children(d, v) == smt_children(t2.leaves_spec(), DEPTH as nat, d, v) by {
        assert(children_in(t2.inner_spec(), DEPTH as nat, d, v) == smt_children(t2.leaves_spec(), DEPTH as nat, d, v));
    }
}

} // verus!
