//! A partial Merkle tree: the nodes of a tree that authenticate some of its
//! leaves, built from paths or from the leaves themselves.

use vstd::prelude::*;
use vstd::arithmetic::power2::pow2;
use std::collections::BTreeMap;
use std::collections::BTreeSet;
use crate::merkle::{MerkleError, InnerNodeInfo, merge_digest, digests_view};
use crate::merkle::index::{NodeIndex, index_valid};
use crate::merkle::path::{MerklePath, ValuePath, path_node_at, path_root, lemma_div_pow2_step};
use crate::merkle::tree::sibling_value;
use crate::felt::Felt;
use crate::rescue::digest::{RpoDigest, lemma_rpo_digest_view_eq, word_seq, read_felts_spec, ReadFailure};
use crate::rescue::rpo::Rpo256;
use crate::utils::bytes::{DeserializationError, SliceReader, le_bytes_spec, write_u64, le_value};

verus! {

/// The digest of the empty word.
pub open spec fn empty_digest() -> Seq<nat> {
    seq![0nat, 0nat, 0nat, 0nat]
}

/// The key of the node reached after `k` steps up from position `v` at depth `d`.
pub open spec fn pidx(d: nat, v: nat, k: nat) -> (u8, u64) {
    ((d - k) as u8, (v / pow2(k)) as u64)
}

/// The key of the sibling of that node.
pub open spec fn psib(d: nat, v: nat, k: nat) -> (u8, u64) {
    ((d - k) as u8, sibling_value(v / pow2(k)) as u64)
}

/// The node values after recording levels `0..=k` of a path from `node` at
/// position `v` and depth `d`: each node met and its sibling.
pub open spec fn add_path_nodes(
    old: Map<(u8, u64), Seq<nat>>,
    d: nat,
    v: nat,
    node: Seq<nat>,
    path: Seq<Seq<nat>>,
    k: nat,
) -> Map<(u8, u64), Seq<nat>>
    decreases k,
{
    let base = if k == 0 { old } else { add_path_nodes(old, d, v, node, path, (k - 1) as nat) };
    base.insert(pidx(d, v, k), path_node_at(path, v, node, k)).insert(psib(d, v, k), path[k as int])
}

/// After levels `0..=k` of a path are recorded, the node at the bottom holds
/// the recorded value and each sibling met holds the path's entry.
pub proof fn lemma_path_levels_read_back(old: Map<(u8, u64), Seq<nat>>, d: nat, v: nat, node: Seq<nat>, path: Seq<Seq<nat>>, k: nat)
    requires
        1 <= d <= 64,
        path.len() == d,
        k < d,
        v < 0x1_0000_0000_0000_0000,
    ensures
        add_path_nodes(old, d, v, node, path, k).contains_key(pidx(d, v, 0)),
        add_path_nodes(old, d, v, node, path, k)[pidx(d, v, 0)] == node,
        forall|j: nat| j <= k ==> add_path_nodes(old, d, v, node, path, k).contains_key(#[trigger] psib(d, v, j))
            && add_path_nodes(old, d, v, node, path, k)[psib(d, v, j)] == path[j as int],
    decreases k,
{
    vstd::arithmetic::power2::lemma_pow2_pos(k);
    vstd::arithmetic::power2::lemma2_to64();
    if k == 0 {
        assert(pidx(d, v, 0) != psib(d, v, 0));
    } else {
        lemma_path_levels_read_back(old, d, v, node, path, (k - 1) as nat);
        assert(pidx(d, v, k).0 != pidx(d, v, 0).0);
        assert forall|j: nat| j <= k implies add_path_nodes(old, d, v, node, path, k).contains_key(#[trigger] psib(d, v, j))
            && add_path_nodes(old, d, v, node, path, k)[psib(d, v, j)] == path[j as int] by {
            if j < k {
                assert(psib(d, v, j).0 != psib(d, v, k).0);
                assert(psib(d, v, j).0 != pidx(d, v, k).0);
            }
        }
    }
}

/// The law of adding a path: afterwards the node at the path's position is
/// the value added, and the path of that position is the path added, whether
/// or not the root was recorded as well.
pub proof fn lemma_add_path_read_back(old: Map<(u8, u64), Seq<nat>>, d: nat, v: nat, node: Seq<nat>, path: Seq<Seq<nat>>,
    root: Seq<nat>, with_root: bool)
    requires
        1 <= d <= 64,
        path.len() == d,
        index_valid(d, v),
        v < 0x1_0000_0000_0000_0000,
    ensures
        ({
            let m1 = add_path_nodes(old, d, v, node, path, (d - 1) as nat);
            let m = if with_root { m1.insert((0u8, 0u64), root) } else { m1 };
            &&& m.contains_key((d as u8, v as u64))
            &&& m[(d as u8, v as u64)] == node
            &&& has_siblings(m, d, v)
            &&& siblings_in(m, d, v) == path
        }),
{
    let m1 = add_path_nodes(old, d, v, node, path, (d - 1) as nat);
    let m = if with_root { m1.insert((0u8, 0u64), root) } else { m1 };
    vstd::arithmetic::power2::lemma2_to64();
    vstd::arithmetic::power2::lemma2_to64_rest();
    if d < 64 {
        vstd::arithmetic::power2::lemma_pow2_strictly_increases(d, 64);
    }
    lemma_path_levels_read_back(old, d, v, node, path, (d - 1) as nat);
    assert(pidx(d, v, 0) == (d as u8, v as u64));
    assert forall|k: nat| k < d implies #[trigger] m.contains_key(psib(d, v, k)) && m[psib(d, v, k)] == path[k as int] by {
        assert(psib(d, v, k).0 != 0u8);
    }
    assert(siblings_in(m, d, v) =~= path);
}

/// The leaves after recording levels `0..=k` of a path: the node and its sibling
/// at the bottom, the new siblings above, and none of the nodes met above the bottom.
pub open spec fn add_path_leaves(old: Set<(u8, u64)>, old_dom: Set<(u8, u64)>, d: nat, v: nat, k: nat) -> Set<(u8, u64)>
    decreases k,
{
    if k == 0 {
        old.insert(pidx(d, v, 0)).insert(psib(d, v, 0))
    } else {
        let base = add_path_leaves(old, old_dom, d, v, (k - 1) as nat).remove(pidx(d, v, k));
        if old_dom.contains(psib(d, v, k)) {
            base
        } else {
            base.insert(psib(d, v, k))
        }
    }
}

/// The node where an update of position `v` at depth `d` lands after `k`
/// steps: each step up from a node that is not a leaf.
pub open spec fn leaf_above(leaves: Set<(u8, u64)>, d: nat, v: nat, k: nat) -> (nat, nat)
    decreases k,
{
    if k == 0 {
        (d, v)
    } else {
        let p = leaf_above(leaves, d, v, (k - 1) as nat);
        if leaves.contains((p.0 as u8, p.1 as u64)) { p } else { (if p.0 == 0 { 0 } else { (p.0 - 1) as nat }, p.1 / 2) }
    }
}

/// The nodes after setting `node` at `(d, v)` and recomputing `k` nodes above
/// it from the siblings `path`.
pub open spec fn update_path_nodes(
    old: Map<(u8, u64), Seq<nat>>,
    d: nat,
    v: nat,
    node: Seq<nat>,
    path: Seq<Seq<nat>>,
    k: nat,
) -> Map<(u8, u64), Seq<nat>>
    decreases k,
{
    if k == 0 {
        old.insert(pidx(d, v, 0), node)
    } else {
        update_path_nodes(old, d, v, node, path, (k - 1) as nat).insert(pidx(d, v, k), path_node_at(path, v, node, k))
    }
}

/// Moving up keeps a position within its depth.
proof fn lemma_valid_up(d: nat, v: nat)
    requires
        index_valid(d, v),
        v < 0x1_0000_0000_0000_0000,
    ensures
        index_valid(if d == 0 { 0 } else { (d - 1) as nat }, v / 2),
{
    vstd::arithmetic::power2::lemma2_to64();
    if d == 0 {
        assert(v < 1);
    } else if d <= 64 {
        vstd::arithmetic::power2::lemma_pow2_unfold(d);
        if d == 64 {
            assert(v < pow2(64));
        }
    }
}

/// Recomputing the nodes on the way up changes no sibling of that way.
proof fn lemma_update_keeps_siblings(
    old: Map<(u8, u64), Seq<nat>>,
    d: nat,
    v: nat,
    node: Seq<nat>,
    path: Seq<Seq<nat>>,
    j: nat,
    k: nat,
)
    requires
        d <= 255,
        v < 0x1_0000_0000_0000_0000,
        j <= d,
        k < d,
    ensures
        update_path_nodes(old, d, v, node, path, j).contains_key(psib(d, v, k)) == old.contains_key(psib(d, v, k)),
        old.contains_key(psib(d, v, k)) ==> update_path_nodes(old, d, v, node, path, j)[psib(d, v, k)] == old[psib(d, v, k)],
    decreases j,
{
    vstd::arithmetic::power2::lemma_pow2_pos(k);
    vstd::arithmetic::div_mod::lemma_div_is_ordered_by_denominator(v as int, 1, pow2(k) as int);
    vstd::arithmetic::power2::lemma2_to64();
    let x = v / pow2(k);
    assert(x <= v) by {
        assert(v as int / 1 == v as int);
    }
    if j > 0 {
        lemma_update_keeps_siblings(old, d, v, node, path, (j - 1) as nat, k);
    }
    vstd::arithmetic::power2::lemma_pow2_pos(j);
    let y = v / pow2(j);
    assert(y <= v) by {
        vstd::arithmetic::div_mod::lemma_div_is_ordered_by_denominator(v as int, 1, pow2(j) as int);
        assert(v as int / 1 == v as int);
    }
    assert(pidx(d, v, j) != psib(d, v, k)) by {
        if j == k {
            assert(sibling_value(x) != x);
            assert(sibling_value(x) < 0x1_0000_0000_0000_0000);
        }
    }
}

/// The root of a set of nodes: the node at depth 0, or the empty digest.
pub open spec fn root_of(nodes: Map<(u8, u64), Seq<nat>>) -> Seq<nat> {
    if nodes.contains_key((0u8, 0u64)) {
        nodes[(0u8, 0u64)]
    } else {
        empty_digest()
    }
}

/// The siblings on the way up from `(d, v)` in `nodes`, lowest first.
pub open spec fn siblings_in(nodes: Map<(u8, u64), Seq<nat>>, d: nat, v: nat) -> Seq<Seq<nat>> {
    Seq::new(d, |k: int| nodes[psib(d, v, k as nat)])
}

/// Whether all siblings on the way up from `(d, v)` are present.
pub open spec fn has_siblings(nodes: Map<(u8, u64), Seq<nat>>, d: nat, v: nat) -> bool {
    forall|k: nat| k < d ==> #[trigger] nodes.contains_key(psib(d, v, k))
}

/// Values of a map of digests.
pub open spec fn map_view(m: Map<(u8, u64), RpoDigest>) -> Map<(u8, u64), Seq<nat>> {
    m.map_values(|x: RpoDigest| x@)
}

/// The larger of two depths.
pub open spec fn max_u8(a: u8, b: u8) -> u8 {
    if a >= b { a } else { b }
}

/// The nodes after adding a path from `value` at position `index` (the length
/// of the path is the depth): the nodes met and their siblings, and the root
/// when there was none.
pub open spec fn path_added_nodes(nodes: Map<(u8, u64), Seq<nat>>, index: u64, value: Seq<nat>, path: Seq<Seq<nat>>)
    -> Map<(u8, u64), Seq<nat>>
{
    let d = path.len();
    let v = index as nat;
    let nodes1 = add_path_nodes(nodes, d, v, value, path, (d - 1) as nat);
    if root_of(nodes1) == empty_digest() { nodes1.insert((0u8, 0u64), path_root(path, v, value)) } else { nodes1 }
}

/// Whether such a path is taken: its position fits its depth, the depth is
/// between 1 and 64, and it leads to the root already there, if any.
pub open spec fn path_accepted(nodes: Map<(u8, u64), Seq<nat>>, index: u64, value: Seq<nat>, path: Seq<Seq<nat>>) -> bool {
    let d = path.len();
    let v = index as nat;
    let nodes1 = add_path_nodes(nodes, d, v, value, path, (d - 1) as nat);
    &&& index_valid(d, v)
    &&& 1 <= d <= 64
    &&& (root_of(nodes1) == empty_digest() || root_of(nodes1) == path_root(path, v, value))
}

/// The error of a path that is not taken.
pub open spec fn path_refused(nodes: Map<(u8, u64), Seq<nat>>, index: u64, value: Seq<nat>, path: Seq<Seq<nat>>,
    e: MerkleError) -> bool
{
    let d = path.len();
    let v = index as nat;
    let nodes1 = add_path_nodes(nodes, d, v, value, path, (d - 1) as nat);
    if !index_valid(d, v) {
        e == MerkleError::InvalidNodeIndex { depth: d as u8, value: index }
    } else if d < 1 {
        e == MerkleError::DepthTooSmall(d as u8)
    } else if d > 64 {
        e == MerkleError::DepthTooBig(d as u64)
    } else {
        e matches MerkleError::ConflictingRoots { expected, actual } && expected@ == root_of(nodes1)
            && actual@ == path_root(path, v, value)
    }
}

/// The depth, nodes and leaves after adding the first `k` of `paths` in turn
/// to an empty tree, all of them taken.
pub open spec fn paths_state(paths: Seq<(u64, RpoDigest, MerklePath)>, k: nat) -> (u8, Map<(u8, u64), Seq<nat>>, Set<(u8, u64)>)
    decreases k,
{
    if k == 0 || k > paths.len() {
        (0u8, Map::empty(), Set::empty())
    } else {
        let st = paths_state(paths, (k - 1) as nat);
        let p = paths[k - 1];
        let d = p.2@.len();
        (max_u8(st.0, d as u8), path_added_nodes(st.1, p.0, p.1@, p.2@),
            add_path_leaves(st.2, st.1.dom(), d, p.0 as nat, (d - 1) as nat))
    }
}

/// Whether path `k` of `paths` is taken after the ones before it.
pub open spec fn path_taken(paths: Seq<(u64, RpoDigest, MerklePath)>, k: int) -> bool {
    path_accepted(paths_state(paths, k as nat).1, paths[k].0, paths[k].1@, paths[k].2@)
}

/// A partial Merkle tree.
#[derive(Debug, Clone, PartialEq, Eq)]
pub struct PartialMerkleTree {
    max_depth: u8,
    nodes: BTreeMap<(u8, u64), RpoDigest>,
    leaves: BTreeSet<(u8, u64)>,
}

impl PartialMerkleTree {
    /// Deepest depth allowed for a path.
    pub const MAX_DEPTH: u8 = 64;
    /// Shallowest depth allowed for a path.
    pub const MIN_DEPTH: u8 = 1;

    /// Depth of the deepest leaf.
    pub closed spec fn depth_spec(&self) -> u8 {
        self.max_depth
    }

    /// The nodes by depth and position.
    pub closed spec fn nodes_spec(&self) -> Map<(u8, u64), Seq<nat>> {
        map_view(self.nodes@)
    }

    /// The positions of the leaves.
    pub closed spec fn leaves_spec(&self) -> Set<(u8, u64)> {
        self.leaves@
    }

    /// `info` is the node at `k`, not a leaf, with its two children.
    pub open spec fn describes_inner(&self, info: InnerNodeInfo, k: (u8, u64)) -> bool {
        &&& self.nodes_spec().contains_key(k)
        &&& !self.leaves_spec().contains(k)
        &&& info.value@ == self.nodes_spec()[k]
        &&& info.left@ == self.nodes_spec()[((k.0 + 1) as u8, ((2 * k.1) % 0x1_0000_0000_0000_0000) as u64)]
        &&& info.right@ == self.nodes_spec()[((k.0 + 1) as u8, ((2 * k.1) % 0x1_0000_0000_0000_0000 + 1) as u64)]
    }

    /// `info` is some node that is not a leaf, with its two children.
    pub open spec fn is_inner_info(&self, info: InnerNodeInfo) -> bool {
        exists|k: (u8, u64)| #[trigger] self.describes_inner(info, k)
    }

    /// An empty tree.
    pub fn new() -> (r: Self)
        ensures
            r.depth_spec() == 0,
            r.nodes_spec() == Map::<(u8, u64), Seq<nat>>::empty(),
            r.leaves_spec() == Set::<(u8, u64)>::empty(),
    {
        let r = PartialMerkleTree { max_depth: 0, nodes: BTreeMap::new(), leaves: BTreeSet::new() };
        assert(r.nodes_spec() =~= Map::<(u8, u64), Seq<nat>>::empty());
        r
    }


    /// Sets the word at position `index` of the deepest level, or, when that
    /// node is not a leaf, at the first leaf above it, and recomputes the nodes
    /// up to the root. Gives back the value it replaced.
    pub fn update_leaf(&mut self, index: u64, value: [Felt; 4]) -> (r: Result<RpoDigest, MerkleError>)
        requires
            ({
                let f = leaf_above(old(self).leaves_spec(), old(self).depth_spec() as nat, index as nat, old(self).depth_spec() as nat);
                index_valid(old(self).depth_spec() as nat, index as nat)
                    && old(self).nodes_spec().contains_key((f.0 as u8, f.1 as u64))
                    && word_seq(value) != old(self).nodes_spec()[(f.0 as u8, f.1 as u64)]
                    ==> has_siblings(old(self).nodes_spec(), f.0, f.1)
            }),
        ensures
            final(self).leaves_spec() == old(self).leaves_spec(),
            final(self).depth_spec() == old(self).depth_spec(),
            !index_valid(old(self).depth_spec() as nat, index as nat) ==> r == Err::<RpoDigest, MerkleError>(
                MerkleError::InvalidNodeIndex { depth: old(self).depth_spec(), value: index })
                && final(self).nodes_spec() == old(self).nodes_spec(),
            ({
                let f = leaf_above(old(self).leaves_spec(), old(self).depth_spec() as nat, index as nat, old(self).depth_spec() as nat);
                let key = (f.0 as u8, f.1 as u64);
                let old_nodes = old(self).nodes_spec();
                &&& index_valid(old(self).depth_spec() as nat, index as nat) && !old_nodes.contains_key(key) ==> (
                    r matches Err(MerkleError::NodeIndexNotFoundInTree(i)) && i@ == f
                    && final(self).nodes_spec() == old_nodes.insert(key, word_seq(value)))
                &&& index_valid(old(self).depth_spec() as nat, index as nat) && old_nodes.contains_key(key) ==> (
                    r matches Ok(o) && o@ == old_nodes[key]
                    && final(self).nodes_spec() == if word_seq(value) == old_nodes[key] { old_nodes } else {
                        update_path_nodes(old_nodes, f.0, f.1, word_seq(value), siblings_in(old_nodes, f.0, f.1), f.0) })
            }),
    {
        let ghost old_nodes = self.nodes_spec();
        let ghost lv = self.leaves_spec();
        let depth = self.max_depth;
        match NodeIndex::new(depth, index) {
            Ok(_) => {},
            Err(e) => return Err(e),
        }
        let mut d: u8 = depth;
        let mut v: u64 = index;
        let mut t: u8 = 0;
        while t < depth
            invariant
                t <= depth,
                depth == self.max_depth,
                lv == self.leaves_spec(),
                (d as nat, v as nat) == leaf_above(lv, depth as nat, index as nat, t as nat),
                d <= depth,
                index_valid(d as nat, v as nat),
            decreases depth - t,
        {
            proof { lemma_valid_up(d as nat, v as nat); }
            if !self.leaves.contains(&(d, v)) {
                d = if d == 0 { 0 } else { d - 1 };
                v = v / 2;
            }
            t = t + 1;
        }
        let new_digest = RpoDigest::new(value);
        let prev = self.nodes.insert((d, v), new_digest);
        let old_value = match prev {
            Some(o) => o,
            None => {
                proof {
                    assert(self.nodes_spec() =~= old_nodes.insert((d, v), word_seq(value)));
                }
                return Err(MerkleError::NodeIndexNotFoundInTree(NodeIndex::new_unchecked(d, v)));

            },
        };
        if new_digest == old_value {
            proof {
                assert(self.nodes_spec() =~= old_nodes);
            }
            return Ok(old_value);
        }
        let ghost fd = d as nat;
        let ghost fv = v as nat;
        let ghost sibs = siblings_in(old_nodes, fd, fv);
        let mut hash = new_digest;
        let mut cd: u8 = d;
        let mut cv: u64 = v;
        let mut j: u8 = 0;
        proof {
            vstd::arithmetic::power2::lemma2_to64();
            assert(fv / 1 == fv);
            assert(self.nodes_spec() =~= update_path_nodes(old_nodes, fd, fv, word_seq(value), sibs, 0));
        }
        while j < d
            invariant
                j <= d,
                fd == d as nat,
                fv == v as nat,
                has_siblings(old_nodes, fd, fv),
                sibs == siblings_in(old_nodes, fd, fv),
                lv == self.leaves_spec(),
                depth == self.max_depth,
                self.nodes_spec() == update_path_nodes(old_nodes, fd, fv, word_seq(value), sibs, j as nat),
                (cd as u8, cv as u64) == pidx(fd, fv, j as nat),
                cd as nat == fd - j,
                cv as nat == fv / pow2(j as nat),
                hash@ == path_node_at(sibs, fv, word_seq(value), j as nat),
            decreases d - j,
        {
            let sk = if cv % 2 == 0 { (cd, cv + 1) } else { (cd, cv - 1) };
            proof {
                lemma_update_keeps_siblings(old_nodes, fd, fv, word_seq(value), sibs, j as nat, j as nat);
                assert(old_nodes.contains_key(psib(fd, fv, j as nat)));
                assert(sk == psib(fd, fv, j as nat));
                assert(self.nodes@.contains_key(sk));
            }
            let sibling = *self.nodes.get(&sk).unwrap();
            let pair: [RpoDigest; 2] = if cv % 2 == 1 { [sibling, hash] } else { [hash, sibling] };
            hash = Rpo256::merge(&pair);
            proof {
                assert(sibling@ == sibs[j as int]);
                lemma_div_pow2_step(fv, j as nat);
            }
            cd = cd - 1;
            cv = cv / 2;
            self.nodes.insert((cd, cv), hash);
            j = j + 1;
            proof {
                assert(self.nodes_spec() =~= update_path_nodes(old_nodes, fd, fv, word_seq(value), sibs, j as nat));
            }
        }
        Ok(old_value)
    }

    /// The root, or the empty digest when the tree has none.
    pub fn root(&self) -> (r: RpoDigest)
        ensures
            r@ == root_of(self.nodes_spec()),
    {
        match self.nodes.get(&(0u8, 0u64)) {
            Some(d) => *d,
            None => RpoDigest::default(),
        }
    }

    /// Depth of the deepest leaf.
    pub fn max_depth(&self) -> (r: u8)
        ensures
            r == self.depth_spec(),
    {
        self.max_depth
    }

    /// The node at `index`.
    pub fn get_node(&self, index: NodeIndex) -> (r: Result<RpoDigest, MerkleError>)
        ensures
            self.nodes_spec().contains_key(index.key()) ==> (r matches Ok(d) && d@ == self.nodes_spec()[index.key()]),
            !self.nodes_spec().contains_key(index.key()) ==> r == Err::<RpoDigest, MerkleError>(
                MerkleError::NodeIndexNotFoundInTree(index)),
    {
        match self.nodes.get(&index.key()) {
            Some(d) => Ok(*d),
            None => Err(MerkleError::NodeIndexNotFoundInTree(index)),
        }
    }

    /// Whether `index` is a leaf.
    pub fn is_leaf(&self, index: NodeIndex) -> (r: bool)
        ensures
            r == self.leaves_spec().contains(index.key()),
    {
        self.leaves.contains(&index.key())
    }

    /// The siblings on the way from `index` to the root; every one of them must be present.
    pub fn get_path(&self, index: NodeIndex) -> (r: Result<MerklePath, MerkleError>)
        requires
            self.nodes_spec().contains_key(index.key()) && 1 <= index@.0 <= self.depth_spec()
                ==> has_siblings(self.nodes_spec(), index@.0, index@.1),
        ensures
            index@.0 == 0 ==> r == Err::<MerklePath, MerkleError>(MerkleError::DepthTooSmall(0)),
            index@.0 > self.depth_spec() ==> r == Err::<MerklePath, MerkleError>(MerkleError::DepthTooBig(index@.0 as u64)),
            1 <= index@.0 <= self.depth_spec() && !self.nodes_spec().contains_key(index.key())
                ==> r == Err::<MerklePath, MerkleError>(MerkleError::NodeIndexNotFoundInTree(index)),
            1 <= index@.0 <= self.depth_spec() && self.nodes_spec().contains_key(index.key())
                ==> (r matches Ok(p) && p@ == siblings_in(self.nodes_spec(), index@.0, index@.1)),
    {
        if index.is_root() {
            return Err(MerkleError::DepthTooSmall(index.depth()));
        } else if index.depth() > self.max_depth {
            return Err(MerkleError::DepthTooBig(index.depth() as u64));
        }
        if !self.nodes.contains_key(&index.key()) {
            return Err(MerkleError::NodeIndexNotFoundInTree(index));
        }
        let ghost d = index@.0;
        let ghost v = index@.1;
        let mut idx = index;
        let mut path: Vec<RpoDigest> = Vec::new();
        let mut k: u8 = 0;
        proof {
            vstd::arithmetic::power2::lemma2_to64();
        }
        while k < index.depth()
            invariant
                0 <= k <= d,
                d == index@.0,
                v == index@.1,
                d <= 255,
                idx@ == ((d - k) as nat, v / pow2(k as nat)),
                has_siblings(self.nodes_spec(), d, v),
                path@.len() == k,
                forall|j: int| 0 <= j < k ==> #[trigger] path@[j]@ == siblings_in(self.nodes_spec(), d, v)[j],
            decreases d - k,
        {
            let s = idx.sibling();
            proof {
                assert(s.key() == psib(d, v, k as nat));
                assert(self.nodes_spec().contains_key(psib(d, v, k as nat)));
                lemma_div_pow2_step(v, k as nat);
            }
            let sib = *self.nodes.get(&s.key()).unwrap();
            path.push(sib);
            idx.move_up();
            k = k + 1;
        }
        let p = MerklePath::new(path);
        assert(p@ =~= siblings_in(self.nodes_spec(), d, v));
        Ok(p)
    }

    /// Records a path: `value` at position `index_value`, at the depth given by the
    /// length of `path`, with its siblings and the nodes on the way to the root.
    pub fn add_path(&mut self, index_value: u64, value: RpoDigest, path: MerklePath) -> (r: Result<(), MerkleError>)
        ensures
            ({
                let d = path@.len();
                let v = index_value as nat;
                let nodes1 = add_path_nodes(old(self).nodes_spec(), d, v, value@, path@, (d - 1) as nat);
                let root = path_root(path@, v, value@);
                if !index_valid(d, v) {
                    &&& r == Err::<(), MerkleError>(MerkleError::InvalidNodeIndex { depth: d as u8, value: index_value })
                    &&& *final(self) == *old(self)
                } else if d < 1 {
                    &&& r == Err::<(), MerkleError>(MerkleError::DepthTooSmall(d as u8))
                    &&& *final(self) == *old(self)
                } else if d > 64 {
                    &&& r == Err::<(), MerkleError>(MerkleError::DepthTooBig(d as u64))
                    &&& *final(self) == *old(self)
                } else {
                    &&& final(self).depth_spec() == max_u8(old(self).depth_spec(), d as u8)
                    &&& final(self).leaves_spec() == add_path_leaves(old(self).leaves_spec(),
                        old(self).nodes_spec().dom(), d, v, (d - 1) as nat)
                    &&& if root_of(nodes1) == empty_digest() {
                        &&& r is Ok
                        &&& final(self).nodes_spec() == nodes1.insert((0u8, 0u64), root)
                    } else if root_of(nodes1) != root {
                        &&& r matches Err(MerkleError::ConflictingRoots { expected, actual })
                        &&& expected@ == root_of(nodes1)
                        &&& actual@ == root
                        &&& final(self).nodes_spec() == nodes1
                    } else {
                        &&& r is Ok
                        &&& final(self).nodes_spec() == nodes1
                    }
                }
            }),
    {
        let d = path.depth();
        let index = match NodeIndex::new(d, index_value) {
            Ok(i) => i,
            Err(e) => return Err(e),
        };
        if d < Self::MIN_DEPTH {
            return Err(MerkleError::DepthTooSmall(d));
        } else if d > Self::MAX_DEPTH {
            return Err(MerkleError::DepthTooBig(d as u64));
        }
        let ghost v = index_value as nat;
        let ghost old_nodes = self.nodes_spec();
        let ghost old_leaves = self.leaves_spec();
        let ghost old_depth = self.max_depth;
        let ghost pv = path@;
        let siblings = path.to_vec();
        self.max_depth = if d >= self.max_depth { d } else { self.max_depth };
        proof {
            vstd::arithmetic::power2::lemma2_to64();
            vstd::arithmetic::div_mod::lemma_div_basics(v as int);
        }
        let mut idx = index;
        let s0 = idx.sibling();
        self.leaves.insert(idx.key());
        self.leaves.insert(s0.key());
        self.nodes.insert(idx.key(), value);
        self.nodes.insert(s0.key(), siblings[0]);
        proof {
            assert(idx.key() == pidx(d as nat, v, 0));
            assert(s0.key() == psib(d as nat, v, 0));
            assert(self.nodes_spec() =~= add_path_nodes(old_nodes, d as nat, v, value@, pv, 0));
        }
        let mut node = Rpo256::merge(&idx.build_node(value, siblings[0]));
        let mut k: usize = 1;
        proof {
            lemma_div_pow2_step(v, 0);
        }
        while k < siblings.len()
            invariant
                1 <= k <= d,
                d == pv.len(),
                1 <= d <= 64,
                v < pow2(d as nat),
                digests_view(siblings@) == pv,
                idx@ == ((d - k + 1) as nat, v / pow2((k - 1) as nat)),
                node@ == path_node_at(pv, v, value@, k as nat),
                self.nodes_spec() == add_path_nodes(old_nodes, d as nat, v, value@, pv, (k - 1) as nat),
                self.leaves_spec() == add_path_leaves(old_leaves, old_nodes.dom(), d as nat, v, (k - 1) as nat),
                self.max_depth == max_u8(old_depth, d),
                old_nodes == old(self).nodes_spec(),
                old_leaves == old(self).leaves_spec(),
                old_depth == old(self).depth_spec(),
                pv == path@,
            decreases d - k,
        {
            idx.move_up();
            self.nodes.insert(idx.key(), node);
            self.leaves.remove(&idx.key());
            let s = idx.sibling();
            let ghost before = self.nodes_spec();
            let prev = self.nodes.insert(s.key(), siblings[k]);
            if prev.is_none() {
                self.leaves.insert(s.key());
            }
            proof {
                lemma_div_pow2_step(v, (k - 1) as nat);
                assert(idx.key() == pidx(d as nat, v, k as nat));
                assert(s.key() == psib(d as nat, v, k as nat));
                lemma_add_path_nodes_dom(old_nodes, d as nat, v, value@, pv, (k - 1) as nat, psib(d as nat, v, k as nat));
                assert(self.nodes_spec() =~= add_path_nodes(old_nodes, d as nat, v, value@, pv, k as nat));
                assert(self.leaves_spec() =~= add_path_leaves(old_leaves, old_nodes.dom(), d as nat, v, k as nat));
            }
            node = Rpo256::merge(&idx.build_node(node, siblings[k]));
            k = k + 1;
        }
        let current = self.root();
        let empty = RpoDigest::default();
        proof {
            lemma_rpo_digest_view_eq(current, empty);
            lemma_rpo_digest_view_eq(current, node);
        }
        if current == empty {
            self.nodes.insert((0u8, 0u64), node);
            assert(self.nodes_spec() =~= add_path_nodes(old_nodes, d as nat, v, value@, pv, (d - 1) as nat)
                .insert((0u8, 0u64), path_root(pv, v, value@)));
        } else if current != node {
            return Err(MerkleError::ConflictingRoots { expected: current, actual: node });
        }
        Ok(())
    }

    /// Builds a tree from paths, recording each in turn; the first failure is returned.
    pub fn with_paths(paths: &Vec<(u64, RpoDigest, MerklePath)>) -> (r: Result<Self, MerkleError>)
        ensures
            paths@.len() == 0 ==> (r matches Ok(t) && t.nodes_spec() == Map::<(u8, u64), Seq<nat>>::empty()
                && t.leaves_spec() == Set::<(u8, u64)>::empty() && t.depth_spec() == 0),
            (forall|j: int| 0 <= j < paths@.len() ==> #[trigger] path_taken(paths@, j)) ==> (r matches Ok(t)
                && (t.depth_spec(), t.nodes_spec(), t.leaves_spec()) == paths_state(paths@, paths@.len())),
            forall|i: int| 0 <= i < paths@.len() && (forall|j: int| 0 <= j < i ==> #[trigger] path_taken(paths@, j))
                && !path_taken(paths@, i) ==> (r matches Err(e) && path_refused(paths_state(paths@, i as nat).1,
                    paths@[i].0, paths@[i].1@, paths@[i].2@, e)),
    {
        let mut tree = Self::new();
        let mut i: usize = 0;
        while i < paths.len()
            invariant
                0 <= i <= paths@.len(),
                forall|j: int| 0 <= j < i ==> #[trigger] path_taken(paths@, j),
                (tree.depth_spec(), tree.nodes_spec(), tree.leaves_spec()) == paths_state(paths@, i as nat),
            decreases paths@.len() - i,
        {
            let index = paths[i].0;
            let value = paths[i].1;
            let path = paths[i].2.clone();
            let ghost st = paths_state(paths@, i as nat);
            let ghost p = paths@[i as int];
            proof {
                assert(path@ == p.2@);
                assert(st.1 == tree.nodes_spec());
            }
            match tree.add_path(index, value, path) {
                Ok(()) => {},
                Err(e) => {
                    proof {
                        assert(!path_taken(paths@, i as int));
                        assert(path_refused(st.1, p.0, p.1@, p.2@, e));
                    }
                    return Err(e);
                },
            }
            proof {
                assert(path_taken(paths@, i as int));
                assert((tree.depth_spec(), tree.nodes_spec(), tree.leaves_spec()) == paths_state(paths@, (i + 1) as nat));
            }
            i = i + 1;
        }
        proof {
            if paths@.len() == 0 {
                assert(paths_state(paths@, 0) == (0u8, Map::<(u8, u64), Seq<nat>>::empty(), Set::<(u8, u64)>::empty()));
            }
        }
        Ok(tree)
    }

    /// The leaves with their values, each once.
    pub fn leaves(&self) -> (r: Vec<(NodeIndex, RpoDigest)>)
        requires
            self.leaves_spec().subset_of(self.nodes_spec().dom()),
        ensures
            r@.len() == self.leaves_spec().len(),
            forall|i: int| 0 <= i < r@.len() ==> self.leaves_spec().contains((#[trigger] r@[i]).0.key())
                && r@[i].1@ == self.nodes_spec()[r@[i].0.key()],
            forall|k: (u8, u64)| #[trigger] self.leaves_spec().contains(k) ==> exists|i: int| 0 <= i < r@.len() && r@[i].0.key() == k,
            forall|i: int, j: int| 0 <= i < j < r@.len() ==> key_before((#[trigger] r@[i]).0.key(), (#[trigger] r@[j]).0.key()),
    {
        let keys = set_keys(&self.leaves);
        let mut r: Vec<(NodeIndex, RpoDigest)> = Vec::new();
        let mut i: usize = 0;
        proof {
            lemma_map_view_dom(self.nodes@);
        }
        while i < keys.len()
            invariant
                0 <= i <= keys@.len(),
                keys@.to_set() == self.leaves_spec(),
                self.leaves_spec().subset_of(self.nodes_spec().dom()),
                map_view(self.nodes@).dom() == self.nodes@.dom(),
                r@.len() == i,
                forall|j: int| 0 <= j < i ==> (#[trigger] r@[j]).0.key() == keys@[j]
                    && r@[j].1@ == self.nodes_spec()[keys@[j]],
            decreases keys@.len() - i,
        {
            let k = keys[i];
            proof {
                assert(keys@.to_set().contains(keys@[i as int]));
            }
            let d = *self.nodes.get(&k).unwrap();
            r.push((NodeIndex::from_raw(k.0, k.1), d));
            i = i + 1;
        }
        proof {
            keys@.unique_seq_to_set();
            assert forall|k: (u8, u64)| #[trigger] self.leaves_spec().contains(k) implies exists|i: int| 0 <= i < r@.len() && r@[i].0.key() == k by {
                assert(keys@.to_set().contains(k));
                let i = choose|i: int| 0 <= i < keys@.len() && keys@[i] == k;
                assert(r@[i].0.key() == k);
            }
        }
        r
    }

    /// Every leaf with its value and its path.
    pub fn to_paths(&self) -> (r: Vec<(NodeIndex, ValuePath)>)
        requires
            forall|k: (u8, u64)| #[trigger] self.leaves_spec().contains(k) ==> {
                &&& self.nodes_spec().contains_key(k)
                &&& 1 <= k.0 <= self.depth_spec()
                &&& has_siblings(self.nodes_spec(), k.0 as nat, k.1 as nat)
            },
        ensures
            r@.len() == self.leaves_spec().len(),
            forall|i: int| 0 <= i < r@.len() ==> {
                let k = (#[trigger] r@[i]).0.key();
                &&& self.leaves_spec().contains(k)
                &&& r@[i].1.value@ == self.nodes_spec()[k]
                &&& r@[i].1.path@ == siblings_in(self.nodes_spec(), k.0 as nat, k.1 as nat)
            },
            forall|k: (u8, u64)| #[trigger] self.leaves_spec().contains(k) ==> exists|i: int| 0 <= i < r@.len() && r@[i].0.key() == k,
    {
        let keys = set_keys(&self.leaves);
        let mut r: Vec<(NodeIndex, ValuePath)> = Vec::new();
        let mut i: usize = 0;
        while i < keys.len()
            invariant
                0 <= i <= keys@.len(),
                keys@.to_set() == self.leaves_spec(),
                forall|k: (u8, u64)| #[trigger] self.leaves_spec().contains(k) ==> {
                    &&& self.nodes_spec().contains_key(k)
                    &&& 1 <= k.0 <= self.depth_spec()
                    &&& has_siblings(self.nodes_spec(), k.0 as nat, k.1 as nat)
                },
                r@.len() == i,
                forall|j: int| 0 <= j < i ==> {
                    let k = (#[trigger] r@[j]).0.key();
                    &&& k == keys@[j]
                    &&& r@[j].1.value@ == self.nodes_spec()[k]
                    &&& r@[j].1.path@ == siblings_in(self.nodes_spec(), k.0 as nat, k.1 as nat)
                },
            decreases keys@.len() - i,
        {
            let k = keys[i];
            proof {
                assert(keys@.to_set().contains(keys@[i as int]));
            }
            let index = NodeIndex::from_raw(k.0, k.1);
            let value = match self.get_node(index) {
                Ok(v) => v,
                Err(_) => RpoDigest::default(),
            };
            let path = match self.get_path(index) {
                Ok(p) => p,
                Err(_) => MerklePath::default(),
            };
            r.push((index, ValuePath::new(value, path)));
            i = i + 1;
        }
        proof {
            keys@.unique_seq_to_set();
            assert forall|k: (u8, u64)| #[trigger] self.leaves_spec().contains(k) implies exists|i: int| 0 <= i < r@.len() && r@[i].0.key() == k by {
                assert(keys@.to_set().contains(k));
                let i = choose|i: int| 0 <= i < keys@.len() && keys@[i] == k;
                assert(r@[i].0.key() == k);
            }
        }
        r
    }

    /// Every node that is not a leaf, with its two children, each once.
    pub fn inner_nodes(&self) -> (r: Vec<InnerNodeInfo>)
        requires
            forall|k: (u8, u64)| #[trigger] self.nodes_spec().contains_key(k) && !self.leaves_spec().contains(k) ==> {
                &&& k.0 < 255
                &&& self.nodes_spec().contains_key(((k.0 + 1) as u8, ((2 * k.1) % 0x1_0000_0000_0000_0000) as u64))
                &&& self.nodes_spec().contains_key(((k.0 + 1) as u8, ((2 * k.1) % 0x1_0000_0000_0000_0000 + 1) as u64))
            },
        ensures
            forall|i: int| 0 <= i < r@.len() ==> #[trigger] self.is_inner_info(r@[i]),
            r@.len() == self.nodes_spec().dom().difference(self.leaves_spec()).len(),
            forall|k: (u8, u64)| #[trigger] self.nodes_spec().contains_key(k) && !self.leaves_spec().contains(k)
                ==> exists|i: int| 0 <= i < r@.len() && self.describes_inner(r@[i], k),
    {
        let keys = map_keys(&self.nodes);
        let mut r: Vec<InnerNodeInfo> = Vec::new();
        let ghost mut ks: Seq<(u8, u64)> = Seq::empty();
        let mut i: usize = 0;
        proof {
            lemma_map_view_dom(self.nodes@);
        }
        while i < keys.len()
            invariant
                0 <= i <= keys@.len(),
                keys@.to_set() == self.nodes@.dom(),
                map_view(self.nodes@).dom() == self.nodes@.dom(),
                forall|k: (u8, u64)| #[trigger] self.nodes_spec().contains_key(k) && !self.leaves_spec().contains(k) ==> {
                    &&& k.0 < 255
                    &&& self.nodes_spec().contains_key(((k.0 + 1) as u8, ((2 * k.1) % 0x1_0000_0000_0000_0000) as u64))
                    &&& self.nodes_spec().contains_key(((k.0 + 1) as u8, ((2 * k.1) % 0x1_0000_0000_0000_0000 + 1) as u64))
                },
                ks.len() == r@.len(),
                ks.no_duplicates(),
                keys@.no_duplicates(),
                forall|k: (u8, u64)| ks.contains(k) <==> (keys@.take(i as int).contains(k) && !self.leaves_spec().contains(k)),
                forall|j: int| 0 <= j < r@.len() ==> {
                    let k = #[trigger] ks[j];
                    &&& self.nodes_spec().contains_key(k)
                    &&& !self.leaves_spec().contains(k)
                    &&& r@[j].value@ == self.nodes_spec()[k]
                    &&& r@[j].left@ == self.nodes_spec()[((k.0 + 1) as u8, ((2 * k.1) % 0x1_0000_0000_0000_0000) as u64)]
                    &&& r@[j].right@ == self.nodes_spec()[((k.0 + 1) as u8, ((2 * k.1) % 0x1_0000_0000_0000_0000 + 1) as u64)]
                },
            decreases keys@.len() - i,
        {
            let k = keys[i];
            let ghost ks0 = ks;
            proof {
                assert(keys@.to_set().contains(keys@[i as int]));
                assert(!keys@.take(i as int).contains(k)) by {
                    if keys@.take(i as int).contains(k) {
                        let j = choose|j: int| 0 <= j < i && keys@.take(i as int)[j] == k;
                        assert(keys@[j] == keys@[i as int]);
                    }
                }
                assert(keys@.take(i + 1) =~= keys@.take(i as int).push(k));
            }
            if !self.leaves.contains(&k) {
                assert(self.nodes_spec().contains_key(k));
                let index = NodeIndex::from_raw(k.0, k.1);
                let value = *self.nodes.get(&k).unwrap();
                let lk = index.left_child().key();
                let rk = index.right_child().key();
                let left = *self.nodes.get(&lk).unwrap();
                let right = *self.nodes.get(&rk).unwrap();
                let info = InnerNodeInfo { value, left, right };
                r.push(info);
                proof {
                    let n = r@.len() - 1;
                    assert(r@[n] == info);
                    assert(self.nodes_spec().contains_key(k) && !self.leaves_spec().contains(k));
                    assert(self.nodes@[k] == value);
                    assert(r@[n].value@ == self.nodes_spec()[k]);
                    assert(r@[n].left@ == self.nodes_spec()[((k.0 + 1) as u8, ((2 * k.1) % 0x1_0000_0000_0000_0000) as u64)]);
                    assert(r@[n].right@ == self.nodes_spec()[((k.0 + 1) as u8, ((2 * k.1) % 0x1_0000_0000_0000_0000 + 1) as u64)]);
                    ks = ks.push(k);
                }
            }
            proof {
                assert(!ks0.contains(k));
                if self.leaves_spec().contains(k) {
                    assert(ks == ks0);
                } else {
                    assert(ks == ks0.push(k));
                    assert forall|a: int, b: int| 0 <= a < b < ks.len() implies ks[a] != ks[b] by {
                        if b == ks.len() - 1 {
                            assert(ks[b] == k);
                            assert(ks0.contains(ks0[a]));
                        } else {
                            assert(ks[a] == ks0[a] && ks[b] == ks0[b]);
                        }
                    }
                }
                let t0 = keys@.take(i as int);
                let t1 = keys@.take(i + 1);
                assert(t1 == t0.push(k));
                assert forall|x: (u8, u64)| ks.contains(x) <==> (t1.contains(x) && !self.leaves_spec().contains(x)) by {
                    vstd::seq_lib::lemma_seq_contains_after_push(t0, k, x);
                    if !self.leaves_spec().contains(k) {
                        vstd::seq_lib::lemma_seq_contains_after_push(ks0, k, x);
                    }
                    assert(ks0.contains(x) <==> (t0.contains(x) && !self.leaves_spec().contains(x)));
                }
            }
            i = i + 1;
        }
        assert forall|i: int| 0 <= i < r@.len() implies #[trigger] self.is_inner_info(r@[i]) by {
            assert(self.describes_inner(r@[i], ks[i]));
        }
        proof {
            assert(keys@.take(keys@.len() as int) =~= keys@);
            assert(ks.to_set() =~= self.nodes_spec().dom().difference(self.leaves_spec())) by {
                assert(self.nodes_spec().dom() == self.nodes@.dom());
                assert forall|x: (u8, u64)| ks.to_set().contains(x) <==> self.nodes_spec().dom().difference(self.leaves_spec()).contains(x) by {
                    assert(keys@.to_set().contains(x) <==> keys@.contains(x));
                }
            }
            ks.unique_seq_to_set();
            assert forall|k: (u8, u64)| #[trigger] self.nodes_spec().contains_key(k) && !self.leaves_spec().contains(k)
                implies exists|i: int| 0 <= i < r@.len() && self.describes_inner(r@[i], k) by {
                assert(ks.to_set().contains(k));
                let j = choose|j: int| 0 <= j < ks.len() && ks[j] == k;
                assert(self.describes_inner(r@[j], ks[j]));
            }
        }
        r
    }

    /// Appends the number of leaves as 8 little-endian bytes, then each leaf's
    /// index and value.
    pub fn write_into(&self, target: &mut Vec<u8>)
        requires
            self.leaves_spec().subset_of(self.nodes_spec().dom()),
        ensures
            final(target)@.len() == old(target)@.len() + 8 + 41 * self.leaves_spec().len(),
            final(target)@.subrange(0, old(target)@.len() as int) == old(target)@,
            final(target)@.subrange(old(target)@.len() as int, old(target)@.len() + 8int)
                == le_bytes_spec(self.leaves_spec().len(), 8),
            exists|s: Seq<((u8, u64), Seq<nat>)>| lists_leaves(self.leaves_spec(), self.nodes_spec(), s)
                && final(target)@ == old(target)@ + le_bytes_spec(self.leaves_spec().len(), 8) + leaves_bytes(s),
    {
        let leaves = self.leaves();
        let ghost start = target@;
        let ghost lv = leaves@.map_values(|e: (NodeIndex, RpoDigest)| leaf_entry_view(e));
        write_u64(target, leaves.len() as u64);
        proof {
            crate::utils::bytes::lemma_le_bytes_len(leaves@.len() as nat, 8);
            assert(lv.subrange(0, 0) =~= Seq::<((u8, u64), Seq<nat>)>::empty());
        }
        let mut i: usize = 0;
        while i < leaves.len()
            invariant
                0 <= i <= leaves@.len(),
                leaves@.len() == self.leaves_spec().len(),
                lv == leaves@.map_values(|e: (NodeIndex, RpoDigest)| leaf_entry_view(e)),
                target@.len() == start.len() + 8 + 41 * i,
                target@.subrange(0, start.len() + 8int) == start + le_bytes_spec(leaves@.len() as nat, 8),
                target@ == start + le_bytes_spec(leaves@.len() as nat, 8) + leaves_bytes(lv.subrange(0, i as int)),
            decreases leaves@.len() - i,
        {
            let ghost before = target@;
            leaves[i].0.write_into(target);
            leaves[i].1.write_into(target);
            proof {
                assert(lv.subrange(0, i + 1).drop_last() =~= lv.subrange(0, i as int));
                assert(lv[i as int] == leaf_entry_view(leaves@[i as int]));
                crate::merkle::index::lemma_node_index_bounds(leaves@[i as int].0);
                assert(leaf_bytes(lv[i as int].0, lv[i as int].1) =~= seq![leaves@[i as int].0@.0 as u8]
                    + le_bytes_spec(leaves@[i as int].0@.1, 8) + crate::rescue::digest::digest_bytes_spec(leaves@[i as int].1@));
                assert(target@ =~= start + le_bytes_spec(leaves@.len() as nat, 8) + leaves_bytes(lv.subrange(0, i + 1)));
                crate::utils::bytes::lemma_le_bytes_len(leaves@[i as int].0@.1, 8);
                let dv = leaves@[i as int].1@;
                crate::utils::bytes::lemma_le_bytes_len(dv[0], 8);
                crate::utils::bytes::lemma_le_bytes_len(dv[1], 8);
                crate::utils::bytes::lemma_le_bytes_len(dv[2], 8);
                crate::utils::bytes::lemma_le_bytes_len(dv[3], 8);
                assert(target@.subrange(0, start.len() + 8int) =~= before.subrange(0, start.len() + 8int));
            }
            i = i + 1;
        }
        proof {
            assert(target@.subrange(0, start.len() as int) =~= start);
            let pre = target@.subrange(0, start.len() + 8int);
            assert(target@.subrange(start.len() as int, start.len() + 8int) =~= pre.subrange(start.len() as int, start.len() + 8int));
            assert(pre.subrange(start.len() as int, start.len() + 8int) =~= le_bytes_spec(leaves@.len() as nat, 8));
            assert(target@.subrange(start.len() as int, start.len() + 8int) =~= le_bytes_spec(self.leaves_spec().len(), 8));
            assert(lv.subrange(0, lv.len() as int) =~= lv);
            assert(lists_leaves(self.leaves_spec(), self.nodes_spec(), lv)) by {
                assert forall|i: int, j: int| 0 <= i < j < lv.len() implies key_before((#[trigger] lv[i]).0, (#[trigger] lv[j]).0) by {
                    assert(key_before(leaves@[i].0.key(), leaves@[j].0.key()));
                }
            }
        }
    }

    /// The serialized form.
    pub fn to_bytes(&self) -> (r: Vec<u8>)
        requires
            self.leaves_spec().subset_of(self.nodes_spec().dom()),
        ensures
            r@.len() == 8 + 41 * self.leaves_spec().len(),
            r@.subrange(0, 8) == le_bytes_spec(self.leaves_spec().len(), 8),
            exists|s: Seq<((u8, u64), Seq<nat>)>| lists_leaves(self.leaves_spec(), self.nodes_spec(), s)
                && r@ == le_bytes_spec(self.leaves_spec().len(), 8) + leaves_bytes(s),
    {
        let mut r: Vec<u8> = Vec::new();
        self.write_into(&mut r);
        proof {
            let s = choose|s: Seq<((u8, u64), Seq<nat>)>| lists_leaves(self.leaves_spec(), self.nodes_spec(), s)
                && r@ == Seq::<u8>::empty() + le_bytes_spec(self.leaves_spec().len(), 8) + leaves_bytes(s);
            assert(r@ =~= le_bytes_spec(self.leaves_spec().len(), 8) + leaves_bytes(s));
        }
        r
    }

    /// Reads a leaf count, then each leaf's index and value, and rebuilds the
    /// tree from the leaves.
    pub fn read_from(source: &mut SliceReader) -> (r: Result<Self, DeserializationError>)
        requires
            old(source).wf(),
        ensures
            final(source).wf(),
            final(source).data() == old(source).data(),
            tree_read_matches(r, read_tree_spec(old(source).data(), old(source).position() as int)),
    {
        let ghost data = source.data();
        let ghost pos = source.position() as int;
        let count = match source.read_u64() {
            Ok(c) => c,
            Err(e) => return Err(e),
        };
        let mut entries: Vec<(NodeIndex, RpoDigest)> = Vec::new();
        let mut i: u64 = 0;
        assert(entries@.map_values(|e: (NodeIndex, RpoDigest)| entry_view(e)) =~= Seq::<((nat, nat), Seq<nat>)>::empty());
        while i < count
            invariant
                source.wf(),
                source.data() == data,
                data == old(source).data(),
                pos == old(source).position(),
                pos + 8 <= data.len(),
                count as nat == le_value(data.subrange(pos, pos + 8)),
                i <= count,
                source.position() == pos + 8 + 41 * i,
                read_leaf_entries(data, pos + 8, i as nat)
                    == Ok::<Seq<((nat, nat), Seq<nat>)>, ReadFailure>(entries@.map_values(|e: (NodeIndex, RpoDigest)| entry_view(e))),
            decreases count - i,
        {
            let ghost p = pos + 8 + 41 * i;
            let index = match NodeIndex::read_from(source) {
                Ok(x) => x,
                Err(e) => {
                    proof {
                        assert(p == pos + 8 + 41 * ((i + 1) as nat - 1));
                        lemma_read_leaves_err_stays(data, pos + 8, (i + 1) as nat, count as nat);
                    }
                    return Err(e);
                },
            };
            let hash = match RpoDigest::read_from(source) {
                Ok(x) => x,
                Err(e) => {
                    proof {
                        assert(p == pos + 8 + 41 * ((i + 1) as nat - 1));
                        lemma_read_leaves_err_stays(data, pos + 8, (i + 1) as nat, count as nat);
                    }
                    return Err(e);
                },
            };
            let ghost before = entries@;
            entries.push((index, hash));
            proof {
                assert(p == pos + 8 + 41 * ((i + 1) as nat - 1));
                assert(entries@.map_values(|e: (NodeIndex, RpoDigest)| entry_view(e)) =~=
                    before.map_values(|e: (NodeIndex, RpoDigest)| entry_view(e)).push((index@, hash@)));
            }
            i = i + 1;
        }
        let sl = entries.as_slice();
        let built = Self::with_leaves(sl);
        proof {
            assert(sl@ == entries@);
            assert(entries_view(entries@) == entries@.map_values(|e: (NodeIndex, RpoDigest)| entry_view(e)));
        }
        match built {
            Ok(t) => Ok(t),
            Err(_) => Err(DeserializationError::InvalidValue(invalid_tree_message())),
        }
    }

    /// Reads a tree from the start of `bytes`.
    pub fn read_from_bytes(bytes: &[u8]) -> (r: Result<Self, DeserializationError>)
        ensures
            bytes@.len() < 8 ==> r == Err::<Self, DeserializationError>(DeserializationError::UnexpectedEOF),
            tree_read_matches(r, read_tree_spec(bytes@, 0)),
    {
        let mut reader = SliceReader::new(bytes);
        Self::read_from(&mut reader)
    }

    /// Builds a tree from its leaves, computing every parent whose children are
    /// both known; a leaf whose sibling is missing makes it fail.
    pub fn with_leaves(entries: &[(NodeIndex, RpoDigest)]) -> (r: Result<Self, MerkleError>)
        ensures
            r matches Ok(t) ==> {
                &&& t.leaves_spec() == entry_keys(entries@)
                &&& t.depth_spec() == max_entry_depth(entries@)
                &&& forall|k: (u8, u64)| #[trigger] entry_keys(entries@).contains(k)
                    ==> t.nodes_spec().contains_key(k) && t.nodes_spec()[k] == entries_map(entries@)[k]
                &&& forall|k: (u8, u64)| #[trigger] t.nodes_spec().contains_key(k) && !entry_keys(entries@).contains(k)
                    ==> is_computed_parent(t.nodes_spec(), k)
            },
            r matches Err(e) ==> (e is NodeIndexNotFoundInTree || e is InvalidNodeIndex),
            builds_from(r, entries@),
    {
        let mut nodes: BTreeMap<(u8, u64), RpoDigest> = BTreeMap::new();
        let mut leaves: BTreeSet<(u8, u64)> = BTreeSet::new();
        let mut max_depth: u8 = 0;
        let mut i: usize = 0;
        while i < entries.len()
            invariant
                0 <= i <= entries@.len(),
                map_view(nodes@) == entries_map(entries@.subrange(0, i as int)),
                leaves@ == entry_keys(entries@.subrange(0, i as int)),
                max_depth == max_entry_depth(entries@.subrange(0, i as int)),
            decreases entries@.len() - i,
        {
            let (index, hash) = entries[i];
            leaves.insert(index.key());
            nodes.insert(index.key(), hash);
            if index.depth() > max_depth {
                max_depth = index.depth();
            }
            proof {
                let pre = entries@.subrange(0, i as int);
                assert(entries@.subrange(0, i + 1).drop_last() =~= pre);
                assert(map_view(nodes@) =~= entries_map(entries@.subrange(0, i + 1)));
                assert(leaves@ =~= entry_keys(entries@.subrange(0, i + 1)));
            }
            i = i + 1;
        }
        assert(entries@.subrange(0, entries@.len() as int) =~= entries@);
        let ghost emap = entries_map(entries@);
        let ghost ekeys = entry_keys(entries@);
        proof {
            lemma_entry_keys_dom(entries@);
        }
        let ghost mut added: Set<(u8, u64)> = Set::empty();
        let mut carried: Vec<u64> = Vec::new();
        let mut d: u8 = max_depth;
        let ghost total = build_levels(entries@, emap, Seq::empty(), max_depth);
        proof {
            assert(map_view(nodes@) =~= emap);
            assert(carried@ =~= Seq::<u64>::empty());
        }
        while d >= 1
            invariant
                d <= max_depth,
                max_depth == max_entry_depth(entries@),
                leaves@ == ekeys,
                emap.dom() == ekeys,
                ekeys == entry_keys(entries@),
                emap == entries_map(entries@),
                map_view(nodes@).dom() == ekeys.union(added),
                ekeys.disjoint(added),
                forall|k: (u8, u64)| #[trigger] ekeys.contains(k) ==> map_view(nodes@)[k] == emap[k],
                forall|k: (u8, u64)| #[trigger] added.contains(k) ==> is_computed_parent(map_view(nodes@), k),
                forall|t: int| 0 <= t < carried@.len() ==> #[trigger] map_view(nodes@).contains_key((d, carried@[t])),
                build_levels(entries@, map_view(nodes@), carried@, d) == total,
                total == build_levels(entries@, entries_map(entries@), Seq::empty(), max_entry_depth(entries@)),
            decreases d,
        {
            let mut current: Vec<u64> = Vec::new();
            let mut e: usize = 0;
            while e < entries.len()
                invariant
                    0 <= e <= entries@.len(),
                    map_view(nodes@).dom() == ekeys.union(added),
                    emap.dom() == ekeys,
                    ekeys == entry_keys(entries@),
                    emap == entries_map(entries@),
                ekeys == entry_keys(entries@),
                emap == entries_map(entries@),
                    forall|t: int| 0 <= t < current@.len() ==> #[trigger] map_view(nodes@).contains_key((d, current@[t])),
                    current@ == entry_values_at(entries@.take(e as int), d),
                decreases entries@.len() - e,
            {
                let (index, _) = entries[e];
                if index.depth() == d {
                    proof {
                        lemma_entry_keys_contains(entries@, e as int);
                        crate::merkle::index::lemma_node_index_bounds(index);
                        assert(index == entries@[e as int].0);
                        assert(ekeys.contains(index.key()));
                        assert(map_view(nodes@).contains_key((d, index@.1 as u64)));
                    }
                    current.push(index.value());
                }
                proof {
                    assert(entries@.take(e + 1).drop_last() =~= entries@.take(e as int));
                    assert(entries@.take(e + 1).last() == entries@[e as int]);
                }
                e = e + 1;
            }
            proof {
                assert(entries@.take(entries@.len() as int) =~= entries@);
                assert(carried@.take(0) =~= Seq::<u64>::empty());
                assert(current@ =~= entry_values_at(entries@, d) + carried@.take(0));
            }
            let mut c: usize = 0;
            while c < carried.len()
                invariant
                    0 <= c <= carried@.len(),
                    forall|t: int| 0 <= t < carried@.len() ==> #[trigger] map_view(nodes@).contains_key((d, carried@[t])),
                    forall|t: int| 0 <= t < current@.len() ==> #[trigger] map_view(nodes@).contains_key((d, current@[t])),
                    current@ == entry_values_at(entries@, d) + carried@.take(c as int),
                decreases carried@.len() - c,
            {
                current.push(carried[c]);
                c = c + 1;
                proof {
                    assert(current@ =~= entry_values_at(entries@, d) + carried@.take(c as int));
                }
            }
            proof {
                assert(carried@.take(carried@.len() as int) =~= carried@);
            }
            let ghost lv = level_parents(map_view(nodes@), current@, d, 0, Seq::empty());
            let ghost m_level = map_view(nodes@);
            proof {
                assert(build_levels(entries@, m_level, carried@, d) == match lv {
                    Err(e) => Err(e),
                    Ok((m2, nx)) => build_levels(entries@, m2, nx, (d - 1) as u8),
                });
            }

            let mut next: Vec<u64> = Vec::new();
            let mut x: usize = 0;
            while x < current.len()
                invariant
                    0 <= x <= current@.len(),
                    1 <= d <= max_depth,
                    leaves@ == ekeys,
                    emap.dom() == ekeys,
                    ekeys == entry_keys(entries@),
                    emap == entries_map(entries@),
                ekeys == entry_keys(entries@),
                emap == entries_map(entries@),
                    map_view(nodes@).dom() == ekeys.union(added),
                    ekeys.disjoint(added),
                    forall|k: (u8, u64)| #[trigger] ekeys.contains(k) ==> map_view(nodes@)[k] == emap[k],
                    forall|k: (u8, u64)| #[trigger] added.contains(k) ==> is_computed_parent(map_view(nodes@), k),
                    forall|t: int| 0 <= t < current@.len() ==> #[trigger] map_view(nodes@).contains_key((d, current@[t])),
                    forall|t: int| 0 <= t < next@.len() ==> #[trigger] map_view(nodes@).contains_key(((d - 1) as u8, next@[t])),
                    level_parents(map_view(nodes@), current@, d, x as nat, next@) == lv,
                    build_levels(entries@, m_level, carried@, d) == total,
                    build_levels(entries@, m_level, carried@, d) == match lv {
                        Err(e) => Err(e),
                        Ok((m2, nx)) => build_levels(entries@, m2, nx, (d - 1) as u8),
                    },
                    total == build_levels(entries@, entries_map(entries@), Seq::empty(), max_entry_depth(entries@)),
                decreases current@.len() - x,
            {
                let xv = current[x];
                let ghost m0 = map_view(nodes@);
                let ghost nx0 = next@;
                let parent = match NodeIndex::new(d - 1, xv / 2) {
                    Ok(p) => p,
                    Err(err) => return Err(err),
                };
                proof {
                    lemma_map_view_dom(nodes@);
                    crate::merkle::index::lemma_node_index_bounds(parent);
                    assert(parent.key() == ((d - 1) as u8, xv / 2));
                }
                if !nodes.contains_key(&parent.key()) {
                    let index = match NodeIndex::new(d, xv) {
                        Ok(i) => i,
                        Err(err) => return Err(err),
                    };
                    proof {
                        crate::merkle::index::lemma_node_index_bounds(index);
                    }
                    proof {
                        assert(map_view(nodes@).contains_key((d, current@[x as int])));
                        lemma_map_view_dom(nodes@);
                    }
                    let node = *nodes.get(&index.key()).unwrap();
                    let sib_index = index.sibling();
                    proof {
                        crate::merkle::index::lemma_node_index_bounds(sib_index);
                        assert(sib_index.key() == (d, sibling_of(xv)));
                    }
                    let sibling = match nodes.get(&sib_index.key()) {
                        Some(s) => *s,
                        None => return Err(MerkleError::NodeIndexNotFoundInTree(sib_index)),
                    };
                    let value = Rpo256::merge(&index.build_node(node, sibling));
                    let ghost before = map_view(nodes@);
                    proof {
                        assert(before[(d, xv)] == node@);
                        assert(before[sib_index.key()] == sibling@);
                    }
                    nodes.insert(parent.key(), value);
                    proof {
                        let pk = parent.key();
                        assert(!before.contains_key(pk));
                        assert(!ekeys.contains(pk));
                        lemma_insert_keeps_parents(before, added, pk, value@);
                        assert(map_view(nodes@) =~= before.insert(pk, value@));
                        lemma_new_parent(before, d, xv as nat, node@, sibling@, value@);
                        added = added.insert(pk);
                        assert(value@ == parent_from(xv, m0[(d, xv)], m0[(d, sibling_of(xv))]));
                    }
                    next.push(xv / 2);
                    proof {
                        assert(next@ =~= nx0.push(xv / 2));
                    }
                }
                x = x + 1;
            }
            proof {
                assert(lv == Ok::<(Map<(u8, u64), Seq<nat>>, Seq<u64>), (bool, nat, nat)>((map_view(nodes@), next@)));
            }
            carried = next;
            d = d - 1;
        }
        proof {
            assert(total == Ok::<Map<(u8, u64), Seq<nat>>, (bool, nat, nat)>(map_view(nodes@)));
        }
        let t = PartialMerkleTree { max_depth, nodes, leaves };
        Ok(t)
    }

}

/// The message of a decoding error for leaves that do not form a tree.
fn invalid_tree_message() -> (r: String)
    ensures
        r@ == "invalid data for PartialMerkleTree creation"@,
{
    "invalid data for PartialMerkleTree creation".to_owned()
}

impl Default for PartialMerkleTree {
    fn default() -> (r: Self)
        ensures
            r.depth_spec() == 0,
            r.nodes_spec() == Map::<(u8, u64), Seq<nat>>::empty(),
            r.leaves_spec() == Set::<(u8, u64)>::empty(),
    {
        Self::new()
    }
}

/// The bytes of one leaf: its depth byte, its value in 8 little-endian bytes,
/// then its digest.
pub open spec fn leaf_bytes(k: (u8, u64), d: Seq<nat>) -> Seq<u8> {
    seq![k.0] + le_bytes_spec(k.1 as nat, 8) + crate::rescue::digest::digest_bytes_spec(d)
}

/// The bytes of leaves, one after the other.
pub open spec fn leaves_bytes(s: Seq<((u8, u64), Seq<nat>)>) -> Seq<u8>
    decreases s.len(),
{
    if s.len() == 0 {
        Seq::empty()
    } else {
        leaves_bytes(s.drop_last()) + leaf_bytes(s.last().0, s.last().1)
    }
}

/// Whether `s` lists each of `leaves` once, with its value in `nodes`, in
/// increasing order of position.
pub open spec fn lists_leaves(leaves: Set<(u8, u64)>, nodes: Map<(u8, u64), Seq<nat>>, s: Seq<((u8, u64), Seq<nat>)>) -> bool {
    &&& s.len() == leaves.len()
    &&& forall|i: int| 0 <= i < s.len() ==> leaves.contains((#[trigger] s[i]).0) && s[i].1 == nodes[s[i].0]
    &&& forall|i: int, j: int| 0 <= i < j < s.len() ==> key_before((#[trigger] s[i]).0, (#[trigger] s[j]).0)
}

/// A leaf entry by its view.
pub open spec fn leaf_entry_view(e: (NodeIndex, RpoDigest)) -> ((u8, u64), Seq<nat>) {
    (e.0.key(), e.1@)
}

/// Whether position `a` comes before position `b`: by depth, then by value.
pub open spec fn key_before(a: (u8, u64), b: (u8, u64)) -> bool {
    a.0 < b.0 || (a.0 == b.0 && a.1 < b.1)
}

/// Positions listed in increasing order come by depth, then by value.
proof fn lemma_increasing_keys(s: Seq<&(u8, u64)>, i: int, j: int)
    requires
        vstd::std_specs::btree::increasing_seq(s),
        0 <= i < j < s.len(),
    ensures
        key_before(*s[i], *s[j]),
{
    broadcast use vstd::std_specs::btree::group_btree_axioms, vstd::laws_cmp::group_laws_cmp;
    assert(vstd::std_specs::cmp::OrdSpec::cmp_spec(&s[i], &s[j]) is Less);
}

/// The keys of a set of positions, each once, in increasing order.
pub(crate) fn set_keys(m: &BTreeSet<(u8, u64)>) -> (r: Vec<(u8, u64)>)
    ensures
        r@.to_set() == m@,
        r@.no_duplicates(),
        r@.len() == m@.len(),
        forall|i: int, j: int| 0 <= i < j < r@.len() ==> key_before(#[trigger] r@[i], #[trigger] r@[j]),
{
    broadcast use vstd::std_specs::btree::group_btree_axioms;
    let mut r: Vec<(u8, u64)> = Vec::new();
    for k in it: m.iter()
        invariant
            r@ == it.seq().unref().take(it.index() as int),
            it.seq().unref().to_set() == m@,
            it.seq().unref().no_duplicates(),
            it.seq().len() == m@.len(),
            vstd::std_specs::btree::increasing_seq(it.seq()),
            forall|i: int, j: int| 0 <= i < j < r@.len() ==> key_before(#[trigger] r@[i], #[trigger] r@[j]),
            r@.len() == it.index(),
            r@.no_duplicates(),
            forall|x: (u8, u64)| r@.contains(x) ==> m@.contains(x),
    {
        proof {
            let s = it.seq().unref();
            assert(s[it.index() as int] == *k);
            assert(s.to_set().contains(s[it.index() as int]));
            assert forall|j: int| 0 <= j < r@.len() implies r@[j] != *k by {
                assert(r@[j] == s[j]);
            }
            assert forall|j: int| 0 <= j < r@.len() implies key_before(r@[j], *k) by {
                lemma_increasing_keys(it.seq(), j, it.index() as int);
                assert(r@[j] == *it.seq()[j]);
            }
        }
        let ghost before = r@;
        r.push(*k);
        proof {
            assert forall|i: int, j: int| 0 <= i < j < r@.len() implies key_before(#[trigger] r@[i], #[trigger] r@[j]) by {
                if j < before.len() {
                    assert(r@[i] == before[i] && r@[j] == before[j]);
                } else {
                    assert(r@[i] == before[i]);
                }
            }
        }
        assert(r@ =~= it.seq().unref().take(it.index() + 1));
    }
    proof {
        r@.unique_seq_to_set();
        assert(r@.to_set().subset_of(m@));
        vstd::set_lib::lemma_subset_equality(r@.to_set(), m@);
    }
    r
}

/// The keys of a map of positions, each once.
pub(crate) fn map_keys(m: &BTreeMap<(u8, u64), RpoDigest>) -> (r: Vec<(u8, u64)>)
    ensures
        r@.to_set() == m@.dom(),
        r@.no_duplicates(),
        r@.len() == m@.dom().len(),
{
    let mut r: Vec<(u8, u64)> = Vec::new();
    for k in it: m.keys()
        invariant
            r@ == it.seq().unref().take(it.index() as int),
            it.seq().unref().to_set() == m@.dom(),
            it.seq().unref().no_duplicates(),
            it.seq().len() == m@.dom().len(),
            r@.len() == it.index(),
            r@.no_duplicates(),
            forall|x: (u8, u64)| r@.contains(x) ==> m@.dom().contains(x),
    {
        proof {
            let s = it.seq().unref();
            assert(s[it.index() as int] == *k);
            assert(s.to_set().contains(s[it.index() as int]));
            assert forall|j: int| 0 <= j < r@.len() implies r@[j] != *k by {
                assert(r@[j] == s[j]);
            }
        }
        r.push(*k);
        assert(r@ =~= it.seq().unref().take(it.index() + 1));
    }
    proof {
        r@.unique_seq_to_set();
        assert(r@.to_set().subset_of(m@.dom()));
        vstd::set_lib::lemma_subset_equality(r@.to_set(), m@.dom());
    }
    r
}

/// The keys of the entries.
pub open spec fn entry_keys(entries: Seq<(NodeIndex, RpoDigest)>) -> Set<(u8, u64)>
    decreases entries.len(),
{
    if entries.len() == 0 {
        Set::empty()
    } else {
        entry_keys(entries.drop_last()).insert(entries.last().0.key())
    }
}

/// The entries as a map; a later entry for the same key replaces an earlier one.
pub open spec fn entries_map(entries: Seq<(NodeIndex, RpoDigest)>) -> Map<(u8, u64), Seq<nat>>
    decreases entries.len(),
{
    if entries.len() == 0 {
        Map::empty()
    } else {
        entries_map(entries.drop_last()).insert(entries.last().0.key(), entries.last().1@)
    }
}

/// The largest depth among the entries, 0 when there are none.
pub open spec fn max_entry_depth(entries: Seq<(NodeIndex, RpoDigest)>) -> u8
    decreases entries.len(),
{
    if entries.len() == 0 {
        0
    } else {
        max_u8(max_entry_depth(entries.drop_last()), entries.last().0@.0 as u8)
    }
}

/// A leaf entry by the views of its position and digest.
pub open spec fn entry_view(e: (NodeIndex, RpoDigest)) -> ((nat, nat), Seq<nat>) {
    (e.0@, e.1@)
}

/// Leaf entries by their views.
pub open spec fn entries_view(entries: Seq<(NodeIndex, RpoDigest)>) -> Seq<((nat, nat), Seq<nat>)> {
    entries.map_values(|e: (NodeIndex, RpoDigest)| entry_view(e))
}

/// Reading `k` leaves at `pos`, 41 bytes each: a position (a depth byte, then
/// an 8-byte value that must fit the depth), then a digest.
pub open spec fn read_leaf_entries(data: Seq<u8>, pos: int, k: nat) -> Result<Seq<((nat, nat), Seq<nat>)>, ReadFailure>
    decreases k,
{
    if k == 0 {
        Ok(Seq::empty())
    } else {
        match read_leaf_entries(data, pos, (k - 1) as nat) {
            Err(e) => Err(e),
            Ok(s) => {
                let p = pos + 41 * (k - 1);
                if p + 9 > data.len() {
                    Err(ReadFailure::Eof)
                } else if !index_valid(data[p] as nat, le_value(data.subrange(p + 1, p + 9))) {
                    Err(ReadFailure::OutOfRange)
                } else {
                    match read_felts_spec(data, p + 9, 4) {
                        Err(e) => Err(e),
                        Ok(dg) => Ok(s.push(((data[p] as nat, le_value(data.subrange(p + 1, p + 9))), dg))),
                    }
                }
            },
        }
    }
}

/// A leaf by the views of its position and digest.
pub open spec fn leaf_key_view(e: ((u8, u64), Seq<nat>)) -> ((nat, nat), Seq<nat>) {
    ((e.0.0 as nat, e.0.1 as nat), e.1)
}

/// Whether each leaf of `s` has a position that fits its depth and a digest of
/// four canonical elements.
pub open spec fn leaves_readable(s: Seq<((u8, u64), Seq<nat>)>) -> bool {
    forall|i: int| 0 <= i < s.len() ==> index_valid((#[trigger] s[i]).0.0 as nat, s[i].0.1 as nat)
        && s[i].1.len() == 4 && crate::rescue::digest::all_canonical(s[i].1)
}

/// The 41 bytes of a leaf read back as the leaf.
proof fn lemma_leaf_read_back(data: Seq<u8>, p: int, e: ((u8, u64), Seq<nat>))
    requires
        0 <= p,
        p + 41 <= data.len(),
        data.subrange(p, p + 41) == leaf_bytes(e.0, e.1),
        index_valid(e.0.0 as nat, e.0.1 as nat),
        e.1.len() == 4,
        crate::rescue::digest::all_canonical(e.1),
    ensures
        data[p] as nat == e.0.0 as nat,
        le_value(data.subrange(p + 1, p + 9)) == e.0.1 as nat,
        read_felts_spec(data, p + 9, 4) == Ok::<Seq<nat>, ReadFailure>(e.1),
{
    crate::utils::bytes::lemma_pow256_8();
    crate::utils::bytes::lemma_le_roundtrip(e.0.1 as nat, 8);
    crate::merkle::path::lemma_digest_bytes_len(e.1);
    let b = leaf_bytes(e.0, e.1);
    assert(data[p] == b[0]);
    assert(data.subrange(p + 1, p + 9) =~= b.subrange(1, 9));
    assert(b.subrange(1, 9) =~= le_bytes_spec(e.0.1 as nat, 8));
    assert(data.subrange(p + 9, p + 41) =~= b.subrange(9, 41));
    assert(b.subrange(9, 41) =~= crate::rescue::digest::digest_bytes_spec(e.1));
    crate::merkle::path::lemma_digest_read_back(data, p + 9, e.1);
}

/// Leaves take 41 bytes each.
proof fn lemma_leaves_bytes_len(s: Seq<((u8, u64), Seq<nat>)>)
    ensures
        leaves_bytes(s).len() == 41 * s.len(),
    decreases s.len(),
{
    if s.len() > 0 {
        lemma_leaves_bytes_len(s.drop_last());
        crate::utils::bytes::lemma_le_bytes_len(s.last().0.1 as nat, 8);
        crate::merkle::path::lemma_digest_bytes_len(s.last().1);
    }
}

/// The bytes of readable leaves read back as the leaves.
proof fn lemma_leaves_read_back(data: Seq<u8>, pos: int, s: Seq<((u8, u64), Seq<nat>)>)
    requires
        0 <= pos,
        pos + 41 * s.len() <= data.len(),
        data.subrange(pos, pos + 41 * s.len()) == leaves_bytes(s),
        leaves_readable(s),
    ensures
        read_leaf_entries(data, pos, s.len())
            == Ok::<Seq<((nat, nat), Seq<nat>)>, ReadFailure>(s.map_values(|e: ((u8, u64), Seq<nat>)| leaf_key_view(e))),
    decreases s.len(),
{
    lemma_leaves_bytes_len(s);
    if s.len() == 0 {
        assert(s.map_values(|e: ((u8, u64), Seq<nat>)| leaf_key_view(e)) =~= Seq::<((nat, nat), Seq<nat>)>::empty());
    } else {
        let k = (s.len() - 1) as nat;
        let init = s.drop_last();
        lemma_leaves_bytes_len(init);
        let whole = data.subrange(pos, pos + 41 * s.len());
        assert(whole =~= leaves_bytes(init) + leaf_bytes(s.last().0, s.last().1));
        assert(whole.subrange(0, 41 * init.len() as int) =~= leaves_bytes(init));
        assert(data.subrange(pos, pos + 41 * init.len()) =~= whole.subrange(0, 41 * init.len() as int));
        assert(leaves_readable(init)) by {
            assert forall|i: int| 0 <= i < init.len() implies index_valid((#[trigger] init[i]).0.0 as nat, init[i].0.1 as nat)
                && init[i].1.len() == 4 && crate::rescue::digest::all_canonical(init[i].1) by {
                assert(init[i] == s[i]);
            }
        }
        lemma_leaves_read_back(data, pos, init);
        let p = pos + 41 * k;
        assert(whole.subrange(41 * k as int, 41 * k as int + 41) =~= leaf_bytes(s.last().0, s.last().1));
        assert(data.subrange(p, p + 41) =~= whole.subrange(41 * k as int, 41 * k as int + 41));
        assert(s[k as int] == s.last());
        lemma_leaf_read_back(data, p, s.last());
        assert(s.map_values(|e: ((u8, u64), Seq<nat>)| leaf_key_view(e)) =~=
            init.map_values(|e: ((u8, u64), Seq<nat>)| leaf_key_view(e)).push(leaf_key_view(s.last())));
    }
}

/// The law of a tree's serialization: reading back what `to_bytes` gave
/// (whatever follows it) decodes each leaf it wrote, in order, provided each
/// leaf's position fits its depth and its digest is canonical.
pub proof fn lemma_tree_bytes_read_back(s: Seq<((u8, u64), Seq<nat>)>, post: Seq<u8>)
    requires
        s.len() < 0x1_0000_0000_0000_0000,
        leaves_readable(s),
    ensures
        read_tree_spec(le_bytes_spec(s.len(), 8) + leaves_bytes(s) + post, 0)
            == Ok::<Seq<((nat, nat), Seq<nat>)>, ReadFailure>(s.map_values(|e: ((u8, u64), Seq<nat>)| leaf_key_view(e))),
{
    let data = le_bytes_spec(s.len(), 8) + leaves_bytes(s) + post;
    crate::utils::bytes::lemma_pow256_8();
    crate::utils::bytes::lemma_le_roundtrip(s.len(), 8);
    lemma_leaves_bytes_len(s);
    assert(data.subrange(0, 8) =~= le_bytes_spec(s.len(), 8));
    assert(data.subrange(8, 8 + 41 * s.len() as int) =~= leaves_bytes(s));
    lemma_leaves_read_back(data, 8, s);
}

/// Once reading leaves fails it stays failed with the same reason.
pub proof fn lemma_read_leaves_err_stays(data: Seq<u8>, pos: int, k: nat, m: nat)
    requires
        k <= m,
        read_leaf_entries(data, pos, k) is Err,
    ensures
        read_leaf_entries(data, pos, m) == read_leaf_entries(data, pos, k),
    decreases m - k,
{
    if k < m {
        lemma_read_leaves_err_stays(data, pos, k, (m - 1) as nat);
    }
}

/// Reading a tree's leaves at `pos`: an 8-byte count, then that many leaves.
pub open spec fn read_tree_spec(data: Seq<u8>, pos: int) -> Result<Seq<((nat, nat), Seq<nat>)>, ReadFailure> {
    if pos + 8 > data.len() {
        Err(ReadFailure::Eof)
    } else {
        read_leaf_entries(data, pos + 8, le_value(data.subrange(pos, pos + 8)))
    }
}

/// Whether `r` is what reading a tree gives from the decoded leaves `s`: the
/// tree built from them, or an invalid value where they do not form a tree;
/// or the error of the decoding.
pub open spec fn tree_read_matches(r: Result<PartialMerkleTree, DeserializationError>, s: Result<Seq<((nat, nat), Seq<nat>)>, ReadFailure>) -> bool {
    match s {
        Ok(v) => exists|entries: Seq<(NodeIndex, RpoDigest)>| #[trigger] entries_view(entries) == v
            && match build_levels(entries, entries_map(entries), Seq::empty(), max_entry_depth(entries)) {
                Ok(m) => r matches Ok(t) && t.nodes_spec() == m && t.leaves_spec() == entry_keys(entries),
                Err(_) => r matches Err(DeserializationError::InvalidValue(_)),
            },
        Err(ReadFailure::Eof) => r == Err::<PartialMerkleTree, DeserializationError>(DeserializationError::UnexpectedEOF),
        Err(ReadFailure::OutOfRange) => r matches Err(DeserializationError::InvalidValue(_)),
    }
}

/// The values of the entries at depth `d`, in order.
pub open spec fn entry_values_at(entries: Seq<(NodeIndex, RpoDigest)>, d: u8) -> Seq<u64>
    decreases entries.len(),
{
    if entries.len() == 0 {
        Seq::empty()
    } else {
        let rest = entry_values_at(entries.drop_last(), d);
        if entries.last().0@.0 == d as nat { rest.push(entries.last().0@.1 as u64) } else { rest }
    }
}

/// The other position under the same parent.
pub open spec fn sibling_of(v: u64) -> u64 {
    if v % 2 == 0 { (v + 1) as u64 } else { (v - 1) as u64 }
}

/// The parent of the node at depth `d`, position `v`, from the node and its sibling.
pub open spec fn parent_from(v: u64, node: Seq<nat>, sibling: Seq<nat>) -> Seq<nat> {
    if v % 2 == 0 { merge_digest(node, sibling) } else { merge_digest(sibling, node) }
}

/// Building one level of a tree from its leaves: for each position `vals[x..]`
/// at depth `d`, in turn, the parent is computed from the node and its sibling
/// unless it is known already; the parents computed are listed after `next`.
/// An error names a position that is out of range (`false`) or a sibling that
/// is missing (`true`), with its depth and value.
pub open spec fn level_parents(m: Map<(u8, u64), Seq<nat>>, vals: Seq<u64>, d: u8, x: nat, next: Seq<u64>)
    -> Result<(Map<(u8, u64), Seq<nat>>, Seq<u64>), (bool, nat, nat)>
    decreases vals.len() - x,
{
    if x >= vals.len() || d == 0 {
        Ok((m, next))
    } else {
        let xv = vals[x as int];
        let pk = ((d - 1) as u8, xv / 2);
        if !index_valid((d - 1) as nat, (xv / 2) as nat) {
            Err((false, (d - 1) as nat, (xv / 2) as nat))
        } else if m.contains_key(pk) {
            level_parents(m, vals, d, x + 1, next)
        } else if !index_valid(d as nat, xv as nat) {
            Err((false, d as nat, xv as nat))
        } else if !m.contains_key((d, sibling_of(xv))) {
            Err((true, d as nat, sibling_of(xv) as nat))
        } else {
            level_parents(m.insert(pk, parent_from(xv, m[(d, xv)], m[(d, sibling_of(xv))])), vals, d, x + 1, next.push(xv / 2))
        }
    }
}

/// Building a tree from its leaves, level by level from depth `d` up: the
/// positions of a level are those of the entries at that depth, then the
/// parents computed on the level below.
pub open spec fn build_levels(entries: Seq<(NodeIndex, RpoDigest)>, m: Map<(u8, u64), Seq<nat>>, carried: Seq<u64>, d: u8)
    -> Result<Map<(u8, u64), Seq<nat>>, (bool, nat, nat)>
    decreases d,
{
    if d == 0 {
        Ok(m)
    } else {
        match level_parents(m, entry_values_at(entries, d) + carried, d, 0, Seq::empty()) {
            Err(e) => Err(e),
            Ok((m2, next)) => build_levels(entries, m2, next, (d - 1) as u8),
        }
    }
}

/// Whether `r` is the outcome of building a tree from `entries`.
pub open spec fn builds_from(r: Result<PartialMerkleTree, MerkleError>, entries: Seq<(NodeIndex, RpoDigest)>) -> bool {
    match build_levels(entries, entries_map(entries), Seq::empty(), max_entry_depth(entries)) {
        Ok(m) => r matches Ok(t) && t.nodes_spec() == m,
        Err((true, d, v)) => r matches Err(MerkleError::NodeIndexNotFoundInTree(i)) && i@ == (d, v),
        Err((false, d, v)) => r == Err::<PartialMerkleTree, MerkleError>(MerkleError::InvalidNodeIndex { depth: d as u8, value: v as u64 }),
    }
}

/// The node at `k` has both children in `m` and is their digest.
pub open spec fn is_computed_parent(m: Map<(u8, u64), Seq<nat>>, k: (u8, u64)) -> bool {
    let left = ((k.0 + 1) as u8, (2 * k.1) as u64);
    let right = ((k.0 + 1) as u8, (2 * k.1 + 1) as u64);
    &&& k.0 < 255
    &&& m.contains_key(left)
    &&& m.contains_key(right)
    &&& m[k] == merge_digest(m[left], m[right])
}

/// The values of a map of digests have the map's keys.
proof fn lemma_map_view_dom(m: Map<(u8, u64), RpoDigest>)
    ensures
        map_view(m).dom() == m.dom(),
        forall|k: (u8, u64)| #[trigger] m.contains_key(k) ==> map_view(m)[k] == m[k]@,
{
    assert(map_view(m).dom() =~= m.dom());
}

/// The entries' map has the entries' keys.
proof fn lemma_entry_keys_dom(entries: Seq<(NodeIndex, RpoDigest)>)
    ensures
        entries_map(entries).dom() == entry_keys(entries),
    decreases entries.len(),
{
    if entries.len() > 0 {
        lemma_entry_keys_dom(entries.drop_last());
        assert(entries_map(entries).dom() =~= entry_keys(entries));
    }
}

/// Every entry's key is among the entries' keys.
proof fn lemma_entry_keys_contains(entries: Seq<(NodeIndex, RpoDigest)>, i: int)
    requires
        0 <= i < entries.len(),
    ensures
        entry_keys(entries).contains(entries[i].0.key()),
    decreases entries.len(),
{
    if i < entries.len() - 1 {
        lemma_entry_keys_contains(entries.drop_last(), i);
    }
}

/// Inserting a new key keeps every computed parent computed.
proof fn lemma_insert_keeps_parents(m: Map<(u8, u64), Seq<nat>>, added: Set<(u8, u64)>, k: (u8, u64), v: Seq<nat>)
    requires
        !m.contains_key(k),
        forall|a: (u8, u64)| #[trigger] added.contains(a) ==> is_computed_parent(m, a),
        forall|a: (u8, u64)| #[trigger] added.contains(a) ==> m.contains_key(a),
    ensures
        forall|a: (u8, u64)| #[trigger] added.contains(a) ==> is_computed_parent(m.insert(k, v), a),
{
    assert forall|a: (u8, u64)| #[trigger] added.contains(a) implies is_computed_parent(m.insert(k, v), a) by {
        assert(is_computed_parent(m, a));
    }
}

/// The parent computed from a node and its sibling is a computed parent.
proof fn lemma_new_parent(m: Map<(u8, u64), Seq<nat>>, d: u8, x: nat, node: Seq<nat>, sibling: Seq<nat>, value: Seq<nat>)
    requires
        1 <= d,
        x < 0x1_0000_0000_0000_0000,
        m.contains_key((d, x as u64)),
        m[(d, x as u64)] == node,
        m.contains_key((d, sibling_value(x) as u64)),
        m[(d, sibling_value(x) as u64)] == sibling,
        sibling_value(x) < 0x1_0000_0000_0000_0000,
        x % 2 == 1 ==> value == merge_digest(sibling, node),
        x % 2 == 0 ==> value == merge_digest(node, sibling),
        !m.contains_key(((d - 1) as u8, (x / 2) as u64)),
    ensures
        is_computed_parent(m.insert(((d - 1) as u8, (x / 2) as u64), value), ((d - 1) as u8, (x / 2) as u64)),
{
    let k = ((d - 1) as u8, (x / 2) as u64);
    if x % 2 == 1 {
        assert(2 * (x / 2) == x - 1);
    } else {
        assert(2 * (x / 2) == x);
    }
}

/// The keys recorded by levels `0..=k` of a path are those of the nodes met and their siblings.
proof fn lemma_add_path_nodes_dom(
    old: Map<(u8, u64), Seq<nat>>,
    d: nat,
    v: nat,
    node: Seq<nat>,
    path: Seq<Seq<nat>>,
    k: nat,
    key: (u8, u64),
)
    requires
        k < d <= 64,
        key.0 < d - k,
    ensures
        add_path_nodes(old, d, v, node, path, k).contains_key(key) == old.contains_key(key),
    decreases k,
{
    if k > 0 {
        lemma_add_path_nodes_dom(old, d, v, node, path, (k - 1) as nat, key);
    }
}

} // verus!
