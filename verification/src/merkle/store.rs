//! A store of Merkle nodes shared by many trees: each inner node is kept once,
//! keyed by its digest, with its two children.

use vstd::prelude::*;
use vstd::arithmetic::power2::pow2;
use std::collections::BTreeMap;
use crate::felt::MODULUS;
use crate::merkle::{MerkleError, InnerNodeInfo, merge_digest, digests_view};
use crate::merkle::index::NodeIndex;
use crate::merkle::path::{MerklePath, ValuePath, RootPath, path_node_at, path_children_at, lemma_div_pow2_step};
use crate::merkle::tree::MerkleTree;
use crate::merkle::empty_roots::{EmptySubtreeRoots, empty_root_spec};
use crate::merkle::simple_smt::SimpleSmt;
use crate::rescue::digest::{RpoDigest, dkey, lemma_rpo_digest_view_eq};
use crate::rescue::rpo::Rpo256;
use crate::rescue::digest::digest_bytes_spec;
use crate::utils::bytes::{DeserializationError, SliceReader, le_value};
use crate::merkle::path::read_digests_spec;
use crate::rescue::digest::ReadFailure;

verus! {

/// The key of a digest in the store.
pub type DigestKey = ((u64, u64), (u64, u64));

/// The children of a node of the store.
#[derive(Debug, Default, Clone, Copy, PartialEq, Eq)]
pub struct StoreNode {
    pub left: RpoDigest,
    pub right: RpoDigest,
}

/// The children of every node, by the node's key.
pub open spec fn store_view(m: Map<DigestKey, StoreNode>) -> Map<DigestKey, (Seq<nat>, Seq<nat>)> {
    m.map_values(|n: StoreNode| (n.left@, n.right@))
}

/// The bit of `value` that chooses the child at step `t` of a walk to depth `depth`.
pub open spec fn walk_bit(value: nat, depth: nat, t: nat) -> nat {
    (value / pow2((depth - t) as nat)) % 2
}

/// The digest reached after `t` steps from `hash` towards position `value` at
/// depth `depth`, or the digest that has no children in the store.
pub open spec fn store_walk(m: Map<DigestKey, (Seq<nat>, Seq<nat>)>, hash: Seq<nat>, depth: nat, value: nat, t: nat) -> Result<Seq<nat>, Seq<nat>>
    decreases t,
{
    if t == 0 {
        Ok(hash)
    } else {
        match store_walk(m, hash, depth, value, (t - 1) as nat) {
            Err(h) => Err(h),
            Ok(h) => if !m.contains_key(dkey(h)) {
                Err(h)
            } else if walk_bit(value, depth, t) == 0 {
                Ok(m[dkey(h)].0)
            } else {
                Ok(m[dkey(h)].1)
            },
        }
    }
}

/// The siblings met in the first `t` steps of a walk, highest first.
pub open spec fn store_siblings(m: Map<DigestKey, (Seq<nat>, Seq<nat>)>, hash: Seq<nat>, depth: nat, value: nat, t: nat) -> Seq<Seq<nat>>
    decreases t,
{
    if t == 0 {
        Seq::empty()
    } else {
        let prev = store_siblings(m, hash, depth, value, (t - 1) as nat);
        match store_walk(m, hash, depth, value, (t - 1) as nat) {
            Ok(h) => if walk_bit(value, depth, t) == 0 {
                prev.push(m[dkey(h)].1)
            } else {
                prev.push(m[dkey(h)].0)
            },
            Err(h) => prev,
        }
    }
}

/// The store after recording the parents met on `k` steps up a path.
pub open spec fn path_entries(m: Map<DigestKey, (Seq<nat>, Seq<nat>)>, siblings: Seq<Seq<nat>>, value: nat, node: Seq<nat>, k: nat) -> Map<DigestKey, (Seq<nat>, Seq<nat>)>
    decreases k,
{
    if k == 0 {
        m
    } else {
        path_entries(m, siblings, value, node, (k - 1) as nat).insert(
            dkey(path_node_at(siblings, value, node, k)), path_children_at(siblings, value, node, (k - 1) as nat))
    }
}

/// The entries of the empty subtrees of every height up to 255: the root of
/// height `h + 1` has two children of height `h`.
pub open spec fn empty_entries(h: nat) -> Map<DigestKey, (Seq<nat>, Seq<nat>)>
    decreases h,
{
    if h == 0 {
        Map::empty()
    } else {
        empty_entries((h - 1) as nat).insert(dkey(empty_root_spec(h)), (empty_root_spec((h - 1) as nat), empty_root_spec((h - 1) as nat)))
    }
}

/// The entries after recording each of `infos` in turn.
pub open spec fn info_entries(m: Map<DigestKey, (Seq<nat>, Seq<nat>)>, infos: Seq<InnerNodeInfo>) -> Map<DigestKey, (Seq<nat>, Seq<nat>)>
    decreases infos.len(),
{
    if infos.len() == 0 {
        m
    } else {
        let last = infos[infos.len() - 1];
        info_entries(m, infos.drop_last()).insert(dkey(last.value@), (last.left@, last.right@))
    }
}

/// The entries after recording, in turn, the inner nodes `1` to `k - 1` of a
/// tree laid out by index, where node `i` has the children `2i` and `2i + 1`.
pub open spec fn tree_entries(m: Map<DigestKey, (Seq<nat>, Seq<nat>)>, nodes: Seq<Seq<nat>>, k: nat)
    -> Map<DigestKey, (Seq<nat>, Seq<nat>)>
    decreases k,
{
    if k <= 1 {
        m
    } else {
        let i = k - 1;
        tree_entries(m, nodes, (k - 1) as nat).insert(dkey(nodes[i]), (nodes[2 * i], nodes[2 * i + 1]))
    }
}

/// Digests taken three at a time: a node, then its left and right children.
pub open spec fn group_triples(f: Seq<Seq<nat>>) -> Seq<(Seq<nat>, Seq<nat>, Seq<nat>)> {
    Seq::new(f.len() / 3, |i: int| (f[3 * i], f[3 * i + 1], f[3 * i + 2]))
}

/// The entries after recording each node of `t` with its children, in turn.
pub open spec fn triple_entries(m: Map<DigestKey, (Seq<nat>, Seq<nat>)>, t: Seq<(Seq<nat>, Seq<nat>, Seq<nat>)>)
    -> Map<DigestKey, (Seq<nat>, Seq<nat>)>
    decreases t.len(),
{
    if t.len() == 0 {
        m
    } else {
        let last = t.last();
        triple_entries(m, t.drop_last()).insert(dkey(last.0), (last.1, last.2))
    }
}

/// Reading a store at `pos`: an 8-byte count, then that many nodes, each a
/// digest with its two children.
pub open spec fn read_store_spec(data: Seq<u8>, pos: int) -> Result<Seq<(Seq<nat>, Seq<nat>, Seq<nat>)>, ReadFailure> {
    if pos + 8 > data.len() {
        Err(ReadFailure::Eof)
    } else {
        match read_digests_spec(data, pos + 8, 3 * le_value(data.subrange(pos, pos + 8))) {
            Ok(f) => Ok(group_triples(f)),
            Err(e) => Err(e),
        }
    }
}

/// The entries after recording the first `k` of `paths` in turn.
pub open spec fn store_paths(m: Map<DigestKey, (Seq<nat>, Seq<nat>)>, paths: Seq<(u64, RpoDigest, MerklePath)>, k: nat)
    -> Map<DigestKey, (Seq<nat>, Seq<nat>)>
    decreases k,
{
    if k == 0 || k > paths.len() {
        m
    } else {
        let p = paths[k - 1];
        path_entries(store_paths(m, paths, (k - 1) as nat), p.2@, p.0 as nat, p.1@, p.2@.len())
    }
}

/// Whether a path's position fits in its length.
pub open spec fn path_fits(p: (u64, RpoDigest, MerklePath)) -> bool {
    crate::merkle::index::index_valid(p.2@.len(), p.0 as nat)
}

/// A digit of the walk down: its depth and position with its digest.
pub open spec fn leaf_view(p: (NodeIndex, RpoDigest)) -> ((nat, nat), Seq<nat>) {
    (p.0@, p.1@)
}

/// The leaves met walking down from `node` at depth `d`, position `v`, to
/// depth `max_depth`: right subtrees first, skipping children that are roots
/// of empty subtrees (listed in `empty`); a node is a leaf at `max_depth` or
/// where the store does not know its children.
pub open spec fn leaves_below(m: Map<DigestKey, (Seq<nat>, Seq<nat>)>, d: nat, v: nat, node: Seq<nat>, max_depth: nat,
    empty: Seq<Seq<nat>>) -> Seq<((nat, nat), Seq<nat>)>
    decreases max_depth - d,
{
    if d >= max_depth || !m.contains_key(dkey(node)) {
        seq![((d, v), node)]
    } else {
        let l = m[dkey(node)].0;
        let r = m[dkey(node)].1;
        let rv = (2 * v) % 0x1_0000_0000_0000_0000 + 1;
        let lv = (2 * v) % 0x1_0000_0000_0000_0000;
        (if empty.contains(r) { Seq::empty() } else { leaves_below(m, d + 1, rv, r, max_depth, empty) })
            + (if empty.contains(l) { Seq::empty() } else { leaves_below(m, d + 1, lv, l, max_depth, empty) })
    }
}

/// The values of a store map have the map's keys.
proof fn lemma_store_view_dom(m: Map<DigestKey, StoreNode>)
    ensures
        store_view(m).dom() == m.dom(),
        forall|k: DigestKey| #[trigger] m.contains_key(k) ==> store_view(m)[k] == (m[k].left@, m[k].right@),
{
    assert(store_view(m).dom() =~= m.dom());
}

/// A store of Merkle nodes.
#[derive(Debug, Clone, PartialEq, Eq)]
pub struct MerkleStore {
    nodes: BTreeMap<DigestKey, StoreNode>,
}

impl MerkleStore {
    /// Every key of the store is the key of a digest.
    pub closed spec fn wf(&self) -> bool {
        keys_canonical(self.nodes@.dom())
    }

    /// The children of every node of the store, by the node's key.
    pub closed spec fn view_map(&self) -> Map<DigestKey, (Seq<nat>, Seq<nat>)> {
        store_view(self.nodes@)
    }

    /// Records `info`'s node with its children.
    fn insert_info(&mut self, value: RpoDigest, left: RpoDigest, right: RpoDigest)
        requires
            old(self).wf(),
        ensures
            final(self).wf(),
            final(self).view_map() == old(self).view_map().insert(dkey(value@), (left@, right@)),
    {
        proof {
            crate::felt::lemma_mont_bound(value@[0]);
            crate::felt::lemma_mont_bound(value@[1]);
            crate::felt::lemma_mont_bound(value@[2]);
            crate::felt::lemma_mont_bound(value@[3]);
        }
        self.nodes.insert(value.store_key(), StoreNode { left, right });
        assert(keys_canonical(self.nodes@.dom()));
        assert(final(self).view_map() =~= old(self).view_map().insert(dkey(value@), (left@, right@)));
    }

    /// A store holding the empty subtrees of every height up to 255.
    pub fn new() -> (r: Self)
        ensures
            r.wf(),
            r.view_map() == empty_entries(255),
    {
        let mut store = MerkleStore { nodes: BTreeMap::new() };
        let mut child = RpoDigest::default();
        let mut h: u16 = 0;
        assert(store.view_map() =~= empty_entries(0));
        while h < 255
            invariant
                0 <= h <= 255,
                child@ == empty_root_spec(h as nat),
                store.wf(),
                store.view_map() == empty_entries(h as nat),
            decreases 255 - h,
        {
            let parent = Rpo256::merge(&[child, child]);
            store.insert_info(parent, child, child);
            child = parent;
            h = h + 1;
        }
        store
    }

    /// Records the empty subtrees of every height up to 255 over what is there.
    fn add_empty_hashes(&mut self)
        requires
            old(self).wf(),
        ensures
            final(self).wf(),
            final(self).view_map() == old(self).view_map().union_prefer_right(empty_entries(255)),
    {
        let ghost m0 = self.view_map();
        let mut child = RpoDigest::default();
        let mut h: u16 = 0;
        assert(m0.union_prefer_right(empty_entries(0)) =~= m0);
        while h < 255
            invariant
                0 <= h <= 255,
                child@ == empty_root_spec(h as nat),
                self.wf(),
                self.view_map() == m0.union_prefer_right(empty_entries(h as nat)),
            decreases 255 - h,
        {
            let parent = Rpo256::merge(&[child, child]);
            self.insert_info(parent, child, child);
            proof {
                assert(m0.union_prefer_right(empty_entries(h as nat)).insert(dkey(parent@), (child@, child@))
                    =~= m0.union_prefer_right(empty_entries(h as nat + 1)));
            }
            child = parent;
            h = h + 1;
        }
    }

    /// Records each of `infos`, a node with its children.
    pub fn extend(&mut self, infos: &[InnerNodeInfo])
        requires
            old(self).wf(),
        ensures
            final(self).wf(),
            final(self).view_map() == info_entries(old(self).view_map(), infos@),
    {
        let ghost m0 = self.view_map();
        let mut i: usize = 0;
        while i < infos.len()
            invariant
                0 <= i <= infos@.len(),
                self.wf(),
                self.view_map() == info_entries(m0, infos@.take(i as int)),
            decreases infos@.len() - i,
        {
            proof {
                assert(infos@.take(i + 1).drop_last() =~= infos@.take(i as int));
                assert(infos@.take(i + 1)[i as int] == infos@[i as int]);
            }
            self.insert_info(infos[i].value, infos[i].left, infos[i].right);
            i = i + 1;
        }
        proof {
            assert(infos@.take(infos@.len() as int) =~= infos@);
        }
    }

    /// A store of the nodes `infos`, then the empty subtrees of every height up
    /// to 255 (which win over a node of the same digest).
    pub fn from_inner_nodes(infos: &[InnerNodeInfo]) -> (r: Self)
        ensures
            r.wf(),
            r.view_map() == info_entries(Map::empty(), infos@).union_prefer_right(empty_entries(255)),
    {
        let mut store = MerkleStore { nodes: BTreeMap::new() };
        assert(store.view_map() =~= Map::empty());
        assert(keys_canonical(store.nodes@.dom()));
        store.extend(infos);
        store.add_empty_hashes();
        store
    }

    /// A store of the inner nodes of a sparse Merkle tree, then the empty
    /// subtrees of every height up to 255.
    pub fn from_smt<const DEPTH: u8>(smt: &SimpleSmt<DEPTH>) -> (r: Self)
        ensures
            r.wf(),
            exists|infos: Seq<InnerNodeInfo>| infos.len() == smt.inner_spec().len()
                && (forall|i: int| 0 <= i < infos.len() ==> #[trigger] smt.is_stored_info(infos[i]))
                && r.view_map() == info_entries(Map::empty(), infos).union_prefer_right(empty_entries(255)),
    {
        let infos = smt.inner_nodes();
        Self::from_inner_nodes(infos.as_slice())
    }

    /// Number of nodes in the store.
    pub fn num_internal_nodes(&self) -> (r: usize)
        ensures
            r == self.view_map().len(),
    {
        proof {
            lemma_store_view_dom(self.nodes@);
        }
        self.nodes.len()
    }

    /// Whether the store holds the node `hash`.
    pub fn contains(&self, hash: RpoDigest) -> (r: bool)
        ensures
            r == self.view_map().contains_key(dkey(hash@)),
    {
        proof {
            lemma_store_view_dom(self.nodes@);
        }
        self.nodes.contains_key(&hash.store_key())
    }

    /// The children of `hash`, when the store holds it.
    fn children(&self, hash: RpoDigest) -> (r: Option<StoreNode>)
        ensures
            self.view_map().contains_key(dkey(hash@)) ==> (r matches Some(n)
                && (n.left@, n.right@) == self.view_map()[dkey(hash@)]),
            !self.view_map().contains_key(dkey(hash@)) ==> r is None,
    {
        proof {
            lemma_store_view_dom(self.nodes@);
        }
        match self.nodes.get(&hash.store_key()) {
            Some(n) => Some(*n),
            None => None,
        }
    }

    /// The node at `index` below `root`.
    pub fn get_node(&self, root: RpoDigest, index: NodeIndex) -> (r: Result<RpoDigest, MerkleError>)
        requires
            index@.0 <= 64 || !self.view_map().contains_key(dkey(root@)),
        ensures
            !self.view_map().contains_key(dkey(root@)) ==> r == Err::<RpoDigest, MerkleError>(MerkleError::RootNotInStore(root)),
            self.view_map().contains_key(dkey(root@)) ==> match store_walk(self.view_map(), root@, index@.0, index@.1, index@.0) {
                Ok(h) => r matches Ok(d) && d@ == h,
                Err(h) => r matches Err(MerkleError::NodeIndexNotFoundInStore(x, i)) && x@ == h && i == index,
            },
    {
        if !self.contains(root) {
            return Err(MerkleError::RootNotInStore(root));
        }
        let ghost m = self.view_map();
        let ghost d = index@.0;
        let ghost v = index@.1;
        let mut hash = root;
        let mut t: u8 = 0;
        while t < index.depth()
            invariant
                0 <= t <= d,
                d == index@.0,
                v == index@.1,
                d <= 64,
                m == self.view_map(),
                m.contains_key(dkey(root@)),
                store_walk(m, root@, d, v, t as nat) == Ok::<Seq<nat>, Seq<nat>>(hash@),
            decreases d - t,
        {
            let node = match self.children(hash) {
                Some(n) => n,
                None => {
                    proof {
                        lemma_walk_err_stays(m, root@, d, v, (t + 1) as nat, d);
                    }
                    return Err(MerkleError::NodeIndexNotFoundInStore(hash, index));
                },
            };
            let i = index.depth() - 1 - t;
            let bit = shr_bit(index.value(), i);
            hash = if bit == 0 { node.left } else { node.right };
            t = t + 1;
        }
        Ok(hash)
    }

    /// The node at `index` below `root`, with the siblings met on the way, lowest first.
    pub fn get_path(&self, root: RpoDigest, index: NodeIndex) -> (r: Result<ValuePath, MerkleError>)
        requires
            index@.0 <= 64 || !self.view_map().contains_key(dkey(root@)),
        ensures
            !self.view_map().contains_key(dkey(root@)) ==> r == Err::<ValuePath, MerkleError>(MerkleError::RootNotInStore(root)),
            self.view_map().contains_key(dkey(root@)) ==> match store_walk(self.view_map(), root@, index@.0, index@.1, index@.0) {
                Ok(h) => r matches Ok(p) && p.value@ == h
                    && p.path@ == store_siblings(self.view_map(), root@, index@.0, index@.1, index@.0).reverse(),
                Err(h) => r matches Err(MerkleError::NodeIndexNotFoundInStore(x, i)) && x@ == h && i == index,
            },
    {
        if !self.contains(root) {
            return Err(MerkleError::RootNotInStore(root));
        }
        let ghost m = self.view_map();
        let ghost d = index@.0;
        let ghost v = index@.1;
        let mut hash = root;
        let mut top_down: Vec<RpoDigest> = Vec::new();
        let mut t: u8 = 0;
        while t < index.depth()
            invariant
                0 <= t <= d,
                d == index@.0,
                v == index@.1,
                d <= 64,
                m == self.view_map(),
                m.contains_key(dkey(root@)),
                store_walk(m, root@, d, v, t as nat) == Ok::<Seq<nat>, Seq<nat>>(hash@),
                digests_view(top_down@) == store_siblings(m, root@, d, v, t as nat),
                top_down@.len() == t,
            decreases d - t,
        {
            let node = match self.children(hash) {
                Some(n) => n,
                None => {
                    proof {
                        lemma_walk_err_stays(m, root@, d, v, (t + 1) as nat, d);
                    }
                    return Err(MerkleError::NodeIndexNotFoundInStore(hash, index));
                },
            };
            let i = index.depth() - 1 - t;
            let bit = shr_bit(index.value(), i);
            if bit == 0 {
                top_down.push(node.right);
                hash = node.left;
            } else {
                top_down.push(node.left);
                hash = node.right;
            }
            proof {
                assert(digests_view(top_down@) =~= store_siblings(m, root@, d, v, (t + 1) as nat));
            }
            t = t + 1;
        }
        let mut path: Vec<RpoDigest> = Vec::new();
        let mut j: usize = top_down.len();
        while j > 0
            invariant
                0 <= j <= top_down@.len(),
                top_down@.len() == d,
                path@.len() == top_down@.len() - j,
                forall|q: int| 0 <= q < path@.len() ==> #[trigger] path@[q] == top_down@[top_down@.len() - 1 - q],
            decreases j,
        {
            path.push(top_down[j - 1]);
            j = j - 1;
        }
        proof {
            assert(digests_view(path@) =~= digests_view(top_down@).reverse());
        }
        Ok(ValuePath::new(hash, MerklePath::new(path)))
    }

    /// Records the parents met walking up `path` from `node` at position `index`,
    /// each with its children; the last one, the root, is returned (the empty
    /// digest for an empty path).
    pub fn add_merkle_path(&mut self, index: u64, node: RpoDigest, path: MerklePath) -> (r: Result<RpoDigest, MerkleError>)
        requires
            old(self).wf(),
        ensures
            final(self).wf(),
            r is Ok <==> crate::merkle::index::index_valid(path@.len(), index as nat),
            r is Ok ==> final(self).view_map() == path_entries(old(self).view_map(), path@, index as nat, node@, path@.len()),
            r matches Ok(root) ==> root@ == (if path@.len() == 0 { seq![0nat, 0nat, 0nat, 0nat] } else {
                path_node_at(path@, index as nat, node@, path@.len()) }),
            r is Err ==> *final(self) == *old(self),
            r matches Err(e) ==> e == (MerkleError::InvalidNodeIndex { depth: path@.len() as u8, value: index }),
    {
        let infos = match path.inner_nodes(index, node) {
            Ok(v) => v,
            Err(e) => return Err(e),
        };
        let mut root = RpoDigest::default();
        let mut k: usize = 0;
        let ghost m0 = self.view_map();
        while k < infos.len()
            invariant
                0 <= k <= infos@.len(),
                infos@.len() == path@.len(),
                m0 == old(self).view_map(),
                forall|q: int| 0 <= q < infos@.len() ==> {
                    &&& (#[trigger] infos@[q]).value@ == path_node_at(path@, index as nat, node@, (q + 1) as nat)
                    &&& (infos@[q].left@, infos@[q].right@) == path_children_at(path@, index as nat, node@, q as nat)
                },
                self.view_map() == path_entries(m0, path@, index as nat, node@, k as nat),
                self.wf(),
                k > 0 ==> root@ == path_node_at(path@, index as nat, node@, k as nat),
                k == 0 ==> root@ == seq![0nat, 0nat, 0nat, 0nat],
            decreases infos@.len() - k,
        {
            let info = &infos[k];
            self.insert_info(info.value, info.left, info.right);
            root = info.value;
            k = k + 1;
        }
        Ok(root)
    }

    /// Records several paths in turn; the first failure is returned.
    pub fn add_merkle_paths(&mut self, paths: &Vec<(u64, RpoDigest, MerklePath)>) -> (r: Result<(), MerkleError>)
        requires
            old(self).wf(),
        ensures
            final(self).wf(),
            paths@.len() == 0 ==> r is Ok && *final(self) == *old(self),
            (forall|j: int| 0 <= j < paths@.len() ==> #[trigger] path_fits(paths@[j])) ==> (r is Ok
                && final(self).view_map() == store_paths(old(self).view_map(), paths@, paths@.len())),
            forall|i: int| 0 <= i < paths@.len() && (forall|j: int| 0 <= j < i ==> #[trigger] path_fits(paths@[j]))
                && !path_fits(#[trigger] paths@[i]) ==> (r == Err::<(), MerkleError>(MerkleError::InvalidNodeIndex {
                    depth: paths@[i].2@.len() as u8, value: paths@[i].0 })
                && final(self).view_map() == store_paths(old(self).view_map(), paths@, i as nat)),
    {
        let ghost m0 = self.view_map();
        let mut i: usize = 0;
        while i < paths.len()
            invariant
                0 <= i <= paths@.len(),
                paths@.len() == 0 ==> *self == *old(self),
                self.wf(),
                m0 == old(self).view_map(),
                forall|j: int| 0 <= j < i ==> #[trigger] path_fits(paths@[j]),
                self.view_map() == store_paths(m0, paths@, i as nat),
            decreases paths@.len() - i,
        {
            let path = paths[i].2.clone();
            match self.add_merkle_path(paths[i].0, paths[i].1, path) {
                Ok(_) => {},
                Err(e) => {
                    proof {
                        assert(!path_fits(paths@[i as int]));
                    }
                    return Err(e);
                },
            }
            proof {
                assert(path_fits(paths@[i as int]));
            }
            i = i + 1;
        }
        Ok(())
    }

    /// Replaces the node at `index` below `root` with `value`, recording the new
    /// parents; the new root and the path of the node are returned.
    pub fn set_node(&mut self, root: RpoDigest, index: NodeIndex, value: RpoDigest) -> (r: Result<RootPath, MerkleError>)
        requires
            old(self).wf(),
            index@.0 <= 64 || !old(self).view_map().contains_key(dkey(root@)),
        ensures
            final(self).wf(),
            !old(self).view_map().contains_key(dkey(root@)) ==> r == Err::<RootPath, MerkleError>(MerkleError::RootNotInStore(root)),
            old(self).view_map().contains_key(dkey(root@)) ==> match store_walk(old(self).view_map(), root@, index@.0, index@.1, index@.0) {
                Err(h) => r matches Err(MerkleError::NodeIndexNotFoundInStore(x, i)) && x@ == h && i == index,
                Ok(h) => {
                    let siblings = store_siblings(old(self).view_map(), root@, index@.0, index@.1, index@.0).reverse();
                    if h == value@ {
                        &&& r matches Ok(rp)
                        &&& rp.path@ == siblings
                        &&& rp.root == root
                        &&& *final(self) == *old(self)
                    } else if !crate::merkle::index::index_valid(index@.0, index@.1) {
                        &&& r == Err::<RootPath, MerkleError>(MerkleError::InvalidNodeIndex { depth: index@.0 as u8, value: index@.1 as u64 })
                        &&& *final(self) == *old(self)
                    } else {
                        &&& r matches Ok(rp)
                        &&& rp.path@ == siblings
                        &&& rp.root@ == (if index@.0 == 0 { seq![0nat, 0nat, 0nat, 0nat] } else {
                            path_node_at(siblings, index@.1, value@, index@.0) })
                        &&& final(self).view_map() == path_entries(old(self).view_map(), siblings, index@.1, value@, index@.0)
                    }
                },
            },
    {
        let vp = match self.get_path(root, index) {
            Ok(p) => p,
            Err(e) => return Err(e),
        };
        proof {
            lemma_rpo_digest_view_eq(value, vp.value);
        }
        proof {
            lemma_siblings_len(self.view_map(), root@, index@.0, index@.1, index@.0);
        }
        if value != vp.value {
            let new_root = match self.add_merkle_path(index.value(), value, vp.path.clone()) {
                Ok(x) => x,
                Err(e) => return Err(e),
            };
            Ok(RootPath { root: new_root, path: vp.path })
        } else {
            Ok(RootPath { root, path: vp.path })
        }
    }

    /// Records the parent of two roots and returns it.
    pub fn merge_roots(&mut self, left_root: RpoDigest, right_root: RpoDigest) -> (r: Result<RpoDigest, MerkleError>)
        requires
            old(self).wf(),
        ensures
            final(self).wf(),
            r matches Ok(p) && p@ == merge_digest(left_root@, right_root@)
                && final(self).view_map() == old(self).view_map().insert(dkey(p@), (left_root@, right_root@)),
    {
        let parent = Rpo256::merge(&[left_root, right_root]);
        self.insert_info(parent, left_root, right_root);
        Ok(parent)
    }

    /// Every node with its children.
    pub fn inner_nodes(&self) -> (r: Vec<InnerNodeInfo>)
        requires
            self.wf(),
        ensures
            r@.len() == self.view_map().len(),
            forall|i: int| 0 <= i < r@.len() ==> self.view_map().contains_key(dkey((#[trigger] r@[i]).value@))
                && self.view_map()[dkey(r@[i].value@)] == (r@[i].left@, r@[i].right@),
    {
        proof {
            lemma_store_view_dom(self.nodes@);
        }
        let keys = store_keys(&self.nodes);
        let mut r: Vec<InnerNodeInfo> = Vec::new();
        let mut i: usize = 0;
        while i < keys.len()
            invariant
                0 <= i <= keys@.len(),
                keys@.to_set() == self.nodes@.dom(),
                keys@.len() == self.view_map().len(),
                store_view(self.nodes@).dom() == self.nodes@.dom(),
                self.wf(),
                r@.len() == i,
                forall|j: int| 0 <= j < i ==> self.view_map().contains_key(dkey((#[trigger] r@[j]).value@))
                    && self.view_map()[dkey(r@[j].value@)] == (r@[j].left@, r@[j].right@),
            decreases keys@.len() - i,
        {
            let k = keys[i];
            proof {
                assert(keys@.to_set().contains(keys@[i as int]));
            }
            let n = *self.nodes.get(&k).unwrap();
            let value = RpoDigest::from_store_key(k);
            r.push(InnerNodeInfo { value, left: n.left, right: n.right });
            i = i + 1;
        }
        r
    }

    /// A store with the inner nodes of `tree` and the empty subtrees.
    pub fn from_tree(tree: &MerkleTree) -> (r: Self)
        ensures
            r.wf(),
            forall|i: int| 1 <= i < tree.num_leaves_spec() ==> r.view_map().contains_key(dkey(#[trigger] tree@[i])),
            r.view_map() == tree_entries(empty_entries(255), tree@, tree.num_leaves_spec()),
    {
        let infos = tree.inner_nodes();
        let mut store = Self::new();
        let mut i: usize = 0;
        while i < infos.len()
            invariant
                0 <= i <= infos@.len(),
                store.wf(),
                infos@.len() == tree.num_leaves_spec() - 1,
                forall|q: int| 0 <= q < infos@.len() ==> (#[trigger] infos@[q]).value@ == tree@[q + 1],
                forall|q: int| 1 <= q <= i ==> store.view_map().contains_key(dkey(#[trigger] tree@[q])),
                forall|q: int| 0 <= q < infos@.len() ==> {
                    &&& (#[trigger] infos@[q]).left@ == tree@[2 * (q + 1)]
                    &&& infos@[q].right@ == tree@[2 * (q + 1) + 1]
                },
                store.view_map() == tree_entries(empty_entries(255), tree@, (i + 1) as nat),
            decreases infos@.len() - i,
        {
            store.insert_info(infos[i].value, infos[i].left, infos[i].right);
            assert(infos@[i as int].value@ == tree@[i + 1]);
            assert(infos@[i as int].left@ == tree@[2 * (i + 1)]);
            i = i + 1;
        }
        store
    }

    /// The depth of the leaf on the way to position `index` at depth `tree_depth`
    /// below `root`: the first depth where the walk meets an empty subtree or a
    /// node without children in the store.
    pub fn get_leaf_depth(&self, root: RpoDigest, tree_depth: u8, index: u64) -> (r: Result<u8, MerkleError>)
        requires
            tree_depth != 0 || index != 0 || !self.view_map().contains_key(dkey(root@)),
        ensures
            tree_depth > 64 ==> r == Err::<u8, MerkleError>(MerkleError::DepthTooBig(tree_depth as u64)),
            tree_depth <= 64 && !crate::merkle::index::index_valid(tree_depth as nat, index as nat) ==> r == Err::<u8, MerkleError>(
                MerkleError::InvalidNodeIndex { depth: tree_depth, value: index }),
            tree_depth <= 64 && crate::merkle::index::index_valid(tree_depth as nat, index as nat)
                && !self.view_map().contains_key(dkey(root@)) ==> r == Err::<u8, MerkleError>(MerkleError::RootNotInStore(root)),
            tree_depth <= 64 && crate::merkle::index::index_valid(tree_depth as nat, index as nat)
                && self.view_map().contains_key(dkey(root@)) ==> match leaf_depth_from(self.view_map(), root@, tree_depth as nat, index as nat, 0) {
                    Some(j) => r == Ok::<u8, MerkleError>(j as u8),
                    None => r == Err::<u8, MerkleError>(MerkleError::DepthTooBig((tree_depth + 1) as u64)),
                },
    {
        if tree_depth > 64 {
            return Err(MerkleError::DepthTooBig(tree_depth as u64));
        }
        match NodeIndex::new(tree_depth, index) {
            Ok(_) => {},
            Err(e) => return Err(e),
        }
        let empty = EmptySubtreeRoots::empty_hashes(tree_depth);
        let mut hash = root;
        if !self.contains(hash) {
            return Err(MerkleError::RootNotInStore(hash));
        }
        let ghost m = self.view_map();
        let mut j: u16 = 0;
        proof {
            vstd::arithmetic::power2::lemma2_to64();
        }
        while j <= tree_depth as u16
            invariant
                0 <= j <= tree_depth + 1,
                1 <= tree_depth <= 64,
                crate::merkle::index::index_valid(tree_depth as nat, index as nat),
                m.contains_key(dkey(root@)),
                m == self.view_map(),
                empty@.len() == tree_depth + 1,
                forall|q: int| 0 <= q <= tree_depth ==> #[trigger] empty@[q]@ == empty_root_spec((tree_depth - q) as nat),
                leaf_depth_from(m, root@, tree_depth as nat, index as nat, 0)
                    == leaf_depth_from(m, hash@, tree_depth as nat, index as nat, j as nat),
            decreases tree_depth + 1 - j,
        {
            let e = empty[j as usize];
            proof {
                lemma_rpo_digest_view_eq(hash, e);
            }
            if hash == e {
                return Ok(j as u8);
            }
            let children = match self.children(hash) {
                Some(c) => c,
                None => return Ok(j as u8),
            };
            let bit = if j < tree_depth as u16 { shr_bit(index, (tree_depth as u16 - 1 - j) as u8) } else { 0 };
            hash = if bit == 0 { children.left } else { children.right };
            j = j + 1;
        }
        Err(MerkleError::DepthTooBig(tree_depth as u64 + 1))
    }

    /// Walking down from `root` at `root_index` towards depth `tree_depth`, the
    /// only non-empty leaf below, if each node met has exactly one non-empty child.
    pub fn find_lone_leaf(&self, root: RpoDigest, root_index: NodeIndex, tree_depth: u8)
        -> (r: Result<Option<(NodeIndex, RpoDigest)>, MerkleError>)
        ensures
            tree_depth > 64 ==> r == Err::<Option<(NodeIndex, RpoDigest)>, MerkleError>(MerkleError::DepthTooBig(tree_depth as u64)),
            tree_depth <= 64 && !self.view_map().contains_key(dkey(root@)) ==> r == Err::<Option<(NodeIndex, RpoDigest)>, MerkleError>(
                MerkleError::RootNotInStore(root)),
            tree_depth <= 64 && self.view_map().contains_key(dkey(root@)) && root_index@.0 > tree_depth ==> r
                == Err::<Option<(NodeIndex, RpoDigest)>, MerkleError>(MerkleError::DepthTooBig(root_index@.0 as u64)),
            tree_depth <= 64 && self.view_map().contains_key(dkey(root@)) && root_index@.0 <= tree_depth ==> match lone_leaf_from(
                self.view_map(), root@, root_index@, root_index@.0, tree_depth as nat) {
                Ok(None) => r == Ok::<Option<(NodeIndex, RpoDigest)>, MerkleError>(None),
                Ok(Some((i, n))) => r matches Ok(Some((ri, rn))) && ri@ == i && rn@ == n,
                Err(_) => r == Err::<Option<(NodeIndex, RpoDigest)>, MerkleError>(MerkleError::DepthTooBig((tree_depth + 1) as u64)),
            },
    {
        if tree_depth > 64 {
            return Err(MerkleError::DepthTooBig(tree_depth as u64));
        }
        let empty = EmptySubtreeRoots::empty_hashes(64);
        let mut node = root;
        if !self.contains(node) {
            return Err(MerkleError::RootNotInStore(node));
        }
        let mut index = root_index;
        if index.depth() > tree_depth {
            return Err(MerkleError::DepthTooBig(index.depth() as u64));
        }
        let ghost m = self.view_map();
        let ghost start = lone_leaf_from(m, root@, root_index@, root_index@.0, tree_depth as nat);
        let mut depth: u8 = index.depth();
        while depth < tree_depth
            invariant
                root_index@.0 <= depth <= tree_depth <= 64,
                m == self.view_map(),
                m.contains_key(dkey(root@)),
                index@.0 == depth,
                empty@.len() == 65,
                forall|q: int| 0 <= q <= 64 ==> #[trigger] empty@[q]@ == empty_root_spec((64 - q) as nat),
                start == lone_leaf_from(m, root@, root_index@, root_index@.0, tree_depth as nat),
                start == lone_leaf_from(m, node@, index@, depth as nat, tree_depth as nat),
            decreases tree_depth - depth,
        {
            let children = match self.children(node) {
                Some(c) => c,
                None => return Ok(Some((index, node))),
            };
            let empty_node = empty[depth as usize + 1];
            proof {
                lemma_rpo_digest_view_eq(children.left, empty_node);
                lemma_rpo_digest_view_eq(children.right, empty_node);
            }
            if children.left != empty_node && children.right == empty_node {
                index = index.left_child();
                node = children.left;
            } else if children.left == empty_node && children.right != empty_node {
                index = index.right_child();
                node = children.right;
            } else {
                return Ok(None);
            }
            depth = depth + 1;
        }
        if self.contains(node) {
            Err(MerkleError::DepthTooBig(tree_depth as u64 + 1))
        } else {
            Ok(Some((index, node)))
        }
    }

    /// Copies the tree below `root` from `source`: each node of `source` met is
    /// recorded with its children; the walk stops at nodes already recorded.
    fn clone_tree_from(&mut self, root: RpoDigest, source: &Self)
        requires
            old(self).wf(),
            source.wf(),
        ensures
            final(self).wf(),
            old(self).nodes@.dom().subset_of(final(self).nodes@.dom()),
            forall|k: DigestKey| #[trigger] final(self).nodes@.contains_key(k) ==> (old(self).nodes@.contains_key(k)
                && final(self).nodes@[k] == old(self).nodes@[k]) || (source.nodes@.contains_key(k)
                && final(self).nodes@[k] == source.nodes@[k]),
            source.view_map().contains_key(dkey(root@)) ==> final(self).nodes@.contains_key(dkey(root@))
                && final(self).nodes@[dkey(root@)] == source.nodes@[dkey(root@)],
        decreases source.nodes@.dom().difference(old(self).nodes@.dom()).len(),
    {
        proof {
            lemma_store_view_dom(source.nodes@);
        }
        match source.nodes.get(&root.store_key()) {
            Some(node) => {
                let n = *node;
                let ghost before = self.nodes@;
                proof {
                    crate::felt::lemma_mont_bound(root@[0]);
                    crate::felt::lemma_mont_bound(root@[1]);
                    crate::felt::lemma_mont_bound(root@[2]);
                    crate::felt::lemma_mont_bound(root@[3]);
                }
                let prev = self.nodes.insert(root.store_key(), n);
                proof {
                    assert(keys_canonical(self.nodes@.dom()));
                }
                if prev.is_none() {
                    let ghost after_insert = self.nodes@;
                    proof {
                        let k = root.store_key_spec();
                        lemma_difference_shrinks(source.nodes@.dom(), before.dom(), k);
                    }
                    self.clone_tree_from(n.left, source);
                    let ghost after_left = self.nodes@;
                    proof {
                        let k = root.store_key_spec();
                        lemma_difference_shrinks(source.nodes@.dom(), before.dom(), k);
                        lemma_difference_mono(source.nodes@.dom(), after_insert.dom(), after_left.dom());
                    }
                    self.clone_tree_from(n.right, source);
                }
            },
            None => {},
        }
    }

    /// A store with the empty subtrees and the trees below `roots` copied from this store.
    pub fn subset(&self, roots: &[RpoDigest]) -> (r: Self)
        requires
            self.wf(),
        ensures
            r.wf(),
            forall|k: DigestKey| #[trigger] r.view_map().contains_key(k) ==> (empty_entries(255).contains_key(k)
                && r.view_map()[k] == empty_entries(255)[k]) || (self.view_map().contains_key(k)
                && r.view_map()[k] == self.view_map()[k]),
            forall|i: int| 0 <= i < roots@.len() && self.view_map().contains_key(dkey(#[trigger] roots@[i]@))
                ==> r.view_map().contains_key(dkey(roots@[i]@)),
    {
        let mut store = Self::new();
        let mut i: usize = 0;
        proof {
            lemma_store_view_dom(self.nodes@);
            lemma_store_view_dom(store.nodes@);
        }
        while i < roots.len()
            invariant
                0 <= i <= roots@.len(),
                store.wf(),
                self.wf(),
                store_view(self.nodes@).dom() == self.nodes@.dom(),
                forall|k: DigestKey| #[trigger] store.view_map().contains_key(k) ==> (empty_entries(255).contains_key(k)
                    && store.view_map()[k] == empty_entries(255)[k]) || (self.view_map().contains_key(k)
                    && store.view_map()[k] == self.view_map()[k]),
                forall|q: int| 0 <= q < i && self.view_map().contains_key(dkey(#[trigger] roots@[q]@))
                    ==> store.view_map().contains_key(dkey(roots@[q]@)),
            decreases roots@.len() - i,
        {
            let ghost before = store;
            store.clone_tree_from(roots[i], self);
            proof {
                lemma_store_view_dom(store.nodes@);
                lemma_store_view_dom(before.nodes@);
                assert forall|k: DigestKey| #[trigger] store.view_map().contains_key(k) implies (empty_entries(255).contains_key(k)
                    && store.view_map()[k] == empty_entries(255)[k]) || (self.view_map().contains_key(k)
                    && store.view_map()[k] == self.view_map()[k]) by {
                    if before.nodes@.contains_key(k) && store.nodes@[k] == before.nodes@[k] {
                        assert(before.view_map().contains_key(k));
                    }
                }
            }
            i = i + 1;
        }
        store
    }

    /// Collects, right subtree first, the nodes below `node` at `index` that are at
    /// `max_depth` or have no children in the store, skipping empty subtrees.
    fn collect_leaves(&self, index: NodeIndex, node: RpoDigest, max_depth: u8, empty: &Vec<RpoDigest>, out: &mut Vec<(NodeIndex, RpoDigest)>)
        requires
            index@.0 <= max_depth,
        ensures
            final(out)@.map_values(|p: (NodeIndex, RpoDigest)| leaf_view(p)) == old(out)@.map_values(|p: (NodeIndex, RpoDigest)| leaf_view(p))
                + leaves_below(self.view_map(), index@.0, index@.1, node@, max_depth as nat, digests_view(empty@)),
        decreases max_depth - index@.0,
    {
        let ghost e = digests_view(empty@);
        let ghost start = out@.map_values(|p: (NodeIndex, RpoDigest)| leaf_view(p));
        if index.depth() == max_depth {
            out.push((index, node));
            proof {
                assert(out@.map_values(|p: (NodeIndex, RpoDigest)| leaf_view(p)) =~= start.push(((index@.0, index@.1), node@)));
                assert(start.push(((index@.0, index@.1), node@)) =~= start + seq![((index@.0, index@.1), node@)]);
            }
            return;
        }
        match self.children(node) {
            Some(n) => {
                let ghost pieces = self.view_map()[dkey(node@)];
                let rc = contains_digest(empty, n.right);
                proof {
                    assert(rc == e.contains(n.right@)) by {
                        if rc {
                            let i = choose|i: int| 0 <= i < empty@.len() && empty@[i]@ == n.right@;
                            assert(e[i] == n.right@);
                        }
                        if e.contains(n.right@) {
                            let i = choose|i: int| 0 <= i < e.len() && e[i] == n.right@;
                            assert(empty@[i]@ == n.right@);
                        }
                    }
                }
                if !rc {
                    self.collect_leaves(index.right_child(), n.right, max_depth, empty, out);
                }
                let ghost mid = out@.map_values(|p: (NodeIndex, RpoDigest)| leaf_view(p));
                let lc = contains_digest(empty, n.left);
                proof {
                    assert(lc == e.contains(n.left@)) by {
                        if lc {
                            let i = choose|i: int| 0 <= i < empty@.len() && empty@[i]@ == n.left@;
                            assert(e[i] == n.left@);
                        }
                        if e.contains(n.left@) {
                            let i = choose|i: int| 0 <= i < e.len() && e[i] == n.left@;
                            assert(empty@[i]@ == n.left@);
                        }
                    }
                }
                if !lc {
                    self.collect_leaves(index.left_child(), n.left, max_depth, empty, out);
                }
                proof {
                    if rc {
                        assert(mid =~= start + Seq::<((nat, nat), Seq<nat>)>::empty());
                    }
                    if lc {
                        assert(out@.map_values(|p: (NodeIndex, RpoDigest)| leaf_view(p)) =~= mid + Seq::<((nat, nat), Seq<nat>)>::empty());
                    }
                    assert(out@.map_values(|p: (NodeIndex, RpoDigest)| leaf_view(p)) =~= start
                        + leaves_below(self.view_map(), index@.0, index@.1, node@, max_depth as nat, e));
                }
            },
            None => {
                out.push((index, node));
                proof {
                    assert(out@.map_values(|p: (NodeIndex, RpoDigest)| leaf_view(p)) =~= start + seq![((index@.0, index@.1), node@)]);
                }
            },
        }
    }

    /// The nodes below `root` at depth `max_depth`, or above it where the store
    /// has no children, skipping empty subtrees; the rightmost first.
    pub fn non_empty_leaves(&self, root: RpoDigest, max_depth: u8) -> (r: Vec<(NodeIndex, RpoDigest)>)
        ensures
            r@.map_values(|p: (NodeIndex, RpoDigest)| leaf_view(p)) == leaves_below(self.view_map(), 0, 0, root@,
                max_depth as nat, Seq::new(max_depth as nat + 1, |i: int| empty_root_spec((max_depth - i) as nat))),
    {
        let empty = EmptySubtreeRoots::empty_hashes(max_depth);
        let mut out: Vec<(NodeIndex, RpoDigest)> = Vec::new();
        let idx = NodeIndex::root();
        self.collect_leaves(idx, root, max_depth, &empty, &mut out);
        proof {
            assert(digests_view(empty@) =~= Seq::new(max_depth as nat + 1, |i: int| empty_root_spec((max_depth - i) as nat)));
            assert(out@.map_values(|p: (NodeIndex, RpoDigest)| leaf_view(p)) =~= leaves_below(self.view_map(), 0, 0, root@,
                max_depth as nat, digests_view(empty@)));
        }
        out
    }

    /// Appends the number of nodes as 8 little-endian bytes, then each node's
    /// digest and children, in key order.
    pub fn write_into(&self, target: &mut Vec<u8>)
        requires
            self.wf(),
        ensures
            final(target)@.len() == old(target)@.len() + 8 + 96 * self.view_map().len(),
            final(target)@.subrange(0, old(target)@.len() as int) == old(target)@,
    {
        let infos = self.inner_nodes();
        let ghost start = target@;
        crate::utils::bytes::write_u64(target, infos.len() as u64);
        proof {
            crate::utils::bytes::lemma_le_bytes_len(infos@.len() as nat, 8);
        }
        let mut i: usize = 0;
        while i < infos.len()
            invariant
                0 <= i <= infos@.len(),
                target@.len() == start.len() + 8 + 96 * i,
                target@.subrange(0, start.len() as int) == start,
            decreases infos@.len() - i,
        {
            let ghost before = target@;
            infos[i].value.write_into(target);
            infos[i].left.write_into(target);
            infos[i].right.write_into(target);
            proof {
                lemma_digest_bytes_len(infos@[i as int].value@);
                lemma_digest_bytes_len(infos@[i as int].left@);
                lemma_digest_bytes_len(infos@[i as int].right@);
                assert(target@.subrange(0, start.len() as int) =~= before.subrange(0, start.len() as int));
            }
            i = i + 1;
        }
    }

    /// Reads a node count, then each node's digest and children.
    pub fn read_from(source: &mut SliceReader) -> (r: Result<Self, DeserializationError>)
        requires
            old(source).wf(),
        ensures
            final(source).wf(),
            final(source).data() == old(source).data(),
            r matches Ok(s) ==> s.wf(),
            match read_store_spec(old(source).data(), old(source).position() as int) {
                Ok(t) => r matches Ok(s) && s.view_map() == triple_entries(empty_entries(255), t),
                Err(ReadFailure::Eof) => r == Err::<Self, DeserializationError>(DeserializationError::UnexpectedEOF),
                Err(ReadFailure::OutOfRange) => r matches Err(DeserializationError::InvalidValue(_)),
            },
    {
        let ghost data = source.data();
        let ghost pos = source.position() as int;
        let count = match source.read_u64() {
            Ok(c) => c,
            Err(e) => return Err(e),
        };
        let ghost total = 3 * count as nat;
        let mut nodes: Vec<(RpoDigest, StoreNode)> = Vec::new();
        let ghost mut flat: Seq<Seq<nat>> = Seq::empty();
        let mut i: u64 = 0;
        while i < count
            invariant
                source.wf(),
                source.data() == data,
                data == old(source).data(),
                pos == old(source).position(),
                pos + 8 <= data.len(),
                count as nat == le_value(data.subrange(pos, pos + 8)),
                total == 3 * count as nat,
                i <= count,
                source.position() == pos + 8 + 32 * (3 * i),
                flat.len() == 3 * i,
                nodes@.len() == i,
                read_digests_spec(data, pos + 8, 3 * i as nat) == Ok::<Seq<Seq<nat>>, ReadFailure>(flat),
                forall|q: int| 0 <= q < i ==> (#[trigger] nodes@[q]).0@ == flat[3 * q]
                    && nodes@[q].1.left@ == flat[3 * q + 1] && nodes@[q].1.right@ == flat[3 * q + 2],
            decreases count - i,
        {
            let key = match RpoDigest::read_from(source) {
                Ok(x) => x,
                Err(e) => {
                    proof { crate::merkle::path::lemma_read_digests_err_stays(data, pos + 8, (3 * i + 1) as nat, total); }
                    return Err(e);
                },
            };
            proof { flat = flat.push(key@); }
            let left = match RpoDigest::read_from(source) {
                Ok(x) => x,
                Err(e) => {
                    proof { crate::merkle::path::lemma_read_digests_err_stays(data, pos + 8, (3 * i + 2) as nat, total); }
                    return Err(e);
                },
            };
            proof { flat = flat.push(left@); }
            let right = match RpoDigest::read_from(source) {
                Ok(x) => x,
                Err(e) => {
                    proof { crate::merkle::path::lemma_read_digests_err_stays(data, pos + 8, (3 * i + 3) as nat, total); }
                    return Err(e);
                },
            };
            proof { flat = flat.push(right@); }
            nodes.push((key, StoreNode { left, right }));
            i = i + 1;
        }
        let ghost t = group_triples(flat);
        let mut store = Self::new();
        let mut j: usize = 0;
        assert(t.subrange(0, 0) =~= Seq::<(Seq<nat>, Seq<nat>, Seq<nat>)>::empty());
        while j < nodes.len()
            invariant
                0 <= j <= nodes@.len(),
                nodes@.len() == count,
                t.len() == count,
                t == group_triples(flat),
                flat.len() == 3 * count,
                forall|q: int| 0 <= q < count ==> (#[trigger] nodes@[q]).0@ == flat[3 * q]
                    && nodes@[q].1.left@ == flat[3 * q + 1] && nodes@[q].1.right@ == flat[3 * q + 2],
                store.wf(),
                store.view_map() == triple_entries(empty_entries(255), t.subrange(0, j as int)),
            decreases nodes@.len() - j,
        {
            let (k, n) = nodes[j];
            store.insert_info(k, n.left, n.right);
            proof {
                assert(t.subrange(0, j + 1).drop_last() =~= t.subrange(0, j as int));
                assert(t[j as int] == (flat[3 * j], flat[3 * j + 1], flat[3 * j + 2]));
            }
            j = j + 1;
        }
        assert(t.subrange(0, t.len() as int) =~= t);
        Ok(store)
    }

    /// The node map.
    pub fn into_inner(self) -> (r: BTreeMap<DigestKey, StoreNode>)
        ensures
            store_view(r@) == self.view_map(),
    {
        self.nodes
    }
}

/// Bit `i` of `v`.
fn shr_bit(v: u64, i: u8) -> (r: u64)
    requires
        i < 64,
    ensures
        r == (v as nat / pow2(i as nat)) % 2,
{
    proof {
        vstd::bits::lemma_u64_shr_is_div(v, i as u64);
    }
    (v >> (i as u64)) % 2
}

/// The depth at which a walk from `hash` at depth `j` towards position `value`
/// at depth `d` meets an empty subtree or a node without children; `None` when
/// the walk goes past depth `d`.
pub open spec fn leaf_depth_from(m: Map<DigestKey, (Seq<nat>, Seq<nat>)>, hash: Seq<nat>, d: nat, value: nat, j: nat) -> Option<nat>
    decreases d + 1 - j,
{
    if j > d {
        None
    } else if hash == empty_root_spec((d - j) as nat) {
        Some(j)
    } else if !m.contains_key(dkey(hash)) {
        Some(j)
    } else {
        let bit = if j < d { (value / pow2((d - 1 - j) as nat)) % 2 } else { 0 };
        let next = if bit == 0 { m[dkey(hash)].0 } else { m[dkey(hash)].1 };
        leaf_depth_from(m, next, d, value, j + 1)
    }
}

/// Whether `d` is one of `v`.
fn contains_digest(v: &Vec<RpoDigest>, d: RpoDigest) -> (r: bool)
    ensures
        r == (exists|i: int| 0 <= i < v@.len() && v@[i]@ == d@),
{
    let mut i: usize = 0;
    while i < v.len()
        invariant
            0 <= i <= v@.len(),
            forall|j: int| 0 <= j < i ==> v@[j]@ != d@,
        decreases v@.len() - i,
    {
        proof {
            lemma_rpo_digest_view_eq(v[i as int], d);
        }
        if v[i] == d {
            return true;
        }
        i = i + 1;
    }
    false
}

/// A serialized digest has 32 bytes.
pub(crate) proof fn lemma_digest_bytes_len(v: Seq<nat>)
    ensures
        digest_bytes_spec(v).len() == 32,
{
    crate::utils::bytes::lemma_le_bytes_len(v[0], 8);
    crate::utils::bytes::lemma_le_bytes_len(v[1], 8);
    crate::utils::bytes::lemma_le_bytes_len(v[2], 8);
    crate::utils::bytes::lemma_le_bytes_len(v[3], 8);
}

impl Default for MerkleStore {
    fn default() -> (r: Self)
        ensures
            r.wf(),
            r.view_map() == empty_entries(255),
    {
        Self::new()
    }
}

/// Adding a key of `s` missing from `a` to `a` shrinks what `s` has beyond `a`.
proof fn lemma_difference_shrinks(s: Set<DigestKey>, a: Set<DigestKey>, k: DigestKey)
    requires
        s.finite(),
        s.contains(k),
        !a.contains(k),
    ensures
        s.difference(a.insert(k)).len() < s.difference(a).len(),
{
    assert(s.difference(a.insert(k)) =~= s.difference(a).remove(k));
    assert(s.difference(a).finite());
    assert(s.difference(a).contains(k));
}

/// A larger set leaves less of `s` beyond it.
proof fn lemma_difference_mono(s: Set<DigestKey>, a: Set<DigestKey>, b: Set<DigestKey>)
    requires
        s.finite(),
        a.subset_of(b),
    ensures
        s.difference(b).len() <= s.difference(a).len(),
{
    assert(s.difference(b).subset_of(s.difference(a)));
    vstd::set_lib::lemma_len_subset(s.difference(b), s.difference(a));
}

/// The lone leaf found walking down from `node` at `index`, at depth `depth`,
/// towards depth `tree_depth`; `Ok(None)` when a node has no single non-empty
/// child, `Err` when the walk reaches `tree_depth` at a node with children.
pub open spec fn lone_leaf_from(
    m: Map<DigestKey, (Seq<nat>, Seq<nat>)>,
    node: Seq<nat>,
    index: (nat, nat),
    depth: nat,
    tree_depth: nat,
) -> Result<Option<((nat, nat), Seq<nat>)>, ()>
    decreases tree_depth - depth,
{
    if depth >= tree_depth {
        if m.contains_key(dkey(node)) { Err(()) } else { Ok(Some((index, node))) }
    } else if !m.contains_key(dkey(node)) {
        Ok(Some((index, node)))
    } else {
        let l = m[dkey(node)].0;
        let r = m[dkey(node)].1;
        let e = empty_root_spec((64 - depth - 1) as nat);
        if l != e && r == e {
            lone_leaf_from(m, l, (index.0 + 1, (2 * index.1) % 0x1_0000_0000_0000_0000), depth + 1, tree_depth)
        } else if l == e && r != e {
            lone_leaf_from(m, r, (index.0 + 1, (2 * index.1) % 0x1_0000_0000_0000_0000 + 1), depth + 1, tree_depth)
        } else {
            Ok(None)
        }
    }
}

/// The parents met walking up a path have pairwise different keys.
pub open spec fn path_keys_distinct(siblings: Seq<Seq<nat>>, value: nat, node: Seq<nat>) -> bool {
    forall|a: nat, b: nat| 1 <= a < b <= siblings.len() ==> dkey(#[trigger] path_node_at(siblings, value, node, a))
        != dkey(#[trigger] path_node_at(siblings, value, node, b))
}

/// The entry recorded for level `k` of a path is still there after level `n`.
proof fn lemma_path_entry(m: Map<DigestKey, (Seq<nat>, Seq<nat>)>, siblings: Seq<Seq<nat>>, value: nat, node: Seq<nat>, k: nat, n: nat)
    requires
        1 <= k <= n <= siblings.len(),
        path_keys_distinct(siblings, value, node),
    ensures
        path_entries(m, siblings, value, node, n).contains_key(dkey(path_node_at(siblings, value, node, k))),
        path_entries(m, siblings, value, node, n)[dkey(path_node_at(siblings, value, node, k))]
            == path_children_at(siblings, value, node, (k - 1) as nat),
    decreases n,
{
    if k < n {
        lemma_path_entry(m, siblings, value, node, k, (n - 1) as nat);
        assert(dkey(path_node_at(siblings, value, node, k)) != dkey(path_node_at(siblings, value, node, n)));
    }
}

/// Walking down from the root recorded for a path meets the nodes of the path.
proof fn lemma_walk_recorded_path(m: Map<DigestKey, (Seq<nat>, Seq<nat>)>, siblings: Seq<Seq<nat>>, value: nat, node: Seq<nat>, t: nat)
    requires
        t <= siblings.len(),
        path_keys_distinct(siblings, value, node),
    ensures
        store_walk(path_entries(m, siblings, value, node, siblings.len()),
            path_node_at(siblings, value, node, siblings.len()), siblings.len(), value, t)
            == Ok::<Seq<nat>, Seq<nat>>(path_node_at(siblings, value, node, (siblings.len() - t) as nat)),
    decreases t,
{
    let d = siblings.len();
    if t > 0 {
        let t1 = (t - 1) as nat;
        lemma_walk_recorded_path(m, siblings, value, node, t1);
        let k = (d - t1) as nat;
        lemma_path_entry(m, siblings, value, node, k, d);
        assert((d - t) as nat == (k - 1) as nat);
    }
}

/// Walking down from the root recorded for a path meets its siblings, the
/// highest first.
proof fn lemma_siblings_recorded_path(m: Map<DigestKey, (Seq<nat>, Seq<nat>)>, siblings: Seq<Seq<nat>>, value: nat, node: Seq<nat>, t: nat)
    requires
        t <= siblings.len(),
        path_keys_distinct(siblings, value, node),
    ensures
        store_siblings(path_entries(m, siblings, value, node, siblings.len()),
            path_node_at(siblings, value, node, siblings.len()), siblings.len(), value, t)
            == siblings.subrange(siblings.len() - t, siblings.len() as int).reverse(),
    decreases t,
{
    let d = siblings.len();
    if t > 0 {
        let t1 = (t - 1) as nat;
        lemma_siblings_recorded_path(m, siblings, value, node, t1);
        lemma_walk_recorded_path(m, siblings, value, node, t1);
        let k = (d - t1) as nat;
        lemma_path_entry(m, siblings, value, node, k, d);
        assert((d - t) as nat == (k - 1) as nat);
        assert(siblings.subrange(d - t, d as int).reverse() =~= siblings.subrange(d - t1, d as int).reverse().push(siblings[d - t]));
    } else {
        assert(siblings.subrange(d as int, d as int).reverse() =~= Seq::<Seq<nat>>::empty());
    }
}

/// The law of the store: after the parents of a path from `node` are recorded,
/// reading the position of `node` below the recorded root gives `node` back,
/// and the path read there is the path recorded, provided the recorded parents
/// have distinct keys.
pub proof fn lemma_set_then_get(m: Map<DigestKey, (Seq<nat>, Seq<nat>)>, siblings: Seq<Seq<nat>>, value: nat, node: Seq<nat>)
    requires
        path_keys_distinct(siblings, value, node),
    ensures
        store_walk(path_entries(m, siblings, value, node, siblings.len()),
            path_node_at(siblings, value, node, siblings.len()), siblings.len(), value, siblings.len())
            == Ok::<Seq<nat>, Seq<nat>>(node),
        store_siblings(path_entries(m, siblings, value, node, siblings.len()),
            path_node_at(siblings, value, node, siblings.len()), siblings.len(), value, siblings.len()).reverse()
            == siblings,
{
    lemma_walk_recorded_path(m, siblings, value, node, siblings.len());
    lemma_siblings_recorded_path(m, siblings, value, node, siblings.len());
    assert(siblings.subrange(0, siblings.len() as int).reverse().reverse() =~= siblings);
}

/// Whether the children `m2` holds agree with those of `m1` wherever `m1` has some.
pub open spec fn store_extends(m1: Map<DigestKey, (Seq<nat>, Seq<nat>)>, m2: Map<DigestKey, (Seq<nat>, Seq<nat>)>) -> bool {
    forall|k: DigestKey| #[trigger] m1.contains_key(k) ==> m2.contains_key(k) && m2[k] == m1[k]
}

/// Whether recording the parents of a path gives no recorded node other children.
pub open spec fn path_agrees(m: Map<DigestKey, (Seq<nat>, Seq<nat>)>, siblings: Seq<Seq<nat>>, value: nat, node: Seq<nat>) -> bool {
    forall|a: nat| 1 <= a <= siblings.len() && #[trigger] m.contains_key(dkey(path_node_at(siblings, value, node, a)))
        ==> m[dkey(path_node_at(siblings, value, node, a))] == path_children_at(siblings, value, node, (a - 1) as nat)
}

/// Recording the parents of a path keeps every entry that agrees with it.
proof fn lemma_path_entries_extend(m: Map<DigestKey, (Seq<nat>, Seq<nat>)>, siblings: Seq<Seq<nat>>, value: nat, node: Seq<nat>, n: nat)
    requires
        n <= siblings.len(),
        path_agrees(m, siblings, value, node),
    ensures
        store_extends(m, path_entries(m, siblings, value, node, n)),
    decreases n,
{
    if n > 0 {
        lemma_path_entries_extend(m, siblings, value, node, (n - 1) as nat);
    }
}

/// A walk that succeeds in a store succeeds alike in any store that extends it.
proof fn lemma_walk_extends(m1: Map<DigestKey, (Seq<nat>, Seq<nat>)>, m2: Map<DigestKey, (Seq<nat>, Seq<nat>)>,
    hash: Seq<nat>, depth: nat, value: nat, t: nat)
    requires
        store_extends(m1, m2),
        store_walk(m1, hash, depth, value, t) is Ok,
    ensures
        store_walk(m2, hash, depth, value, t) == store_walk(m1, hash, depth, value, t),
        store_siblings(m2, hash, depth, value, t) == store_siblings(m1, hash, depth, value, t),
    decreases t,
{
    if t > 0 {
        lemma_walk_extends(m1, m2, hash, depth, value, (t - 1) as nat);
        let h = store_walk(m1, hash, depth, value, (t - 1) as nat)->Ok_0;
        assert(m1.contains_key(dkey(h)));
    }
}

/// The law of a store's earlier lookups: after the parents of a path are
/// recorded, every lookup that succeeded before gives the same node and the
/// same path, provided no recorded parent already had other children.
pub proof fn lemma_set_keeps_lookups(m: Map<DigestKey, (Seq<nat>, Seq<nat>)>, siblings: Seq<Seq<nat>>, value: nat, node: Seq<nat>,
    root: Seq<nat>, depth: nat, pos: nat)
    requires
        path_agrees(m, siblings, value, node),
        store_walk(m, root, depth, pos, depth) is Ok,
    ensures
        store_walk(path_entries(m, siblings, value, node, siblings.len()), root, depth, pos, depth)
            == store_walk(m, root, depth, pos, depth),
        store_siblings(path_entries(m, siblings, value, node, siblings.len()), root, depth, pos, depth)
            == store_siblings(m, root, depth, pos, depth),
{
    lemma_path_entries_extend(m, siblings, value, node, siblings.len());
    lemma_walk_extends(m, path_entries(m, siblings, value, node, siblings.len()), root, depth, pos, depth);
}

/// A walk that has not stopped met one sibling per step.
proof fn lemma_siblings_len(m: Map<DigestKey, (Seq<nat>, Seq<nat>)>, hash: Seq<nat>, depth: nat, value: nat, t: nat)
    requires
        store_walk(m, hash, depth, value, t) is Ok,
    ensures
        store_siblings(m, hash, depth, value, t).len() == t,
    decreases t,
{
    if t > 0 {
        let p = (t - 1) as nat;
        if store_walk(m, hash, depth, value, p) is Err {
            lemma_walk_err_stays(m, hash, depth, value, p, t);
        }
        lemma_siblings_len(m, hash, depth, value, p);
    }
}

/// Once a walk stops it stays stopped.
proof fn lemma_walk_err_stays(m: Map<DigestKey, (Seq<nat>, Seq<nat>)>, hash: Seq<nat>, depth: nat, value: nat, t: nat, u: nat)
    requires
        t <= u,
        store_walk(m, hash, depth, value, t) is Err,
    ensures
        store_walk(m, hash, depth, value, u) == store_walk(m, hash, depth, value, t),
    decreases u - t,
{
    if t < u {
        lemma_walk_err_stays(m, hash, depth, value, t, (u - 1) as nat);
    }
}

/// Whether every component of every key is a canonical field value.
pub open spec fn keys_canonical(keys: Set<DigestKey>) -> bool {
    forall|k: DigestKey| #[trigger] keys.contains(k) ==> k.0.0 < MODULUS && k.0.1 < MODULUS && k.1.0 < MODULUS && k.1.1 < MODULUS
}

/// The keys of the store, each once.
fn store_keys(m: &BTreeMap<DigestKey, StoreNode>) -> (r: Vec<DigestKey>)
    ensures
        r@.to_set() == m@.dom(),
        r@.no_duplicates(),
        r@.len() == m@.dom().len(),
{
    let mut r: Vec<DigestKey> = Vec::new();
    for k in it: m.keys()
        invariant
            r@ == it.seq().unref().take(it.index() as int),
            it.seq().unref().to_set() == m@.dom(),
            it.seq().unref().no_duplicates(),
            it.seq().len() == m@.dom().len(),
            r@.len() == it.index(),
            r@.no_duplicates(),
            forall|x: DigestKey| r@.contains(x) ==> m@.dom().contains(x),
    {
        proof {
            let s = it.seq().unref();
            assert(s[it.index() as int] == *k);
            assert(s.to_set().contains(s[it.index() as int]));
            assert forall|j: int| 0 <= j < r@.len() implies r@[j] != *k by {
                assert(r@[j] == s[j]);
            }
        }
        r.push(*k);
        assert(r@ =~= it.seq().unref().take(it.index() + 1));
    }
    proof {
        r@.unique_seq_to_set();
        assert(r@.to_set().subset_of(m@.dom()));
        vstd::set_lib::lemma_subset_equality(r@.to_set(), m@.dom());
    }
    r
}

/// A walk of `t` steps towards a position at depth `d + 1` goes where the walk
/// towards its parent position at depth `d` goes.
proof fn lemma_walk_parent(m: Map<DigestKey, (Seq<nat>, Seq<nat>)>, h: Seq<nat>, d: nat, w: nat, t: nat)
    requires
        t <= d,
    ensures
        store_walk(m, h, d + 1, w, t) == store_walk(m, h, d, w / 2, t),
    decreases t,
{
    if t > 0 {
        lemma_walk_parent(m, h, d, w, (t - 1) as nat);
        let k = (d - t) as nat;
        vstd::arithmetic::power2::lemma_pow2_unfold(k + 1);
        vstd::arithmetic::power2::lemma_pow2_pos(k);
        vstd::arithmetic::div_mod::lemma_div_denominator(w as int, 2, pow2(k) as int);
        assert((d + 1 - t) as nat == k + 1);
        assert(walk_bit(w, d + 1, t) == walk_bit(w / 2, d, t));
    }
}

/// Walking down towards the lone leaf from a node that the store reaches from
/// `root` (at index `(d0, v0)`) along the relative position `rel` of the index
/// being followed, the index found lies below `(d0, v0)` and the store reaches
/// the leaf found along its relative position.
proof fn lemma_lone_walk(m: Map<DigestKey, (Seq<nat>, Seq<nat>)>, root: Seq<nat>, node: Seq<nat>, index: (nat, nat),
    depth: nat, td: nat, d0: nat, v0: nat, rel: nat)
    requires
        index.0 == depth,
        d0 <= depth <= td <= 64,
        index.1 < pow2(depth),
        rel < pow2((depth - d0) as nat),
        index.1 == v0 * pow2((depth - d0) as nat) + rel,
        store_walk(m, root, (depth - d0) as nat, rel, (depth - d0) as nat) == Ok::<Seq<nat>, Seq<nat>>(node),
    ensures
        lone_leaf_from(m, node, index, depth, td) matches Ok(Some((i, n))) ==> d0 <= i.0 <= td
            && i.1 / pow2((i.0 - d0) as nat) == v0
            && store_walk(m, root, (i.0 - d0) as nat, i.1 % pow2((i.0 - d0) as nat), (i.0 - d0) as nat)
            == Ok::<Seq<nat>, Seq<nat>>(n),
    decreases td - depth,
{
    let k = (depth - d0) as nat;
    vstd::arithmetic::power2::lemma_pow2_pos(k);
    vstd::arithmetic::div_mod::lemma_fundamental_div_mod_converse(index.1 as int, pow2(k) as int, v0 as int, rel as int);
    if depth < td && m.contains_key(dkey(node)) {
        let v = index.1;
        vstd::arithmetic::power2::lemma_pow2_unfold(depth + 1);
        vstd::arithmetic::power2::lemma_pow2_unfold(k + 1);
        vstd::arithmetic::power2::lemma2_to64();
        vstd::arithmetic::power2::lemma2_to64_rest();
        crate::merkle::mmr::layout::lemma_pow2_divides(depth + 1, 64);
        assert(2 * v + 1 < 0x1_0000_0000_0000_0000);
        vstd::arithmetic::div_mod::lemma_small_mod(2 * v, 0x1_0000_0000_0000_0000);
        lemma_walk_parent(m, root, k, 2 * rel, k);
        lemma_walk_parent(m, root, k, 2 * rel + 1, k);
        assert((2 * rel) / 2 == rel);
        assert((2 * rel + 1) / 2 == rel);
        assert(pow2(0) == 1);
        assert(((k + 1) - (k + 1)) as nat == 0);
        assert((2 * rel) / 1 == 2 * rel);
        assert((2 * rel + 1) / 1 == 2 * rel + 1);
        assert(walk_bit(2 * rel, k + 1, k + 1) == 0);
        assert(walk_bit(2 * rel + 1, k + 1, k + 1) == 1);
        assert(2 * v == v0 * pow2(k + 1) + 2 * rel) by (nonlinear_arith)
            requires
                v == v0 * pow2(k) + rel,
                pow2(k + 1) == 2 * pow2(k),
        ;
        assert((depth + 1 - d0) as nat == k + 1);
        let l = m[dkey(node)].0;
        let r = m[dkey(node)].1;
        lemma_lone_walk(m, root, l, (depth + 1, 2 * v), depth + 1, td, d0, v0, 2 * rel);
        lemma_lone_walk(m, root, r, (depth + 1, 2 * v + 1), depth + 1, td, d0, v0, 2 * rel + 1);
    }
}

/// The law of the lone leaf: the leaf found walking down from `root` at index
/// `(d0, v0)` (`find_lone_leaf`) lies where the index found says: that index
/// is below `(d0, v0)`, and walking the store from `root` along the rest of
/// the index (as `get_node` does from a tree's root) reaches the leaf.
pub proof fn lemma_lone_leaf_reached(m: Map<DigestKey, (Seq<nat>, Seq<nat>)>, root: Seq<nat>, d0: nat, v0: nat, td: nat)
    requires
        d0 <= td <= 64,
        v0 < pow2(d0),
    ensures
        lone_leaf_from(m, root, (d0, v0), d0, td) matches Ok(Some((i, n))) ==> d0 <= i.0 <= td
            && i.1 / pow2((i.0 - d0) as nat) == v0
            && store_walk(m, root, (i.0 - d0) as nat, i.1 % pow2((i.0 - d0) as nat), (i.0 - d0) as nat)
            == Ok::<Seq<nat>, Seq<nat>>(n),
{
    vstd::arithmetic::power2::lemma2_to64();
    assert(v0 * pow2(0) + 0 == v0);
    lemma_lone_walk(m, root, root, (d0, v0), d0, td, d0, v0, 0);
}

} // verus!
