//! A complete Merkle tree over a power-of-two number of leaves, stored in
//! breadth-first order: node `i` has children `2i` and `2i + 1`, the root is
//! node 1 and the leaves are the second half.

use vstd::prelude::*;
use vstd::arithmetic::power2::pow2;
use crate::felt::Felt;
use crate::merkle::{MerkleError, InnerNodeInfo, merge_digest, digests_view};
use crate::merkle::index::{NodeIndex, index_valid};
use crate::merkle::path::{MerklePath, parent_digest, path_node_at, path_root, lemma_div_pow2_step};
use crate::rescue::digest::{RpoDigest, word_seq};
use crate::rescue::rpo::Rpo256;

verus! {

/// Every inner node of `v` is the digest of its two children.
pub open spec fn tree_hashes_ok(v: Seq<Seq<nat>>, n: nat) -> bool {
    forall|i: int| 1 <= i < n ==> #[trigger] v[i] == merge_digest(v[2 * i], v[2 * i + 1])
}

/// The position of the other child of the same parent.
pub open spec fn sibling_value(x: nat) -> nat {
    if x % 2 == 0 { x + 1 } else { (x - 1) as nat }
}

/// The siblings on the way up from the node at `depth`, `value` of a tree of
/// nodes `v`, lowest first.
pub open spec fn tree_path_spec(v: Seq<Seq<nat>>, depth: nat, value: nat) -> Seq<Seq<nat>> {
    Seq::new(depth, |k: int| v[(pow2((depth - k) as nat) + sibling_value(value / pow2(k as nat))) as int])
}

/// `2^a * 2 == 2^(a + 1)`.
proof fn lemma_pow2_double(a: nat)
    ensures
        pow2(a) * 2 == pow2(a + 1),
        pow2(a) > 0,
{
    vstd::arithmetic::power2::lemma_pow2_unfold(a + 1);
    vstd::arithmetic::power2::lemma_pow2_pos(a);
}

/// Walking up a tree from a node through its siblings meets the node's ancestors.
pub proof fn lemma_tree_path_node(v: Seq<Seq<nat>>, n: nat, depth: nat, value: nat, k: nat)
    requires
        pow2(depth) <= n,
        v.len() == 2 * n,
        tree_hashes_ok(v, n),
        value < pow2(depth),
        k <= depth,
    ensures
        path_node_at(tree_path_spec(v, depth, value), value, v[(pow2(depth) + value) as int], k)
            == v[(pow2((depth - k) as nat) + value / pow2(k)) as int],
        value / pow2(k) < pow2((depth - k) as nat),
    decreases k,
{
    let path = tree_path_spec(v, depth, value);
    if k == 0 {
        vstd::arithmetic::power2::lemma2_to64();
        vstd::arithmetic::div_mod::lemma_div_basics(value as int);
        assert(value / pow2(0) == value);
    } else {
        let k1 = (k - 1) as nat;
        lemma_tree_path_node(v, n, depth, value, k1);
        let q = value / pow2(k1);
        let h = (depth - k) as nat;
        lemma_div_pow2_step(value, k1);
        lemma_pow2_double(h);
        assert((depth - k1) as nat == h + 1);
        let i = pow2(h) + q / 2;
        assert(q / 2 < pow2(h)) by {
            assert(q < pow2(h + 1));
        }
        assert(2 * i == pow2(h + 1) + 2 * (q / 2));
        assert(h + 1 <= depth);
        assert(pow2(h + 1) <= pow2(depth)) by {
            if h + 1 < depth {
                vstd::arithmetic::power2::lemma_pow2_strictly_increases(h + 1, depth);
            }
        }
        assert(1 <= i < n);
        assert(path[k1 as int] == v[(pow2(h + 1) + sibling_value(q)) as int]);
        if q % 2 == 1 {
            assert(2 * (q / 2) == q - 1);
        } else {
            assert(2 * (q / 2) == q);
        }
        assert(v[i as int] == merge_digest(v[2 * i as int], v[2 * i as int + 1]));
    }
}

/// The law of authentication paths: the path of a node leads from the node to the root.
pub proof fn lemma_tree_path_root(v: Seq<Seq<nat>>, n: nat, depth: nat, value: nat)
    requires
        pow2(depth) <= n,
        v.len() == 2 * n,
        tree_hashes_ok(v, n),
        value < pow2(depth),
    ensures
        path_root(tree_path_spec(v, depth, value), value, v[(pow2(depth) + value) as int]) == v[1],
{
    lemma_tree_path_node(v, n, depth, value, depth);
    vstd::arithmetic::power2::lemma2_to64();
    assert(value / pow2(depth) == 0) by {
        vstd::arithmetic::div_mod::lemma_basic_div(value as int, pow2(depth) as int);
    }
}

/// A Merkle tree with all its nodes.
#[derive(Debug, PartialEq, Eq)]
pub struct MerkleTree {
    nodes: Vec<RpoDigest>,
    depth: u8,
}

impl View for MerkleTree {
    type V = Seq<Seq<nat>>;

    /// All nodes in breadth-first order, the unused node 0 first.
    closed spec fn view(&self) -> Seq<Seq<nat>> {
        digests_view(self.nodes@)
    }
}

impl MerkleTree {
    /// Depth of the tree: the leaves are at this depth.
    pub closed spec fn depth_spec(&self) -> nat {
        self.depth as nat
    }

    /// Number of leaves.
    pub open spec fn num_leaves_spec(&self) -> nat {
        pow2(self.depth_spec())
    }

    /// The leaves.
    pub open spec fn leaves_spec(&self) -> Seq<Seq<nat>> {
        self@.subrange(self.num_leaves_spec() as int, 2 * (self.num_leaves_spec() as int))
    }

    #[verifier::type_invariant]
    closed spec fn inv(self) -> bool {
        &&& 1 <= self.depth < 63
        &&& self.nodes@.len() == 2 * pow2(self.depth as nat)
        &&& tree_hashes_ok(digests_view(self.nodes@), pow2(self.depth as nat))
        &&& self.nodes@[0]@ == seq![0nat, 0nat, 0nat, 0nat]
    }

    /// The tree's structure: node count, hashes and the unused first node.
    pub fn check_structure(&self)
        ensures
            1 <= self.depth_spec() < 63,
            self@.len() == 2 * self.num_leaves_spec(),
            tree_hashes_ok(self@, self.num_leaves_spec()),
            self@[0] == seq![0nat, 0nat, 0nat, 0nat],
    {
        proof {
            use_type_invariant(self);
            vstd::arithmetic::power2::lemma_pow2_pos(self.depth as nat);
        }
    }

    /// Builds the tree over `leaves`; their number must be a power of two, at least two.
    pub fn new(leaves: &[[Felt; 4]]) -> (r: Result<Self, MerkleError>)
        requires
            leaves@.len() < 0x4000_0000_0000_0000,
        ensures
            leaves@.len() <= 1 ==> r == Err::<Self, MerkleError>(MerkleError::DepthTooSmall(leaves@.len() as u8)),
            leaves@.len() > 1 && !(exists|d: nat| pow2(d) == leaves@.len()) ==> r == Err::<Self, MerkleError>(
                MerkleError::NumLeavesNotPowerOfTwo(leaves@.len() as usize)),
            r matches Ok(t) ==> {
                &&& t.num_leaves_spec() == leaves@.len()
                &&& t.leaves_spec() == Seq::new(leaves@.len(), |i: int| word_seq(leaves@[i]))
                &&& t@[0] == seq![0nat, 0nat, 0nat, 0nat]
                &&& tree_hashes_ok(t@, t.num_leaves_spec())
            },
            leaves@.len() > 1 && (exists|d: nat| pow2(d) == leaves@.len()) ==> r is Ok,
    {
        let n = leaves.len();
        if n <= 1 {
            return Err(MerkleError::DepthTooSmall(n as u8));
        }
        let n64 = n as u64;
        let mut p: u64 = 1;
        let mut d: u8 = 0;
        proof {
            vstd::arithmetic::power2::lemma2_to64();
        }
        while p < n64
            invariant
                1 <= p,
                p == pow2(d as nat),
                d <= 62,
                n64 == n,
                n < 0x4000_0000_0000_0000,
                p < 2 * n,
                forall|e: nat| e < d ==> pow2(e) < n,
            decreases 2 * n - p,
        {
            proof {
                lemma_pow2_double(d as nat);
                assert forall|e: nat| e < d + 1 implies pow2(e) < n by {
                    if e < d {
                    } else {
                        assert(e == d);
                    }
                }
                if d >= 62 {
                    vstd::arithmetic::power2::lemma2_to64_rest();
                    assert(pow2(62) == 0x4000_0000_0000_0000);
                    if d > 62 {
                    }
                    assert(false);
                }
            }
            p = p * 2;
            d = d + 1;
        }
        if p != n64 {
            proof {
                assert forall|e: nat| pow2(e) != n by {
                    if e < d {
                    } else if e == d {
                    } else {
                        vstd::arithmetic::power2::lemma_pow2_strictly_increases(d as nat, e);
                    }
                }
            }
            return Err(MerkleError::NumLeavesNotPowerOfTwo(n));
        }
        assert(d >= 1) by {
            if d == 0 {
                assert(pow2(0) == 1);
            }
        }
        let mut nodes: Vec<RpoDigest> = Vec::new();
        let mut i: usize = 0;
        while i < n
            invariant
                0 <= i <= n,
                nodes@.len() == i,
                n == leaves@.len(),
                forall|j: int| 0 <= j < i ==> #[trigger] nodes@[j]@ == seq![0nat, 0nat, 0nat, 0nat],
            decreases n - i,
        {
            nodes.push(RpoDigest::default());
            i = i + 1;
        }
        let mut j: usize = 0;
        while j < n
            invariant
                0 <= j <= n,
                nodes@.len() == n + j,
                n == leaves@.len(),
                forall|t: int| 0 <= t < n ==> #[trigger] nodes@[t]@ == seq![0nat, 0nat, 0nat, 0nat],
                forall|t: int| 0 <= t < j ==> #[trigger] nodes@[n + t]@ == word_seq(leaves@[t]),
            decreases n - j,
        {
            nodes.push(RpoDigest::new(leaves[j]));
            j = j + 1;
        }
        let mut k: usize = n - 1;
        let len = nodes.len();
        while k >= 1
            invariant
                0 <= k < n,
                len == nodes@.len(),
                nodes@.len() == 2 * n,
                n == leaves@.len(),
                nodes@[0]@ == seq![0nat, 0nat, 0nat, 0nat],
                forall|t: int| 0 <= t < n ==> #[trigger] nodes@[n + t]@ == word_seq(leaves@[t]),
                forall|t: int| k < t < n ==> #[trigger] nodes@[t]@ == merge_digest(nodes@[2 * t]@, nodes@[2 * t + 1]@),
            decreases k,
        {
            let m = Rpo256::merge(&[nodes[2 * k], nodes[2 * k + 1]]);
            nodes[k] = m;
            k = k - 1;
        }
        let t = MerkleTree { nodes, depth: d };
        proof {
            assert(pow2(d as nat) == n);
            assert(tree_hashes_ok(digests_view(t.nodes@), pow2(d as nat))) by {
                assert forall|i: int| 1 <= i < pow2(d as nat) implies #[trigger] digests_view(t.nodes@)[i]
                    == merge_digest(digests_view(t.nodes@)[2 * i], digests_view(t.nodes@)[2 * i + 1]) by {
                    assert(t.nodes@[i]@ == merge_digest(t.nodes@[2 * i]@, t.nodes@[2 * i + 1]@));
                }
            }
            assert forall|i: int| 0 <= i < n implies #[trigger] t.leaves_spec()[i] == word_seq(leaves@[i]) by {
                assert(t.leaves_spec()[i] == t.nodes@[n + i]@);
            }
            assert(t.leaves_spec() =~= Seq::new(leaves@.len(), |i: int| word_seq(leaves@[i])));
        }
        Ok(t)
    }

    /// The root digest.
    pub fn root(&self) -> (r: RpoDigest)
        ensures
            r@ == self@[1],
    {
        proof {
            use_type_invariant(self);
            vstd::arithmetic::power2::lemma_pow2_pos(self.depth as nat);
        }
        self.nodes[1]
    }

    /// The depth of the tree.
    pub fn depth(&self) -> (r: u8)
        ensures
            r == self.depth_spec(),
    {
        self.depth
    }

    /// The node at `index`; fails for the root index and for depths below the leaves.
    pub fn get_node(&self, index: NodeIndex) -> (r: Result<RpoDigest, MerkleError>)
        requires
            index_valid(index@.0, index@.1),
        ensures
            index@.0 == 0 ==> r == Err::<RpoDigest, MerkleError>(MerkleError::DepthTooSmall(0)),
            index@.0 > self.depth_spec() ==> r == Err::<RpoDigest, MerkleError>(MerkleError::DepthTooBig(index@.0 as u64)),
            1 <= index@.0 <= self.depth_spec() ==> (r matches Ok(d) && d@ == self@[(pow2(index@.0) + index@.1) as int]),
    {
        proof { use_type_invariant(self); }
        if index.is_root() {
            return Err(MerkleError::DepthTooSmall(index.depth()));
        } else if index.depth() > self.depth {
            return Err(MerkleError::DepthTooBig(index.depth() as u64));
        }
        proof {
            lemma_index_in_tree(index@.0, index@.1, self.depth as nat);
        }
        let pos = to_position(index.to_scalar_index(), self.nodes.len());
        Ok(self.nodes[pos])
    }

    /// The siblings on the way from the node at `index` to the root; fails for
    /// the root index and for depths below the leaves.
    pub fn get_path(&self, index: NodeIndex) -> (r: Result<MerklePath, MerkleError>)
        requires
            index_valid(index@.0, index@.1),
        ensures
            index@.0 == 0 ==> r == Err::<MerklePath, MerkleError>(MerkleError::DepthTooSmall(0)),
            index@.0 > self.depth_spec() ==> r == Err::<MerklePath, MerkleError>(MerkleError::DepthTooBig(index@.0 as u64)),
            1 <= index@.0 <= self.depth_spec() ==> (r matches Ok(p) && p@ == tree_path_spec(self@, index@.0, index@.1)),
    {
        proof { use_type_invariant(self); }
        if index.is_root() {
            return Err(MerkleError::DepthTooSmall(index.depth()));
        } else if index.depth() > self.depth {
            return Err(MerkleError::DepthTooBig(index.depth() as u64));
        }
        let ghost d0 = index@.0;
        let ghost v0 = index@.1;
        let mut idx = index;
        let mut path: Vec<RpoDigest> = Vec::new();
        let mut k: u8 = 0;
        proof {
            vstd::arithmetic::power2::lemma2_to64();
        }
        while k < index.depth()
            invariant
                0 <= k <= d0,
                1 <= d0 <= self.depth,
                d0 == index@.0,
                v0 == index@.1,
                v0 < pow2(d0),
                1 <= self.depth < 63,
                self.nodes@.len() == 2 * pow2(self.depth as nat),
                idx@ == ((d0 - k) as nat, v0 / pow2(k as nat)),
                path@.len() == k,
                forall|j: int| 0 <= j < k ==> #[trigger] path@[j]@ == tree_path_spec(self@, d0, v0)[j],
            decreases d0 - k,
        {
            proof {
                let h = (d0 - k) as nat;
                let q = v0 / pow2(k as nat);
                assert(q < pow2(h)) by {
                                        lemma_quot_bound(v0, d0, k as nat);
                }
                assert(sibling_value(q) < pow2(h)) by {
                    lemma_sibling_bound(q, h);
                }
                lemma_index_in_tree(h, sibling_value(q), self.depth as nat);
            }
            let s = idx.sibling();
            let pos = to_position(s.to_scalar_index(), self.nodes.len());
            path.push(self.nodes[pos]);
            proof {
                lemma_div_pow2_step(v0, k as nat);
            }
            idx.move_up();
            k = k + 1;
        }
        let p = MerklePath::new(path);
        assert(p@ =~= tree_path_spec(self@, d0, v0));
        Ok(p)
    }

    /// The leaves with their positions.
    pub fn leaves(&self) -> (r: Vec<(u64, [Felt; 4])>)
        ensures
            r@.len() == self.num_leaves_spec(),
            forall|i: int| 0 <= i < r@.len() ==> (#[trigger] r@[i]).0 == i && word_seq(r@[i].1) == self.leaves_spec()[i],
    {
        proof {
            use_type_invariant(self);
            vstd::arithmetic::power2::lemma_pow2_pos(self.depth as nat);
            vstd::arithmetic::power2::lemma2_to64();
            lemma_index_in_tree(0, 0, self.depth as nat);
        }
        let n = self.nodes.len() / 2;
        let len = self.nodes.len();
        let mut r: Vec<(u64, [Felt; 4])> = Vec::new();
        let mut i: usize = 0;
        while i < n
            invariant
                0 <= i <= n,
                n == pow2(self.depth as nat),
                self.nodes@.len() == 2 * n,
                len == 2 * n,
                n < 0x1_0000_0000_0000_0000,
                r@.len() == i,
                forall|j: int| 0 <= j < i ==> (#[trigger] r@[j]).0 == j && word_seq(r@[j].1) == self.nodes@[n + j]@,
            decreases n - i,
        {
            r.push((i as u64, self.nodes[n + i].to_felts()));
            i = i + 1;
        }
        r
    }

    /// Every inner node with its two children, in breadth-first order from the root.
    pub fn inner_nodes(&self) -> (r: Vec<InnerNodeInfo>)
        ensures
            r@.len() == self.num_leaves_spec() - 1,
            forall|i: int| 0 <= i < r@.len() ==> {
                &&& (#[trigger] r@[i]).value@ == self@[i + 1]
                &&& r@[i].left@ == self@[2 * (i + 1)]
                &&& r@[i].right@ == self@[2 * (i + 1) + 1]
            },
    {
        proof {
            use_type_invariant(self);
            vstd::arithmetic::power2::lemma_pow2_pos(self.depth as nat);
        }
        let n = self.nodes.len() / 2;
        let len = self.nodes.len();
        let mut r: Vec<InnerNodeInfo> = Vec::new();
        let mut i: usize = 1;
        while i < n
            invariant
                1 <= i <= n,
                len == 2 * n,
                self.nodes@.len() == 2 * n,
                r@.len() == i - 1,
                forall|j: int| 0 <= j < i - 1 ==> {
                    &&& (#[trigger] r@[j]).value@ == self.nodes@[j + 1]@
                    &&& r@[j].left@ == self.nodes@[2 * (j + 1)]@
                    &&& r@[j].right@ == self.nodes@[2 * (j + 1) + 1]@
                },
            decreases n - i,
        {
            r.push(InnerNodeInfo { value: self.nodes[i], left: self.nodes[2 * i], right: self.nodes[2 * i + 1] });
            i = i + 1;
        }
        r
    }

    /// Replaces the leaf at position `index_value` with `value` and recomputes its ancestors.
    pub fn update_leaf(&mut self, index_value: u64, value: [Felt; 4]) -> (r: Result<(), MerkleError>)
        ensures
            r is Ok <==> index_valid(old(self).depth_spec(), index_value as nat),
            r matches Err(e) ==> e == (MerkleError::InvalidNodeIndex { depth: old(self).depth_spec() as u8, value: index_value })
                && *final(self) == *old(self),
            final(self).depth_spec() == old(self).depth_spec(),
            r is Ok ==> final(self).leaves_spec() == old(self).leaves_spec().update(index_value as int, word_seq(value)),
            final(self)@[0] == seq![0nat, 0nat, 0nat, 0nat],
            tree_hashes_ok(final(self)@, final(self).num_leaves_spec()),
    {
        proof {
            use_type_invariant(&*self);
            vstd::arithmetic::power2::lemma_pow2_pos(self.depth as nat);
        }
        let mut index = match NodeIndex::new(self.depth, index_value) {
            Ok(i) => i,
            Err(e) => return Err(e),
        };
        let ghost d = self.depth as nat;
        let ghost n = pow2(d);
        let ghost leaf = n + index_value;
        let ghost old_nodes = self.nodes@;
        proof {
            lemma_index_in_tree(d, index_value as nat, d);
        }
        let mut nodes = copy_digests(&self.nodes);
        proof {
            vstd::arithmetic::power2::lemma_pow2_pos(d);
        }
        let pos = to_position(index.to_scalar_index(), nodes.len());
        nodes[pos] = RpoDigest::new(value);
        let mut k: u8 = 0;
        proof {
            vstd::arithmetic::power2::lemma2_to64();
            vstd::arithmetic::div_mod::lemma_div_basics(index_value as int);
            lemma_pow2_double((d - 1) as nat);
            assert forall|t: int| 1 <= t < n implies #[trigger] digests_view(nodes@)[t] == merge_digest(
                digests_view(nodes@)[2 * t], digests_view(nodes@)[2 * t + 1])
                || is_ancestor_at_or_above(t as nat, d, index_value as nat, 0) by {
                if 2 * t == pos || 2 * t + 1 == pos {
                    let q = index_value as nat;
                    assert(q == 2 * (q / 2) + q % 2);
                    assert(t == pow2((d - 1) as nat) + q / 2);
                    assert(index_value as nat / pow2(1) == q / 2);
                    assert(t == pow2((d - 1) as nat) + #[trigger] (index_value as nat / pow2(1)));
                } else {
                    assert(digests_view(old_nodes)[t] == merge_digest(digests_view(old_nodes)[2 * t], digests_view(old_nodes)[2 * t + 1]));
                }
            }
        }
        while k < self.depth
            invariant
                0 <= k <= d,
                d == self.depth,
                1 <= d < 63,
                n == pow2(d),
                index_value < n,
                nodes@.len() == 2 * n,
                old_nodes.len() == 2 * n,
                index@ == ((d - k) as nat, index_value as nat / pow2(k as nat)),
                nodes@[0] == old_nodes[0],
                forall|t: int| n <= t < 2 * n && t != n + index_value ==> #[trigger] nodes@[t] == old_nodes[t],
                nodes@[n + index_value]@ == word_seq(value),
                forall|t: int| 1 <= t < n ==> #[trigger] digests_view(nodes@)[t] == merge_digest(
                    digests_view(nodes@)[2 * t], digests_view(nodes@)[2 * t + 1])
                    || is_ancestor_at_or_above(t as nat, d, index_value as nat, k as nat),
                tree_hashes_ok(digests_view(old_nodes), n),
            decreases d - k,
        {
            proof {
                lemma_div_pow2_step(index_value as nat, k as nat);
                lemma_quot_bound(index_value as nat, d, (k + 1) as nat);
                lemma_index_in_tree((d - k - 1) as nat, index_value as nat / pow2((k + 1) as nat), d);
            }
            index.move_up();
            let p = to_position(index.to_scalar_index(), nodes.len());
            proof {
                lemma_pow2_double((d - k - 1) as nat);
                lemma_quot_bound(index_value as nat, d, (k + 1) as nat);
                if (d - k) < d {
                    vstd::arithmetic::power2::lemma_pow2_strictly_increases((d - k) as nat, d);
                }
            }
            let ghost before = nodes@;
            let m = Rpo256::merge(&[nodes[2 * p], nodes[2 * p + 1]]);
            nodes[p] = m;
            proof {
                lemma_ancestor_step(d, index_value as nat, k as nat, p as nat);
                assert forall|t: int| 1 <= t < n implies #[trigger] digests_view(nodes@)[t] == merge_digest(
                    digests_view(nodes@)[2 * t], digests_view(nodes@)[2 * t + 1])
                    || is_ancestor_at_or_above(t as nat, d, index_value as nat, (k + 1) as nat) by {
                    if t != p {
                        assert(digests_view(before)[t] == merge_digest(digests_view(before)[2 * t], digests_view(before)[2 * t + 1])
                            || is_ancestor_at_or_above(t as nat, d, index_value as nat, k as nat));
                        if 2 * t == p || 2 * t + 1 == p {
                            lemma_parent_is_ancestor(d, index_value as nat, k as nat, p as nat, t as nat);
                        }
                    }
                }
            }
            k = k + 1;
        }
        proof {
            assert forall|t: int| 1 <= t < n implies #[trigger] digests_view(nodes@)[t] == merge_digest(
                digests_view(nodes@)[2 * t], digests_view(nodes@)[2 * t + 1]) by {
                lemma_no_ancestor_above_root(t as nat, d, index_value as nat);
            }
        }
        *self = MerkleTree { nodes, depth: self.depth };
        proof {
            assert(self.leaves_spec() =~= old(self).leaves_spec().update(index_value as int, word_seq(value)));
        }
        Ok(())
    }
}

/// A position below a length, as a `usize`.
fn to_position(x: u64, len: usize) -> (r: usize)
    requires
        x < len,
    ensures
        r == x,
{
    x as usize
}

/// A copy of a list of digests.
pub(crate) fn copy_digests(v: &Vec<RpoDigest>) -> (r: Vec<RpoDigest>)
    ensures
        r@ == v@,
{
    let mut r: Vec<RpoDigest> = Vec::new();
    let mut i: usize = 0;
    while i < v.len()
        invariant
            0 <= i <= v@.len(),
            r@ == v@.subrange(0, i as int),
        decreases v@.len() - i,
    {
        r.push(v[i]);
        assert(v@.subrange(0, i + 1) =~= v@.subrange(0, i as int).push(v@[i as int]));
        i = i + 1;
    }
    assert(v@.subrange(0, v@.len() as int) =~= v@);
    r
}

/// The parent of the ancestor at level `d - k - 1` is the ancestor one level up.
proof fn lemma_parent_is_ancestor(d: nat, value: nat, k: nat, p: nat, t: nat)
    requires
        k < d,
        p == pow2((d - k - 1) as nat) + value / pow2(k + 1),
        value < pow2(d),
        t >= 1,
        2 * t == p || 2 * t + 1 == p,
    ensures
        is_ancestor_at_or_above(t, d, value, k + 1),
{
    let h = (d - k - 1) as nat;
    let q = value / pow2(k + 1);
    lemma_quot_bound(value, d, k + 1);
    if h == 0 {
        vstd::arithmetic::power2::lemma2_to64();
        assert(p == 1);
        assert(false);
    } else {
        let h1 = (h - 1) as nat;
        lemma_pow2_double(h1);
        assert(pow2(h) == 2 * pow2(h1));
        vstd::arithmetic::power2::lemma_pow2_pos(k + 1);
        vstd::arithmetic::div_mod::lemma_div_pos_is_pos(value as int, pow2(k + 1) as int);
        let ph1 = pow2(h1);
        assert(p == 2 * ph1 + q);
        assert(t == ph1 + q / 2) by (nonlinear_arith)
            requires
                2 * t == p || 2 * t + 1 == p,
                p == 2 * ph1 + q,
                q >= 0,
        ;
        lemma_div_pow2_step(value, k + 1);
        assert(d - (k + 2) == h1);
        assert(t == pow2((d - (k + 2)) as nat) + value / pow2(k + 2));
    }
}

/// Whether node `t` is an ancestor of leaf `value` of a depth-`d` tree strictly
/// above level `d - k` (these are the ancestors not yet recomputed after `k` steps).
pub open spec fn is_ancestor_at_or_above(t: nat, d: nat, value: nat, k: nat) -> bool {
    exists|j: nat| k < j <= d && t == pow2((d - j) as nat) + #[trigger] (value / pow2(j))
}

/// A quotient of a value below `2^d` by `2^k` is below `2^(d - k)`.
proof fn lemma_quot_bound(v: nat, d: nat, k: nat)
    requires
        v < pow2(d),
        k <= d,
    ensures
        v / pow2(k) < pow2((d - k) as nat),
{
    vstd::arithmetic::power2::lemma_pow2_adds(k, (d - k) as nat);
    vstd::arithmetic::power2::lemma_pow2_pos(k);
    vstd::arithmetic::div_mod::lemma_multiply_divide_lt(v as int, pow2(k) as int, pow2((d - k) as nat) as int);
}

/// The sibling of a position below `2^h`, with `h >= 1`, is below `2^h`.
proof fn lemma_sibling_bound(q: nat, h: nat)
    requires
        q < pow2(h),
        h >= 1,
    ensures
        sibling_value(q) < pow2(h),
{
    vstd::arithmetic::power2::lemma_pow2_unfold(h);
    vstd::arithmetic::power2::lemma_pow2_pos((h - 1) as nat);
    if q % 2 == 0 {
        assert(pow2(h) % 2 == 0) by {
            vstd::arithmetic::div_mod::lemma_mod_multiples_basic(pow2((h - 1) as nat) as int, 2);
        }
    }
}

/// A position at depth `h <= depth` of a tree of depth `depth < 63` lies inside the node array.
proof fn lemma_index_in_tree(h: nat, value: nat, depth: nat)
    requires
        h <= depth < 63,
        value < pow2(h),
    ensures
        pow2(h) + value < 2 * pow2(depth),
        pow2(h) + value < 0x1_0000_0000_0000_0000,
        h < 64,
{
    if h < depth {
        vstd::arithmetic::power2::lemma_pow2_strictly_increases(h, depth);
    }
    vstd::arithmetic::power2::lemma_pow2_strictly_increases(depth, 63);
    vstd::arithmetic::power2::lemma2_to64_rest();
}

/// After recomputing the ancestor at level `d - k - 1`, the ancestors not yet
/// recomputed are those above it.
proof fn lemma_ancestor_step(d: nat, value: nat, k: nat, p: nat)
    requires
        k < d,
        p == pow2((d - k - 1) as nat) + value / pow2(k + 1),
    ensures
        forall|t: nat| #[trigger] is_ancestor_at_or_above(t, d, value, k) && t != p ==> is_ancestor_at_or_above(t, d, value, k + 1),
{
    assert forall|t: nat| #[trigger] is_ancestor_at_or_above(t, d, value, k) && t != p implies is_ancestor_at_or_above(t, d, value, k + 1) by {
        let j = choose|j: nat| k < j <= d && t == pow2((d - j) as nat) + #[trigger] (value / pow2(j));
        assert(j != k + 1);
    }
}

/// No ancestor remains once all levels have been recomputed.
proof fn lemma_no_ancestor_above_root(t: nat, d: nat, value: nat)
    ensures
        !is_ancestor_at_or_above(t, d, value, d),
{
}

} // verus!
