//! A Merkle mountain range that keeps every node.

use vstd::prelude::*;
use vstd::arithmetic::power2::pow2;
use crate::merkle::{digests_view, merge_digest, InnerNodeInfo};
use crate::merkle::index::index_valid;
use crate::merkle::mmr::layout::{layout, layout_peaks, completed_roots, tree_root, postorder, subtree,
    sibling_of, tree_path, lemma_layout_push, lemma_layout_trailing_tree, lemma_layout_len,
    lemma_mod_pow2_step, lemma_nodes_facts, lemma_block_bound, lemma_subtree_halves,
    lemma_postorder_halves, lemma_postorder_len, lemma_tree_in_layout, lemma_layout_prefix,
    lemma_tree_path_root, tree_inner_nodes, layout_inner_nodes, lemma_layout_inner_merge};
use crate::merkle::mmr::{nodes_in_forest_spec, popcount, count_ones, ilog2_exec, ilog2,
    leaf_to_corresponding_tree, MmrError};
use crate::merkle::mmr::in_order::pow2_usize;
use crate::merkle::mmr::opening::{MmrProof, tree_of, forest_above, clear_low_bits};
use crate::merkle::mmr::peaks::MmrPeaks;
use crate::merkle::mmr::delta::MmrDelta;
use crate::merkle::path::{MerklePath, path_root};
use crate::rescue::digest::RpoDigest;
use crate::rescue::rpo::Rpo256;

verus! {

/// The number of nodes of a forest of `forest` leaves.
pub fn nodes_in_forest(forest: usize) -> (r: usize)
    requires
        forest <= usize::MAX / 2,
    ensures
        r == nodes_in_forest_spec(forest as nat),
{
    let ones = count_ones(forest);
    proof {
        lemma_layout_len(Seq::empty(), forest as nat);
    }
    forest * 2 - ones as usize
}

/// The message of the error for peaks requested beyond the leaves.
#[verifier::external_body]
fn forest_request_message(forest: usize, current: usize) -> String {
    format!("request forest {forest} exceeds current forest {current}")
}

/// The values of a list of inner nodes, each with its children.
pub open spec fn infos_view(s: Seq<InnerNodeInfo>) -> Seq<(Seq<nat>, Seq<nat>, Seq<nat>)> {
    Seq::new(s.len(), |i: int| (s[i].value@, s[i].left@, s[i].right@))
}

/// The message of the error for a delta between forests that do not fit the range.
#[verifier::external_body]
fn delta_range_message(to_forest: usize, current: usize, from_forest: usize) -> String {
    format!("to_forest {to_forest} exceeds the current forest {current} or from_forest {from_forest} exceeds to_forest")
}

/// The node at post-order position `end - 1`, if the range holds one.
pub open spec fn node_before(nodes: Seq<Seq<nat>>, end: int) -> Seq<Seq<nat>> {
    if 0 < end <= nodes.len() { seq![nodes[end - 1]] } else { Seq::empty() }
}

/// The roots of the trees that a range of `common | m` leaves builds on its way
/// to a tree of `nh` leaves, from the tree of `t` leaves up: the first merge is
/// at `first`, and after it one for each size missing from `m`; each root sits
/// after the trees kept so far and a sibling tree of its size.
pub open spec fn merged_roots(nodes: Seq<Seq<nat>>, common: usize, m: usize, first: usize, nh: usize, t: usize) -> Seq<Seq<nat>>
    decreases usize::MAX - t,
{
    if t == 0 || t >= nh || t > usize::MAX / 2 {
        Seq::empty()
    } else {
        proof {
            assert((t * 2) as usize == t * 2);
        }
        let rest = merged_roots(nodes, common, m, first, nh, (t * 2) as usize);
        if t == first || m & t == 0 {
            let arg = common | (m & !((t - 1) as usize)) | t;
            (if arg <= usize::MAX / 2 {
                node_before(nodes, (nodes_in_forest_spec(arg as nat) + nodes_in_forest_spec(t as nat)) as int)
            } else {
                Seq::empty()
            }) + rest
        } else {
            rest
        }
    }
}

/// The peaks of the trees in `np` taken largest first, each the node after
/// the trees before it, starting from `offset` nodes.
pub open spec fn new_peak_roots(nodes: Seq<Seq<nat>>, np: usize, offset: usize) -> Seq<Seq<nat>>
    decreases np,
{
    if np == 0 {
        Seq::empty()
    } else {
        let t = pow2(ilog2(np as nat));
        proof {
            crate::merkle::mmr::layout::lemma_clear_high_bit(np as u64);
            vstd::arithmetic::power2::lemma_pow2_pos(ilog2(np as nat));
        }
        let grows = t <= usize::MAX / 2 && offset + nodes_in_forest_spec(t) <= usize::MAX;
        let o: usize = if grows { (offset + nodes_in_forest_spec(t)) as usize } else { offset };
        (if grows { node_before(nodes, o as int) } else { Seq::empty() }) + new_peak_roots(nodes, (np - t) as usize, o)
    }
}

/// What a range of `from` leaves needs to reach `to` leaves, read from the nodes
/// of a range that has them: the roots of the trees its trees merge into, then
/// the peaks of the trees that are new.
pub open spec fn delta_data(nodes: Seq<Seq<nat>>, from: usize, to: usize) -> Seq<Seq<nat>> {
    let nh = pow2(ilog2((to ^ from) as nat)) as usize;
    let m = from & ((nh - 1) as usize);
    let common = from ^ m;
    let high: usize = if m == 0 { 0 } else { nh };
    let np = to ^ common ^ high;
    let old = to ^ np;
    (if m == 0 { Seq::empty() } else { merged_roots(nodes, common, m, m & !((m - 1) as usize), nh, m & !((m - 1) as usize)) })
        + new_peak_roots(nodes, np, if old <= usize::MAX / 2 { nodes_in_forest_spec(old as nat) as usize } else { 0 })
}

/// A mountain range over a list of leaves: the trees of the forest, largest
/// first, each with all its nodes in post order.
pub struct Mmr {
    forest: usize,
    nodes: Vec<RpoDigest>,
    leaves: Ghost<Seq<Seq<nat>>>,
}

impl Mmr {
    /// The leaves added so far, oldest first.
    pub closed spec fn leaves_spec(&self) -> Seq<Seq<nat>> {
        self.leaves@
    }

    /// The number of leaves.
    pub closed spec fn forest_spec(&self) -> nat {
        self.forest as nat
    }

    /// The nodes match the leaves.
    pub closed spec fn wf(&self) -> bool {
        &&& self.leaves@.len() == self.forest
        &&& self.forest <= usize::MAX / 2
        &&& digests_view(self.nodes@) == layout(self.leaves@, self.forest as nat)
    }

    /// An empty range.
    pub fn new() -> (r: Self)
        ensures
            r.wf(),
            r.leaves_spec() == Seq::<Seq<nat>>::empty(),
            r.forest_spec() == 0,
    {
        let r = Mmr { forest: 0, nodes: Vec::new(), leaves: Ghost(Seq::empty()) };
        assert(digests_view(r.nodes@) =~= layout(r.leaves@, 0));
        r
    }

    /// The number of leaves.
    pub fn forest(&self) -> (r: usize)
        ensures
            r == self.forest_spec(),
    {
        self.forest
    }

    /// Appends a leaf, and the roots of the trees it completes.
    pub fn add(&mut self, el: RpoDigest)
        requires
            old(self).wf(),
            old(self).forest_spec() < usize::MAX / 2,
        ensures
            final(self).wf(),
            final(self).leaves_spec() == old(self).leaves_spec().push(el@),
            final(self).forest_spec() == old(self).forest_spec() + 1,
    {
        let ghost f = self.forest as nat;
        let ghost lv = self.leaves@.push(el@);
        let ghost old_nodes = digests_view(self.nodes@);
        proof {
            lemma_layout_len(self.leaves@, f);
            assert(self.leaves@ =~= lv.take(f as int));
            assert(lv.take(f as int) =~= self.leaves@.take(f as int));
            crate::merkle::mmr::layout::lemma_layout_congr(self.leaves@, lv, f);
        }
        self.nodes.push(el);
        let mut left_offset: usize = if self.nodes.len() >= 2 { self.nodes.len() - 2 } else { 0 };
        let mut right = el;
        let mut left_tree: usize = 1;
        let ghost mut i: nat = 0;
        proof {
            vstd::arithmetic::power2::lemma2_to64();
            assert(digests_view(self.nodes@) =~= old_nodes + seq![el@] + completed_roots(lv, f + 1, 0));
            assert(lv.skip(f as int).take(1) =~= seq![el@]);
        }
        while (self.forest / left_tree) % 2 == 1
            invariant
                f == self.forest,
                f < usize::MAX / 2,
                lv.len() == f + 1,
                lv[f as int] == el@,
                old_nodes == layout(lv, f),
                old_nodes.len() == nodes_in_forest_spec(f),
                i < 64,
                left_tree == pow2(i),
                left_tree > 0,
                f % pow2(i) == pow2(i) - 1,
                digests_view(self.nodes@) == old_nodes + seq![el@] + completed_roots(lv, f + 1, i),
                right@ == tree_root(lv.skip(f + 1 - pow2(i)).take(pow2(i) as int), i),
                (f / pow2(i)) % 2 == 1 ==> left_offset + 1 == nodes_in_forest_spec((f + 1 - pow2(i)) as nat),
            decreases 64 - i,
        {
            let ghost m = pow2(i);
            proof {
                lemma_layout_trailing_tree(lv, f, i);
                lemma_nodes_facts((f + 1 - m) as nat, i);
                vstd::arithmetic::power2::lemma_pow2_unfold(i + 1);
                vstd::arithmetic::power2::lemma_pow2_pos(i);
            }
            assert((f / pow2(i)) % 2 == 1);
            assert(left_offset < old_nodes.len());
            assert(self.nodes@.len() == digests_view(self.nodes@).len());
            let left = self.nodes[left_offset];
            let ghost prev = right@;
            assert(left@ == digests_view(self.nodes@)[left_offset as int]);
            assert(left@ == old_nodes[left_offset as int]);
            assert(left@ == tree_root(lv.skip(f + 1 - pow2(i + 1)).take(m as int), i));
            right = Rpo256::merge(&[left, right]);
            proof {
                let u = lv.skip(f + 1 - pow2(i + 1)).take(pow2(i + 1) as int);
                assert(u.take(m as int) =~= lv.skip(f + 1 - pow2(i + 1)).take(m as int));
                assert(u.skip(m as int) =~= lv.skip(f + 1 - m).take(m as int));
                assert(right@ == merge_digest(left@, prev));
                assert(tree_root(u, i + 1) == merge_digest(tree_root(u.take(m as int), i), tree_root(u.skip(m as int), i)));
                assert(right@ == tree_root(u, i + 1));
                assert(completed_roots(lv, f + 1, i + 1) =~= completed_roots(lv, f + 1, i).push(right@));
            }
            let ghost before = digests_view(self.nodes@);
            self.nodes.push(right);
            assert(digests_view(self.nodes@) =~= before.push(right@));
            let step = nodes_in_forest(left_tree);
            left_offset = if left_offset >= step { left_offset - step } else { 0 };
            left_tree = left_tree * 2;
            proof {
                lemma_mod_pow2_step(f, i);
                let i1 = i + 1;
                if i1 >= 63 {
                    vstd::arithmetic::power2::lemma2_to64_rest();
                    if i1 > 63 {
                        vstd::arithmetic::power2::lemma_pow2_strictly_increases(63, i1);
                    }
                    assert(false);
                }
                if (f / pow2(i1)) % 2 == 1 {
                    crate::merkle::mmr::layout::lemma_low_ones(f, i1);
                    vstd::arithmetic::power2::lemma_pow2_unfold(i1 + 1);
                    lemma_nodes_facts((f + 1 - pow2(i1)) as nat, i);
                }
                i = i1;
                vstd::arithmetic::power2::lemma_pow2_pos(i);
                assert(digests_view(self.nodes@) =~= old_nodes + seq![el@] + completed_roots(lv, f + 1, i));
            }
        }
        proof {
            lemma_layout_push(lv, f, i);
        }
        self.forest = self.forest + 1;
        self.leaves = Ghost(lv);
    }

    /// The leaf at `relative_pos` of the tree of height `tree_bit` whose nodes start
    /// at `index_offset`, and its path to the tree's root, lowest sibling first.
    #[verifier::spinoff_prover]
    #[verifier::rlimit(40)]
    fn collect_merkle_path_and_value(
        &self,
        tree_bit: u32,
        relative_pos: usize,
        index_offset: usize,
        Ghost(t): Ghost<Seq<Seq<nat>>>,
    ) -> (r: (RpoDigest, Vec<RpoDigest>))
        requires
            self.wf(),
            tree_bit < 64,
            pow2(tree_bit as nat) <= self.forest_spec(),
            t.len() == pow2(tree_bit as nat),
            relative_pos < pow2(tree_bit as nat),
            index_offset + pow2(tree_bit as nat + 1) - 1 <= self.nodes@.len(),
            digests_view(self.nodes@).subrange(index_offset as int, index_offset + pow2(tree_bit as nat + 1) - 1)
                == postorder(t, tree_bit as nat),
        ensures
            r.0@ == t[relative_pos as int],
            digests_view(r.1@) == tree_path(t, tree_bit as nat, relative_pos as nat),
            r.1@.len() == tree_bit,
    {
        let ghost h = tree_bit as nat;
        let ghost p = relative_pos as nat;
        let ghost whole = postorder(t, h);
        let ghost tp = tree_path(t, h, p);
        let mut path: Vec<RpoDigest> = Vec::new();
        let mut forest_target: usize = pow2_usize(tree_bit);
        proof {
            lemma_nodes_facts(forest_target as nat, h);
            vstd::arithmetic::power2::lemma_pow2_pos(h);
            vstd::arithmetic::power2::lemma_pow2_unfold(h + 1);
            vstd::arithmetic::div_mod::lemma_basic_div(p as int, pow2(h) as int);
            assert(subtree(t, h, 0) =~= t);
            assert(whole.subrange(0, pow2(h + 1) - 1) =~= whole);
            lemma_postorder_len(t, h);
        }
        let mut index: usize = nodes_in_forest(forest_target) - 1;
        let nlen = self.nodes.len();
        let ghost mut cur: nat = h;
        let ghost mut base: nat = 0;
        while forest_target > 1
            invariant
                self.wf(),
                h == tree_bit,
                h < 64,
                p == relative_pos,
                p < pow2(h),
                t.len() == pow2(h),
                whole == postorder(t, h),
                whole.len() == pow2(h + 1) - 1,
                tp == tree_path(t, h, p),
                index_offset + pow2(h + 1) - 1 <= self.nodes@.len(),
                nlen == self.nodes@.len(),
                digests_view(self.nodes@).subrange(index_offset as int, index_offset + pow2(h + 1) - 1) == whole,
                cur <= h,
                forest_target == pow2(cur),
                base + pow2(cur + 1) - 1 <= pow2(h + 1) - 1,
                index == base + pow2(cur + 1) - 2,
                whole.subrange(base as int, base + pow2(cur + 1) - 1) == postorder(subtree(t, cur, p / pow2(cur)), cur),
                digests_view(path@) == Seq::new((h - cur) as nat, |i: int| tp[h - 1 - i]),
            decreases cur,
        {
            let ghost c1 = (cur - 1) as nat;
            let ghost q = p / pow2(cur);
            let ghost u = subtree(t, cur, q);
            proof {
                if cur == 0 {
                    vstd::arithmetic::power2::lemma2_to64();
                }
                vstd::arithmetic::power2::lemma_pow2_unfold(cur);
                vstd::arithmetic::power2::lemma_pow2_unfold(cur + 1);
                vstd::arithmetic::power2::lemma_pow2_pos(c1);
                lemma_nodes_facts(pow2(c1), c1);
                lemma_block_bound(p, cur, h);
                lemma_subtree_halves(t, h, c1, q);
                lemma_postorder_halves(u, cur);
                crate::merkle::path::lemma_div_pow2_step(p, c1);
                lemma_postorder_len(subtree(t, c1, 2 * q), c1);
                lemma_postorder_len(subtree(t, c1, 2 * q + 1), c1);
            }
            forest_target = forest_target / 2;
            let right_offset = index - 1;
            let left_offset = right_offset - nodes_in_forest(forest_target);
            let ghost q1 = p / pow2(c1);
            let ghost sub = whole.subrange(base as int, base + pow2(cur + 1) - 1);
            proof {
                assert(q1 / 2 == q);
                assert(whole.subrange(base as int, base + pow2(cur) - 1) =~= sub.subrange(0, pow2(cur) - 1));
                assert(whole.subrange(base + pow2(cur) - 1, base + pow2(cur + 1) - 2)
                    =~= sub.subrange(pow2(cur) - 1, pow2(cur + 1) - 2));
                assert(whole[left_offset as int] == postorder(subtree(t, c1, 2 * q), c1).last());
                assert(whole[right_offset as int] == postorder(subtree(t, c1, 2 * q + 1), c1).last());
                assert(self.nodes@[index_offset + left_offset]@ == whole[left_offset as int]);
                assert(self.nodes@[index_offset + right_offset]@ == whole[right_offset as int]);
            }
            let sibling = if (relative_pos / forest_target) % 2 == 0 {
                proof {
                    assert(q1 == 2 * q);
                    assert(sibling_of(q1) == 2 * q + 1);
                }
                index = left_offset;
                self.nodes[index_offset + right_offset]
            } else {
                proof {
                    assert(q1 == 2 * q + 1);
                    assert(sibling_of(q1) == 2 * q);
                    base = (base + pow2(cur) - 1) as nat;
                }
                index = right_offset;
                self.nodes[index_offset + left_offset]
            };
            let ghost before = digests_view(path@);
            path.push(sibling);
            proof {
                assert(digests_view(path@) =~= before.push(sibling@));
                assert(sibling@ == tp[c1 as int]);
                cur = c1;
                assert(digests_view(path@) =~= Seq::new((h - cur) as nat, |i: int| tp[h - 1 - i]));
            }
        }
        proof {
            if cur > 0 {
                vstd::arithmetic::power2::lemma_pow2_unfold(cur);
                vstd::arithmetic::power2::lemma_pow2_pos((cur - 1) as nat);
            }
            vstd::arithmetic::power2::lemma2_to64();
            assert(cur == 0);
            vstd::arithmetic::div_mod::lemma_div_basics(p as int);
            assert(p / pow2(0) == p);
            assert(p * pow2(0) == p) by (nonlinear_arith)
                requires
                    pow2(0) == 1,
            ;
            assert(subtree(t, 0, p) =~= t.skip(p as int).take(1));
            assert(postorder(subtree(t, 0, p), 0)[0] == t[p as int]);
            assert(whole[index as int] == t[p as int]);
        }
        let value = self.nodes[index_offset + index];
        let mut rev: Vec<RpoDigest> = Vec::new();
        let mut j: usize = path.len();
        while j > 0
            invariant
                j <= path@.len(),
                path@.len() == h,
                digests_view(path@) == Seq::new(h, |i: int| tp[h - 1 - i]),
                tp.len() == h,
                rev@.len() == h - j,
                forall|i: int| 0 <= i < h - j ==> #[trigger] rev@[i]@ == tp[i],
            decreases j,
        {
            j = j - 1;
            rev.push(path[j]);
            proof {
                assert(path@[j as int]@ == digests_view(path@)[j as int]);
            }
        }
        assert(digests_view(rev@) =~= tp);
        (value, rev)
    }

    /// The leaf at `pos`.
    pub fn get(&self, pos: usize) -> (r: Result<RpoDigest, MmrError>)
        requires
            self.wf(),
        ensures
            pos < self.forest_spec() ==> (r matches Ok(d) && d@ == self.leaves_spec()[pos as int]),
            pos >= self.forest_spec() ==> r == Err::<RpoDigest, MmrError>(MmrError::PositionNotFound(pos)),
    {
        let tree_bit = match leaf_to_corresponding_tree(pos, self.forest) {
            Some(t) => t,
            None => return Err(MmrError::PositionNotFound(pos)),
        };
        let ghost f = self.forest as nat;
        let ghost lv = self.leaves@;
        proof {
            lemma_tree_in_layout(lv, f, pos as nat, tree_bit as nat);
        }
        let forest_before = clear_low_bits(self.forest, tree_bit + 1);
        let index_offset = nodes_in_forest(forest_before);
        let relative_pos = pos - forest_before;
        let ghost t = lv.skip(forest_before as int).take(pow2(tree_bit as nat) as int);
        proof {
            lemma_layout_len(lv, f);
            let n = nodes_in_forest_spec(forest_before as nat);
            let l = pow2(tree_bit as nat + 1);
            assert(digests_view(self.nodes@).subrange(index_offset as int, index_offset + l - 1)
                =~= layout(lv, f).subrange(n as int, n + l - 1));
        }
        let (value, _) = self.collect_merkle_path_and_value(tree_bit, relative_pos, index_offset, Ghost(t));
        Ok(value)
    }

    /// An opening of the leaf at `pos` against the current peaks.
    pub fn open(&self, pos: usize) -> (r: Result<MmrProof, MmrError>)
        requires
            self.wf(),
        ensures
            pos >= self.forest_spec() ==> r == Err::<MmrProof, MmrError>(MmrError::PositionNotFound(pos)),
            pos < self.forest_spec() ==> (r matches Ok(pr) && self.opens(pos as nat, self.forest_spec(), pr)),
    {
        self.open_at(pos, self.forest)
    }

    /// `pr` is the opening of leaf `pos` in the forest of the first `forest`
    /// leaves: the path of the leaf in its tree, which leads from the leaf to
    /// the tree's peak.
    pub open spec fn opens(&self, pos: nat, forest: nat, pr: MmrProof) -> bool {
        let t = tree_of(pos, forest);
        let fb = forest_above(forest, t + 1);
        &&& pr.forest == forest
        &&& pr.position == pos
        &&& pr.merkle_path@ == tree_path(self.leaves_spec().skip(fb as int).take(pow2(t) as int), t, (pos - fb) as nat)
        &&& pr.relative_pos_spec() == pos - fb
        &&& pr.peak_index_spec() < popcount(forest)
        &&& index_valid(pr.merkle_path@.len(), pr.relative_pos_spec())
        &&& path_root(pr.merkle_path@, pr.relative_pos_spec(), self.leaves_spec()[pos as int])
            == layout_peaks(self.leaves_spec(), forest)[pr.peak_index_spec() as int]
    }

    /// The law of keeping a partial range in step with this range: a partial
    /// range of `from` leaves that holds the peaks of the first `from` leaves,
    /// given this range's delta from `from` to all its leaves (`get_delta`),
    /// takes it (`PartialMmr::apply`) and reaches this range's peaks; the nodes
    /// it then knows are those it knew with the entries it gives back recorded
    /// in order; no entry names a node of the trees of the first `from` leaves
    /// other than their roots. Where the partial range knew only such nodes,
    /// each entry is new and holds this range's value at its index, so that
    /// what it knew of this range stays true.
    pub proof fn lemma_delta_keeps_partial_in_step(&self, from: usize, nodes: Map<usize, Seq<nat>>, track_latest: bool)
        requires
            self.wf(),
            from < self.forest_spec(),
            self.forest_spec() <= usize::MAX / 32,
        ensures
            crate::merkle::mmr::partial::apply_outcome(from, layout_peaks(self.leaves_spec(), from as nat), nodes,
                track_latest, self.forest_spec() as usize,
                delta_data(layout(self.leaves_spec(), self.forest_spec()), from, self.forest_spec() as usize))
                matches Some((p, n, acc))
                && p == layout_peaks(self.leaves_spec(), self.forest_spec())
                && n == crate::merkle::mmr::sync::view_apply(nodes, acc)
                && crate::merkle::mmr::sync::fresh_entries(from as nat, acc)
                && (crate::merkle::mmr::sync::keys_inner(from as nat, nodes)
                    ==> crate::merkle::mmr::sync::valued_entries(self.leaves_spec(), acc)
                    && (forall|i: int| 0 <= i < acc.len() ==> !nodes.dom().contains((#[trigger] acc[i]).0 as usize))
                    && (crate::merkle::mmr::sync::map_valued(self.leaves_spec(), nodes)
                        ==> crate::merkle::mmr::sync::map_valued(self.leaves_spec(), n))),
    {
        crate::merkle::mmr::sync::lemma_apply_delta_syncs(self.leaves_spec(), self.forest_spec(), from,
            self.forest_spec() as usize, nodes, track_latest);
    }

    /// The law of keeping a partial range's openings in step with this range:
    /// a partial range of `from` leaves that holds the peaks of the first
    /// `from` leaves, knows only inner nodes of their trees, each with this
    /// range's value, and knows the path of leaf `pos` in its tree of `2^d`
    /// leaves (the run of known siblings up from the leaf is `d` high; for a
    /// lone leaf, it tracks the latest leaf), given this range's delta from
    /// `from` to all its leaves (`get_delta`), takes it (`PartialMmr::apply`)
    /// and then opens the leaf (`PartialMmr::open`) as this range does (`open`,
    /// opening `pr`): the run of known siblings is as long as the opening's
    /// path, and the sibling met at each level is that path's node there.
    pub proof fn lemma_delta_keeps_openings(&self, from: usize, nodes: Map<usize, Seq<nat>>, track_latest: bool,
        pos: nat, d: nat, pr: MmrProof)
        requires
            self.wf(),
            from < self.forest_spec(),
            self.forest_spec() <= usize::MAX / 32,
            crate::merkle::mmr::sync::keys_inner(from as nat, nodes),
            crate::merkle::mmr::sync::map_valued(self.leaves_spec(), nodes),
            ((from as nat) / pow2(d)) % 2 == 1,
            crate::merkle::mmr::sync::floor_to(from as nat, d + 1) <= pos < crate::merkle::mmr::sync::floor_to(
                from as nat, d + 1) + pow2(d),
            crate::merkle::mmr::partial::known_run(nodes, crate::merkle::mmr::in_order::io_leaf(pos), 64) == d,
            d == 0 ==> track_latest,
            self.opens(pos, self.forest_spec(), pr),
        ensures
            crate::merkle::mmr::partial::apply_outcome(from, layout_peaks(self.leaves_spec(), from as nat), nodes,
                track_latest, self.forest_spec() as usize,
                delta_data(layout(self.leaves_spec(), self.forest_spec()), from, self.forest_spec() as usize))
                matches Some((p, n, acc))
                && crate::merkle::mmr::partial::known_run(n, crate::merkle::mmr::in_order::io_leaf(pos), 64)
                    == pr.merkle_path@.len()
                && forall|j: int| 0 <= j < pr.merkle_path@.len()
                    ==> n[crate::merkle::mmr::sync::leaf_sibling(pos, j as nat) as usize] == #[trigger] pr.merkle_path@[j],
    {
        let l = self.leaves_spec();
        let g = self.forest_spec() as usize;
        let gn = self.forest_spec();
        if pow2(d + 1) <= (from ^ g) as nat {
            crate::merkle::mmr::sync::lemma_apply_follows_leaf(l, gn, from, g, nodes, track_latest, pos, d);
        } else {
            crate::merkle::mmr::sync::lemma_apply_keeps_leaf(l, gn, from, g, nodes, track_latest, pos, d);
        }
        let t = tree_of(pos, gn);
        let fb = crate::merkle::mmr::sync::floor_to(gn, t + 1);
        crate::merkle::mmr::sync::lemma_floor_facts(gn, t);
        let out = crate::merkle::mmr::partial::apply_outcome(from, layout_peaks(l, from as nat), nodes, track_latest, g,
            delta_data(layout(l, gn), from, g));
        if let Some((p, n, acc)) = out {
            if t + 1 >= 64 {
                vstd::arithmetic::power2::lemma2_to64_rest();
                crate::merkle::mmr::layout::lemma_pow2_divides(59, t);
                assert(false);
            }
            assert(forest_above(gn, t + 1) == fb);
            assert forall|j: int| 0 <= j < pr.merkle_path@.len() implies n[crate::merkle::mmr::sync::leaf_sibling(pos,
                j as nat) as usize] == #[trigger] pr.merkle_path@[j] by {
                crate::merkle::mmr::sync::lemma_sibling_value_path(l, pos, fb, t, j as nat);
            }
        }
    }

    /// The law of older openings: an opening of a leaf taken against the first
    /// `forest` leaves hashes, with that leaf, to the peak of its tree among the
    /// peaks of those leaves alone, of which there is one per set bit of `forest`.
    pub proof fn lemma_opening_at_forest_verifies(&self, pos: nat, forest: nat, pr: MmrProof)
        requires
            self.wf(),
            forest <= self.forest_spec(),
            pos < forest,
            self.opens(pos, forest, pr),
        ensures
            layout_peaks(self.leaves_spec().take(forest as int), forest).len() == popcount(forest),
            pr.peak_index_spec() < layout_peaks(self.leaves_spec().take(forest as int), forest).len(),
            path_root(pr.merkle_path@, pr.relative_pos_spec(), self.leaves_spec()[pos as int])
                == layout_peaks(self.leaves_spec().take(forest as int), forest)[pr.peak_index_spec() as int],
    {
        let l = self.leaves_spec();
        assert(l.take(forest as int).take(forest as int) =~= l.take(forest as int));
        crate::merkle::mmr::layout::lemma_layout_congr(l, l.take(forest as int), forest);
        crate::merkle::mmr::layout::lemma_layout_len(l.take(forest as int), forest);
    }

    /// The law of earlier peaks: the peaks of the first `forest` leaves
    /// (`peaks_at`) are those of a range that holds those leaves alone
    /// (`peaks`), one per set bit of `forest`.
    pub proof fn lemma_peaks_at_prefix(&self, other: &Mmr, forest: nat)
        requires
            self.wf(),
            other.wf(),
            forest <= self.forest_spec(),
            other.leaves_spec() == self.leaves_spec().take(forest as int),
        ensures
            other.forest_spec() == forest,
            layout_peaks(self.leaves_spec(), forest) == layout_peaks(other.leaves_spec(), other.forest_spec()),
            layout_peaks(self.leaves_spec(), forest).len() == popcount(forest),
    {
        let l = self.leaves_spec();
        assert(l.take(forest as int).take(forest as int) =~= l.take(forest as int));
        crate::merkle::mmr::layout::lemma_layout_congr(l, l.take(forest as int), forest);
        crate::merkle::mmr::layout::lemma_layout_len(l, forest);
    }

    /// An opening of the leaf at `pos` against the peaks of the first `forest` leaves.
    pub fn open_at(&self, pos: usize, forest: usize) -> (r: Result<MmrProof, MmrError>)
        requires
            self.wf(),
            forest <= self.forest_spec(),
        ensures
            pos >= forest ==> r == Err::<MmrProof, MmrError>(MmrError::PositionNotFound(pos)),
            pos < forest ==> (r matches Ok(pr) && self.opens(pos as nat, forest as nat, pr)),
    {
        let tree_bit = match leaf_to_corresponding_tree(pos, forest) {
            Some(t) => t,
            None => return Err(MmrError::PositionNotFound(pos)),
        };
        let ghost f = forest as nat;
        let ghost lv = self.leaves@;
        let ghost tb = tree_bit as nat;
        proof {
            lemma_tree_in_layout(lv, f, pos as nat, tb);
            lemma_layout_prefix(lv, f, self.forest as nat);
            lemma_layout_len(lv, f);
        }
        let forest_before = clear_low_bits(forest, tree_bit + 1);
        let index_offset = nodes_in_forest(forest_before);
        let relative_pos = pos - forest_before;
        let ghost t = lv.skip(forest_before as int).take(pow2(tb) as int);
        proof {
            let n = nodes_in_forest_spec(forest_before as nat);
            let l = pow2(tb + 1);
            vstd::arithmetic::power2::lemma_pow2_pos(tb + 1);
            let big = layout(lv, self.forest as nat);
            lemma_layout_len(lv, self.forest as nat);
            assert(n + l - 1 <= nodes_in_forest_spec(f));
            assert(big.subrange(0, nodes_in_forest_spec(f) as int) == layout(lv, f));
            let nf = nodes_in_forest_spec(f) as int;
            assert(nf <= big.len());
            assert(big.subrange(0, nf).subrange(n as int, n + l - 1) =~= big.subrange(n as int, n + l - 1));
            assert(big.subrange(n as int, n + l - 1) =~= layout(lv, f).subrange(n as int, n + l - 1));
            assert(digests_view(self.nodes@).subrange(index_offset as int, index_offset + l - 1)
                =~= layout(lv, f).subrange(n as int, n + l - 1));
        }
        let (_, path) = self.collect_merkle_path_and_value(tree_bit, relative_pos, index_offset, Ghost(t));
        let pr = MmrProof { forest, position: pos, merkle_path: MerklePath::new(path) };
        proof {
            lemma_tree_path_root(t, tb, relative_pos as nat);
            assert(t[relative_pos as int] == lv[pos as int]);
            assert(pr.relative_pos_spec() == relative_pos);
            assert(pr.peak_index_spec() == popcount(forest_before as nat));
            vstd::arithmetic::power2::lemma2_to64();
        }
        Ok(pr)
    }

    /// The peaks of the first `forest` leaves.
    pub fn peaks_at(&self, forest: usize) -> (r: Result<MmrPeaks, MmrError>)
        requires
            self.wf(),
        ensures
            forest > self.forest_spec() ==> (r matches Err(e) && e is InvalidPeaks),
            forest <= self.forest_spec() ==> (r matches Ok(pk) && pk.leaves_spec() == forest
                && pk.peaks_spec() == layout_peaks(self.leaves_spec(), forest as nat)),
    {
        if forest > self.forest {
            return Err(MmrError::InvalidPeaks(forest_request_message(forest, self.forest)));
        }
        let ghost lv = self.leaves@;
        let ghost f = forest as nat;
        proof {
            lemma_layout_prefix(lv, f, self.forest as nat);
            lemma_layout_len(lv, f);
            lemma_layout_len(lv, self.forest as nat);
            assert(lv.skip(0) =~= lv);
            assert(digests_view(self.nodes@).subrange(0, nodes_in_forest_spec(f) as int) =~= layout(lv, f));
            assert(layout_peaks(lv, f) =~= digests_view(Seq::<RpoDigest>::empty()) + layout_peaks(lv.skip(0), f));
        }
        let nlen = self.nodes.len();
        let mut peaks: Vec<RpoDigest> = Vec::new();
        let mut remaining = forest;
        let mut offset: usize = 0;
        while remaining != 0
            invariant
                self.wf(),
                f == forest,
                f <= self.forest,
                remaining <= f,
                lv == self.leaves@,
                offset + nodes_in_forest_spec(remaining as nat) <= self.nodes@.len(),
                nlen == self.nodes@.len(),
                digests_view(self.nodes@).subrange(offset as int, offset + nodes_in_forest_spec(remaining as nat))
                    == layout(lv.skip(f - remaining), remaining as nat),
                layout_peaks(lv, f) == digests_view(peaks@) + layout_peaks(lv.skip(f - remaining), remaining as nat),
            decreases remaining,
        {
            let ghost c = (f - remaining) as nat;
            let ghost rest = lv.skip(c as int);
            let bit = ilog2_exec(remaining as u64);
            let ghost s = pow2(bit as nat);
            proof {
                crate::merkle::mmr::layout::lemma_ilog2_bounds(remaining as nat);
                lemma_postorder_len(rest.take(s as int), bit as nat);
                lemma_nodes_facts(s, bit as nat);
                vstd::arithmetic::power2::lemma_pow2_unfold(bit as nat + 1);
                lemma_layout_len(rest.skip(s as int), (remaining - s) as nat);
                lemma_layout_len(rest, remaining as nat);
                assert(rest.skip(s as int) =~= lv.skip(f - (remaining - s)));
            }
            let tree = pow2_usize(bit);
            let ghost before = digests_view(self.nodes@).subrange(offset as int, offset + nodes_in_forest_spec(remaining as nat));
            offset = offset + nodes_in_forest(tree);
            proof {
                assert(self.nodes@[offset - 1]@ == before[nodes_in_forest_spec(s) - 1]);
                assert(before[nodes_in_forest_spec(s) - 1] == tree_root(rest.take(s as int), bit as nat));
            }
            let ghost pv = digests_view(peaks@);
            peaks.push(self.nodes[offset - 1]);
            remaining = remaining - tree;
            proof {
                assert(digests_view(peaks@) =~= pv.push(tree_root(rest.take(s as int), bit as nat)));
                assert(digests_view(self.nodes@).subrange(offset as int, offset + nodes_in_forest_spec(remaining as nat))
                    =~= before.subrange(nodes_in_forest_spec(s) as int, before.len() as int));
            }
        }
        proof {
            assert(layout_peaks(lv.skip(f as int), 0) =~= seq![]);
            assert(layout_peaks(lv, f) =~= digests_view(peaks@));
            lemma_layout_len(lv, f);
        }
        MmrPeaks::new(forest, peaks)
    }

    /// Appends the inner nodes of the tree of height `h` whose nodes start at `offset`.
    #[verifier::spinoff_prover]
    #[verifier::rlimit(40)]
    fn push_tree_inner_nodes(&self, offset: usize, h: u32, out: &mut Vec<InnerNodeInfo>, Ghost(t): Ghost<Seq<Seq<nat>>>)
        requires
            self.wf(),
            h < 64,
            pow2(h as nat) <= usize::MAX / 2,
            t.len() == pow2(h as nat),
            offset + pow2(h as nat + 1) - 1 <= self.nodes@.len(),
            digests_view(self.nodes@).subrange(offset as int, offset + pow2(h as nat + 1) - 1) == postorder(t, h as nat),
        ensures
            infos_view(final(out)@) == infos_view(old(out)@) + tree_inner_nodes(t, h as nat),
        decreases h,
    {
        let ghost hh = h as nat;
        let nlen = self.nodes.len();
        proof {
            lemma_postorder_len(t, hh);
            vstd::arithmetic::power2::lemma_pow2_pos(hh);
        }
        if h == 0 {
            assert(infos_view(out@) =~= infos_view(out@) + tree_inner_nodes(t, 0));
            return;
        }
        let ghost h1 = (hh - 1) as nat;
        let ghost half = pow2(h1) as int;
        let ghost whole = postorder(t, hh);
        let ghost nv = digests_view(self.nodes@);
        proof {
            lemma_postorder_halves(t, hh);
            vstd::arithmetic::power2::lemma_pow2_unfold(hh);
            vstd::arithmetic::power2::lemma_pow2_unfold(hh + 1);
            vstd::arithmetic::power2::lemma_pow2_pos(h1);
            lemma_postorder_len(t.take(half), h1);
            lemma_postorder_len(t.skip(half), h1);
            assert(nv.subrange(offset as int, offset + pow2(hh) - 1) =~= whole.subrange(0, pow2(hh) - 1));
            assert(nv.subrange(offset + pow2(hh) - 1, offset + pow2(hh + 1) - 2)
                =~= whole.subrange(pow2(hh) - 1, pow2(hh + 1) - 2));
        }
        let half_nodes = pow2_usize(h - 1) * 2 - 1;
        self.push_tree_inner_nodes(offset, h - 1, out, Ghost(t.take(half)));
        let ghost mid = infos_view(out@);
        self.push_tree_inner_nodes(offset + half_nodes, h - 1, out, Ghost(t.skip(half)));
        let root = offset + 2 * half_nodes;
        let info = InnerNodeInfo {
            value: self.nodes[root],
            left: self.nodes[offset + half_nodes - 1],
            right: self.nodes[root - 1],
        };
        proof {
            assert(info.value@ == whole[whole.len() - 1]);
            assert(info.left@ == whole.subrange(0, pow2(hh) - 1)[pow2(hh) - 2]);
            assert(info.right@ == whole.subrange(pow2(hh) - 1, pow2(hh + 1) - 2)[pow2(hh) - 2]);
        }
        let ghost before = infos_view(out@);
        out.push(info);
        proof {
            assert(infos_view(out@) =~= before.push((info.value@, info.left@, info.right@)));
            assert(infos_view(out@) =~= infos_view(old(out)@) + tree_inner_nodes(t, hh));
        }
    }

    /// The inner nodes of all the trees, each with its children, in the order of the nodes.
    pub fn inner_nodes(&self) -> (r: Vec<InnerNodeInfo>)
        requires
            self.wf(),
        ensures
            infos_view(r@) == layout_inner_nodes(self.leaves_spec(), self.forest_spec()),
            forall|i: int| 0 <= i < r@.len() ==> #[trigger] r@[i].value@ == merge_digest(r@[i].left@, r@[i].right@),
    {
        let ghost lv = self.leaves@;
        let ghost f = self.forest as nat;
        proof {
            lemma_layout_len(lv, f);
            assert(lv.skip(0) =~= lv);
            assert(digests_view(self.nodes@).subrange(0, nodes_in_forest_spec(f) as int) =~= layout(lv, f));
        }
        let nlen = self.nodes.len();
        let mut out: Vec<InnerNodeInfo> = Vec::new();
        let mut remaining = self.forest;
        let mut offset: usize = 0;
        proof {
            assert(layout_inner_nodes(lv, f) =~= infos_view(out@) + layout_inner_nodes(lv.skip(0), f));
        }
        while remaining != 0
            invariant
                self.wf(),
                f == self.forest,
                remaining <= f,
                lv == self.leaves@,
                nlen == self.nodes@.len(),
                offset + nodes_in_forest_spec(remaining as nat) <= self.nodes@.len(),
                digests_view(self.nodes@).subrange(offset as int, offset + nodes_in_forest_spec(remaining as nat))
                    == layout(lv.skip(f - remaining), remaining as nat),
                layout_inner_nodes(lv, f) == infos_view(out@) + layout_inner_nodes(lv.skip(f - remaining), remaining as nat),
            decreases remaining,
        {
            let ghost c = (f - remaining) as nat;
            let ghost rest = lv.skip(c as int);
            let bit = ilog2_exec(remaining as u64);
            let ghost s = pow2(bit as nat);
            let ghost before = digests_view(self.nodes@).subrange(offset as int, offset + nodes_in_forest_spec(remaining as nat));
            proof {
                crate::merkle::mmr::layout::lemma_ilog2_bounds(remaining as nat);
                lemma_postorder_len(rest.take(s as int), bit as nat);
                lemma_nodes_facts(s, bit as nat);
                vstd::arithmetic::power2::lemma_pow2_unfold(bit as nat + 1);
                lemma_layout_len(rest.skip(s as int), (remaining - s) as nat);
                lemma_layout_len(rest, remaining as nat);
                assert(rest.skip(s as int) =~= lv.skip(f - (remaining - s)));
                assert(layout(rest, remaining as nat) == postorder(rest.take(s as int), bit as nat)
                    + layout(rest.skip(s as int), (remaining - s) as nat));
                assert(before.subrange(0, pow2(bit as nat + 1) - 1) =~= postorder(rest.take(s as int), bit as nat));
                assert(digests_view(self.nodes@).subrange(offset as int, offset + pow2(bit as nat + 1) - 1)
                    =~= before.subrange(0, pow2(bit as nat + 1) - 1));
            }
            self.push_tree_inner_nodes(offset, bit, &mut out, Ghost(rest.take(s as int)));
            let tree = pow2_usize(bit);
            offset = offset + nodes_in_forest(tree);
            remaining = remaining - tree;
            proof {
                assert(digests_view(self.nodes@).subrange(offset as int, offset + nodes_in_forest_spec(remaining as nat))
                    =~= before.subrange(nodes_in_forest_spec(s) as int, before.len() as int));
            }
        }
        proof {
            assert(layout_inner_nodes(lv.skip(f as int), 0) =~= seq![]);
            assert(layout_inner_nodes(lv, f) =~= infos_view(out@));
            assert forall|i: int| 0 <= i < out@.len() implies #[trigger] out@[i].value@ == merge_digest(out@[i].left@, out@[i].right@) by {
                lemma_layout_inner_merge(lv, f, i);
                assert(infos_view(out@)[i] == (out@[i].value@, out@[i].left@, out@[i].right@));
            }
        }
        out
    }

    /// What a partial range of `from_forest` leaves needs to reach `to_forest`
    /// leaves: the roots of its trees that merge, then the new peaks.
    pub fn get_delta(&self, from_forest: usize, to_forest: usize) -> (r: Result<MmrDelta, MmrError>)
        requires
            self.wf(),
        ensures
            (to_forest > self.forest_spec() || from_forest > to_forest) ==> (r matches Err(e) && e is InvalidPeaks),
            !(to_forest > self.forest_spec() || from_forest > to_forest) ==> (r matches Ok(d) && d.forest == to_forest),
            from_forest == to_forest <= self.forest_spec() ==> (r matches Ok(d) && d.data@.len() == 0),
            from_forest < to_forest <= self.forest_spec() ==> (r matches Ok(d)
                && digests_view(d.data@) == delta_data(layout(self.leaves_spec(), self.forest_spec()), from_forest, to_forest)),
    {
        if to_forest > self.forest || from_forest > to_forest {
            return Err(MmrError::InvalidPeaks(delta_range_message(to_forest, self.forest, from_forest)));
        }
        if from_forest == to_forest {
            return Ok(MmrDelta { forest: to_forest, data: Vec::new() });
        }
        let nlen = self.nodes.len();
        let mut result: Vec<RpoDigest> = Vec::new();
        let candidate_trees = to_forest ^ from_forest;
        assert(candidate_trees != 0) by (bit_vector)
            requires
                candidate_trees == to_forest ^ from_forest,
                from_forest != to_forest,
        ;
        let hb = ilog2_exec(candidate_trees as u64);
        proof {
            crate::merkle::mmr::layout::lemma_ilog2_bounds(candidate_trees as nat);
        }
        let mut new_high = pow2_usize(hb);
        let nh = new_high;
        assert(nh != 0 && nh & ((nh - 1) as usize) == 0) by {
            vstd::arithmetic::power2::lemma_pow2_pos(hb as nat);
            crate::merkle::mmr::layout::lemma_pow2_bits(hb as nat);
            assert(nh as u64 == pow2(hb as nat));
            let x = nh as u64;
            assert(x & ((x - 1) as u64) == 0);
            assert((nh & ((nh - 1) as usize)) as u64 == x & ((x - 1) as u64));
        }
        let ghost nodes = layout(self.leaves_spec(), self.forest_spec());
        let ghost nv = digests_view(self.nodes@);
        proof {
            assert(nh == pow2(ilog2((to_forest ^ from_forest) as nat)) as usize);
        }
        let mut merges = from_forest & (new_high - 1);
        let m0 = merges;
        assert(merges < nh) by (bit_vector)
            requires
                merges == from_forest & ((nh - 1) as usize),
                nh != 0,
                nh & ((nh - 1) as usize) == 0,
        ;
        let common_trees = from_forest ^ merges;
        assert(digests_view(result@) =~= Seq::<Seq<nat>>::empty());
        if merges == 0 {
            new_high = 0;
        } else {
            let mut target = merges & !(merges - 1);
            let first = target;
            assert(target != 0 && target & ((target - 1) as usize) == 0 && target <= merges
                && merges & !((target - 1) as usize) == merges) by (bit_vector)
                requires
                    target == merges & !((merges - 1) as usize),
                    merges != 0,
            ;
            let ghost total = merged_roots(nv, common_trees, m0, first, nh, first);
            while target < new_high
                invariant
                    new_high == nh,
                    nh != 0,
                    nh & ((nh - 1) as usize) == 0,
                    target != 0,
                    target & ((target - 1) as usize) == 0,
                    target <= nh,
                    merges < nh,
                    nlen == self.nodes@.len(),
                    nv == digests_view(self.nodes@),
                    merges == m0 & !((target - 1) as usize),
                    target == first || m0 & target == 0,
                    target >= first,
                    digests_view(result@) + merged_roots(nv, common_trees, m0, first, nh, target) == total,
                decreases nh - target,
            {
                let ghost before = digests_view(result@);
                let arg = common_trees | merges | target;
                assert(target * 2 <= nh) by (bit_vector)
                    requires
                        target < nh,
                        target != 0,
                        target & ((target - 1) as usize) == 0,
                        nh & ((nh - 1) as usize) == 0,
                ;
                let ghost here = if arg <= usize::MAX / 2 {
                    node_before(nv, (nodes_in_forest_spec(arg as nat) + nodes_in_forest_spec(target as nat)) as int)
                } else {
                    Seq::<Seq<nat>>::empty()
                };
                if arg <= usize::MAX / 2 && target <= usize::MAX / 2 {
                    let known = nodes_in_forest(arg);
                    let sibling = nodes_in_forest(target);
                    if let Some(end) = known.checked_add(sibling) {
                        if 0 < end && end - 1 < nlen {
                            result.push(self.nodes[end - 1]);
                            proof {
                                assert(digests_view(result@) =~= before + here);
                            }
                        } else {
                            assert(here =~= Seq::<Seq<nat>>::empty());
                        }
                    } else {
                        assert(here =~= Seq::<Seq<nat>>::empty());
                    }
                } else {
                    assert(here =~= Seq::<Seq<nat>>::empty());
                }
                proof {
                    assert(digests_view(result@) =~= before + here);
                    assert(merged_roots(nv, common_trees, m0, first, nh, target)
                        == here + merged_roots(nv, common_trees, m0, first, nh, (target * 2) as usize));
                }
                assert(target * 2 <= nh && ((target * 2) as usize) & ((target * 2 - 1) as usize) == 0 && target * 2 != 0) by (bit_vector)
                    requires
                        target < nh,
                        target != 0,
                        target & ((target - 1) as usize) == 0,
                        nh & ((nh - 1) as usize) == 0,
                ;
                let ghost t0 = target;
                target = target * 2;
                proof {
                    assert(digests_view(result@) + merged_roots(nv, common_trees, m0, first, nh, target) =~= total);
                }
                while (merges & target) != 0
                    invariant
                        target > t0,
                        t0 >= first,
                        t0 != 0,
                        t0 & ((t0 - 1) as usize) == 0,
                        merges == m0 & !((t0 - 1) as usize),
                        nh != 0,
                        nh & ((nh - 1) as usize) == 0,
                        target != 0,
                        target & ((target - 1) as usize) == 0,
                        target <= nh,
                        merges < nh,
                        digests_view(result@) + merged_roots(nv, common_trees, m0, first, nh, target) == total,
                    decreases nh - target,
                {
                    assert(m0 & target != 0) by (bit_vector)
                        requires
                            merges == m0 & !((t0 - 1) as usize),
                            merges & target != 0,
                    ;
                    assert(target < nh) by (bit_vector)
                        requires
                            merges & target != 0,
                            target & ((target - 1) as usize) == 0,
                            merges < nh,
                            target <= nh,
                    ;
                    assert(target < nh) by (bit_vector)
                        requires
                            merges & target != 0,
                            target & ((target - 1) as usize) == 0,
                            merges < nh,
                            target <= nh,
                    ;
                    assert(target * 2 <= nh && ((target * 2) as usize) & ((target * 2 - 1) as usize) == 0 && target * 2 != 0) by (bit_vector)
                        requires
                            target < nh,
                            target != 0,
                            target & ((target - 1) as usize) == 0,
                            nh & ((nh - 1) as usize) == 0,
                    ;
                    target = target * 2;
                }
                let old_merges = merges;
                merges = merges ^ (merges & (target - 1));
                assert(merges <= old_merges && merges == m0 & !((target - 1) as usize) && m0 & target == 0) by (bit_vector)
                    requires
                        merges == old_merges ^ (old_merges & ((target - 1) as usize)),
                        old_merges == m0 & !((t0 - 1) as usize),
                        old_merges & target == 0,
                        target > t0,
                        t0 != 0,
                        t0 & ((t0 - 1) as usize) == 0,
                        target & ((target - 1) as usize) == 0,
                ;
            }
            proof {
                assert(merged_roots(nv, common_trees, m0, first, nh, target) =~= Seq::<Seq<nat>>::empty());
                assert(digests_view(result@) =~= total);
            }
        }
        let ghost part1 = digests_view(result@);
        let mut new_peaks = to_forest ^ common_trees ^ new_high;
        let old_peaks = to_forest ^ new_peaks;
        let mut offset: usize = if old_peaks <= usize::MAX / 2 { nodes_in_forest(old_peaks) } else { 0 };
        let ghost total2 = new_peak_roots(nv, new_peaks, offset);
        proof {
            assert(part1 == (if m0 == 0 { Seq::<Seq<nat>>::empty() } else {
                merged_roots(nv, common_trees, m0, m0 & !((m0 - 1) as usize), nh, m0 & !((m0 - 1) as usize)) }));
            assert(digests_view(result@) =~= part1 + Seq::<Seq<nat>>::empty());
        }
        while new_peaks != 0
            invariant
                nlen == self.nodes@.len(),
                nv == digests_view(self.nodes@),
                digests_view(result@) + new_peak_roots(nv, new_peaks, offset) == part1 + total2,
            decreases new_peaks,
        {
            let ghost before = digests_view(result@);
            let ghost np0 = new_peaks;
            let ghost off0 = offset;
            let bit = ilog2_exec(new_peaks as u64);
            proof {
                crate::merkle::mmr::layout::lemma_clear_high_bit(new_peaks as u64);
            }
            let target = pow2_usize(bit);
            if target <= usize::MAX / 2 {
                if let Some(o) = offset.checked_add(nodes_in_forest(target)) {
                    offset = o;
                    if 0 < offset && offset - 1 < nlen {
                        result.push(self.nodes[offset - 1]);
                        proof {
                            assert(digests_view(result@) =~= before + node_before(nv, offset as int));
                        }
                    } else {
                        assert(node_before(nv, offset as int) =~= Seq::<Seq<nat>>::empty());
                        assert(digests_view(result@) =~= before + node_before(nv, offset as int));
                    }
                } else {
                    assert(digests_view(result@) =~= before + Seq::<Seq<nat>>::empty());
                }
            } else {
                assert(digests_view(result@) =~= before + Seq::<Seq<nat>>::empty());
            }
            let before_np = new_peaks;
            new_peaks = new_peaks ^ target;
            proof {
                vstd::arithmetic::power2::lemma_pow2_pos(bit as nat);
                assert((before_np ^ target) as u64 == (before_np as u64) ^ (target as u64));
                assert(target as u64 == pow2(ilog2((before_np as u64) as nat)) as u64);
                assert(new_peaks < before_np);
                assert(new_peaks == (np0 - pow2(ilog2(np0 as nat))) as usize);
                assert(new_peak_roots(nv, np0, off0) == (if target <= usize::MAX / 2 && off0 + nodes_in_forest_spec(target as nat) <= usize::MAX {
                    node_before(nv, offset as int) } else { Seq::<Seq<nat>>::empty() }) + new_peak_roots(nv, new_peaks, offset));
                assert(digests_view(result@) + new_peak_roots(nv, new_peaks, offset) =~= part1 + total2);
            }
        }
        proof {
            assert(new_peak_roots(nv, 0, offset) =~= Seq::<Seq<nat>>::empty());
            assert(digests_view(result@) =~= part1 + total2);
        }
        Ok(MmrDelta { forest: to_forest, data: result })
    }

    /// The peaks of all the leaves.
    pub fn peaks(&self) -> (r: MmrPeaks)
        requires
            self.wf(),
        ensures
            r.leaves_spec() == self.forest_spec(),
            r.peaks_spec() == layout_peaks(self.leaves_spec(), self.forest_spec()),
    {
        self.peaks_at(self.forest).unwrap()
    }
}

impl Clone for Mmr {
    fn clone(&self) -> (r: Self)
        ensures
            r.forest_spec() == self.forest_spec(),
            r.leaves_spec() == self.leaves_spec(),
            self.wf() ==> r.wf(),
    {
        Mmr { forest: self.forest, nodes: crate::merkle::tree::copy_digests(&self.nodes), leaves: Ghost(self.leaves@) }
    }
}

impl Default for Mmr {
    fn default() -> (r: Self)
        ensures
            r.wf(),
            r.leaves_spec() == Seq::<Seq<nat>>::empty(),
            r.forest_spec() == 0,
    {
        Mmr::new()
    }
}

impl Mmr {
    /// A range over `leaves`, added in order.
    pub fn from_leaves(leaves: &[RpoDigest]) -> (r: Self)
        requires
            leaves@.len() < usize::MAX / 2,
        ensures
            r.wf(),
            r.leaves_spec() == digests_view(leaves@),
            r.forest_spec() == leaves@.len(),
    {
        let mut m = Mmr::new();
        let mut i: usize = 0;
        while i < leaves.len()
            invariant
                i <= leaves@.len(),
                leaves@.len() < usize::MAX / 2,
                m.wf(),
                m.forest_spec() == i,
                m.leaves_spec() == digests_view(leaves@.take(i as int)),
            decreases leaves@.len() - i,
        {
            m.add(leaves[i]);
            i = i + 1;
            assert(digests_view(leaves@.take(i as int)) =~= digests_view(leaves@.take(i - 1)).push(leaves@[i - 1]@));
        }
        assert(leaves@.take(leaves@.len() as int) =~= leaves@);
        m
    }
}

} // verus!
