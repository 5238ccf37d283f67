//! A mountain range that keeps its peaks and only the nodes needed to open
//! the leaves it tracks.

use std::collections::BTreeMap;
use vstd::prelude::*;
use vstd::arithmetic::power2::pow2;
use crate::merkle::{digests_view, merge_digest, InnerNodeInfo};
use crate::merkle::mmr::{popcount, tz, count_ones, trailing_zeros, leaf_to_corresponding_tree, MmrError, ilog2,
    nodes_in_forest_spec};
use crate::merkle::mmr::full::nodes_in_forest;
use crate::merkle::mmr::in_order::{InOrderIndex, io_parent, io_left, io_right, io_leaf};
use crate::merkle::mmr::opening::MmrProof;
use crate::merkle::mmr::peaks::MmrPeaks;
use crate::merkle::mmr::delta::MmrDelta;
use crate::merkle::path::MerklePath;
use crate::rescue::digest::RpoDigest;
use crate::rescue::rpo::Rpo256;

verus! {

/// The indices below a quarter of the machine word, whose parents, siblings
/// and children are machine words too.
pub open spec fn io_ancestor(i: nat, k: nat) -> nat
    decreases k,
{
    if k == 0 { i } else { io_parent(io_ancestor(i, (k - 1) as nat)) }
}

/// The other child of the parent of the node at in-order index `i`.
pub open spec fn io_sibling(i: nat) -> nat {
    let p = io_parent(i);
    if i > p { io_left(p) } else { io_right(p) }
}

/// In-order indices that the in-order arithmetic handles within the machine word.
pub open spec fn index_in_range(i: nat) -> bool {
    0 < i < usize::MAX / 4
}

/// Indices small enough that their parent and its children are in range.
pub open spec fn index_small(i: nat) -> bool {
    i < usize::MAX / 16 && index_in_range(i)
}

/// The known nodes after forgetting, from node `i` up, the sibling of each
/// node met until one that is known (or one out of range).
pub open spec fn untrack_from(m: Map<usize, Seq<nat>>, i: nat) -> Map<usize, Seq<nat>>
    decreases 64 - tz(i),
{
    if m.contains_key(i as usize) || !index_in_range(i) {
        m
    } else {
        let p = io_parent(i);
        if !index_small(p) {
            m
        } else {
            proof {
                lemma_index_ops(i);
                lemma_tz_bound(p);
            }
            untrack_from(m.remove(io_sibling(p) as usize), p)
        }
    }
}

/// The values of the current node, if any.
pub open spec fn cur_view(c: Option<(InOrderIndex, RpoDigest)>) -> Option<(nat, Seq<nat>)> {
    match c {
        Some(p) => Some((p.0@, p.1@)),
        None => None,
    }
}

/// The levels a node can still climb.
pub open spec fn climb_left(c: Option<(nat, Seq<nat>)>) -> int {
    match c {
        Some(p) => if tz(p.0) < 64 { 64 - tz(p.0) } else { 0 },
        None => 0,
    }
}

/// The parts of an inner node: its value and its two children.
pub open spec fn info_view(i: InnerNodeInfo) -> (Seq<nat>, Seq<nat>, Seq<nat>) {
    (i.value@, i.left@, i.right@)
}

/// The inner nodes computed from node `current` up, then from each leaf of
/// `leaves` from `next` on: a parent is computed when it was not met before and
/// the sibling is known; otherwise the next leaf is taken.
pub open spec fn inner_from(
    nodes: Map<usize, Seq<nat>>,
    leaves: Seq<(usize, RpoDigest)>,
    next: nat,
    current: Option<(nat, Seq<nat>)>,
    seen: Set<usize>,
) -> Seq<(Seq<nat>, Seq<nat>, Seq<nat>)>
    decreases (leaves.len() - next) * 65 + climb_left(current),
{
    if next > leaves.len() {
        Seq::empty()
    } else {
        match current {
            None => Seq::empty(),
            Some(c) => {
                let idx = c.0;
                let node = c.1;
                let p = io_parent(idx);
                if index_small(idx) && !seen.contains(p as usize) && nodes.contains_key(io_sibling(idx) as usize) {
                    let sib = nodes[io_sibling(idx) as usize];
                    let is_left = io_left(p) == idx;
                    let left = if is_left { node } else { sib };
                    let right = if is_left { sib } else { node };
                    let parent = merge_digest(left, right);
                    proof {
                        lemma_index_ops(idx);
                        lemma_tz_bound(idx);
                        lemma_tz_bound(p);
                    }
                    seq![(parent, left, right)] + inner_from(nodes, leaves, next, Some((p, parent)), seen.insert(p as usize))
                } else {
                    let seen2 = if index_small(idx) { seen.insert(p as usize) } else { seen };
                    if next < leaves.len() {
                        let pos = leaves[next as int].0;
                        let leaf = leaves[next as int].1;
                        let nc = if pos < usize::MAX / 32 { Some((io_leaf(pos as nat), leaf@)) } else { None };
                        proof {
                            if pos < usize::MAX / 32 {
                                crate::merkle::mmr::in_order::lemma_tz_split(io_leaf(pos as nat));
                                assert(io_leaf(pos as nat) % 2 == 1);
                                assert(tz(io_leaf(pos as nat)) == 0);
                            }
                        }
                        inner_from(nodes, leaves, next + 1, nc, seen2)
                    } else {
                        Seq::empty()
                    }
                }
            },
        }
    }
}

/// The inner nodes computed from `leaves` and the known `nodes`.
pub open spec fn inner_nodes_spec(nodes: Map<usize, Seq<nat>>, leaves: Seq<(usize, RpoDigest)>) -> Seq<(Seq<nat>, Seq<nat>, Seq<nat>)> {
    if leaves.len() == 0 {
        Seq::empty()
    } else {
        let pos = leaves[0].0;
        let nc = if pos < usize::MAX / 32 { Some((io_leaf(pos as nat), leaves[0].1@)) } else { None };
        inner_from(nodes, leaves, 1, nc, Set::empty())
    }
}

/// Within range, the in-order arithmetic stays within the machine word.
pub proof fn lemma_index_ops(i: nat)
    requires
        index_in_range(i),
    ensures
        pow2(tz(i) + 1) <= 2 * i,
        0 < io_parent(i) <= 2 * i,
        tz(io_parent(i)) == tz(i) + 1,
        io_parent(i) % 2 == 0,
        io_right(io_parent(i)) <= 3 * i,
        i % 2 == 0 ==> io_right(i) <= 2 * i && 0 < io_left(i) < i,
{
    crate::merkle::mmr::in_order::lemma_tz_split(i);
    crate::merkle::mmr::in_order::lemma_parent_is_inner(i);
    let l = tz(i);
    let m = i / pow2(l);
    vstd::arithmetic::power2::lemma_pow2_pos(l);
    vstd::arithmetic::power2::lemma_pow2_unfold(l + 1);
    assert(pow2(l) <= i) by (nonlinear_arith)
        requires
            i == m * pow2(l),
            m % 2 == 1,
            pow2(l) > 0,
    ;
    if tz(io_parent(i)) > 0 && io_parent(i) == 0 {
        assert(tz(0) == 0);
    }
    if i % 2 == 0 {
        assert(l >= 1) by {
            if l == 0 {
                vstd::arithmetic::power2::lemma2_to64();
            }
        }
        vstd::arithmetic::power2::lemma_pow2_unfold(l);
        vstd::arithmetic::power2::lemma_pow2_pos((l - 1) as nat);
    }
}

/// The number of steps up from node `i`, at most `fuel`, over which the
/// sibling of each node met is known.
pub open spec fn known_run(nodes: Map<usize, Seq<nat>>, i: nat, fuel: nat) -> nat
    decreases fuel,
{
    if fuel == 0 || !index_in_range(i) || !nodes.contains_key(io_sibling(i) as usize) {
        0
    } else {
        1 + known_run(nodes, io_parent(i), (fuel - 1) as nat)
    }
}

/// The known nodes after recording, from node `i` up, the sibling of each node
/// met with the entries of `path` from the `j`-th on, while the indices stay small.
pub open spec fn track_entries(m: Map<usize, Seq<nat>>, path: Seq<Seq<nat>>, i: nat, j: nat) -> Map<usize, Seq<nat>>
    decreases path.len() - j,
{
    if j >= path.len() || !index_small(i) {
        m
    } else {
        track_entries(m.insert(io_sibling(i) as usize, path[j as int]), path, io_parent(i), j + 1)
    }
}

/// `a - b` in machine words, wrapping below zero.
pub open spec fn wrap_sub(a: nat, b: nat) -> nat {
    if a >= b { (a - b) as nat } else { (a + usize::MAX + 1 - b) as nat }
}

/// Whether the forest has no tree of `2^d` leaves.
pub open spec fn unknown_peak(forest: nat, d: nat) -> bool {
    d >= 64 || (forest / pow2(d)) % 2 == 0
}

/// Whether the latest leaf is a tree of its own and equals `leaf`.
pub open spec fn latest_leaf_is(forest: nat, peaks: Seq<Seq<nat>>, leaf_pos: nat, leaf: Seq<nat>, depth: nat) -> bool {
    leaf_pos + 1 == forest && depth == 0 && peaks.last() == leaf
}

/// Whether `leaf` at `leaf_pos` with `path` hashes to the peak of the tree of
/// `2^path.len()` leaves.
pub open spec fn path_meets_peak(forest: nat, peaks: Seq<Seq<nat>>, leaf_pos: nat, leaf: Seq<nat>, path: Seq<Seq<nat>>) -> bool {
    let d = path.len();
    let idx = wrap_sub(leaf_pos, crate::merkle::mmr::opening::forest_above(forest, d + 1));
    &&& crate::merkle::index::index_valid(d, idx)
    &&& peaks[popcount(crate::merkle::mmr::opening::forest_above(forest, d)) - 1]
        == crate::merkle::path::path_root(path, idx, leaf)
}

/// Whether node `i` is tracked: a leaf whose sibling is known, or a node with a
/// known child.
pub open spec fn tracked_node(nodes: Map<usize, Seq<nat>>, i: nat) -> bool {
    if i % 2 == 1 {
        let p = io_parent(i);
        let s = if i > p { io_left(p) } else { io_right(p) };
        nodes.dom().contains(s as usize)
    } else {
        nodes.dom().contains(io_left(i) as usize) || nodes.dom().contains(io_right(i) as usize)
    }
}

/// The in-order index of the root of the last tree of a forest of `forest` leaves.
pub fn forest_to_root_index(forest: usize) -> (r: InOrderIndex)
    requires
        0 < forest <= usize::MAX / 4,
    ensures
        r@ == nodes_in_forest_spec(forest as nat) + popcount(forest as nat) - 1 - (pow2(tz(forest as nat)) - 1),
{
    let nodes = nodes_in_forest(forest);
    let ones = count_ones(forest);
    let zeros = trailing_zeros(forest);
    proof {
        crate::merkle::mmr::layout::lemma_layout_len(Seq::empty(), forest as nat);
        crate::merkle::mmr::lemma_popcount_pos(forest as nat);
        crate::merkle::mmr::in_order::lemma_tz_split(forest as nat);
        let l = tz(forest as nat);
        let m = (forest as nat) / pow2(l);
        vstd::arithmetic::power2::lemma_pow2_pos(l);
        assert(pow2(l) <= forest) by (nonlinear_arith)
            requires
                forest == m * pow2(l),
                m % 2 == 1,
                pow2(l) > 0,
        ;
    }
    let open_trees = (ones - 1) as usize;
    let right_subtree_count = crate::merkle::mmr::in_order::pow2_usize(zeros) - 1;
    let idx = nodes + open_trees - right_subtree_count;
    proof {
        assert(idx > 0);
    }
    InOrderIndex::new(idx)
}

/// The in-order index of the last leaf of a forest of `forest` leaves.
pub fn forest_to_rightmost_index(forest: usize) -> (r: InOrderIndex)
    requires
        0 < forest <= usize::MAX / 4,
    ensures
        r@ == nodes_in_forest_spec(forest as nat) + popcount(forest as nat) - 1,
{
    let nodes = nodes_in_forest(forest);
    let ones = count_ones(forest);
    proof {
        crate::merkle::mmr::layout::lemma_layout_len(Seq::empty(), forest as nat);
        crate::merkle::mmr::lemma_popcount_pos(forest as nat);
    }
    let open_trees = (ones - 1) as usize;
    let idx = nodes + open_trees;
    InOrderIndex::new(idx)
}

/// The root built when a leaf completes trees: the leaf merged with the last
/// `j` peaks, the last peak first.
pub open spec fn merge_chain(peaks: Seq<Seq<nat>>, leaf: Seq<nat>, j: nat) -> Seq<nat>
    decreases j,
{
    if j == 0 {
        leaf
    } else {
        merge_digest(peaks[peaks.len() - j], merge_chain(peaks, leaf, (j - 1) as nat))
    }
}

/// An entry of the node map by its view.
pub open spec fn entry_view(e: (InOrderIndex, RpoDigest)) -> (nat, Seq<nat>) {
    (e.0@, e.1@)
}

/// The entries recorded by the merges that adding a leaf makes, from merge `j`
/// of `merges` on, after `acc`: at merge `j` the leaf's tree so far (`right`)
/// meets the peak before it (`left`); the left one is recorded when the right
/// side is tracked, the right one when the left side is; a side stays tracked
/// once it is, and the next left side is tracked when its node is.
pub open spec fn add_steps(m: Map<usize, Seq<nat>>, acc: Seq<(nat, Seq<nat>)>, peaks: Seq<Seq<nat>>, leaf: Seq<nat>,
    f1: nat, j: nat, merges: nat, tr: bool, tl: bool) -> Seq<(nat, Seq<nat>)>
    decreases merges - j,
{
    if j >= merges {
        acc
    } else {
        let right = merge_chain(peaks, leaf, j);
        let right_idx = (2 * f1 - pow2(j)) as nat;
        let left = peaks[peaks.len() - 1 - j];
        let left_idx = io_sibling(right_idx);
        let m1 = if tr { m.insert(left_idx as usize, left) } else { m };
        let a1 = if tr { acc.push((left_idx, left)) } else { acc };
        let m2 = if tl { m1.insert(right_idx as usize, right) } else { m1 };
        let a2 = if tl { a1.push((right_idx, right)) } else { a1 };
        add_steps(m2, a2, peaks, leaf, f1, j + 1, merges, tr || tl, tracked_node(m2, io_sibling(io_parent(right_idx))))
    }
}

/// The merges that bringing a range up to a larger forest makes, one level at a
/// time from the level of `target` up to `largest`: at a level that `merges`
/// lacks the tree built so far (`new`) takes the next update of `data` as its
/// right sibling, and at a level it has, the next peak (`rpeaks`, smallest first)
/// as its left sibling, recording `new` when that peak's side is tracked; once
/// the tree is tracked, the sibling met at each level is recorded. Gives the
/// known nodes, the entries recorded after `acc`, the peaks used, the root and
/// the updates used; `None` where a peak, an update or an index runs out.
pub open spec fn apply_merges(m: Map<usize, Seq<nat>>, acc: Seq<(nat, Seq<nat>)>, rpeaks: Seq<Seq<nat>>, data: Seq<Seq<nat>>,
    merges: usize, largest: usize, pc: nat, new: Seq<nat>, uc: nat, idx: nat, track: bool, target: usize)
    -> Option<(Map<usize, Seq<nat>>, Seq<(nat, Seq<nat>)>, nat, Seq<nat>, nat)>
    decreases usize::MAX - target,
{
    if target == 0 || target >= largest || target > usize::MAX / 2 {
        Some((m, acc, pc, new, uc))
    } else if !index_small(idx) {
        None
    } else {
        let tr = if target != 1 && !track { tracked_node(m, idx) } else { track };
        let take_update = target & merges == 0;
        if take_update && uc >= data.len() {
            None
        } else if !take_update && pc >= rpeaks.len() {
            None
        } else {
            let left = if take_update { new } else { rpeaks[pc as int] };
            let right = if take_update { data[uc as int] } else { new };
            let keep = !take_update && tracked_node(m, io_sibling(idx));
            let m1 = if keep { m.insert(idx as usize, new) } else { m };
            let a1 = if keep { acc.push((idx, new)) } else { acc };
            let sib = io_sibling(idx);
            let sv = if io_left(io_parent(idx)) == idx { right } else { left };
            let m2 = if tr { m1.insert(sib as usize, sv) } else { m1 };
            let a2 = if tr { a1.push((sib, sv)) } else { a1 };
            proof {
                assert((target * 2) as usize == target * 2);
            }
            apply_merges(m2, a2, rpeaks, data, merges, largest, if take_update { pc } else { pc + 1 },
                merge_digest(left, right), if take_update { uc + 1 } else { uc }, io_parent(idx), tr, (target * 2) as usize)
        }
    }
}

/// The size of the largest tree that a delta from `forest` to `dforest` leaves builds.
pub open spec fn apply_largest(forest: usize, dforest: usize) -> usize {
    pow2(ilog2((forest ^ dforest) as nat)) as usize
}

/// The trees of `forest` that merge on the way to `dforest` leaves.
pub open spec fn apply_merge_bits(forest: usize, dforest: usize) -> usize {
    forest & ((apply_largest(forest, dforest) - 1) as usize)
}

/// What bringing a range of `forest` leaves with `peaks`, known `nodes` and
/// `track_latest` up to `dforest > forest` leaves with the updates `data` gives:
/// the new peaks, the known nodes and the entries recorded; `None` where the
/// updates do not fit the two forests.
pub open spec fn apply_outcome(forest: usize, peaks: Seq<Seq<nat>>, nodes: Map<usize, Seq<nat>>, track_latest: bool,
    dforest: usize, data: Seq<Seq<nat>>) -> Option<(Seq<Seq<nat>>, Map<usize, Seq<nat>>, Seq<(nat, Seq<nat>)>)>
{
    let largest = apply_largest(forest, dforest);
    let merges = apply_merge_bits(forest, dforest);
    let depth = tz(largest as nat);
    let skipped = tz(merges as nat);
    let computed = popcount(merges as nat) - 1;
    let fits = merges == 0 || (depth >= skipped && depth - skipped >= computed);
    let merge_count: nat = if merges == 0 { 0 } else { (depth - skipped - computed) as nat };
    let new_peaks: usize = if merges == 0 { forest ^ dforest } else { dforest & ((largest - 1) as usize) };
    if !fits || (data.len() as u32) as nat != merge_count + popcount(new_peaks as nat) {
        None
    } else if merges == 0 {
        Some((peaks + data, nodes, Seq::empty()))
    } else if data.len() == 0 {
        None
    } else {
        let f = forest as nat;
        let root = (nodes_in_forest_spec(f) + popcount(f) - 1 - (pow2(tz(f)) - 1)) as nat;
        match apply_merges(nodes, Seq::empty(), peaks.reverse(), data, merges, largest, 0, data[0], 1, root, track_latest,
            merges & !((merges - 1) as usize)) {
            None => None,
            Some((m, acc, pc, new, uc)) => if pc > peaks.len() {
                None
            } else {
                Some((peaks.take(peaks.len() - pc).push(new) + data.skip(uc as int), m, acc))
            },
        }
    }
}

/// The map `m` after inserting `entries` in order.
pub open spec fn apply_entries(m: Map<usize, Seq<nat>>, entries: Seq<(InOrderIndex, RpoDigest)>) -> Map<usize, Seq<nat>>
    decreases entries.len(),
{
    if entries.len() == 0 {
        m
    } else {
        let last = entries.last();
        apply_entries(m, entries.drop_last()).insert(last.0@ as usize, last.1@)
    }
}

/// A number with `2^m - 1` as its low bits has `m` more set bits than the
/// number above them, and adding one clears those bits and sets the next.
proof fn lemma_add_one_popcount(f: nat)
    ensures
        popcount(f) >= tz(f + 1),
        popcount(f + 1) == popcount(f) - tz(f + 1) + 1,
        (f + 1) % pow2(tz(f + 1)) == 0,
{
    let f1 = f + 1;
    let m = tz(f1);
    crate::merkle::mmr::in_order::lemma_tz_split(f1);
    let q = f1 / pow2(m);
    vstd::arithmetic::power2::lemma_pow2_pos(m);
    crate::merkle::mmr::lemma_popcount_split(f, m);
    crate::merkle::mmr::lemma_popcount_split(f1, m);
    assert(f == (q - 1) * pow2(m) + (pow2(m) - 1)) by (nonlinear_arith)
        requires
            f1 == q * pow2(m),
            f1 == f + 1,
            q >= 1,
    ;
    vstd::arithmetic::div_mod::lemma_fundamental_div_mod_converse(f as int, pow2(m) as int, (q - 1) as int, (pow2(m) - 1) as int);
    vstd::arithmetic::div_mod::lemma_fundamental_div_mod_converse(f1 as int, pow2(m) as int, q as int, 0);
    lemma_popcount_ones(m);
    assert(popcount(0) == 0);
    assert(popcount(q) == popcount((q - 1) as nat) + 1) by {
        assert(q / 2 == (q - 1) as nat / 2);
    }
}

/// `2^m - 1` has `m` set bits.
pub(crate) proof fn lemma_popcount_ones(m: nat)
    ensures
        popcount((pow2(m) - 1) as nat) == m,
    decreases m,
{
    vstd::arithmetic::power2::lemma2_to64();
    if m > 0 {
        lemma_popcount_ones((m - 1) as nat);
        vstd::arithmetic::power2::lemma_pow2_unfold(m);
        vstd::arithmetic::power2::lemma_pow2_pos((m - 1) as nat);
        assert(((pow2(m) - 1) as nat) / 2 == (pow2((m - 1) as nat) - 1) as nat);
    }
}

/// Walking up from the last leaf `2 f1 - 1` of a forest of `f1` leaves: the node
/// `2 f1 - 2^j` at height `j` below the top of its tree is a right child.
proof fn lemma_rightmost_chain(f1: nat, j: nat)
    requires
        f1 > 0,
        j < tz(f1),
    ensures
        tz((2 * f1 - pow2(j)) as nat) == j,
        io_parent((2 * f1 - pow2(j)) as nat) == 2 * f1 - pow2(j + 1),
        2 * f1 >= pow2(j + 1),
{
    let m = tz(f1);
    crate::merkle::mmr::in_order::lemma_tz_split(f1);
    let q = f1 / pow2(m);
    vstd::arithmetic::power2::lemma_pow2_pos(j);
    vstd::arithmetic::power2::lemma_pow2_unfold(j + 1);
    let e = (m + 1 - j) as nat;
    vstd::arithmetic::power2::lemma_pow2_adds(j, e);
    vstd::arithmetic::power2::lemma_pow2_unfold(m + 1);
    assert(j + e == m + 1);
    assert(pow2(e) >= 2) by {
        vstd::arithmetic::power2::lemma_pow2_unfold(e);
        vstd::arithmetic::power2::lemma_pow2_pos((e - 1) as nat);
    }
    let x = q * pow2(e);
    assert(2 * f1 == pow2(j) * x) by (nonlinear_arith)
        requires
            f1 == q * pow2(m),
            pow2(m + 1) == 2 * pow2(m),
            pow2(m + 1) == pow2(j) * pow2(e),
            x == q * pow2(e),
    ;
    assert(x >= 2) by (nonlinear_arith)
        requires
            q >= 1,
            pow2(e) >= 2,
            x == q * pow2(e),
    ;
    assert(x % 2 == 0) by {
        vstd::arithmetic::power2::lemma_pow2_unfold(e);
        assert(x == 2 * (q * pow2((e - 1) as nat))) by (nonlinear_arith)
            requires
                x == q * pow2(e),
                pow2(e) == 2 * pow2((e - 1) as nat),
        ;
    }
    assert(2 * f1 >= 2 * pow2(j)) by (nonlinear_arith)
        requires
            2 * f1 == pow2(j) * x,
            x >= 2,
    ;
    let i = (2 * f1 - pow2(j)) as nat;
    assert(i == (x - 1) as nat * pow2(j)) by (nonlinear_arith)
        requires
            2 * f1 == pow2(j) * x,
            i == 2 * f1 - pow2(j),
    ;
    crate::merkle::mmr::in_order::lemma_tz_odd_times_pow2((x - 1) as nat, j);
    assert(i / pow2(j + 1) == (x - 2) as nat / 2) by {
        vstd::arithmetic::div_mod::lemma_div_denominator(i as int, pow2(j) as int, 2);
        vstd::arithmetic::div_mod::lemma_div_multiples_vanish((x - 1) as int, pow2(j) as int);
        assert(pow2(j) * 2 == pow2(j + 1));
        assert(((x - 1) as nat * pow2(j)) / pow2(j) == (x - 1) as nat) by (nonlinear_arith)
            requires
                pow2(j) > 0,
        {
            vstd::arithmetic::div_mod::lemma_div_multiples_vanish((x - 1) as int, pow2(j) as int);
        }
    }
    assert(x % 4 == 0) by {
        crate::merkle::mmr::layout::lemma_pow2_divides(2, e);
        vstd::arithmetic::power2::lemma2_to64();
        let w = pow2(e) / 4;
        vstd::arithmetic::div_mod::lemma_fundamental_div_mod(pow2(e) as int, 4);
        assert(x == (q * w) * 4) by (nonlinear_arith)
            requires
                x == q * pow2(e),
                pow2(e) == 4 * w,
        ;
        vstd::arithmetic::div_mod::lemma_mod_multiples_basic((q * w) as int, 4);
    }
    assert(((x - 2) as nat / 2) % 2 == 1);
    vstd::arithmetic::power2::lemma_pow2_unfold(j + 1);
}

/// A positive machine word has fewer than 64 trailing zeros.
pub proof fn lemma_tz_bound(i: nat)
    requires
        0 < i <= u64::MAX,
    ensures
        tz(i) < 64,
{
    crate::merkle::mmr::in_order::lemma_tz_split(i);
    let l = tz(i);
    vstd::arithmetic::power2::lemma_pow2_pos(l);
    assert(pow2(l) <= i) by (nonlinear_arith)
        requires
            i == (i / pow2(l)) * pow2(l),
            (i / pow2(l)) % 2 == 1,
            pow2(l) > 0,
    ;
    if l >= 64 {
        vstd::arithmetic::power2::lemma2_to64_rest();
        if l > 64 {
            vstd::arithmetic::power2::lemma_pow2_strictly_increases(64, l);
        }
    }
}

/// A partial mountain range: its number of leaves, its peaks, and the nodes it
/// knows, by in-order index.
pub struct PartialMmr {
    forest: usize,
    peaks: Vec<RpoDigest>,
    nodes: BTreeMap<usize, RpoDigest>,
    track_latest: bool,
}

impl PartialMmr {
    /// The number of leaves.
    pub closed spec fn forest_spec(&self) -> nat {
        self.forest as nat
    }

    /// The peaks, largest tree first.
    pub closed spec fn peaks_spec(&self) -> Seq<Seq<nat>> {
        digests_view(self.peaks@)
    }

    /// The known nodes, by in-order index.
    pub closed spec fn nodes_spec(&self) -> Map<usize, Seq<nat>> {
        Map::new(|k: usize| self.nodes@.contains_key(k), |k: usize| self.nodes@[k]@)
    }

    /// Whether the latest leaf, when it is a tree of its own, is tracked.
    pub closed spec fn track_latest_spec(&self) -> bool {
        self.track_latest
    }

    /// The forest fits the machine word with room for its in-order indices, and
    /// every known node has a positive index.
    pub closed spec fn wf(&self) -> bool {
        &&& self.forest <= usize::MAX / 32
        &&& forall|k: usize| self.nodes@.contains_key(k) ==> k > 0
    }

    /// A partial range that knows only the peaks.
    pub fn from_peaks(peaks: MmrPeaks) -> (r: Self)
        requires
            peaks.leaves_spec() <= usize::MAX / 32,
        ensures
            r.wf(),
            r.forest_spec() == peaks.leaves_spec(),
            r.peaks_spec() == peaks.peaks_spec(),
            r.nodes_spec() == Map::<usize, Seq<nat>>::empty(),
            !r.track_latest_spec(),
    {
        let r = Self::from_parts(peaks, Vec::new(), false);
        assert(r.nodes_spec() =~= Map::<usize, Seq<nat>>::empty());
        r
    }

    /// A partial range from its peaks, the nodes it knows and whether the latest
    /// leaf is tracked; a later entry for an index replaces an earlier one.
    pub fn from_parts(peaks: MmrPeaks, nodes: Vec<(InOrderIndex, RpoDigest)>, track_latest: bool) -> (r: Self)
        requires
            peaks.leaves_spec() <= usize::MAX / 32,
        ensures
            r.wf(),
            r.forest_spec() == peaks.leaves_spec(),
            r.peaks_spec() == peaks.peaks_spec(),
            r.nodes_spec() == entries_map(nodes@),
            r.track_latest_spec() == track_latest,
    {
        let forest = peaks.num_leaves();
        let (_, pv) = peaks.into_parts();
        let mut map: BTreeMap<usize, RpoDigest> = BTreeMap::new();
        let mut i: usize = 0;
        while i < nodes.len()
            invariant
                i <= nodes@.len(),
                forall|k: usize| map@.contains_key(k) ==> k > 0,
                Map::new(|k: usize| map@.contains_key(k), |k: usize| map@[k]@) == entries_map(nodes@.take(i as int)),
            decreases nodes@.len() - i,
        {
            let (idx, d) = nodes[i];
            idx.check_bounds();
            proof {
                assert(nodes@.take(i + 1).drop_last() =~= nodes@.take(i as int));
            }
            map.insert(idx.inner() as usize, d);
            i = i + 1;
            proof {
                assert(Map::new(|k: usize| map@.contains_key(k), |k: usize| map@[k]@)
                    =~= entries_map(nodes@.take(i as int)));
            }
        }
        assert(nodes@.take(nodes@.len() as int) =~= nodes@);
        PartialMmr { forest, peaks: pv, nodes: map, track_latest }
    }

    /// The number of leaves.
    pub fn forest(&self) -> (r: usize)
        ensures
            r == self.forest_spec(),
    {
        self.forest
    }

    /// Whether the latest leaf, when it is a tree of its own, is tracked.
    pub fn track_latest(&self) -> (r: bool)
        ensures
            r == self.track_latest_spec(),
    {
        self.track_latest
    }

    /// The number of leaves.
    pub fn num_leaves(&self) -> (r: usize)
        ensures
            r == self.forest_spec(),
    {
        self.forest
    }

    /// The peaks; there is one per set bit of the number of leaves.
    pub fn peaks(&self) -> (r: MmrPeaks)
        requires
            self.peaks_spec().len() == popcount(self.forest_spec()),
        ensures
            r.leaves_spec() == self.forest_spec(),
            r.peaks_spec() == self.peaks_spec(),
    {
        let copy = crate::merkle::tree::copy_digests(&self.peaks);
        MmrPeaks::new(self.forest, copy).unwrap()
    }

    /// Whether a known node has in-order index `i`.
    fn has_node(&self, i: InOrderIndex) -> (r: bool)
        ensures
            r == self.nodes_spec().dom().contains(i@ as usize),
    {
        i.check_bounds();
        self.nodes.contains_key(&(i.inner() as usize))
    }

    /// Whether the node at `node_index` is tracked.
    fn is_tracked_node(&self, node_index: InOrderIndex) -> (r: bool)
        requires
            index_in_range(node_index@),
        ensures
            r == tracked_node(self.nodes_spec(), node_index@),
    {
        proof { lemma_index_ops(node_index@); }
        if node_index.is_leaf() {
            self.has_node(node_index.sibling())
        } else {
            let left_child = node_index.left_child();
            let right_child = node_index.right_child();
            let has_left = self.has_node(left_child);
            let has_right = self.has_node(right_child);
            has_left || has_right
        }
    }

    /// Whether the leaf at `pos` is tracked.
    pub fn is_tracked(&self, pos: usize) -> (r: bool)
        requires
            self.wf(),
        ensures
            r == (pos < self.forest_spec() && if pos + 1 == self.forest_spec() && self.forest_spec() % 2 == 1 {
                self.track_latest_spec()
            } else {
                tracked_node(self.nodes_spec(), io_leaf(pos as nat))
            }),
    {
        if pos >= self.forest {
            return false;
        } else if pos == self.forest - 1 && (self.forest % 2) != 0 {
            return self.track_latest;
        }
        let leaf_index = InOrderIndex::from_leaf_pos(pos);
        self.is_tracked_node(leaf_index)
    }

    /// An opening of the leaf at `pos` from the known nodes, if they hold its
    /// whole path.
    pub fn open(&self, pos: usize) -> (r: Result<Option<MmrProof>, MmrError>)
        requires
            self.wf(),
        ensures
            pos >= self.forest_spec() ==> r == Err::<Option<MmrProof>, MmrError>(MmrError::PositionNotFound(pos)),
            pos < self.forest_spec() ==> (r is Ok),
            pos < self.forest_spec() ==> ((r matches Ok(Some(_))) <==> known_run(self.nodes_spec(), io_leaf(pos as nat), 64)
                == crate::merkle::mmr::opening::tree_of(pos as nat, self.forest_spec())),
            r matches Ok(Some(pr)) ==> pr.forest == self.forest_spec() && pr.position == pos
                && pr.merkle_path@.len() == crate::merkle::mmr::opening::tree_of(pos as nat, self.forest_spec())
                && forall|j: int| 0 <= j < pr.merkle_path@.len() ==> #[trigger] pr.merkle_path@[j]
                    == self.nodes_spec()[io_sibling(io_ancestor(io_leaf(pos as nat), j as nat)) as usize],
    {
        let tree_bit = match leaf_to_corresponding_tree(pos, self.forest) {
            Some(t) => t,
            None => return Err(MmrError::PositionNotFound(pos)),
        };
        let depth = tree_bit as usize;
        let mut nodes: Vec<RpoDigest> = Vec::new();
        let mut idx = InOrderIndex::from_leaf_pos(pos);
        loop
            invariant
                self.wf(),
                nodes@.len() <= 64,
                known_run(self.nodes_spec(), io_leaf(pos as nat), 64)
                    == nodes@.len() + known_run(self.nodes_spec(), idx@, (64 - nodes@.len()) as nat),
                tz(idx@) == nodes@.len(),
                idx@ == io_ancestor(io_leaf(pos as nat), nodes@.len()),
                forall|j: int| 0 <= j < nodes@.len() ==> #[trigger] nodes@[j]@
                    == self.nodes_spec()[io_sibling(io_ancestor(io_leaf(pos as nat), j as nat)) as usize],
            ensures
                known_run(self.nodes_spec(), io_leaf(pos as nat), 64) == nodes@.len(),
                forall|j: int| 0 <= j < nodes@.len() ==> #[trigger] nodes@[j]@
                    == self.nodes_spec()[io_sibling(io_ancestor(io_leaf(pos as nat), j as nat)) as usize],
            decreases 64 - nodes@.len(),
        {
            if !index_in_range_exec(idx) || nodes.len() >= 64 {
                break;
            }
            proof { lemma_index_ops(idx@); }
            let sib = idx.sibling();
            sib.check_bounds();
            proof {
                assert(self.nodes_spec().contains_key(sib@ as usize) == self.nodes@.contains_key(sib@ as usize));
            }
            match self.nodes.get(&(sib.inner() as usize)) {
                Some(node) => {
                    nodes.push(*node);
                    idx = idx.parent();
                },
                None => break,
            }
        }
        if nodes.len() == depth {
            Ok(Some(MmrProof { forest: self.forest, position: pos, merkle_path: MerklePath::new(nodes) }))
        } else {
            Ok(None)
        }
    }

    /// Adds a leaf, merging the trees it completes; when `track` holds, or the
    /// tree it joins is tracked, records the nodes needed to open it. Gives back
    /// the nodes recorded.
    pub fn add(&mut self, leaf: RpoDigest, track: bool) -> (r: Vec<(InOrderIndex, RpoDigest)>)
        requires
            old(self).wf(),
            old(self).forest_spec() + 1 <= usize::MAX / 32,
            old(self).peaks_spec().len() == popcount(old(self).forest_spec()),
        ensures
            final(self).wf(),
            final(self).forest_spec() == old(self).forest_spec() + 1,
            final(self).peaks_spec() == old(self).peaks_spec().take(
                old(self).peaks_spec().len() - tz(old(self).forest_spec() + 1)).push(
                merge_chain(old(self).peaks_spec(), leaf@, tz(old(self).forest_spec() + 1))),
            final(self).peaks_spec().len() == popcount(final(self).forest_spec()),
            final(self).nodes_spec() == apply_entries(old(self).nodes_spec(), r@),
            final(self).track_latest_spec() == if tz(old(self).forest_spec() + 1) == 0 { track } else {
                old(self).track_latest_spec() },
            r@.map_values(|e: (InOrderIndex, RpoDigest)| entry_view(e)) == add_steps(old(self).nodes_spec(), Seq::empty(),
                old(self).peaks_spec(), leaf@, old(self).forest_spec() + 1, 0, tz(old(self).forest_spec() + 1), track,
                old(self).track_latest_spec()),
    {
        let ghost old_peaks = digests_view(self.peaks@);
        let ghost old_nodes = self.nodes_spec();
        let ghost len = old_peaks.len();
        self.forest = self.forest + 1;
        let ghost f1 = self.forest as nat;
        let ghost target = add_steps(old_nodes, Seq::empty(), old_peaks, leaf@, f1, 0, tz(f1), track,
            old(self).track_latest);
        proof {
            lemma_add_one_popcount((f1 - 1) as nat);
        }
        let merges = trailing_zeros(self.forest) as usize;
        let mut new_nodes: Vec<(InOrderIndex, RpoDigest)> = Vec::new();
        proof {
            assert(digests_view(self.peaks@) =~= old_peaks.take(len - 0));
            assert(self.nodes_spec() =~= apply_entries(old_nodes, new_nodes@));
        }
        let peak = if merges == 0 {
            self.track_latest = track;
            leaf
        } else {
            let mut track_right = track;
            let mut track_left = self.track_latest;
            let mut right = leaf;
            let mut right_idx = forest_to_rightmost_index(self.forest);
            proof {
                crate::merkle::mmr::layout::lemma_layout_len(Seq::empty(), f1);
                vstd::arithmetic::power2::lemma2_to64();
                assert(new_nodes@.map_values(|e: (InOrderIndex, RpoDigest)| entry_view(e)) =~= Seq::empty());
            }
            let mut j: usize = 0;
            while j < merges
                invariant
                    f1 == self.forest,
                    f1 <= usize::MAX / 32,
                    merges == tz(f1),
                    j <= merges,
                    len >= merges,
                    len == old_peaks.len(),
                    digests_view(self.peaks@) == old_peaks.take(len - j),
                    right@ == merge_chain(old_peaks, leaf@, j as nat),
                    right_idx@ == 2 * f1 - pow2(j as nat),
                    2 * f1 >= pow2(j as nat),
                    self.nodes_spec() == apply_entries(old_nodes, new_nodes@),
                    forall|k: usize| self.nodes@.contains_key(k) ==> k > 0,
                    self.track_latest == old(self).track_latest,
                    add_steps(self.nodes_spec(), new_nodes@.map_values(|e: (InOrderIndex, RpoDigest)| entry_view(e)),
                        old_peaks, leaf@, f1, j as nat, merges as nat, track_right, track_left) == target,
                decreases merges - j,
            {
                proof {
                    vstd::arithmetic::power2::lemma_pow2_pos(j as nat);
                    lemma_rightmost_chain(f1, j as nat);
                    vstd::arithmetic::power2::lemma_pow2_unfold(j as nat + 1);
                    lemma_index_ops(right_idx@);
                }
                let ghost pv = digests_view(self.peaks@);
                assert(self.peaks@.len() == pv.len());
                let left = self.peaks.pop().unwrap();
                proof {
                    assert(left@ == pv[pv.len() - 1]);
                    assert(digests_view(self.peaks@) =~= old_peaks.take(len - (j + 1)));
                }
                let left_idx = right_idx.sibling();
                left_idx.check_bounds();
                let ghost m0 = self.nodes_spec();
                let ghost ev0 = new_nodes@.map_values(|e: (InOrderIndex, RpoDigest)| entry_view(e));
                let ghost tr0 = track_right;
                let ghost tl0 = track_left;
                let ghost j0 = j as nat;
                let ghost ri0 = right_idx@;
                let ghost rv0 = right@;
                if track_right {
                    let ghost before = self.nodes_spec();
                    let ghost nb = new_nodes@;
                    self.nodes.insert(left_idx.inner() as usize, left);
                    new_nodes.push((left_idx, left));
                    proof {
                        assert(self.nodes_spec() =~= before.insert(left_idx@ as usize, left@));
                        assert(new_nodes@.drop_last() =~= nb);
                        assert(new_nodes@.last() == (left_idx, left));
                        assert(apply_entries(old_nodes, new_nodes@) == apply_entries(old_nodes, nb).insert(left_idx@ as usize, left@));
                        assert(new_nodes@.map_values(|e: (InOrderIndex, RpoDigest)| entry_view(e)) =~=
                            nb.map_values(|e: (InOrderIndex, RpoDigest)| entry_view(e)).push((left_idx@, left@)));
                    }
                }
                assert(self.nodes_spec() == apply_entries(old_nodes, new_nodes@));
                right_idx.check_bounds();
                if track_left {
                    let ghost before = self.nodes_spec();
                    let ghost nb = new_nodes@;
                    self.nodes.insert(right_idx.inner() as usize, right);
                    new_nodes.push((right_idx, right));
                    proof {
                        assert(self.nodes_spec() =~= before.insert(right_idx@ as usize, right@));
                        assert(new_nodes@.drop_last() =~= nb);
                        assert(new_nodes@.map_values(|e: (InOrderIndex, RpoDigest)| entry_view(e)) =~=
                            nb.map_values(|e: (InOrderIndex, RpoDigest)| entry_view(e)).push((right_idx@, right@)));
                    }
                }
                right_idx = right_idx.parent();
                let ghost prev = right@;
                right = Rpo256::merge(&[left, right]);
                track_right = track_right || track_left;
                proof {
                    lemma_index_ops(right_idx@);
                    lemma_index_ops(io_parent(right_idx@));
                }
                let sib = right_idx.sibling();
                track_left = self.is_tracked_node(sib);
                j = j + 1;
                proof {
                    assert(right@ == merge_digest(left@, prev));
                    assert(old_peaks[old_peaks.len() - (j as nat)] == left@);
                    assert(old_peaks[old_peaks.len() - 1 - j0] == left@);
                    assert(left_idx@ == io_sibling(ri0));
                    assert(sib@ == io_sibling(io_parent(ri0)));
                    assert(add_steps(m0, ev0, old_peaks, leaf@, f1, j0, merges as nat, tr0, tl0)
                        == add_steps(self.nodes_spec(), new_nodes@.map_values(|e: (InOrderIndex, RpoDigest)| entry_view(e)),
                            old_peaks, leaf@, f1, j as nat, merges as nat, track_right, track_left));
                }
            }
            right
        };
        let ghost pv = digests_view(self.peaks@);
        self.peaks.push(peak);
        proof {
            assert(digests_view(self.peaks@) =~= pv.push(peak@));
        }
        new_nodes
    }

    /// Records the path of the leaf at `leaf_pos`, once it is checked against the
    /// peak of the tree of the path's depth.
    pub fn track(&mut self, leaf_pos: usize, leaf: RpoDigest, path: &MerklePath) -> (r: Result<(), MmrError>)
        requires
            old(self).wf(),
            old(self).peaks_spec().len() == popcount(old(self).forest_spec()),
        ensures
            final(self).wf(),
            final(self).forest_spec() == old(self).forest_spec(),
            final(self).peaks_spec() == old(self).peaks_spec(),
            (path@.len() >= 64 || (old(self).forest_spec() / pow2(path@.len())) % 2 == 0)
                ==> r == Err::<(), MmrError>(MmrError::UnknownPeak(path@.len() as u8)),
            r is Err ==> final(self).nodes_spec() == old(self).nodes_spec()
                && final(self).track_latest_spec() == old(self).track_latest_spec(),
            !unknown_peak(old(self).forest_spec(), path@.len()) ==> ((r is Ok) <==> (
                latest_leaf_is(old(self).forest_spec(), old(self).peaks_spec(), leaf_pos as nat, leaf@, path@.len())
                || path_meets_peak(old(self).forest_spec(), old(self).peaks_spec(), leaf_pos as nat, leaf@, path@))),
            !unknown_peak(old(self).forest_spec(), path@.len())
                && latest_leaf_is(old(self).forest_spec(), old(self).peaks_spec(), leaf_pos as nat, leaf@, path@.len())
                ==> final(self).track_latest_spec() && final(self).nodes_spec() == old(self).nodes_spec(),
            !unknown_peak(old(self).forest_spec(), path@.len())
                && !latest_leaf_is(old(self).forest_spec(), old(self).peaks_spec(), leaf_pos as nat, leaf@, path@.len())
                && path_meets_peak(old(self).forest_spec(), old(self).peaks_spec(), leaf_pos as nat, leaf@, path@)
                ==> final(self).track_latest_spec() == old(self).track_latest_spec()
                && leaf_pos < old(self).forest_spec()
                && final(self).nodes_spec() == track_entries(old(self).nodes_spec(), path@, io_leaf(leaf_pos as nat), 0)
                && (path@.len() > 0 ==> tracked_node(final(self).nodes_spec(), io_leaf(leaf_pos as nat))),
            r is Ok ==> forall|k: usize| old(self).nodes_spec().dom().contains(k) ==> #[trigger] final(self).nodes_spec().dom().contains(k),
            r matches Err(e) ==> (e is UnknownPeak || e is MerkleRootComputationFailed || e is PeakPathMismatch),
    {
        let depth = path.depth();
        let ghost d = depth as nat;
        if depth >= 64 {
            return Err(MmrError::UnknownPeak(depth));
        }
        proof {
            vstd::bits::lemma_u64_shr_is_div(self.forest as u64, depth as u64);
        }
        if ((self.forest as u64) >> (depth as u64)) % 2 == 0 {
            return Err(MmrError::UnknownPeak(depth));
        }
        let ghost f = self.forest as nat;
        let ghost q = f / pow2(d);
        proof {
            vstd::arithmetic::power2::lemma_pow2_pos(d);
            vstd::arithmetic::div_mod::lemma_fundamental_div_mod(f as int, pow2(d) as int);
            crate::merkle::mmr::lemma_popcount_pos(q);
        }
        if leaf_pos < self.forest && leaf_pos + 1 == self.forest && depth == 0 {
            proof {
                crate::merkle::mmr::lemma_popcount_pos(f);
            }
            let last = self.peaks.len() - 1;
            if self.peaks[last] == leaf {
                self.track_latest = true;
                return Ok(());
            }
        }
        let target_forest = crate::merkle::mmr::opening::clear_low_bits(self.forest, depth as u32);
        let start = crate::merkle::mmr::opening::clear_low_bits(self.forest, depth as u32 + 1);
        proof {
            assert(target_forest == q * pow2(d));
            crate::merkle::mmr::lemma_popcount_split(target_forest as nat, d);
            crate::merkle::mmr::lemma_popcount_split(f, d);
            vstd::arithmetic::div_mod::lemma_fundamental_div_mod_converse(target_forest as int, pow2(d) as int, q as int, 0);
            assert(q * pow2(d) >= pow2(d)) by (nonlinear_arith)
                requires
                    q >= 1,
                    pow2(d) > 0,
            ;
            assert(popcount(0) == 0);
            crate::merkle::mmr::lemma_popcount_pos(target_forest as nat);
        }
        let peak_pos = (count_ones(target_forest) - 1) as usize;
        let path_idx = leaf_pos.wrapping_sub(start);
        let computed = match path.compute_root(path_idx as u64, leaf) {
            Ok(c) => c,
            Err(e) => return Err(MmrError::MerkleRootComputationFailed(e)),
        };
        if self.peaks[peak_pos] != computed {
            return Err(MmrError::PeakPathMismatch);
        }
        let nodes = path.to_vec();
        proof {
            let h = q / 2;
            vstd::arithmetic::power2::lemma_pow2_unfold(d + 1);
            vstd::arithmetic::div_mod::lemma_div_denominator(f as int, pow2(d) as int, 2);
            vstd::arithmetic::div_mod::lemma_fundamental_div_mod(q as int, 2);
            vstd::arithmetic::div_mod::lemma_mod_pos_bound(f as int, pow2(d) as int);
            assert(pow2(d) <= f);
            if d >= 59 {
                vstd::arithmetic::power2::lemma2_to64_rest();
                if d > 59 {
                    vstd::arithmetic::power2::lemma_pow2_strictly_increases(59, d);
                }
                assert(pow2(59) == 0x800_0000_0000_0000);
                assert(f <= usize::MAX / 32);
                assert(usize::MAX <= 0xffff_ffff_ffff_ffff);
                assert(false);
            }
            assert(pow2(d + 1) == pow2(d) * 2);
            assert(f as int / (pow2(d) * 2) as int == h);
            assert(start == h * pow2(d + 1));
            assert(start + pow2(d) <= f) by (nonlinear_arith)
                requires
                    start == h * pow2(d + 1),
                    pow2(d + 1) == 2 * pow2(d),
                    q == 2 * h + 1,
                    f == pow2(d) * q + f % pow2(d),
                    f % pow2(d) >= 0,
            ;
            assert(path_idx as nat == wrap_sub(leaf_pos as nat, start as nat));
            assert(leaf_pos < f);
        }
        let mut idx = InOrderIndex::from_leaf_pos(leaf_pos);
        let mut i: usize = 0;
        let ghost old_nodes = self.nodes_spec();
        let ghost target = track_entries(old_nodes, path@, io_leaf(leaf_pos as nat), 0);
        proof {
            lemma_index_ops(idx@);
        }
        while i < nodes.len()
            invariant
                self.wf(),
                self.forest == f,
                idx@ > 0,
                i <= nodes@.len(),
                digests_view(nodes@) == path@,
                track_entries(self.nodes_spec(), path@, idx@, i as nat) == target,
                i > 0 ==> tracked_node(self.nodes_spec(), io_leaf(leaf_pos as nat)),
                i == 0 ==> idx@ == io_leaf(leaf_pos as nat),
                index_small(io_leaf(leaf_pos as nat)),
                self.track_latest == old(self).track_latest,
                digests_view(self.peaks@) == digests_view(old(self).peaks@),
                forall|k: usize| old_nodes.dom().contains(k) ==> #[trigger] self.nodes_spec().dom().contains(k),
            ensures
                self.wf(),
                self.forest == f,
                self.nodes_spec() == target,
                nodes@.len() > 0 ==> tracked_node(self.nodes_spec(), io_leaf(leaf_pos as nat)),
                self.track_latest == old(self).track_latest,
                digests_view(self.peaks@) == digests_view(old(self).peaks@),
                forall|k: usize| old_nodes.dom().contains(k) ==> #[trigger] self.nodes_spec().dom().contains(k),
            decreases nodes@.len() - i,
        {
            if !index_small_exec(idx) {
                proof {
                    if i == 0 {
                        assert(idx@ == io_leaf(leaf_pos as nat));
                    }
                }
                break;
            }
            proof {
                lemma_index_ops(idx@);
                lemma_index_ops(io_parent(idx@));
            }
            let sib = idx.sibling();
            sib.check_bounds();
            let ghost before = self.nodes_spec();
            self.nodes.insert(sib.inner() as usize, nodes[i]);
            proof {
                assert(self.nodes_spec() =~= before.insert(io_sibling(idx@) as usize, path@[i as int]));
                assert forall|k: usize| old_nodes.dom().contains(k) implies #[trigger] self.nodes_spec().dom().contains(k) by {
                    assert(before.dom().contains(k));
                }
                if i > 0 {
                    let lf = io_leaf(leaf_pos as nat);
                    let p = io_parent(lf);
                    let sl = if lf > p { io_left(p) } else { io_right(p) };
                    assert(before.dom().contains(sl as usize));
                }
            }
            idx = idx.parent();
            i = i + 1;
        }
        Ok(())
    }

    /// Forgets the path of the leaf at `leaf_pos`, up to the first node that is
    /// needed by another tracked leaf.
    pub fn untrack(&mut self, leaf_pos: usize)
        requires
            old(self).wf(),
            leaf_pos < usize::MAX / 16,
        ensures
            final(self).wf(),
            final(self).forest_spec() == old(self).forest_spec(),
            final(self).peaks_spec() == old(self).peaks_spec(),
            final(self).track_latest_spec() == old(self).track_latest_spec(),
            forall|k: usize| #[trigger] final(self).nodes_spec().dom().contains(k)
                ==> old(self).nodes_spec().dom().contains(k) && final(self).nodes_spec()[k] == old(self).nodes_spec()[k],
            final(self).nodes_spec() == untrack_from(
                old(self).nodes_spec().remove(io_sibling(io_leaf(leaf_pos as nat)) as usize), io_leaf(leaf_pos as nat)),
    {
        let ghost old_nodes = self.nodes_spec();
        let ghost target = untrack_from(old_nodes.remove(io_sibling(io_leaf(leaf_pos as nat)) as usize), io_leaf(leaf_pos as nat));
        let mut idx = InOrderIndex::from_leaf_pos(leaf_pos);
        proof {
            lemma_index_ops(idx@);
            lemma_index_ops(io_parent(idx@));
        }
        let sib = idx.sibling();
        sib.check_bounds();
        self.nodes.remove(&(sib.inner() as usize));
        proof {
            assert forall|k: usize| #[trigger] self.nodes_spec().dom().contains(k) implies
                old_nodes.dom().contains(k) && self.nodes_spec()[k] == old_nodes[k] by {}
            assert(self.nodes_spec() =~= old_nodes.remove(io_sibling(io_leaf(leaf_pos as nat)) as usize));
        }
        loop
            invariant
                self.wf(),
                untrack_from(self.nodes_spec(), idx@) == target,
                self.forest == old(self).forest,
                self.peaks@ == old(self).peaks@,
                self.track_latest == old(self).track_latest,
                idx@ > 0,
                forall|k: usize| #[trigger] self.nodes_spec().dom().contains(k)
                    ==> old_nodes.dom().contains(k) && self.nodes_spec()[k] == old_nodes[k],
            ensures
                self.wf(),
                self.nodes_spec() == target,
                self.forest == old(self).forest,
                self.peaks@ == old(self).peaks@,
                self.track_latest == old(self).track_latest,
                forall|k: usize| #[trigger] self.nodes_spec().dom().contains(k)
                    ==> old_nodes.dom().contains(k) && self.nodes_spec()[k] == old_nodes[k],
            decreases 64 - tz(idx@),
        {
            idx.check_bounds();
            proof {
                assert(self.nodes_spec().contains_key(idx@ as usize) == self.nodes@.contains_key(idx@ as usize));
            }
            if self.nodes.contains_key(&(idx.inner() as usize)) {
                break;
            }
            if !index_in_range_exec(idx) {
                break;
            }
            proof {
                lemma_index_ops(idx@);
                crate::merkle::mmr::in_order::lemma_parent_is_inner(idx@);
                lemma_tz_bound(idx@);
            }
            let p = idx.parent();
            if !index_small_exec(p) {
                break;
            }
            idx = p;
            proof {
                lemma_index_ops(idx@);
                lemma_index_ops(io_parent(idx@));
                lemma_tz_bound(idx@);
            }
            let s2 = idx.sibling();
            s2.check_bounds();
            let ghost before = self.nodes_spec();
            self.nodes.remove(&(s2.inner() as usize));
            proof {
                assert forall|k: usize| #[trigger] self.nodes_spec().dom().contains(k) implies
                    old_nodes.dom().contains(k) && self.nodes_spec()[k] == old_nodes[k] by {
                    assert(before.dom().contains(k));
                }
                assert(self.nodes_spec() =~= before.remove(io_sibling(idx@) as usize));
            }
        }
    }

    /// Brings the range up to the forest of `delta`, merging the trees that the
    /// new leaves complete and recording the nodes that tracked leaves need.
    /// Gives back the nodes recorded.
    pub fn apply(&mut self, delta: MmrDelta) -> (r: Result<Vec<(InOrderIndex, RpoDigest)>, MmrError>)
        requires
            old(self).wf(),
            delta.forest <= usize::MAX / 32,
        ensures
            final(self).wf(),
            delta.forest < old(self).forest_spec() ==> (r matches Err(e) && e is InvalidPeaks),
            delta.forest == old(self).forest_spec() && delta.data@.len() > 0 ==> r == Err::<Vec<(InOrderIndex, RpoDigest)>, MmrError>(MmrError::InvalidUpdate),
            delta.forest == old(self).forest_spec() && delta.data@.len() == 0 ==> (r matches Ok(v) && v@.len() == 0),
            delta.forest <= old(self).forest_spec() ==> final(self).forest_spec() == old(self).forest_spec()
                && final(self).peaks_spec() == old(self).peaks_spec() && final(self).nodes_spec() == old(self).nodes_spec(),
            r is Ok ==> final(self).forest_spec() == delta.forest,
            delta.forest > old(self).forest_spec() ==> match apply_outcome(old(self).forest_spec() as usize, old(self).peaks_spec(),
                old(self).nodes_spec(), old(self).track_latest_spec(), delta.forest, digests_view(delta.data@)) {
                None => r == Err::<Vec<(InOrderIndex, RpoDigest)>, MmrError>(MmrError::InvalidUpdate),
                Some((p, n, acc)) => {
                    &&& r matches Ok(v) && v@.map_values(|e: (InOrderIndex, RpoDigest)| entry_view(e)) == acc
                    &&& final(self).peaks_spec() == p
                    &&& final(self).nodes_spec() == n
                    &&& final(self).track_latest_spec() == (apply_merge_bits(old(self).forest_spec() as usize, delta.forest) == 0
                        && old(self).track_latest_spec())
                },
            },
    {
        if delta.forest < self.forest {
            return Err(MmrError::InvalidPeaks(delta_forest_message(delta.forest, self.forest)));
        }
        let mut inserted_nodes: Vec<(InOrderIndex, RpoDigest)> = Vec::new();
        if delta.forest == self.forest {
            if delta.data.len() != 0 {
                return Err(MmrError::InvalidUpdate);
            }
            return Ok(inserted_nodes);
        }
        let cur = self.forest;
        let dfo = delta.forest;
        let changes = cur ^ dfo;
        assert(changes != 0) by (bit_vector)
            requires
                changes == cur ^ dfo,
                cur != dfo,
        ;
        let ghost old_peaks = digests_view(self.peaks@);
        let ghost old_nodes = self.nodes_spec();
        let ghost data = digests_view(delta.data@);
        let ghost outcome = apply_outcome(cur, old_peaks, old_nodes, self.track_latest, dfo, data);
        assert(outcome == apply_outcome(old(self).forest_spec() as usize, old(self).peaks_spec(), old(self).nodes_spec(),
            old(self).track_latest_spec(), delta.forest, digests_view(delta.data@)));
        let hb = crate::merkle::mmr::ilog2_exec(changes as u64);
        proof {
            crate::merkle::mmr::layout::lemma_ilog2_bounds(changes as nat);
        }
        let largest = crate::merkle::mmr::in_order::pow2_usize(hb);
        assert(largest == apply_largest(cur, dfo));
        assert(largest != 0 && largest & ((largest - 1) as usize) == 0) by {
            vstd::arithmetic::power2::lemma_pow2_pos(hb as nat);
            crate::merkle::mmr::layout::lemma_pow2_bits(hb as nat);
            let x = largest as u64;
            assert((largest & ((largest - 1) as usize)) as u64 == x & ((x - 1) as u64));
        }
        let merges = cur & (largest - 1);
        assert(merges < largest && merges <= cur) by (bit_vector)
            requires
                merges == cur & ((largest - 1) as usize),
                largest != 0,
                largest & ((largest - 1) as usize) == 0,
        ;
        let mut merge_count: u32 = 0;
        let new_peaks: usize;
        if merges == 0 {
            new_peaks = changes;
        } else {
            let depth = trailing_zeros(largest);
            let skipped = trailing_zeros(merges);
            proof {
                crate::merkle::mmr::lemma_popcount_pos(merges as nat);
            }
            let computed = count_ones(merges) - 1;
            if depth >= skipped && depth - skipped >= computed {
                merge_count = depth - skipped - computed;
            } else {
                return Err(MmrError::InvalidUpdate);
            }
            new_peaks = delta.forest & (largest - 1);
        }
        let expected = merge_count as u64 + count_ones(new_peaks) as u64;
        let data_len = #[verifier::truncate] (delta.data.len() as u32);
        proof {
            assert(data.len() == delta.data@.len());
        }
        if data_len as u64 != expected {
            return Err(MmrError::InvalidUpdate);
        }
        let mut update_count: usize = 0;
        let ghost mut steps: Option<(Map<usize, Seq<nat>>, Seq<(nat, Seq<nat>)>, nat, Seq<nat>, nat)> = None;
        if merges != 0 {
            let mut peak_idx = forest_to_root_index(self.forest);
            peak_idx.check_bounds();
            reverse_digests(&mut self.peaks);
            let mut track = self.track_latest;
            self.track_latest = false;
            let mut peak_count: usize = 0;
            let mut target = merges & !(merges - 1);
            assert(target != 0 && target & ((target - 1) as usize) == 0 && target <= merges) by (bit_vector)
                requires
                    target == merges & !((merges - 1) as usize),
                    merges != 0,
            ;
            if delta.data.len() == 0 {
                return Err(MmrError::InvalidUpdate);
            }
            let mut new = delta.data[0];
            update_count = 1;
            let ghost rpeaks = old_peaks.reverse();
            proof {
                assert(digests_view(self.peaks@) =~= rpeaks);
                assert(inserted_nodes@.map_values(|e: (InOrderIndex, RpoDigest)| entry_view(e)) =~= Seq::<(nat, Seq<nat>)>::empty());
                assert(self.nodes_spec() == old_nodes);
                steps = apply_merges(old_nodes, Seq::empty(), rpeaks, data, merges, largest, 0, data[0], 1, peak_idx@,
                    old(self).track_latest, target);
                assert(outcome == match steps {
                    None => None,
                    Some((m, acc, pc, nw, uc)) => if pc > old_peaks.len() {
                        None
                    } else {
                        Some((old_peaks.take(old_peaks.len() - pc).push(nw) + data.skip(uc as int), m, acc))
                    },
                });
            }
            while target < largest
                invariant
                    self.wf(),
                    cur == old(self).forest,
                    dfo == delta.forest,
                    cur < dfo,
                    largest != 0,
                    largest & ((largest - 1) as usize) == 0,
                    target != 0,
                    target & ((target - 1) as usize) == 0,
                    target <= largest,
                    peak_idx@ > 0,
                    digests_view(self.peaks@) == rpeaks,
                    self.peaks@ == old(self).peaks@.reverse(),
                    data == digests_view(delta.data@),
                    update_count <= delta.data@.len(),
                    old_peaks == digests_view(old(self).peaks@),
                    outcome == apply_outcome(old(self).forest_spec() as usize, old(self).peaks_spec(), old(self).nodes_spec(),
                        old(self).track_latest_spec(), delta.forest, digests_view(delta.data@)),
                    outcome == match steps {
                        None => None,
                        Some((m, acc, pc, nw, uc)) => if pc > old_peaks.len() {
                            None
                        } else {
                            Some((old_peaks.take(old_peaks.len() - pc).push(nw) + data.skip(uc as int), m, acc))
                        },
                    },
                    self.forest == old(self).forest,
                    !self.track_latest,
                    apply_merges(self.nodes_spec(), inserted_nodes@.map_values(|e: (InOrderIndex, RpoDigest)| entry_view(e)),
                        rpeaks, data, merges, largest, peak_count as nat, new@, update_count as nat, peak_idx@, track, target)
                        == steps,
                decreases largest - target,
            {
                assert(target * 2 <= largest && ((target * 2) as usize) & ((target * 2 - 1) as usize) == 0 && target * 2 != 0) by (bit_vector)
                    requires
                        target < largest,
                        target != 0,
                        target & ((target - 1) as usize) == 0,
                        largest & ((largest - 1) as usize) == 0,
                ;
                let ghost m0 = self.nodes_spec();
                let ghost acc0 = inserted_nodes@.map_values(|e: (InOrderIndex, RpoDigest)| entry_view(e));
                let ghost pc0 = peak_count as nat;
                let ghost new0 = new@;
                let ghost uc0 = update_count as nat;
                let ghost idx0 = peak_idx@;
                let ghost track0 = track;
                let ghost t0 = target;
                if !index_small_exec(peak_idx) {
                    proof {
                        assert(apply_merges(m0, acc0, rpeaks, data, merges, largest, pc0, new0, uc0, idx0, track0, t0) is None);
                    }
                    return Err(MmrError::InvalidUpdate);
                }
                proof {
                    lemma_index_ops(peak_idx@);
                    lemma_index_ops(io_parent(peak_idx@));
                }
                if target != 1 && !track {
                    track = self.is_tracked_node(peak_idx);
                }
                let left: RpoDigest;
                let right: RpoDigest;
                if (target & merges) == 0 {
                    if update_count >= delta.data.len() {
                        proof {
                            assert(apply_merges(m0, acc0, rpeaks, data, merges, largest, pc0, new0, uc0, idx0, track0, t0) is None);
                        }
                        return Err(MmrError::InvalidUpdate);
                    }
                    let update = delta.data[update_count];
                    update_count = update_count + 1;
                    left = new;
                    right = update;
                    proof {
                        assert(right@ == data[uc0 as int]);
                    }
                } else {
                    if peak_count >= self.peaks.len() {
                        proof {
                            assert(apply_merges(m0, acc0, rpeaks, data, merges, largest, pc0, new0, uc0, idx0, track0, t0) is None);
                        }
                        return Err(MmrError::InvalidUpdate);
                    }
                    let peak = self.peaks[peak_count];
                    let sibling_idx = peak_idx.sibling();
                    proof {
                        lemma_index_ops(io_parent(peak_idx@));
                    }
                    assert(sibling_idx@ == io_sibling(idx0));
                    if self.is_tracked_node(sibling_idx) {
                        peak_idx.check_bounds();
                        let ghost nb = inserted_nodes@;
                        self.nodes.insert(peak_idx.inner() as usize, new);
                        inserted_nodes.push((peak_idx, new));
                        proof {
                            assert(self.nodes_spec() =~= m0.insert(idx0 as usize, new0));
                            assert(inserted_nodes@.map_values(|e: (InOrderIndex, RpoDigest)| entry_view(e)) =~= acc0.push((idx0, new0)));
                        }
                    }
                    peak_count = peak_count + 1;
                    left = peak;
                    right = new;
                    proof {
                        assert(left@ == rpeaks[pc0 as int]);
                    }
                }
                let ghost m1 = self.nodes_spec();
                let ghost acc1 = inserted_nodes@.map_values(|e: (InOrderIndex, RpoDigest)| entry_view(e));
                if track {
                    let sibling_idx = peak_idx.sibling();
                    sibling_idx.check_bounds();
                    assert(sibling_idx@ == io_sibling(idx0));
                    if peak_idx.is_left_child() {
                        self.nodes.insert(sibling_idx.inner() as usize, right);
                        inserted_nodes.push((sibling_idx, right));
                        proof {
                            assert(self.nodes_spec() =~= m1.insert(io_sibling(idx0) as usize, right@));
                            assert(inserted_nodes@.map_values(|e: (InOrderIndex, RpoDigest)| entry_view(e)) =~= acc1.push((io_sibling(idx0), right@)));
                        }
                    } else {
                        self.nodes.insert(sibling_idx.inner() as usize, left);
                        inserted_nodes.push((sibling_idx, left));
                        proof {
                            assert(self.nodes_spec() =~= m1.insert(io_sibling(idx0) as usize, left@));
                            assert(inserted_nodes@.map_values(|e: (InOrderIndex, RpoDigest)| entry_view(e)) =~= acc1.push((io_sibling(idx0), left@)));
                        }
                    }
                }
                peak_idx = peak_idx.parent();
                new = Rpo256::merge(&[left, right]);
                target = target * 2;
                proof {
                    assert(new@ == merge_digest(left@, right@));
                    assert(apply_merges(m0, acc0, rpeaks, data, merges, largest, pc0, new0, uc0, idx0, track0, t0)
                        == apply_merges(self.nodes_spec(), inserted_nodes@.map_values(|e: (InOrderIndex, RpoDigest)| entry_view(e)),
                            rpeaks, data, merges, largest, peak_count as nat, new@, update_count as nat, peak_idx@, track, target));
                }
            }
            proof {
                assert(steps == Some((self.nodes_spec(), inserted_nodes@.map_values(|e: (InOrderIndex, RpoDigest)| entry_view(e)),
                    peak_count as nat, new@, update_count as nat)));
                assert(old_peaks.len() == old(self).peaks@.len());
                assert(self.peaks@.len() == old(self).peaks@.len());
            }
            reverse_digests(&mut self.peaks);
            proof {
                assert(self.peaks@ =~= old(self).peaks@);
                assert(digests_view(self.peaks@) =~= old_peaks);
            }
            if peak_count > self.peaks.len() {
                return Err(MmrError::InvalidUpdate);
            }
            let keep = self.peaks.len() - peak_count;
            self.peaks.truncate(keep);
            self.peaks.push(new);
            proof {
                assert(digests_view(self.peaks@) =~= old_peaks.take(old_peaks.len() - peak_count).push(new@));
                assert(outcome == Some((old_peaks.take(old_peaks.len() - peak_count).push(new@) + data.skip(update_count as int),
                    self.nodes_spec(), inserted_nodes@.map_values(|e: (InOrderIndex, RpoDigest)| entry_view(e)))));
            }
        }
        let ghost base = digests_view(self.peaks@);
        let ghost nodes_after = self.nodes_spec();
        let ghost tl_after = self.track_latest;
        proof {
            assert(base + data.skip(update_count as int).take(0) =~= base);
        }
        let mut k = update_count;
        proof {
            if merges == 0 {
                assert(outcome == Some((old_peaks + data, old_nodes, Seq::<(nat, Seq<nat>)>::empty())));
                assert(data.skip(0) =~= data);
                assert(inserted_nodes@.map_values(|e: (InOrderIndex, RpoDigest)| entry_view(e)) =~= Seq::<(nat, Seq<nat>)>::empty());
            }
        }
        while k < delta.data.len()
            invariant
                self.wf(),
                update_count <= k <= delta.data@.len(),
                data == digests_view(delta.data@),
                digests_view(self.peaks@) == base + data.skip(update_count as int).take(k - update_count),
                self.nodes_spec() == nodes_after,
                self.track_latest == tl_after,
                self.forest == old(self).forest,
            decreases delta.data@.len() - k,
        {
            let ghost pv = digests_view(self.peaks@);
            self.peaks.push(delta.data[k]);
            k = k + 1;
            proof {
                assert(digests_view(self.peaks@) =~= pv.push(data[k - 1]));
                assert(data.skip(update_count as int).take(k - update_count) =~= data.skip(update_count as int).take(k - 1 - update_count).push(data[k - 1]));
                assert(digests_view(self.peaks@) =~= base + data.skip(update_count as int).take(k - update_count));
            }
        }
        proof {
            assert(data.skip(update_count as int).take(k - update_count) =~= data.skip(update_count as int));
            assert(outcome == Some((digests_view(self.peaks@), self.nodes_spec(),
                inserted_nodes@.map_values(|e: (InOrderIndex, RpoDigest)| entry_view(e)))));
        }
        self.forest = delta.forest;
        Ok(inserted_nodes)
    }

    /// The inner nodes that the known nodes and the given leaves let one compute,
    /// each with its two children; `leaves` lists leaf positions with their values.
    pub fn inner_nodes(&self, leaves: &[(usize, RpoDigest)]) -> (r: Vec<InnerNodeInfo>)
        requires
            self.wf(),
        ensures
            forall|i: int| 0 <= i < r@.len() ==> #[trigger] r@[i].value@ == merge_digest(r@[i].left@, r@[i].right@),
            r@.map_values(|i: InnerNodeInfo| info_view(i)) == inner_nodes_spec(self.nodes_spec(), leaves@),
    {
        let ghost nodes = self.nodes_spec();
        let ghost target = inner_nodes_spec(nodes, leaves@);
        let mut out: Vec<InnerNodeInfo> = Vec::new();
        let mut seen: std::collections::BTreeSet<usize> = std::collections::BTreeSet::new();
        let mut next: usize = 0;
        let mut current: Option<(InOrderIndex, RpoDigest)> = None;
        if next < leaves.len() {
            let (pos, leaf) = leaves[next];
            next = next + 1;
            if pos < usize::MAX / 32 {
                current = Some((InOrderIndex::from_leaf_pos(pos), leaf));
            }
        }
        proof {
            assert(out@.map_values(|i: InnerNodeInfo| info_view(i)) =~= Seq::<(Seq<nat>, Seq<nat>, Seq<nat>)>::empty());
            if leaves@.len() == 0 {
                assert(target =~= Seq::<(Seq<nat>, Seq<nat>, Seq<nat>)>::empty());
            }
            assert(seen@ =~= Set::<usize>::empty());
        }
        loop
            invariant
                self.wf(),
                nodes == self.nodes_spec(),
                next <= leaves@.len(),
                leaves@.len() > 0 ==> next > 0,
                forall|i: int| 0 <= i < out@.len() ==> #[trigger] out@[i].value@ == merge_digest(out@[i].left@, out@[i].right@),
                current matches Some(c) ==> c.0@ > 0 && tz(c.0@) < 64,
                current is Some ==> leaves@.len() > 0,
                out@.map_values(|i: InnerNodeInfo| info_view(i)) + (if leaves@.len() == 0 { Seq::empty() } else {
                    inner_from(nodes, leaves@, next as nat, cur_view(current), seen@) }) == target,
            ensures
                forall|i: int| 0 <= i < out@.len() ==> #[trigger] out@[i].value@ == merge_digest(out@[i].left@, out@[i].right@),
                out@.map_values(|i: InnerNodeInfo| info_view(i)) == target,
            decreases (leaves@.len() - next) * 65 + levels_left(current),
        {
            let ghost out0 = out@.map_values(|i: InnerNodeInfo| info_view(i));
            let ghost seen0 = seen@;
            let ghost next0 = next;
            let (idx, node) = match current {
                Some(c) => c,
                None => {
                    proof {
                        if leaves@.len() > 0 {
                            assert(inner_from(nodes, leaves@, next as nat, cur_view(current), seen@) =~= Seq::empty());
                        }
                        assert(out0 + Seq::<(Seq<nat>, Seq<nat>, Seq<nat>)>::empty() =~= out0);
                    }
                    break;
                },
            };
            proof {
                assert(leaves@.len() > 0);
            }
            let ghost rest = inner_from(nodes, leaves@, next as nat, Some((idx@, node@)), seen@);
            current = None;
            if index_small_exec(idx) {
                proof {
                    lemma_index_ops(idx@);
                    lemma_index_ops(io_parent(idx@));
                }
                let parent_idx = idx.parent();
                parent_idx.check_bounds();
                let new_node = seen.insert(parent_idx.inner() as usize);
                if new_node {
                    let sib = idx.sibling();
                    sib.check_bounds();
                    match self.nodes.get(&(sib.inner() as usize)) {
                        Some(sibling) => {
                            let is_left = parent_idx.left_child().inner() == idx.inner();
                            let left = if is_left { node } else { *sibling };
                            let right = if is_left { *sibling } else { node };
                            let parent = Rpo256::merge(&[left, right]);
                            let info = InnerNodeInfo { value: parent, left, right };
                            out.push(info);
                            proof {
                                lemma_tz_bound(parent_idx@);
                                assert(nodes.contains_key(io_sibling(idx@) as usize));
                                assert(nodes[io_sibling(idx@) as usize] == sibling@);
                                assert(rest == seq![info_view(info)] + inner_from(nodes, leaves@, next as nat,
                                    Some((parent_idx@, parent@)), seen@));
                                assert(out@.map_values(|i: InnerNodeInfo| info_view(i)) =~= out0.push(info_view(info)));
                                assert(out0.push(info_view(info)) + inner_from(nodes, leaves@, next as nat, Some((parent_idx@, parent@)), seen@)
                                    =~= out0 + rest);
                            }
                            current = Some((parent_idx, parent));
                            continue;
                        },
                        None => {
                            proof {
                                assert(!nodes.contains_key(io_sibling(idx@) as usize));
                            }
                        },
                    }
                }
            }
            let ghost seen2 = seen@;
            proof {
                assert(seen2 == if index_small(idx@) { seen0.insert(io_parent(idx@) as usize) } else { seen0 });
            }
            if next < leaves.len() {
                let (pos, leaf) = leaves[next];
                next = next + 1;
                if pos < usize::MAX / 32 {
                    proof {
                        vstd::arithmetic::power2::lemma2_to64();
                    }
                    current = Some((InOrderIndex::from_leaf_pos(pos), leaf));
                }
                proof {
                    assert(rest == inner_from(nodes, leaves@, next as nat, cur_view(current), seen@));
                }
            } else {
                proof {
                    assert(rest =~= Seq::empty());
                    assert(inner_from(nodes, leaves@, next as nat, cur_view(current), seen@) =~= Seq::empty());
                }
            }
        }
        out
    }

    /// The known nodes, each with its in-order index, each once.
    pub fn nodes(&self) -> (r: Vec<(InOrderIndex, RpoDigest)>)
        requires
            self.wf(),
        ensures
            r@.len() == self.nodes_spec().dom().len(),
            forall|j: int| 0 <= j < r@.len() ==> self.nodes_spec().dom().contains((#[trigger] r@[j]).0@ as usize)
                && self.nodes_spec()[r@[j].0@ as usize] == r@[j].1@,
            forall|j: int, l: int| 0 <= j < l < r@.len() ==> (#[trigger] r@[j]).0@ != (#[trigger] r@[l]).0@,
    {
        let keys = usize_map_keys(&self.nodes);
        let mut r: Vec<(InOrderIndex, RpoDigest)> = Vec::new();
        let mut i: usize = 0;
        while i < keys.len()
            invariant
                self.wf(),
                i <= keys@.len(),
                keys@.to_set() == self.nodes@.dom(),
                keys@.no_duplicates(),
                r@.len() == i,
                forall|j: int| 0 <= j < i ==> (#[trigger] r@[j]).0@ == keys@[j] && r@[j].1 == self.nodes@[keys@[j]],
                forall|j: int| 0 <= j < i ==> self.nodes@.contains_key(#[trigger] keys@[j]),
            decreases keys@.len() - i,
        {
            let k = keys[i];
            proof {
                assert(keys@.to_set().contains(keys@[i as int]));
            }
            r.push((InOrderIndex::new(k), *self.nodes.get(&k).unwrap()));
            i = i + 1;
        }
        proof {
            assert forall|j: int, l: int| 0 <= j < l < r@.len() implies (#[trigger] r@[j]).0@ != (#[trigger] r@[l]).0@ by {
                assert(keys@[j] != keys@[l]);
            }
            assert forall|j: int| 0 <= j < r@.len() implies self.nodes_spec().dom().contains((#[trigger] r@[j]).0@ as usize)
                && self.nodes_spec()[r@[j].0@ as usize] == r@[j].1@ by {
                assert(self.nodes@.contains_key(keys@[j]));
            }
            assert(keys@.len() == self.nodes@.dom().len());
            assert(self.nodes_spec().dom() =~= self.nodes@.dom());
        }
        r
    }
}

/// The map that a list of entries builds, later entries replacing earlier ones.
pub open spec fn entries_map(entries: Seq<(InOrderIndex, RpoDigest)>) -> Map<usize, Seq<nat>>
    decreases entries.len(),
{
    if entries.len() == 0 {
        Map::empty()
    } else {
        let last = entries.last();
        entries_map(entries.drop_last()).insert(last.0@ as usize, last.1@)
    }
}

/// The message of the error for a delta to a smaller forest.
#[verifier::external_body]
fn delta_forest_message(delta_forest: usize, current: usize) -> String {
    format!("forest of mmr delta {delta_forest} is less than current forest {current}")
}

/// The levels a pending node can still climb.
spec fn levels_left(c: Option<(InOrderIndex, RpoDigest)>) -> int {
    match c {
        Some(p) => 64 - tz(p.0@),
        None => 0,
    }
}

/// Reverses a list of digests in place.
fn reverse_digests(v: &mut Vec<RpoDigest>)
    ensures
        final(v)@ == old(v)@.reverse(),
{
    let n = v.len();
    let mut out: Vec<RpoDigest> = Vec::new();
    let mut j = n;
    while j > 0
        invariant
            j <= n,
            n == v@.len(),
            v@ == old(v)@,
            out@ == old(v)@.reverse().take((n - j) as int),
        decreases j,
    {
        j = j - 1;
        out.push(v[j]);
        assert(out@ =~= old(v)@.reverse().take((n - j) as int));
    }
    assert(out@ =~= old(v)@.reverse());
    *v = out;
}

/// Whether `i` is below a quarter of the machine word and positive.
fn index_in_range_exec(i: InOrderIndex) -> (r: bool)
    ensures
        r == index_in_range(i@),
{
    i.check_bounds();
    i.inner() < (usize::MAX / 4) as u64 && i.inner() > 0
}

/// Whether `i` is below a sixteenth of the machine word, so that its parent and
/// siblings are in range.
fn index_small_exec(i: InOrderIndex) -> (r: bool)
    ensures
        r == (i@ < usize::MAX / 16 && index_in_range(i@)),
{
    i.check_bounds();
    i.inner() < (usize::MAX / 16) as u64
}

/// The keys of a map of in-order indices, each once.
fn usize_map_keys(m: &BTreeMap<usize, RpoDigest>) -> (r: Vec<usize>)
    ensures
        r@.to_set() == m@.dom(),
        r@.no_duplicates(),
        r@.len() == m@.dom().len(),
{
    let mut r: Vec<usize> = Vec::new();
    for k in it: m.keys()
        invariant
            r@ == it.seq().unref().take(it.index() as int),
            it.seq().unref().to_set() == m@.dom(),
            it.seq().unref().no_duplicates(),
            it.seq().len() == m@.dom().len(),
            r@.len() == it.index(),
            r@.no_duplicates(),
            forall|x: usize| r@.contains(x) ==> m@.dom().contains(x),
    {
        proof {
            let s = it.seq().unref();
            assert(s[it.index() as int] == *k);
            assert(s.to_set().contains(s[it.index() as int]));
            assert forall|j: int| 0 <= j < r@.len() implies r@[j] != *k by {
                assert(r@[j] == s[j]);
            }
        }
        r.push(*k);
        assert(r@ =~= it.seq().unref().take(it.index() + 1));
    }
    proof {
        r@.unique_seq_to_set();
        assert(r@.to_set().subset_of(m@.dom()));
        vstd::set_lib::lemma_subset_equality(r@.to_set(), m@.dom());
    }
    r
}

} // verus!
