//! How a mountain range lays out its nodes: the trees, largest first, each in
//! post order (left subtree, right subtree, root).

use vstd::prelude::*;
use vstd::arithmetic::power2::pow2;
use crate::merkle::merge_digest;
use crate::merkle::path::path_node_at;
use crate::merkle::path::path_root;
use crate::merkle::mmr::opening::forest_above;
use crate::merkle::mmr::{ilog2, popcount, nodes_in_forest_spec, lemma_popcount_split};

verus! {

/// The root of the perfect tree over the first `2^h` of `leaves`.
pub open spec fn tree_root(leaves: Seq<Seq<nat>>, h: nat) -> Seq<nat>
    decreases h,
{
    if h == 0 {
        leaves[0]
    } else {
        let half = pow2((h - 1) as nat) as int;
        merge_digest(
            tree_root(leaves.take(half), (h - 1) as nat),
            tree_root(leaves.skip(half), (h - 1) as nat),
        )
    }
}

/// The nodes of the perfect tree over the first `2^h` of `leaves`, in post order.
pub open spec fn postorder(leaves: Seq<Seq<nat>>, h: nat) -> Seq<Seq<nat>>
    decreases h,
{
    if h == 0 {
        seq![leaves[0]]
    } else {
        let half = pow2((h - 1) as nat) as int;
        postorder(leaves.take(half), (h - 1) as nat) + postorder(leaves.skip(half), (h - 1) as nat)
            + seq![tree_root(leaves, h)]
    }
}

/// The nodes of the forest over the first `f` of `leaves`: one tree per set bit
/// of `f`, largest first.
pub open spec fn layout(leaves: Seq<Seq<nat>>, f: nat) -> Seq<Seq<nat>>
    decreases f,
{
    if f == 0 {
        seq![]
    } else {
        let t = ilog2(f);
        let s = pow2(t);
        if 0 < s <= f {
            postorder(leaves.take(s as int), t) + layout(leaves.skip(s as int), (f - s) as nat)
        } else {
            seq![]
        }
    }
}

/// The peaks of the forest over the first `f` of `leaves`, largest tree first.
pub open spec fn layout_peaks(leaves: Seq<Seq<nat>>, f: nat) -> Seq<Seq<nat>>
    decreases f,
{
    if f == 0 {
        seq![]
    } else {
        let t = ilog2(f);
        let s = pow2(t);
        if 0 < s <= f {
            seq![tree_root(leaves.take(s as int), t)] + layout_peaks(leaves.skip(s as int), (f - s) as nat)
        } else {
            seq![]
        }
    }
}

/// The leaves of the subtree of height `k` with index `q` (counted from the left).
pub open spec fn subtree(leaves: Seq<Seq<nat>>, k: nat, q: nat) -> Seq<Seq<nat>> {
    leaves.skip((q * pow2(k)) as int).take(pow2(k) as int)
}

/// The other child of the same parent.
pub open spec fn sibling_of(q: nat) -> nat {
    if q % 2 == 0 { q + 1 } else { (q - 1) as nat }
}

/// The siblings met on the way from leaf `p` up to the root of the tree of height
/// `h` over `leaves`, lowest first.
pub open spec fn tree_path(leaves: Seq<Seq<nat>>, h: nat, p: nat) -> Seq<Seq<nat>> {
    Seq::new(h, |k: int| tree_root(subtree(leaves, k as nat, sibling_of(p / pow2(k as nat))), k as nat))
}

/// `2^t <= n < 2^(t + 1)` pins down the highest bit of `n`.
pub proof fn lemma_ilog2_unique(n: nat, t: nat)
    requires
        pow2(t) <= n < pow2(t + 1),
    ensures
        ilog2(n) == t,
    decreases t,
{
    vstd::arithmetic::power2::lemma2_to64();
    vstd::arithmetic::power2::lemma_pow2_unfold(t + 1);
    if t > 0 {
        vstd::arithmetic::power2::lemma_pow2_unfold(t);
        lemma_ilog2_unique(n / 2, (t - 1) as nat);
    }
}

/// A positive number lies between the power of two of its highest bit and the next.
pub proof fn lemma_ilog2_bounds(n: nat)
    requires
        n > 0,
    ensures
        pow2(ilog2(n)) <= n < pow2(ilog2(n) + 1),
    decreases n,
{
    vstd::arithmetic::power2::lemma2_to64();
    if n > 1 {
        lemma_ilog2_bounds(n / 2);
        vstd::arithmetic::power2::lemma_pow2_unfold(ilog2(n) + 1);
        vstd::arithmetic::power2::lemma_pow2_unfold(ilog2(n));
    }
}

/// A post-order tree of height `h` has `2^(h + 1) - 1` nodes, the root last.
pub proof fn lemma_postorder_len(leaves: Seq<Seq<nat>>, h: nat)
    ensures
        postorder(leaves, h).len() == pow2(h + 1) - 1,
        postorder(leaves, h).last() == tree_root(leaves, h),
    decreases h,
{
    vstd::arithmetic::power2::lemma_pow2_unfold(h + 1);
    if h == 0 {
        vstd::arithmetic::power2::lemma2_to64();
    } else {
        let half = pow2((h - 1) as nat) as int;
        lemma_postorder_len(leaves.take(half), (h - 1) as nat);
        lemma_postorder_len(leaves.skip(half), (h - 1) as nat);
    }
}

/// The layout of `f` leaves reads only the first `f` of them.
pub proof fn lemma_layout_congr(a: Seq<Seq<nat>>, b: Seq<Seq<nat>>, f: nat)
    requires
        f <= a.len(),
        f <= b.len(),
        a.take(f as int) == b.take(f as int),
    ensures
        layout(a, f) == layout(b, f),
        layout_peaks(a, f) == layout_peaks(b, f),
    decreases f,
{
    if f > 0 {
        let t = ilog2(f);
        let s = pow2(t);
        lemma_ilog2_bounds(f);
        vstd::arithmetic::power2::lemma_pow2_pos(t);
        assert(a.take(s as int) =~= a.take(f as int).take(s as int));
        assert(b.take(s as int) =~= b.take(f as int).take(s as int));
        let r = (f - s) as nat;
        assert(a.skip(s as int).take(r as int) =~= a.take(f as int).skip(s as int));
        assert(b.skip(s as int).take(r as int) =~= b.take(f as int).skip(s as int));
        lemma_layout_congr(a.skip(s as int), b.skip(s as int), r);
    }
}

/// The layout of `f` leaves has `2f - popcount(f)` nodes.
pub proof fn lemma_layout_len(leaves: Seq<Seq<nat>>, f: nat)
    ensures
        layout(leaves, f).len() == nodes_in_forest_spec(f),
        layout_peaks(leaves, f).len() == popcount(f),
        popcount(f) <= f,
    decreases f,
{
    if f > 0 {
        let t = ilog2(f);
        let s = pow2(t);
        lemma_ilog2_bounds(f);
        lemma_postorder_len(leaves.take(s as int), t);
        vstd::arithmetic::power2::lemma_pow2_unfold(t + 1);
        lemma_layout_len(leaves.skip(s as int), (f - s) as nat);
        lemma_popcount_split(f, t);
        vstd::arithmetic::power2::lemma_pow2_pos(t);
        vstd::arithmetic::div_mod::lemma_fundamental_div_mod(f as int, s as int);
        vstd::arithmetic::div_mod::lemma_mod_pos_bound(f as int, s as int);
        assert(f / s == 1) by {
            vstd::arithmetic::div_mod::lemma_div_is_ordered(s as int, f as int, s as int);
            vstd::arithmetic::div_mod::lemma_div_by_self(s as int);
            if f / s >= 2 {
                assert(s * (f / s) >= s * 2) by (nonlinear_arith)
                    requires
                        f / s >= 2,
                        s > 0,
                ;
            }
        }
        assert(popcount(1) == 1) by {
            reveal_with_fuel(popcount, 2);
        }
        let q = f / s;
        assert(s * q == s) by (nonlinear_arith)
            requires
                q == 1,
        ;
        assert(f % s == f - s);
        assert(popcount(f) == popcount((f - s) as nat) + 1);
        assert(pow2(t + 1) == 2 * s);
    } else {
        assert(popcount(0) == 0);
    }
}

/// A power of two divides every larger power of two.
pub proof fn lemma_pow2_divides(j: nat, t: nat)
    requires
        j <= t,
    ensures
        pow2(t) % pow2(j) == 0,
        pow2(j) <= pow2(t),
        pow2(j) > 0,
{
    vstd::arithmetic::power2::lemma_pow2_pos(j);
    vstd::arithmetic::power2::lemma_pow2_adds(j, (t - j) as nat);
    assert(j + (t - j) as nat == t);
    vstd::arithmetic::div_mod::lemma_mod_multiples_basic(pow2((t - j) as nat) as int, pow2(j) as int);
    assert(pow2((t - j) as nat) * pow2(j) == pow2(j) * pow2((t - j) as nat)) by (nonlinear_arith);
    if j < t {
        vstd::arithmetic::power2::lemma_pow2_strictly_increases(j, t);
    }
}

/// Two multiples of `m` differ by `m` at least, and their difference is a multiple.
pub proof fn lemma_multiples_gap(x: nat, y: nat, m: nat)
    requires
        m > 0,
        x % m == 0,
        y % m == 0,
        x <= y,
    ensures
        x < y ==> x + m <= y,
        ((y - x) as nat) % m == 0,
{
    vstd::arithmetic::div_mod::lemma_fundamental_div_mod(x as int, m as int);
    vstd::arithmetic::div_mod::lemma_fundamental_div_mod(y as int, m as int);
    let qx = x / m;
    let qy = y / m;
    assert(x == m * qx && y == m * qy);
    if qx > qy {
        assert(m * qx >= m * (qy + 1)) by (nonlinear_arith)
            requires
                qx >= qy + 1,
                m > 0,
        ;
    }
    if x < y {
        if qx >= qy {
            assert(m * qx >= m * qy) by (nonlinear_arith)
                requires
                    qx >= qy,
                    m > 0,
            ;
        }
        assert(m * qx + m <= m * qy) by (nonlinear_arith)
            requires
                qx + 1 <= qy,
                m > 0,
        ;
    }
    assert(y - x == (qy - qx) * m) by (nonlinear_arith)
        requires
            x == m * qx,
            y == m * qy,
    ;
    vstd::arithmetic::div_mod::lemma_mod_multiples_basic((qy - qx) as int, m as int);
}

/// When the low `k` bits of `f` are all set, bit `k` decides whether the
/// next multiple of `2^(k+1)` below `f + 1` is `f + 1 - 2^k` or `f + 1 - 2^(k+1)`.
pub proof fn lemma_low_ones(f: nat, k: nat)
    requires
        f % pow2(k) == pow2(k) - 1,
    ensures
        (f / pow2(k)) % 2 == 0 ==> ((f + 1 - pow2(k)) as nat) % pow2(k + 1) == 0,
        (f / pow2(k)) % 2 == 1 ==> f + 1 >= pow2(k + 1) && ((f + 1 - pow2(k + 1)) as nat) % pow2(k + 1) == 0,
        f + 1 >= pow2(k),
{
    vstd::arithmetic::power2::lemma_pow2_pos(k);
    vstd::arithmetic::power2::lemma_pow2_unfold(k + 1);
    let m = pow2(k);
    vstd::arithmetic::div_mod::lemma_fundamental_div_mod(f as int, m as int);
    let q = f / m;
    assert(f + 1 == m * q + m);
    vstd::arithmetic::div_mod::lemma_fundamental_div_mod(q as int, 2);
    let h = q / 2;
    if q % 2 == 0 {
        assert(f + 1 - m == h * (2 * m)) by (nonlinear_arith)
            requires
                f + 1 == m * q + m,
                q == 2 * h,
        ;
        vstd::arithmetic::div_mod::lemma_mod_multiples_basic(h as int, (2 * m) as int);
    } else {
        assert(f + 1 - 2 * m == h * (2 * m)) by (nonlinear_arith)
            requires
                f + 1 == m * q + m,
                q == 2 * h + 1,
        ;
        assert(h * (2 * m) >= 0) by (nonlinear_arith)
            requires
                m > 0,
        ;
        vstd::arithmetic::div_mod::lemma_mod_multiples_basic(h as int, (2 * m) as int);
    }
}

/// A forest whose trees are all larger than those of `b` and `b` side by side:
/// the layout of `a + b` leaves is that of the first `a`, then that of the next `b`.
pub proof fn lemma_layout_split(leaves: Seq<Seq<nat>>, a: nat, b: nat, k: nat)
    requires
        a % pow2(k) == 0,
        b < pow2(k),
        a + b <= leaves.len(),
    ensures
        layout(leaves, a + b) == layout(leaves, a) + layout(leaves.skip(a as int), b),
        layout_peaks(leaves, a + b) == layout_peaks(leaves, a) + layout_peaks(leaves.skip(a as int), b),
    decreases a,
{
    vstd::arithmetic::power2::lemma_pow2_pos(k);
    if a == 0 {
        assert(leaves.skip(0) =~= leaves);
        assert(layout(leaves, 0) =~= seq![]);
        assert(layout_peaks(leaves, 0) =~= seq![]);
        assert(layout(leaves, b) =~= layout(leaves, 0) + layout(leaves.skip(0), b));
        assert(layout_peaks(leaves, b) =~= layout_peaks(leaves, 0) + layout_peaks(leaves.skip(0), b));
    } else {
        let t = ilog2(a);
        let s = pow2(t);
        lemma_ilog2_bounds(a);
        vstd::arithmetic::div_mod::lemma_mod_is_zero(a, pow2(k));
        if t < k {
            vstd::arithmetic::power2::lemma_pow2_strictly_increases(t, k);
            if t + 1 < k {
                vstd::arithmetic::power2::lemma_pow2_strictly_increases(t + 1, k);
            }
            assert(false);
        }
        lemma_pow2_divides(k, t + 1);
        lemma_pow2_divides(k, t);
        lemma_multiples_gap(a, pow2(t + 1), pow2(k));
        lemma_ilog2_unique(a + b, t);
        let a1 = (a - s) as nat;
        lemma_multiples_gap(s, a, pow2(k));
        lemma_layout_split(leaves.skip(s as int), a1, b, k);
        assert(leaves.skip(s as int).skip(a1 as int) =~= leaves.skip(a as int));
        assert((a + b - s) as nat == a1 + b);
        assert(layout(leaves, a + b) =~= postorder(leaves.take(s as int), t) + layout(leaves.skip(s as int), a1 + b));
        assert(layout(leaves, a) =~= postorder(leaves.take(s as int), t) + layout(leaves.skip(s as int), a1));
        assert(layout_peaks(leaves, a + b) =~= seq![tree_root(leaves.take(s as int), t)] + layout_peaks(leaves.skip(s as int), a1 + b));
        assert(layout_peaks(leaves, a) =~= seq![tree_root(leaves.take(s as int), t)] + layout_peaks(leaves.skip(s as int), a1));
        assert(layout(leaves, a + b) =~= layout(leaves, a) + layout(leaves.skip(a as int), b));
        assert(layout_peaks(leaves, a + b) =~= layout_peaks(leaves, a) + layout_peaks(leaves.skip(a as int), b));
    }
}

/// The layout of a single full tree.
pub proof fn lemma_layout_pow2(leaves: Seq<Seq<nat>>, k: nat)
    requires
        pow2(k) <= leaves.len(),
    ensures
        layout(leaves, pow2(k)) == postorder(leaves.take(pow2(k) as int), k),
        layout_peaks(leaves, pow2(k)) == seq![tree_root(leaves.take(pow2(k) as int), k)],
{
    vstd::arithmetic::power2::lemma_pow2_pos(k);
    vstd::arithmetic::power2::lemma_pow2_unfold(k + 1);
    lemma_ilog2_unique(pow2(k), k);
    assert(layout(leaves.skip(pow2(k) as int), 0) =~= seq![]);
    assert(layout_peaks(leaves.skip(pow2(k) as int), 0) =~= seq![]);
    assert(layout(leaves, pow2(k)) =~= postorder(leaves.take(pow2(k) as int), k));
    assert(layout_peaks(leaves, pow2(k)) =~= seq![tree_root(leaves.take(pow2(k) as int), k)]);
}

/// The roots completed when the last of `2^j` leaves arrives: for each `i < j`,
/// the tree over the last `2^(i+1)` leaves.
pub open spec fn completed_roots(s: Seq<Seq<nat>>, end: nat, j: nat) -> Seq<Seq<nat>> {
    Seq::new(j, |i: int| tree_root(s.skip(end - pow2((i + 1) as nat)).take(pow2((i + 1) as nat) as int), (i + 1) as nat))
}

/// The post order of a perfect tree is the layout of all its leaves but the
/// last, then the last leaf, then the roots that leaf completes.
pub proof fn lemma_postorder_chain(s: Seq<Seq<nat>>, j: nat)
    requires
        s.len() == pow2(j),
    ensures
        postorder(s, j) == layout(s, (pow2(j) - 1) as nat) + seq![s[pow2(j) - 1]] + completed_roots(s, pow2(j), j),
    decreases j,
{
    vstd::arithmetic::power2::lemma_pow2_pos(j);
    if j == 0 {
        vstd::arithmetic::power2::lemma2_to64();
        assert(layout(s, 0) =~= seq![]);
        assert(postorder(s, 0) =~= layout(s, 0) + seq![s[0]] + completed_roots(s, 1, 0));
    } else {
        let h = pow2((j - 1) as nat);
        vstd::arithmetic::power2::lemma_pow2_unfold(j);
        vstd::arithmetic::power2::lemma_pow2_pos((j - 1) as nat);
        let r = s.skip(h as int);
        lemma_postorder_chain(r, (j - 1) as nat);
        lemma_ilog2_unique((2 * h - 1) as nat, (j - 1) as nat);
        assert(s.skip(h as int).take((h - 1) as int) =~= r.take((h - 1) as int));
        lemma_layout_congr(s.skip(h as int), r, (h - 1) as nat);
        assert(layout(s, (2 * h - 1) as nat) =~= postorder(s.take(h as int), (j - 1) as nat) + layout(s.skip(h as int), (h - 1) as nat));
        let cr = completed_roots(r, h, (j - 1) as nat);
        let cs = completed_roots(s, 2 * h, j);
        assert forall|i: int| 0 <= i < j - 1 implies cs[i] == cr[i] by {
            let p = pow2((i + 1) as nat);
            lemma_pow2_divides((i + 1) as nat, (j - 1) as nat);
            assert(s.skip(2 * h - p).take(p as int) =~= r.skip(h - p).take(p as int));
        }
        assert(s.skip(0).take((2 * h) as int) =~= s);
        assert(cs =~= cr.push(tree_root(s, j)));
        assert(postorder(s, j) =~= layout(s, (pow2(j) - 1) as nat) + seq![s[pow2(j) - 1]] + completed_roots(s, pow2(j), j));
    }
}

/// The roots completed within a block of leaves are those completed at the
/// block's end in the whole sequence.
proof fn lemma_completed_roots_shift(leaves: Seq<Seq<nat>>, g: nat, m: nat, k: nat)
    requires
        m == pow2(k),
        g + m <= leaves.len(),
    ensures
        completed_roots(leaves.skip(g as int).take(m as int), m, k) == completed_roots(leaves, g + m, k),
{
    let t = leaves.skip(g as int).take(m as int);
    assert forall|i: int| 0 <= i < k implies completed_roots(t, m, k)[i] == completed_roots(leaves, g + m, k)[i] by {
        let p = pow2((i + 1) as nat);
        lemma_pow2_divides((i + 1) as nat, k);
        assert(t.skip(m - p).take(p as int) =~= leaves.skip(g + m - p).take(p as int));
    }
    assert(completed_roots(t, m, k) =~= completed_roots(leaves, g + m, k));
}

/// Adding a leaf to a forest whose low `k` bits are set appends the leaf, then
/// the roots of the trees it completes.
#[verifier::spinoff_prover]
#[verifier::rlimit(80)]
pub proof fn lemma_layout_push(leaves: Seq<Seq<nat>>, f: nat, k: nat)
    requires
        f + 1 <= leaves.len(),
        f % pow2(k) == pow2(k) - 1,
        (f / pow2(k)) % 2 == 0,
    ensures
        layout(leaves, f + 1) == layout(leaves, f) + seq![leaves[f as int]] + completed_roots(leaves, f + 1, k),
{
    lemma_low_ones(f, k);
    vstd::arithmetic::power2::lemma_pow2_pos(k);
    vstd::arithmetic::power2::lemma_pow2_unfold(k + 1);
    let m = pow2(k);
    let g = (f + 1 - m) as nat;
    assert(g + m == f + 1);
    assert(g + (m - 1) as nat == f);
    lemma_layout_split(leaves, g, m, k + 1);
    lemma_layout_split(leaves, g, (m - 1) as nat, k + 1);
    let rest = leaves.skip(g as int);
    lemma_layout_pow2(rest, k);
    let t = rest.take(m as int);
    lemma_postorder_chain(t, k);
    assert(t.take(m - 1) =~= rest.take(m - 1));
    lemma_layout_congr(t, rest, (m - 1) as nat);
    lemma_completed_roots_shift(leaves, g, m, k);
    assert(t[m - 1] == leaves[f as int]);
    let a = layout(leaves, g);
    let b = layout(rest, (m - 1) as nat);
    let c = completed_roots(leaves, f + 1, k);
    assert(layout(leaves, f + 1) == a + (b + seq![leaves[f as int]] + c));
    assert(layout(leaves, f) == a + b);
    assert(a + (b + seq![leaves[f as int]] + c) =~= (a + b) + seq![leaves[f as int]] + c);
}

/// When bits `0..=i` of `f` are set, the tree of `2^i` leaves ends at node
/// `nodes_in_forest(f + 1 - 2^i) - 1`, and the trees below it take `2^(i+1) - 1`
/// fewer nodes than that.
pub proof fn lemma_layout_trailing_tree(leaves: Seq<Seq<nat>>, f: nat, i: nat)
    requires
        f <= leaves.len(),
        f % pow2(i) == pow2(i) - 1,
        (f / pow2(i)) % 2 == 1,
    ensures
        f + 1 >= pow2(i + 1),
        nodes_in_forest_spec((f + 1 - pow2(i)) as nat) == nodes_in_forest_spec((f + 1 - pow2(i + 1)) as nat) + pow2(i + 1) - 1,
        nodes_in_forest_spec((f + 1 - pow2(i)) as nat) <= nodes_in_forest_spec(f),
        layout(leaves, f)[nodes_in_forest_spec((f + 1 - pow2(i)) as nat) - 1]
            == tree_root(leaves.skip(f + 1 - pow2(i + 1)).take(pow2(i) as int), i),
{
    lemma_low_ones(f, i);
    vstd::arithmetic::power2::lemma_pow2_pos(i);
    vstd::arithmetic::power2::lemma_pow2_unfold(i + 1);
    let m = pow2(i);
    let c = (f + 1 - 2 * m) as nat;
    lemma_multiples_gap(0, c, 2 * m);
    assert((c + m) % m == 0) by {
        lemma_pow2_divides(i, i + 1);
        vstd::arithmetic::div_mod::lemma_mod_adds(c as int, m as int, m as int);
        assert(c % m == 0) by {
            vstd::arithmetic::div_mod::lemma_fundamental_div_mod(c as int, (2 * m) as int);
            assert(c == (c / (2 * m)) * 2 * m) by (nonlinear_arith)
                requires
                    c == (2 * m) * (c / (2 * m)) + c % (2 * m),
                    c % (2 * m) == 0,
            ;
            vstd::arithmetic::div_mod::lemma_mod_multiples_basic((c / (2 * m) * 2) as int, m as int);
            assert((c / (2 * m) * 2) * m == c / (2 * m) * 2 * m) by (nonlinear_arith);
        }
    }
    lemma_layout_split(leaves, c + m, (m - 1) as nat, i);
    lemma_layout_split(leaves, c, m, i + 1);
    lemma_layout_pow2(leaves.skip(c as int), i);
    lemma_postorder_len(leaves.skip(c as int).take(m as int), i);
    lemma_layout_len(leaves, c);
    lemma_layout_len(leaves, c + m);
    lemma_layout_len(leaves, f);
    assert(leaves.skip(c as int).take(m as int) =~= leaves.skip(f + 1 - 2 * m).take(m as int));
}

/// The block of `2^j` that holds `x < 2^h` ends within `2^h`.
pub proof fn lemma_block_bound(x: nat, j: nat, h: nat)
    requires
        x < pow2(h),
        j <= h,
    ensures
        (x / pow2(j)) * pow2(j) + pow2(j) <= pow2(h),
        (x / pow2(j)) * pow2(j) <= x,
        x < (x / pow2(j)) * pow2(j) + pow2(j),
{
    lemma_pow2_divides(j, h);
    let m = pow2(j);
    vstd::arithmetic::div_mod::lemma_fundamental_div_mod(x as int, m as int);
    vstd::arithmetic::div_mod::lemma_mod_pos_bound(x as int, m as int);
    let q = x / m;
    assert(q * m == m * q) by (nonlinear_arith);
    vstd::arithmetic::div_mod::lemma_mod_multiples_basic(q as int, m as int);
    lemma_multiples_gap(q * m, pow2(h), m);
}

/// The two halves of the subtree of height `k + 1` with index `q`.
pub proof fn lemma_subtree_halves(t: Seq<Seq<nat>>, h: nat, k: nat, q: nat)
    requires
        t.len() == pow2(h),
        k < h,
        q * pow2(k + 1) + pow2(k + 1) <= pow2(h),
    ensures
        subtree(t, k + 1, q).take(pow2(k) as int) == subtree(t, k, 2 * q),
        subtree(t, k + 1, q).skip(pow2(k) as int) == subtree(t, k, 2 * q + 1),
{
    vstd::arithmetic::power2::lemma_pow2_unfold(k + 1);
    vstd::arithmetic::power2::lemma_pow2_pos(k);
    let m = pow2(k);
    assert(q * pow2(k + 1) == (2 * q) * m) by (nonlinear_arith)
        requires
            pow2(k + 1) == 2 * m,
    ;
    assert((2 * q + 1) * m == (2 * q) * m + m) by (nonlinear_arith);
    assert(subtree(t, k + 1, q).take(m as int) =~= subtree(t, k, 2 * q));
    assert(subtree(t, k + 1, q).skip(m as int) =~= subtree(t, k, 2 * q + 1));
}

/// Walking up from leaf `p` through its tree path meets, after `k` steps, the
/// root of the subtree of height `k` that holds the leaf.
pub proof fn lemma_tree_path_node(t: Seq<Seq<nat>>, h: nat, p: nat, k: nat)
    requires
        t.len() == pow2(h),
        p < pow2(h),
        k <= h,
    ensures
        path_node_at(tree_path(t, h, p), p, t[p as int], k) == tree_root(subtree(t, k, p / pow2(k)), k),
    decreases k,
{
    if k == 0 {
        vstd::arithmetic::power2::lemma2_to64();
        assert(p / pow2(0) == p);
        assert(subtree(t, 0, p)[0] == t[p as int]);
    } else {
        let k1 = (k - 1) as nat;
        lemma_tree_path_node(t, h, p, k1);
        let q = p / pow2(k1);
        crate::merkle::path::lemma_div_pow2_step(p, k1);
        let qq = p / pow2(k);
        assert(qq == q / 2);
        lemma_block_bound(p, k, h);
        lemma_subtree_halves(t, h, k1, qq);
        vstd::arithmetic::power2::lemma_pow2_unfold(k);
        if q % 2 == 0 {
            assert(q == 2 * qq);
            assert(sibling_of(q) == 2 * qq + 1);
        } else {
            assert(q == 2 * qq + 1);
            assert(sibling_of(q) == 2 * qq);
        }
        assert(tree_path(t, h, p)[k1 as int] == tree_root(subtree(t, k1, sibling_of(q)), k1));
    }
}

/// The law of tree paths: the path of a leaf leads from the leaf to the root.
pub proof fn lemma_tree_path_root(t: Seq<Seq<nat>>, h: nat, p: nat)
    requires
        t.len() == pow2(h),
        p < pow2(h),
    ensures
        path_root(tree_path(t, h, p), p, t[p as int]) == tree_root(t, h),
{
    lemma_tree_path_node(t, h, p, h);
    vstd::arithmetic::power2::lemma_pow2_pos(h);
    vstd::arithmetic::div_mod::lemma_basic_div(p as int, pow2(h) as int);
    assert(subtree(t, h, 0) =~= t);
}

/// The post order of a tree of height `h > 0`: that of its left half, then that
/// of its right half, then the root.
pub proof fn lemma_postorder_halves(t: Seq<Seq<nat>>, h: nat)
    requires
        h > 0,
    ensures
        postorder(t, h).subrange(0, pow2(h) - 1) == postorder(t.take(pow2((h - 1) as nat) as int), (h - 1) as nat),
        postorder(t, h).subrange(pow2(h) - 1, pow2(h + 1) - 2) == postorder(t.skip(pow2((h - 1) as nat) as int), (h - 1) as nat),
        postorder(t, h).len() == pow2(h + 1) - 1,
{
    let half = pow2((h - 1) as nat) as int;
    lemma_postorder_len(t, h);
    lemma_postorder_len(t.take(half), (h - 1) as nat);
    lemma_postorder_len(t.skip(half), (h - 1) as nat);
    vstd::arithmetic::power2::lemma_pow2_unfold(h);
    vstd::arithmetic::power2::lemma_pow2_unfold(h + 1);
    assert(postorder(t, h).subrange(0, pow2(h) - 1) =~= postorder(t.take(half), (h - 1) as nat));
    assert(postorder(t, h).subrange(pow2(h) - 1, pow2(h + 1) - 2) =~= postorder(t.skip(half), (h - 1) as nat));
}

/// Bit `t` of `x` and its bits below `t` make up its bits below `t + 1`.
pub proof fn lemma_mod_pow2_step(x: nat, t: nat)
    ensures
        x % pow2(t + 1) == ((x / pow2(t)) % 2) * pow2(t) + x % pow2(t),
        x / pow2(t + 1) == (x / pow2(t)) / 2,
{
    vstd::arithmetic::power2::lemma_pow2_pos(t);
    vstd::arithmetic::power2::lemma_pow2_unfold(t + 1);
    let m = pow2(t);
    vstd::arithmetic::div_mod::lemma_fundamental_div_mod(x as int, m as int);
    vstd::arithmetic::div_mod::lemma_mod_pos_bound(x as int, m as int);
    let a = x / m;
    let r = x % m;
    let b = a / 2;
    let c = a % 2;
    assert(x == (2 * m) * b + (c * m + r)) by (nonlinear_arith)
        requires
            x == m * a + r,
            a == 2 * b + c,
    ;
    assert(c * m + r < 2 * m) by (nonlinear_arith)
        requires
            c <= 1,
            r < m,
    ;
    vstd::arithmetic::div_mod::lemma_fundamental_div_mod_converse(x as int, (2 * m) as int, b as int, (c * m + r) as int);
}

/// A forest of `n > 0` leaves has at least `n` nodes; a single tree of `2^i`
/// leaves has `2^(i+1) - 1`.
pub proof fn lemma_nodes_facts(n: nat, i: nat)
    ensures
        nodes_in_forest_spec(n) >= n,
        nodes_in_forest_spec(pow2(i)) == pow2(i + 1) - 1,
{
    lemma_layout_len(Seq::new(n, |j: int| Seq::<nat>::empty()), n);
    let l = Seq::new(pow2(i), |j: int| Seq::<nat>::empty());
    lemma_layout_len(l, pow2(i));
    lemma_layout_pow2(l, i);
    lemma_postorder_len(l.take(pow2(i) as int), i);
}

/// `x / 2^t` is one when `2^t <= x < 2^(t + 1)`.
proof fn lemma_div_is_one(x: nat, t: nat)
    requires
        pow2(t) <= x < pow2(t + 1),
    ensures
        x / pow2(t) == 1,
{
    vstd::arithmetic::power2::lemma_pow2_pos(t);
    vstd::arithmetic::power2::lemma_pow2_unfold(t + 1);
    vstd::arithmetic::div_mod::lemma_fundamental_div_mod_converse(x as int, pow2(t) as int, 1, (x - pow2(t)) as int);
}

/// The tree that holds leaf `p` of a forest of `f` leaves is the one of bit `t`,
/// the highest bit set in `f` and clear in `p`: it starts after the leaves of
/// the larger trees, `forest_above(f, t + 1)`, and `p` falls within it.
pub proof fn lemma_leaf_tree(p: nat, f: nat, t: nat)
    requires
        p < f,
        f <= u64::MAX,
        t == ilog2((f as u64 ^ (f as u64 & p as u64)) as nat),
    ensures
        t < 64,
        forest_above(f, t + 1) % pow2(t + 1) == 0,
        forest_above(f, t + 1) <= p,
        p < forest_above(f, t + 1) + pow2(t),
        forest_above(f, t + 1) + pow2(t) <= f,
        f < forest_above(f, t + 1) + pow2(t + 1),
{
    let fu = f as u64;
    let pu = p as u64;
    let x = fu ^ (fu & pu);
    assert(x != 0) by (bit_vector)
        requires
            pu < fu,
            x == fu ^ (fu & pu),
    ;
    lemma_ilog2_bounds(x as nat);
    vstd::arithmetic::power2::lemma2_to64_rest();
    vstd::arithmetic::power2::lemma2_to64();
    if t >= 64 {
        if t > 64 {
            vstd::arithmetic::power2::lemma_pow2_strictly_increases(64, t);
        }
        assert(false);
    }
    let tu = t as u64;
    lemma_div_is_one(x as nat, t);
    vstd::bits::lemma_u64_shr_is_div(x, tu);
    if t < 63 {
        let s = (t + 1) as nat;
        let su = (tu + 1) as u64;
        vstd::bits::lemma_u64_shr_is_div(x, su);
        vstd::arithmetic::power2::lemma_pow2_pos(s);
        vstd::arithmetic::div_mod::lemma_basic_div(x as int, pow2(s) as int);
        assert((fu >> tu) % 2 == 1 && (pu >> tu) % 2 == 0 && fu >> su == pu >> su) by (bit_vector)
            requires
                pu < fu,
                x == fu ^ (fu & pu),
                x >> tu == 1,
                x >> su == 0,
                su == tu + 1,
                tu < 63,
        ;
        vstd::bits::lemma_u64_shr_is_div(fu, tu);
        vstd::bits::lemma_u64_shr_is_div(pu, tu);
        vstd::bits::lemma_u64_shr_is_div(fu, su);
        vstd::bits::lemma_u64_shr_is_div(pu, su);
        lemma_mod_pow2_step(f, t);
        lemma_mod_pow2_step(p, t);
        let m = pow2(s);
        let q = f / m;
        vstd::arithmetic::div_mod::lemma_fundamental_div_mod(f as int, m as int);
        vstd::arithmetic::div_mod::lemma_fundamental_div_mod(p as int, m as int);
        vstd::arithmetic::div_mod::lemma_mod_pos_bound(p as int, pow2(t) as int);
        vstd::arithmetic::div_mod::lemma_mod_pos_bound(f as int, pow2(t) as int);
        vstd::arithmetic::power2::lemma_pow2_unfold(s);
        assert(forest_above(f, s) == q * m);
        assert(q * m == m * q) by (nonlinear_arith);
        vstd::arithmetic::div_mod::lemma_mod_multiples_basic(q as int, m as int);
    } else {
        assert((fu >> tu) == 1 && (pu >> tu) == 0) by (bit_vector)
            requires
                pu < fu,
                x == fu ^ (fu & pu),
                x >> tu == 1,
                tu == 63,
        ;
        vstd::bits::lemma_u64_shr_is_div(fu, tu);
        vstd::bits::lemma_u64_shr_is_div(pu, tu);
        vstd::arithmetic::div_mod::lemma_fundamental_div_mod(f as int, pow2(63) as int);
        vstd::arithmetic::div_mod::lemma_fundamental_div_mod(p as int, pow2(63) as int);
        vstd::arithmetic::div_mod::lemma_mod_pos_bound(p as int, pow2(63) as int);
        vstd::arithmetic::div_mod::lemma_mod_pos_bound(f as int, pow2(63) as int);
        assert(forest_above(f, 64) == 0);
    }
}

/// Every number has a count `k` of trailing set bits: its low `k` bits are set
/// and bit `k` is clear.
pub proof fn lemma_trailing_ones(g: nat) -> (k: nat)
    ensures
        g % pow2(k) == pow2(k) - 1,
        (g / pow2(k)) % 2 == 0,
    decreases g,
{
    vstd::arithmetic::power2::lemma2_to64();
    if g % 2 == 0 {
        0
    } else {
        let k1 = lemma_trailing_ones(g / 2);
        vstd::arithmetic::power2::lemma_pow2_unfold(k1 + 1);
        vstd::arithmetic::power2::lemma_pow2_pos(k1);
        vstd::arithmetic::div_mod::lemma_mod_breakdown(g as int, 2, pow2(k1) as int);
        vstd::arithmetic::div_mod::lemma_div_denominator(g as int, 2, pow2(k1) as int);
        k1 + 1
    }
}

/// Adding leaves only appends nodes: the layout of `a` leaves begins the layout
/// of `b >= a` leaves.
pub proof fn lemma_layout_prefix(leaves: Seq<Seq<nat>>, a: nat, b: nat)
    requires
        a <= b <= leaves.len(),
    ensures
        nodes_in_forest_spec(a) <= nodes_in_forest_spec(b),
        layout(leaves, b).subrange(0, nodes_in_forest_spec(a) as int) == layout(leaves, a),
    decreases b - a,
{
    lemma_layout_len(leaves, a);
    lemma_layout_len(leaves, b);
    if a == b {
        assert(layout(leaves, b).subrange(0, nodes_in_forest_spec(a) as int) =~= layout(leaves, a));
    } else {
        let b1 = (b - 1) as nat;
        lemma_layout_prefix(leaves, a, b1);
        let k = lemma_trailing_ones(b1);
        lemma_layout_push(leaves, b1, k);
        lemma_layout_len(leaves, b1);
        assert(layout(leaves, b).subrange(0, nodes_in_forest_spec(a) as int)
            =~= layout(leaves, b1).subrange(0, nodes_in_forest_spec(a) as int));
    }
}

/// The leaves, nodes and peak of the tree that holds leaf `p`.
pub proof fn lemma_tree_in_layout(leaves: Seq<Seq<nat>>, f: nat, p: nat, t: nat)
    requires
        p < f <= leaves.len(),
        f <= u64::MAX,
        t == ilog2((f as u64 ^ (f as u64 & p as u64)) as nat),
    ensures
        t < 64,
        forest_above(f, t + 1) <= p < forest_above(f, t + 1) + pow2(t),
        forest_above(f, t + 1) + pow2(t) <= f,
        nodes_in_forest_spec(forest_above(f, t + 1)) + pow2(t + 1) - 1 <= nodes_in_forest_spec(f),
        layout(leaves, f).subrange(
            nodes_in_forest_spec(forest_above(f, t + 1)) as int,
            nodes_in_forest_spec(forest_above(f, t + 1)) + pow2(t + 1) - 1,
        ) == postorder(leaves.skip(forest_above(f, t + 1) as int).take(pow2(t) as int), t),
        popcount(forest_above(f, t + 1)) == popcount(f) - popcount(f % pow2(t)) - 1,
        popcount(forest_above(f, t + 1)) < popcount(f),
        layout_peaks(leaves, f)[popcount(forest_above(f, t + 1)) as int]
            == tree_root(leaves.skip(forest_above(f, t + 1) as int).take(pow2(t) as int), t),
{
    lemma_leaf_tree(p, f, t);
    let fb = forest_above(f, t + 1);
    let r = (f - fb) as nat;
    let s = pow2(t);
    vstd::arithmetic::power2::lemma_pow2_unfold(t + 1);
    vstd::arithmetic::power2::lemma_pow2_pos(t);
    lemma_layout_split(leaves, fb, r, t + 1);
    lemma_layout_len(leaves, fb);
    lemma_layout_len(leaves, f);
    lemma_ilog2_unique(r, t);
    let rest = leaves.skip(fb as int);
    let tr = rest.take(s as int);
    assert(layout(rest, r) == postorder(tr, t) + layout(rest.skip(s as int), (r - s) as nat));
    assert(layout_peaks(rest, r) == seq![tree_root(tr, t)] + layout_peaks(rest.skip(s as int), (r - s) as nat));
    lemma_postorder_len(tr, t);
    lemma_layout_len(rest, r);
    let n = nodes_in_forest_spec(fb);
    assert(layout(leaves, f).subrange(n as int, n + pow2(t + 1) - 1) =~= postorder(tr, t));
    // the peak counts
    lemma_popcount_split(fb, t + 1);
    lemma_popcount_split(f, t + 1);
    if t + 1 < 64 {
        vstd::arithmetic::div_mod::lemma_fundamental_div_mod(f as int, pow2(t + 1) as int);
        assert(fb == (f / pow2(t + 1)) * pow2(t + 1));
        vstd::arithmetic::div_mod::lemma_fundamental_div_mod_converse(
            fb as int, pow2(t + 1) as int, (f / pow2(t + 1)) as int, 0);
        assert(fb % pow2(t + 1) == 0 && fb / pow2(t + 1) == f / pow2(t + 1)) by {
            assert((f / pow2(t + 1)) * pow2(t + 1) == pow2(t + 1) * (f / pow2(t + 1))) by (nonlinear_arith);
        }
        assert(f % pow2(t + 1) == r);
    } else {
        vstd::arithmetic::power2::lemma2_to64_rest();
        assert(fb == 0);
        vstd::arithmetic::div_mod::lemma_small_mod(f, pow2(64));
        vstd::arithmetic::div_mod::lemma_basic_div(f as int, pow2(64) as int);
    }
    assert(popcount(0) == 0);
    lemma_popcount_split(r, t);
    vstd::arithmetic::div_mod::lemma_fundamental_div_mod_converse(r as int, s as int, 1, (r - s) as int);
    lemma_mod_pow2_step(f, t);
    assert(r % s == f % s) by {
        vstd::arithmetic::div_mod::lemma_mod_mod(f as int, s as int, 2);
        vstd::arithmetic::div_mod::lemma_mod_breakdown(f as int, s as int, 2);
    }
    assert(popcount(1) == 1) by {
        reveal_with_fuel(popcount, 2);
    }
}

/// The inner nodes of the perfect tree of height `h` over `leaves`, each with its
/// two children, in post order.
pub open spec fn tree_inner_nodes(leaves: Seq<Seq<nat>>, h: nat) -> Seq<(Seq<nat>, Seq<nat>, Seq<nat>)>
    decreases h,
{
    if h == 0 {
        seq![]
    } else {
        let half = pow2((h - 1) as nat) as int;
        tree_inner_nodes(leaves.take(half), (h - 1) as nat) + tree_inner_nodes(leaves.skip(half), (h - 1) as nat)
            + seq![(tree_root(leaves, h), tree_root(leaves.take(half), (h - 1) as nat),
                tree_root(leaves.skip(half), (h - 1) as nat))]
    }
}

/// The inner nodes of the forest over the first `f` of `leaves`, in the order of the layout.
pub open spec fn layout_inner_nodes(leaves: Seq<Seq<nat>>, f: nat) -> Seq<(Seq<nat>, Seq<nat>, Seq<nat>)>
    decreases f,
{
    if f == 0 {
        seq![]
    } else {
        let t = ilog2(f);
        let s = pow2(t);
        if 0 < s <= f {
            tree_inner_nodes(leaves.take(s as int), t) + layout_inner_nodes(leaves.skip(s as int), (f - s) as nat)
        } else {
            seq![]
        }
    }
}

/// Each inner node is the digest of its two children.
pub proof fn lemma_inner_nodes_merge(leaves: Seq<Seq<nat>>, h: nat, i: int)
    requires
        0 <= i < tree_inner_nodes(leaves, h).len(),
    ensures
        tree_inner_nodes(leaves, h)[i].0 == merge_digest(tree_inner_nodes(leaves, h)[i].1, tree_inner_nodes(leaves, h)[i].2),
    decreases h,
{
    if h > 0 {
        let half = pow2((h - 1) as nat) as int;
        let a = tree_inner_nodes(leaves.take(half), (h - 1) as nat);
        let b = tree_inner_nodes(leaves.skip(half), (h - 1) as nat);
        if i < a.len() {
            lemma_inner_nodes_merge(leaves.take(half), (h - 1) as nat, i);
        } else if i < a.len() + b.len() {
            lemma_inner_nodes_merge(leaves.skip(half), (h - 1) as nat, i - a.len());
        }
    }
}

/// Each inner node of a forest is the digest of its two children.
pub proof fn lemma_layout_inner_merge(leaves: Seq<Seq<nat>>, f: nat, i: int)
    requires
        0 <= i < layout_inner_nodes(leaves, f).len(),
    ensures
        layout_inner_nodes(leaves, f)[i].0 == merge_digest(layout_inner_nodes(leaves, f)[i].1, layout_inner_nodes(leaves, f)[i].2),
    decreases f,
{
    if f > 0 {
        let t = ilog2(f);
        let s = pow2(t);
        if 0 < s <= f {
            let a = tree_inner_nodes(leaves.take(s as int), t);
            if i < a.len() {
                lemma_inner_nodes_merge(leaves.take(s as int), t, i);
            } else {
                lemma_layout_inner_merge(leaves.skip(s as int), (f - s) as nat, i - a.len());
            }
        }
    }
}

/// Clearing the highest set bit of `x` subtracts its power of two.
pub proof fn lemma_clear_high_bit(x: u64)
    requires
        x > 0,
    ensures
        (x ^ (pow2(ilog2(x as nat)) as u64)) == x - pow2(ilog2(x as nat)),
        pow2(ilog2(x as nat)) <= x,
{
    let t = ilog2(x as nat);
    lemma_ilog2_bounds(x as nat);
    vstd::arithmetic::power2::lemma2_to64_rest();
    vstd::arithmetic::power2::lemma2_to64();
    if t >= 64 {
        if t > 64 {
            vstd::arithmetic::power2::lemma_pow2_strictly_increases(64, t);
        }
        assert(false);
    }
    let tu = t as u64;
    lemma_div_is_one(x as nat, t);
    vstd::bits::lemma_u64_shr_is_div(x, tu);
    vstd::bits::lemma_u64_shl_is_mul(1, tu);
    assert(x ^ (1u64 << tu) == x - (1u64 << tu)) by (bit_vector)
        requires
            x >> tu == 1,
            tu < 64,
    ;
}

/// A power of two below `2^64` has a single bit set.
pub proof fn lemma_pow2_bits(t: nat)
    requires
        t < 64,
    ensures
        (pow2(t) as u64) & (((pow2(t) as u64) - 1) as u64) == 0,
        pow2(t) <= u64::MAX,
{
    vstd::bits::lemma_u64_pow2_no_overflow(t);
    vstd::bits::lemma_u64_shl_is_mul(1, t as u64);
    let tu = t as u64;
    assert((1u64 << tu) & (((1u64 << tu) - 1) as u64) == 0) by (bit_vector)
        requires
            tu < 64,
    ;
}

} // verus!
