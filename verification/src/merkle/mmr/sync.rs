//! How a partial mountain range keeps in step with a full one: the delta of the
//! full range, applied to a partial range at an earlier forest, gives the full
//! range's peaks.

use vstd::prelude::*;
use vstd::arithmetic::power2::pow2;
use crate::merkle::merge_digest;
use crate::merkle::mmr::{popcount, tz, ilog2, nodes_in_forest_spec, lemma_popcount_split};
use crate::merkle::mmr::layout::{layout, layout_peaks, tree_root, tree_path, postorder, lemma_layout_len, lemma_layout_split,
    lemma_layout_prefix, lemma_layout_push, lemma_trailing_ones, lemma_pow2_divides, lemma_ilog2_bounds,
    lemma_ilog2_unique, lemma_multiples_gap};

verus! {

/// `x` with its bits below `t` cleared.
pub open spec fn floor_to(x: nat, t: nat) -> nat {
    (x / pow2(t)) * pow2(t)
}

/// A power of two that fits a machine word is a shifted one.
proof fn lemma_pow2_shift(k: nat)
    requires
        pow2(k) <= usize::MAX,
    ensures
        k < usize::BITS,
        pow2(k) > 0,
        pow2(k) as usize == 1usize << (k as usize),
        (pow2(k) as usize) & ((pow2(k) - 1) as usize) == 0,
{
    vstd::arithmetic::power2::lemma_pow2_pos(k);
    vstd::arithmetic::power2::lemma2_to64();
    vstd::arithmetic::power2::lemma2_to64_rest();
    if k >= usize::BITS {
        if k > usize::BITS {
            vstd::arithmetic::power2::lemma_pow2_strictly_increases(usize::BITS as nat, k);
        }
        assert(false);
    }
    let kk = k as usize;
    vstd::bits::lemma_usize_shl_is_mul(1, kk);
    let x = 1usize << kk;
    assert(x & ((x - 1) as usize) == 0) by (bit_vector)
        requires
            x == 1usize << kk,
            kk < usize::BITS,
    ;
}

/// Bit `k` of a machine word, tested with a mask.
proof fn lemma_bit_test(x: usize, k: nat)
    requires
        pow2(k) <= usize::MAX,
    ensures
        ((pow2(k) as usize) & x == 0) <==> (x as nat / pow2(k)) % 2 == 0,
        (x & (pow2(k) as usize) == 0) <==> (x as nat / pow2(k)) % 2 == 0,
{
    lemma_pow2_shift(k);
    let kk = k as usize;
    vstd::bits::lemma_usize_shr_is_div(x, kk);
    assert((((1usize << kk) & x == 0) <==> ((x >> kk) % 2 == 0)) && ((x & (1usize << kk) == 0) <==> ((x >> kk) % 2 == 0))) by (bit_vector)
        requires
            kk < usize::BITS,
    ;
}

/// The low bits of a machine word below a power of two are its remainder.
proof fn lemma_mask_mod(x: usize, k: nat)
    requires
        pow2(k) <= usize::MAX,
    ensures
        x & ((pow2(k) - 1) as usize) == x as nat % pow2(k),
{
    lemma_pow2_shift(k);
    vstd::bits::lemma_usize_low_bits_mask_is_mod(x, k);
}

/// A machine word with one bit set is the power of two of that bit.
proof fn lemma_word_pow2(x: usize)
    requires
        x != 0,
        x & ((x - 1) as usize) == 0,
    ensures
        x as nat == pow2(ilog2(x as nat)),
{
    let k = ilog2(x as nat);
    lemma_ilog2_bounds(x as nat);
    lemma_pow2_shift(k);
    vstd::arithmetic::power2::lemma_pow2_unfold(k + 1);
    let p = pow2(k) as usize;
    let kk = k as usize;
    assert(x == p) by (bit_vector)
        requires
            x & ((x - 1) as usize) == 0,
            x != 0,
            p == 1usize << kk,
            kk < usize::BITS,
            p <= x,
            x - p < p,
    ;
}

/// The lowest set bit of a nonzero word.
proof fn lemma_lowbit(m: usize)
    requires
        m != 0,
    ensures
        ({
            let b = m & !((m - 1) as usize);
            &&& b != 0
            &&& b & ((b - 1) as usize) == 0
            &&& m & b == b
            &&& m & ((b - 1) as usize) == 0
        }),
{
    let b = m & !((m - 1) as usize);
    assert(b != 0 && b & ((b - 1) as usize) == 0 && m & b == b && m & ((b - 1) as usize) == 0) by (bit_vector)
        requires
            m != 0,
            b == m & !((m - 1) as usize),
    ;
}

/// The bits of two forests `f < g` around their highest differing bit `p`:
/// above it they agree (`c`), `f` has it clear and `g` set.
proof fn lemma_delta_bits(f: usize, g: usize, p: usize)
    requires
        p != 0,
        p & ((p - 1) as usize) == 0,
        p <= f ^ g,
        (f ^ g) - p < p,
        f < g,
    ensures
        ({
            let m = f & ((p - 1) as usize);
            let c = f ^ m;
            &&& c == f - m
            &&& c & ((p - 1) as usize) == 0
            &&& c & p == 0
            &&& m < p
            &&& g == c + p + (g & ((p - 1) as usize))
            &&& (g ^ c ^ p) == g & ((p - 1) as usize)
            &&& g ^ (g ^ c ^ p) == c + p
            &&& (m == 0 ==> (g ^ f) == (g - f) && (g ^ c ^ 0usize) == g - f && g ^ (g ^ c ^ 0usize) == f)
            &&& (g ^ f) == (f ^ g)
        }),
{
    let m = f & ((p - 1) as usize);
    let c = f ^ m;
    assert(c == f - m && c & ((p - 1) as usize) == 0 && c & p == 0 && m < p && g == c + p + (g & ((p - 1) as usize))
        && (g ^ c ^ p) == g & ((p - 1) as usize) && g ^ (g ^ c ^ p) == c + p && (m == 0 ==> (g ^ f) == (g - f) && (g ^ c ^ 0usize) == g - f && g ^ (g ^ c ^ 0usize) == f)
        && (g ^ f) == (f ^ g))
        by (bit_vector)
        requires
            p != 0,
            p & ((p - 1) as usize) == 0,
            p <= f ^ g,
            (f ^ g) - p < p,
            f < g,
            m == f & ((p - 1) as usize),
            c == f ^ m,
    ;
}

/// Where the next merge of a delta starts: the kept trees, the bits of `m` from
/// `t` up, and one tree of `t` leaves.
proof fn lemma_arg_bits(c: usize, m: usize, p: usize, t: usize)
    requires
        c & ((p - 1) as usize) == 0,
        m < p,
        p & ((p - 1) as usize) == 0,
        t != 0,
        t & ((t - 1) as usize) == 0,
        t < p,
    ensures
        m & t == 0 ==> (c | (m & !((t - 1) as usize)) | t) == c + (m - (m & ((t - 1) as usize))) + t,
        (t & m != 0 && m & ((t - 1) as usize) == 0) ==> (c | (m & !((t - 1) as usize)) | t) == c + m,
{
    assert((m & t == 0 ==> (c | (m & !((t - 1) as usize)) | t) == c + (m - (m & ((t - 1) as usize))) + t)
        && ((t & m != 0 && m & ((t - 1) as usize) == 0) ==> (c | (m & !((t - 1) as usize)) | t) == c + m))
        by (bit_vector)
        requires
            c & ((p - 1) as usize) == 0,
            m < p,
            p & ((p - 1) as usize) == 0,
            t != 0,
            t & ((t - 1) as usize) == 0,
            t < p,
    ;
}

/// Adding bits below a multiple of `2^t` adds their set bits.
proof fn lemma_pc_add_low(c: nat, t: nat, r: nat)
    requires
        c % pow2(t) == 0,
        r < pow2(t),
    ensures
        popcount(c + r) == popcount(c) + popcount(r),
        (c + r) % pow2(t) == r,
        (c + r) / pow2(t) == c / pow2(t),
{
    let s = pow2(t);
    vstd::arithmetic::power2::lemma_pow2_pos(t);
    vstd::arithmetic::div_mod::lemma_fundamental_div_mod(c as int, s as int);
    let q = c / s;
    assert(c + r == q * s + r) by (nonlinear_arith)
        requires
            c == s * q + c % s,
            c % s == 0,
    ;
    vstd::arithmetic::div_mod::lemma_fundamental_div_mod_converse((c + r) as int, s as int, q as int, r as int);
    lemma_popcount_split(c + r, t);
    lemma_popcount_split(c, t);
    assert(popcount(0) == 0);
}

/// A power of two has one set bit.
proof fn lemma_pc_pow2(t: nat)
    ensures
        popcount(pow2(t)) == 1,
{
    vstd::arithmetic::power2::lemma_pow2_pos(t);
    vstd::arithmetic::div_mod::lemma_fundamental_div_mod_converse(pow2(t) as int, pow2(t) as int, 1, 0);
    lemma_popcount_split(pow2(t), t);
    assert(popcount(0) == 0);
    assert(popcount(1) == 1) by {
        reveal_with_fuel(popcount, 2);
    }
}

/// The low `k` bits of `y` are set and bit `k` clear, while its low `t` bits
/// are set: so `k >= t`.
proof fn lemma_ones_reach(y: nat, k: nat, t: nat)
    requires
        y % pow2(k) == pow2(k) - 1,
        (y / pow2(k)) % 2 == 0,
        y % pow2(t) == pow2(t) - 1,
    ensures
        k >= t,
{
    if k < t {
        lemma_pow2_divides(k + 1, t);
        vstd::arithmetic::power2::lemma_pow2_unfold(k + 1);
        vstd::arithmetic::power2::lemma_pow2_pos(k);
        let a = pow2(k + 1);
        let s = pow2(t);
        vstd::arithmetic::div_mod::lemma_fundamental_div_mod(s as int, a as int);
        let q = s / a;
        assert(s == q * a) by (nonlinear_arith)
            requires
                s == a * q + s % a,
                s % a == 0,
        ;
        assert(q >= 1) by (nonlinear_arith)
            requires
                s == q * a,
                s > 0,
                a > 0,
        ;
        vstd::arithmetic::div_mod::lemma_mod_mod(y as int, a as int, q as int);
        assert(a * q == q * a) by (nonlinear_arith);
        assert((s - 1) as int == (q - 1) * a + (a - 1)) by (nonlinear_arith)
            requires
                s == q * a,
        ;
        vstd::arithmetic::div_mod::lemma_fundamental_div_mod_converse((s - 1) as int, a as int, (q - 1) as int, (a - 1) as int);
        assert(y % a == a - 1);
        vstd::arithmetic::div_mod::lemma_mod_breakdown(y as int, pow2(k) as int, 2);
        assert(pow2(k) * 2 == a);
        assert(y % a == pow2(k) - 1);
        assert(false);
    }
}

/// The root of the tree of `2^t` leaves from leaf `c` (a multiple of `2^t`)
/// stands in the layout of any forest that holds those leaves, right after
/// the nodes of the first `c` leaves and the other nodes of that tree.
pub proof fn lemma_block_root(leaves: Seq<Seq<nat>>, gg: nat, c: nat, t: nat)
    requires
        c % pow2(t) == 0,
        c + pow2(t) <= gg <= leaves.len(),
    ensures
        1 <= nodes_in_forest_spec(c) + nodes_in_forest_spec(pow2(t)) <= nodes_in_forest_spec(gg),
        layout(leaves, gg)[nodes_in_forest_spec(c) + nodes_in_forest_spec(pow2(t)) - 1]
            == tree_root(leaves.skip(c as int).take(pow2(t) as int), t),
{
    let s = pow2(t);
    vstd::arithmetic::power2::lemma_pow2_pos(t);
    vstd::arithmetic::power2::lemma2_to64();
    let y = (c + s - 1) as nat;
    lemma_pc_add_low(c, t, (s - 1) as nat);
    crate::merkle::mmr::partial::lemma_popcount_ones(t);
    lemma_pc_pow2(t);
    lemma_layout_len(leaves, c);
    lemma_layout_len(leaves, y);
    lemma_layout_len(leaves, s);
    let k = lemma_trailing_ones(y);
    lemma_ones_reach(y, k, t);
    lemma_layout_push(leaves, y, k);
    lemma_layout_len(leaves, y + 1);
    lemma_layout_prefix(leaves, y + 1, gg);
    lemma_layout_len(leaves, gg);
    let i = nodes_in_forest_spec(c) + nodes_in_forest_spec(s) - 1;
    assert(i == nodes_in_forest_spec(y) + t);
    let tail = seq![leaves[y as int]] + crate::merkle::mmr::layout::completed_roots(leaves, y + 1, k);
    assert(i < nodes_in_forest_spec(y + 1));
    assert(layout(leaves, gg).subrange(0, nodes_in_forest_spec(y + 1) as int)[i] == layout(leaves, gg)[i]);
    assert(layout(leaves, gg)[i] == layout(leaves, y + 1)[i]);
    assert(layout(leaves, y + 1)[i] == tail[t as int]);
    if t == 0 {
        assert(y == c);
        assert(leaves.skip(c as int).take(1)[0] == leaves[c as int]);
        vstd::arithmetic::power2::lemma2_to64();
    } else {
        assert((y + 1 - pow2(t)) as nat == c);
    }
}

/// The peak of the tree of `2^t` leaves of a forest with bit `t` set.
pub proof fn lemma_bit_peak(leaves: Seq<Seq<nat>>, x: nat, t: nat)
    requires
        x <= leaves.len(),
        (x / pow2(t)) % 2 == 1,
    ensures
        popcount(x) == popcount(floor_to(x, t + 1)) + 1 + popcount(x % pow2(t)),
        floor_to(x, t + 1) + pow2(t) <= x,
        popcount(floor_to(x, t + 1)) < layout_peaks(leaves, x).len(),
        layout_peaks(leaves, x)[popcount(floor_to(x, t + 1)) as int]
            == tree_root(leaves.skip(floor_to(x, t + 1) as int).take(pow2(t) as int), t),
{
    let s = pow2(t);
    let a = pow2(t + 1);
    vstd::arithmetic::power2::lemma_pow2_unfold(t + 1);
    vstd::arithmetic::power2::lemma_pow2_pos(t);
    let fa = floor_to(x, t + 1);
    vstd::arithmetic::div_mod::lemma_fundamental_div_mod(x as int, a as int);
    let r = x % a;
    assert(x == fa + r) by (nonlinear_arith)
        requires
            x == a * (x / a) + x % a,
            fa == (x / a) * a,
            r == x % a,
    ;
    vstd::arithmetic::div_mod::lemma_mod_multiples_basic((x / a) as int, a as int);
    assert(fa % a == 0);
    vstd::arithmetic::div_mod::lemma_mod_breakdown(x as int, s as int, 2);
    assert(r == s + x % s);
    vstd::arithmetic::div_mod::lemma_mod_pos_bound(x as int, s as int);
    lemma_layout_split(leaves, fa, r, t + 1);
    lemma_layout_len(leaves, fa);
    lemma_ilog2_unique(r, t);
    lemma_layout_len(leaves.skip(fa as int), r);
    assert(layout_peaks(leaves.skip(fa as int), r)[0] == tree_root(leaves.skip(fa as int).take(s as int), t));
    lemma_pc_add_low(fa, t + 1, r);
    lemma_pc_add_low(s, t, x % s);
    lemma_pc_pow2(t);
}

/// A multiple of a multiple of `b` is a multiple of `b`.
proof fn lemma_mod_trans(x: nat, a: nat, b: nat)
    requires
        a > 0,
        b > 0,
        x % a == 0,
        a % b == 0,
    ensures
        x % b == 0,
{
    vstd::arithmetic::div_mod::lemma_fundamental_div_mod(x as int, a as int);
    vstd::arithmetic::div_mod::lemma_fundamental_div_mod(a as int, b as int);
    let qx = x / a;
    let qa = a / b;
    assert(x == (qx * qa) * b) by (nonlinear_arith)
        requires
            x == a * qx + x % a,
            x % a == 0,
            a == b * qa + a % b,
            a % b == 0,
    ;
    vstd::arithmetic::div_mod::lemma_mod_multiples_basic((qx * qa) as int, b as int);
}

/// The peaks of the trees that are new in a delta, read from the layout of the
/// full range, are the peaks of those leaves.
pub proof fn lemma_new_peaks(leaves: Seq<Seq<nat>>, gg: nat, np: nat, cur: nat)
    requires
        cur + np <= gg <= leaves.len(),
        gg <= usize::MAX / 32,
        np > 0 ==> cur % pow2(ilog2(np) + 1) == 0,
    ensures
        crate::merkle::mmr::full::new_peak_roots(layout(leaves, gg), np as usize, nodes_in_forest_spec(cur) as usize)
            == layout_peaks(leaves.skip(cur as int), np),
    decreases np,
{
    let n = layout(leaves, gg);
    lemma_layout_len(leaves, gg);
    lemma_layout_len(leaves, cur);
    if np == 0 {
        assert(layout_peaks(leaves.skip(cur as int), 0) =~= Seq::<Seq<nat>>::empty());
    } else {
        let hi = ilog2(np);
        let t = pow2(hi);
        lemma_ilog2_bounds(np);
        vstd::arithmetic::power2::lemma_pow2_unfold(hi + 1);
        lemma_pow2_divides(hi, hi + 1);
        lemma_mod_trans(cur, pow2(hi + 1), t);
        lemma_block_root(leaves, gg, cur, hi);
        lemma_pc_add_low(cur, hi + 1, t);
        lemma_pc_pow2(hi);
        let o = nodes_in_forest_spec(cur) + nodes_in_forest_spec(t);
        assert(nodes_in_forest_spec(cur + t) == o);
        assert(crate::merkle::mmr::full::node_before(n, o as int) =~= seq![tree_root(leaves.skip(cur as int).take(t as int), hi)]);
        let np1 = (np - t) as nat;
        if np1 > 0 {
            lemma_ilog2_bounds(np1);
            if ilog2(np1) >= hi {
                lemma_pow2_divides(hi, ilog2(np1));
                assert(false);
            }
            lemma_pow2_divides(ilog2(np1) + 1, hi);
            vstd::arithmetic::div_mod::lemma_fundamental_div_mod(cur as int, t as int);
            lemma_pc_add_low(cur, hi, 0);
            assert((cur + t) % t == 0) by {
                vstd::arithmetic::div_mod::lemma_fundamental_div_mod(cur as int, t as int);
                vstd::arithmetic::div_mod::lemma_mod_multiples_basic((cur / t + 1) as int, t as int);
                assert((cur / t + 1) * t == cur + t) by (nonlinear_arith)
                    requires
                        cur == t * (cur / t) + cur % t,
                        cur % t == 0,
                ;
            }
            vstd::arithmetic::power2::lemma_pow2_pos(ilog2(np1) + 1);
            lemma_mod_trans(cur + t, t, pow2(ilog2(np1) + 1));
        }
        lemma_new_peaks(leaves, gg, np1, cur + t);
        assert(leaves.skip(cur as int).skip(t as int) =~= leaves.skip((cur + t) as int));
        assert((np as usize) as nat == np);
        assert(layout_peaks(leaves.skip(cur as int), np) == seq![tree_root(leaves.skip(cur as int).take(t as int), hi)]
            + layout_peaks(leaves.skip(cur as int).skip(t as int), np1));
    }
}

/// How `x` splits around bit `t`.
pub(crate) proof fn lemma_floor_facts(x: nat, t: nat)
    ensures
        floor_to(x, t) + x % pow2(t) == x,
        floor_to(x, t) % pow2(t) == 0,
        floor_to(x, t) <= x,
        x % pow2(t) < pow2(t),
        floor_to(x, t) == floor_to(x, t + 1) + pow2(t) * ((x / pow2(t)) % 2),
        floor_to(x, t + 1) % pow2(t + 1) == 0,
        x % pow2(t + 1) == pow2(t) * ((x / pow2(t)) % 2) + x % pow2(t),
        x / pow2(t + 1) == (x / pow2(t)) / 2,
{
    let s = pow2(t);
    vstd::arithmetic::power2::lemma_pow2_pos(t);
    vstd::arithmetic::power2::lemma_pow2_unfold(t + 1);
    vstd::arithmetic::div_mod::lemma_fundamental_div_mod(x as int, s as int);
    vstd::arithmetic::div_mod::lemma_mod_pos_bound(x as int, s as int);
    let q = x / s;
    assert(floor_to(x, t) + x % s == x) by (nonlinear_arith)
        requires
            x == s * q + x % s,
            floor_to(x, t) == q * s,
    ;
    vstd::arithmetic::div_mod::lemma_mod_multiples_basic(q as int, s as int);
    vstd::arithmetic::div_mod::lemma_div_denominator(x as int, s as int, 2);
    assert(s * 2 == pow2(t + 1));
    let q2 = x / pow2(t + 1);
    assert(q2 == q / 2);
    vstd::arithmetic::div_mod::lemma_fundamental_div_mod(q as int, 2);
    assert(floor_to(x, t) == floor_to(x, t + 1) + s * (q % 2)) by (nonlinear_arith)
        requires
            q == 2 * (q / 2) + q % 2,
            q2 == q / 2,
            floor_to(x, t) == q * s,
            floor_to(x, t + 1) == q2 * pow2(t + 1),
            pow2(t + 1) == s * 2,
    ;
    vstd::arithmetic::div_mod::lemma_mod_multiples_basic(q2 as int, pow2(t + 1) as int);
    vstd::arithmetic::div_mod::lemma_mod_breakdown(x as int, s as int, 2);
}

/// Bits below a multiple of `2^k` do not reach it.
proof fn lemma_floor_shift(c: nat, y: nat, k: nat)
    requires
        c % pow2(k) == 0,
    ensures
        floor_to(c + y, k) == c + floor_to(y, k),
        (c + y) % pow2(k) == y % pow2(k),
{
    let s = pow2(k);
    vstd::arithmetic::power2::lemma_pow2_pos(k);
    vstd::arithmetic::div_mod::lemma_fundamental_div_mod(c as int, s as int);
    vstd::arithmetic::div_mod::lemma_fundamental_div_mod(y as int, s as int);
    vstd::arithmetic::div_mod::lemma_mod_pos_bound(y as int, s as int);
    let qc = c / s;
    let qy = y / s;
    assert(c + y == (qc + qy) * s + y % s) by (nonlinear_arith)
        requires
            c == s * qc + c % s,
            c % s == 0,
            y == s * qy + y % s,
    ;
    vstd::arithmetic::div_mod::lemma_fundamental_div_mod_converse((c + y) as int, s as int, (qc + qy) as int, (y % s) as int);
    assert(floor_to(c + y, k) == c + floor_to(y, k)) by (nonlinear_arith)
        requires
            floor_to(c + y, k) == (qc + qy) * s,
            c == s * qc,
            floor_to(y, k) == qy * s,
    ;
}

/// The parent of the node over the `2^t` leaves from `a` is the node over the
/// `2^(t+1)` leaves that holds them.
proof fn lemma_block_parent(a: nat, t: nat)
    requires
        a % pow2(t) == 0,
    ensures
        crate::merkle::mmr::in_order::io_parent(2 * a + pow2(t)) == 2 * floor_to(a, t + 1) + pow2(t + 1),
        tz(2 * a + pow2(t)) == t,
{
    let s = pow2(t);
    vstd::arithmetic::power2::lemma_pow2_pos(t);
    vstd::arithmetic::power2::lemma_pow2_unfold(t + 1);
    vstd::arithmetic::div_mod::lemma_fundamental_div_mod(a as int, s as int);
    let q = a / s;
    let i = 2 * a + s;
    assert(i == (2 * q + 1) * s) by (nonlinear_arith)
        requires
            a == s * q + a % s,
            a % s == 0,
            i == 2 * a + s,
    ;
    crate::merkle::mmr::in_order::lemma_tz_odd_times_pow2(2 * q + 1, t);
    assert(i == q * pow2(t + 1) + s) by (nonlinear_arith)
        requires
            i == (2 * q + 1) * s,
            pow2(t + 1) == 2 * s,
    ;
    vstd::arithmetic::div_mod::lemma_fundamental_div_mod_converse(i as int, pow2(t + 1) as int, q as int, s as int);
    vstd::arithmetic::div_mod::lemma_div_denominator(a as int, s as int, 2);
    assert(a / pow2(t + 1) == q / 2);
    vstd::arithmetic::div_mod::lemma_fundamental_div_mod(q as int, 2);
    if q % 2 == 0 {
        assert(floor_to(a, t + 1) == a) by (nonlinear_arith)
            requires
                floor_to(a, t + 1) == (q / 2) * pow2(t + 1),
                q == 2 * (q / 2),
                pow2(t + 1) == 2 * s,
                a == s * q,
        ;
    } else {
        assert(floor_to(a, t + 1) + s == a) by (nonlinear_arith)
            requires
                floor_to(a, t + 1) == (q / 2) * pow2(t + 1),
                q == 2 * (q / 2) + 1,
                pow2(t + 1) == 2 * s,
                a == s * q,
        ;
    }
}

/// The root over `2^(t+1)` leaves from `a` merges the roots of its halves.
proof fn lemma_root_halves(leaves: Seq<Seq<nat>>, a: nat, t: nat)
    requires
        a + pow2(t + 1) <= leaves.len(),
    ensures
        tree_root(leaves.skip(a as int).take(pow2(t + 1) as int), t + 1) == merge_digest(
            tree_root(leaves.skip(a as int).take(pow2(t) as int), t),
            tree_root(leaves.skip((a + pow2(t)) as int).take(pow2(t) as int), t),
        ),
{
    vstd::arithmetic::power2::lemma_pow2_unfold(t + 1);
    vstd::arithmetic::power2::lemma_pow2_pos(t);
    let s = pow2(t) as int;
    let x = leaves.skip(a as int).take(pow2(t + 1) as int);
    assert(x.take(s) =~= leaves.skip(a as int).take(s));
    assert(x.skip(s) =~= leaves.skip((a + pow2(t)) as int).take(s));
}

/// The setting of a delta from `c + m` to `g` leaves that merges trees: the
/// trees kept (`c`, a multiple of `2^(hb+1)`), the trees that merge (`m`,
/// nonzero and below `2^hb`, the smallest of `2^t0` leaves), and the merged
/// tree of `2^hb` leaves, all within the `gg` leaves of the full range.
pub open spec fn merge_setting(leaves: Seq<Seq<nat>>, gg: nat, c: nat, m: nat, g: nat, hb: nat, t0: nat) -> bool {
    &&& c + m < g
    &&& g <= gg <= leaves.len()
    &&& gg <= usize::MAX / 32
    &&& 0 < m < pow2(hb)
    &&& c % pow2(hb + 1) == 0
    &&& c + pow2(hb) <= g
    &&& m % pow2(t0) == 0
    &&& (m / pow2(t0)) % 2 == 1
}

/// The powers of two of a merge setting fit the machine word.
proof fn lemma_setting_words(leaves: Seq<Seq<nat>>, gg: nat, c: nat, m: nat, g: nat, hb: nat, t0: nat, t: nat)
    requires
        merge_setting(leaves, gg, c, m, g, hb, t0),
        t <= hb,
    ensures
        pow2(t) <= pow2(hb) <= g,
        pow2(t) > 0,
        pow2(hb) % pow2(t) == 0,
        pow2(t) as usize == 1usize << (t as usize),
        (pow2(t) as usize) & ((pow2(t) - 1) as usize) == 0,
        c % pow2(t) == 0,
        t < hb ==> pow2(t + 1) <= pow2(hb) && pow2(t + 1) == 2 * pow2(t) && pow2(t) <= usize::MAX / 2,
{
    lemma_pow2_divides(t, hb);
    lemma_pow2_shift(t);
    vstd::arithmetic::power2::lemma_pow2_unfold(t + 1);
    lemma_pow2_divides(hb, hb + 1);
    lemma_pow2_divides(t, hb + 1);
    lemma_mod_trans(c, pow2(hb + 1), pow2(t));
    if t < hb {
        lemma_pow2_divides(t + 1, hb);
    }
}

/// One level of the merges of a delta: the tree of `2^t` leaves that the
/// delta carries at that level (at the first merge, and where `m` lacks
/// the level), then the levels above.
proof fn lemma_level(leaves: Seq<Seq<nat>>, gg: nat, c: nat, m: nat, g: nat, hb: nat, t0: nat, t: nat)
    requires
        merge_setting(leaves, gg, c, m, g, hb, t0),
        t0 <= t < hb,
    ensures
        ({
            let n = layout(leaves, gg);
            let big = pow2(hb) as usize;
            let first = pow2(t0) as usize;
            let tt = pow2(t) as usize;
            &&& tt != 0 && tt < big && tt <= usize::MAX / 2
            &&& (tt * 2) as usize == pow2(t + 1) as usize
            &&& ((tt & (m as usize)) == 0 <==> (m / pow2(t)) % 2 == 0)
            &&& crate::merkle::mmr::full::merged_roots(n, c as usize, m as usize, first, big, tt)
                == (if t == t0 || (m / pow2(t)) % 2 == 0 {
                    seq![tree_root(leaves.skip((c + floor_to(m, t + 1) + pow2(t)) as int).take(pow2(t) as int), t)]
                } else {
                    Seq::empty()
                }) + crate::merkle::mmr::full::merged_roots(n, c as usize, m as usize, first, big, pow2(t + 1) as usize)
        }),
{
    let n = layout(leaves, gg);
    let big = pow2(hb) as usize;
    let first = pow2(t0) as usize;
    let tt = pow2(t) as usize;
    lemma_setting_words(leaves, gg, c, m, g, hb, t0, t);
    lemma_setting_words(leaves, gg, c, m, g, hb, t0, hb);
    lemma_setting_words(leaves, gg, c, m, g, hb, t0, t0);
    lemma_setting_words(leaves, gg, c, m, g, hb, t0, t + 1);
    lemma_bit_test(m as usize, t);
    if t0 < t {
        vstd::arithmetic::power2::lemma_pow2_strictly_increases(t0, t);
        assert(tt != first);
    }
    lemma_floor_facts(m, t);
    lemma_floor_facts(m, t0);
    let fl = floor_to(m, t + 1);
    let a = c + fl + pow2(t);
    if t == t0 || (m / pow2(t)) % 2 == 0 {
        lemma_mask_mod(c as usize, hb);
        lemma_mask_mod(m as usize, t);
        lemma_arg_bits(c as usize, m as usize, big, tt);
        let arg = (c as usize) | ((m as usize) & !((tt - 1) as usize)) | tt;
        if t == t0 {
            assert(arg as nat == c + m);
        } else {
            assert(arg as nat == c + floor_to(m, t) + pow2(t));
        }
        if t == t0 {
            assert(m % pow2(t) == 0);
            assert(floor_to(m, t) == m);
            assert(pow2(t) * ((m / pow2(t)) % 2) == pow2(t));
        } else {
            let bb = (m / pow2(t)) % 2;
            assert(bb == 0);
            assert(pow2(t) * bb == 0) by (nonlinear_arith)
                requires
                    bb == 0,
            ;
        }
        assert(arg as nat == a);
        // the block of the carried tree
        lemma_pow2_divides(t + 1, hb + 1);
        lemma_mod_trans(c, pow2(hb + 1), pow2(t + 1));
        lemma_floor_shift(c, fl, t + 1);
        lemma_pow2_divides(t, t + 1);
        lemma_mod_trans(c + fl, pow2(t + 1), pow2(t));
        lemma_floor_shift(c + fl, pow2(t), t);
        vstd::arithmetic::div_mod::lemma_mod_self_0(pow2(t) as int);
        assert(a % pow2(t) == 0);
        lemma_pow2_divides(t + 1, hb);
        lemma_multiples_gap(fl, pow2(hb), pow2(t + 1));
        assert(a + pow2(t) <= g);
        lemma_block_root(leaves, gg, a, t);
        lemma_layout_len(leaves, gg);
        assert(crate::merkle::mmr::full::node_before(n, (nodes_in_forest_spec(a) + nodes_in_forest_spec(pow2(t))) as int)
            =~= seq![tree_root(leaves.skip(a as int).take(pow2(t) as int), t)]);
    }
}

/// Clearing the bits below `t`, then those below `t + 1`, clears those below `t + 1`.
proof fn lemma_floor_twice(y: nat, t: nat)
    ensures
        floor_to(floor_to(y, t), t + 1) == floor_to(y, t + 1),
{
    lemma_floor_facts(y, t);
    let b = (y / pow2(t)) % 2;
    lemma_floor_shift(floor_to(y, t + 1), pow2(t) * b, t + 1);
    vstd::arithmetic::power2::lemma_pow2_unfold(t + 1);
    vstd::arithmetic::power2::lemma_pow2_pos(t + 1);
    assert(pow2(t) * b < pow2(t + 1)) by (nonlinear_arith)
        requires
            b < 2,
            pow2(t + 1) == 2 * pow2(t),
            pow2(t) > 0,
    ;
    vstd::arithmetic::div_mod::lemma_basic_div((pow2(t) * b) as int, pow2(t + 1) as int);
    assert(floor_to(pow2(t) * b, t + 1) == 0);
}

/// The count of trees that a delta carries for the levels from `t` up: one for
/// each level that `m` lacks.
proof fn lemma_merged_count(leaves: Seq<Seq<nat>>, gg: nat, c: nat, m: nat, g: nat, hb: nat, t0: nat, t: nat)
    requires
        merge_setting(leaves, gg, c, m, g, hb, t0),
        t0 < t <= hb,
    ensures
        crate::merkle::mmr::full::merged_roots(layout(leaves, gg), c as usize, m as usize, pow2(t0) as usize,
            pow2(hb) as usize, pow2(t) as usize).len() + popcount(m / pow2(t)) == hb - t,
    decreases hb - t,
{
    lemma_setting_words(leaves, gg, c, m, g, hb, t0, t);
    lemma_setting_words(leaves, gg, c, m, g, hb, t0, hb);
    if t == hb {
        vstd::arithmetic::div_mod::lemma_basic_div(m as int, pow2(hb) as int);
        assert(popcount(0) == 0);
    } else {
        lemma_level(leaves, gg, c, m, g, hb, t0, t);
        lemma_merged_count(leaves, gg, c, m, g, hb, t0, t + 1);
        lemma_floor_facts(m, t);
        let q = m / pow2(t);
        assert(popcount(q) == q % 2 + popcount(q / 2));
    }
}

/// Applying entries to a map of known nodes, in order.
pub open spec fn view_apply(m: Map<usize, Seq<nat>>, s: Seq<(nat, Seq<nat>)>) -> Map<usize, Seq<nat>>
    decreases s.len(),
{
    if s.len() == 0 {
        m
    } else {
        view_apply(m, s.drop_last()).insert(s.last().0 as usize, s.last().1)
    }
}

/// Recording one more entry.
proof fn lemma_view_apply_push(m: Map<usize, Seq<nat>>, s: Seq<(nat, Seq<nat>)>, e: (nat, Seq<nat>))
    ensures
        view_apply(m, s.push(e)) == view_apply(m, s).insert(e.0 as usize, e.1),
{
    assert(s.push(e).drop_last() =~= s);
}

/// Whether in-order index `k` names a node of one of the trees of a range of
/// `f` leaves other than that tree's root (the tree of `2^h` leaves that bit
/// `h` of `f` stands for begins at leaf `floor_to(f, h + 1)`): the nodes that
/// a partial range of `f` leaves keeps for the paths it tracks.
#[verifier::opaque]
pub open spec fn inner_node_of(f: nat, k: nat) -> bool {
    exists|h: nat|
        #![trigger pow2(h)]
        (f / pow2(h)) % 2 == 1 && 2 * floor_to(f, h + 1) < k < 2 * floor_to(f, h + 1) + pow2(h + 1) && k != 2
            * floor_to(f, h + 1) + pow2(h)
}

/// A number times a bit.
proof fn lemma_times_bit(p: nat, b: nat)
    requires
        b < 2,
    ensures
        b == 0 ==> p * b == 0,
        b == 1 ==> p * b == p,
{
    assert(b == 0 ==> p * b == 0) by (nonlinear_arith);
    assert(b == 1 ==> p * b == p) by (nonlinear_arith);
}

/// Clearing more low bits gives a number no larger.
proof fn lemma_floor_mono(x: nat, t: nat, h: nat)
    requires
        t <= h,
    ensures
        floor_to(x, h) <= floor_to(x, t),
{
    lemma_pow2_divides(t, h);
    lemma_floor_facts(x, h);
    lemma_floor_facts(x, t);
    let y = floor_to(x, h);
    lemma_mod_trans(y, pow2(h), pow2(t));
    if y > floor_to(x, t) {
        lemma_multiples_gap(floor_to(x, t), y, pow2(t));
    }
}

/// A multiple of `2^t` less than `2^t` below `y` is `y` with its low bits cleared.
proof fn lemma_floor_unique(y: nat, t: nat, x: nat)
    requires
        x % pow2(t) == 0,
        x <= y < x + pow2(t),
    ensures
        floor_to(y, t) == x,
{
    vstd::arithmetic::power2::lemma_pow2_pos(t);
    lemma_floor_shift(x, (y - x) as nat, t);
    vstd::arithmetic::div_mod::lemma_basic_div((y - x) as int, pow2(t) as int);
    assert(x + (y - x) as nat == y);
    let q = (y - x) as nat / pow2(t);
    assert(q * pow2(t) == 0) by (nonlinear_arith)
        requires
            q == 0,
    ;
}

/// The sibling of the node over the `2^t` leaves from `lo`: the block after it
/// when it is a left child, the block before it otherwise.
proof fn lemma_block_sibling(lo: nat, t: nat)
    requires
        lo % pow2(t) == 0,
    ensures
        floor_to(lo, t + 1) == lo ==> crate::merkle::mmr::partial::io_sibling(2 * lo + pow2(t)) == 2 * (lo + pow2(t))
            + pow2(t),
        floor_to(lo, t + 1) != lo ==> lo >= pow2(t) && floor_to(lo, t + 1) == lo - pow2(t)
            && crate::merkle::mmr::partial::io_sibling(2 * lo + pow2(t)) == 2 * (lo - pow2(t)) + pow2(t),
{
    lemma_block_parent(lo, t);
    lemma_floor_facts(lo, t);
    let a = floor_to(lo, t + 1);
    lemma_block_parent(a, t + 1);
    vstd::arithmetic::power2::lemma_pow2_unfold(t + 1);
    vstd::arithmetic::power2::lemma_pow2_unfold(t + 2);
    let b = (lo / pow2(t)) % 2;
    assert(floor_to(lo, t) == lo);
    if b == 0 {
        assert(pow2(t) * b == 0) by (nonlinear_arith)
            requires
                b == 0,
        ;
        assert(a == lo);
    } else {
        assert(pow2(t) * b == pow2(t)) by (nonlinear_arith)
            requires
                b == 1,
        ;
        assert(a == lo - pow2(t));
    }
}

/// The node over an aligned block of `2^t` leaves that does not begin before
/// the last such block of a range of `f` leaves names no inner node of it.
proof fn lemma_block_not_inner(f: nat, lo: nat, t: nat)
    requires
        lo % pow2(t) == 0,
        lo >= floor_to(f, t),
    ensures
        !inner_node_of(f, 2 * lo + pow2(t)),
{
    reveal(inner_node_of);
    let k = 2 * lo + pow2(t);
    if inner_node_of(f, k) {
        let h = choose|h: nat|
            #![trigger pow2(h)]
            (f / pow2(h)) % 2 == 1 && 2 * floor_to(f, h + 1) < k < 2 * floor_to(f, h + 1) + pow2(h + 1) && k != 2
                * floor_to(f, h + 1) + pow2(h);
        let a = floor_to(f, h + 1);
        lemma_floor_facts(f, h);
        lemma_floor_facts(f, t);
        vstd::arithmetic::power2::lemma_pow2_unfold(h + 1);
        vstd::arithmetic::power2::lemma_pow2_pos(t);
        vstd::arithmetic::power2::lemma_pow2_pos(h);
        lemma_times_bit(pow2(h), ((f / pow2(h)) % 2));
        assert(pow2(h) * ((f / pow2(h)) % 2) == pow2(h));
        assert(floor_to(f, h) == a + pow2(h));
        if h >= t {
            lemma_floor_mono(f, t, h);
        } else {
            lemma_floor_mono(f, h + 1, t);
            if lo < f {
                if lo > floor_to(f, t) {
                    lemma_multiples_gap(floor_to(f, t), lo, pow2(t));
                }
                assert(lo == floor_to(f, t));
                vstd::arithmetic::power2::lemma_pow2_unfold(t);
                let x = lo + pow2((t - 1) as nat);
                lemma_pow2_divides(h, t);
                lemma_pow2_divides(h, (t - 1) as nat);
                lemma_pow2_divides(h, h + 1);
                lemma_mod_trans(lo, pow2(t), pow2(h));
                lemma_floor_shift(lo, pow2((t - 1) as nat), h);
                lemma_mod_trans(a, pow2(h + 1), pow2(h));
                assert(a < x < a + pow2(h));
                lemma_multiples_gap(a, x, pow2(h));
            }
        }
    }
}

/// The root of a tree of a range of `f` leaves names no inner node of it.
proof fn lemma_root_not_inner(f: nat, t: nat)
    requires
        (f / pow2(t)) % 2 == 1,
    ensures
        !inner_node_of(f, 2 * floor_to(f, t + 1) + pow2(t)),
{
    reveal(inner_node_of);
    let a0 = floor_to(f, t + 1);
    let k = 2 * a0 + pow2(t);
    if inner_node_of(f, k) {
        let h = choose|h: nat|
            #![trigger pow2(h)]
            (f / pow2(h)) % 2 == 1 && 2 * floor_to(f, h + 1) < k < 2 * floor_to(f, h + 1) + pow2(h + 1) && k != 2
                * floor_to(f, h + 1) + pow2(h);
        let a = floor_to(f, h + 1);
        lemma_floor_facts(f, h);
        lemma_floor_facts(f, t);
        vstd::arithmetic::power2::lemma_pow2_unfold(h + 1);
        vstd::arithmetic::power2::lemma_pow2_unfold(t + 1);
        lemma_times_bit(pow2(h), ((f / pow2(h)) % 2));
        assert(pow2(h) * ((f / pow2(h)) % 2) == pow2(h));
        lemma_times_bit(pow2(t), ((f / pow2(t)) % 2));
        assert(pow2(t) * ((f / pow2(t)) % 2) == pow2(t));
        if h > t {
            lemma_floor_mono(f, t + 1, h);
        } else if h < t {
            lemma_floor_mono(f, h + 1, t);
        }
    }
}

/// The entries that one level of the merges of a delta records, the merged
/// node and the sibling met, name no inner node of the first `c + m` leaves.
#[verifier::spinoff_prover]
proof fn lemma_level_keys(leaves: Seq<Seq<nat>>, gg: nat, c: nat, m: nat, g: nat, hb: nat, t0: nat, t: nat, idx: nat)
    requires
        merge_setting(leaves, gg, c, m, g, hb, t0),
        t0 <= t < hb,
        idx == 2 * (c + floor_to((m - 1) as nat, t)) + pow2(t),
    ensures
        !inner_node_of(c + m, idx),
        !inner_node_of(c + m, crate::merkle::mmr::partial::io_sibling(idx)),
        crate::merkle::mmr::partial::io_sibling(idx) < usize::MAX / 8,
{
    let f = c + m;
    lemma_setting_words(leaves, gg, c, m, g, hb, t0, t);
    lemma_setting_words(leaves, gg, c, m, g, hb, t0, t + 1);
    lemma_setting_words(leaves, gg, c, m, g, hb, t0, t0);
    lemma_floor_shift(c, m, t);
    lemma_floor_shift(c, m, t + 1);
    lemma_floor_facts(f, t);
    lemma_floor_facts(m, t);
    lemma_floor_facts(m, t0);
    let bf = (f / pow2(t)) % 2;
    let bm = (m / pow2(t)) % 2;
    assert(bf == bm) by {
        if bf != bm {
            assert(pow2(t) * bf != pow2(t) * bm) by (nonlinear_arith)
                requires
                    bf != bm,
                    bf < 2,
                    bm < 2,
                    pow2(t) > 0,
            ;
        }
    }
    if t == t0 {
        lemma_times_bit(pow2(t0), ((m / pow2(t0)) % 2));
        assert(pow2(t0) * ((m / pow2(t0)) % 2) == pow2(t0));
        assert(floor_to(m, t0) == m);
        let fm = floor_to(m, t0 + 1);
        assert(fm == m - pow2(t0));
        lemma_pow2_divides(t0, t0 + 1);
        lemma_mod_trans(fm, pow2(t0 + 1), pow2(t0));
        lemma_floor_unique((m - 1) as nat, t0, fm);
        assert(idx == 2 * floor_to(f, t0 + 1) + pow2(t0));
        lemma_root_not_inner(f, t0);
        let lo = floor_to(f, t0 + 1);
        lemma_floor_facts(f, t0 + 1);
        lemma_pow2_divides(t0, t0 + 1);
        lemma_mod_trans(lo, pow2(t0 + 1), pow2(t0));
        lemma_floor_unique(lo, t0 + 1, lo);
        lemma_block_sibling(lo, t0);
        assert(lo + pow2(t0) == f);
        lemma_block_not_inner(f, f, t0);
    } else {
        // the level of the merged node holds the smallest tree, so clearing the
        // bits below it from `m - 1` or from `m` gives the same
        lemma_pow2_divides(t0 + 1, t);
        vstd::arithmetic::power2::lemma_pow2_unfold(t0 + 1);
        if m % pow2(t) == 0 {
            lemma_mod_trans(m, pow2(t), pow2(t0 + 1));
            lemma_times_bit(pow2(t0), ((m / pow2(t0)) % 2));
            assert(pow2(t0) * ((m / pow2(t0)) % 2) == pow2(t0));
            assert(false);
        }
        lemma_floor_unique((m - 1) as nat, t, floor_to(m, t));
        let lo = floor_to(f, t);
        assert(idx == 2 * lo + pow2(t));
        lemma_block_not_inner(f, lo, t);
        lemma_block_sibling(lo, t);
        lemma_floor_facts(f, t + 1);
        if bf == 0 {
            lemma_times_bit(pow2(t), bf);
            assert(pow2(t) * bf == 0);
            assert(lo == floor_to(f, t + 1));
            lemma_floor_unique(lo, t + 1, lo);
            lemma_floor_shift(lo, pow2(t), t);
            vstd::arithmetic::div_mod::lemma_mod_self_0(pow2(t) as int);
            lemma_block_not_inner(f, lo + pow2(t), t);
        } else {
            lemma_times_bit(pow2(t), bf);
            assert(pow2(t) * bf == pow2(t));
            lemma_floor_unique(lo, t + 1, floor_to(f, t + 1));
            lemma_root_not_inner(f, t);
        }
    }
}

/// The value a range over `leaves` has at in-order index `k`: the root of the
/// `2^h` leaves from `lo`, where `k == 2 * lo + 2^h` and `h` counts the
/// trailing zeros of `k`.
#[verifier::opaque]
pub open spec fn node_value(leaves: Seq<Seq<nat>>, k: nat) -> Seq<nat> {
    let h = tz(k);
    tree_root(leaves.skip(((k - pow2(h)) / 2) as int).take(pow2(h) as int), h)
}

/// Entries whose values are those of a range over `leaves` at their indices.
#[verifier::opaque]
pub open spec fn valued_entries(leaves: Seq<Seq<nat>>, acc: Seq<(nat, Seq<nat>)>) -> bool {
    forall|i: int| 0 <= i < acc.len() ==> (#[trigger] acc[i]).1 == node_value(leaves, acc[i].0)
}

/// Known nodes that are inner nodes of the trees of `f` leaves.
#[verifier::opaque]
pub open spec fn keys_inner(f: nat, m: Map<usize, Seq<nat>>) -> bool {
    forall|k: usize| #[trigger] m.dom().contains(k) ==> inner_node_of(f, k as nat)
}

/// Known nodes whose values are those of a range over `leaves`.
pub open spec fn map_valued(leaves: Seq<Seq<nat>>, m: Map<usize, Seq<nat>>) -> bool {
    forall|k: usize| #[trigger] m.dom().contains(k) ==> m[k] == node_value(leaves, k as nat)
}

/// Recording one more entry with its value.
proof fn lemma_valued_push(leaves: Seq<Seq<nat>>, acc: Seq<(nat, Seq<nat>)>, e: (nat, Seq<nat>))
    requires
        valued_entries(leaves, acc),
        e.1 == node_value(leaves, e.0),
    ensures
        valued_entries(leaves, acc.push(e)),
{
    reveal(valued_entries);
    assert forall|i: int| 0 <= i < acc.push(e).len() implies (#[trigger] acc.push(e)[i]).1 == node_value(leaves,
        acc.push(e)[i].0) by {
        if i < acc.len() {
            assert(acc.push(e)[i] == acc[i]);
        }
    }
}

/// The value at the index of an aligned block of `2^t` leaves is the root over it.
proof fn lemma_block_value(leaves: Seq<Seq<nat>>, lo: nat, t: nat)
    requires
        lo % pow2(t) == 0,
    ensures
        node_value(leaves, 2 * lo + pow2(t)) == tree_root(leaves.skip(lo as int).take(pow2(t) as int), t),
{
    reveal(node_value);
    lemma_block_parent(lo, t);
}

/// Recording entries with their values keeps the known nodes true of the range.
proof fn lemma_view_apply_valued(leaves: Seq<Seq<nat>>, m: Map<usize, Seq<nat>>, s: Seq<(nat, Seq<nat>)>, f: nat)
    requires
        map_valued(leaves, m),
        valued_entries(leaves, s),
        fresh_entries(f, s),
    ensures
        map_valued(leaves, view_apply(m, s)),
    decreases s.len(),
{
    if s.len() > 0 {
        reveal(valued_entries);
        reveal(fresh_entries);
        let d = s.drop_last();
        assert forall|i: int| 0 <= i < d.len() implies (#[trigger] d[i]).1 == node_value(leaves, d[i].0) by {
            assert(d[i] == s[i]);
        }
        assert forall|i: int| 0 <= i < d.len() implies (#[trigger] d[i]).0 < usize::MAX / 8 && !inner_node_of(f,
            d[i].0) by {
            assert(d[i] == s[i]);
        }
        lemma_view_apply_valued(leaves, m, d, f);
        let e = s.last();
        assert(e == s[s.len() - 1]);
        assert((e.0 as usize) as nat == e.0);
    }
}

/// The node over an aligned block of `2^t` leaves: its value, which side of
/// its parent it is on, and the value of its sibling.
proof fn lemma_block_facts(leaves: Seq<Seq<nat>>, lo: nat, t: nat)
    requires
        lo % pow2(t) == 0,
    ensures
        node_value(leaves, 2 * lo + pow2(t)) == tree_root(leaves.skip(lo as int).take(pow2(t) as int), t),
        (crate::merkle::mmr::in_order::io_left(crate::merkle::mmr::in_order::io_parent(2 * lo + pow2(t))) == 2 * lo
            + pow2(t)) <==> floor_to(lo, t + 1) == lo,
        floor_to(lo, t + 1) == lo ==> node_value(leaves, crate::merkle::mmr::partial::io_sibling(2 * lo + pow2(t)))
            == tree_root(leaves.skip((lo + pow2(t)) as int).take(pow2(t) as int), t),
        floor_to(lo, t + 1) != lo ==> lo >= pow2(t) && node_value(leaves, crate::merkle::mmr::partial::io_sibling(2
            * lo + pow2(t))) == tree_root(leaves.skip((lo - pow2(t)) as int).take(pow2(t) as int), t),
{
    vstd::arithmetic::power2::lemma_pow2_unfold(t + 1);
    lemma_block_parent(lo, t);
    let a = floor_to(lo, t + 1);
    lemma_floor_facts(lo, t);
    lemma_block_parent(a, t + 1);
    lemma_block_sibling(lo, t);
    lemma_block_value(leaves, lo, t);
    if floor_to(lo, t + 1) == lo {
        lemma_floor_shift(lo, pow2(t), t);
        vstd::arithmetic::div_mod::lemma_mod_self_0(pow2(t) as int);
        lemma_block_value(leaves, lo + pow2(t), t);
    } else {
        lemma_pow2_divides(t, t + 1);
        lemma_mod_trans(a, pow2(t + 1), pow2(t));
        lemma_block_value(leaves, (lo - pow2(t)) as nat, t);
    }
}

/// Where the known nodes are inner nodes of the trees of `f` leaves, the node
/// over the `2^t` leaves after them, `t` the lowest set bit of `f`, is not
/// tracked.
proof fn lemma_first_sibling_untracked(f: nat, t: nat, base: Map<usize, Seq<nat>>)
    requires
        f % pow2(t) == 0,
        (f / pow2(t)) % 2 == 1,
        f <= usize::MAX / 32,
        pow2(t) <= f,
        keys_inner(f, base),
    ensures
        !crate::merkle::mmr::partial::tracked_node(base, 2 * f + pow2(t)),
{
    reveal(keys_inner);
    let sib = 2 * f + pow2(t);
    lemma_floor_facts(f, t);
    if t == 0 {
        vstd::arithmetic::power2::lemma2_to64();
        assert(sib % 2 == 1);
        lemma_times_bit(pow2(0), (f / pow2(0)) % 2);
        lemma_block_sibling(f, 0);
        lemma_root_not_inner(f, 0);
        let s2 = crate::merkle::mmr::partial::io_sibling(sib);
        assert(s2 == 2 * floor_to(f, 1) + pow2(0));
        if base.dom().contains(s2 as usize) {
            assert((s2 as usize) as nat == s2);
        }
    } else {
        vstd::arithmetic::power2::lemma_pow2_unfold(t);
        let h = (t - 1) as nat;
        assert(sib == 2 * (f + pow2(h)));
        assert(sib % 2 == 0);
        lemma_pow2_divides(h, t);
        lemma_mod_trans(f, pow2(t), pow2(h));
        lemma_floor_facts(f, h);
        lemma_block_not_inner(f, f, h);
        lemma_floor_shift(f, pow2(h), h);
        vstd::arithmetic::div_mod::lemma_mod_self_0(pow2(h) as int);
        lemma_block_not_inner(f, f + pow2(h), h);
        lemma_block_parent(f, t);
        let l2 = crate::merkle::mmr::in_order::io_left(sib);
        let r2 = crate::merkle::mmr::in_order::io_right(sib);
        assert(l2 == 2 * f + pow2(h));
        assert(r2 == 2 * (f + pow2(h)) + pow2(h));
        if base.dom().contains(l2 as usize) {
            assert((l2 as usize) as nat == l2);
        }
        if base.dom().contains(r2 as usize) {
            assert((r2 as usize) as nat == r2);
        }
    }
}

/// The values of the entries that one level of the merges of a delta records,
/// and which side of its parent the merged node is on; at the first level,
/// the sibling met is not tracked where the known nodes are inner nodes.
#[verifier::spinoff_prover]
proof fn lemma_level_values(leaves: Seq<Seq<nat>>, gg: nat, c: nat, m: nat, g: nat, hb: nat, t0: nat, t: nat, idx: nat,
    base: Map<usize, Seq<nat>>)
    requires
        merge_setting(leaves, gg, c, m, g, hb, t0),
        t0 <= t < hb,
        idx == 2 * (c + floor_to((m - 1) as nat, t)) + pow2(t),
    ensures
        (crate::merkle::mmr::in_order::io_left(crate::merkle::mmr::in_order::io_parent(idx)) == idx) <==> (t == t0
            || (m / pow2(t)) % 2 == 0),
        t > t0 ==> node_value(leaves, idx) == tree_root(leaves.skip((c + floor_to(m, t)) as int).take(pow2(t) as int), t),
        (m / pow2(t)) % 2 == 0 ==> node_value(leaves, crate::merkle::mmr::partial::io_sibling(idx)) == tree_root(
            leaves.skip((c + floor_to(m, t + 1) + pow2(t)) as int).take(pow2(t) as int), t),
        t > t0 && (m / pow2(t)) % 2 == 1 ==> node_value(leaves, crate::merkle::mmr::partial::io_sibling(idx))
            == tree_root(leaves.skip((c + floor_to(m, t + 1)) as int).take(pow2(t) as int), t),
        t == t0 ==> node_value(leaves, crate::merkle::mmr::partial::io_sibling(idx)) == tree_root(
            leaves.skip((c + m) as int).take(pow2(t) as int), t),
        t == t0 && keys_inner(c + m, base) ==> !crate::merkle::mmr::partial::tracked_node(base,
            crate::merkle::mmr::partial::io_sibling(idx)),
{
    let f = c + m;
    lemma_setting_words(leaves, gg, c, m, g, hb, t0, t);
    lemma_setting_words(leaves, gg, c, m, g, hb, t0, t + 1);
    lemma_setting_words(leaves, gg, c, m, g, hb, t0, t0);
    lemma_floor_shift(c, m, t);
    lemma_floor_shift(c, m, t + 1);
    lemma_floor_facts(f, t);
    lemma_floor_facts(m, t);
    lemma_floor_facts(m, t0);
    lemma_floor_facts(f, t + 1);
    vstd::arithmetic::power2::lemma_pow2_unfold(t + 1);
    let bm = (m / pow2(t)) % 2;
    lemma_times_bit(pow2(t), bm);
    if t == t0 {
        let lo = floor_to(f, t0 + 1);
        lemma_times_bit(pow2(t0), (m / pow2(t0)) % 2);
        assert(floor_to(m, t0) == m);
        let fm = floor_to(m, t0 + 1);
        lemma_pow2_divides(t0, t0 + 1);
        lemma_mod_trans(fm, pow2(t0 + 1), pow2(t0));
        lemma_floor_unique((m - 1) as nat, t0, fm);
        lemma_mod_trans(lo, pow2(t0 + 1), pow2(t0));
        lemma_floor_unique(lo, t0 + 1, lo);
        assert(lo + pow2(t0) == f);
        assert(idx == 2 * lo + pow2(t));
        lemma_block_facts(leaves, lo, t);
        lemma_floor_shift(c, m, t0);
        lemma_block_sibling(lo, t);
        if keys_inner(f, base) {
            lemma_first_sibling_untracked(f, t0, base);
        }
    } else {
        let lo = floor_to(f, t);
        lemma_pow2_divides(t0 + 1, t);
        vstd::arithmetic::power2::lemma_pow2_unfold(t0 + 1);
        if m % pow2(t) == 0 {
            lemma_mod_trans(m, pow2(t), pow2(t0 + 1));
            lemma_times_bit(pow2(t0), (m / pow2(t0)) % 2);
            assert(false);
        }
        lemma_floor_unique((m - 1) as nat, t, floor_to(m, t));
        if bm == 0 {
            lemma_floor_unique(lo, t + 1, lo);
        } else {
            lemma_floor_unique(lo, t + 1, floor_to(f, t + 1));
        }
        assert(idx == 2 * lo + pow2(t));
        lemma_block_facts(leaves, lo, t);
    }
}

/// Entries that name no inner node of the first `f` leaves, within the word.
#[verifier::opaque]
pub open spec fn fresh_entries(f: nat, acc: Seq<(nat, Seq<nat>)>) -> bool {
    forall|i: int| 0 <= i < acc.len() ==> (#[trigger] acc[i]).0 < usize::MAX / 8 && !inner_node_of(f, acc[i].0)
}

/// Recording one more such entry.
proof fn lemma_fresh_push(f: nat, acc: Seq<(nat, Seq<nat>)>, e: (nat, Seq<nat>))
    requires
        fresh_entries(f, acc),
        e.0 < usize::MAX / 8,
        !inner_node_of(f, e.0),
    ensures
        fresh_entries(f, acc.push(e)),
{
    reveal(fresh_entries);
    assert forall|i: int| 0 <= i < acc.push(e).len() implies (#[trigger] acc.push(e)[i]).0 < usize::MAX / 8
        && !inner_node_of(f, acc.push(e)[i].0) by {
        if i < acc.len() {
            assert(acc.push(e)[i] == acc[i]);
        }
    }
}

/// The merges of a delta from level `t` up, on the peaks of the first `c + m`
/// leaves and the trees the delta carries: they succeed, use every peak that
/// merges and every carried tree, and end at the root of the merged tree;
/// the known nodes are those recorded, in order.
#[verifier::spinoff_prover]
#[verifier::rlimit(100)]
proof fn lemma_merges_run(leaves: Seq<Seq<nat>>, gg: nat, c: nat, m: nat, g: nat, hb: nat, t0: nat, t: nat,
    base: Map<usize, Seq<nat>>, mm: Map<usize, Seq<nat>>, acc: Seq<(nat, Seq<nat>)>, pc: nat, new: Seq<nat>, uc: nat,
    idx: nat, track: bool, data: Seq<Seq<nat>>, rest: Seq<Seq<nat>>)
    requires
        merge_setting(leaves, gg, c, m, g, hb, t0),
        t0 <= t <= hb,
        mm == view_apply(base, acc),
        new == tree_root(leaves.skip((c + floor_to(m, t)) as int).take(pow2(t) as int), t),
        pc == popcount(m % pow2(t)),
        uc <= data.len(),
        data.skip(uc as int) == (if t == t0 {
            crate::merkle::mmr::full::merged_roots(layout(leaves, gg), c as usize, m as usize, pow2(t0) as usize,
                pow2(hb) as usize, pow2(t0 + 1) as usize)
        } else {
            crate::merkle::mmr::full::merged_roots(layout(leaves, gg), c as usize, m as usize, pow2(t0) as usize,
                pow2(hb) as usize, pow2(t) as usize)
        }) + rest,
        idx == 2 * (c + floor_to((m - 1) as nat, t)) + pow2(t),
        fresh_entries(c + m, acc),
        t == t0 ==> acc.len() == 0,
        keys_inner(c + m, base) ==> valued_entries(leaves, acc),
    ensures
        crate::merkle::mmr::partial::apply_merges(mm, acc, layout_peaks(leaves, c + m).reverse(), data, m as usize,
            pow2(hb) as usize, pc, new, uc, idx, track, pow2(t) as usize) matches Some((m2, a2, pc2, new2, uc2))
            && m2 == view_apply(base, a2)
            && fresh_entries(c + m, a2)
            && (keys_inner(c + m, base) ==> valued_entries(leaves, a2))
            && pc2 == popcount(m)
            && new2 == tree_root(leaves.skip(c as int).take(pow2(hb) as int), hb)
            && uc2 <= data.len()
            && data.skip(uc2 as int) == rest,
    decreases hb - t,
{
    let n = layout(leaves, gg);
    let big = pow2(hb) as usize;
    let first = pow2(t0) as usize;
    let rp = layout_peaks(leaves, c + m).reverse();
    lemma_setting_words(leaves, gg, c, m, g, hb, t0, t);
    lemma_setting_words(leaves, gg, c, m, g, hb, t0, hb);
    lemma_setting_words(leaves, gg, c, m, g, hb, t0, t0);
    lemma_floor_facts(m, t);
    if t0 >= hb {
        lemma_pow2_divides(hb, t0);
        vstd::arithmetic::div_mod::lemma_fundamental_div_mod(m as int, pow2(t0) as int);
        assert(false);
    }
    if t == hb {
        vstd::arithmetic::div_mod::lemma_small_mod(m, pow2(hb));
        vstd::arithmetic::div_mod::lemma_basic_div(m as int, pow2(hb) as int);
        assert(floor_to(m, hb) == 0);
        assert(data.skip(uc as int) =~= rest);
    } else {
        let tt = pow2(t) as usize;
        lemma_level(leaves, gg, c, m, g, hb, t0, t);
        lemma_setting_words(leaves, gg, c, m, g, hb, t0, t + 1);
        lemma_floor_facts(m, t + 1);
        // the node merged at this level is in range
        lemma_floor_facts((m - 1) as nat, t);
        lemma_multiples_gap(floor_to((m - 1) as nat, t), pow2(hb), pow2(t));
        assert(idx < usize::MAX / 16);
        assert(crate::merkle::mmr::partial::index_small(idx));
        // its parent
        lemma_floor_shift(c, floor_to((m - 1) as nat, t), t);
        lemma_pow2_divides(t + 1, hb + 1);
        lemma_mod_trans(c, pow2(hb + 1), pow2(t + 1));
        lemma_floor_shift(c, floor_to((m - 1) as nat, t), t + 1);
        lemma_floor_twice((m - 1) as nat, t);
        lemma_block_parent(c + floor_to((m - 1) as nat, t), t);
        let idx2 = crate::merkle::mmr::in_order::io_parent(idx);
        lemma_pow2_divides(hb, hb + 1);
        lemma_pow2_divides(t + 1, hb);
        lemma_multiples_gap(floor_to(m, t + 1), pow2(hb), pow2(t + 1));
        assert(c + floor_to(m, t + 1) + pow2(t + 1) <= leaves.len());
        assert(idx2 == 2 * (c + floor_to((m - 1) as nat, t + 1)) + pow2(t + 1));
        let tr = if tt != 1 && !track { crate::merkle::mmr::partial::tracked_node(mm, idx) } else { track };
        lemma_level_keys(leaves, gg, c, m, g, hb, t0, t, idx);
        lemma_level_values(leaves, gg, c, m, g, hb, t0, t, idx, base);
        if t == t0 {
            assert(mm == base);
        }
        let sib = crate::merkle::mmr::partial::io_sibling(idx);
        let lc = crate::merkle::mmr::in_order::io_left(idx2) == idx;
        if (m / pow2(t)) % 2 == 0 {
            assert(t != t0);
            let x = tree_root(leaves.skip((c + floor_to(m, t + 1) + pow2(t)) as int).take(pow2(t) as int), t);
            let r2 = crate::merkle::mmr::full::merged_roots(n, c as usize, m as usize, first, big, pow2(t + 1) as usize);
            assert(data.skip(uc as int) == seq![x] + r2 + rest);
            assert(data.skip(uc as int)[0] == data[uc as int]);
            assert(data[uc as int] == x);
            assert(data.skip(uc + 1 as int) =~= r2 + rest) by {
                assert(data.skip(uc + 1 as int) =~= data.skip(uc as int).skip(1));
                assert((seq![x] + r2 + rest).skip(1) =~= r2 + rest);
            }
            assert(floor_to(m, t + 1) == floor_to(m, t));
            lemma_root_halves(leaves, c + floor_to(m, t), t);
            let new2 = merge_digest(new, x);
            assert(new2 == tree_root(leaves.skip((c + floor_to(m, t + 1)) as int).take(pow2(t + 1) as int), t + 1));
            let sv = if lc { x } else { new };
            let m2 = if tr { mm.insert(sib as usize, sv) } else { mm };
            let a2 = if tr { acc.push((sib, sv)) } else { acc };
            if tr {
                lemma_fresh_push(c + m, acc, (sib, sv));
                if keys_inner(c + m, base) {
                    lemma_valued_push(leaves, acc, (sib, sv));
                }
            }
            lemma_view_apply_push(base, acc, (sib, sv));
            assert(m % pow2(t + 1) == m % pow2(t));
            lemma_merges_run(leaves, gg, c, m, g, hb, t0, t + 1, base, m2, a2, pc, new2, uc + 1, idx2, tr, data, rest);
        } else {
            lemma_pc_add_low(c, hb + 1, m);
            lemma_layout_len(leaves, c + m);
            lemma_layout_len(leaves, c);
            lemma_bit_peak(leaves.skip(c as int), m, t);
            let fl = floor_to(m, t + 1);
            assert(pc < rp.len());
            lemma_layout_split(leaves, c, m, hb + 1);
            let lp = layout_peaks(leaves, c + m);
            assert(rp[pc as int] == lp[lp.len() - 1 - pc]);
            assert(lp.len() - 1 - pc == popcount(c) + popcount(fl));
            assert(lp[(popcount(c) + popcount(fl)) as int] == layout_peaks(leaves.skip(c as int), m)[popcount(fl) as int]);
            assert(leaves.skip(c as int).skip(fl as int) =~= leaves.skip((c + fl) as int));
            let left = rp[pc as int];
            assert(left == tree_root(leaves.skip((c + fl) as int).take(pow2(t) as int), t));
            assert(floor_to(m, t) == fl + pow2(t));
            lemma_root_halves(leaves, c + fl, t);
            let new2 = merge_digest(left, new);
            let keep = crate::merkle::mmr::partial::tracked_node(mm, sib);
            let m1 = if keep { mm.insert(idx as usize, new) } else { mm };
            let a1 = if keep { acc.push((idx, new)) } else { acc };
            if keep {
                lemma_fresh_push(c + m, acc, (idx, new));
                if keys_inner(c + m, base) {
                    lemma_valued_push(leaves, acc, (idx, new));
                }
            }
            lemma_view_apply_push(base, acc, (idx, new));
            let sv = if lc { new } else { left };
            let m2 = if tr { m1.insert(sib as usize, sv) } else { m1 };
            let a2 = if tr { a1.push((sib, sv)) } else { a1 };
            if tr {
                lemma_fresh_push(c + m, a1, (sib, sv));
                if keys_inner(c + m, base) {
                    if t == t0 {
                        assert(floor_to(m, t0) == m);
                    }
                    lemma_valued_push(leaves, a1, (sib, sv));
                }
            }
            lemma_view_apply_push(base, a1, (sib, sv));
            lemma_pc_add_low(pow2(t), t, m % pow2(t));
            lemma_pc_pow2(t);
            assert(m % pow2(t + 1) == pow2(t) + m % pow2(t));
            if t > t0 {
                assert(data.skip(uc as int) == crate::merkle::mmr::full::merged_roots(n, c as usize, m as usize, first, big,
                    pow2(t + 1) as usize) + rest);
            }
            lemma_merges_run(leaves, gg, c, m, g, hb, t0, t + 1, base, m2, a2, pc + 1, new2, uc, idx2, tr, data, rest);
        }
    }
}

/// Keeping in step when no tree of the partial range merges: the delta only
/// adds new trees.
proof fn lemma_sync_no_merge(leaves: Seq<Seq<nat>>, gg: nat, f: usize, g: usize, hb: nat, nodes: Map<usize, Seq<nat>>,
    track_latest: bool)
    requires
        f < g,
        g <= gg <= leaves.len(),
        gg <= usize::MAX / 32,
        pow2(hb) <= g,
        crate::merkle::mmr::partial::apply_largest(f, g) == pow2(hb) as usize,
        crate::merkle::mmr::partial::apply_merge_bits(f, g) == 0,
        pow2(ilog2((g ^ f) as nat)) as usize == pow2(hb) as usize,
        f & ((pow2(hb) as usize - 1) as usize) == 0,
        (f ^ 0usize) == f,
        (g ^ f ^ 0usize) == g - f,
        g ^ (g ^ f ^ 0usize) == f,
        (g ^ f) == (f ^ g),
        (g ^ f) == g - f,
        (f as nat) % pow2(hb + 1) == 0,
        pow2(hb) <= g - f < 2 * pow2(hb),
        pow2(hb + 1) == 2 * pow2(hb),
    ensures
        crate::merkle::mmr::partial::apply_outcome(f, layout_peaks(leaves, f as nat), nodes, track_latest, g,
            crate::merkle::mmr::full::delta_data(layout(leaves, gg), f, g)) matches Some((p, n, acc))
            && p == layout_peaks(leaves, g as nat)
            && n == view_apply(nodes, acc)
            && fresh_entries(f as nat, acc)
            && (keys_inner(f as nat, nodes) ==> valued_entries(leaves, acc)),
{
    let n = layout(leaves, gg);
    let d = (g - f) as nat;
    lemma_ilog2_unique(d, hb);
    lemma_new_peaks(leaves, gg, d, f as nat);
    let data = crate::merkle::mmr::full::delta_data(n, f, g);
    assert(data =~= layout_peaks(leaves.skip(f as int), d));
    lemma_layout_len(leaves.skip(f as int), d);
    crate::merkle::mmr::lemma_popcount_bound_pub(d);
    lemma_layout_split(leaves, f as nat, d, hb + 1);
    assert(view_apply(nodes, Seq::empty()) == nodes);
    assert(fresh_entries(f as nat, Seq::empty())) by {
        reveal(fresh_entries);
    }
    assert(valued_entries(leaves, Seq::empty())) by {
        reveal(valued_entries);
    }
}

/// The delta of a merge setting: the first carried tree, the trees carried for
/// the levels above, then the new peaks; and how many there are of each.
#[verifier::spinoff_prover]
proof fn lemma_merge_data(leaves: Seq<Seq<nat>>, gg: nat, f: usize, g: usize, hb: nat, c: usize, m: usize, r: usize, t0: nat)
    requires
        f < g,
        g <= gg <= leaves.len(),
        gg <= usize::MAX / 32,
        merge_setting(leaves, gg, c as nat, m as nat, g as nat, hb, t0),
        t0 < hb,
        f == c + m,
        pow2(ilog2((g ^ f) as nat)) as usize == pow2(hb) as usize,
        f & ((pow2(hb) as usize - 1) as usize) == m,
        f ^ m == c,
        m & !((m - 1) as usize) == pow2(t0) as usize,
        (g ^ c ^ (pow2(hb) as usize)) == r,
        g ^ r == c + pow2(hb),
        r < pow2(hb),
        g == c + pow2(hb) + r,
    ensures
        ({
            let n = layout(leaves, gg);
            let x0 = tree_root(leaves.skip(f as int).take(pow2(t0) as int), t0);
            let r2 = crate::merkle::mmr::full::merged_roots(n, c, m, pow2(t0) as usize, pow2(hb) as usize, pow2(t0 + 1) as usize);
            let npr = layout_peaks(leaves.skip((c + pow2(hb)) as int), r as nat);
            &&& crate::merkle::mmr::full::delta_data(n, f, g) == seq![x0] + r2 + npr
            &&& r2.len() + popcount(m as nat) == hb - t0
            &&& npr.len() == popcount(r as nat)
            &&& popcount(r as nat) <= 64
            &&& popcount(m as nat) >= 1
        }),
{
    let n = layout(leaves, gg);
    let pp = pow2(hb);
    let big = pp as usize;
    let b = pow2(t0) as usize;
    let cn = c as nat;
    let mn = m as nat;
    let rn = r as nat;
    lemma_setting_words(leaves, gg, cn, mn, g as nat, hb, t0, t0);
    lemma_setting_words(leaves, gg, cn, mn, g as nat, hb, t0, hb);
    lemma_level(leaves, gg, cn, mn, g as nat, hb, t0, t0);
    lemma_merged_count(leaves, gg, cn, mn, g as nat, hb, t0, t0 + 1);
    lemma_floor_facts(mn, t0);
    lemma_floor_facts(mn, t0 + 1);
    assert(floor_to(mn, t0) == mn);
    assert(cn + floor_to(mn, t0 + 1) + pow2(t0) == f as nat);
    let x0 = tree_root(leaves.skip(f as int).take(pow2(t0) as int), t0);
    let r2 = crate::merkle::mmr::full::merged_roots(n, c, m, b, big, pow2(t0 + 1) as usize);
    assert(crate::merkle::mmr::full::merged_roots(n, c, m, b, big, b) == seq![x0] + r2);
    if rn > 0 {
        lemma_ilog2_bounds(rn);
        if ilog2(rn) >= hb {
            lemma_pow2_divides(hb, ilog2(rn));
            assert(false);
        }
        lemma_pow2_divides(ilog2(rn) + 1, hb);
        lemma_pow2_divides(hb, hb + 1);
        lemma_mod_trans(cn, pow2(hb + 1), pp);
        lemma_floor_shift(cn, pp, hb);
        vstd::arithmetic::div_mod::lemma_mod_self_0(pp as int);
        vstd::arithmetic::power2::lemma_pow2_pos(ilog2(rn) + 1);
        lemma_mod_trans(cn + pp, pp, pow2(ilog2(rn) + 1));
    }
    lemma_new_peaks(leaves, gg, rn, cn + pp);
    let npr = layout_peaks(leaves.skip((cn + pp) as int), rn);
    lemma_layout_len(leaves.skip((cn + pp) as int), rn);
    assert(crate::merkle::mmr::full::delta_data(n, f, g) == seq![x0] + r2 + npr);
    lemma_popcount_split(mn, t0);
    assert(popcount(0) == 0);
    let q = mn / pow2(t0);
    assert(popcount(q) == q % 2 + popcount(q / 2));
    crate::merkle::mmr::lemma_popcount_bound_pub(rn);
}

/// Where the first merge of a merge setting starts: the last peak of the range
/// of `f` leaves, the tree of `2^t0` leaves.
#[verifier::spinoff_prover]
proof fn lemma_merge_start(leaves: Seq<Seq<nat>>, gg: nat, f: usize, g: usize, hb: nat, c: usize, m: usize, t0: nat)
    requires
        merge_setting(leaves, gg, c as nat, m as nat, g as nat, hb, t0),
        t0 < hb,
        f == c + m,
    ensures
        tz(f as nat) == t0,
        popcount(f as nat) == popcount(c as nat) + popcount(m as nat),
        (nodes_in_forest_spec(f as nat) + popcount(f as nat) - 1 - (pow2(tz(f as nat)) - 1)) as nat
            == 2 * (c + floor_to((m - 1) as nat, t0)) + pow2(t0),
{
    let cn = c as nat;
    let mn = m as nat;
    lemma_setting_words(leaves, gg, cn, mn, g as nat, hb, t0, t0);
    lemma_pow2_divides(t0 + 1, hb + 1);
    lemma_mod_trans(cn, pow2(hb + 1), pow2(t0 + 1));
    lemma_floor_shift(cn, mn, t0);
    lemma_floor_shift(cn, mn, t0 + 1);
    lemma_floor_facts(mn, t0);
    lemma_floor_facts(f as nat, t0);
    let bit = ((f as nat) / pow2(t0)) % 2;
    assert(bit == 1) by {
        assert((f as nat) % pow2(t0 + 1) == pow2(t0));
        assert(pow2(t0) * bit == pow2(t0));
        if bit == 0 {
            assert(pow2(t0) * bit == 0) by (nonlinear_arith)
                requires
                    bit == 0,
            ;
        }
    }
    vstd::arithmetic::div_mod::lemma_fundamental_div_mod(f as int, pow2(t0) as int);
    crate::merkle::mmr::in_order::lemma_tz_odd_times_pow2((f as nat) / pow2(t0), t0);
    assert(f as nat == ((f as nat) / pow2(t0)) * pow2(t0)) by (nonlinear_arith)
        requires
            f as nat == pow2(t0) * ((f as nat) / pow2(t0)) + (f as nat) % pow2(t0),
            (f as nat) % pow2(t0) == 0,
    ;
    lemma_pow2_divides(hb, hb + 1);
    lemma_pc_add_low(cn, hb + 1, mn);
    vstd::arithmetic::div_mod::lemma_fundamental_div_mod(mn as int, pow2(t0) as int);
    assert(mn >= pow2(t0)) by (nonlinear_arith)
        requires
            mn == pow2(t0) * (mn / pow2(t0)) + mn % pow2(t0),
            mn % pow2(t0) == 0,
            (mn / pow2(t0)) % 2 == 1,
            pow2(t0) > 0,
    ;
    vstd::arithmetic::div_mod::lemma_mod_self_0(pow2(t0) as int);
    lemma_multiples_gap(pow2(t0), mn, pow2(t0));
    lemma_floor_shift((mn - pow2(t0)) as nat, (pow2(t0) - 1) as nat, t0);
    assert(((mn - pow2(t0)) as nat + (pow2(t0) - 1) as nat) as nat == (mn - 1) as nat);
    vstd::arithmetic::div_mod::lemma_basic_div((pow2(t0) - 1) as int, pow2(t0) as int);
    assert(floor_to((mn - 1) as nat, t0) == mn - pow2(t0));
    lemma_layout_len(leaves, f as nat);
}

/// Keeping in step when trees of the partial range merge: the merges end at
/// the root of the merged tree, and the new trees follow.
#[verifier::spinoff_prover]
#[verifier::rlimit(60)]
proof fn lemma_sync_merge(leaves: Seq<Seq<nat>>, gg: nat, f: usize, g: usize, hb: nat, c: usize, m: usize, r: usize,
    t0: nat, nodes: Map<usize, Seq<nat>>, track_latest: bool)
    requires
        f < g,
        g <= gg <= leaves.len(),
        gg <= usize::MAX / 32,
        merge_setting(leaves, gg, c as nat, m as nat, g as nat, hb, t0),
        f == c + m,
        crate::merkle::mmr::partial::apply_largest(f, g) == pow2(hb) as usize,
        crate::merkle::mmr::partial::apply_merge_bits(f, g) == m,
        pow2(ilog2((g ^ f) as nat)) as usize == pow2(hb) as usize,
        f & ((pow2(hb) as usize - 1) as usize) == m,
        f ^ m == c,
        m & !((m - 1) as usize) == pow2(t0) as usize,
        tz(m as nat) == t0,
        (g ^ c ^ (pow2(hb) as usize)) == r,
        g & ((pow2(hb) as usize - 1) as usize) == r,
        g ^ r == c + pow2(hb),
        r < pow2(hb),
        g == c + pow2(hb) + r,
    ensures
        crate::merkle::mmr::partial::apply_outcome(f, layout_peaks(leaves, f as nat), nodes, track_latest, g,
            crate::merkle::mmr::full::delta_data(layout(leaves, gg), f, g)) matches Some((p, n, acc))
            && p == layout_peaks(leaves, g as nat)
            && n == view_apply(nodes, acc)
            && fresh_entries(f as nat, acc)
            && (keys_inner(f as nat, nodes) ==> valued_entries(leaves, acc)),
{
    let n = layout(leaves, gg);
    let pp = pow2(hb);
    let big = pp as usize;
    let cn = c as nat;
    let mn = m as nat;
    let rn = r as nat;
    let lp = layout_peaks(leaves, f as nat);
    lemma_layout_len(leaves, f as nat);
    vstd::arithmetic::power2::lemma_pow2_pos(t0);
    vstd::arithmetic::div_mod::lemma_fundamental_div_mod(mn as int, pow2(t0) as int);
    assert(mn >= pow2(t0)) by (nonlinear_arith)
        requires
            mn == pow2(t0) * (mn / pow2(t0)) + mn % pow2(t0),
            mn % pow2(t0) == 0,
            (mn / pow2(t0)) % 2 == 1,
            pow2(t0) > 0,
    ;
    if t0 >= hb {
        lemma_pow2_divides(hb, t0);
        assert(false);
    }
    lemma_setting_words(leaves, gg, cn, mn, g as nat, hb, t0, hb);
    lemma_merge_data(leaves, gg, f, g, hb, c, m, r, t0);
    lemma_merge_start(leaves, gg, f, g, hb, c, m, t0);
    crate::merkle::mmr::in_order::lemma_tz_odd_times_pow2(1, hb);
    assert(1 * pow2(hb) == pow2(hb));
    assert(tz(big as nat) == hb);
    let data = crate::merkle::mmr::full::delta_data(n, f, g);
    let x0 = tree_root(leaves.skip(f as int).take(pow2(t0) as int), t0);
    let r2 = crate::merkle::mmr::full::merged_roots(n, c, m, pow2(t0) as usize, big, pow2(t0 + 1) as usize);
    let npr = layout_peaks(leaves.skip((cn + pp) as int), rn);
    let root = (nodes_in_forest_spec(f as nat) + popcount(f as nat) - 1 - (pow2(tz(f as nat)) - 1)) as nat;
    assert(data[0] == x0);
    assert(data.skip(1) =~= r2 + npr);
    assert(view_apply(nodes, Seq::empty()) == nodes);
    lemma_floor_facts(mn, t0);
    assert(floor_to(mn, t0) == mn);
    assert(fresh_entries(cn + mn, Seq::empty())) by {
        reveal(fresh_entries);
    }
    assert(valued_entries(leaves, Seq::empty())) by {
        reveal(valued_entries);
    }
    lemma_merges_run(leaves, gg, cn, mn, g as nat, hb, t0, t0, nodes, nodes, Seq::empty(), 0, x0, 1, root,
        track_latest, data, npr);
    // the peaks reached
    lemma_pow2_divides(hb, hb + 1);
    lemma_layout_split(leaves, cn, mn, hb + 1);
    lemma_layout_len(leaves, cn);
    assert(lp.take(lp.len() - popcount(mn)) =~= layout_peaks(leaves, cn));
    vstd::arithmetic::power2::lemma_pow2_unfold(hb + 1);
    lemma_layout_split(leaves, cn, pp + rn, hb + 1);
    lemma_ilog2_unique(pp + rn, hb);
    assert(leaves.skip(cn as int).skip(pp as int) =~= leaves.skip((cn + pp) as int));
    assert(layout_peaks(leaves.skip(cn as int), pp + rn) == seq![tree_root(leaves.skip(cn as int).take(pp as int), hb)]
        + layout_peaks(leaves.skip(cn as int).skip(pp as int), rn));
    assert(g as nat == cn + (pp + rn));
    let top = tree_root(leaves.skip(cn as int).take(pp as int), hb);
    assert(layout_peaks(leaves, g as nat) =~= layout_peaks(leaves, cn).push(top) + npr);
    // the outcome, step by step
    let largest = crate::merkle::mmr::partial::apply_largest(f, g);
    assert(largest == big);
    let merges = crate::merkle::mmr::partial::apply_merge_bits(f, g);
    assert(merges == m);
    assert(data.len() == r2.len() + 1 + npr.len());
    lemma_pow2_shift(hb);
    assert(hb < 64);
    assert(data.len() <= 200);
    assert((data.len() as u32) as nat == data.len());
    let st = crate::merkle::mmr::partial::apply_merges(nodes, Seq::empty(), lp.reverse(), data, m, big, 0, data[0], 1, root,
        track_latest, m & !((m - 1) as usize));
    assert(st matches Some((m2, a2, pc2, new2, uc2)) && m2 == view_apply(nodes, a2) && pc2 == popcount(mn)
        && new2 == top && data.skip(uc2 as int) == npr && fresh_entries(f as nat, a2)
        && (keys_inner(f as nat, nodes) ==> valued_entries(leaves, a2)));
}

/// The law of keeping in step: a partial range of `f` leaves that holds the
/// peaks of the first `f` leaves, given the delta a full range of `gg` leaves
/// gives from `f` to `g` leaves, takes it and reaches the peaks of the first
/// `g` leaves; the nodes it then knows are those it knew with the entries it
/// gives back recorded in order; and none of those entries names a node of
/// the trees of the first `f` leaves other than their roots. Where it knew
/// only such nodes, as a partial range keeps them, each entry is new and
/// holds the full range's value at its index, so that nodes it knew that
/// were true of the full range stay so.
pub proof fn lemma_apply_delta_syncs(leaves: Seq<Seq<nat>>, gg: nat, f: usize, g: usize, nodes: Map<usize, Seq<nat>>,
    track_latest: bool)
    requires
        f < g,
        g <= gg <= leaves.len(),
        gg <= usize::MAX / 32,
    ensures
        crate::merkle::mmr::partial::apply_outcome(f, layout_peaks(leaves, f as nat), nodes, track_latest, g,
            crate::merkle::mmr::full::delta_data(layout(leaves, gg), f, g)) matches Some((p, n, acc))
            && p == layout_peaks(leaves, g as nat)
            && n == view_apply(nodes, acc)
            && fresh_entries(f as nat, acc)
            && (keys_inner(f as nat, nodes) ==> valued_entries(leaves, acc)
                && (forall|i: int| 0 <= i < acc.len() ==> !nodes.dom().contains((#[trigger] acc[i]).0 as usize))
                && (map_valued(leaves, nodes) ==> map_valued(leaves, n))),
{
    let x = f ^ g;
    assert(x != 0) by (bit_vector)
        requires
            x == f ^ g,
            f < g,
    ;
    let hb = ilog2(x as nat);
    let pp = pow2(hb);
    lemma_ilog2_bounds(x as nat);
    vstd::arithmetic::power2::lemma_pow2_unfold(hb + 1);
    lemma_pow2_shift(hb);
    let big = pp as usize;
    lemma_delta_bits(f, g, big);
    let m = f & ((big - 1) as usize);
    let c = f ^ m;
    lemma_mask_mod(c, hb);
    lemma_mask_mod(g, hb);
    lemma_bit_test(c, hb);
    lemma_floor_facts(c as nat, hb);
    assert((c as nat) % pow2(hb + 1) == 0);
    let r = g & ((big - 1) as usize);
    assert(r as nat == g as nat % pp);
    assert(g as nat == c + pp + r);
    if m == 0 {
        assert(c == f);
        lemma_sync_no_merge(leaves, gg, f, g, hb, nodes, track_latest);
    } else {
        lemma_lowbit(m);
        let b = m & !((m - 1) as usize);
        lemma_word_pow2(b);
        let t0 = ilog2(b as nat);
        lemma_pow2_shift(t0);
        lemma_mask_mod(m, t0);
        lemma_bit_test(m, t0);
        vstd::arithmetic::div_mod::lemma_fundamental_div_mod(m as int, pow2(t0) as int);
        let q = (m as nat) / pow2(t0);
        assert(m as nat == q * pow2(t0)) by (nonlinear_arith)
            requires
                m as nat == pow2(t0) * q + (m as nat) % pow2(t0),
                (m as nat) % pow2(t0) == 0,
        ;
        crate::merkle::mmr::in_order::lemma_tz_odd_times_pow2(q, t0);
        lemma_sync_merge(leaves, gg, f, g, hb, c, m, r, t0, nodes, track_latest);
    }
    let out = crate::merkle::mmr::partial::apply_outcome(f, layout_peaks(leaves, f as nat), nodes, track_latest, g,
        crate::merkle::mmr::full::delta_data(layout(leaves, gg), f, g));
    if let Some((p, n, acc)) = out {
        if keys_inner(f as nat, nodes) {
            if map_valued(leaves, nodes) {
                lemma_view_apply_valued(leaves, nodes, acc, f as nat);
            }
            reveal(fresh_entries);
            reveal(keys_inner);
            assert forall|i: int| 0 <= i < acc.len() implies !nodes.dom().contains((#[trigger] acc[i]).0 as usize) by {
                if nodes.dom().contains(acc[i].0 as usize) {
                    assert((acc[i].0 as usize) as nat == acc[i].0);
                    assert(inner_node_of(f as nat, (acc[i].0 as usize) as nat));
                }
            }
        }
    }
}

/// The tail of a range of `f` leaves, where `f + 1` is `c` plus `2^k` with
/// `c` a multiple of `2^(k+1)`: for each level `j` below `k`, bit `j` of `f`
/// is set and the bits of `f` from `j` up leave `f + 1 - 2^j`.
proof fn lemma_full_tail(f: nat, c: nat, k: nat, j: nat)
    requires
        c % pow2(k + 1) == 0,
        f + 1 == c + pow2(k),
        j < k,
    ensures
        floor_to(f, j) == f + 1 - pow2(j),
        floor_to(f, j + 1) == f + 1 - pow2(j + 1),
        (f / pow2(j)) % 2 == 1,
        f % pow2(j) == pow2(j) - 1,
        popcount(f % pow2(j)) == j,
{
    vstd::arithmetic::power2::lemma_pow2_unfold(j + 1);
    vstd::arithmetic::power2::lemma_pow2_pos(j);
    lemma_pow2_divides(j + 1, k);
    lemma_pow2_divides(j, k);
    lemma_pow2_divides(j + 1, k + 1);
    lemma_pow2_divides(j, j + 1);
    lemma_pow2_divides(j, k + 1);
    lemma_mod_trans(c, pow2(k + 1), pow2(j + 1));
    lemma_mod_trans(c, pow2(k + 1), pow2(j));
    let r = (pow2(k) - 1) as nat;
    assert(f == c + r);
    lemma_floor_shift(c, r, j);
    lemma_floor_shift(c, r, j + 1);
    lemma_multiples_gap(pow2(j + 1), pow2(k), pow2(j + 1));
    lemma_multiples_gap(pow2(j), pow2(k), pow2(j));
    lemma_floor_unique(r, j + 1, (pow2(k) - pow2(j + 1)) as nat);
    lemma_floor_unique(r, j, (pow2(k) - pow2(j)) as nat);
    lemma_floor_facts(f, j);
    lemma_times_bit(pow2(j), (f / pow2(j)) % 2);
    crate::merkle::mmr::partial::lemma_popcount_ones(j);
}

/// The chain of merges that adding a leaf makes, up to level `j`, is the root
/// over the last `2^j` of the leaves with it.
proof fn lemma_chain_root(leaves: Seq<Seq<nat>>, leaf: Seq<nat>, c: nat, k: nat, j: nat)
    requires
        c % pow2(k + 1) == 0,
        leaves.len() + 1 == c + pow2(k),
        j <= k,
    ensures
        crate::merkle::mmr::partial::merge_chain(layout_peaks(leaves, leaves.len() as nat), leaf, j) == tree_root(
            leaves.push(leaf).skip((leaves.len() + 1 - pow2(j)) as int).take(pow2(j) as int), j),
    decreases j,
{
    let f = leaves.len() as nat;
    let l2 = leaves.push(leaf);
    let pk = layout_peaks(leaves, f);
    vstd::arithmetic::power2::lemma_pow2_pos(j);
    if j == 0 {
        vstd::arithmetic::power2::lemma2_to64();
        assert(l2.skip(f as int).take(1)[0] == leaf);
    } else {
        let i = (j - 1) as nat;
        lemma_chain_root(leaves, leaf, c, k, i);
        lemma_full_tail(f, c, k, i);
        lemma_bit_peak(leaves, f, i);
        lemma_layout_len(leaves, f);
        vstd::arithmetic::power2::lemma_pow2_unfold(j);
        let a = (f + 1 - pow2(j)) as nat;
        lemma_root_halves(l2, a, i);
        assert(l2.skip(a as int).take(pow2(i) as int) =~= leaves.skip(a as int).take(pow2(i) as int));
        assert(pk.len() - j == popcount(floor_to(f, i + 1)));
    }
}

/// The law of adding in step: where a partial range holds the peaks of the
/// first `f` leaves, the peaks it reaches by adding a leaf (`add`: all but the
/// last `tz(f + 1)` of them, then those merged with the leaf) are the peaks of
/// the `f + 1` leaves that end with it, those a full range reaches by adding it.
pub proof fn lemma_add_keeps_peaks(leaves: Seq<Seq<nat>>, leaf: Seq<nat>)
    ensures
        ({
            let f = leaves.len() as nat;
            let pk = layout_peaks(leaves, f);
            let k = tz(f + 1);
            &&& pk.len() >= k
            &&& pk.take(pk.len() - k).push(crate::merkle::mmr::partial::merge_chain(pk, leaf, k))
                == layout_peaks(leaves.push(leaf), f + 1)
        }),
{
    let f = leaves.len() as nat;
    let n = f + 1;
    let l2 = leaves.push(leaf);
    let pk = layout_peaks(leaves, f);
    crate::merkle::mmr::in_order::lemma_tz_split(n);
    let k = tz(n);
    let q = n / pow2(k);
    vstd::arithmetic::power2::lemma_pow2_unfold(k + 1);
    vstd::arithmetic::power2::lemma_pow2_pos(k);
    assert(n >= pow2(k)) by (nonlinear_arith)
        requires
            n == q * pow2(k),
            q % 2 == 1,
            pow2(k) > 0,
    ;
    let c = (n - pow2(k)) as nat;
    assert(c == ((q - 1) as nat) * pow2(k)) by (nonlinear_arith)
        requires
            n == q * pow2(k),
            c == n - pow2(k),
            q >= 1,
    ;
    let h = ((q - 1) / 2) as nat;
    assert(c == h * pow2(k + 1)) by (nonlinear_arith)
        requires
            c == ((q - 1) as nat) * pow2(k),
            (q - 1) as nat == 2 * h,
            pow2(k + 1) == 2 * pow2(k),
    ;
    vstd::arithmetic::div_mod::lemma_mod_multiples_basic(h as int, pow2(k + 1) as int);
    assert(c % pow2(k + 1) == 0);
    lemma_chain_root(leaves, leaf, c, k, k);
    let r = (pow2(k) - 1) as nat;
    lemma_layout_split(leaves, c, r, k + 1);
    lemma_layout_split(l2, c, pow2(k), k + 1);
    lemma_layout_len(leaves, c);
    lemma_layout_len(leaves, f);
    lemma_pc_add_low(c, k + 1, r);
    crate::merkle::mmr::partial::lemma_popcount_ones(k);
    assert(l2.take(c as int) =~= leaves.take(c as int));
    crate::merkle::mmr::layout::lemma_layout_congr(l2, leaves, c);
    lemma_ilog2_unique(pow2(k), k);
    assert(l2.skip(c as int).take(pow2(k) as int) =~= l2.skip(c as int).take(pow2(k) as int));
    assert(layout_peaks(l2.skip(c as int), pow2(k)) =~= seq![tree_root(l2.skip(c as int).take(pow2(k) as int), k)]
        + layout_peaks(l2.skip(c as int).skip(pow2(k) as int), 0));
    assert(pk.take(pk.len() - k) =~= layout_peaks(leaves, c));
}

/// The entries the merges of adding a leaf record from merge `j` on, after
/// `acc`: none names an inner node of the trees of the first `f` leaves, and
/// each holds the value of the `f + 1` leaves that end with the leaf.
proof fn lemma_add_steps_entries(leaves: Seq<Seq<nat>>, leaf: Seq<nat>, c: nat, k: nat, j: nat,
    m: Map<usize, Seq<nat>>, acc: Seq<(nat, Seq<nat>)>, tr: bool, tl: bool)
    requires
        c % pow2(k + 1) == 0,
        leaves.len() + 1 == c + pow2(k),
        j <= k,
        leaves.len() + 1 <= usize::MAX / 32,
        fresh_entries(leaves.len() as nat, acc),
        valued_entries(leaves.push(leaf), acc),
    ensures
        fresh_entries(leaves.len() as nat, crate::merkle::mmr::partial::add_steps(m, acc,
            layout_peaks(leaves, leaves.len() as nat), leaf, (leaves.len() + 1) as nat, j, k, tr, tl)),
        valued_entries(leaves.push(leaf), crate::merkle::mmr::partial::add_steps(m, acc,
            layout_peaks(leaves, leaves.len() as nat), leaf, (leaves.len() + 1) as nat, j, k, tr, tl)),
    decreases k - j,
{
    if j < k {
        let f = leaves.len() as nat;
        let f1 = f + 1;
        let l2 = leaves.push(leaf);
        let pk = layout_peaks(leaves, f);
        vstd::arithmetic::power2::lemma_pow2_unfold(j + 1);
        vstd::arithmetic::power2::lemma_pow2_pos(j);
        lemma_full_tail(f, c, k, j);
        lemma_floor_facts(f, j);
        lemma_floor_facts(f, j + 1);
        let lo = (f1 - pow2(j)) as nat;
        let a = (f1 - pow2(j + 1)) as nat;
        let right_idx = (2 * f1 - pow2(j)) as nat;
        assert(right_idx == 2 * lo + pow2(j));
        lemma_floor_unique(lo, j + 1, a);
        lemma_block_facts(l2, lo, j);
        lemma_block_sibling(lo, j);
        lemma_chain_root(leaves, leaf, c, k, j);
        lemma_bit_peak(leaves, f, j);
        lemma_layout_len(leaves, f);
        assert(l2.skip(a as int).take(pow2(j) as int) =~= leaves.skip(a as int).take(pow2(j) as int));
        lemma_block_not_inner(f, lo, j);
        lemma_root_not_inner(f, j);
        let right = crate::merkle::mmr::partial::merge_chain(pk, leaf, j);
        let left = pk[pk.len() - 1 - j];
        let left_idx = crate::merkle::mmr::partial::io_sibling(right_idx);
        assert(left_idx == 2 * a + pow2(j));
        let m1 = if tr { m.insert(left_idx as usize, left) } else { m };
        let a1 = if tr { acc.push((left_idx, left)) } else { acc };
        if tr {
            lemma_fresh_push(f, acc, (left_idx, left));
            lemma_valued_push(l2, acc, (left_idx, left));
        }
        let m2 = if tl { m1.insert(right_idx as usize, right) } else { m1 };
        let a2 = if tl { a1.push((right_idx, right)) } else { a1 };
        if tl {
            lemma_fresh_push(f, a1, (right_idx, right));
            lemma_valued_push(l2, a1, (right_idx, right));
        }
        lemma_add_steps_entries(leaves, leaf, c, k, j + 1, m2, a2, tr || tl,
            crate::merkle::mmr::partial::tracked_node(m2, crate::merkle::mmr::partial::io_sibling(
            crate::merkle::mmr::in_order::io_parent(right_idx))));
    }
}

/// The law of adding in step, for the nodes: the entries that adding a leaf to
/// a partial range of `f` leaves records (`add`) name no inner node of the
/// trees of those leaves, and each holds the value at its index of the `f + 1`
/// leaves that end with the new one; so where the range knew only inner nodes,
/// each entry is new.
pub proof fn lemma_add_entries_fresh(leaves: Seq<Seq<nat>>, leaf: Seq<nat>, nodes: Map<usize, Seq<nat>>, track: bool,
    track_latest: bool)
    requires
        leaves.len() + 1 <= usize::MAX / 32,
    ensures
        ({
            let f = leaves.len() as nat;
            let r = crate::merkle::mmr::partial::add_steps(nodes, Seq::empty(), layout_peaks(leaves, f), leaf, f + 1, 0,
                tz(f + 1), track, track_latest);
            &&& fresh_entries(f, r)
            &&& valued_entries(leaves.push(leaf), r)
            &&& keys_inner(f, nodes) ==> forall|i: int| 0 <= i < r.len() ==> !nodes.dom().contains((#[trigger] r[i]).0 as usize)
        }),
{
    let f = leaves.len() as nat;
    let n = f + 1;
    crate::merkle::mmr::in_order::lemma_tz_split(n);
    let k = tz(n);
    let q = n / pow2(k);
    vstd::arithmetic::power2::lemma_pow2_unfold(k + 1);
    vstd::arithmetic::power2::lemma_pow2_pos(k);
    assert(n >= pow2(k)) by (nonlinear_arith)
        requires
            n == q * pow2(k),
            q % 2 == 1,
            pow2(k) > 0,
    ;
    let c = (n - pow2(k)) as nat;
    assert(c == ((q - 1) as nat) * pow2(k)) by (nonlinear_arith)
        requires
            n == q * pow2(k),
            c == n - pow2(k),
            q >= 1,
    ;
    let h = ((q - 1) / 2) as nat;
    assert(c == h * pow2(k + 1)) by (nonlinear_arith)
        requires
            c == ((q - 1) as nat) * pow2(k),
            (q - 1) as nat == 2 * h,
            pow2(k + 1) == 2 * pow2(k),
    ;
    vstd::arithmetic::div_mod::lemma_mod_multiples_basic(h as int, pow2(k + 1) as int);
    assert(fresh_entries(f, Seq::empty())) by {
        reveal(fresh_entries);
    }
    assert(valued_entries(leaves.push(leaf), Seq::empty())) by {
        reveal(valued_entries);
    }
    lemma_add_steps_entries(leaves, leaf, c, k, 0, nodes, Seq::empty(), track, track_latest);
    let r = crate::merkle::mmr::partial::add_steps(nodes, Seq::empty(), layout_peaks(leaves, f), leaf, f + 1, 0, k,
        track, track_latest);
    if keys_inner(f, nodes) {
        reveal(fresh_entries);
        reveal(keys_inner);
        assert forall|i: int| 0 <= i < r.len() implies !nodes.dom().contains((#[trigger] r[i]).0 as usize) by {
            if nodes.dom().contains(r[i].0 as usize) {
                assert((r[i].0 as usize) as nat == r[i].0);
                assert(inner_node_of(f, (r[i].0 as usize) as nat));
            }
        }
    }
}

/// The sibling met `j` levels above leaf `pos` on its way up.
pub open spec fn leaf_sibling(pos: nat, j: nat) -> nat {
    crate::merkle::mmr::partial::io_sibling(crate::merkle::mmr::partial::io_ancestor(
        crate::merkle::mmr::in_order::io_leaf(pos), j))
}

/// The ancestor `j` levels above leaf `pos` is the node over the aligned block
/// of `2^j` leaves holding it.
proof fn lemma_leaf_ancestor(pos: nat, j: nat)
    ensures
        crate::merkle::mmr::partial::io_ancestor(crate::merkle::mmr::in_order::io_leaf(pos), j) == 2 * floor_to(pos, j)
            + pow2(j),
        floor_to(pos, j) % pow2(j) == 0,
    decreases j,
{
    lemma_floor_facts(pos, j);
    if j == 0 {
        vstd::arithmetic::power2::lemma2_to64();
        assert(pos % 1 == 0);
    } else {
        let i = (j - 1) as nat;
        lemma_leaf_ancestor(pos, i);
        lemma_floor_facts(pos, i);
        lemma_block_parent(floor_to(pos, i), i);
        lemma_floor_twice(pos, i);
    }
}

/// The sibling met `j` levels above leaf `pos` has height `j`.
proof fn lemma_leaf_sibling(pos: nat, j: nat)
    ensures
        tz(leaf_sibling(pos, j)) == j,
        leaf_sibling(pos, j) <= 2 * pos + 3 * pow2(j),
{
    vstd::arithmetic::power2::lemma_pow2_unfold(j + 1);
    vstd::arithmetic::power2::lemma_pow2_pos(j);
    lemma_leaf_ancestor(pos, j);
    let lo = floor_to(pos, j);
    lemma_floor_facts(pos, j);
    lemma_block_sibling(lo, j);
    lemma_pow2_divides(j, j + 1);
    if floor_to(lo, j + 1) == lo {
        lemma_floor_shift(lo, pow2(j), j);
        vstd::arithmetic::div_mod::lemma_mod_self_0(pow2(j) as int);
        lemma_block_parent(lo + pow2(j), j);
    } else {
        lemma_floor_facts(lo, j + 1);
        lemma_mod_trans(floor_to(lo, j + 1), pow2(j + 1), pow2(j));
        lemma_block_parent((lo - pow2(j)) as nat, j);
    }
}

/// Where leaf `pos` lies in the `2^j` leaves from a multiple `a` of
/// `2^(j+1)`, the sibling met `j` levels up is the node over the `2^j` leaves
/// after them.
proof fn lemma_leaf_sibling_after(pos: nat, j: nat, a: nat)
    requires
        a % pow2(j + 1) == 0,
        a <= pos < a + pow2(j),
    ensures
        leaf_sibling(pos, j) == 2 * (a + pow2(j)) + pow2(j),
{
    vstd::arithmetic::power2::lemma_pow2_unfold(j + 1);
    lemma_leaf_ancestor(pos, j);
    lemma_pow2_divides(j, j + 1);
    lemma_mod_trans(a, pow2(j + 1), pow2(j));
    lemma_floor_unique(pos, j, a);
    lemma_floor_unique(a, j + 1, a);
    lemma_block_sibling(a, j);
}

/// The known nodes after recording `path` from leaf `pos` up, from level `j` on.
pub open spec fn tracked_from(m: Map<usize, Seq<nat>>, path: Seq<Seq<nat>>, pos: nat, j: nat) -> Map<usize, Seq<nat>> {
    crate::merkle::mmr::partial::track_entries(m, path, crate::merkle::mmr::partial::io_ancestor(
        crate::merkle::mmr::in_order::io_leaf(pos), j), j)
}

/// Recording a path from leaf `pos` up, from level `j` on: the sibling met at
/// each level `j <= i < d` holds `path[i]`, nodes of height below `j` are as
/// they were, and each node added has height below `d`.
proof fn lemma_track_entries_facts(m: Map<usize, Seq<nat>>, path: Seq<Seq<nat>>, pos: nat, j: nat)
    requires
        j <= path.len(),
        2 * pos + 4 * pow2(path.len()) < usize::MAX / 16,
    ensures
        forall|i: nat| j <= i < path.len() ==> tracked_from(m, path, pos, j).dom().contains(
            #[trigger] leaf_sibling(pos, i) as usize) && tracked_from(m, path, pos, j)[leaf_sibling(pos, i) as usize]
            == path[i as int],
        forall|k: usize| tz(k as nat) < j ==> (#[trigger] tracked_from(m, path, pos, j).dom().contains(k)
            <==> m.dom().contains(k)) && (m.dom().contains(k) ==> tracked_from(m, path, pos, j)[k] == m[k]),
        forall|k: usize| #[trigger] tracked_from(m, path, pos, j).dom().contains(k) && !m.dom().contains(k) ==> tz(
            k as nat) < path.len(),
    decreases path.len() - j,
{
    let d = path.len();
    let anc = crate::merkle::mmr::partial::io_ancestor(crate::merkle::mmr::in_order::io_leaf(pos), j);
    if j < d {
        lemma_leaf_ancestor(pos, j);
        lemma_floor_facts(pos, j);
        lemma_pow2_divides(j, d);
        assert(anc <= 2 * pos + pow2(d));
        assert(crate::merkle::mmr::partial::index_small(anc));
        lemma_leaf_sibling(pos, j);
        let s = leaf_sibling(pos, j);
        assert(s < usize::MAX / 8);
        let m1 = m.insert(s as usize, path[j as int]);
        assert((s as usize) as nat == s);
        lemma_track_entries_facts(m1, path, pos, j + 1);
        let mm = tracked_from(m, path, pos, j);
        assert(mm == tracked_from(m1, path, pos, j + 1));
        assert forall|i: nat| j <= i < path.len() implies mm.dom().contains(#[trigger] leaf_sibling(pos, i) as usize)
            && mm[leaf_sibling(pos, i) as usize] == path[i as int] by {
            if i == j {
                let k = s as usize;
                assert(tz(k as nat) < j + 1);
                assert(m1.dom().contains(k));
                assert(tracked_from(m1, path, pos, j + 1).dom().contains(k));
                assert(tracked_from(m1, path, pos, j + 1)[k] == m1[k]);
            }
        }
        assert forall|k: usize| tz(k as nat) < j implies (#[trigger] mm.dom().contains(k) <==> m.dom().contains(k))
            && (m.dom().contains(k) ==> mm[k] == m[k]) by {
            assert(k != s as usize);
        }
        assert forall|k: usize| #[trigger] mm.dom().contains(k) && !m.dom().contains(k) implies tz(k as nat) < d by {
            if m1.dom().contains(k) {
                assert(k == s as usize);
            }
        }
    }
}

/// The run of known siblings up from leaf `pos` after recording its path: the
/// recorded siblings up to the root of its tree, then none, since the node
/// after that tree is no inner node of the range.
proof fn lemma_run_after_track(m: Map<usize, Seq<nat>>, path: Seq<Seq<nat>>, pos: nat, a: nat, f: nat, j: nat)
    requires
        j <= path.len() < 64,
        a % pow2(path.len() + 1) == 0,
        a <= pos < a + pow2(path.len()),
        a + pow2(path.len()) == floor_to(f, path.len()),
        keys_inner(f, m),
        2 * pos + 4 * pow2(path.len()) < usize::MAX / 16,
    ensures
        crate::merkle::mmr::partial::known_run(tracked_from(m, path, pos, 0), crate::merkle::mmr::partial::io_ancestor(
            crate::merkle::mmr::in_order::io_leaf(pos), j), (64 - j) as nat) == path.len() - j,
    decreases path.len() - j,
{
    let d = path.len();
    let mm = tracked_from(m, path, pos, 0);
    let anc = crate::merkle::mmr::partial::io_ancestor(crate::merkle::mmr::in_order::io_leaf(pos), j);
    lemma_track_entries_facts(m, path, pos, 0);
    lemma_leaf_ancestor(pos, j);
    lemma_floor_facts(pos, j);
    vstd::arithmetic::power2::lemma_pow2_pos(j);
    lemma_pow2_divides(j, d);
    assert(crate::merkle::mmr::partial::index_in_range(anc));
    if j < d {
        assert(mm.dom().contains(leaf_sibling(pos, j) as usize));
        lemma_run_after_track(m, path, pos, a, f, j + 1);
    } else {
        lemma_leaf_sibling(pos, d);
        lemma_leaf_sibling_after(pos, d, a);
        let s = leaf_sibling(pos, d);
        lemma_floor_facts(f, d);
        lemma_block_not_inner(f, a + pow2(d), d);
        if mm.dom().contains(s as usize) {
            assert((s as usize) as nat == s);
            reveal(keys_inner);
            assert(m.dom().contains(s as usize));
            assert(inner_node_of(f, (s as usize) as nat));
        }
    }
}

/// The leaf at `pos` lies in the tree of `2^d` leaves of a range of `f` leaves.
proof fn lemma_tree_of_leaf(pos: nat, f: nat, d: nat)
    requires
        (f / pow2(d)) % 2 == 1,
        floor_to(f, d + 1) <= pos < floor_to(f, d + 1) + pow2(d),
        f <= usize::MAX / 32,
    ensures
        crate::merkle::mmr::opening::tree_of(pos, f) == d,
        d < 64,
{
    let a = floor_to(f, d + 1);
    vstd::arithmetic::power2::lemma_pow2_unfold(d + 1);
    vstd::arithmetic::power2::lemma_pow2_pos(d);
    lemma_floor_facts(f, d);
    lemma_floor_facts(pos, d);
    lemma_times_bit(pow2(d), (f / pow2(d)) % 2);
    assert(pow2(d) <= f);
    vstd::arithmetic::power2::lemma2_to64();
    vstd::arithmetic::power2::lemma2_to64_rest();
    if d >= 59 {
        vstd::arithmetic::power2::lemma_pow2_strictly_increases(59, d);
        assert(false);
    }
    lemma_pow2_divides(d, d + 1);
    lemma_mod_trans(a, pow2(d + 1), pow2(d));
    lemma_floor_unique(pos, d + 1, a);
    lemma_floor_unique(pos, d, a);
    lemma_times_bit(pow2(d), (pos / pow2(d)) % 2);
    assert((pos / pow2(d)) % 2 == 0);
    let qf = f / pow2(d + 1);
    let qp = pos / pow2(d + 1);
    assert(qf == qp) by (nonlinear_arith)
        requires
            qf * pow2(d + 1) == qp * pow2(d + 1),
            pow2(d + 1) > 0,
    ;
    let ff = f as u64;
    let pp = pos as u64;
    let s = d as u64;
    let s1 = (d + 1) as u64;
    vstd::bits::lemma_u64_shr_is_div(ff, s);
    vstd::bits::lemma_u64_shr_is_div(pp, s);
    vstd::bits::lemma_u64_shr_is_div(ff, s1);
    vstd::bits::lemma_u64_shr_is_div(pp, s1);
    let x = ff ^ (ff & pp);
    assert(x >> s == 1) by (bit_vector)
        requires
            s < 63,
            s1 == s + 1,
            ff >> s1 == pp >> s1,
            (ff >> s) % 2 == 1,
            (pp >> s) % 2 == 0,
            x == ff ^ (ff & pp),
    ;
    vstd::bits::lemma_u64_shr_is_div(x, s);
    vstd::arithmetic::div_mod::lemma_fundamental_div_mod(x as int, pow2(d) as int);
    vstd::arithmetic::div_mod::lemma_mod_pos_bound(x as int, pow2(d) as int);
    lemma_ilog2_unique(x as nat, d);
}

/// The law of tracking a leaf: where a partial range of `f` leaves knows only
/// inner nodes of its trees, recording the path of leaf `pos` in the tree of
/// `2^d` leaves (`d` the path's length), as `track` does, makes it open that
/// leaf (`open`): the run of known siblings up from the leaf is the height of
/// its tree, and the sibling met at each level holds the path's node there.
pub proof fn lemma_track_then_open(nodes: Map<usize, Seq<nat>>, path: Seq<Seq<nat>>, f: nat, pos: nat)
    requires
        keys_inner(f, nodes),
        (f / pow2(path.len())) % 2 == 1,
        floor_to(f, path.len() + 1) <= pos < floor_to(f, path.len() + 1) + pow2(path.len()),
        f <= usize::MAX / 128,
    ensures
        crate::merkle::mmr::opening::tree_of(pos, f) == path.len(),
        crate::merkle::mmr::partial::known_run(crate::merkle::mmr::partial::track_entries(nodes, path,
            crate::merkle::mmr::in_order::io_leaf(pos), 0), crate::merkle::mmr::in_order::io_leaf(pos), 64)
            == path.len(),
        forall|i: nat| i < path.len() ==> crate::merkle::mmr::partial::track_entries(nodes, path,
            crate::merkle::mmr::in_order::io_leaf(pos), 0)[#[trigger] leaf_sibling(pos, i) as usize] == path[i as int],
{
    let d = path.len();
    let a = floor_to(f, d + 1);
    lemma_tree_of_leaf(pos, f, d);
    lemma_floor_facts(f, d);
    vstd::arithmetic::power2::lemma_pow2_unfold(d + 1);
    lemma_times_bit(pow2(d), (f / pow2(d)) % 2);
    assert(pow2(d) <= f);
    assert(crate::merkle::mmr::partial::io_ancestor(crate::merkle::mmr::in_order::io_leaf(pos), 0)
        == crate::merkle::mmr::in_order::io_leaf(pos));
    lemma_track_entries_facts(nodes, path, pos, 0);
    lemma_run_after_track(nodes, path, pos, a, f, 0);
}

/// Where the merged node of one level of the merges of a delta sits, and its
/// sibling: at the first level the smallest tree of the first `c + m` leaves
/// and the `2^t0` leaves after them; above it the node over the `2^t` leaves
/// that hold leaf `c + m`, and the peak before it or the block after it.
#[verifier::spinoff_prover]
proof fn lemma_level_anchor(leaves: Seq<Seq<nat>>, gg: nat, c: nat, m: nat, g: nat, hb: nat, t0: nat, t: nat, idx: nat)
    requires
        merge_setting(leaves, gg, c, m, g, hb, t0),
        t0 <= t < hb,
        idx == 2 * (c + floor_to((m - 1) as nat, t)) + pow2(t),
    ensures
        t == t0 ==> idx == 2 * floor_to(c + m, t0 + 1) + pow2(t0) && floor_to(c + m, t0 + 1) + pow2(t0) == c + m
            && crate::merkle::mmr::partial::io_sibling(idx) == 2 * (c + m) + pow2(t0),
        t > t0 ==> idx == 2 * floor_to(c + m, t) + pow2(t),
        t > t0 && (m / pow2(t)) % 2 == 1 ==> crate::merkle::mmr::partial::io_sibling(idx) == 2 * floor_to(c + m, t + 1)
            + pow2(t),
        ((c + m) / pow2(t)) % 2 == (m / pow2(t)) % 2,
        tz(idx) == t,
        tz(crate::merkle::mmr::partial::io_sibling(idx)) == t,
        idx < usize::MAX / 8,
        crate::merkle::mmr::partial::io_sibling(idx) < usize::MAX / 8,
{
    let f = c + m;
    lemma_setting_words(leaves, gg, c, m, g, hb, t0, t);
    lemma_setting_words(leaves, gg, c, m, g, hb, t0, t + 1);
    lemma_setting_words(leaves, gg, c, m, g, hb, t0, t0);
    lemma_floor_shift(c, m, t);
    lemma_floor_shift(c, m, t + 1);
    lemma_floor_facts(f, t);
    lemma_floor_facts(f, t + 1);
    lemma_floor_facts(m, t);
    lemma_floor_facts(m, t0);
    let bf = (f / pow2(t)) % 2;
    let bm = (m / pow2(t)) % 2;
    lemma_times_bit(pow2(t), bf);
    lemma_times_bit(pow2(t), bm);
    assert(bf == bm);
    let lo: nat = if t == t0 { floor_to(f, t0 + 1) } else { floor_to(f, t) };
    if t == t0 {
        lemma_times_bit(pow2(t0), (m / pow2(t0)) % 2);
        let fm = floor_to(m, t0 + 1);
        lemma_pow2_divides(t0, t0 + 1);
        lemma_mod_trans(fm, pow2(t0 + 1), pow2(t0));
        lemma_floor_unique((m - 1) as nat, t0, fm);
        lemma_mod_trans(lo, pow2(t0 + 1), pow2(t0));
        lemma_floor_unique(lo, t0 + 1, lo);
    } else {
        lemma_pow2_divides(t0 + 1, t);
        vstd::arithmetic::power2::lemma_pow2_unfold(t0 + 1);
        if m % pow2(t) == 0 {
            lemma_mod_trans(m, pow2(t), pow2(t0 + 1));
            lemma_times_bit(pow2(t0), (m / pow2(t0)) % 2);
            assert(false);
        }
        lemma_floor_unique((m - 1) as nat, t, floor_to(m, t));
        if bm == 0 {
            lemma_floor_unique(lo, t + 1, lo);
        } else {
            lemma_floor_unique(lo, t + 1, floor_to(f, t + 1));
        }
    }
    assert(idx == 2 * lo + pow2(t));
    lemma_block_parent(lo, t);
    lemma_block_sibling(lo, t);
    lemma_pow2_divides(t, t + 1);
    if floor_to(lo, t + 1) == lo {
        lemma_floor_shift(lo, pow2(t), t);
        vstd::arithmetic::div_mod::lemma_mod_self_0(pow2(t) as int);
        lemma_block_parent(lo + pow2(t), t);
    } else {
        lemma_floor_facts(lo, t + 1);
        lemma_mod_trans(floor_to(lo, t + 1), pow2(t + 1), pow2(t));
        lemma_block_parent((lo - pow2(t)) as nat, t);
    }
}

/// Leaf `pos` lies in the tree of `2^d` leaves of the first `f` leaves: its
/// ancestors from level `d + 1` up are the nodes over the blocks of `f`.
proof fn lemma_leaf_ancestor_above(pos: nat, f: nat, d: nat, t: nat)
    requires
        (f / pow2(d)) % 2 == 1,
        floor_to(f, d + 1) <= pos < floor_to(f, d + 1) + pow2(d),
        d < t,
    ensures
        crate::merkle::mmr::partial::io_ancestor(crate::merkle::mmr::in_order::io_leaf(pos), t) == 2 * floor_to(f, t)
            + pow2(t),
{
    lemma_leaf_ancestor(pos, t);
    lemma_floor_facts(f, t);
    lemma_floor_facts(f, d);
    lemma_floor_mono(f, d + 1, t);
    lemma_times_bit(pow2(d), (f / pow2(d)) % 2);
    lemma_floor_facts(f, d + 1);
    assert(floor_to(f, d) == floor_to(f, d + 1) + pow2(d));
    assert(pos < f);
    assert(floor_to(f, t) <= pos);
    assert(f % pow2(t) < pow2(t));
    assert(f == floor_to(f, t) + f % pow2(t));
    let ff = floor_to(f, t);
    let rr = f % pow2(t);
    let pp = pow2(t);
    assert(pos < ff + pp) by (nonlinear_arith)
        requires
            pos < f,
            f == ff + rr,
            rr < pp,
    ;
    lemma_floor_unique(pos, t, floor_to(f, t));
}

/// A node of height at least one whose child on the way up from leaf `pos` has
/// its sibling known is tracked.
proof fn lemma_ancestor_tracked(m: Map<usize, Seq<nat>>, pos: nat, t: nat)
    requires
        t >= 1,
        m.dom().contains(leaf_sibling(pos, (t - 1) as nat) as usize),
    ensures
        crate::merkle::mmr::partial::tracked_node(m, crate::merkle::mmr::partial::io_ancestor(
            crate::merkle::mmr::in_order::io_leaf(pos), t)),
{
    let i = (t - 1) as nat;
    lemma_leaf_ancestor(pos, t);
    vstd::arithmetic::power2::lemma_pow2_unfold(t);
    let anc = crate::merkle::mmr::partial::io_ancestor(crate::merkle::mmr::in_order::io_leaf(pos), t);
    assert(anc == 2 * (floor_to(pos, t) + pow2(i)));
    assert(anc % 2 == 0);
    assert(anc == crate::merkle::mmr::in_order::io_parent(crate::merkle::mmr::partial::io_ancestor(
        crate::merkle::mmr::in_order::io_leaf(pos), i)));
}

/// The merges of a delta, from level `t` up, follow leaf `pos` of a tree of
/// `2^d` leaves that merges, whose path is known: from level `d` up they
/// record the sibling met at each level, so that the known nodes hold its
/// whole path in the merged tree; they keep the known nodes and add only
/// nodes below the merged tree's height.
#[verifier::spinoff_prover]
#[verifier::rlimit(60)]
proof fn lemma_merges_follow(leaves: Seq<Seq<nat>>, gg: nat, c: nat, mb: nat, g: nat, hb: nat, t0: nat, t: nat,
    pos: nat, d: nat, mm: Map<usize, Seq<nat>>, acc: Seq<(nat, Seq<nat>)>, rpeaks: Seq<Seq<nat>>, data: Seq<Seq<nat>>,
    pc: nat, new: Seq<nat>, uc: nat, idx: nat, track: bool)
    requires
        merge_setting(leaves, gg, c, mb, g, hb, t0),
        t0 <= t <= hb,
        idx == 2 * (c + floor_to((mb - 1) as nat, t)) + pow2(t),
        crate::merkle::mmr::partial::apply_merges(mm, acc, rpeaks, data, mb as usize, pow2(hb) as usize, pc, new, uc,
            idx, track, pow2(t) as usize) is Some,
        t0 <= d < hb,
        ((c + mb) / pow2(d)) % 2 == 1,
        floor_to(c + mb, d + 1) <= pos < floor_to(c + mb, d + 1) + pow2(d),
        forall|j: nat| (j < d || j < t) ==> mm.dom().contains(#[trigger] leaf_sibling(pos, j) as usize),
        d == 0 && t == 0 ==> track,
        t >= d + 2 ==> track,
    ensures
        crate::merkle::mmr::partial::apply_merges(mm, acc, rpeaks, data, mb as usize, pow2(hb) as usize, pc, new, uc,
            idx, track, pow2(t) as usize) matches Some((m2, a2, pc2, new2, uc2))
            && (forall|j: nat| j < hb ==> m2.dom().contains(#[trigger] leaf_sibling(pos, j) as usize))
            && (forall|k: usize| #[trigger] m2.dom().contains(k) && !mm.dom().contains(k) ==> tz(k as nat) < hb)
            && (forall|k: usize| mm.dom().contains(k) ==> #[trigger] m2.dom().contains(k)),
    decreases hb - t,
{
    let f = c + mb;
    lemma_setting_words(leaves, gg, c, mb, g, hb, t0, t);
    lemma_setting_words(leaves, gg, c, mb, g, hb, t0, hb);
    if t < hb {
        let tt = pow2(t) as usize;
        lemma_setting_words(leaves, gg, c, mb, g, hb, t0, t + 1);
        lemma_level_anchor(leaves, gg, c, mb, g, hb, t0, t, idx);
        lemma_bit_test(mb as usize, t);
        vstd::arithmetic::power2::lemma_pow2_pos(t);
        vstd::arithmetic::power2::lemma2_to64();
        if t >= 1 {
            vstd::arithmetic::power2::lemma_pow2_strictly_increases(0, t);
        }
        // the next level's node
        lemma_floor_facts((mb - 1) as nat, t);
        lemma_floor_shift(c, floor_to((mb - 1) as nat, t), t);
        lemma_pow2_divides(t + 1, hb + 1);
        lemma_mod_trans(c, pow2(hb + 1), pow2(t + 1));
        lemma_floor_shift(c, floor_to((mb - 1) as nat, t), t + 1);
        lemma_floor_twice((mb - 1) as nat, t);
        lemma_block_parent(c + floor_to((mb - 1) as nat, t), t);
        let idx2 = crate::merkle::mmr::in_order::io_parent(idx);
        assert(idx2 == 2 * (c + floor_to((mb - 1) as nat, t + 1)) + pow2(t + 1));
        assert((tt * 2) as usize == pow2(t + 1) as usize);
        let tr = if tt != 1 && !track { crate::merkle::mmr::partial::tracked_node(mm, idx) } else { track };
        let take_update = tt & (mb as usize) == 0;
        let sib = crate::merkle::mmr::partial::io_sibling(idx);
        let keep = !take_update && crate::merkle::mmr::partial::tracked_node(mm, sib);
        let m1 = if keep { mm.insert(idx as usize, new) } else { mm };
        let left = if take_update { new } else { rpeaks[pc as int] };
        let right = if take_update { data[uc as int] } else { new };
        let sv = if crate::merkle::mmr::in_order::io_left(idx2) == idx { right } else { left };
        let m2 = if tr { m1.insert(sib as usize, sv) } else { m1 };
        // the entry at this level on the leaf's way up
        let a = floor_to(f, d + 1);
        lemma_floor_facts(f, d);
        lemma_floor_facts(f, d + 1);
        lemma_times_bit(pow2(d), (f / pow2(d)) % 2);
        if t == d {
            lemma_leaf_ancestor(pos, d);
            lemma_pow2_divides(d, d + 1);
            lemma_mod_trans(a, pow2(d + 1), pow2(d));
            lemma_floor_unique(pos, d, a);
            lemma_leaf_sibling_after(pos, d, a);
            if d >= 1 {
                assert(mm.dom().contains(leaf_sibling(pos, (d - 1) as nat) as usize));
                lemma_ancestor_tracked(mm, pos, d);
            }
            if t > t0 {
                assert(keep);
                assert(m2.dom().contains(leaf_sibling(pos, t) as usize));
            } else {
                assert(tr);
                assert(m2.dom().contains(leaf_sibling(pos, t) as usize));
            }
        } else if t > d {
            lemma_leaf_ancestor_above(pos, f, d, t);
            assert(idx == crate::merkle::mmr::partial::io_ancestor(crate::merkle::mmr::in_order::io_leaf(pos), t));
            if t == d + 1 {
                assert(mm.dom().contains(leaf_sibling(pos, d) as usize));
                lemma_ancestor_tracked(mm, pos, t);
            }
            assert(tr);
            assert(m2.dom().contains(leaf_sibling(pos, t) as usize));
        }
        assert forall|j: nat| (j < d || j < t + 1) implies m2.dom().contains(#[trigger] leaf_sibling(pos, j) as usize) by {
            if j < d || j < t {
                assert(mm.dom().contains(leaf_sibling(pos, j) as usize));
            }
        }
        lemma_merges_follow(leaves, gg, c, mb, g, hb, t0, t + 1, pos, d, m2,
            if tr { (if keep { acc.push((idx, new)) } else { acc }).push((sib, sv)) } else { if keep { acc.push((idx, new)) } else { acc } },
            rpeaks, data, if take_update { pc } else { pc + 1 }, crate::merkle::merge_digest(left, right),
            if take_update { uc + 1 } else { uc }, idx2, tr);
        assert((idx as usize) as nat == idx);
        assert((sib as usize) as nat == sib);
    }
}

/// A run of known siblings from level `j` up: each sibling met in it is known.
proof fn lemma_run_siblings(mm: Map<usize, Seq<nat>>, pos: nat, j: nat, fuel: nat, i: nat)
    requires
        i < crate::merkle::mmr::partial::known_run(mm, crate::merkle::mmr::partial::io_ancestor(
            crate::merkle::mmr::in_order::io_leaf(pos), j), fuel),
    ensures
        mm.dom().contains(leaf_sibling(pos, j + i) as usize),
    decreases i,
{
    let anc = crate::merkle::mmr::partial::io_ancestor(crate::merkle::mmr::in_order::io_leaf(pos), j);
    assert(crate::merkle::mmr::partial::io_ancestor(crate::merkle::mmr::in_order::io_leaf(pos), j + 1)
        == crate::merkle::mmr::in_order::io_parent(anc));
    if i > 0 {
        lemma_run_siblings(mm, pos, j + 1, (fuel - 1) as nat, (i - 1) as nat);
        assert(j + 1 + (i - 1) as nat == j + i);
    }
}

/// The run of known siblings up from leaf `pos` where those below level `h`
/// are known and the one at level `h` is not.
proof fn lemma_run_exact(mm: Map<usize, Seq<nat>>, pos: nat, h: nat, j: nat)
    requires
        j <= h < 64,
        2 * pos + 4 * pow2(h) < usize::MAX / 4,
        forall|i: nat| i < h ==> mm.dom().contains(#[trigger] leaf_sibling(pos, i) as usize),
        !mm.dom().contains(leaf_sibling(pos, h) as usize),
    ensures
        crate::merkle::mmr::partial::known_run(mm, crate::merkle::mmr::partial::io_ancestor(
            crate::merkle::mmr::in_order::io_leaf(pos), j), (64 - j) as nat) == h - j,
    decreases h - j,
{
    let anc = crate::merkle::mmr::partial::io_ancestor(crate::merkle::mmr::in_order::io_leaf(pos), j);
    lemma_leaf_ancestor(pos, j);
    lemma_floor_facts(pos, j);
    vstd::arithmetic::power2::lemma_pow2_pos(j);
    lemma_pow2_divides(j, h);
    assert(crate::merkle::mmr::partial::index_in_range(anc));
    if j < h {
        assert(mm.dom().contains(leaf_sibling(pos, j) as usize));
        lemma_run_exact(mm, pos, h, j + 1);
    }
}

/// The law of keeping a tracked leaf in step: where a partial range of `f`
/// leaves that holds the peaks of the first `f` leaves knows only inner nodes
/// of its trees and knows the path of leaf `pos` in its tree of `2^d` leaves
/// (the run of known siblings up from it is `d` high; for a lone leaf, it
/// tracks the latest leaf), the delta of a full range up to `g` leaves whose
/// merges take that tree in (`2^(d+1) <= f ^ g`) leaves it knowing the leaf's
/// whole path in its new tree: the run of known siblings up from the leaf is
/// as high as that tree (`tree_of(pos, g)`, what `open` asks for), and where
/// the nodes it knew held the full range's values, so does each of these.
#[verifier::spinoff_prover]
#[verifier::rlimit(100)]
pub proof fn lemma_apply_follows_leaf(leaves: Seq<Seq<nat>>, gg: nat, f: usize, g: usize, nodes: Map<usize, Seq<nat>>,
    track_latest: bool, pos: nat, d: nat)
    requires
        f < g,
        g <= gg <= leaves.len(),
        gg <= usize::MAX / 32,
        keys_inner(f as nat, nodes),
        ((f as nat) / pow2(d)) % 2 == 1,
        floor_to(f as nat, d + 1) <= pos < floor_to(f as nat, d + 1) + pow2(d),
        pow2(d + 1) <= (f ^ g) as nat,
        crate::merkle::mmr::partial::known_run(nodes, crate::merkle::mmr::in_order::io_leaf(pos), 64) == d,
        d == 0 ==> track_latest,
    ensures
        crate::merkle::mmr::partial::apply_outcome(f, layout_peaks(leaves, f as nat), nodes, track_latest, g,
            crate::merkle::mmr::full::delta_data(layout(leaves, gg), f, g)) matches Some((p, n, acc))
            && crate::merkle::mmr::partial::known_run(n, crate::merkle::mmr::in_order::io_leaf(pos), 64)
                == crate::merkle::mmr::opening::tree_of(pos, g as nat)
            && crate::merkle::mmr::opening::tree_of(pos, g as nat) < 64
            && floor_to(g as nat, crate::merkle::mmr::opening::tree_of(pos, g as nat) + 1) <= pos
            && pos < floor_to(g as nat, crate::merkle::mmr::opening::tree_of(pos, g as nat) + 1) + pow2(
                crate::merkle::mmr::opening::tree_of(pos, g as nat))
            && floor_to(g as nat, crate::merkle::mmr::opening::tree_of(pos, g as nat) + 1) + pow2(
                crate::merkle::mmr::opening::tree_of(pos, g as nat)) <= g
            && (map_valued(leaves, nodes) ==> forall|j: nat| j < crate::merkle::mmr::opening::tree_of(pos, g as nat)
                ==> n[#[trigger] leaf_sibling(pos, j) as usize] == node_value(leaves, leaf_sibling(pos, j))),
{
    lemma_apply_delta_syncs(leaves, gg, f, g, nodes, track_latest);
    let x = f ^ g;
    assert(x != 0) by (bit_vector)
        requires
            x == f ^ g,
            f < g,
    ;
    let hb = ilog2(x as nat);
    let pp = pow2(hb);
    lemma_ilog2_bounds(x as nat);
    vstd::arithmetic::power2::lemma_pow2_unfold(hb + 1);
    lemma_pow2_shift(hb);
    let big = pp as usize;
    lemma_delta_bits(f, g, big);
    let m = f & ((big - 1) as usize);
    let c = f ^ m;
    lemma_mask_mod(c, hb);
    lemma_mask_mod(g, hb);
    lemma_bit_test(c, hb);
    lemma_floor_facts(c as nat, hb);
    assert((c as nat) % pow2(hb + 1) == 0);
    let r = g & ((big - 1) as usize);
    assert(r as nat == g as nat % pp);
    assert(g as nat == c + pp + r);
    // the leaf's tree is below the merged one
    if d >= hb {
        lemma_pow2_divides(hb + 1, d + 1);
        assert(false);
    }
    let cn = c as nat;
    let mn = m as nat;
    let fnat = f as nat;
    lemma_pow2_divides(d + 1, hb + 1);
    lemma_pow2_divides(d, hb + 1);
    lemma_mod_trans(cn, pow2(hb + 1), pow2(d + 1));
    lemma_mod_trans(cn, pow2(hb + 1), pow2(d));
    lemma_floor_shift(cn, mn, d);
    lemma_floor_shift(cn, mn, d + 1);
    lemma_floor_facts(fnat, d);
    lemma_floor_facts(mn, d);
    lemma_times_bit(pow2(d), (fnat / pow2(d)) % 2);
    lemma_times_bit(pow2(d), (mn / pow2(d)) % 2);
    assert((mn / pow2(d)) % 2 == 1);
    assert(m != 0);
    lemma_lowbit(m);
    let b = m & !((m - 1) as usize);
    lemma_word_pow2(b);
    let t0 = ilog2(b as nat);
    lemma_pow2_shift(t0);
    lemma_mask_mod(m, t0);
    lemma_bit_test(m, t0);
    vstd::arithmetic::div_mod::lemma_fundamental_div_mod(m as int, pow2(t0) as int);
    let q = mn / pow2(t0);
    assert(mn == q * pow2(t0)) by (nonlinear_arith)
        requires
            mn == pow2(t0) * q + mn % pow2(t0),
            mn % pow2(t0) == 0,
    ;
    vstd::arithmetic::power2::lemma_pow2_pos(t0);
    assert(mn >= pow2(t0)) by (nonlinear_arith)
        requires
            mn == pow2(t0) * q + mn % pow2(t0),
            q % 2 == 1,
            pow2(t0) > 0,
    ;
    if t0 >= hb {
        lemma_pow2_divides(hb, t0);
        assert(false);
    }
    // the leaf's tree is one that merges, so not below the smallest
    if d < t0 {
        lemma_pow2_divides(d + 1, t0);
        lemma_mod_trans(mn, pow2(t0), pow2(d + 1));
        assert(false);
    }
    assert(merge_setting(leaves, gg, cn, mn, g as nat, hb, t0));
    lemma_merge_start(leaves, gg, f, g, hb, c, m, t0);
    let lp = layout_peaks(leaves, fnat);
    let data = crate::merkle::mmr::full::delta_data(layout(leaves, gg), f, g);
    let root = (nodes_in_forest_spec(fnat) + popcount(fnat) - 1 - (pow2(tz(fnat)) - 1)) as nat;
    let st = crate::merkle::mmr::partial::apply_merges(nodes, Seq::empty(), lp.reverse(), data, m, big, 0, data[0], 1, root,
        track_latest, m & !((m - 1) as usize));
    assert(st is Some);
    // the leaf's path so far
    assert forall|j: nat| (j < d || j < t0) implies nodes.dom().contains(#[trigger] leaf_sibling(pos, j) as usize) by {
        lemma_run_siblings(nodes, pos, 0, 64, j);
        assert(crate::merkle::mmr::partial::io_ancestor(crate::merkle::mmr::in_order::io_leaf(pos), 0)
            == crate::merkle::mmr::in_order::io_leaf(pos));
    }
    assert((mn as usize) == m);
    lemma_merges_follow(leaves, gg, cn, mn, g as nat, hb, t0, t0, pos, d, nodes, Seq::empty(), lp.reverse(), data, 0,
        data[0], 1, root, track_latest);
    // the leaf is in the merged tree of the `g` leaves
    lemma_floor_mono(mn, d + 1, hb);
    lemma_floor_facts(mn, hb);
    vstd::arithmetic::div_mod::lemma_small_mod(mn, pow2(hb));
    assert(cn <= pos < cn + pow2(hb));
    let gn = g as nat;
    lemma_floor_unique(gn, hb + 1, cn);
    lemma_floor_shift(cn, pow2(hb), hb);
    vstd::arithmetic::div_mod::lemma_mod_self_0(pow2(hb) as int);
    lemma_pow2_divides(hb, hb + 1);
    lemma_mod_trans(cn, pow2(hb + 1), pow2(hb));
    lemma_floor_unique(gn, hb, cn + pow2(hb));
    lemma_floor_facts(gn, hb);
    lemma_times_bit(pow2(hb), (gn / pow2(hb)) % 2);
    lemma_tree_of_leaf(pos, gn, hb);
    assert(floor_to(gn, hb + 1) + pow2(hb) <= gn);
    // the sibling of the merged tree is not known
    lemma_leaf_sibling(pos, hb);
    lemma_leaf_sibling_after(pos, hb, cn);
    lemma_floor_shift(cn, mn, hb);
    lemma_block_not_inner(fnat, cn + pow2(hb), hb);
    let stop = leaf_sibling(pos, hb);
    assert((stop as usize) as nat == stop);
    if nodes.dom().contains(stop as usize) {
        reveal(keys_inner);
        assert(inner_node_of(fnat, (stop as usize) as nat));
    }
    if let Some((p, n, acc)) = crate::merkle::mmr::partial::apply_outcome(f, lp, nodes, track_latest, g, data) {
        assert(!n.dom().contains(stop as usize));
        lemma_run_exact(n, pos, hb, 0);
        assert(crate::merkle::mmr::partial::io_ancestor(crate::merkle::mmr::in_order::io_leaf(pos), 0)
            == crate::merkle::mmr::in_order::io_leaf(pos));
        if map_valued(leaves, nodes) {
            assert forall|j: nat| j < hb implies n[#[trigger] leaf_sibling(pos, j) as usize] == node_value(leaves,
                leaf_sibling(pos, j)) by {
                lemma_leaf_sibling(pos, j);
                lemma_pow2_divides(j, hb);
                assert((leaf_sibling(pos, j) as usize) as nat == leaf_sibling(pos, j));
            }
        }
    }
}

/// The merges of a delta from level `t` up keep the known nodes and add only
/// nodes below the merged tree's height.
#[verifier::spinoff_prover]
proof fn lemma_merges_heights(leaves: Seq<Seq<nat>>, gg: nat, c: nat, mb: nat, g: nat, hb: nat, t0: nat, t: nat,
    mm: Map<usize, Seq<nat>>, acc: Seq<(nat, Seq<nat>)>, rpeaks: Seq<Seq<nat>>, data: Seq<Seq<nat>>, pc: nat,
    new: Seq<nat>, uc: nat, idx: nat, track: bool)
    requires
        merge_setting(leaves, gg, c, mb, g, hb, t0),
        t0 <= t <= hb,
        idx == 2 * (c + floor_to((mb - 1) as nat, t)) + pow2(t),
        crate::merkle::mmr::partial::apply_merges(mm, acc, rpeaks, data, mb as usize, pow2(hb) as usize, pc, new, uc,
            idx, track, pow2(t) as usize) is Some,
    ensures
        crate::merkle::mmr::partial::apply_merges(mm, acc, rpeaks, data, mb as usize, pow2(hb) as usize, pc, new, uc,
            idx, track, pow2(t) as usize) matches Some((m2, a2, pc2, new2, uc2))
            && (forall|k: usize| #[trigger] m2.dom().contains(k) && !mm.dom().contains(k) ==> tz(k as nat) < hb)
            && (forall|k: usize| mm.dom().contains(k) ==> #[trigger] m2.dom().contains(k)),
    decreases hb - t,
{
    lemma_setting_words(leaves, gg, c, mb, g, hb, t0, t);
    lemma_setting_words(leaves, gg, c, mb, g, hb, t0, hb);
    if t < hb {
        let tt = pow2(t) as usize;
        lemma_setting_words(leaves, gg, c, mb, g, hb, t0, t + 1);
        lemma_level_anchor(leaves, gg, c, mb, g, hb, t0, t, idx);
        lemma_floor_facts((mb - 1) as nat, t);
        lemma_floor_shift(c, floor_to((mb - 1) as nat, t), t);
        lemma_pow2_divides(t + 1, hb + 1);
        lemma_mod_trans(c, pow2(hb + 1), pow2(t + 1));
        lemma_floor_shift(c, floor_to((mb - 1) as nat, t), t + 1);
        lemma_floor_twice((mb - 1) as nat, t);
        lemma_block_parent(c + floor_to((mb - 1) as nat, t), t);
        let idx2 = crate::merkle::mmr::in_order::io_parent(idx);
        assert(idx2 == 2 * (c + floor_to((mb - 1) as nat, t + 1)) + pow2(t + 1));
        assert((tt * 2) as usize == pow2(t + 1) as usize);
        let tr = if tt != 1 && !track { crate::merkle::mmr::partial::tracked_node(mm, idx) } else { track };
        let take_update = tt & (mb as usize) == 0;
        let sib = crate::merkle::mmr::partial::io_sibling(idx);
        let keep = !take_update && crate::merkle::mmr::partial::tracked_node(mm, sib);
        let m1 = if keep { mm.insert(idx as usize, new) } else { mm };
        let left = if take_update { new } else { rpeaks[pc as int] };
        let right = if take_update { data[uc as int] } else { new };
        let sv = if crate::merkle::mmr::in_order::io_left(idx2) == idx { right } else { left };
        let m2 = if tr { m1.insert(sib as usize, sv) } else { m1 };
        lemma_merges_heights(leaves, gg, c, mb, g, hb, t0, t + 1, m2,
            if tr { (if keep { acc.push((idx, new)) } else { acc }).push((sib, sv)) } else { if keep { acc.push((idx, new)) } else { acc } },
            rpeaks, data, if take_update { pc } else { pc + 1 }, crate::merkle::merge_digest(left, right),
            if take_update { uc + 1 } else { uc }, idx2, tr);
        assert((idx as usize) as nat == idx);
        assert((sib as usize) as nat == sib);
    }
}

/// Adding less than `2^(h+1)` to a multiple of `2^(h+1)` leaves its bits from
/// `k > h` up as they were.
proof fn lemma_low_add_floor(c: nat, y: nat, h: nat, k: nat)
    requires
        c % pow2(h + 1) == 0,
        y < pow2(h + 1),
        h + 1 <= k,
    ensures
        floor_to(c + y, k) == floor_to(c, k),
{
    lemma_floor_facts(c, k);
    lemma_pow2_divides(h + 1, k);
    let fc = floor_to(c, k);
    lemma_mod_trans(fc, pow2(k), pow2(h + 1));
    lemma_multiples_gap(fc, c, pow2(h + 1));
    let rc = (c - fc) as nat;
    assert(rc < pow2(k));
    lemma_mod_trans(pow2(k), pow2(k), pow2(h + 1));
    lemma_multiples_gap(rc, pow2(k), pow2(h + 1));
    lemma_floor_unique(c + y, k, fc);
}

/// The law of keeping an untouched leaf in step: where a partial range of `f`
/// leaves that holds the peaks of the first `f` leaves knows only inner nodes
/// of its trees and knows the path of leaf `pos` in its tree of `2^d` leaves,
/// a delta of a full range up to `g` leaves whose merges leave that tree alone
/// (`f ^ g < 2^(d+1)`) leaves the leaf in a tree of the same height
/// (`tree_of(pos, g) == d`) with the same run of known siblings, and where
/// the nodes it knew held the full range's values, so does each of these.
#[verifier::spinoff_prover]
#[verifier::rlimit(100)]
pub proof fn lemma_apply_keeps_leaf(leaves: Seq<Seq<nat>>, gg: nat, f: usize, g: usize, nodes: Map<usize, Seq<nat>>,
    track_latest: bool, pos: nat, d: nat)
    requires
        f < g,
        g <= gg <= leaves.len(),
        gg <= usize::MAX / 32,
        keys_inner(f as nat, nodes),
        ((f as nat) / pow2(d)) % 2 == 1,
        floor_to(f as nat, d + 1) <= pos < floor_to(f as nat, d + 1) + pow2(d),
        ((f ^ g) as nat) < pow2(d + 1),
        crate::merkle::mmr::partial::known_run(nodes, crate::merkle::mmr::in_order::io_leaf(pos), 64) == d,
    ensures
        crate::merkle::mmr::partial::apply_outcome(f, layout_peaks(leaves, f as nat), nodes, track_latest, g,
            crate::merkle::mmr::full::delta_data(layout(leaves, gg), f, g)) matches Some((p, n, acc))
            && crate::merkle::mmr::opening::tree_of(pos, g as nat) == d
            && crate::merkle::mmr::partial::known_run(n, crate::merkle::mmr::in_order::io_leaf(pos), 64) == d
            && crate::merkle::mmr::opening::tree_of(pos, g as nat) < 64
            && floor_to(g as nat, crate::merkle::mmr::opening::tree_of(pos, g as nat) + 1) <= pos
            && pos < floor_to(g as nat, crate::merkle::mmr::opening::tree_of(pos, g as nat) + 1) + pow2(
                crate::merkle::mmr::opening::tree_of(pos, g as nat))
            && floor_to(g as nat, crate::merkle::mmr::opening::tree_of(pos, g as nat) + 1) + pow2(
                crate::merkle::mmr::opening::tree_of(pos, g as nat)) <= g
            && (map_valued(leaves, nodes) ==> forall|j: nat| j < d
                ==> n[#[trigger] leaf_sibling(pos, j) as usize] == node_value(leaves, leaf_sibling(pos, j))),
{
    lemma_apply_delta_syncs(leaves, gg, f, g, nodes, track_latest);
    let x = f ^ g;
    assert(x != 0) by (bit_vector)
        requires
            x == f ^ g,
            f < g,
    ;
    let hb = ilog2(x as nat);
    let pp = pow2(hb);
    lemma_ilog2_bounds(x as nat);
    vstd::arithmetic::power2::lemma_pow2_unfold(hb + 1);
    lemma_pow2_shift(hb);
    let big = pp as usize;
    lemma_delta_bits(f, g, big);
    let m = f & ((big - 1) as usize);
    let c = f ^ m;
    lemma_mask_mod(c, hb);
    lemma_mask_mod(g, hb);
    lemma_bit_test(c, hb);
    lemma_floor_facts(c as nat, hb);
    assert((c as nat) % pow2(hb + 1) == 0);
    let r = g & ((big - 1) as usize);
    assert(r as nat == g as nat % pp);
    assert(g as nat == c + pp + r);
    let cn = c as nat;
    let mn = m as nat;
    let fnat = f as nat;
    let gn = g as nat;
    // the leaf's tree is above the merged one
    if d < hb {
        lemma_pow2_divides(d + 1, hb);
        assert(false);
    }
    lemma_pow2_divides(hb, hb + 1);
    lemma_mod_trans(cn, pow2(hb + 1), pow2(hb));
    lemma_floor_unique(cn + mn, hb, cn);
    lemma_low_add_floor(cn, mn, hb, hb + 1);
    lemma_floor_facts(fnat, hb);
    lemma_times_bit(pow2(hb), (fnat / pow2(hb)) % 2);
    if d == hb {
        assert(false);
    }
    assert(mn < pow2(hb + 1));
    assert(pp + r < pow2(hb + 1));
    lemma_low_add_floor(cn, mn, hb, d);
    lemma_low_add_floor(cn, mn, hb, d + 1);
    lemma_low_add_floor(cn, (pp + r) as nat, hb, d);
    lemma_low_add_floor(cn, (pp + r) as nat, hb, d + 1);
    lemma_floor_facts(fnat, d);
    lemma_floor_facts(gn, d);
    lemma_times_bit(pow2(d), (fnat / pow2(d)) % 2);
    lemma_times_bit(pow2(d), (gn / pow2(d)) % 2);
    assert((gn / pow2(d)) % 2 == 1);
    lemma_tree_of_leaf(pos, gn, d);
    lemma_floor_facts(fnat, d + 1);
    assert(floor_to(gn, d + 1) + pow2(d) <= gn);
    // what the range knows after the delta
    let lp = layout_peaks(leaves, fnat);
    let data = crate::merkle::mmr::full::delta_data(layout(leaves, gg), f, g);
    if m != 0 {
        lemma_lowbit(m);
        let b = m & !((m - 1) as usize);
        lemma_word_pow2(b);
        let t0 = ilog2(b as nat);
        lemma_pow2_shift(t0);
        lemma_mask_mod(m, t0);
        lemma_bit_test(m, t0);
        vstd::arithmetic::div_mod::lemma_fundamental_div_mod(m as int, pow2(t0) as int);
        let q = mn / pow2(t0);
        vstd::arithmetic::power2::lemma_pow2_pos(t0);
        assert(mn >= pow2(t0)) by (nonlinear_arith)
            requires
                mn == pow2(t0) * q + mn % pow2(t0),
                mn % pow2(t0) == 0,
                q % 2 == 1,
                pow2(t0) > 0,
        ;
        if t0 >= hb {
            lemma_pow2_divides(hb, t0);
            assert(false);
        }
        assert(merge_setting(leaves, gg, cn, mn, gn, hb, t0));
        lemma_merge_start(leaves, gg, f, g, hb, c, m, t0);
        let root = (nodes_in_forest_spec(fnat) + popcount(fnat) - 1 - (pow2(tz(fnat)) - 1)) as nat;
        let st = crate::merkle::mmr::partial::apply_merges(nodes, Seq::empty(), lp.reverse(), data, m, big, 0, data[0],
            1, root, track_latest, m & !((m - 1) as usize));
        assert(st is Some);
        assert((mn as usize) == m);
        lemma_merges_heights(leaves, gg, cn, mn, gn, hb, t0, t0, nodes, Seq::empty(), lp.reverse(), data, 0, data[0],
            1, root, track_latest);
    }
    // the sibling of the leaf's tree is not known
    let a = floor_to(fnat, d + 1);
    lemma_floor_facts(fnat, d + 1);
    lemma_leaf_sibling(pos, d);
    lemma_leaf_sibling_after(pos, d, a);
    lemma_block_not_inner(fnat, a + pow2(d), d);
    let stop = leaf_sibling(pos, d);
    assert((stop as usize) as nat == stop);
    if nodes.dom().contains(stop as usize) {
        reveal(keys_inner);
        assert(inner_node_of(fnat, (stop as usize) as nat));
    }
    assert forall|j: nat| j < d implies nodes.dom().contains(#[trigger] leaf_sibling(pos, j) as usize) by {
        lemma_run_siblings(nodes, pos, 0, 64, j);
        assert(crate::merkle::mmr::partial::io_ancestor(crate::merkle::mmr::in_order::io_leaf(pos), 0)
            == crate::merkle::mmr::in_order::io_leaf(pos));
    }
    if let Some((p, n, acc)) = crate::merkle::mmr::partial::apply_outcome(f, lp, nodes, track_latest, g, data) {
        assert(!n.dom().contains(stop as usize));
        assert forall|j: nat| j < d implies n.dom().contains(#[trigger] leaf_sibling(pos, j) as usize) by {
            assert(nodes.dom().contains(leaf_sibling(pos, j) as usize));
        }
        lemma_pow2_divides(d, d);
        lemma_run_exact(n, pos, d, 0);
        assert(crate::merkle::mmr::partial::io_ancestor(crate::merkle::mmr::in_order::io_leaf(pos), 0)
            == crate::merkle::mmr::in_order::io_leaf(pos));
        if map_valued(leaves, nodes) {
            assert forall|j: nat| j < d implies n[#[trigger] leaf_sibling(pos, j) as usize] == node_value(leaves,
                leaf_sibling(pos, j)) by {
                lemma_leaf_sibling(pos, j);
                lemma_pow2_divides(j, d);
                assert((leaf_sibling(pos, j) as usize) as nat == leaf_sibling(pos, j));
                assert(n.dom().contains(leaf_sibling(pos, j) as usize));
            }
        }
    }
}

/// The value of the sibling met `j` levels above leaf `pos`, for `pos` in the
/// tree of `2^t` leaves from `fb` (a multiple of `2^(t+1)`), is the entry at
/// level `j` of the leaf's path in that tree.
pub(crate) proof fn lemma_sibling_value_path(leaves: Seq<Seq<nat>>, pos: nat, fb: nat, t: nat, j: nat)
    requires
        fb % pow2(t + 1) == 0,
        fb <= pos < fb + pow2(t),
        fb + pow2(t) <= leaves.len(),
        j < t,
    ensures
        node_value(leaves, leaf_sibling(pos, j)) == tree_path(leaves.skip(fb as int).take(pow2(t) as int), t,
            (pos - fb) as nat)[j as int],
{
    let p = (pos - fb) as nat;
    let sub = leaves.skip(fb as int).take(pow2(t) as int);
    vstd::arithmetic::power2::lemma_pow2_unfold(j + 1);
    vstd::arithmetic::power2::lemma_pow2_pos(j);
    lemma_pow2_divides(j, t + 1);
    lemma_pow2_divides(j + 1, t + 1);
    lemma_pow2_divides(j + 1, t);
    lemma_mod_trans(fb, pow2(t + 1), pow2(j));
    lemma_mod_trans(fb, pow2(t + 1), pow2(j + 1));
    lemma_floor_shift(fb, p, j);
    lemma_floor_shift(fb, p, j + 1);
    lemma_leaf_ancestor(pos, j);
    let lo = floor_to(pos, j);
    lemma_floor_facts(pos, j);
    lemma_floor_facts(p, j);
    lemma_block_sibling(lo, j);
    let q = p / pow2(j);
    assert(floor_to(p, j) == q * pow2(j));
    // the quotient stays within the tree
    vstd::arithmetic::div_mod::lemma_div_is_ordered(p as int, pow2(t) as int, pow2(j) as int);
    lemma_pow2_divides(j, t);
    vstd::arithmetic::power2::lemma_pow2_adds(j, (t - j) as nat);
    assert(j + (t - j) as nat == t);
    let w = pow2((t - j) as nat);
    vstd::arithmetic::div_mod::lemma_div_by_multiple(w as int, pow2(j) as int);
    assert(pow2(t) / pow2(j) == w) by {
        assert(pow2(t) == w * pow2(j)) by (nonlinear_arith)
            requires
                pow2(t) == pow2(j) * w,
        ;
    }
    lemma_floor_facts(p, j + 1);
    let sq = if q % 2 == 0 { q + 1 } else { (q - 1) as nat };
    assert(sq == crate::merkle::mmr::layout::sibling_of(q));
    if q % 2 == 0 {
        assert(floor_to(lo, j + 1) == lo) by {
            assert(p / pow2(j + 1) == q / 2);
            assert(floor_to(p, j + 1) == (q / 2) * pow2(j + 1));
            assert((q / 2) * pow2(j + 1) == q * pow2(j)) by (nonlinear_arith)
                requires
                    q % 2 == 0,
                    pow2(j + 1) == 2 * pow2(j),
            ;
            lemma_floor_unique(lo, j + 1, lo);
        }
        assert(sq * pow2(j) == q * pow2(j) + pow2(j)) by (nonlinear_arith)
            requires
                sq == q + 1,
        ;
    } else {
        assert(floor_to(lo, j + 1) != lo) by {
            lemma_floor_twice(pos, j);
            assert(p / pow2(j + 1) == q / 2);
            assert((q / 2) * pow2(j + 1) + pow2(j) == q * pow2(j)) by (nonlinear_arith)
                requires
                    q % 2 == 1,
                    pow2(j + 1) == 2 * pow2(j),
            ;
        }
        assert(sq * pow2(j) + pow2(j) == q * pow2(j)) by (nonlinear_arith)
            requires
                sq + 1 == q,
        ;
    }
    // the sibling block lies in the tree
    assert(w * pow2(j) == pow2(t)) by (nonlinear_arith)
        requires
            pow2(t) == pow2(j) * w,
    ;
    assert(q < w) by (nonlinear_arith)
        requires
            q * pow2(j) <= p,
            p < w * pow2(j),
            pow2(j) > 0,
    ;
    if q % 2 == 0 {
        vstd::arithmetic::power2::lemma_pow2_unfold((t - j) as nat);
        assert(q + 1 < w);
    }
    assert(sq < w);
    assert((sq + 1) * pow2(j) <= w * pow2(j)) by (nonlinear_arith)
        requires
            sq < w,
            pow2(j) > 0,
    ;
    assert((sq + 1) * pow2(j) == sq * pow2(j) + pow2(j)) by (nonlinear_arith);
    assert(w * pow2(j) == pow2(t)) by (nonlinear_arith)
        requires
            pow2(t) == pow2(j) * w,
    ;
    let slo = fb + sq * pow2(j);
    lemma_floor_shift(fb, sq * pow2(j), j);
    vstd::arithmetic::div_mod::lemma_mod_multiples_basic(sq as int, pow2(j) as int);
    lemma_block_value(leaves, slo, j);
    assert(leaf_sibling(pos, j) == 2 * slo + pow2(j));
    assert(crate::merkle::mmr::layout::subtree(sub, j, sq) =~= leaves.skip(slo as int).take(pow2(j) as int));
}

} // verus!
