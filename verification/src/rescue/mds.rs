//! The MDS mixing layer: multiplication of the state by a 12x12 circulant
//! matrix, carried out through a small real FFT on 32-bit limbs.

use vstd::prelude::*;
use crate::felt::{Felt, MONT_R, modulus, mont_spec};
use super::{STATE_WIDTH, state_seq};

verus! {

/// The sum of two words modulo `2^64`, and whether the addition overflowed.
pub fn add_with_carry(a: u64, b: u64) -> (r: (u64, bool))
    ensures
        r.1 == (a + b > u64::MAX),
        r.0 == (if a + b > u64::MAX { a + b - 18446744073709551616int } else { a + b }),
{
    let s = a.wrapping_add(b);
    (s, s < a)
}

/// The first row of the circulant MDS matrix.
pub open spec fn mds_first_row(k: int) -> int {
    if k == 0 { 7 }
    else if k == 1 { 23 }
    else if k == 2 { 8 }
    else if k == 3 { 26 }
    else if k == 4 { 13 }
    else if k == 5 { 10 }
    else if k == 6 { 9 }
    else if k == 7 { 7 }
    else if k == 8 { 6 }
    else if k == 9 { 22 }
    else if k == 10 { 21 }
    else { 8 }
}

/// Entry `(i, j)` of the circulant MDS matrix: row `i` is the first row rotated right by `i`.
pub open spec fn mds_coef(i: int, j: int) -> int {
    mds_first_row((j - i + 12) % 12)
}

/// `sum_{j < n} mds_coef(i, j) * s[j]` over the integers.
pub open spec fn mds_row_sum(s: Seq<int>, i: int, n: nat) -> int
    decreases n,
{
    if n == 0 {
        0
    } else {
        mds_row_sum(s, i, (n - 1) as nat) + mds_coef(i, n - 1) * s[n - 1]
    }
}

/// The integers held by a 64-bit array.
pub open spec fn ints12(s: [u64; 12]) -> Seq<int> {
    Seq::new(12, |j: int| s[j] as int)
}

/// The MDS layer on field values: row `i` of the matrix times the state, modulo `p`.
pub open spec fn mds_spec(s: Seq<nat>) -> Seq<nat> {
    Seq::new(12, |i: int| (mds_row_sum(Seq::new(12, |j: int| s[j] as int), i, 12) % (modulus() as int)) as nat)
}

const MDS_FREQ_BLOCK_ONE: [i64; 3] = [16i64, 8i64, 16i64];
const MDS_FREQ_BLOCK_TWO: [(i64, i64); 3] = [(-1i64, 2i64), (-1i64, 1i64), (4i64, 8i64)];
const MDS_FREQ_BLOCK_THREE: [i64; 3] = [-8i64, 1i64, 1i64];

/// Bound of the absolute value of a product.
proof fn lemma_mul_abs_bound(a: int, b: int, ba: int, bb: int)
    requires
        -ba <= a <= ba,
        -bb <= b <= bb,
    ensures
        -(ba * bb) <= a * b <= ba * bb,
{
    assert(-(ba * bb) <= a * b <= ba * bb) by (nonlinear_arith)
        requires
            -ba <= a <= ba,
            -bb <= b <= bb,
    ;
}

/// Two-point real FFT.
fn fft2_real(x: [u64; 2]) -> (r: [i64; 2])
    requires
        x[0] < 0x1_0000_0000_0000,
        x[1] < 0x1_0000_0000_0000,
    ensures
        r[0] == x[0] + x[1],
        r[1] == x[0] - x[1],
{
    [(x[0] as i64 + x[1] as i64), (x[0] as i64 - x[1] as i64)]
}

/// Two-point inverse real FFT; its outputs are exact when they are non-negative.
fn ifft2_real(y: [i64; 2]) -> (r: [u64; 2])
    requires
        -0x1000_0000_0000_0000 <= y[0] <= 0x1000_0000_0000_0000,
        -0x1000_0000_0000_0000 <= y[1] <= 0x1000_0000_0000_0000,
    ensures
        y[0] + y[1] >= 0 ==> r[0] == y[0] + y[1],
        y[0] - y[1] >= 0 ==> r[1] == y[0] - y[1],
{
    [(y[0] + y[1]) as u64, (y[0] - y[1]) as u64]
}

/// Four-point real FFT.
fn fft4_real(x: [u64; 4]) -> (r: (i64, (i64, i64), i64))
    requires
        x[0] < 0x1_0000_0000,
        x[1] < 0x1_0000_0000,
        x[2] < 0x1_0000_0000,
        x[3] < 0x1_0000_0000,
    ensures
        r.0 == x[0] + x[2] + x[1] + x[3],
        r.1.0 == x[0] - x[2],
        r.1.1 == -(x[1] - x[3]),
        r.2 == x[0] + x[2] - (x[1] + x[3]),
{
    let t1 = fft2_real([x[0], x[2]]);
    let z0 = t1[0];
    let z2 = t1[1];
    let t2 = fft2_real([x[1], x[3]]);
    let z1 = t2[0];
    let z3 = t2[1];
    let y0 = z0 + z1;
    let y1 = (z2, -z3);
    let y2 = z0 - z1;
    (y0, y1, y2)
}

/// Four-point inverse real FFT; exact on non-negative outputs.
fn ifft4_real(y: (i64, (i64, i64), i64)) -> (r: [u64; 4])
    requires
        -0x1_0000_0000_0000 <= y.0 <= 0x1_0000_0000_0000,
        -0x1_0000_0000_0000 <= y.1.0 <= 0x1_0000_0000_0000,
        -0x1_0000_0000_0000 <= y.1.1 <= 0x1_0000_0000_0000,
        -0x1_0000_0000_0000 <= y.2 <= 0x1_0000_0000_0000,
    ensures
        (y.0 + y.2) + y.1.0 >= 0 ==> r[0] == (y.0 + y.2) + y.1.0,
        (y.0 - y.2) + (-y.1.1) >= 0 ==> r[1] == (y.0 - y.2) + (-y.1.1),
        (y.0 + y.2) - y.1.0 >= 0 ==> r[2] == (y.0 + y.2) - y.1.0,
        (y.0 - y.2) - (-y.1.1) >= 0 ==> r[3] == (y.0 - y.2) - (-y.1.1),
{
    let z0 = y.0 + y.2;
    let z1 = y.0 - y.2;
    let z2 = y.1.0;
    let z3 = -y.1.1;
    let t3 = ifft2_real([z0, z2]);
    let x0 = t3[0];
    let x2 = t3[1];
    let t4 = ifft2_real([z1, z3]);
    let x1 = t4[0];
    let x3 = t4[1];
    [x0, x1, x2, x3]
}

/// The first frequency block: a length-3 cyclic convolution.
fn block1(x: [i64; 3], y: [i64; 3]) -> (r: [i64; 3])
    requires
        forall|i: int| 0 <= i < 3 ==> -0x10_0000_0000 <= #[trigger] x[i] <= 0x10_0000_0000,
        forall|i: int| 0 <= i < 3 ==> -16 <= #[trigger] y[i] <= 16,
    ensures
        r[0] == x[0] * y[0] + x[1] * y[2] + x[2] * y[1],
        r[1] == x[0] * y[1] + x[1] * y[0] + x[2] * y[2],
        r[2] == x[0] * y[2] + x[1] * y[1] + x[2] * y[0],
{
    let t5 = x;
    let x0 = t5[0];
    let x1 = t5[1];
    let x2 = t5[2];
    let t6 = y;
    let y0 = t6[0];
    let y1 = t6[1];
    let y2 = t6[2];
    proof {
        assert(-0x10_0000_0000 <= x0 <= 0x10_0000_0000 && -0x10_0000_0000 <= x1 <= 0x10_0000_0000
            && -0x10_0000_0000 <= x2 <= 0x10_0000_0000);
        assert(-16 <= y0 <= 16 && -16 <= y1 <= 16 && -16 <= y2 <= 16);
        lemma_mul_abs_bound(x0 as int, y0 as int, 0x10_0000_0000, 16);
        lemma_mul_abs_bound(x0 as int, y1 as int, 0x10_0000_0000, 16);
        lemma_mul_abs_bound(x0 as int, y2 as int, 0x10_0000_0000, 16);
        lemma_mul_abs_bound(x1 as int, y0 as int, 0x10_0000_0000, 16);
        lemma_mul_abs_bound(x1 as int, y1 as int, 0x10_0000_0000, 16);
        lemma_mul_abs_bound(x1 as int, y2 as int, 0x10_0000_0000, 16);
        lemma_mul_abs_bound(x2 as int, y0 as int, 0x10_0000_0000, 16);
        lemma_mul_abs_bound(x2 as int, y1 as int, 0x10_0000_0000, 16);
        lemma_mul_abs_bound(x2 as int, y2 as int, 0x10_0000_0000, 16);
    }
    let z0 = x0 * y0 + x1 * y2 + x2 * y1;
    let z1 = x0 * y1 + x1 * y0 + x2 * y2;
    let z2 = x0 * y2 + x1 * y1 + x2 * y0;
    [z0, z1, z2]
}

/// The third frequency block: a length-3 negacyclic-style convolution.
fn block3(x: [i64; 3], y: [i64; 3]) -> (r: [i64; 3])
    requires
        forall|i: int| 0 <= i < 3 ==> -0x10_0000_0000 <= #[trigger] x[i] <= 0x10_0000_0000,
        forall|i: int| 0 <= i < 3 ==> -16 <= #[trigger] y[i] <= 16,
    ensures
        r[0] == x[0] * y[0] - x[1] * y[2] - x[2] * y[1],
        r[1] == x[0] * y[1] + x[1] * y[0] - x[2] * y[2],
        r[2] == x[0] * y[2] + x[1] * y[1] + x[2] * y[0],
{
    let t7 = x;
    let x0 = t7[0];
    let x1 = t7[1];
    let x2 = t7[2];
    let t8 = y;
    let y0 = t8[0];
    let y1 = t8[1];
    let y2 = t8[2];
    proof {
        assert(-0x10_0000_0000 <= x0 <= 0x10_0000_0000 && -0x10_0000_0000 <= x1 <= 0x10_0000_0000
            && -0x10_0000_0000 <= x2 <= 0x10_0000_0000);
        assert(-16 <= y0 <= 16 && -16 <= y1 <= 16 && -16 <= y2 <= 16);
        lemma_mul_abs_bound(x0 as int, y0 as int, 0x10_0000_0000, 16);
        lemma_mul_abs_bound(x0 as int, y1 as int, 0x10_0000_0000, 16);
        lemma_mul_abs_bound(x0 as int, y2 as int, 0x10_0000_0000, 16);
        lemma_mul_abs_bound(x1 as int, y0 as int, 0x10_0000_0000, 16);
        lemma_mul_abs_bound(x1 as int, y1 as int, 0x10_0000_0000, 16);
        lemma_mul_abs_bound(x1 as int, y2 as int, 0x10_0000_0000, 16);
        lemma_mul_abs_bound(x2 as int, y0 as int, 0x10_0000_0000, 16);
        lemma_mul_abs_bound(x2 as int, y1 as int, 0x10_0000_0000, 16);
        lemma_mul_abs_bound(x2 as int, y2 as int, 0x10_0000_0000, 16);
    }
    let z0 = x0 * y0 - x1 * y2 - x2 * y1;
    let z1 = x0 * y1 + x1 * y0 - x2 * y2;
    let z2 = x0 * y2 + x1 * y1 + x2 * y0;
    [z0, z1, z2]
}

/// The second frequency block: a length-3 convolution of complex values,
/// computed with three real products per complex product.
fn block2(x: [(i64, i64); 3], y: [(i64, i64); 3]) -> (r: [(i64, i64); 3])
    requires
        forall|i: int| 0 <= i < 3 ==> -0x10_0000_0000 <= #[trigger] x[i].0 <= 0x10_0000_0000,
        forall|i: int| 0 <= i < 3 ==> -0x10_0000_0000 <= #[trigger] x[i].1 <= 0x10_0000_0000,
        forall|i: int| 0 <= i < 3 ==> -16 <= #[trigger] y[i].0 <= 16,
        forall|i: int| 0 <= i < 3 ==> -16 <= #[trigger] y[i].1 <= 16,
    ensures
        r[0].0 == x[0].0 * y[0].0 - x[0].1 * y[0].1 + x[1].0 * y[2].1 + x[1].1 * y[2].0 + x[2].0 * y[1].1 + x[2].1 * y[1].0,
        r[0].1 == x[0].0 * y[0].1 + x[0].1 * y[0].0 - x[1].0 * y[2].0 + x[1].1 * y[2].1 - x[2].0 * y[1].0 + x[2].1 * y[1].1,
        r[1].0 == x[0].0 * y[1].0 - x[0].1 * y[1].1 + x[1].0 * y[0].0 - x[1].1 * y[0].1 + x[2].0 * y[2].1 + x[2].1 * y[2].0,
        r[1].1 == x[0].0 * y[1].1 + x[0].1 * y[1].0 + x[1].0 * y[0].1 + x[1].1 * y[0].0 - x[2].0 * y[2].0 + x[2].1 * y[2].1,
        r[2].0 == x[0].0 * y[2].0 - x[0].1 * y[2].1 + x[1].0 * y[1].0 - x[1].1 * y[1].1 + x[2].0 * y[0].0 - x[2].1 * y[0].1,
        r[2].1 == x[0].0 * y[2].1 + x[0].1 * y[2].0 + x[1].0 * y[1].1 + x[1].1 * y[1].0 + x[2].0 * y[0].1 + x[2].1 * y[0].0,
{
    let x0 = x[0];
    let x1 = x[1];
    let x2 = x[2];
    let y0 = y[0];
    let y1 = y[1];
    let y2 = y[2];
    let (x0r, x0i) = x0;
    let (x1r, x1i) = x1;
    let (x2r, x2i) = x2;
    let (y0r, y0i) = y0;
    let (y1r, y1i) = y1;
    let (y2r, y2i) = y2;
    proof {
        assert(-0x10_0000_0000 <= x0r <= 0x10_0000_0000 && -0x10_0000_0000 <= x1r <= 0x10_0000_0000
            && -0x10_0000_0000 <= x2r <= 0x10_0000_0000);
        assert(-0x10_0000_0000 <= x0i <= 0x10_0000_0000 && -0x10_0000_0000 <= x1i <= 0x10_0000_0000
            && -0x10_0000_0000 <= x2i <= 0x10_0000_0000);
        assert(-16 <= y0r <= 16 && -16 <= y1r <= 16 && -16 <= y2r <= 16);
        assert(-16 <= y0i <= 16 && -16 <= y1i <= 16 && -16 <= y2i <= 16);
    }
    let x0s = x0r + x0i;
    let x1s = x1r + x1i;
    let x2s = x2r + x2i;
    let y0s = y0r + y0i;
    let y1s = y1r + y1i;
    let y2s = y2r + y2i;
    proof {
        let bx: int = 0x10_0000_0000;
        let bs: int = 0x20_0000_0000;
        lemma_mul_abs_bound(x0r as int, y0r as int, bx, 16);
        lemma_mul_abs_bound(x0i as int, y0i as int, bx, 16);
        lemma_mul_abs_bound(x1r as int, y2r as int, bx, 16);
        lemma_mul_abs_bound(x1i as int, y2i as int, bx, 16);
        lemma_mul_abs_bound(x2r as int, y1r as int, bx, 16);
        lemma_mul_abs_bound(x2i as int, y1i as int, bx, 16);
        lemma_mul_abs_bound(x0r as int, y1r as int, bx, 16);
        lemma_mul_abs_bound(x0i as int, y1i as int, bx, 16);
        lemma_mul_abs_bound(x1r as int, y0r as int, bx, 16);
        lemma_mul_abs_bound(x1i as int, y0i as int, bx, 16);
        lemma_mul_abs_bound(x2r as int, y2r as int, bx, 16);
        lemma_mul_abs_bound(x2i as int, y2i as int, bx, 16);
        lemma_mul_abs_bound(x0r as int, y2r as int, bx, 16);
        lemma_mul_abs_bound(x0i as int, y2i as int, bx, 16);
        lemma_mul_abs_bound(x1r as int, y1r as int, bx, 16);
        lemma_mul_abs_bound(x1i as int, y1i as int, bx, 16);
        lemma_mul_abs_bound(x2r as int, y0r as int, bx, 16);
        lemma_mul_abs_bound(x2i as int, y0i as int, bx, 16);
        lemma_mul_abs_bound(x0s as int, y0s as int, bs, 32);
        lemma_mul_abs_bound(x1s as int, y2s as int, bs, 32);
        lemma_mul_abs_bound(x2s as int, y1s as int, bs, 32);
        lemma_mul_abs_bound(x0s as int, y1s as int, bs, 32);
        lemma_mul_abs_bound(x1s as int, y0s as int, bs, 32);
        lemma_mul_abs_bound(x2s as int, y2s as int, bs, 32);
        lemma_mul_abs_bound(x0s as int, y2s as int, bs, 32);
        lemma_mul_abs_bound(x1s as int, y1s as int, bs, 32);
        lemma_mul_abs_bound(x2s as int, y0s as int, bs, 32);
    }

    let m0 = (x0r * y0r, x0i * y0i);
    let m1 = (x1r * y2r, x1i * y2i);
    let m2 = (x2r * y1r, x2i * y1i);
    let z0r = (m0.0 - m0.1) + (x1s * y2s - m1.0 - m1.1) + (x2s * y1s - m2.0 - m2.1);
    let z0i = (x0s * y0s - m0.0 - m0.1) + (-m1.0 + m1.1) + (-m2.0 + m2.1);
    let z0 = (z0r, z0i);

    let m0 = (x0r * y1r, x0i * y1i);
    let m1 = (x1r * y0r, x1i * y0i);
    let m2 = (x2r * y2r, x2i * y2i);
    let z1r = (m0.0 - m0.1) + (m1.0 - m1.1) + (x2s * y2s - m2.0 - m2.1);
    let z1i = (x0s * y1s - m0.0 - m0.1) + (x1s * y0s - m1.0 - m1.1) + (-m2.0 + m2.1);
    let z1 = (z1r, z1i);

    let m0 = (x0r * y2r, x0i * y2i);
    let m1 = (x1r * y1r, x1i * y1i);
    let m2 = (x2r * y0r, x2i * y0i);
    let z2r = (m0.0 - m0.1) + (m1.0 - m1.1) + (m2.0 - m2.1);
    let z2i = (x0s * y2s - m0.0 - m0.1) + (x1s * y1s - m1.0 - m1.1) + (x2s * y0s - m2.0 - m2.1);
    let z2 = (z2r, z2i);

    proof {
        lemma_cross(x0r as int, x0i as int, y0r as int, y0i as int);
        lemma_cross(x1r as int, x1i as int, y2r as int, y2i as int);
        lemma_cross(x2r as int, x2i as int, y1r as int, y1i as int);
        lemma_cross(x0r as int, x0i as int, y1r as int, y1i as int);
        lemma_cross(x1r as int, x1i as int, y0r as int, y0i as int);
        lemma_cross(x2r as int, x2i as int, y2r as int, y2i as int);
        lemma_cross(x0r as int, x0i as int, y2r as int, y2i as int);
        lemma_cross(x1r as int, x1i as int, y1r as int, y1i as int);
        lemma_cross(x2r as int, x2i as int, y0r as int, y0i as int);
    }
    [z0, z1, z2]
}

/// Karatsuba's identity for the cross terms of a complex product.
proof fn lemma_cross(ar: int, ai: int, br: int, bi: int)
    ensures
        (ar + ai) * (br + bi) - ar * br - ai * bi == ar * bi + ai * br,
{
    assert((ar + ai) * (br + bi) - ar * br - ai * bi == ar * bi + ai * br) by (nonlinear_arith);
}

/// The FFT pipeline of [`mds_multiply_freq`] computes the circulant product.
proof fn lemma_freq_identity(s: Seq<int>, u: Seq<int>, v: Seq<int>)
    requires
        s.len() == 12,
        forall|i: int| 0 <= i < 12 ==> 0 <= #[trigger] s[i] < 0x1_0000_0000,
        u.len() == 12,
        v.len() == 12,
        u[0] == s[0] + s[6] + s[3] + s[9],
        u[1] == s[0] - s[6],
        u[2] == -(s[3] - s[9]),
        u[3] == s[0] + s[6] - (s[3] + s[9]),
        u[4] == s[1] + s[7] + s[4] + s[10],
        u[5] == s[1] - s[7],
        u[6] == -(s[4] - s[10]),
        u[7] == s[1] + s[7] - (s[4] + s[10]),
        u[8] == s[2] + s[8] + s[5] + s[11],
        u[9] == s[2] - s[8],
        u[10] == -(s[5] - s[11]),
        u[11] == s[2] + s[8] - (s[5] + s[11]),
        v[0] == u[0] * 16 + u[4] * 16 + u[8] * 8,
        v[4] == u[0] * 8 + u[4] * 16 + u[8] * 16,
        v[8] == u[0] * 16 + u[4] * 8 + u[8] * 16,
        v[3] == u[3] * -8 - u[7] * 1 - u[11] * 1,
        v[7] == u[3] * 1 + u[7] * -8 - u[11] * 1,
        v[11] == u[3] * 1 + u[7] * 1 + u[11] * -8,
        v[1] == u[1] * -1 - u[2] * 2 + u[5] * 8 + u[6] * 4 + u[9] * 1 + u[10] * -1,
        v[2] == u[1] * 2 + u[2] * -1 - u[5] * 4 + u[6] * 8 - u[9] * -1 + u[10] * 1,
        v[5] == u[1] * -1 - u[2] * 1 + u[5] * -1 - u[6] * 2 + u[9] * 8 + u[10] * 4,
        v[6] == u[1] * 1 + u[2] * -1 + u[5] * 2 + u[6] * -1 - u[9] * 4 + u[10] * 8,
        v[9] == u[1] * 4 - u[2] * 8 + u[5] * -1 - u[6] * 1 + u[9] * -1 - u[10] * 2,
        v[10] == u[1] * 8 + u[2] * 4 + u[5] * 1 + u[6] * -1 + u[9] * 2 + u[10] * -1,
    ensures
        forall|i: int| 0 <= i < 12 ==> -0x1_0000_0000_0000 <= #[trigger] v[i] <= 0x1_0000_0000_0000,
        (v[0] + v[3]) + v[1] == 7 * s[0] + 23 * s[1] + 8 * s[2] + 26 * s[3] + 13 * s[4] + 10 * s[5] + 9 * s[6] + 7 * s[7] + 6 * s[8] + 22 * s[9] + 21 * s[10] + 8 * s[11],
        (v[4] + v[7]) + v[5] == 8 * s[0] + 7 * s[1] + 23 * s[2] + 8 * s[3] + 26 * s[4] + 13 * s[5] + 10 * s[6] + 9 * s[7] + 7 * s[8] + 6 * s[9] + 22 * s[10] + 21 * s[11],
        (v[8] + v[11]) + v[9] == 21 * s[0] + 8 * s[1] + 7 * s[2] + 23 * s[3] + 8 * s[4] + 26 * s[5] + 13 * s[6] + 10 * s[7] + 9 * s[8] + 7 * s[9] + 6 * s[10] + 22 * s[11],
        (v[0] - v[3]) - v[2] == 22 * s[0] + 21 * s[1] + 8 * s[2] + 7 * s[3] + 23 * s[4] + 8 * s[5] + 26 * s[6] + 13 * s[7] + 10 * s[8] + 9 * s[9] + 7 * s[10] + 6 * s[11],
        (v[4] - v[7]) - v[6] == 6 * s[0] + 22 * s[1] + 21 * s[2] + 8 * s[3] + 7 * s[4] + 23 * s[5] + 8 * s[6] + 26 * s[7] + 13 * s[8] + 10 * s[9] + 9 * s[10] + 7 * s[11],
        (v[8] - v[11]) - v[10] == 7 * s[0] + 6 * s[1] + 22 * s[2] + 21 * s[3] + 8 * s[4] + 7 * s[5] + 23 * s[6] + 8 * s[7] + 26 * s[8] + 13 * s[9] + 10 * s[10] + 9 * s[11],
        (v[0] + v[3]) - v[1] == 9 * s[0] + 7 * s[1] + 6 * s[2] + 22 * s[3] + 21 * s[4] + 8 * s[5] + 7 * s[6] + 23 * s[7] + 8 * s[8] + 26 * s[9] + 13 * s[10] + 10 * s[11],
        (v[4] + v[7]) - v[5] == 10 * s[0] + 9 * s[1] + 7 * s[2] + 6 * s[3] + 22 * s[4] + 21 * s[5] + 8 * s[6] + 7 * s[7] + 23 * s[8] + 8 * s[9] + 26 * s[10] + 13 * s[11],
        (v[8] + v[11]) - v[9] == 13 * s[0] + 10 * s[1] + 9 * s[2] + 7 * s[3] + 6 * s[4] + 22 * s[5] + 21 * s[6] + 8 * s[7] + 7 * s[8] + 23 * s[9] + 8 * s[10] + 26 * s[11],
        (v[0] - v[3]) + v[2] == 26 * s[0] + 13 * s[1] + 10 * s[2] + 9 * s[3] + 7 * s[4] + 6 * s[5] + 22 * s[6] + 21 * s[7] + 8 * s[8] + 7 * s[9] + 23 * s[10] + 8 * s[11],
        (v[4] - v[7]) + v[6] == 8 * s[0] + 26 * s[1] + 13 * s[2] + 10 * s[3] + 9 * s[4] + 7 * s[5] + 6 * s[6] + 22 * s[7] + 21 * s[8] + 8 * s[9] + 7 * s[10] + 23 * s[11],
        (v[8] - v[11]) + v[10] == 23 * s[0] + 8 * s[1] + 26 * s[2] + 13 * s[3] + 10 * s[4] + 9 * s[5] + 7 * s[6] + 6 * s[7] + 22 * s[8] + 21 * s[9] + 8 * s[10] + 7 * s[11],
{
    assert(0 <= s[0] < 0x1_0000_0000 && 0 <= s[1] < 0x1_0000_0000 && 0 <= s[2] < 0x1_0000_0000 && 0 <= s[3] < 0x1_0000_0000);
    assert(0 <= s[4] < 0x1_0000_0000 && 0 <= s[5] < 0x1_0000_0000 && 0 <= s[6] < 0x1_0000_0000 && 0 <= s[7] < 0x1_0000_0000);
    assert(0 <= s[8] < 0x1_0000_0000 && 0 <= s[9] < 0x1_0000_0000 && 0 <= s[10] < 0x1_0000_0000 && 0 <= s[11] < 0x1_0000_0000);
}

/// The row sums of the circulant matrix written out.
proof fn lemma_row_sums(s: Seq<int>)
    requires
        s.len() == 12,
    ensures
        mds_row_sum(s, 0, 12) == 7 * s[0] + 23 * s[1] + 8 * s[2] + 26 * s[3] + 13 * s[4] + 10 * s[5] + 9 * s[6] + 7 * s[7] + 6 * s[8] + 22 * s[9] + 21 * s[10] + 8 * s[11],
        mds_row_sum(s, 1, 12) == 8 * s[0] + 7 * s[1] + 23 * s[2] + 8 * s[3] + 26 * s[4] + 13 * s[5] + 10 * s[6] + 9 * s[7] + 7 * s[8] + 6 * s[9] + 22 * s[10] + 21 * s[11],
        mds_row_sum(s, 2, 12) == 21 * s[0] + 8 * s[1] + 7 * s[2] + 23 * s[3] + 8 * s[4] + 26 * s[5] + 13 * s[6] + 10 * s[7] + 9 * s[8] + 7 * s[9] + 6 * s[10] + 22 * s[11],
        mds_row_sum(s, 3, 12) == 22 * s[0] + 21 * s[1] + 8 * s[2] + 7 * s[3] + 23 * s[4] + 8 * s[5] + 26 * s[6] + 13 * s[7] + 10 * s[8] + 9 * s[9] + 7 * s[10] + 6 * s[11],
        mds_row_sum(s, 4, 12) == 6 * s[0] + 22 * s[1] + 21 * s[2] + 8 * s[3] + 7 * s[4] + 23 * s[5] + 8 * s[6] + 26 * s[7] + 13 * s[8] + 10 * s[9] + 9 * s[10] + 7 * s[11],
        mds_row_sum(s, 5, 12) == 7 * s[0] + 6 * s[1] + 22 * s[2] + 21 * s[3] + 8 * s[4] + 7 * s[5] + 23 * s[6] + 8 * s[7] + 26 * s[8] + 13 * s[9] + 10 * s[10] + 9 * s[11],
        mds_row_sum(s, 6, 12) == 9 * s[0] + 7 * s[1] + 6 * s[2] + 22 * s[3] + 21 * s[4] + 8 * s[5] + 7 * s[6] + 23 * s[7] + 8 * s[8] + 26 * s[9] + 13 * s[10] + 10 * s[11],
        mds_row_sum(s, 7, 12) == 10 * s[0] + 9 * s[1] + 7 * s[2] + 6 * s[3] + 22 * s[4] + 21 * s[5] + 8 * s[6] + 7 * s[7] + 23 * s[8] + 8 * s[9] + 26 * s[10] + 13 * s[11],
        mds_row_sum(s, 8, 12) == 13 * s[0] + 10 * s[1] + 9 * s[2] + 7 * s[3] + 6 * s[4] + 22 * s[5] + 21 * s[6] + 8 * s[7] + 7 * s[8] + 23 * s[9] + 8 * s[10] + 26 * s[11],
        mds_row_sum(s, 9, 12) == 26 * s[0] + 13 * s[1] + 10 * s[2] + 9 * s[3] + 7 * s[4] + 6 * s[5] + 22 * s[6] + 21 * s[7] + 8 * s[8] + 7 * s[9] + 23 * s[10] + 8 * s[11],
        mds_row_sum(s, 10, 12) == 8 * s[0] + 26 * s[1] + 13 * s[2] + 10 * s[3] + 9 * s[4] + 7 * s[5] + 6 * s[6] + 22 * s[7] + 21 * s[8] + 8 * s[9] + 7 * s[10] + 23 * s[11],
        mds_row_sum(s, 11, 12) == 23 * s[0] + 8 * s[1] + 26 * s[2] + 13 * s[3] + 10 * s[4] + 9 * s[5] + 7 * s[6] + 6 * s[7] + 22 * s[8] + 21 * s[9] + 8 * s[10] + 7 * s[11],
{
    reveal_with_fuel(mds_row_sum, 13);
}

/// Multiplies a vector of 32-bit limbs by the circulant MDS matrix over the integers,
/// through a three-block real FFT.
#[verifier::rlimit(100)]
#[verifier::spinoff_prover]
pub fn mds_multiply_freq(state: [u64; 12]) -> (r: [u64; 12])
    requires
        forall|i: int| 0 <= i < 12 ==> #[trigger] state[i] < 0x1_0000_0000,
    ensures
        forall|i: int| 0 <= i < 12 ==> #[trigger] r[i] as int == mds_row_sum(ints12(state), i, 12),
{
    let s0 = state[0];
    let s1 = state[1];
    let s2 = state[2];
    let s3 = state[3];
    let s4 = state[4];
    let s5 = state[5];
    let s6 = state[6];
    let s7 = state[7];
    let s8 = state[8];
    let s9 = state[9];
    let s10 = state[10];
    let s11 = state[11];
    proof {
        assert(s0 < 0x1_0000_0000 && s1 < 0x1_0000_0000 && s2 < 0x1_0000_0000 && s3 < 0x1_0000_0000);
        assert(s4 < 0x1_0000_0000 && s5 < 0x1_0000_0000 && s6 < 0x1_0000_0000 && s7 < 0x1_0000_0000);
        assert(s8 < 0x1_0000_0000 && s9 < 0x1_0000_0000 && s10 < 0x1_0000_0000 && s11 < 0x1_0000_0000);
    }

    let (u0, u1, u2) = fft4_real([s0, s3, s6, s9]);
    let (u4, u5, u6) = fft4_real([s1, s4, s7, s10]);
    let (u8, u9, u10) = fft4_real([s2, s5, s8, s11]);

    let yb1 = MDS_FREQ_BLOCK_ONE;
    let yb2 = MDS_FREQ_BLOCK_TWO;
    let yb3 = MDS_FREQ_BLOCK_THREE;
    proof {
        assert(yb1[0] == 16 && yb1[1] == 8 && yb1[2] == 16);
        assert(yb2[0].0 == -1 && yb2[0].1 == 2 && yb2[1].0 == -1 && yb2[1].1 == 1 && yb2[2].0 == 4 && yb2[2].1 == 8);
        assert(yb3[0] == -8 && yb3[1] == 1 && yb3[2] == 1);
    }

    let t1 = block1([u0, u4, u8], yb1);
    let v0 = t1[0];
    let v4 = t1[1];
    let v8 = t1[2];
    let t2 = block2([u1, u5, u9], yb2);
    let v1 = t2[0];
    let v5 = t2[1];
    let v9 = t2[2];
    let t3 = block3([u2, u6, u10], yb3);
    let v2 = t3[0];
    let v6 = t3[1];
    let v10 = t3[2];

    proof {
        assert(v0 == u0 * 16 + u4 * 16 + u8 * 8);
        assert(v4 == u0 * 8 + u4 * 16 + u8 * 16);
        assert(v8 == u0 * 16 + u4 * 8 + u8 * 16);
        assert(v2 == u2 * -8 - u6 * 1 - u10 * 1);
        assert(v6 == u2 * 1 + u6 * -8 - u10 * 1);
        assert(v10 == u2 * 1 + u6 * 1 + u10 * -8);
        assert(v1.0 == u1.0 * -1 - u1.1 * 2 + u5.0 * 8 + u5.1 * 4 + u9.0 * 1 + u9.1 * -1);
        assert(v1.1 == u1.0 * 2 + u1.1 * -1 - u5.0 * 4 + u5.1 * 8 - u9.0 * -1 + u9.1 * 1);
        assert(v5.0 == u1.0 * -1 - u1.1 * 1 + u5.0 * -1 - u5.1 * 2 + u9.0 * 8 + u9.1 * 4);
        assert(v5.1 == u1.0 * 1 + u1.1 * -1 + u5.0 * 2 + u5.1 * -1 - u9.0 * 4 + u9.1 * 8);
        assert(v9.0 == u1.0 * 4 - u1.1 * 8 + u5.0 * -1 - u5.1 * 1 + u9.0 * -1 - u9.1 * 2);
        assert(v9.1 == u1.0 * 8 + u1.1 * 4 + u5.0 * 1 + u5.1 * -1 + u9.0 * 2 + u9.1 * -1);
    }

    let ghost sq = ints12(state);
    let ghost us = seq![u0 as int, u1.0 as int, u1.1 as int, u2 as int, u4 as int, u5.0 as int, u5.1 as int, u6 as int, u8 as int, u9.0 as int, u9.1 as int, u10 as int];
    let ghost vs = seq![v0 as int, v1.0 as int, v1.1 as int, v2 as int, v4 as int, v5.0 as int, v5.1 as int, v6 as int, v8 as int, v9.0 as int, v9.1 as int, v10 as int];
    proof {
        assert(sq[0] == s0 && sq[1] == s1 && sq[2] == s2 && sq[3] == s3 && sq[4] == s4 && sq[5] == s5);
        assert(sq[6] == s6 && sq[7] == s7 && sq[8] == s8 && sq[9] == s9 && sq[10] == s10 && sq[11] == s11);
        assert forall|i: int| 0 <= i < 12 implies 0 <= #[trigger] sq[i] < 0x1_0000_0000 by {}
        lemma_freq_identity(sq, us, vs);
        lemma_row_sums(sq);
    }
    let t4 = ifft4_real((v0, v1, v2));
    let t5 = ifft4_real((v4, v5, v6));
    let t6 = ifft4_real((v8, v9, v10));
    let r = [t4[0], t5[0], t6[0], t4[1], t5[1], t6[1], t4[2], t5[2], t6[2], t4[3], t5[3], t6[3]];
    proof {
        assert(r[0] as int == mds_row_sum(sq, 0, 12));
        assert(r[1] as int == mds_row_sum(sq, 1, 12));
        assert(r[2] as int == mds_row_sum(sq, 2, 12));
        assert(r[3] as int == mds_row_sum(sq, 3, 12));
        assert(r[4] as int == mds_row_sum(sq, 4, 12));
        assert(r[5] as int == mds_row_sum(sq, 5, 12));
        assert(r[6] as int == mds_row_sum(sq, 6, 12));
        assert(r[7] as int == mds_row_sum(sq, 7, 12));
        assert(r[8] as int == mds_row_sum(sq, 8, 12));
        assert(r[9] as int == mds_row_sum(sq, 9, 12));
        assert(r[10] as int == mds_row_sum(sq, 10, 12));
        assert(r[11] as int == mds_row_sum(sq, 11, 12));
    }
    r
}

/// Row sums are linear: `row(a + k * b) == row(a) + k * row(b)`.
proof fn lemma_row_sum_linear(a: Seq<int>, b: Seq<int>, c: Seq<int>, k: int, i: int, n: nat)
    requires
        n <= a.len(),
        n <= b.len(),
        n <= c.len(),
        forall|j: int| 0 <= j < n ==> #[trigger] c[j] == a[j] + k * b[j],
    ensures
        mds_row_sum(c, i, n) == mds_row_sum(a, i, n) + k * mds_row_sum(b, i, n),
    decreases n,
{
    if n > 0 {
        lemma_row_sum_linear(a, b, c, k, i, (n - 1) as nat);
        let co = mds_coef(i, n - 1);
        let x = a[n - 1];
        let y = b[n - 1];
        let ra = mds_row_sum(a, i, (n - 1) as nat);
        let rb = mds_row_sum(b, i, (n - 1) as nat);
        assert(co * (x + k * y) + (ra + k * rb) == (ra + co * x) + k * (rb + co * y)) by (nonlinear_arith);
    }
}

/// Row sums respect congruence modulo `p`.
proof fn lemma_row_sum_congruent(a: Seq<int>, b: Seq<int>, i: int, n: nat)
    requires
        n <= a.len(),
        n <= b.len(),
        forall|j: int| 0 <= j < n ==> #[trigger] a[j] % (modulus() as int) == b[j] % (modulus() as int),
    ensures
        mds_row_sum(a, i, n) % (modulus() as int) == mds_row_sum(b, i, n) % (modulus() as int),
    decreases n,
{
    let p = modulus() as int;
    if n > 0 {
        lemma_row_sum_congruent(a, b, i, (n - 1) as nat);
        let co = mds_coef(i, n - 1);
        let ra = mds_row_sum(a, i, (n - 1) as nat);
        let rb = mds_row_sum(b, i, (n - 1) as nat);
        vstd::arithmetic::div_mod::lemma_mul_mod_noop_right(co, a[n - 1], p);
        vstd::arithmetic::div_mod::lemma_mul_mod_noop_right(co, b[n - 1], p);
        vstd::arithmetic::div_mod::lemma_add_mod_noop(ra, co * a[n - 1], p);
        vstd::arithmetic::div_mod::lemma_add_mod_noop(rb, co * b[n - 1], p);
    }
}

/// Row sums commute with scaling: `row(k * a) == k * row(a)`.
proof fn lemma_row_sum_scale(a: Seq<int>, c: Seq<int>, k: int, i: int, n: nat)
    requires
        n <= a.len(),
        n <= c.len(),
        forall|j: int| 0 <= j < n ==> #[trigger] c[j] == a[j] * k,
    ensures
        mds_row_sum(c, i, n) == mds_row_sum(a, i, n) * k,
    decreases n,
{
    if n > 0 {
        lemma_row_sum_scale(a, c, k, i, (n - 1) as nat);
        let co = mds_coef(i, n - 1);
        let ra = mds_row_sum(a, i, (n - 1) as nat);
        assert(ra * k + co * (a[n - 1] * k) == (ra + co * a[n - 1]) * k) by (nonlinear_arith);
    }
}

/// Row sums of vectors with entries in `[0, b)` lie in `[0, 160 b)`: every row
/// of the matrix sums to 160.
proof fn lemma_row_sum_bound160(a: Seq<int>, i: int, b: int)
    requires
        a.len() == 12,
        0 <= i < 12,
        forall|j: int| 0 <= j < 12 ==> 0 <= #[trigger] a[j] < b,
    ensures
        0 <= mds_row_sum(a, i, 12) < 160 * b,
{
    lemma_row_sums(a);
    assert(0 <= a[0] < b && 0 <= a[1] < b && 0 <= a[2] < b && 0 <= a[3] < b);
    assert(0 <= a[4] < b && 0 <= a[5] < b && 0 <= a[6] < b && 0 <= a[7] < b);
    assert(0 <= a[8] < b && 0 <= a[9] < b && 0 <= a[10] < b && 0 <= a[11] < b);
    if i == 0 {
    } else if i == 1 {
    } else if i == 2 {
    } else if i == 3 {
    } else if i == 4 {
    } else if i == 5 {
    } else if i == 6 {
    } else if i == 7 {
    } else if i == 8 {
    } else if i == 9 {
    } else if i == 10 {
    } else {
        assert(i == 11);
    }
}

/// The reduction `s mod p` performed on the 128-bit accumulator of the MDS layer.
fn reduce_accumulator(s: u128) -> (r: u64)
    requires
        s < 0x100_0000_0000_0000_0000,
    ensures
        r as int % (modulus() as int) == s as int % (modulus() as int),
{
    let s_hi = (s >> 64) as u64;
    let s_lo = s as u64;
    proof {
        assert(s == (s >> 64) * 0x1_0000_0000_0000_0000 + (s as u64)) by (bit_vector);
        assert((s >> 64) < 0x100) by (bit_vector)
            requires
                s < 0x100_0000_0000_0000_0000,
        ;
    }
    let hi_shift = s_hi << 32;
    proof {
        assert(s_hi << 32 == s_hi * 0x1_0000_0000) by (bit_vector)
            requires
                s_hi < 0x100,
        ;
    }
    let z = hi_shift - s_hi;
    let (res, over) = add_with_carry(s_lo, z);
    let adj = 0u32.wrapping_sub(over as u32);
    proof {
        assert(over ==> adj == 0xffff_ffffu32) by (bit_vector)
            requires
                adj == 0u32.wrapping_sub(over as u32),
        ;
        assert(!over ==> adj == 0u32) by (bit_vector)
            requires
                adj == 0u32.wrapping_sub(over as u32),
        ;
    }
    let r = res.wrapping_add(adj as u64);
    proof {
        let p = modulus() as int;
        let sh = s_hi as int;
        if over {
            assert(r as int == s_lo + z - 0x1_0000_0000_0000_0000 + 0xffff_ffff);
            assert(r as int == (s as int) + (-sh - 1) * p);
            vstd::arithmetic::div_mod::lemma_mod_multiples_vanish(-sh - 1, s as int, p);
        } else {
            assert(r as int == (s as int) + (-sh) * p);
            vstd::arithmetic::div_mod::lemma_mod_multiples_vanish(-sh, s as int, p);
        }
    }
    r
}

/// Applies the MDS layer: every element becomes its row of the circulant matrix
/// times the state. The products are formed on the Montgomery representatives,
/// split into 32-bit halves, and reduced back into the field.
pub fn apply_mds(state: &mut [Felt; STATE_WIDTH])
    ensures
        state_seq(*final(state)) == mds_spec(state_seq(*old(state))),
{
    let ghost x = state_seq(*state);
    let mut result = [Felt::zero(); STATE_WIDTH];
    let mut state_l = [0u64; STATE_WIDTH];
    let mut state_h = [0u64; STATE_WIDTH];
    let mut k: usize = 0;
    while k < STATE_WIDTH
        invariant
            0 <= k <= STATE_WIDTH,
            x == state_seq(*state),
            forall|j: int| 0 <= j < k ==> #[trigger] state_l[j] < 0x1_0000_0000,
            forall|j: int| 0 <= j < k ==> #[trigger] state_h[j] < 0x1_0000_0000,
            forall|j: int| 0 <= j < k ==> (#[trigger] state_h[j]) * 0x1_0000_0000 + state_l[j] == mont_spec(x[j]),
        decreases STATE_WIDTH - k,
    {
        let s = state[k].inner();
        state_h[k] = s >> 32;
        state_l[k] = (s as u32) as u64;
        proof {
            assert((s >> 32) * 0x1_0000_0000 + ((s as u32) as u64) == s) by (bit_vector);
            assert((s >> 32) < 0x1_0000_0000 && ((s as u32) as u64) < 0x1_0000_0000) by (bit_vector);
        }
        k = k + 1;
    }
    let ghost lq = ints12(state_l);
    let ghost hq = ints12(state_h);
    let ml = mds_multiply_freq(state_l);
    let mh = mds_multiply_freq(state_h);
    let ghost vq = Seq::new(12, |j: int| x[j] as int);
    let ghost mq = Seq::new(12, |j: int| mont_spec(x[j]) as int);
    let ghost wq = Seq::new(12, |j: int| (x[j] as int) * (MONT_R as int));
    proof {
        assert forall|i: int| 0 <= i < 12 implies #[trigger] ml[i] as int + (mh[i] as int) * 0x1_0000_0000 == mds_row_sum(mq, i, 12) by {
            lemma_row_sum_linear(lq, hq, mq, 0x1_0000_0000, i, 12);
        }
        assert forall|i: int| 0 <= i < 12 implies mds_row_sum(mq, i, 12) % (modulus() as int)
            == (#[trigger] mds_row_sum(vq, i, 12)) * (MONT_R as int) % (modulus() as int) by {
            lemma_row_sum_congruent(mq, wq, i, 12);
            lemma_row_sum_scale(vq, wq, MONT_R as int, i, 12);
        }
        assert forall|i: int| 0 <= i < 12 implies #[trigger] ml[i] < 0xa0_0000_0000 && mh[i] < 0xa0_0000_0000 by {
            lemma_row_sum_bound160(lq, i, 0x1_0000_0000);
            lemma_row_sum_bound160(hq, i, 0x1_0000_0000);
        }
    }
    let mut r: usize = 0;
    while r < STATE_WIDTH
        invariant
            0 <= r <= STATE_WIDTH,
            x.len() == 12,
            vq == Seq::new(12, |j: int| x[j] as int),
            forall|i: int| 0 <= i < 12 ==> #[trigger] ml[i] < 0xa0_0000_0000 && mh[i] < 0xa0_0000_0000,
            forall|i: int| 0 <= i < 12 ==> (#[trigger] ml[i]) as int + (mh[i] as int) * 0x1_0000_0000 == mds_row_sum(mq, i, 12),
            forall|i: int| 0 <= i < 12 ==> mds_row_sum(mq, i, 12) % (modulus() as int)
                == (#[trigger] mds_row_sum(vq, i, 12)) * (MONT_R as int) % (modulus() as int),
            forall|i: int| 0 <= i < r ==> #[trigger] result[i]@ as int == mds_row_sum(vq, i, 12) % (modulus() as int),
        decreases STATE_WIDTH - r,
    {
        let lo = ml[r] as u128;
        let hi = mh[r] as u128;
        let sh = hi << 32;
        proof {
            assert(hi << 32 == hi * 0x1_0000_0000) by (bit_vector)
                requires
                    hi < 0xa0_0000_0000,
            ;
        }
        let s = lo + sh;
        let fin = reduce_accumulator(s);
        let e = Felt::from_mont(fin);
        e.bound();
        proof {
            let p = modulus() as int;
            vstd::arithmetic::div_mod::lemma_mod_twice(fin as int, p);
            crate::felt::lemma_mont_cancel(e@, mds_row_sum(vq, r as int, 12));
        }
        result[r] = e;
        r = r + 1;
    }
    proof {
        assert(state_seq(result) =~= mds_spec(x));
    }
    *state = result;
}

} // verus!
