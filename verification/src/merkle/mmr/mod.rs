//! Merkle mountain ranges: an append-only list of leaves kept as a forest of
//! perfect binary trees, one per set bit of the number of leaves.

use vstd::prelude::*;
use vstd::arithmetic::power2::pow2;
use crate::merkle::MerkleError;

pub mod in_order;
pub mod peaks;
pub mod opening;
pub mod full;
pub mod partial;
pub mod delta;
pub mod layout;
pub mod bit;
pub mod sync;

verus! {

/// Number of set bits.
pub open spec fn popcount(n: nat) -> nat
    decreases n,
{
    if n == 0 { 0 } else { n % 2 + popcount(n / 2) }
}

/// Number of trailing zero bits of a positive integer.
pub open spec fn tz(n: nat) -> nat
    decreases n,
{
    if n == 0 || n % 2 == 1 { 0 } else { 1 + tz(n / 2) }
}

/// Position of the highest set bit of a positive integer.
pub open spec fn ilog2(n: nat) -> nat
    decreases n,
{
    if n <= 1 { 0 } else { 1 + ilog2(n / 2) }
}

/// Number of nodes of a forest with `forest` leaves: each tree of `2^k` leaves
/// has `2^(k + 1) - 1` nodes.
pub open spec fn nodes_in_forest_spec(forest: nat) -> nat {
    (2 * forest - popcount(forest)) as nat
}

/// Errors raised by the mountain ranges.
#[derive(Debug, Clone, PartialEq, Eq)]
pub enum MmrError {
    /// A Merkle path did not verify.
    InvalidMerklePath(MerkleError),
    /// The peaks do not match the number of leaves.
    InvalidPeaks(String),
    /// An update does not fit the range.
    InvalidUpdate,
    /// A root could not be computed from a path.
    MerkleRootComputationFailed(MerkleError),
    /// A peak index is beyond the peaks.
    PeakOutOfBounds { peak_idx: usize, peaks_len: usize },
    /// A path leads to a different peak.
    PeakPathMismatch,
    /// The position is beyond the leaves.
    PositionNotFound(usize),
    /// No tree of the given depth exists.
    UnknownPeak(u8),
}

/// The number of set bits of `n`.
pub fn count_ones(n: usize) -> (r: u32)
    ensures
        r == popcount(n as nat),
{
    let mut x = n;
    let mut c: u32 = 0;
    proof {
        lemma_popcount_bound(n as nat);
    }
    while x > 0
        invariant
            c + popcount(x as nat) == popcount(n as nat),
            c <= 64 - 0,
            c as nat + popcount(x as nat) <= 128,
        decreases x,
    {
        proof {
            lemma_popcount_bound(n as nat);
        }
        c = c + (x % 2) as u32;
        x = x / 2;
    }
    c
}

/// `popcount(n) <= log2(n) + 1`, in particular below 128 for machine words.
proof fn lemma_popcount_bound(n: nat)
    requires
        n < 0x1_0000_0000_0000_0000,
    ensures
        popcount(n) <= 64,
{
    vstd::arithmetic::power2::lemma2_to64_rest();
    lemma_popcount_le_bits(n, 64);
}

/// The set bits of `n` are those below bit `k` and those of `n / 2^k`.
pub proof fn lemma_popcount_split(n: nat, k: nat)
    ensures
        popcount(n) == popcount(n % pow2(k)) + popcount(n / pow2(k)),
    decreases k,
{
    vstd::arithmetic::power2::lemma2_to64();
    if k == 0 {
        vstd::arithmetic::div_mod::lemma_div_basics(n as int);
    } else {
        let k1 = (k - 1) as nat;
        lemma_popcount_split(n / 2, k1);
        vstd::arithmetic::power2::lemma_pow2_unfold(k);
        vstd::arithmetic::power2::lemma_pow2_pos(k1);
        let m = pow2(k1);
        let q = n / 2;
        let b = n % 2;
        vstd::arithmetic::div_mod::lemma_div_denominator(n as int, 2, m as int);
        vstd::arithmetic::div_mod::lemma_fundamental_div_mod(q as int, m as int);
        vstd::arithmetic::div_mod::lemma_mod_pos_bound(q as int, m as int);
        let s = q % m;
        let t = q / m;
        assert(n == (2 * m) * t + (2 * s + b)) by (nonlinear_arith)
            requires
                n == 2 * q + b,
                q == m * t + s,
        ;
        vstd::arithmetic::div_mod::lemma_fundamental_div_mod_converse(n as int, (2 * m) as int, t as int, (2 * s + b) as int);
        assert(n % pow2(k) == 2 * s + b);
        assert((2 * s + b) / 2 == s && (2 * s + b) % 2 == b);
    }
}

/// A positive number has a set bit.
pub proof fn lemma_popcount_pos(n: nat)
    requires
        n > 0,
    ensures
        popcount(n) >= 1,
    decreases n,
{
    if n % 2 == 0 {
        lemma_popcount_pos(n / 2);
    }
}

/// A machine word has at most 64 set bits.
pub proof fn lemma_popcount_bound_pub(n: nat)
    requires
        n < 0x1_0000_0000_0000_0000,
    ensures
        popcount(n) <= 64,
{
    lemma_popcount_bound(n);
}

/// A number below `2^b` has at most `b` set bits.
proof fn lemma_popcount_le_bits(n: nat, b: nat)
    requires
        n < pow2(b),
    ensures
        popcount(n) <= b,
    decreases b,
{
    if b == 0 {
        vstd::arithmetic::power2::lemma2_to64();
    } else {
        vstd::arithmetic::power2::lemma_pow2_unfold(b);
        if n > 0 {
            lemma_popcount_le_bits(n / 2, (b - 1) as nat);
        }
    }
}

/// The number of trailing zero bits of a positive `n`.
pub fn trailing_zeros(n: usize) -> (r: u32)
    requires
        n > 0,
    ensures
        r == tz(n as nat),
        r < 64,
{
    let mut x = n;
    let mut c: u32 = 0;
    proof {
        lemma_ilog2_bound(n as nat);
    }
    while x % 2 == 0
        invariant
            x > 0,
            c + tz(x as nat) == tz(n as nat),
            c as nat + ilog2(x as nat) <= ilog2(n as nat),
            ilog2(n as nat) < 64,
        decreases x,
    {
        proof {
            assert(ilog2(x as nat) == 1 + ilog2((x / 2) as nat));
        }
        c = c + 1;
        x = x / 2;
    }
    c
}

/// The position of the highest set bit of a positive `n`.
pub fn ilog2_exec(n: u64) -> (r: u32)
    requires
        n > 0,
    ensures
        r == ilog2(n as nat),
        pow2(r as nat) <= n,
        r < 64,
{
    let mut x = n;
    let mut c: u32 = 0;
    proof {
        lemma_ilog2_bound(n as nat);
        vstd::arithmetic::power2::lemma2_to64();
    }
    while x > 1
        invariant
            x > 0,
            c + ilog2(x as nat) == ilog2(n as nat),
            ilog2(n as nat) < 64,
            pow2(c as nat) * x <= n,
        decreases x,
    {
        proof {
            vstd::arithmetic::power2::lemma_pow2_unfold((c + 1) as nat);
            assert(pow2((c + 1) as nat) * (x / 2) <= pow2(c as nat) * x) by (nonlinear_arith)
                requires
                    pow2((c + 1) as nat) == 2 * pow2(c as nat),
            ;
        }
        c = c + 1;
        x = x / 2;
    }
    proof {
        vstd::arithmetic::power2::lemma_pow2_pos(c as nat);
    }
    c
}

/// The highest set bit of a machine word is below 64.
proof fn lemma_ilog2_bound(n: nat)
    requires
        0 < n < 0x1_0000_0000_0000_0000,
    ensures
        ilog2(n) < 64,
{
    vstd::arithmetic::power2::lemma2_to64_rest();
    lemma_ilog2_lt(n, 64);
}

/// A number below `2^b` has its highest bit below `b`.
proof fn lemma_ilog2_lt(n: nat, b: nat)
    requires
        0 < n < pow2(b),
    ensures
        ilog2(n) < b,
    decreases b,
{
    vstd::arithmetic::power2::lemma2_to64();
    if n > 1 {
        vstd::arithmetic::power2::lemma_pow2_unfold(b);
        lemma_ilog2_lt(n / 2, (b - 1) as nat);
    }
}

/// The number of nodes of a forest with `forest` leaves.
pub fn nodes_in_forest(forest: usize) -> (r: usize)
    requires
        forest <= usize::MAX / 2,
    ensures
        r == nodes_in_forest_spec(forest as nat),
{
    let c = count_ones(forest);
    proof {
        lemma_popcount_le(forest as nat);
    }
    forest * 2 - c as usize
}

/// A number has at most as many set bits as its value.
proof fn lemma_popcount_le(n: nat)
    ensures
        popcount(n) <= n,
    decreases n,
{
    if n > 0 {
        lemma_popcount_le(n / 2);
    }
}

/// The tree of the forest that holds leaf `pos`: trees are numbered by the bit
/// of `forest` they stand for; `None` when `pos` is beyond the leaves.
pub fn leaf_to_corresponding_tree(pos: usize, forest: usize) -> (r: Option<u32>)
    ensures
        pos >= forest ==> r is None,
        pos < forest ==> r is Some && r->0 as nat == ilog2((forest as u64 ^ (forest as u64 & pos as u64)) as nat),
        pos < forest ==> pow2(ilog2((forest as u64 ^ (forest as u64 & pos as u64)) as nat)) <= forest,
        r matches Some(t) ==> t < 64,
{
    if pos >= forest {
        None
    } else {
        let f = forest as u64;
        let p = pos as u64;
        let before = f & p;
        let after = f ^ before;
        assert(p < f ==> (f ^ (f & p)) != 0 && (f ^ (f & p)) <= f) by (bit_vector);
        Some(ilog2_exec(after))
    }
}

} // verus!
