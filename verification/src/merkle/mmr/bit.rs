//! Walking the set bits of a number, from either end.

use vstd::prelude::*;
use vstd::arithmetic::power2::pow2;
use crate::merkle::mmr::{tz, ilog2, trailing_zeros, ilog2_exec};
use crate::merkle::mmr::in_order::pow2_usize;

verus! {

/// The set bits of a number not yet visited.
pub struct TrueBitPositionIterator {
    value: usize,
}

impl TrueBitPositionIterator {
    /// The bits not yet visited.
    pub closed spec fn value_spec(&self) -> nat {
        self.value as nat
    }

    /// The set bits of `value`.
    pub fn new(value: usize) -> (r: Self)
        ensures
            r.value_spec() == value,
    {
        TrueBitPositionIterator { value }
    }

    /// The lowest bit not yet visited, which is then cleared.
    pub fn next(&mut self) -> (r: Option<u32>)
        ensures
            old(self).value_spec() == 0 ==> r is None && final(self).value_spec() == 0,
            old(self).value_spec() > 0 ==> r == Some(tz(old(self).value_spec()) as u32)
                && final(self).value_spec() == old(self).value_spec() - pow2(tz(old(self).value_spec())),
    {
        if self.value == 0 {
            return None;
        }
        let bit = trailing_zeros(self.value);
        let mask = pow2_usize_of_set_bit(self.value, bit);
        let before = self.value;
        self.value = self.value ^ mask;
        proof {
            lemma_clear_set_bit(before as u64, bit as nat);
            assert((before ^ mask) as u64 == (before as u64) ^ (mask as u64));
        }
        Some(bit)
    }

    /// The highest bit not yet visited, which is then cleared.
    pub fn next_back(&mut self) -> (r: Option<u32>)
        ensures
            old(self).value_spec() == 0 ==> r is None && final(self).value_spec() == 0,
            old(self).value_spec() > 0 ==> r == Some(ilog2(old(self).value_spec()) as u32)
                && final(self).value_spec() == old(self).value_spec() - pow2(ilog2(old(self).value_spec())),
    {
        if self.value == 0 {
            return None;
        }
        let bit = ilog2_exec(self.value as u64);
        let mask = pow2_usize(bit);
        let before = self.value;
        self.value = self.value ^ mask;
        proof {
            crate::merkle::mmr::layout::lemma_clear_high_bit(before as u64);
            assert((before ^ mask) as u64 == (before as u64) ^ (mask as u64));
        }
        Some(bit)
    }
}

/// `2^bit` for a bit set in `value`.
fn pow2_usize_of_set_bit(value: usize, bit: u32) -> (r: usize)
    requires
        value > 0,
        bit == tz(value as nat),
    ensures
        r == pow2(bit as nat),
{
    proof {
        crate::merkle::mmr::in_order::lemma_tz_split(value as nat);
        let m = (value as nat) / pow2(bit as nat);
        vstd::arithmetic::power2::lemma_pow2_pos(bit as nat);
        assert(pow2(bit as nat) <= value) by (nonlinear_arith)
            requires
                value == m * pow2(bit as nat),
                m % 2 == 1,
                pow2(bit as nat) > 0,
        ;
    }
    pow2_usize(bit)
}

/// Clearing a set bit subtracts its power of two.
proof fn lemma_clear_set_bit(x: u64, t: nat)
    requires
        x > 0,
        t == tz(x as nat),
    ensures
        (x ^ (pow2(t) as u64)) == x - pow2(t),
        pow2(t) <= x,
{
    crate::merkle::mmr::in_order::lemma_tz_split(x as nat);
    let m = (x as nat) / pow2(t);
    vstd::arithmetic::power2::lemma_pow2_pos(t);
    assert(pow2(t) <= x) by (nonlinear_arith)
        requires
            x == m * pow2(t),
            m % 2 == 1,
            pow2(t) > 0,
    ;
    vstd::arithmetic::power2::lemma2_to64_rest();
    if t >= 64 {
        if t > 64 {
            vstd::arithmetic::power2::lemma_pow2_strictly_increases(64, t);
        }
        assert(false);
    }
    let tu = t as u64;
    vstd::bits::lemma_u64_shr_is_div(x, tu);
    vstd::bits::lemma_u64_shl_is_mul(1, tu);
    assert(x ^ (1u64 << tu) == x - (1u64 << tu)) by (bit_vector)
        requires
            (x >> tu) % 2 == 1,
            tu < 64,
    ;
}

} // verus!
