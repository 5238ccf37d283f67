//! The sponge construction shared by the RPO and RPX hashes, stated over an
//! arbitrary permutation of the twelve-element state, and the encoding of
//! byte strings into field elements that both hashes absorb.

use vstd::prelude::*;
use crate::felt::{Felt, modulus};
use crate::utils::bytes::{le_value, pow256, lemma_le_value_bound, lemma_pow256_monotone, lemma_pow256_8};

verus! {

/// Field values of a sequence of elements.
pub open spec fn felts_seq(v: Seq<Felt>) -> Seq<nat> {
    Seq::new(v.len(), |i: int| v[i]@)
}

/// The state with its rate (positions 4 to 11) replaced by the eight values of `block`.
pub open spec fn overwrite_rate(state: Seq<nat>, block: Seq<nat>) -> Seq<nat> {
    Seq::new(12, |j: int| if 4 <= j < 12 { block[j - 4] } else { state[j] })
}

/// A partial block completed with zeros to eight values.
pub open spec fn pad_block(tail: Seq<nat>) -> Seq<nat> {
    Seq::new(8, |j: int| if j < tail.len() { tail[j] } else { 0 })
}

/// The state after absorbing the first `n` full blocks of eight elements.
pub open spec fn absorb_blocks(perm: spec_fn(Seq<nat>) -> Seq<nat>, state: Seq<nat>, elems: Seq<nat>, n: nat) -> Seq<nat>
    decreases n,
{
    if n == 0 {
        state
    } else {
        perm(overwrite_rate(absorb_blocks(perm, state, elems, (n - 1) as nat), elems.subrange(8 * (n - 1), 8 * (n as int))))
    }
}

/// The state after absorbing all of `elems`: every full block, then the
/// remaining elements padded with zeros, each followed by the permutation.
pub open spec fn sponge_absorb(perm: spec_fn(Seq<nat>) -> Seq<nat>, state: Seq<nat>, elems: Seq<nat>) -> Seq<nat> {
    let n = elems.len() / 8;
    let s = absorb_blocks(perm, state, elems, n);
    if elems.len() % 8 == 0 {
        s
    } else {
        perm(overwrite_rate(s, pad_block(elems.subrange(8 * (n as int), elems.len() as int))))
    }
}

/// The initial state: `c` in the first capacity element, zero elsewhere.
pub open spec fn capacity_state(c: nat) -> Seq<nat> {
    Seq::new(12, |j: int| if j == 0 { c } else { 0 })
}

/// The digest part of a state (positions 4 to 7).
pub open spec fn digest_part(s: Seq<nat>) -> Seq<nat> {
    s.subrange(4, 8)
}

/// Sponge hash of field elements: the capacity records the length modulo eight.
pub open spec fn hash_elements_spec(perm: spec_fn(Seq<nat>) -> Seq<nat>, elems: Seq<nat>) -> Seq<nat> {
    digest_part(sponge_absorb(perm, capacity_state(elems.len() % 8), elems))
}

/// Number of field elements a byte string is split into: one per seven bytes.
pub open spec fn num_byte_chunks(len: nat) -> nat {
    (len + 6) / 7
}

/// The `k`-th field element of a byte string: seven little-endian bytes; the
/// last chunk is followed by a one byte marking its end.
pub open spec fn byte_chunk_value(bytes: Seq<u8>, k: int) -> nat {
    let start = 7 * k;
    let end = if start + 7 <= bytes.len() { start + 7 } else { bytes.len() as int };
    let chunk = bytes.subrange(start, end);
    if k == num_byte_chunks(bytes.len()) - 1 {
        le_value(chunk) + pow256(chunk.len())
    } else {
        le_value(chunk)
    }
}

/// The field elements a byte string is absorbed as.
pub open spec fn bytes_to_elements_spec(bytes: Seq<u8>) -> Seq<nat> {
    Seq::new(num_byte_chunks(bytes.len()), |k: int| byte_chunk_value(bytes, k))
}

/// Sponge hash of a byte string: the capacity holds eight plus the number of
/// elements modulo eight.
pub open spec fn hash_bytes_spec(perm: spec_fn(Seq<nat>) -> Seq<nat>, bytes: Seq<u8>) -> Seq<nat> {
    let elems = bytes_to_elements_spec(bytes);
    digest_part(sponge_absorb(perm, capacity_state(8 + elems.len() % 8), elems))
}

/// The state that merges two digests: `a` then `b` in the rate, `domain` in the
/// second capacity element.
pub open spec fn merge_state(a: Seq<nat>, b: Seq<nat>, domain: nat) -> Seq<nat> {
    Seq::new(12, |j: int|
        if j == 1 { domain }
        else if 4 <= j < 8 { a[j - 4] }
        else if 8 <= j < 12 { b[j - 8] }
        else { 0 })
}

/// The digest of two digests.
pub open spec fn merge_spec(perm: spec_fn(Seq<nat>) -> Seq<nat>, a: Seq<nat>, b: Seq<nat>) -> Seq<nat> {
    digest_part(perm(merge_state(a, b, 0)))
}

/// The state that merges a digest with a 64-bit integer: the integer is split
/// into its residue and quotient modulo `p`, and the capacity records whether a
/// quotient is present.
pub open spec fn merge_with_int_state(seed: Seq<nat>, value: nat) -> Seq<nat> {
    Seq::new(12, |j: int|
        if j == 0 { if value < modulus() { 5 } else { 6 } }
        else if 4 <= j < 8 { seed[j - 4] }
        else if j == 8 { value % modulus() }
        else if j == 9 { if value < modulus() { 0 } else { value / modulus() } }
        else { 0 })
}

/// Splits a byte string into the field elements it is absorbed as.
pub fn bytes_to_elements(bytes: &[u8]) -> (r: Vec<Felt>)
    ensures
        felts_seq(r@) == bytes_to_elements_spec(bytes@),
{
    let n: usize = bytes.len() / 7 + if bytes.len() % 7 == 0 { 0 } else { 1 };
    assert(n == num_byte_chunks(bytes@.len()));
    let mut r: Vec<Felt> = Vec::new();
    let mut k: usize = 0;
    let len = bytes.len();
    while k < n
        invariant
            0 <= k <= n,
            len == bytes@.len(),
            n == num_byte_chunks(bytes@.len()),
            r@.len() == k,
            forall|j: int| 0 <= j < k ==> #[trigger] r@[j]@ == byte_chunk_value(bytes@, j),
        decreases n - k,
    {
        assert(7 * k < bytes@.len()) by (nonlinear_arith)
            requires
                k < n,
                n == (bytes@.len() + 6) / 7,
        ;
        let start = 7 * k;
        let end = if bytes.len() - start >= 7 { start + 7 } else { bytes.len() };
        let mut v: u64 = 0;
        let mut i: usize = end;
        let ghost chunk = bytes@.subrange(start as int, end as int);
        proof {
            lemma_pow256_8();
            lemma_le_value_bound(chunk);
            lemma_pow256_monotone(chunk.len(), 7);
            reveal_with_fuel(pow256, 8);
        }
        while i > start
            invariant
                start <= i <= end,
                end <= bytes@.len(),
                end - start <= 7,
                chunk == bytes@.subrange(start as int, end as int),
                pow256(7) == 0x1_0000_0000_0000_00,
                v as nat == le_value(bytes@.subrange(i as int, end as int)),
            decreases i - start,
        {
            let ghost tail = bytes@.subrange(i as int, end as int);
            let ghost s = bytes@.subrange(i - 1, end as int);
            proof {
                assert(s.drop_first() =~= tail);
                lemma_le_value_bound(s);
                lemma_pow256_monotone(s.len(), 7);
                assert(le_value(s) == s[0] as nat + 256 * le_value(s.drop_first()));
            }
            let byte = bytes[i - 1];
            v = v * 256 + byte as u64;
            i = i - 1;
        }
        if k == n - 1 {
            proof {
                lemma_pow256_monotone(chunk.len(), 7);
            }
            let mut marker: u64 = 1;
            let mut t: usize = start;
            while t < end
                invariant
                    start <= t <= end,
                    end - start <= 7,
                    marker as nat == pow256((t - start) as nat),
                decreases end - t,
            {
                proof {
                    lemma_pow256_monotone((t - start + 1) as nat, 7);
                    reveal_with_fuel(pow256, 8);
                }
                marker = marker * 256;
                t = t + 1;
            }
            proof {
                lemma_pow256_monotone(chunk.len(), 7);
                reveal_with_fuel(pow256, 8);
            }
            v = v + marker;
        }
        let f = Felt::new(v);
        proof {
            vstd::arithmetic::div_mod::lemma_small_mod(v as nat, modulus());
        }
        r.push(f);
        k = k + 1;
    }
    assert(felts_seq(r@) =~= bytes_to_elements_spec(bytes@));
    r
}

/// The law of element hashing against byte hashing: both absorb the same way;
/// elements start from a capacity holding their count modulo eight, a byte
/// string from eight more than the count of its elements modulo eight.
pub proof fn lemma_hash_capacities(perm: spec_fn(Seq<nat>) -> Seq<nat>, elems: Seq<nat>, bytes: Seq<u8>)
    ensures
        hash_elements_spec(perm, elems) == digest_part(sponge_absorb(perm, capacity_state(elems.len() % 8), elems)),
        bytes_to_elements_spec(bytes) == elems ==> hash_bytes_spec(perm, bytes) == digest_part(sponge_absorb(perm,
            capacity_state(8 + elems.len() % 8), elems)),
{
}

/// The law of byte hashing: a byte string is absorbed as one element per
/// started run of seven bytes, from a capacity that holds eight plus the
/// number of those runs modulo eight.
pub proof fn lemma_hash_bytes_capacity(perm: spec_fn(Seq<nat>) -> Seq<nat>, bytes: Seq<u8>)
    ensures
        bytes_to_elements_spec(bytes).len() == (bytes.len() + 6) / 7,
        hash_bytes_spec(perm, bytes) == digest_part(sponge_absorb(perm, capacity_state(8 + ((bytes.len() + 6) / 7) % 8),
            bytes_to_elements_spec(bytes))),
{
}

} // verus!
