//! The Rescue Prime Optimized hash (RPO-256): its permutation and the sponge
//! functions built on it.

use vstd::prelude::*;
use crate::felt::{Felt, MODULUS, modulus};
use crate::rescue::{
    STATE_WIDTH, NUM_ROUNDS, state_seq, sbox_spec, inv_sbox_spec, add_constants_spec, constants_seq,
    ark1_spec, ark2_spec, ark1, ark2, apply_sbox, apply_inv_sbox, add_constants,
    add_constants_and_apply_sbox, add_constants_and_apply_inv_sbox,
};
use crate::rescue::mds::{apply_mds, mds_spec};
use crate::rescue::digest::{RpoDigest, word_seq};
use crate::rescue::sponge::{
    felts_seq, overwrite_rate, pad_block, absorb_blocks, sponge_absorb, capacity_state, digest_part,
    hash_elements_spec, hash_bytes_spec, bytes_to_elements, bytes_to_elements_spec, merge_state,
    merge_spec, merge_with_int_state,
};

verus! {

/// One RPO round: MDS, constants, forward S-box, MDS, constants, inverse S-box.
pub open spec fn rpo_round_spec(s: Seq<nat>, round: int) -> Seq<nat> {
    let a = sbox_spec(add_constants_spec(mds_spec(s), constants_seq(ark1_spec(round))));
    inv_sbox_spec(add_constants_spec(mds_spec(a), constants_seq(ark2_spec(round))))
}

/// The first `n` rounds of the RPO permutation.
pub open spec fn rpo_rounds_spec(s: Seq<nat>, n: nat) -> Seq<nat>
    decreases n,
{
    if n == 0 {
        s
    } else {
        rpo_round_spec(rpo_rounds_spec(s, (n - 1) as nat), n - 1)
    }
}

/// The RPO permutation: seven rounds.
pub open spec fn rpo_permutation_spec(s: Seq<nat>) -> Seq<nat> {
    rpo_rounds_spec(s, 7)
}

/// The RPO permutation as a function value, for the sponge specifications.
pub open spec fn rpo_perm() -> spec_fn(Seq<nat>) -> Seq<nat> {
    |s: Seq<nat>| rpo_permutation_spec(s)
}

/// The digest at positions 4 to 7 of a state.
fn state_digest(state: &[Felt; STATE_WIDTH]) -> (r: RpoDigest)
    ensures
        r@ == digest_part(state_seq(*state)),
{
    let r = RpoDigest::new([state[4], state[5], state[6], state[7]]);
    assert(r@ =~= digest_part(state_seq(*state)));
    r
}

/// The state with `c` in its first element and zeros elsewhere.
fn capacity_init(c: u64) -> (r: [Felt; STATE_WIDTH])
    requires
        c < MODULUS,
    ensures
        state_seq(r) == capacity_state(c as nat),
{
    let mut state = [Felt::zero(); STATE_WIDTH];
    state[0] = Felt::new(c);
    proof {
        vstd::arithmetic::div_mod::lemma_small_mod(c as nat, modulus());
    }
    assert(state_seq(state) =~= capacity_state(c as nat));
    state
}

/// The RPO-256 hash function.
#[derive(Debug, Clone, Copy, PartialEq, Eq, Structural)]
pub struct Rpo256;

impl Rpo256 {
    /// Applies round `round` of the permutation.
    pub fn apply_round(state: &mut [Felt; STATE_WIDTH], round: usize)
        requires
            round < NUM_ROUNDS,
        ensures
            state_seq(*final(state)) == rpo_round_spec(state_seq(*old(state)), round as int),
    {
        let k1 = ark1(round);
        let k2 = ark2(round);
        apply_mds(state);
        if !add_constants_and_apply_sbox(state, &k1) {
            add_constants(state, &k1);
            apply_sbox(state);
        }
        apply_mds(state);
        if !add_constants_and_apply_inv_sbox(state, &k2) {
            add_constants(state, &k2);
            apply_inv_sbox(state);
        }
    }

    /// Applies the seven rounds of the permutation.
    pub fn apply_permutation(state: &mut [Felt; STATE_WIDTH])
        ensures
            state_seq(*final(state)) == rpo_permutation_spec(state_seq(*old(state))),
    {
        let ghost s0 = state_seq(*state);
        let mut i: usize = 0;
        while i < NUM_ROUNDS
            invariant
                0 <= i <= NUM_ROUNDS,
                state_seq(*state) == rpo_rounds_spec(s0, i as nat),
            decreases NUM_ROUNDS - i,
        {
            Self::apply_round(state, i);
            i = i + 1;
        }
    }

    /// Absorbs `elements` into the state, eight at a time, permuting after each
    /// block; a last partial block is padded with zeros.
    fn absorb(state: &mut [Felt; STATE_WIDTH], elements: &[Felt])
        ensures
            state_seq(*final(state)) == sponge_absorb(rpo_perm(), state_seq(*old(state)), felts_seq(elements@)),
    {
        let ghost init = state_seq(*state);
        let ghost es = felts_seq(elements@);
        let mut i: usize = 0;
        let mut k: usize = 0;
        while k < elements.len()
            invariant
                0 <= k <= elements@.len(),
                es == felts_seq(elements@),
                i == k % 8,
                forall|j: int| 0 <= j < 12 && !(4 <= j < 4 + i) ==> #[trigger] state[j]@
                    == absorb_blocks(rpo_perm(), init, es, (k / 8) as nat)[j],
                forall|j: int| 4 <= j < 4 + i ==> #[trigger] state[j]@ == es[8 * (k / 8) + j - 4],
                absorb_blocks(rpo_perm(), init, es, (k / 8) as nat).len() == 12,
            decreases elements@.len() - k,
        {
            let ghost blocks = (k / 8) as nat;
            let ghost before = absorb_blocks(rpo_perm(), init, es, blocks);
            state[4 + i] = elements[k];
            i = i + 1;
            k = k + 1;
            if i == 8 {
                proof {
                    let block = es.subrange(8 * (blocks as int), 8 * (blocks as int) + 8);
                    assert(state_seq(*state) =~= overwrite_rate(before, block));
                    assert(k / 8 == blocks + 1);
                }
                Self::apply_permutation(state);
                i = 0;
                proof {
                    let nb = (k / 8) as nat;
                    assert(absorb_blocks(rpo_perm(), init, es, nb) == rpo_permutation_spec(
                        overwrite_rate(before, es.subrange(8 * (blocks as int), 8 * (blocks as int) + 8))));
                }
            }
        }
        let ghost n = (k / 8) as nat;
        let ghost s = absorb_blocks(rpo_perm(), init, es, n);
        if i > 0 {
            let mut t: usize = i;
            while t < 8
                invariant
                    0 < i <= t <= 8,
                    forall|j: int| 0 <= j < 12 && !(4 <= j < 4 + t) ==> #[trigger] state[j]@ == s[j],
                    forall|j: int| 4 <= j < 4 + i ==> #[trigger] state[j]@ == es[8 * n + j - 4],
                    forall|j: int| 4 + i <= j < 4 + t ==> #[trigger] state[j]@ == 0,
                decreases 8 - t,
            {
                state[4 + t] = Felt::zero();
                t = t + 1;
            }
            proof {
                let tail = es.subrange(8 * (n as int), es.len() as int);
                assert(state_seq(*state) =~= overwrite_rate(s, pad_block(tail)));
            }
            Self::apply_permutation(state);
        } else {
            assert(state_seq(*state) =~= s);
        }
    }

    /// Hashes a sequence of field elements.
    pub fn hash_elements(elements: &[Felt]) -> (r: RpoDigest)
        ensures
            r@ == hash_elements_spec(rpo_perm(), felts_seq(elements@)),
    {
        let mut state = capacity_init((elements.len() % 8) as u64);
        Self::absorb(&mut state, elements);
        state_digest(&state)
    }

    /// Hashes a byte string: seven bytes per field element, the last chunk marked
    /// by a one byte after it.
    pub fn hash(bytes: &[u8]) -> (r: RpoDigest)
        ensures
            r@ == hash_bytes_spec(rpo_perm(), bytes@),
    {
        let elements = bytes_to_elements(bytes);
        let mut state = capacity_init((8 + elements.len() % 8) as u64);
        Self::absorb(&mut state, elements.as_slice());
        state_digest(&state)
    }

    /// The state that merges two digests with a domain value.
    fn merge_init(values: &[RpoDigest; 2], domain: Felt) -> (r: [Felt; STATE_WIDTH])
        ensures
            state_seq(r) == merge_state(values[0]@, values[1]@, domain@),
    {
        let mut state = [Felt::zero(); STATE_WIDTH];
        let a = values[0].to_felts();
        let b = values[1].to_felts();
        let mut i: usize = 0;
        while i < 4
            invariant
                0 <= i <= 4,
                word_seq(a) == values[0]@,
                word_seq(b) == values[1]@,
                forall|j: int| 0 <= j < 4 ==> #[trigger] state[j]@ == 0,
                forall|j: int| 4 <= j < 4 + i ==> #[trigger] state[j]@ == values[0]@[j - 4],
                forall|j: int| 8 <= j < 8 + i ==> #[trigger] state[j]@ == values[1]@[j - 8],
                forall|j: int| 4 + i <= j < 8 || 8 + i <= j < 12 ==> #[trigger] state[j]@ == 0,
            decreases 4 - i,
        {
            state[4 + i] = a[i];
            state[8 + i] = b[i];
            i = i + 1;
        }
        state[1] = domain;
        assert(state_seq(state) =~= merge_state(values[0]@, values[1]@, domain@));
        state
    }

    /// Merges two digests into one.
    pub fn merge(values: &[RpoDigest; 2]) -> (r: RpoDigest)
        ensures
            r@ == merge_spec(rpo_perm(), values[0]@, values[1]@),
    {
        let mut state = Self::merge_init(values, Felt::zero());
        Self::apply_permutation(&mut state);
        state_digest(&state)
    }

    /// Merges two digests in the domain `domain`, which is placed in the capacity.
    pub fn merge_in_domain(values: &[RpoDigest; 2], domain: Felt) -> (r: RpoDigest)
        ensures
            r@ == digest_part(rpo_permutation_spec(merge_state(values[0]@, values[1]@, domain@))),
    {
        let mut state = Self::merge_init(values, domain);
        Self::apply_permutation(&mut state);
        state_digest(&state)
    }

    /// Merges a digest with a 64-bit integer.
    pub fn merge_with_int(seed: RpoDigest, value: u64) -> (r: RpoDigest)
        ensures
            r@ == digest_part(rpo_permutation_spec(merge_with_int_state(seed@, value as nat))),
    {
        let mut state = [Felt::zero(); STATE_WIDTH];
        let s = seed.to_felts();
        state[4] = s[0];
        state[5] = s[1];
        state[6] = s[2];
        state[7] = s[3];
        state[8] = Felt::new(value);
        if value < MODULUS {
            state[0] = Felt::new(5);
        } else {
            state[9] = Felt::new(value / MODULUS);
            state[0] = Felt::new(6);
            proof {
                vstd::arithmetic::div_mod::lemma_small_mod((value / MODULUS) as nat, modulus());
            }
        }
        assert(state_seq(state) =~= merge_with_int_state(seed@, value as nat));
        Self::apply_permutation(&mut state);
        state_digest(&state)
    }

    /// Hashes the elements of a list of digests.
    pub fn merge_many(values: &[RpoDigest]) -> (r: RpoDigest)
        requires
            values@.len() * 4 <= usize::MAX,
        ensures
            r@ == hash_elements_spec(rpo_perm(), Seq::new(4 * values@.len(), |i: int| values@[i / 4]@[i % 4])),
    {
        let elements = RpoDigest::digests_as_elements(values);
        let r = Self::hash_elements(elements.as_slice());
        proof {
            assert forall|i: int| 0 <= i < 4 * values@.len() implies #[trigger] felts_seq(elements@)[i] == values@[i / 4]@[i % 4] by {
                assert(elements@[4 * (i / 4) + i % 4]@ == values@[i / 4]@[i % 4]);
            }
            assert(felts_seq(elements@) =~= Seq::new(4 * values@.len(), |i: int| values@[i / 4]@[i % 4]));
        }
        r
    }
}

} // verus!
