//! The RPX hash (RPX-256): a variant of RPO whose permutation alternates full
//! rounds with rounds over the cubic extension of the field.

use vstd::prelude::*;
use crate::felt::{Felt, MODULUS, modulus, add_spec, mul_spec};
use vstd::arithmetic::power::pow;
use crate::rescue::{
    STATE_WIDTH, NUM_ROUNDS, state_seq, add_constants_spec, constants_seq, ark1_spec, ark1, ark2,
    apply_sbox, apply_inv_sbox, add_constants, add_constants_and_apply_sbox, add_constants_and_apply_inv_sbox,
};
use crate::rescue::mds::{apply_mds, mds_spec};
use crate::rescue::rpo::rpo_round_spec;
use crate::rescue::rpx_digest::RpxDigest;
use crate::rescue::digest::word_seq;
use crate::rescue::sponge::{
    felts_seq, overwrite_rate, pad_block, absorb_blocks, sponge_absorb, capacity_state, digest_part,
    hash_elements_spec, hash_bytes_spec, bytes_to_elements, merge_state, merge_spec, merge_with_int_state,
};

verus! {

/// Product in the cubic extension `F[x] / (x^3 - x - 1)`.
#[verifier::opaque]
pub open spec fn cube_mul_spec(a: (nat, nat, nat), b: (nat, nat, nat)) -> (nat, nat, nat) {
    (
        add_spec(add_spec(mul_spec(a.0, b.0), mul_spec(a.1, b.2)), mul_spec(a.2, b.1)),
        add_spec(add_spec(add_spec(add_spec(mul_spec(a.0, b.1), mul_spec(a.1, b.0)), mul_spec(a.1, b.2)), mul_spec(a.2, b.1)), mul_spec(a.2, b.2)),
        add_spec(add_spec(add_spec(mul_spec(a.0, b.2), mul_spec(a.1, b.1)), mul_spec(a.2, b.0)), mul_spec(a.2, b.2)),
    )
}

/// `x^7` in the cubic extension, as `x^3 * x^4`.
#[verifier::opaque]
pub open spec fn cube_exp7_spec(x: (nat, nat, nat)) -> (nat, nat, nat) {
    let x2 = cube_mul_spec(x, x);
    let x4 = cube_mul_spec(x2, x2);
    cube_mul_spec(cube_mul_spec(x2, x), x4)
}

/// The seventh power of each of the four extension elements of a state.
pub open spec fn ext_exp7_seq(s: Seq<nat>) -> Seq<nat> {
    Seq::new(12, |j: int| {
        let g = j / 3;
        let e = cube_exp7_spec((s[3 * g], s[3 * g + 1], s[3 * g + 2]));
        if j % 3 == 0 { e.0 } else if j % 3 == 1 { e.1 } else { e.2 }
    })
}

/// An extension round: constants, then the extension S-box.
pub open spec fn ext_round_spec(s: Seq<nat>, round: int) -> Seq<nat> {
    ext_exp7_seq(add_constants_spec(s, constants_seq(ark1_spec(round))))
}

/// The last round: MDS, then constants.
pub open spec fn final_round_spec(s: Seq<nat>, round: int) -> Seq<nat> {
    add_constants_spec(mds_spec(s), constants_seq(ark1_spec(round)))
}

/// The RPX permutation.
#[verifier::opaque]
pub open spec fn rpx_permutation_spec(s: Seq<nat>) -> Seq<nat> {
    let s1 = ext_round_spec(rpo_round_spec(s, 0), 1);
    let s2 = ext_round_spec(rpo_round_spec(s1, 2), 3);
    let s3 = ext_round_spec(rpo_round_spec(s2, 4), 5);
    final_round_spec(s3, 6)
}

/// The RPX permutation as a function value, for the sponge specifications.
pub open spec fn rpx_perm() -> spec_fn(Seq<nat>) -> Seq<nat> {
    |s: Seq<nat>| rpx_permutation_spec(s)
}

/// An element of the cubic extension of the field, `a + b x + c x^2`.
#[derive(Debug, Clone, Copy, PartialEq, Eq, Structural)]
pub struct CubicExtElement {
    pub a: Felt,
    pub b: Felt,
    pub c: Felt,
}

impl View for CubicExtElement {
    type V = (nat, nat, nat);

    open spec fn view(&self) -> (nat, nat, nat) {
        (self.a@, self.b@, self.c@)
    }
}

impl CubicExtElement {
    /// The element `a + b x + c x^2`.
    pub fn new(a: Felt, b: Felt, c: Felt) -> (r: Self)
        ensures
            r@ == (a@, b@, c@),
    {
        CubicExtElement { a, b, c }
    }

    /// Product in the extension.
    pub fn mul(self, rhs: Self) -> (r: Self)
        ensures
            r@ == cube_mul_spec(self@, rhs@),
    {
        let c0 = self.a.mul(rhs.a).add(self.b.mul(rhs.c)).add(self.c.mul(rhs.b));
        let c1 = self.a.mul(rhs.b).add(self.b.mul(rhs.a)).add(self.b.mul(rhs.c)).add(self.c.mul(rhs.b)).add(self.c.mul(rhs.c));
        let c2 = self.a.mul(rhs.c).add(self.b.mul(rhs.b)).add(self.c.mul(rhs.a)).add(self.c.mul(rhs.c));
        proof {
            reveal(cube_mul_spec);
        }
        CubicExtElement { a: c0, b: c1, c: c2 }
    }

    /// Square in the extension.
    pub fn square(self) -> (r: Self)
        ensures
            r@ == cube_mul_spec(self@, self@),
    {
        self.mul(self)
    }
}

/// The digest at positions 4 to 7 of a state.
fn state_digest(state: &[Felt; STATE_WIDTH]) -> (r: RpxDigest)
    ensures
        r@ == digest_part(state_seq(*state)),
{
    let r = RpxDigest::new([state[4], state[5], state[6], state[7]]);
    assert(r@ =~= digest_part(state_seq(*state)));
    r
}

/// The state with `c` in its first element and zeros elsewhere.
fn capacity_init(c: u64) -> (r: [Felt; STATE_WIDTH])
    requires
        c < MODULUS,
    ensures
        state_seq(r) == capacity_state(c as nat),
{
    let mut state = [Felt::zero(); STATE_WIDTH];
    state[0] = Felt::new(c);
    proof {
        vstd::arithmetic::div_mod::lemma_small_mod(c as nat, modulus());
    }
    assert(state_seq(state) =~= capacity_state(c as nat));
    state
}

/// The RPX-256 hash function.
#[derive(Debug, Clone, Copy, PartialEq, Eq, Structural)]
pub struct Rpx256;

impl Rpx256 {
    /// A full round: as in RPO, MDS, constants, forward S-box, MDS, constants,
    /// inverse S-box.
    pub fn apply_fb_round(state: &mut [Felt; STATE_WIDTH], round: usize)
        requires
            round < NUM_ROUNDS,
        ensures
            state_seq(*final(state)) == rpo_round_spec(state_seq(*old(state)), round as int),
    {
        let k1 = ark1(round);
        let k2 = ark2(round);
        apply_mds(state);
        if !add_constants_and_apply_sbox(state, &k1) {
            add_constants(state, &k1);
            apply_sbox(state);
        }
        apply_mds(state);
        if !add_constants_and_apply_inv_sbox(state, &k2) {
            add_constants(state, &k2);
            apply_inv_sbox(state);
        }
    }

    /// An extension round: constants, then the seventh power of each of the
    /// four cubic-extension elements the state holds.
    pub fn apply_ext_round(state: &mut [Felt; STATE_WIDTH], round: usize)
        requires
            round < NUM_ROUNDS,
        ensures
            state_seq(*final(state)) == ext_round_spec(state_seq(*old(state)), round as int),
    {
        let k1 = ark1(round);
        add_constants(state, &k1);
        let ghost s1 = state_seq(*state);
        let mut g: usize = 0;
        while g < 4
            invariant
                0 <= g <= 4,
                s1.len() == 12,
                forall|j: int| 3 * g <= j < 12 ==> #[trigger] state[j]@ == s1[j],
                forall|j: int| 0 <= j < 3 * g ==> #[trigger] state[j]@ == ext_exp7_seq(s1)[j],
            decreases 4 - g,
        {
            let e = Self::exp7(CubicExtElement::new(state[3 * g], state[3 * g + 1], state[3 * g + 2]));
            state[3 * g] = e.a;
            state[3 * g + 1] = e.b;
            state[3 * g + 2] = e.c;
            g = g + 1;
        }
        assert(state_seq(*state) =~= ext_exp7_seq(s1));
    }

    /// The last round: MDS, then constants.
    pub fn apply_final_round(state: &mut [Felt; STATE_WIDTH], round: usize)
        requires
            round < NUM_ROUNDS,
        ensures
            state_seq(*final(state)) == final_round_spec(state_seq(*old(state)), round as int),
    {
        let k1 = ark1(round);
        apply_mds(state);
        add_constants(state, &k1);
    }

    /// `x^7` in the cubic extension.
    pub fn exp7(x: CubicExtElement) -> (r: CubicExtElement)
        ensures
            r@ == cube_exp7_spec(x@),
    {
        let x2 = x.square();
        let x4 = x2.square();
        let x3 = x2.mul(x);
        proof {
            reveal(cube_exp7_spec);
        }
        x3.mul(x4)
    }

    /// The permutation: three pairs of full and extension rounds, then the last round.
    pub fn apply_permutation(state: &mut [Felt; STATE_WIDTH])
        ensures
            state_seq(*final(state)) == rpx_permutation_spec(state_seq(*old(state))),
    {
        Self::apply_fb_round(state, 0);
        Self::apply_ext_round(state, 1);
        Self::apply_fb_round(state, 2);
        Self::apply_ext_round(state, 3);
        Self::apply_fb_round(state, 4);
        Self::apply_ext_round(state, 5);
        Self::apply_final_round(state, 6);
        proof {
            reveal(rpx_permutation_spec);
        }
    }
    /// Absorbs `elements` into the state, eight at a time, permuting after each
    /// block; a last partial block is padded with zeros.
    fn absorb(state: &mut [Felt; STATE_WIDTH], elements: &[Felt])
        ensures
            state_seq(*final(state)) == sponge_absorb(rpx_perm(), state_seq(*old(state)), felts_seq(elements@)),
    {
        let ghost init = state_seq(*state);
        let ghost es = felts_seq(elements@);
        let mut i: usize = 0;
        let mut k: usize = 0;
        while k < elements.len()
            invariant
                0 <= k <= elements@.len(),
                es == felts_seq(elements@),
                i == k % 8,
                forall|j: int| 0 <= j < 12 && !(4 <= j < 4 + i) ==> #[trigger] state[j]@
                    == absorb_blocks(rpx_perm(), init, es, (k / 8) as nat)[j],
                forall|j: int| 4 <= j < 4 + i ==> #[trigger] state[j]@ == es[8 * (k / 8) + j - 4],
                absorb_blocks(rpx_perm(), init, es, (k / 8) as nat).len() == 12,
            decreases elements@.len() - k,
        {
            let ghost blocks = (k / 8) as nat;
            let ghost before = absorb_blocks(rpx_perm(), init, es, blocks);
            state[4 + i] = elements[k];
            i = i + 1;
            k = k + 1;
            if i == 8 {
                proof {
                    let block = es.subrange(8 * (blocks as int), 8 * (blocks as int) + 8);
                    assert(state_seq(*state) =~= overwrite_rate(before, block));
                    assert(k / 8 == blocks + 1);
                }
                Self::apply_permutation(state);
                i = 0;
                proof {
                    let nb = (k / 8) as nat;
                    assert(absorb_blocks(rpx_perm(), init, es, nb) == rpx_permutation_spec(
                        overwrite_rate(before, es.subrange(8 * (blocks as int), 8 * (blocks as int) + 8))));
                }
            }
        }
        let ghost n = (k / 8) as nat;
        let ghost s = absorb_blocks(rpx_perm(), init, es, n);
        if i > 0 {
            let mut t: usize = i;
            while t < 8
                invariant
                    0 < i <= t <= 8,
                    forall|j: int| 0 <= j < 12 && !(4 <= j < 4 + t) ==> #[trigger] state[j]@ == s[j],
                    forall|j: int| 4 <= j < 4 + i ==> #[trigger] state[j]@ == es[8 * n + j - 4],
                    forall|j: int| 4 + i <= j < 4 + t ==> #[trigger] state[j]@ == 0,
                decreases 8 - t,
            {
                state[4 + t] = Felt::zero();
                t = t + 1;
            }
            proof {
                let tail = es.subrange(8 * (n as int), es.len() as int);
                assert(state_seq(*state) =~= overwrite_rate(s, pad_block(tail)));
            }
            Self::apply_permutation(state);
        } else {
            assert(state_seq(*state) =~= s);
        }
    }

    /// Hashes a sequence of field elements.
    pub fn hash_elements(elements: &[Felt]) -> (r: RpxDigest)
        ensures
            r@ == hash_elements_spec(rpx_perm(), felts_seq(elements@)),
    {
        let mut state = capacity_init((elements.len() % 8) as u64);
        Self::absorb(&mut state, elements);
        state_digest(&state)
    }

    /// Hashes a byte string: seven bytes per field element, the last chunk marked
    /// by a one byte after it.
    pub fn hash(bytes: &[u8]) -> (r: RpxDigest)
        ensures
            r@ == hash_bytes_spec(rpx_perm(), bytes@),
    {
        let elements = bytes_to_elements(bytes);
        let mut state = capacity_init((8 + elements.len() % 8) as u64);
        Self::absorb(&mut state, elements.as_slice());
        state_digest(&state)
    }

    /// The state that merges two digests with a domain value.
    fn merge_init(values: &[RpxDigest; 2], domain: Felt) -> (r: [Felt; STATE_WIDTH])
        ensures
            state_seq(r) == merge_state(values[0]@, values[1]@, domain@),
    {
        let mut state = [Felt::zero(); STATE_WIDTH];
        let a = values[0].to_felts();
        let b = values[1].to_felts();
        let mut i: usize = 0;
        while i < 4
            invariant
                0 <= i <= 4,
                word_seq(a) == values[0]@,
                word_seq(b) == values[1]@,
                forall|j: int| 0 <= j < 4 ==> #[trigger] state[j]@ == 0,
                forall|j: int| 4 <= j < 4 + i ==> #[trigger] state[j]@ == values[0]@[j - 4],
                forall|j: int| 8 <= j < 8 + i ==> #[trigger] state[j]@ == values[1]@[j - 8],
                forall|j: int| 4 + i <= j < 8 || 8 + i <= j < 12 ==> #[trigger] state[j]@ == 0,
            decreases 4 - i,
        {
            state[4 + i] = a[i];
            state[8 + i] = b[i];
            i = i + 1;
        }
        state[1] = domain;
        assert(state_seq(state) =~= merge_state(values[0]@, values[1]@, domain@));
        state
    }

    /// Merges two digests into one.
    pub fn merge(values: &[RpxDigest; 2]) -> (r: RpxDigest)
        ensures
            r@ == merge_spec(rpx_perm(), values[0]@, values[1]@),
    {
        let mut state = Self::merge_init(values, Felt::zero());
        Self::apply_permutation(&mut state);
        state_digest(&state)
    }

    /// Merges two digests in the domain `domain`, which is placed in the capacity.
    pub fn merge_in_domain(values: &[RpxDigest; 2], domain: Felt) -> (r: RpxDigest)
        ensures
            r@ == digest_part(rpx_permutation_spec(merge_state(values[0]@, values[1]@, domain@))),
    {
        let mut state = Self::merge_init(values, domain);
        Self::apply_permutation(&mut state);
        state_digest(&state)
    }

    /// Merges a digest with a 64-bit integer.
    pub fn merge_with_int(seed: RpxDigest, value: u64) -> (r: RpxDigest)
        ensures
            r@ == digest_part(rpx_permutation_spec(merge_with_int_state(seed@, value as nat))),
    {
        let mut state = [Felt::zero(); STATE_WIDTH];
        let s = seed.to_felts();
        state[4] = s[0];
        state[5] = s[1];
        state[6] = s[2];
        state[7] = s[3];
        state[8] = Felt::new(value);
        if value < MODULUS {
            state[0] = Felt::new(5);
        } else {
            state[9] = Felt::new(value / MODULUS);
            state[0] = Felt::new(6);
            proof {
                vstd::arithmetic::div_mod::lemma_small_mod((value / MODULUS) as nat, modulus());
            }
        }
        assert(state_seq(state) =~= merge_with_int_state(seed@, value as nat));
        Self::apply_permutation(&mut state);
        state_digest(&state)
    }

    /// Hashes the elements of a list of digests.
    pub fn merge_many(values: &[RpxDigest]) -> (r: RpxDigest)
        requires
            values@.len() * 4 <= usize::MAX,
        ensures
            r@ == hash_elements_spec(rpx_perm(), Seq::new(4 * values@.len(), |i: int| values@[i / 4]@[i % 4])),
    {
        let elements = RpxDigest::digests_as_elements(values);
        let r = Self::hash_elements(elements.as_slice());
        proof {
            assert forall|i: int| 0 <= i < 4 * values@.len() implies #[trigger] felts_seq(elements@)[i] == values@[i / 4]@[i % 4] by {
                assert(elements@[4 * (i / 4) + i % 4]@ == values@[i / 4]@[i % 4]);
            }
            assert(felts_seq(elements@) =~= Seq::new(4 * values@.len(), |i: int| values@[i / 4]@[i % 4]));
        }
        r
    }
}

/// `x` times an element `b0 + b1 x + b2 x^2` of the cubic extension: since
/// `x^3 = x + 1`, it is `b2 + (b0 + b2) x + b1 x^2`.
pub open spec fn cube_times_x(b: (nat, nat, nat)) -> (nat, nat, nat) {
    (b.2, add_spec(b.0, b.2), b.1)
}

/// A field element times an element of the cubic extension.
pub open spec fn cube_scale(s: nat, b: (nat, nat, nat)) -> (nat, nat, nat) {
    (mul_spec(s, b.0), mul_spec(s, b.1), mul_spec(s, b.2))
}

/// The sum of two elements of the cubic extension.
pub open spec fn cube_add(a: (nat, nat, nat), b: (nat, nat, nat)) -> (nat, nat, nat) {
    (add_spec(a.0, b.0), add_spec(a.1, b.1), add_spec(a.2, b.2))
}

/// Sums of three products, reduced.
proof fn lemma_sum_mod(u: nat, v: nat, w: nat)
    ensures
        add_spec(add_spec(u % modulus(), v % modulus()), w % modulus()) == (u + v + w) % modulus(),
{
    let p = modulus() as int;
    vstd::arithmetic::div_mod::lemma_add_mod_noop(u as int, v as int, p);
    vstd::arithmetic::div_mod::lemma_add_mod_noop((u + v) as int, w as int, p);
    vstd::arithmetic::div_mod::lemma_mod_twice((u + v) as int, p);
}

/// A product with a reduced sum.
proof fn lemma_mul_sum_mod(s: nat, b: nat, c: nat)
    ensures
        mul_spec(s, add_spec(b, c)) == (s * b + s * c) % modulus(),
{
    let p = modulus() as int;
    vstd::arithmetic::div_mod::lemma_mul_mod_noop_right(s as int, (b + c) as int, p);
    assert(s * (b + c) == s * b + s * c) by (nonlinear_arith);
}

/// The law of the cubic extension's product: `a0 + a1 x + a2 x^2` times `b`
/// is `a0` times `b`, plus `a1` times `x b`, plus `a2` times `x x b`, where
/// multiplying by `x` follows `x^3 = x + 1`; so, for instance, `x` times `x^2`
/// is `x + 1` and `x^2` times `x^2` is `x^2 + x`.
pub proof fn lemma_cube_mul_by_basis(a: (nat, nat, nat), b: (nat, nat, nat))
    ensures
        cube_mul_spec(a, b) == cube_add(cube_add(cube_scale(a.0, b), cube_scale(a.1, cube_times_x(b))), cube_scale(a.2,
            cube_times_x(cube_times_x(b)))),
{
    reveal(cube_mul_spec);
    let p = modulus() as int;
    let (a0, a1, a2) = a;
    let (b0, b1, b2) = b;
    let rhs = cube_add(cube_add(cube_scale(a0, b), cube_scale(a1, cube_times_x(b))), cube_scale(a2, cube_times_x(
        cube_times_x(b))));
    // the constant coefficient is the same sum
    // the coefficient of x
    let u = a0 * b1;
    let v = a1 * b0;
    let w = a1 * b2;
    let x = a2 * b1;
    let y = a2 * b2;
    lemma_sum_mod(u, v, w);
    lemma_sum_mod(u + v + w, x, y);
    vstd::arithmetic::div_mod::lemma_mod_twice((u + v + w) as int, p);
    lemma_mul_sum_mod(a1, b0, b2);
    lemma_mul_sum_mod(a2, b2, b1);
    vstd::arithmetic::div_mod::lemma_add_mod_noop(u as int, (v + w) as int, p);
    vstd::arithmetic::div_mod::lemma_add_mod_noop((u + v + w) as int, (y + x) as int, p);
    vstd::arithmetic::div_mod::lemma_add_mod_noop((u + v) as int, w as int, p);
    vstd::arithmetic::div_mod::lemma_add_mod_noop(u as int, v as int, p);
    vstd::arithmetic::div_mod::lemma_add_mod_noop((u + v + w) as int, x as int, p);
    vstd::arithmetic::div_mod::lemma_add_mod_noop((u + v + w + x) as int, y as int, p);
    vstd::arithmetic::div_mod::lemma_mod_twice((u + v) as int, p);
    vstd::arithmetic::div_mod::lemma_mod_twice((u + v + w + x) as int, p);
    assert(cube_mul_spec(a, b).1 == (u + v + w + x + y) % modulus());
    assert(rhs.1 == (u + v + w + y + x) % modulus());
    // the coefficient of x^2
    let u2 = a0 * b2;
    let v2 = a1 * b1;
    let w2 = a2 * b0;
    let y2 = a2 * b2;
    lemma_mul_sum_mod(a2, b0, b2);
    vstd::arithmetic::div_mod::lemma_add_mod_noop(u2 as int, v2 as int, p);
    vstd::arithmetic::div_mod::lemma_add_mod_noop((u2 + v2) as int, w2 as int, p);
    vstd::arithmetic::div_mod::lemma_add_mod_noop((u2 + v2 + w2) as int, y2 as int, p);
    vstd::arithmetic::div_mod::lemma_add_mod_noop((u2 + v2) as int, (w2 + y2) as int, p);
    vstd::arithmetic::div_mod::lemma_mod_twice((u2 + v2) as int, p);
    vstd::arithmetic::div_mod::lemma_mod_twice((u2 + v2 + w2) as int, p);
    assert(cube_mul_spec(a, b).2 == (u2 + v2 + w2 + y2) % modulus());
    assert(rhs.2 == (u2 + v2 + w2 + y2) % modulus());
}

/// The product of two field elements seen in the cubic extension.
proof fn lemma_cube_mul_base(c: nat, d: nat)
    ensures
        cube_mul_spec((c, 0, 0), (d, 0, 0)) == ((c * d) % modulus(), 0nat, 0nat),
{
    reveal(cube_mul_spec);
    let p = modulus() as int;
    vstd::arithmetic::div_mod::lemma_mod_twice((c * d) as int, p);
    assert(0nat % modulus() == 0);
    assert((c * 0) == 0 && (0 * d) == 0 && (0 * 0) == 0) by (nonlinear_arith);
}

/// The law of the extension's seventh power on the field: a field element,
/// seen in the cubic extension, has there the seventh power it has in the field.
pub proof fn lemma_cube_exp7_on_base(c: nat)
    ensures
        cube_exp7_spec((c, 0, 0)) == (crate::felt::pow_spec(c, 7), 0nat, 0nat),
{
    reveal(cube_exp7_spec);
    let p = modulus() as int;
    let c2 = (c * c) % modulus();
    lemma_cube_mul_base(c, c);
    let c3 = (c2 * c) % modulus();
    lemma_cube_mul_base(c2, c);
    let c4 = (c2 * c2) % modulus();
    lemma_cube_mul_base(c2, c2);
    lemma_cube_mul_base(c3, c4);
    vstd::arithmetic::div_mod::lemma_mul_mod_noop_left((c * c) as int, c as int, p);
    vstd::arithmetic::div_mod::lemma_mul_mod_noop((c * c) as int, (c * c) as int, p);
    vstd::arithmetic::div_mod::lemma_mul_mod_noop((c * c * c) as int, (c * c * c * c) as int, p);
    vstd::arithmetic::div_mod::lemma_mod_twice((c * c * c) as int, p);
    vstd::arithmetic::div_mod::lemma_mod_twice((c * c * c * c) as int, p);
    assert(c3 == (c * c * c) % modulus());
    assert(c4 == (c * c * c * c) % modulus()) by {
        assert((c * c) * (c * c) == c * c * c * c) by (nonlinear_arith);
    }
    assert((c * c * c) * (c * c * c * c) == c * c * c * c * c * c * c) by (nonlinear_arith);
    reveal_with_fuel(pow, 8);
    assert(pow(c as int, 7) == c * c * c * c * c * c * c) by (nonlinear_arith)
        requires
            pow(c as int, 7) == c * pow(c as int, 6),
            pow(c as int, 6) == c * pow(c as int, 5),
            pow(c as int, 5) == c * pow(c as int, 4),
            pow(c as int, 4) == c * pow(c as int, 3),
            pow(c as int, 3) == c * pow(c as int, 2),
            pow(c as int, 2) == c * pow(c as int, 1),
            pow(c as int, 1) == c * pow(c as int, 0),
            pow(c as int, 0) == 1,
    ;
}

} // verus!
