//! Elements of the Goldilocks prime field `p = 2^64 - 2^32 + 1`.
//!
//! A [`Felt`] stores the canonical integer representative of the element; each
//! operation is proved against its arithmetic meaning modulo `p`.

use vstd::prelude::*;
use vstd::arithmetic::power::pow;

verus! {

/// The field modulus `2^64 - 2^32 + 1`.
pub const MODULUS: u64 = 18446744069414584321u64;

/// `2^64 mod p`, the Montgomery radix used by the internal representation.
pub const MONT_R: u64 = 4294967295u64;

pub open spec fn modulus() -> nat {
    18446744069414584321nat
}

/// Field addition on integer representatives.
pub open spec fn add_spec(a: nat, b: nat) -> nat {
    (a + b) % modulus()
}

/// Field subtraction on integer representatives.
pub open spec fn sub_spec(a: nat, b: nat) -> nat {
    ((a - b) % (modulus() as int)) as nat
}

/// Field multiplication on integer representatives.
pub open spec fn mul_spec(a: nat, b: nat) -> nat {
    (a * b) % modulus()
}

/// `a^e mod p`.
pub open spec fn pow_spec(a: nat, e: nat) -> nat {
    (pow(a as int, e) % (modulus() as int)) as nat
}

/// The Montgomery form `a * 2^64 mod p` of a field element.
pub open spec fn mont_spec(a: nat) -> nat {
    (a * (MONT_R as nat)) % modulus()
}

/// Inverse of the Montgomery radix modulo `p`.
const MONT_R_INV: u64 = 18446744065119617025u64;

/// `v mod p` for any 64-bit integer.
fn reduce_u64(v: u64) -> (r: u64)
    ensures
        r == v % MODULUS,
{
    if v >= MODULUS {
        v - MODULUS
    } else {
        v
    }
}

/// `(a * b) mod p` computed through a 128-bit product.
fn mul_mod(a: u64, b: u64) -> (r: u64)
    ensures
        r == (a * b) % (MODULUS as int),
        r < MODULUS,
{
    assert((a as u128) * (b as u128) <= u128::MAX) by (nonlinear_arith)
        requires
            a <= u64::MAX,
            b <= u64::MAX,
    ;
    let prod: u128 = (a as u128) * (b as u128);
    let r = prod % (MODULUS as u128);
    r as u64
}

/// An element of the Goldilocks field, held by its canonical integer value.
#[derive(Debug, Clone, Copy, PartialEq, Eq, Structural)]
pub struct Felt {
    value: u64,
}

impl View for Felt {
    type V = nat;

    closed spec fn view(&self) -> nat {
        self.value as nat
    }
}

impl Felt {
    #[verifier::type_invariant]
    closed spec fn inv(self) -> bool {
        self.value < MODULUS
    }

    /// The field modulus as a public constant.
    pub const MODULUS: u64 = 18446744069414584321u64;

    /// Builds the element `value mod p`.
    pub fn new(value: u64) -> (r: Felt)
        ensures
            r@ == value as nat % modulus(),
    {
        Felt { value: reduce_u64(value) }
    }

    /// The additive identity.
    pub fn zero() -> (r: Felt)
        ensures
            r@ == 0,
    {
        Felt { value: 0 }
    }

    /// The multiplicative identity.
    pub fn one() -> (r: Felt)
        ensures
            r@ == 1,
    {
        Felt { value: 1 }
    }

    /// The canonical integer value of this element.
    pub fn as_int(&self) -> (r: u64)
        ensures
            r == self@,
            r < MODULUS,
    {
        proof { use_type_invariant(self); }
        self.value
    }

    /// Every element is below the modulus.
    pub fn bound(&self)
        ensures
            self@ < modulus(),
    {
        proof { use_type_invariant(self); }
    }

    /// Field addition.
    pub fn add(self, rhs: Felt) -> (r: Felt)
        ensures
            r@ == add_spec(self@, rhs@),
    {
        proof {
            use_type_invariant(&self);
            use_type_invariant(&rhs);
        }
        let a = self.value;
        let b = rhs.value;
        let v = if a >= MODULUS - b {
            a - (MODULUS - b)
        } else {
            a + b
        };
        Felt { value: v }
    }

    /// Field subtraction.
    pub fn sub(self, rhs: Felt) -> (r: Felt)
        ensures
            r@ == sub_spec(self@, rhs@),
    {
        proof {
            use_type_invariant(&self);
            use_type_invariant(&rhs);
        }
        let a = self.value;
        let b = rhs.value;
        let v = if a >= b {
            a - b
        } else {
            MODULUS - (b - a)
        };
        Felt { value: v }
    }

    /// Field multiplication.
    pub fn mul(self, rhs: Felt) -> (r: Felt)
        ensures
            r@ == mul_spec(self@, rhs@),
    {
        Felt { value: mul_mod(self.value, rhs.value) }
    }

    /// Squaring.
    pub fn square(self) -> (r: Felt)
        ensures
            r@ == mul_spec(self@, self@),
    {
        self.mul(self)
    }

    /// Doubling.
    pub fn double(self) -> (r: Felt)
        ensures
            r@ == add_spec(self@, self@),
    {
        self.add(self)
    }

    /// `self^7`, the forward S-box of the Rescue permutations.
    pub fn exp7(self) -> (r: Felt)
        ensures
            r@ == pow_spec(self@, 7),
    {
        proof { use_type_invariant(&self); }
        let x2 = self.square();
        let x4 = x2.square();
        let x3 = x2.mul(self);
        let r = x3.mul(x4);
        proof {
            lemma_pow_spec_one(self@);
            lemma_pow_spec_mul(self@, 1, 1);
            lemma_pow_spec_mul(self@, 2, 2);
            lemma_pow_spec_mul(self@, 2, 1);
            lemma_pow_spec_mul(self@, 3, 4);
        }
        r
    }

    /// The Montgomery representative `self * 2^64 mod p`, by which digests are ordered.
    pub fn inner(&self) -> (r: u64)
        ensures
            r == mont_spec(self@),
            r < MODULUS,
    {
        mul_mod(self.value, MONT_R)
    }

    /// The element whose Montgomery representative is `m mod p`.
    pub fn from_mont(m: u64) -> (r: Felt)
        ensures
            mont_spec(r@) == m as nat % modulus(),
    {
        let v = mul_mod(m, MONT_R_INV);
        proof {
            lemma_mont_inverse(m as nat);
        }
        Felt { value: v }
    }
}

/// Montgomery forms are canonical.
pub proof fn lemma_mont_bound(a: nat)
    ensures
        mont_spec(a) < MODULUS,
{
}

/// Elements with the same value are the same element.
pub proof fn lemma_felt_view_eq(a: Felt, b: Felt)
    ensures
        a@ == b@ <==> a == b,
{
}

/// Multiplying two powers of the same element adds the exponents.
pub proof fn lemma_pow_spec_mul(x: nat, a: nat, b: nat)
    ensures
        mul_spec(pow_spec(x, a), pow_spec(x, b)) == pow_spec(x, a + b),
{
    let p = modulus() as int;
    vstd::arithmetic::power::lemma_pow_adds(x as int, a, b);
    vstd::arithmetic::div_mod::lemma_mul_mod_noop(pow(x as int, a), pow(x as int, b), p);
}

/// Squaring a power doubles the exponent.
pub proof fn lemma_pow_spec_square(x: nat, a: nat)
    ensures
        mul_spec(pow_spec(x, a), pow_spec(x, a)) == pow_spec(x, 2 * a),
{
    lemma_pow_spec_mul(x, a, a);
    assert(a + a == 2 * a);
}

/// An element is its own first power.
pub proof fn lemma_pow_spec_one(x: nat)
    requires
        x < modulus(),
    ensures
        pow_spec(x, 1) == x,
{
    vstd::arithmetic::power::lemma_pow1(x as int);
    vstd::arithmetic::div_mod::lemma_small_mod(x, modulus());
}

/// Multiplying by the radix undoes multiplying by its inverse.
proof fn lemma_mont_inverse(m: nat)
    ensures
        (((m * (MONT_R_INV as nat)) % modulus()) * (MONT_R as nat)) % modulus() == m % modulus(),
{
    let p = modulus() as int;
    let a = m * (MONT_R_INV as nat);
    vstd::arithmetic::div_mod::lemma_mul_mod_noop_left(a as int, MONT_R as int, p);
    assert(a * (MONT_R as nat) == m * ((MONT_R_INV as nat) * (MONT_R as nat))) by (nonlinear_arith)
        requires
            a == m * (MONT_R_INV as nat),
    ;
    vstd::arithmetic::div_mod::lemma_mul_mod_noop_right(m as int, ((MONT_R_INV as nat) * (MONT_R as nat)) as int, p);
    assert(((MONT_R_INV as nat) * (MONT_R as nat)) % modulus() == 1);
    vstd::arithmetic::div_mod::lemma_mul_mod_noop_right(m as int, 1, p);
}

/// The Montgomery map is injective on field values: equal images come from
/// elements equal modulo `p`.
pub proof fn lemma_mont_cancel(a: nat, w: int)
    requires
        a < modulus(),
        (a * (MONT_R as nat)) % modulus() == (w * (MONT_R as int)) % (modulus() as int),
    ensures
        a as int == w % (modulus() as int),
{
    let p = modulus() as int;
    let r = MONT_R as int;
    let ri = MONT_R_INV as int;
    assert((r * ri) % p == 1);
    vstd::arithmetic::div_mod::lemma_mul_mod_noop_left(a * r, ri, p);
    vstd::arithmetic::div_mod::lemma_mul_mod_noop_left(w * r, ri, p);
    assert((a * r) * ri == a * (r * ri)) by (nonlinear_arith);
    assert((w * r) * ri == w * (r * ri)) by (nonlinear_arith);
    vstd::arithmetic::div_mod::lemma_mul_mod_noop_right(a as int, r * ri, p);
    vstd::arithmetic::div_mod::lemma_mul_mod_noop_right(w, r * ri, p);
    vstd::arithmetic::div_mod::lemma_small_mod(a, modulus());
}

/// Every element fits in eight bytes.
pub proof fn lemma_modulus_below_pow256_8()
    ensures
        modulus() < crate::utils::bytes::pow256(8),
{
    reveal_with_fuel(crate::utils::bytes::pow256, 9);
}

} // verus!
