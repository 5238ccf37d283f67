//! In-order indices of the nodes of a mountain range: leaves have odd indices,
//! and a node of height `h` has `h` trailing zero bits.

use vstd::prelude::*;
use vstd::arithmetic::power2::pow2;
use crate::merkle::mmr::{tz, trailing_zeros};
use crate::utils::bytes::DeserializationError;

verus! {

/// The parent of the node at in-order index `i`: a left child (bit `l + 1`
/// clear) is below its parent by `2^l`, a right child above it.
pub open spec fn io_parent(i: nat) -> nat {
    let l = tz(i);
    if (i / pow2(l + 1)) % 2 == 0 { i + pow2(l) } else { (i - pow2(l)) as nat }
}

/// The left child of the node at in-order index `i` of height at least one.
pub open spec fn io_left(i: nat) -> nat {
    (i - pow2((tz(i) - 1) as nat)) as nat
}

/// The right child of the node at in-order index `i` of height at least one.
pub open spec fn io_right(i: nat) -> nat {
    i + pow2((tz(i) - 1) as nat)
}

/// The index of leaf `pos`.
pub open spec fn io_leaf(pos: nat) -> nat {
    2 * pos + 1
}

/// `2^k` as a machine word.
pub fn pow2_usize(k: u32) -> (r: usize)
    requires
        pow2(k as nat) <= usize::MAX,
    ensures
        r == pow2(k as nat),
{
    let mut r: usize = 1;
    let mut j: u32 = 0;
    proof {
        vstd::arithmetic::power2::lemma2_to64();
    }
    while j < k
        invariant
            0 <= j <= k,
            r == pow2(j as nat),
            pow2(k as nat) <= usize::MAX,
        decreases k - j,
    {
        proof {
            vstd::arithmetic::power2::lemma_pow2_unfold((j + 1) as nat);
            if j + 1 < k {
                vstd::arithmetic::power2::lemma_pow2_strictly_increases((j + 1) as nat, k as nat);
            }
        }
        r = r * 2;
        j = j + 1;
    }
    r
}

/// `2^k` as a 64-bit integer.
pub fn pow2_u64(k: u32) -> (r: u64)
    requires
        k < 64,
    ensures
        r == pow2(k as nat),
{
    let mut r: u64 = 1;
    let mut j: u32 = 0;
    proof {
        vstd::arithmetic::power2::lemma2_to64();
    }
    while j < k
        invariant
            0 <= j <= k < 64,
            r == pow2(j as nat),
        decreases k - j,
    {
        proof {
            vstd::arithmetic::power2::lemma_pow2_unfold((j + 1) as nat);
            vstd::bits::lemma_u64_pow2_no_overflow((j + 1) as nat);
        }
        r = r * 2;
        j = j + 1;
    }
    r
}

/// The number of trailing zeros of `m * 2^k` for odd `m` is `k`.
pub proof fn lemma_tz_odd_times_pow2(m: nat, k: nat)
    requires
        m % 2 == 1,
    ensures
        tz(m * pow2(k)) == k,
    decreases k,
{
    if k == 0 {
        vstd::arithmetic::power2::lemma2_to64();
    } else {
        vstd::arithmetic::power2::lemma_pow2_unfold(k);
        vstd::arithmetic::power2::lemma_pow2_pos((k - 1) as nat);
        let x = m * pow2(k);
        assert(x == 2 * (m * pow2((k - 1) as nat))) by (nonlinear_arith)
            requires
                pow2(k) == 2 * pow2((k - 1) as nat),
                x == m * pow2(k),
        ;
        assert(m * pow2((k - 1) as nat) > 0) by (nonlinear_arith)
            requires
                m > 0,
                pow2((k - 1) as nat) > 0,
        ;
        lemma_tz_odd_times_pow2(m, (k - 1) as nat);
    }
}

/// Every positive integer is an odd number times `2^tz`.
pub proof fn lemma_tz_split(i: nat)
    requires
        i > 0,
    ensures
        (i / pow2(tz(i))) % 2 == 1,
        i == (i / pow2(tz(i))) * pow2(tz(i)),
    decreases i,
{
    vstd::arithmetic::power2::lemma2_to64();
    if i % 2 == 1 {
        assert(tz(i) == 0);
    } else {
        lemma_tz_split(i / 2);
        let k = tz(i / 2);
        assert(tz(i) == k + 1);
        vstd::arithmetic::power2::lemma_pow2_unfold(k + 1);
        vstd::arithmetic::power2::lemma_pow2_pos(k);
        let q = (i / 2) / pow2(k);
        vstd::arithmetic::div_mod::lemma_div_denominator(i as int, 2, pow2(k) as int);
        assert(2 * pow2(k) == pow2(k + 1));
        assert(i / pow2(k + 1) == q);
        assert(i == q * pow2(k + 1)) by (nonlinear_arith)
            requires
                i / 2 == q * pow2(k),
                i % 2 == 0,
                pow2(k + 1) == 2 * pow2(k),
        ;
    }
}

/// The in-order index of a node of a mountain range; always positive.
#[derive(Debug, Clone, Copy, PartialEq, Eq, PartialOrd, Ord, Structural)]
pub struct InOrderIndex {
    idx: usize,
}

impl View for InOrderIndex {
    type V = nat;

    closed spec fn view(&self) -> nat {
        self.idx as nat
    }
}

impl InOrderIndex {
    #[verifier::type_invariant]
    closed spec fn inv(self) -> bool {
        self.idx > 0
    }

    /// Every index is positive and a machine word.
    pub fn check_bounds(&self)
        ensures
            0 < self@ <= usize::MAX,
    {
        proof { use_type_invariant(self); }
    }

    /// The index `idx`, which must be positive.
    pub fn new(idx: usize) -> (r: Self)
        requires
            idx > 0,
        ensures
            r@ == idx,
    {
        InOrderIndex { idx }
    }

    /// The index of leaf `leaf`: `2 * leaf + 1`.
    pub fn from_leaf_pos(leaf: usize) -> (r: Self)
        requires
            2 * leaf + 2 <= usize::MAX,
        ensures
            r@ == io_leaf(leaf as nat),
    {
        let pos = leaf + 1;
        InOrderIndex { idx: pos * 2 - 1 }
    }

    /// Whether this is a leaf: odd indices.
    pub fn is_leaf(self) -> (r: bool)
        ensures
            r == (self@ % 2 == 1),
    {
        self.idx % 2 == 1
    }

    /// The height of the node: its number of trailing zero bits.
    pub fn level(self) -> (r: u32)
        ensures
            r == tz(self@),
            r < 64,
    {
        proof { use_type_invariant(&self); }
        trailing_zeros(self.idx)
    }

    /// The left child of a node above the leaves.
    pub fn left_child(self) -> (r: Self)
        requires
            self@ % 2 == 0,
        ensures
            r@ == io_left(self@),
    {
        proof {
            use_type_invariant(&self);
            lemma_tz_split(self@);
            vstd::arithmetic::power2::lemma_pow2_pos((tz(self@) - 1) as nat);
            vstd::arithmetic::power2::lemma_pow2_unfold(tz(self@));
            let m = self@ / pow2(tz(self@));
            assert(m * pow2(tz(self@)) >= pow2(tz(self@))) by (nonlinear_arith)
                requires
                    m >= 1,
                    pow2(tz(self@)) > 0,
            ;
        }
        let l = self.level();
        let els = pow2_usize(l - 1);
        InOrderIndex { idx: self.idx - els }
    }

    /// The right child of a node above the leaves.
    pub fn right_child(self) -> (r: Self)
        requires
            self@ % 2 == 0,
            io_right(self@) <= usize::MAX,
        ensures
            r@ == io_right(self@),
    {
        proof {
            use_type_invariant(&self);
        }
        let l = self.level();
        let els = pow2_usize(l - 1);
        InOrderIndex { idx: self.idx + els }
    }

    /// The parent.
    pub fn parent(self) -> (r: Self)
        requires
            io_parent(self@) <= usize::MAX,
            pow2(tz(self@) + 1) <= usize::MAX,
        ensures
            r@ == io_parent(self@),
    {
        proof {
            use_type_invariant(&self);
            lemma_tz_split(self@);
            vstd::arithmetic::power2::lemma_pow2_pos(tz(self@));
            vstd::arithmetic::power2::lemma_pow2_unfold(tz(self@) + 1);
            let l = tz(self@);
            let q = self@ / pow2(l + 1);
            vstd::arithmetic::div_mod::lemma_fundamental_div_mod(self@ as int, pow2(l + 1) as int);
            if q % 2 == 1 {
                assert(q * pow2(l + 1) >= pow2(l + 1)) by (nonlinear_arith)
                    requires
                        q >= 1,
                        pow2(l + 1) > 0,
                ;
            }
        }
        let l = self.level();
        let half = pow2_usize(l);
        let bit = pow2_usize(l + 1);
        if (self.idx / bit) % 2 == 0 {
            InOrderIndex { idx: self.idx + half }
        } else {
            InOrderIndex { idx: self.idx - half }
        }
    }

    /// The other child of the same parent.
    pub fn sibling(self) -> (r: Self)
        requires
            io_parent(self@) <= usize::MAX,
            pow2(tz(self@) + 1) <= usize::MAX,
            io_right(io_parent(self@)) <= usize::MAX,
        ensures
            self@ > io_parent(self@) ==> r@ == io_left(io_parent(self@)),
            self@ <= io_parent(self@) ==> r@ == io_right(io_parent(self@)),
    {
        let p = self.parent();
        proof {
            use_type_invariant(&self);
            lemma_parent_is_inner(self@);
        }
        if self.idx > p.idx {
            p.left_child()
        } else {
            p.right_child()
        }
    }

    /// Whether this is the left child of its parent.
    pub fn is_left_child(self) -> (r: bool)
        requires
            io_parent(self@) <= usize::MAX,
            pow2(tz(self@) + 1) <= usize::MAX,
        ensures
            r == (io_left(io_parent(self@)) == self@),
    {
        let p = self.parent();
        proof {
            use_type_invariant(&self);
            lemma_parent_is_inner(self@);
        }
        p.left_child().idx == self.idx
    }

    /// The index as a 64-bit integer.
    pub fn inner(self) -> (r: u64)
        ensures
            r == self@,
    {
        proof {
            use_type_invariant(&self);
        }
        self.idx as u64
    }
}

/// The parent of a node is above the leaves: it has an even index.
pub proof fn lemma_parent_is_inner(i: nat)
    requires
        i > 0,
    ensures
        io_parent(i) % 2 == 0,
        tz(io_parent(i)) == tz(i) + 1,
{
    let l = tz(i);
    lemma_tz_split(i);
    let m = i / pow2(l);
    vstd::arithmetic::power2::lemma_pow2_unfold(l + 1);
    vstd::arithmetic::power2::lemma_pow2_pos(l);
    vstd::arithmetic::div_mod::lemma_div_denominator(i as int, pow2(l) as int, 2);
    assert(pow2(l) * 2 == pow2(l + 1));
    assert(i / pow2(l + 1) == m / 2);
    let q = m / 2;
    assert(m % 2 == 1);
    if q % 2 == 0 {
        assert(io_parent(i) == i + pow2(l));
        assert(io_parent(i) == (m + 1) * pow2(l)) by (nonlinear_arith)
            requires
                i == m * pow2(l),
                io_parent(i) == i + pow2(l),
        ;
        let h = (m + 1) / 2;
        assert((m + 1) * pow2(l) == h * pow2(l + 1)) by (nonlinear_arith)
            requires
                m + 1 == 2 * h,
                pow2(l + 1) == 2 * pow2(l),
        ;
        assert(h % 2 == 1);
        lemma_tz_odd_times_pow2(h, l + 1);
        lemma_tz_pos_even(io_parent(i));
    } else {
        assert(m >= 1);
        assert(i >= pow2(l)) by (nonlinear_arith)
            requires
                i == m * pow2(l),
                m >= 1,
        ;
        assert(io_parent(i) == i - pow2(l));
        assert(io_parent(i) == (m - 1) * pow2(l)) by (nonlinear_arith)
            requires
                i == m * pow2(l),
                io_parent(i) == i - pow2(l),
                m >= 1,
        ;
        let h = ((m - 1) / 2) as nat;
        assert((m - 1) * pow2(l) == h * pow2(l + 1)) by (nonlinear_arith)
            requires
                m - 1 == 2 * h,
                pow2(l + 1) == 2 * pow2(l),
        ;
        assert(h % 2 == 1);
        lemma_tz_odd_times_pow2(h, l + 1);
        lemma_tz_pos_even(io_parent(i));
    }
}

/// A number with at least one trailing zero is even.
proof fn lemma_tz_pos_even(n: nat)
    requires
        tz(n) > 0,
    ensures
        n % 2 == 0,
{
}

/// The law of in-order indices: a node above the leaves is the parent of both
/// of its children.
pub proof fn lemma_children_parent(i: nat)
    requires
        i > 0,
        i % 2 == 0,
    ensures
        io_parent(io_left(i)) == i,
        io_parent(io_right(i)) == i,
{
    let l = tz(i);
    lemma_tz_split(i);
    let m = i / pow2(l);
    assert(l >= 1) by {
        if l == 0 {
            vstd::arithmetic::power2::lemma2_to64();
        }
    }
    let l1 = (l - 1) as nat;
    vstd::arithmetic::power2::lemma_pow2_unfold(l);
    vstd::arithmetic::power2::lemma_pow2_pos(l1);
    let p1 = pow2(l1);
    assert(pow2(l) == 2 * p1);
    assert(i >= 2 * p1) by (nonlinear_arith)
        requires
            i == m * pow2(l),
            pow2(l) == 2 * p1,
            m >= 1,
    ;
    let left = (i - p1) as nat;
    let right = i + p1;
    assert(left == (2 * m - 1) * p1) by (nonlinear_arith)
        requires
            i == m * pow2(l),
            pow2(l) == 2 * p1,
            left == i - p1,
            m >= 1,
    ;
    assert(right == (2 * m + 1) * p1) by (nonlinear_arith)
        requires
            i == m * pow2(l),
            pow2(l) == 2 * p1,
            right == i + p1,
    ;
    lemma_tz_odd_times_pow2((2 * m - 1) as nat, l1);
    lemma_tz_odd_times_pow2(2 * m + 1, l1);
    assert(io_left(i) == left);
    assert(io_right(i) == right);
    assert(tz(left) == l1);
    assert(tz(right) == l1);
    assert(left / pow2(l) == m - 1) by {
        assert(left == (m - 1) * pow2(l) + p1) by (nonlinear_arith)
            requires
                left == (2 * m - 1) * p1,
                pow2(l) == 2 * p1,
                m >= 1,
        ;
        vstd::arithmetic::div_mod::lemma_fundamental_div_mod_converse(left as int, pow2(l) as int, (m - 1) as int, p1 as int);
    }
    assert(right / pow2(l) == m) by {
        assert(right == m * pow2(l) + p1) by (nonlinear_arith)
            requires
                right == (2 * m + 1) * p1,
                pow2(l) == 2 * p1,
        ;
        vstd::arithmetic::div_mod::lemma_fundamental_div_mod_converse(right as int, pow2(l) as int, m as int, p1 as int);
    }
    assert(l1 + 1 == l);
    assert(((m - 1) as nat) % 2 == 0);
    assert(io_parent(left) == left + p1);
    assert(io_parent(right) == (right - p1) as nat);
    assert(l1 + 1 == l);
}

/// The bytes that winter-utils writes for a machine word (its variable-length
/// form).
pub uninterp spec fn usize_encoding(v: nat) -> Seq<u8>;

/// The machine word that winter-utils reads from the start of `b`, if `b`
/// begins with one.
pub uninterp spec fn usize_decoding(b: Seq<u8>) -> Option<nat>;

/// `winter_utils::Serializable::to_bytes` on a `usize`: its bytes depend on the
/// value alone and are named `usize_encoding`.
#[verifier::external_body]
fn usize_to_bytes(v: usize) -> (r: Vec<u8>)
    ensures
        r@ == usize_encoding(v as nat),
{
    winter_utils::Serializable::to_bytes(&v)
}

/// `winter_utils::Deserializable::read_from_bytes` for a `usize`: it succeeds
/// exactly when the bytes begin with a whole value (what follows it is not
/// read), whose value is named `usize_decoding`;
/// which error it gives otherwise is not stated.
#[verifier::external_body]
fn usize_from_bytes(bytes: &[u8]) -> (r: Result<usize, DeserializationError>)
    ensures
        r matches Ok(v) ==> usize_decoding(bytes@) == Some(v as nat),
        r is Err ==> usize_decoding(bytes@) is None,
{
    match <usize as winter_utils::Deserializable>::read_from_bytes(bytes) {
        Ok(v) => Ok(v),
        Err(winter_utils::DeserializationError::InvalidValue(m)) => Err(DeserializationError::InvalidValue(m)),
        Err(winter_utils::DeserializationError::UnexpectedEOF) => Err(DeserializationError::UnexpectedEOF),
        Err(winter_utils::DeserializationError::UnconsumedBytes) => Err(DeserializationError::UnconsumedBytes),
        Err(winter_utils::DeserializationError::UnknownError(m)) => Err(DeserializationError::UnknownError(m)),
    }
}

impl InOrderIndex {
    /// The serialized form: the index as a variable-length machine word.
    pub fn to_bytes(&self) -> (r: Vec<u8>)
        ensures
            r@ == usize_encoding(self@),
    {
        proof {
            use_type_invariant(self);
        }
        usize_to_bytes(self.idx)
    }

    /// Appends the serialized form.
    pub fn write_into(&self, target: &mut Vec<u8>)
        ensures
            final(target)@ == old(target)@ + usize_encoding(self@),
    {
        let mut b = self.to_bytes();
        target.append(&mut b);
    }

    /// Reads an index from the whole of `bytes`; an index must be positive.
    pub fn read_from_bytes(bytes: &[u8]) -> (r: Result<Self, DeserializationError>)
        ensures
            usize_decoding(bytes@) is None ==> r is Err,
            usize_decoding(bytes@) matches Some(v) ==> (v > 0 <==> r is Ok),
            r matches Ok(i) ==> usize_decoding(bytes@) == Some(i@),
    {
        match usize_from_bytes(bytes) {
            Ok(v) => {
                if v == 0 {
                    Err(DeserializationError::InvalidValue(zero_index_message()))
                } else {
                    Ok(InOrderIndex { idx: v })
                }
            },
            Err(e) => Err(e),
        }
    }
}

/// The message of a decoding error for an index of zero.
fn zero_index_message() -> (r: String)
    ensures
        r@ == "an in-order index is positive"@,
{
    "an in-order index is positive".to_owned()
}

} // verus!
