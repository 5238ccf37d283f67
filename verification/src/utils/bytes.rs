//! Little-endian byte encoding of integers, and a reader over a byte slice.

use vstd::prelude::*;

verus! {

/// The `n` least significant base-256 digits of `v`, least significant first.
pub open spec fn le_bytes_spec(v: nat, n: nat) -> Seq<u8>
    decreases n,
{
    if n == 0 {
        Seq::empty()
    } else {
        seq![(v % 256) as u8] + le_bytes_spec(v / 256, (n - 1) as nat)
    }
}

/// The integer whose little-endian base-256 digits are `s`.
pub open spec fn le_value(s: Seq<u8>) -> nat
    decreases s.len(),
{
    if s.len() == 0 {
        0
    } else {
        s[0] as nat + 256 * le_value(s.drop_first())
    }
}

/// `256^n`.
pub open spec fn pow256(n: nat) -> nat
    decreases n,
{
    if n == 0 { 1 } else { 256 * pow256((n - 1) as nat) }
}

/// Encoding then decoding gives back every value below `256^n`.
pub proof fn lemma_le_roundtrip(v: nat, n: nat)
    requires
        v < pow256(n),
    ensures
        le_value(le_bytes_spec(v, n)) == v,
        le_bytes_spec(v, n).len() == n,
    decreases n,
{
    if n > 0 {
        lemma_le_roundtrip(v / 256, (n - 1) as nat);
        let s = le_bytes_spec(v, n);
        assert(s.drop_first() =~= le_bytes_spec(v / 256, (n - 1) as nat));
    }
}

/// The encoding has `n` bytes.
pub proof fn lemma_le_bytes_len(v: nat, n: nat)
    ensures
        le_bytes_spec(v, n).len() == n,
    decreases n,
{
    if n > 0 {
        lemma_le_bytes_len(v / 256, (n - 1) as nat);
    }
}

/// Decoded values of `n` bytes are below `256^n`.
pub proof fn lemma_le_value_bound(s: Seq<u8>)
    ensures
        le_value(s) < pow256(s.len()),
    decreases s.len(),
{
    if s.len() > 0 {
        lemma_le_value_bound(s.drop_first());
        assert(le_value(s) < pow256(s.len())) by (nonlinear_arith)
            requires
                le_value(s) == s[0] as nat + 256 * le_value(s.drop_first()),
                le_value(s.drop_first()) < pow256(s.drop_first().len()),
                pow256(s.len()) == 256 * pow256(s.drop_first().len()),
                s[0] < 256,
        ;
    }
}

/// Decoding then encoding gives back every byte string.
pub proof fn lemma_le_bytes_of_value(s: Seq<u8>)
    ensures
        le_bytes_spec(le_value(s), s.len()) == s,
    decreases s.len(),
{
    if s.len() > 0 {
        lemma_le_bytes_of_value(s.drop_first());
        let v = le_value(s);
        assert(v % 256 == s[0] as nat && v / 256 == le_value(s.drop_first())) by {
            vstd::arithmetic::div_mod::lemma_fundamental_div_mod_converse(
                v as int, 256, le_value(s.drop_first()) as int, s[0] as int);
        }
        assert(le_bytes_spec(v, s.len()) =~= s);
    }
}

/// `2^64 == 256^8`.
pub proof fn lemma_pow256_8()
    ensures
        pow256(8) == 0x1_0000_0000_0000_0000,
{
    reveal_with_fuel(pow256, 9);
}

/// The little-endian bytes of a 64-bit integer (`u64::to_le_bytes`).
pub fn u64_to_le_bytes(v: u64) -> (r: [u8; 8])
    ensures
        r@ == le_bytes_spec(v as nat, 8),
{
    let mut r = [0u8; 8];
    let mut x = v;
    let mut i: usize = 0;
    while i < 8
        invariant
            0 <= i <= 8,
            r@.subrange(0, i as int) + le_bytes_spec(x as nat, (8 - i) as nat) == le_bytes_spec(v as nat, 8),
        decreases 8 - i,
    {
        let ghost old_r = r@;
        r[i] = (x % 256) as u8;
        proof {
            let rest = le_bytes_spec((x / 256) as nat, (8 - i - 1) as nat);
            assert(le_bytes_spec(x as nat, (8 - i) as nat) == seq![(x % 256) as u8] + rest);
            assert(r@.subrange(0, i + 1) =~= old_r.subrange(0, i as int) + seq![(x % 256) as u8]);
            assert(r@.subrange(0, i + 1) + rest =~= old_r.subrange(0, i as int) + le_bytes_spec(x as nat, (8 - i) as nat));
        }
        x = x / 256;
        i = i + 1;
    }
    assert(r@.subrange(0, 8) =~= r@);
    assert(le_bytes_spec(x as nat, 0) =~= Seq::<u8>::empty());
    assert(r@ =~= le_bytes_spec(v as nat, 8));
    r
}

/// The 64-bit integer whose little-endian bytes are `b[start..start + 8]` (`u64::from_le_bytes`).
pub fn u64_from_le_bytes(b: &[u8], start: usize) -> (r: u64)
    requires
        start + 8 <= b@.len(),
    ensures
        r as nat == le_value(b@.subrange(start as int, start + 8)),
{
    let mut v: u64 = 0;
    let mut i: usize = 8;
    proof {
        lemma_pow256_8();
    }
    while i > 0
        invariant
            0 <= i <= 8,
            start + 8 <= b@.len(),
            b@.len() == b.len(),
            pow256(8) == 0x1_0000_0000_0000_0000,
            v as nat == le_value(b@.subrange(start + i, start + 8)),
        decreases i,
    {
        let ghost tail = b@.subrange(start + i, start + 8);
        let ghost s = b@.subrange(start + i - 1, start + 8);
        proof {
            assert(s.drop_first() =~= tail);
            lemma_le_value_bound(s);
            reveal_with_fuel(pow256, 9);
            assert(pow256(s.len()) <= pow256(8)) by {
                lemma_pow256_monotone(s.len(), 8);
            }
            assert(le_value(s) == s[0] as nat + 256 * le_value(s.drop_first()));
            assert(s[0] == b@[start + i - 1]);
            assert(le_value(s) < pow256(8));
            assert(v as nat * 256 + b@[start + i - 1] as nat == le_value(s));
        }
        let byte = b[start + (i - 1)];
        v = v * 256 + byte as u64;
        i = i - 1;
    }
    assert(b@.subrange(start + 0, start + 8) =~= b@.subrange(start as int, start + 8));
    v
}

/// `256^n` grows with `n`.
pub proof fn lemma_pow256_monotone(a: nat, b: nat)
    requires
        a <= b,
    ensures
        pow256(a) <= pow256(b),
    decreases b,
{
    if a < b {
        lemma_pow256_monotone(a, (b - 1) as nat);
    }
}

/// Errors raised when bytes do not decode into a value.
#[derive(Debug, Clone, PartialEq, Eq)]
pub enum DeserializationError {
    /// The bytes do not represent a valid value.
    InvalidValue(String),
    /// The input ended before a value was complete.
    UnexpectedEOF,
    /// Not all input bytes were consumed.
    UnconsumedBytes,
    /// Another error.
    UnknownError(String),
}

/// Appends the little-endian bytes of `v`.
pub fn write_u64(target: &mut Vec<u8>, v: u64)
    ensures
        final(target)@ == old(target)@ + le_bytes_spec(v as nat, 8),
{
    let b = u64_to_le_bytes(v);
    let mut i: usize = 0;
    let ghost start = target@;
    while i < 8
        invariant
            0 <= i <= 8,
            b@ == le_bytes_spec(v as nat, 8),
            target@ == start + b@.subrange(0, i as int),
        decreases 8 - i,
    {
        target.push(b[i]);
        proof {
            assert(b@.subrange(0, i + 1) =~= b@.subrange(0, i as int).push(b[i as int]));
        }
        i = i + 1;
    }
    assert(b@.subrange(0, 8) =~= b@);
}

/// Appends one byte.
pub fn write_u8(target: &mut Vec<u8>, v: u8)
    ensures
        final(target)@ == old(target)@.push(v),
{
    target.push(v);
}

/// A cursor over a byte slice.
pub struct SliceReader<'a> {
    source: &'a [u8],
    pos: usize,
}

impl<'a> SliceReader<'a> {
    /// The bytes being read.
    pub closed spec fn data(&self) -> Seq<u8> {
        self.source@
    }

    /// The number of bytes already consumed.
    pub closed spec fn position(&self) -> nat {
        self.pos as nat
    }

    /// The reader is within its input.
    pub closed spec fn wf(&self) -> bool {
        self.pos <= self.source@.len()
    }

    /// A well-formed reader is within its input.
    pub proof fn lemma_position_bound(&self)
        requires
            self.wf(),
        ensures
            self.position() <= self.data().len(),
    {
    }

    /// A reader at the start of `source`.
    pub fn new(source: &'a [u8]) -> (r: Self)
        ensures
            r.wf(),
            r.data() == source@,
            r.position() == 0,
    {
        SliceReader { source, pos: 0 }
    }

    /// Whether unread bytes remain.
    pub fn has_more_bytes(&self) -> (r: bool)
        requires
            self.wf(),
        ensures
            r == (self.position() < self.data().len()),
    {
        self.pos < self.source.len()
    }

    /// Reads one byte.
    pub fn read_u8(&mut self) -> (r: Result<u8, DeserializationError>)
        requires
            old(self).wf(),
        ensures
            final(self).wf(),
            final(self).data() == old(self).data(),
            old(self).position() + 1 <= old(self).data().len() ==> {
                &&& r == Ok::<u8, DeserializationError>(old(self).data()[old(self).position() as int])
                &&& final(self).position() == old(self).position() + 1
            },
            old(self).position() + 1 > old(self).data().len() ==> {
                &&& r == Err::<u8, DeserializationError>(DeserializationError::UnexpectedEOF)
                &&& final(self).position() == old(self).position()
            },
    {
        if self.pos >= self.source.len() {
            return Err(DeserializationError::UnexpectedEOF);
        }
        let b = self.source[self.pos];
        self.pos = self.pos + 1;
        Ok(b)
    }

    /// Reads a little-endian 64-bit integer.
    pub fn read_u64(&mut self) -> (r: Result<u64, DeserializationError>)
        requires
            old(self).wf(),
        ensures
            final(self).wf(),
            final(self).data() == old(self).data(),
            old(self).position() + 8 <= old(self).data().len() ==> {
                &&& r matches Ok(v) && v as nat == le_value(old(self).data().subrange(old(self).position() as int, old(self).position() + 8int))
                &&& final(self).position() == old(self).position() + 8
            },
            old(self).position() + 8 > old(self).data().len() ==> {
                &&& r == Err::<u64, DeserializationError>(DeserializationError::UnexpectedEOF)
                &&& final(self).position() == old(self).position()
            },
    {
        if self.source.len() - self.pos < 8 {
            return Err(DeserializationError::UnexpectedEOF);
        }
        let v = u64_from_le_bytes(self.source, self.pos);
        self.pos = self.pos + 8;
        Ok(v)
    }
}

/// The little-endian bytes of a 32-bit integer (`u32::to_le_bytes`).
pub fn u32_to_le_bytes(v: u32) -> (r: [u8; 4])
    ensures
        r@ == le_bytes_spec(v as nat, 4),
{
    let w = u64_to_le_bytes(v as u64);
    let r = [w[0], w[1], w[2], w[3]];
    proof {
        assert(pow256(4) == 0x1_0000_0000) by {
            reveal_with_fuel(pow256, 5);
        }
        lemma_le_bytes_concat(v as nat, 0, 4, 4);
        assert(r@ =~= le_bytes_spec(v as nat, 8).subrange(0, 4));
        lemma_le_bytes_len(v as nat, 4);
        lemma_le_bytes_len(0, 4);
    }
    r
}

/// The bytes of `lo + hi * 256^a` are the `a` bytes of `lo < 256^a`, then those of `hi`.
pub proof fn lemma_le_bytes_concat(lo: nat, hi: nat, a: nat, b: nat)
    requires
        lo < pow256(a),
    ensures
        le_bytes_spec(lo + hi * pow256(a), a + b) == le_bytes_spec(lo, a) + le_bytes_spec(hi, b),
    decreases a,
{
    if a == 0 {
        assert(le_bytes_spec(lo, 0) =~= Seq::<u8>::empty());
        assert(hi * pow256(0) == hi);
        assert(lo == 0);
        assert(le_bytes_spec(hi, b) =~= le_bytes_spec(lo, a) + le_bytes_spec(hi, b));
    } else {
        let a1 = (a - 1) as nat;
        let x = lo + hi * pow256(a);
        assert(hi * pow256(a) == 256 * (hi * pow256(a1))) by (nonlinear_arith)
            requires
                pow256(a) == 256 * pow256(a1),
        ;
        assert(x % 256 == lo % 256 && x / 256 == lo / 256 + hi * pow256(a1)) by {
            vstd::arithmetic::div_mod::lemma_fundamental_div_mod(lo as int, 256);
            vstd::arithmetic::div_mod::lemma_fundamental_div_mod_converse(
                x as int, 256, (lo / 256 + hi * pow256(a1)) as int, (lo % 256) as int);
        }
        assert(lo / 256 < pow256(a1)) by {
            vstd::arithmetic::div_mod::lemma_div_by_multiple_is_strongly_ordered(lo as int, pow256(a) as int, pow256(a1) as int, 256);
            assert(pow256(a) == pow256(a1) * 256);
            vstd::arithmetic::div_mod::lemma_div_multiples_vanish(pow256(a1) as int, 256);
            assert((pow256(a1) * 256) / 256 == pow256(a1)) by (nonlinear_arith);
        }
        lemma_le_bytes_concat(lo / 256, hi, a1, b);
        assert(a1 + b + 1 == a + b);
        assert(le_bytes_spec(x, a + b) =~= le_bytes_spec(lo, a) + le_bytes_spec(hi, b));
    }
}

} // verus!
