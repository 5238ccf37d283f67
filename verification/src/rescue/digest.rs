//! The four-element digest produced by the RPO sponge, with its byte,
//! hexadecimal and integer conversions.

use vstd::prelude::*;
use vstd::string::StringSliceAdditionalSpecFns;
use crate::felt::{Felt, MODULUS, modulus, mont_spec, lemma_felt_view_eq, lemma_mont_cancel};
use crate::utils::bytes::{
    DeserializationError, SliceReader, le_bytes_spec, le_value, u64_from_le_bytes, u64_to_le_bytes,
    write_u64, lemma_le_roundtrip, lemma_le_bytes_of_value, lemma_pow256_8,
};
use crate::utils::hex::{HexParseError, bytes_to_hex_string, hex_string, hex_to_bytes, hex_to_bytes_spec};

verus! {

/// Field values of a word of four elements.
pub open spec fn word_seq(w: [Felt; 4]) -> Seq<nat> {
    Seq::new(4, |i: int| w[i]@)
}

/// The 32-byte encoding of a digest: each element as 8 little-endian bytes.
pub open spec fn digest_bytes_spec(v: Seq<nat>) -> Seq<u8> {
    le_bytes_spec(v[0], 8) + le_bytes_spec(v[1], 8) + le_bytes_spec(v[2], 8) + le_bytes_spec(v[3], 8)
}

/// The four 64-bit integers encoded little-endian by 32 bytes.
pub open spec fn words_of_bytes(b: Seq<u8>) -> Seq<nat> {
    Seq::new(4, |i: int| le_value(b.subrange(8 * i, 8 * i + 8)))
}

/// Whether every value of `v` is a canonical field value.
pub open spec fn all_canonical(v: Seq<nat>) -> bool {
    forall|i: int| 0 <= i < v.len() ==> #[trigger] v[i] < modulus()
}

/// The ordering key of a digest: the Montgomery forms of its elements, in order.
pub open spec fn dkey(v: Seq<nat>) -> ((u64, u64), (u64, u64)) {
    ((mont_spec(v[0]) as u64, mont_spec(v[1]) as u64), (mont_spec(v[2]) as u64, mont_spec(v[3]) as u64))
}

/// Why four field elements could not be read from a byte stream.
pub enum ReadFailure {
    /// The stream ended early.
    Eof,
    /// A value was not below the modulus.
    OutOfRange,
}

/// Reading `k` field elements at `pos`: each takes 8 bytes and must be canonical.
pub open spec fn read_felts_spec(data: Seq<u8>, pos: int, k: nat) -> Result<Seq<nat>, ReadFailure>
    decreases k,
{
    if k == 0 {
        Ok(Seq::empty())
    } else {
        match read_felts_spec(data, pos, (k - 1) as nat) {
            Err(e) => Err(e),
            Ok(s) => {
                let p = pos + 8 * (k - 1);
                if p + 8 > data.len() {
                    Err(ReadFailure::Eof)
                } else if le_value(data.subrange(p, p + 8)) >= modulus() {
                    Err(ReadFailure::OutOfRange)
                } else {
                    Ok(s.push(le_value(data.subrange(p, p + 8))))
                }
            },
        }
    }
}

/// Whether a read result agrees with the outcome of [`read_felts_spec`].
pub open spec fn read_matches(r: Result<Seq<nat>, DeserializationError>, s: Result<Seq<nat>, ReadFailure>) -> bool {
    match s {
        Ok(v) => r == Ok::<Seq<nat>, DeserializationError>(v),
        Err(ReadFailure::Eof) => r == Err::<Seq<nat>, DeserializationError>(DeserializationError::UnexpectedEOF),
        Err(ReadFailure::OutOfRange) => r matches Err(DeserializationError::InvalidValue(_)),
    }
}

/// The result of converting the integer `v` to a boolean: only 0 and 1 convert.
pub open spec fn small_fits(v: nat, bound: nat) -> bool {
    v < bound
}

/// Errors raised when converting a digest to or from other representations.
#[derive(Debug, Clone, PartialEq, Eq)]
pub enum RpoDigestError {
    /// An element does not fit in the named target type.
    TypeConversion(&'static str),
    /// An integer is not a canonical field element; the message comes from the field.
    InvalidFieldElement(String),
}

/// The message with which `TryFrom<u64>` for winter-math's base field element
/// refuses a value at or above the field modulus, in that crate's words.
#[verifier::external_body]
pub(crate) fn invalid_felt_message(value: u64) -> String {
    format!("invalid field element: value {value} is greater than or equal to the field modulus")
}

/// The message of a decoding error for a non-canonical element.
pub(crate) fn out_of_range_message() -> (r: String)
    ensures
        r@ == "value not in the appropriate range"@,
{
    "value not in the appropriate range".to_owned()
}

/// A digest of the RPO hash: four field elements.
#[derive(Debug, Clone, Copy)]
pub struct RpoDigest([Felt; 4]);

impl PartialEq for RpoDigest {
    fn eq(&self, other: &Self) -> (r: bool) {
        proof {
            lemma_rpo_digest_view_eq(*self, *other);
        }
        let r = self.0[0] == other.0[0] && self.0[1] == other.0[1] && self.0[2] == other.0[2] && self.0[3] == other.0[3];
        proof {
            if r {
                assert(self@ =~= other@);
            } else {
                assert(self@ != other@) by {
                    if self@ == other@ {
                        assert(self@[0] == other@[0] && self@[1] == other@[1] && self@[2] == other@[2] && self@[3] == other@[3]);
                    }
                }
            }
        }
        r
    }
}

impl vstd::std_specs::cmp::PartialEqSpecImpl for RpoDigest {
    open spec fn obeys_eq_spec() -> bool {
        true
    }

    open spec fn eq_spec(&self, other: &Self) -> bool {
        self@ == other@
    }
}

impl Eq for RpoDigest {
}

impl Default for RpoDigest {
    fn default() -> (r: Self)
        ensures
            r@ == seq![0nat, 0nat, 0nat, 0nat],
    {
        let r = RpoDigest([Felt::zero(), Felt::zero(), Felt::zero(), Felt::zero()]);
        assert(r@ =~= seq![0nat, 0nat, 0nat, 0nat]);
        r
    }
}

impl View for RpoDigest {
    type V = Seq<nat>;

    closed spec fn view(&self) -> Seq<nat> {
        word_seq(self.0)
    }
}

/// Digests with the same values are the same digest.
pub proof fn lemma_rpo_digest_view_eq(a: RpoDigest, b: RpoDigest)
    ensures
        a@ == b@ <==> a == b,
{
    if a@ == b@ {
        assert forall|i: int| 0 <= i < 4 implies a.0[i] == b.0[i] by {
            assert(a@[i] == b@[i]);
            lemma_felt_view_eq(a.0[i], b.0[i]);
        }
        assert(a.0 =~= b.0);
    }
}

impl RpoDigest {
    /// Number of bytes of a serialized digest.
    pub const SERIALIZED_SIZE: usize = 32;

    /// The digest made of `value`.
    pub fn new(value: [Felt; 4]) -> (r: Self)
        ensures
            r@ == word_seq(value),
    {
        RpoDigest(value)
    }

    /// The four elements.
    pub fn as_elements(&self) -> (r: &[Felt])
        ensures
            r@.len() == 4,
            forall|i: int| 0 <= i < 4 ==> #[trigger] r@[i]@ == self@[i],
    {
        self.0.as_slice()
    }

    /// The key by which digests are ordered.
    pub open spec fn store_key_spec(&self) -> ((u64, u64), (u64, u64)) {
        dkey(self@)
    }

    /// The key by which digests are ordered: the Montgomery forms of the elements.
    #[verifier::when_used_as_spec(store_key_spec)]
    pub fn store_key(&self) -> (r: ((u64, u64), (u64, u64)))
        ensures
            r == dkey(self@),
    {
        ((self.0[0].inner(), self.0[1].inner()), (self.0[2].inner(), self.0[3].inner()))
    }

    /// The digest whose ordering key is `k`.
    pub fn from_store_key(k: ((u64, u64), (u64, u64))) -> (r: Self)
        requires
            k.0.0 < MODULUS,
            k.0.1 < MODULUS,
            k.1.0 < MODULUS,
            k.1.1 < MODULUS,
        ensures
            dkey(r@) == k,
    {
        let r = RpoDigest([Felt::from_mont(k.0.0), Felt::from_mont(k.0.1), Felt::from_mont(k.1.0), Felt::from_mont(k.1.1)]);
        proof {
            vstd::arithmetic::div_mod::lemma_small_mod(k.0.0 as nat, modulus());
            vstd::arithmetic::div_mod::lemma_small_mod(k.0.1 as nat, modulus());
            vstd::arithmetic::div_mod::lemma_small_mod(k.1.0 as nat, modulus());
            vstd::arithmetic::div_mod::lemma_small_mod(k.1.1 as nat, modulus());
        }
        r
    }

    /// The four elements, by value.
    pub fn to_felts(&self) -> (r: [Felt; 4])
        ensures
            word_seq(r) == self@,
    {
        self.0
    }

    /// The integer values of the four elements.
    pub fn to_u64s(&self) -> (r: [u64; 4])
        ensures
            forall|i: int| 0 <= i < 4 ==> #[trigger] r[i] as nat == self@[i],
    {
        [self.0[0].as_int(), self.0[1].as_int(), self.0[2].as_int(), self.0[3].as_int()]
    }

    /// The 32-byte little-endian encoding of the four elements.
    pub fn as_bytes(&self) -> (r: [u8; 32])
        ensures
            r@ == digest_bytes_spec(self@),
    {
        let mut result = [0u8; 32];
        let mut k: usize = 0;
        while k < 4
            invariant
                0 <= k <= 4,
                forall|j: int| 0 <= j < k ==> #[trigger] result@.subrange(8 * j, 8 * j + 8) == le_bytes_spec(self@[j], 8),
            decreases 4 - k,
        {
            let b = u64_to_le_bytes(self.0[k].as_int());
            let ghost before = result@;
            let mut i: usize = 0;
            while i < 8
                invariant
                    0 <= i <= 8,
                    0 <= k < 4,
                    b@ == le_bytes_spec(self@[k as int], 8),
                    forall|t: int| 0 <= t < 32 && !(8 * k <= t < 8 * k + i) ==> #[trigger] result@[t] == before[t],
                    forall|t: int| 8 * k <= t < 8 * k + i ==> #[trigger] result@[t] == b@[t - 8 * k],
                decreases 8 - i,
            {
                result[8 * k + i] = b[i];
                i = i + 1;
            }
            proof {
                assert(result@.subrange(8 * k, 8 * k + 8) =~= b@);
                assert forall|j: int| 0 <= j < k + 1 implies #[trigger] result@.subrange(8 * j, 8 * j + 8) == le_bytes_spec(self@[j], 8) by {
                    if j < k {
                        assert(result@.subrange(8 * j, 8 * j + 8) =~= before.subrange(8 * j, 8 * j + 8));
                    }
                }
            }
            k = k + 1;
        }
        proof {
            assert(result@ =~= result@.subrange(0, 8) + result@.subrange(8, 16) + result@.subrange(16, 24) + result@.subrange(24, 32));
            assert(result@.subrange(8 * 0int, 8 * 0int + 8) == le_bytes_spec(self@[0], 8));
            assert(result@.subrange(8 * 1int, 8 * 1int + 8) == le_bytes_spec(self@[1], 8));
            assert(result@.subrange(8 * 2int, 8 * 2int + 8) == le_bytes_spec(self@[2], 8));
            assert(result@.subrange(8 * 3int, 8 * 3int + 8) == le_bytes_spec(self@[3], 8));
        }
        result
    }

    /// The `0x`-prefixed hexadecimal text of the byte encoding.
    pub fn to_hex(&self) -> (r: String)
        ensures
            r@ == hex_string(digest_bytes_spec(self@)),
    {
        let bytes = self.as_bytes();
        bytes_to_hex_string(bytes.as_slice())
    }

    /// The digest whose elements are the booleans `value` (`false` is 0, `true` is 1).
    pub fn from_bools(value: [bool; 4]) -> (r: Self)
        ensures
            forall|i: int| 0 <= i < 4 ==> #[trigger] r@[i] == (if value[i] { 1nat } else { 0nat }),
    {
        let mut e = [Felt::zero(); 4];
        let mut i: usize = 0;
        while i < 4
            invariant
                0 <= i <= 4,
                forall|j: int| 0 <= j < i ==> #[trigger] e[j]@ == (if value[j] { 1nat } else { 0nat }),
            decreases 4 - i,
        {
            e[i] = if value[i] { Felt::one() } else { Felt::zero() };
            i = i + 1;
        }
        RpoDigest(e)
    }

    /// The digest whose elements are the bytes `value`.
    pub fn from_u8s(value: [u8; 4]) -> (r: Self)
        ensures
            forall|i: int| 0 <= i < 4 ==> #[trigger] r@[i] == value[i] as nat,
    {
        RpoDigest([Felt::new(value[0] as u64), Felt::new(value[1] as u64), Felt::new(value[2] as u64), Felt::new(value[3] as u64)])
    }

    /// The digest whose elements are the 16-bit integers `value`.
    pub fn from_u16s(value: [u16; 4]) -> (r: Self)
        ensures
            forall|i: int| 0 <= i < 4 ==> #[trigger] r@[i] == value[i] as nat,
    {
        RpoDigest([Felt::new(value[0] as u64), Felt::new(value[1] as u64), Felt::new(value[2] as u64), Felt::new(value[3] as u64)])
    }

    /// The digest whose elements are the 32-bit integers `value`.
    pub fn from_u32s(value: [u32; 4]) -> (r: Self)
        ensures
            forall|i: int| 0 <= i < 4 ==> #[trigger] r@[i] == value[i] as nat,
    {
        RpoDigest([Felt::new(value[0] as u64), Felt::new(value[1] as u64), Felt::new(value[2] as u64), Felt::new(value[3] as u64)])
    }

    /// The digest whose elements are the integers `value`, each of which must be below
    /// the modulus; the first that is not is reported.
    pub fn try_from_u64s(value: [u64; 4]) -> (r: Result<Self, RpoDigestError>)
        ensures
            r is Ok <==> (forall|i: int| 0 <= i < 4 ==> #[trigger] value[i] < MODULUS),
            r matches Ok(d) ==> (forall|i: int| 0 <= i < 4 ==> #[trigger] d@[i] == value[i] as nat),
            r matches Err(e) ==> e is InvalidFieldElement,
    {
        let mut e = [Felt::zero(); 4];
        let mut i: usize = 0;
        while i < 4
            invariant
                0 <= i <= 4,
                forall|j: int| 0 <= j < i ==> #[trigger] value[j] < MODULUS,
                forall|j: int| 0 <= j < i ==> #[trigger] e[j]@ == value[j] as nat,
            decreases 4 - i,
        {
            if value[i] >= MODULUS {
                return Err(RpoDigestError::InvalidFieldElement(invalid_felt_message(value[i])));
            }
            e[i] = Felt::new(value[i]);
            i = i + 1;
        }
        Ok(RpoDigest(e))
    }

    /// The elements as booleans; fails unless every element is 0 or 1.
    pub fn to_bools(&self) -> (r: Result<[bool; 4], RpoDigestError>)
        ensures
            r is Ok <==> (forall|i: int| 0 <= i < 4 ==> #[trigger] self@[i] <= 1),
            r matches Ok(b) ==> (forall|i: int| 0 <= i < 4 ==> #[trigger] b[i] == (self@[i] == 1)),
            r matches Err(e) ==> e == RpoDigestError::TypeConversion("bool"),
    {
        let mut b = [false; 4];
        let mut i: usize = 0;
        while i < 4
            invariant
                0 <= i <= 4,
                forall|j: int| 0 <= j < i ==> #[trigger] self@[j] <= 1,
                forall|j: int| 0 <= j < i ==> #[trigger] b[j] == (self@[j] == 1),
            decreases 4 - i,
        {
            let v = self.0[i].as_int();
            assert(self@[i as int] == v);
            if v > 1 {
                return Err(RpoDigestError::TypeConversion("bool"));
            }
            b[i] = v == 1;
            i = i + 1;
        }
        Ok(b)
    }

    /// The elements as bytes; fails unless every element is below 2^8.
    pub fn to_u8s(&self) -> (r: Result<[u8; 4], RpoDigestError>)
        ensures
            r is Ok <==> (forall|i: int| 0 <= i < 4 ==> #[trigger] self@[i] < 0x100),
            r matches Ok(b) ==> (forall|i: int| 0 <= i < 4 ==> #[trigger] b[i] as nat == self@[i]),
            r matches Err(e) ==> e == RpoDigestError::TypeConversion("u8"),
    {
        let mut b = [0u8; 4];
        let mut i: usize = 0;
        while i < 4
            invariant
                0 <= i <= 4,
                forall|j: int| 0 <= j < i ==> #[trigger] self@[j] < 0x100,
                forall|j: int| 0 <= j < i ==> #[trigger] b[j] as nat == self@[j],
            decreases 4 - i,
        {
            let v = self.0[i].as_int();
            assert(self@[i as int] == v);
            if v >= 0x100 {
                return Err(RpoDigestError::TypeConversion("u8"));
            }
            b[i] = v as u8;
            i = i + 1;
        }
        Ok(b)
    }

    /// The elements as 16-bit integers; fails unless every element is below 2^16.
    pub fn to_u16s(&self) -> (r: Result<[u16; 4], RpoDigestError>)
        ensures
            r is Ok <==> (forall|i: int| 0 <= i < 4 ==> #[trigger] self@[i] < 0x10000),
            r matches Ok(b) ==> (forall|i: int| 0 <= i < 4 ==> #[trigger] b[i] as nat == self@[i]),
            r matches Err(e) ==> e == RpoDigestError::TypeConversion("u16"),
    {
        let mut b = [0u16; 4];
        let mut i: usize = 0;
        while i < 4
            invariant
                0 <= i <= 4,
                forall|j: int| 0 <= j < i ==> #[trigger] self@[j] < 0x10000,
                forall|j: int| 0 <= j < i ==> #[trigger] b[j] as nat == self@[j],
            decreases 4 - i,
        {
            let v = self.0[i].as_int();
            assert(self@[i as int] == v);
            if v >= 0x10000 {
                return Err(RpoDigestError::TypeConversion("u16"));
            }
            b[i] = v as u16;
            i = i + 1;
        }
        Ok(b)
    }

    /// The elements as 32-bit integers; fails unless every element is below 2^32.
    pub fn to_u32s(&self) -> (r: Result<[u32; 4], RpoDigestError>)
        ensures
            r is Ok <==> (forall|i: int| 0 <= i < 4 ==> #[trigger] self@[i] < 0x1_0000_0000),
            r matches Ok(b) ==> (forall|i: int| 0 <= i < 4 ==> #[trigger] b[i] as nat == self@[i]),
            r matches Err(e) ==> e == RpoDigestError::TypeConversion("u32"),
    {
        let mut b = [0u32; 4];
        let mut i: usize = 0;
        while i < 4
            invariant
                0 <= i <= 4,
                forall|j: int| 0 <= j < i ==> #[trigger] self@[j] < 0x1_0000_0000,
                forall|j: int| 0 <= j < i ==> #[trigger] b[j] as nat == self@[j],
            decreases 4 - i,
        {
            let v = self.0[i].as_int();
            assert(self@[i as int] == v);
            if v >= 0x1_0000_0000 {
                return Err(RpoDigestError::TypeConversion("u32"));
            }
            b[i] = v as u32;
            i = i + 1;
        }
        Ok(b)
    }

    /// Decodes 32 bytes: four little-endian integers, each of which must be below the modulus.
    pub fn try_from_bytes(value: [u8; 32]) -> (r: Result<Self, HexParseError>)
        ensures
            r is Ok <==> all_canonical(words_of_bytes(value@)),
            r matches Ok(d) ==> d@ == words_of_bytes(value@),
            r matches Err(e) ==> e == HexParseError::OutOfRange,
    {
        let mut w = [0u64; 4];
        let mut i: usize = 0;
        while i < 4
            invariant
                0 <= i <= 4,
                forall|j: int| 0 <= j < i ==> #[trigger] w[j] as nat == words_of_bytes(value@)[j],
            decreases 4 - i,
        {
            w[i] = u64_from_le_bytes(value.as_slice(), 8 * i);
            i = i + 1;
        }
        let mut e = [Felt::zero(); 4];
        let mut k: usize = 0;
        while k < 4
            invariant
                0 <= k <= 4,
                forall|j: int| 0 <= j < 4 ==> #[trigger] w[j] as nat == words_of_bytes(value@)[j],
                forall|j: int| 0 <= j < k ==> #[trigger] w[j] < MODULUS,
                forall|j: int| 0 <= j < k ==> #[trigger] e[j]@ == w[j] as nat,
            decreases 4 - k,
        {
            if w[k] >= MODULUS {
                assert(!(words_of_bytes(value@)[k as int] < modulus()));
                return Err(HexParseError::OutOfRange);
            }
            e[k] = Felt::new(w[k]);
            k = k + 1;
        }
        let d = RpoDigest(e);
        assert(d@ =~= words_of_bytes(value@));
        Ok(d)
    }

    /// Parses the `0x`-prefixed hexadecimal text of the 32-byte encoding.
    pub fn try_from_hex(value: &str) -> (r: Result<Self, HexParseError>)
        ensures
            match hex_to_bytes_spec(value.spec_bytes(), 32) {
                Err(e) => r == Err::<Self, HexParseError>(e),
                Ok(b) => {
                    &&& (r is Ok <==> all_canonical(words_of_bytes(b)))
                    &&& (r matches Ok(d) ==> d@ == words_of_bytes(b))
                    &&& (r matches Err(e) ==> e == HexParseError::OutOfRange)
                },
            },
    {
        match hex_to_bytes(value, 32) {
            Err(e) => Err(e),
            Ok(v) => {
                let mut arr = [0u8; 32];
                let mut i: usize = 0;
                while i < 32
                    invariant
                        0 <= i <= 32,
                        v@.len() == 32,
                        forall|j: int| 0 <= j < i ==> #[trigger] arr@[j] == v@[j],
                    decreases 32 - i,
                {
                    arr[i] = v[i];
                    i = i + 1;
                }
                assert(arr@ =~= v@);
                Self::try_from_bytes(arr)
            },
        }
    }

    /// Builds a digest from 32 random bytes, when they encode canonical elements.
    pub fn from_random_bytes(source: &[u8]) -> (r: Option<Self>)
        ensures
            r is Some <==> (source@.len() == 32 && all_canonical(words_of_bytes(source@))),
            r matches Some(d) ==> d@ == words_of_bytes(source@),
    {
        if source.len() != 32 {
            return None;
        }
        let mut arr = [0u8; 32];
        let mut i: usize = 0;
        while i < 32
            invariant
                0 <= i <= 32,
                source@.len() == 32,
                forall|j: int| 0 <= j < i ==> #[trigger] arr@[j] == source@[j],
            decreases 32 - i,
        {
            arr[i] = source[i];
            i = i + 1;
        }
        assert(arr@ =~= source@);
        match Self::try_from_bytes(arr) {
            Ok(d) => Some(d),
            Err(_) => None,
        }
    }

    /// Appends the 32-byte encoding.
    pub fn write_into(&self, target: &mut Vec<u8>)
        ensures
            final(target)@ == old(target)@ + digest_bytes_spec(self@),
    {
        write_u64(target, self.0[0].as_int());
        write_u64(target, self.0[1].as_int());
        write_u64(target, self.0[2].as_int());
        write_u64(target, self.0[3].as_int());
        assert(final(target)@ =~= old(target)@ + digest_bytes_spec(self@));
    }

    /// Number of bytes [`write_into`](Self::write_into) appends.
    pub fn get_size_hint(&self) -> (r: usize)
        ensures
            r == 32,
    {
        Self::SERIALIZED_SIZE
    }

    /// Reads four little-endian elements, each of which must be below the modulus.
    pub fn read_from(source: &mut SliceReader) -> (r: Result<Self, DeserializationError>)
        requires
            old(source).wf(),
        ensures
            final(source).wf(),
            final(source).data() == old(source).data(),
            read_matches(
                match r { Ok(d) => Ok(d@), Err(e) => Err(e) },
                read_felts_spec(old(source).data(), old(source).position() as int, 4),
            ),
            r is Ok ==> final(source).position() == old(source).position() + 32,
    {
        let ghost data = source.data();
        let ghost pos = source.position() as int;
        let mut e = [Felt::zero(); 4];
        let mut i: usize = 0;
        assert(Seq::new(0, |j: int| e[j]@) =~= Seq::<nat>::empty());
        while i < 4
            invariant
                0 <= i <= 4,
                source.wf(),
                data == old(source).data(),
                pos == old(source).position() as int,
                source.data() == data,
                source.position() == pos + 8 * i,
                read_felts_spec(data, pos, i as nat) == Ok::<Seq<nat>, ReadFailure>(Seq::new(i as nat, |j: int| e[j]@)),
            decreases 4 - i,
        {
            let ghost prev = Seq::new(i as nat, |j: int| e[j]@);
            let v = match source.read_u64() {
                Ok(v) => v,
                Err(err) => {
                    assert(read_felts_spec(data, pos, (i + 1) as nat) == Err::<Seq<nat>, ReadFailure>(ReadFailure::Eof));
                    proof { lemma_read_felts_err_stays(data, pos, (i + 1) as nat, 4); }
                    return Err(err);
                },
            };
            if v >= MODULUS {
                assert(read_felts_spec(data, pos, (i + 1) as nat) == Err::<Seq<nat>, ReadFailure>(ReadFailure::OutOfRange));
                proof { lemma_read_felts_err_stays(data, pos, (i + 1) as nat, 4); }
                return Err(DeserializationError::InvalidValue(out_of_range_message()));
            }
            e[i] = Felt::new(v);
            proof {
                assert(Seq::new((i + 1) as nat, |j: int| e[j]@) =~= prev.push(v as nat));
            }
            i = i + 1;
        }
        let d = RpoDigest(e);
        assert(d@ =~= Seq::new(4, |j: int| e[j]@));
        Ok(d)
    }

    /// The elements of `digests`, four per digest, in order.
    pub fn digests_as_elements(digests: &[Self]) -> (r: Vec<Felt>)
        requires
            digests@.len() * 4 <= usize::MAX,
        ensures
            r@.len() == 4 * digests@.len(),
            forall|i: int, j: int| 0 <= i < digests@.len() && 0 <= j < 4 ==> #[trigger] r@[4 * i + j]@ == digests@[i]@[j],
    {
        let mut r: Vec<Felt> = Vec::new();
        let mut i: usize = 0;
        while i < digests.len()
            invariant
                0 <= i <= digests@.len(),
                r@.len() == 4 * i,
                forall|a: int, j: int| 0 <= a < i && 0 <= j < 4 ==> #[trigger] r@[4 * a + j]@ == digests@[a]@[j],
            decreases digests@.len() - i,
        {
            let d = digests[i];
            let mut j: usize = 0;
            while j < 4
                invariant
                    0 <= j <= 4,
                    0 <= i < digests@.len(),
                    d == digests@[i as int],
                    r@.len() == 4 * i + j,
                    forall|a: int, b: int| 0 <= a < i && 0 <= b < 4 ==> #[trigger] r@[4 * a + b]@ == digests@[a]@[b],
                    forall|b: int| 0 <= b < j ==> #[trigger] r@[4 * i + b]@ == d@[b],
                decreases 4 - j,
            {
                r.push(d.0[j]);
                j = j + 1;
            }
            i = i + 1;
        }
        r
    }

    /// The elements of `digests` as a sequence; the same as
    /// [`digests_as_elements`](Self::digests_as_elements).
    pub fn digests_as_elements_iter(digests: &[Self]) -> (r: Vec<Felt>)
        requires
            digests@.len() * 4 <= usize::MAX,
        ensures
            r@.len() == 4 * digests@.len(),
            forall|i: int, j: int| 0 <= i < digests@.len() && 0 <= j < 4 ==> #[trigger] r@[4 * i + j]@ == digests@[i]@[j],
    {
        Self::digests_as_elements(digests)
    }
}

/// Once reading fails it stays failed with the same reason.
pub proof fn lemma_read_felts_err_stays(data: Seq<u8>, pos: int, k: nat, m: nat)
    requires
        k <= m,
        read_felts_spec(data, pos, k) is Err,
    ensures
        read_felts_spec(data, pos, m) == read_felts_spec(data, pos, k),
    decreases m - k,
{
    if k < m {
        lemma_read_felts_err_stays(data, pos, k, (m - 1) as nat);
    }
}

} // verus!
