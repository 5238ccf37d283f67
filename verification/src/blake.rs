//! BLAKE3 hashing with 256-, 192- and 160-bit digests: the framing of digests,
//! integers and field elements into the bytes that BLAKE3 hashes.

use vstd::prelude::*;
use vstd::string::StringSliceAdditionalSpecFns;
use crate::felt::Felt;
use crate::utils::bytes::{DeserializationError, SliceReader, le_bytes_spec, u64_to_le_bytes};
use crate::utils::hex::{HexParseError, bytes_to_hex_string, hex_string, hex_to_bytes, hex_to_bytes_spec};

verus! {

/// The 32-byte BLAKE3 hash of `data`.
pub uninterp spec fn blake3_hash_spec(data: Seq<u8>) -> Seq<u8>;

/// `blake3::hash`: the 32-byte BLAKE3 hash of `data`, a function of the bytes alone.
#[verifier::external_body]
fn blake3_hash(data: &[u8]) -> (r: [u8; 32])
    ensures
        r@ == blake3_hash_spec(data@),
{
    blake3::hash(data).into()
}

/// The little-endian bytes of the integer values of `elements`, eight per element.
pub open spec fn felts_le_bytes(elements: Seq<Felt>) -> Seq<u8>
    decreases elements.len(),
{
    if elements.len() == 0 {
        Seq::empty()
    } else {
        le_bytes_spec(elements[0]@, 8) + felts_le_bytes(elements.drop_first())
    }
}

/// A digest is the first `n` bytes of the hash.
pub open spec fn truncated_hash(data: Seq<u8>, n: nat) -> Seq<u8> {
    blake3_hash_spec(data).take(n as int)
}

/// The bytes of a digest padded with zeros to 32 bytes.
pub open spec fn expanded(v: Seq<u8>) -> Seq<u8> {
    Seq::new(32, |i: int| if i < v.len() { v[i] } else { 0u8 })
}

/// The concatenation of the given digests.
pub open spec fn digests_bytes<const N: usize>(d: Seq<Blake3Digest<N>>) -> Seq<u8>
    decreases d.len(),
{
    if d.len() == 0 {
        Seq::empty()
    } else {
        digests_bytes(d.drop_last()) + d.last()@
    }
}

/// The concatenation of the given digests, each padded to 32 bytes.
pub open spec fn expanded_digests_bytes<const N: usize>(d: Seq<Blake3Digest<N>>) -> Seq<u8>
    decreases d.len(),
{
    if d.len() == 0 {
        Seq::empty()
    } else {
        expanded_digests_bytes(d.drop_last()) + expanded(d.last()@)
    }
}

/// A BLAKE3 digest of `N` bytes.
#[derive(Debug, Clone, Copy, PartialEq, Eq)]
pub struct Blake3Digest<const N: usize>([u8; N]);

impl<const N: usize> View for Blake3Digest<N> {
    type V = Seq<u8>;

    closed spec fn view(&self) -> Seq<u8> {
        self.0@
    }
}

impl<const N: usize> Blake3Digest<N> {
    /// The digest holding `value`.
    pub fn from_array(value: [u8; N]) -> (r: Self)
        ensures
            r@ == value@,
    {
        Blake3Digest(value)
    }

    /// The bytes of the digest.
    pub fn to_array(&self) -> (r: [u8; N])
        ensures
            r@ == self@,
    {
        self.0
    }

    /// The digest of `N` zero bytes.
    pub fn zeroed() -> (r: Self)
        ensures
            r@ == Seq::new(N as nat, |i: int| 0u8),
    {
        let r = Blake3Digest(vstd::array::array_fill_for_copy_types::<u8, N>(0u8));
        assert(r@ =~= Seq::new(N as nat, |i: int| 0u8));
        r
    }

    /// The digest padded with zeros to 32 bytes.
    pub fn as_bytes(&self) -> (r: [u8; 32])
        requires
            N <= 32,
        ensures
            r@ == expanded(self@),
    {
        let mut r = [0u8; 32];
        let mut i: usize = 0;
        while i < N
            invariant
                0 <= i <= N <= 32,
                self@.len() == N,
                forall|j: int| 0 <= j < i ==> #[trigger] r@[j] == self@[j],
                forall|j: int| i <= j < 32 ==> #[trigger] r@[j] == 0u8,
            decreases N - i,
        {
            r[i] = self.0[i];
            i = i + 1;
        }
        assert(r@ =~= expanded(self@));
        r
    }

    /// The `0x`-prefixed hexadecimal text of the 32-byte padded digest.
    pub fn to_hex(&self) -> (r: String)
        requires
            N <= 32,
        ensures
            r@ == hex_string(expanded(self@)),
    {
        let b = self.as_bytes();
        bytes_to_hex_string(b.as_slice())
    }

    /// Parses `0x`-prefixed hexadecimal text of exactly `N` bytes.
    pub fn try_from_hex(value: &str) -> (r: Result<Self, HexParseError>)
        requires
            N < 0x4000_0000,
        ensures
            match hex_to_bytes_spec(value.spec_bytes(), N as nat) {
                Ok(b) => r matches Ok(d) && d@ == b,
                Err(e) => r == Err::<Self, HexParseError>(e),
            },
    {
        match hex_to_bytes(value, N) {
            Err(e) => Err(e),
            Ok(v) => {
                let mut arr = vstd::array::array_fill_for_copy_types::<u8, N>(0u8);
                let mut i: usize = 0;
                while i < N
                    invariant
                        0 <= i <= N,
                        v@.len() == N,
                        forall|j: int| 0 <= j < i ==> #[trigger] arr@[j] == v@[j],
                    decreases N - i,
                {
                    arr[i] = v[i];
                    i = i + 1;
                }
                assert(arr@ =~= v@);
                Ok(Blake3Digest(arr))
            },
        }
    }

    /// Appends the `N` bytes of the digest.
    pub fn write_into(&self, target: &mut Vec<u8>)
        ensures
            final(target)@ == old(target)@ + self@,
    {
        let ghost start = target@;
        let mut i: usize = 0;
        while i < N
            invariant
                0 <= i <= N,
                self@.len() == N,
                target@ == start + self@.subrange(0, i as int),
            decreases N - i,
        {
            target.push(self.0[i]);
            assert(self@.subrange(0, i + 1) =~= self@.subrange(0, i as int).push(self@[i as int]));
            i = i + 1;
        }
        assert(self@.subrange(0, N as int) =~= self@);
    }

    /// Reads `N` bytes.
    pub fn read_from(source: &mut SliceReader) -> (r: Result<Self, DeserializationError>)
        requires
            old(source).wf(),
        ensures
            final(source).wf(),
            final(source).data() == old(source).data(),
            old(source).position() + N <= old(source).data().len() ==> {
                &&& r matches Ok(d) && d@ == old(source).data().subrange(
                    old(source).position() as int, old(source).position() + N)
                &&& final(source).position() == old(source).position() + N
            },
            old(source).position() + N > old(source).data().len() ==> r == Err::<Self, DeserializationError>(
                DeserializationError::UnexpectedEOF),
    {
        let ghost data = source.data();
        let ghost pos = source.position() as int;
        let mut arr = vstd::array::array_fill_for_copy_types::<u8, N>(0u8);
        let mut i: usize = 0;
        proof {
            source.lemma_position_bound();
        }
        while i < N
            invariant
                0 <= i <= N,
                source.wf(),
                data == old(source).data(),
                pos == old(source).position() as int,
                source.data() == data,
                source.position() == pos + i,
                pos + i <= data.len(),
                forall|j: int| 0 <= j < i ==> #[trigger] arr@[j] == data[pos + j],
            decreases N - i,
        {
            match source.read_u8() {
                Ok(b) => {
                    arr[i] = b;
                },
                Err(e) => {
                    return Err(e);
                },
            }
            i = i + 1;
        }
        let r = Blake3Digest(arr);
        assert(r@ =~= data.subrange(pos, pos + N));
        Ok(r)
    }

    /// The bytes of `digests`, in order.
    pub fn digests_as_bytes(digests: &[Self]) -> (r: Vec<u8>)
        ensures
            r@ == digests_bytes(digests@),
    {
        let mut r: Vec<u8> = Vec::new();
        let mut i: usize = 0;
        while i < digests.len()
            invariant
                0 <= i <= digests@.len(),
                r@ == digests_bytes(digests@.subrange(0, i as int)),
            decreases digests@.len() - i,
        {
            let d = digests[i];
            d.write_into(&mut r);
            assert(digests@.subrange(0, i + 1).drop_last() =~= digests@.subrange(0, i as int));
            i = i + 1;
        }
        assert(digests@.subrange(0, digests@.len() as int) =~= digests@);
        r
    }
}

/// Keeps the first `N` of 32 bytes.
fn shrink_bytes<const N: usize>(bytes: [u8; 32]) -> (r: [u8; N])
    requires
        N <= 32,
    ensures
        r@ == bytes@.take(N as int),
{
    let mut arr = vstd::array::array_fill_for_copy_types::<u8, N>(0u8);
    let mut i: usize = 0;
    while i < N
        invariant
            0 <= i <= N <= 32,
            forall|j: int| 0 <= j < i ==> #[trigger] arr@[j] == bytes@[j],
        decreases N - i,
    {
        arr[i] = bytes[i];
        i = i + 1;
    }
    assert(arr@ =~= bytes@.take(N as int));
    arr
}

/// The little-endian bytes of the integer values of `elements`.
fn felts_to_le_bytes(elements: &[Felt]) -> (r: Vec<u8>)
    ensures
        r@ == felts_le_bytes(elements@),
{
    let mut i: usize = elements.len();
    let mut out: Vec<u8> = Vec::new();
    while i > 0
        invariant
            0 <= i <= elements@.len(),
            out@ == felts_le_bytes(elements@.subrange(i as int, elements@.len() as int)),
        decreases i,
    {
        let b = u64_to_le_bytes(elements[i - 1].as_int());
        let mut next: Vec<u8> = Vec::new();
        let mut k: usize = 0;
        while k < 8
            invariant
                0 <= k <= 8,
                next@ == b@.subrange(0, k as int),
            decreases 8 - k,
        {
            next.push(b[k]);
            assert(b@.subrange(0, k + 1) =~= b@.subrange(0, k as int).push(b@[k as int]));
            k = k + 1;
        }
        let mut t: usize = 0;
        let ghost prefix = next@;
        while t < out.len()
            invariant
                0 <= t <= out@.len(),
                next@ == prefix + out@.subrange(0, t as int),
            decreases out@.len() - t,
        {
            next.push(out[t]);
            assert(out@.subrange(0, t + 1) =~= out@.subrange(0, t as int).push(out@[t as int]));
            t = t + 1;
        }
        proof {
            let s = elements@.subrange(i - 1, elements@.len() as int);
            assert(s.drop_first() =~= elements@.subrange(i as int, elements@.len() as int));
            assert(b@.subrange(0, 8) =~= b@);
            assert(out@.subrange(0, out@.len() as int) =~= out@);
        }
        out = next;
        i = i - 1;
    }
    assert(elements@.subrange(0, elements@.len() as int) =~= elements@);
    out
}

/// BLAKE3 with a 256-bit digest.
#[derive(Debug, Clone, Copy, PartialEq, Eq, Structural)]
pub struct Blake3_256;

impl Blake3_256 {
    /// Hashes a byte string.
    pub fn hash(bytes: &[u8]) -> (r: Blake3Digest<32>)
        ensures
            r@ == blake3_hash_spec(bytes@),
    {
        Blake3Digest(blake3_hash(bytes))
    }

    /// Hashes the concatenation of two digests.
    pub fn merge(values: &[Blake3Digest<32>; 2]) -> (r: Blake3Digest<32>)
        ensures
            r@ == blake3_hash_spec(values[0]@ + values[1]@),
    {
        let mut buf: Vec<u8> = Vec::new();
        values[0].write_into(&mut buf);
        values[1].write_into(&mut buf);
        Self::hash(buf.as_slice())
    }

    /// Hashes field elements by their 8-byte little-endian integer values.
    pub fn hash_elements(elements: &[Felt]) -> (r: Blake3Digest<32>)
        ensures
            r@ == blake3_hash_spec(felts_le_bytes(elements@)),
    {
        let bytes = felts_to_le_bytes(elements);
        Self::hash(bytes.as_slice())
    }

    /// Hashes the concatenation of a list of digests.
    pub fn merge_many(values: &[Blake3Digest<32>]) -> (r: Blake3Digest<32>)
        ensures
            r@ == blake3_hash_spec(digests_bytes(values@)),
    {
        let bytes = Blake3Digest::digests_as_bytes(values);
        Self::hash(bytes.as_slice())
    }

    /// Hashes a digest followed by the 8 little-endian bytes of an integer.
    pub fn merge_with_int(seed: Blake3Digest<32>, value: u64) -> (r: Blake3Digest<32>)
        ensures
            r@ == blake3_hash_spec(seed@ + le_bytes_spec(value as nat, 8)),
    {
        let mut buf: Vec<u8> = Vec::new();
        seed.write_into(&mut buf);
        crate::utils::bytes::write_u64(&mut buf, value);
        Self::hash(buf.as_slice())
    }
}

/// BLAKE3 truncated to a 192-bit digest.
#[derive(Debug, Clone, Copy, PartialEq, Eq, Structural)]
pub struct Blake3_192;

impl Blake3_192 {
    /// Hashes a byte string; the digest is the first 24 bytes of the hash.
    pub fn hash(bytes: &[u8]) -> (r: Blake3Digest<24>)
        ensures
            r@ == truncated_hash(bytes@, 24),
    {
        Blake3Digest(shrink_bytes(blake3_hash(bytes)))
    }

    /// Hashes the concatenation of two digests.
    pub fn merge(values: &[Blake3Digest<24>; 2]) -> (r: Blake3Digest<24>)
        ensures
            r@ == truncated_hash(values[0]@ + values[1]@, 24),
    {
        let mut buf: Vec<u8> = Vec::new();
        values[0].write_into(&mut buf);
        values[1].write_into(&mut buf);
        Self::hash(buf.as_slice())
    }

    /// Hashes field elements by their 8-byte little-endian integer values.
    pub fn hash_elements(elements: &[Felt]) -> (r: Blake3Digest<24>)
        ensures
            r@ == truncated_hash(felts_le_bytes(elements@), 24),
    {
        let bytes = felts_to_le_bytes(elements);
        Self::hash(bytes.as_slice())
    }

    /// Hashes the digests of a list, each padded with zeros to 32 bytes.
    pub fn merge_many(values: &[Blake3Digest<24>]) -> (r: Blake3Digest<24>)
        ensures
            r@ == truncated_hash(expanded_digests_bytes(values@), 24),
    {
        let bytes = expand_all(values);
        Self::hash(bytes.as_slice())
    }

    /// Hashes a digest followed by the 8 little-endian bytes of an integer.
    pub fn merge_with_int(seed: Blake3Digest<24>, value: u64) -> (r: Blake3Digest<24>)
        ensures
            r@ == truncated_hash(seed@ + le_bytes_spec(value as nat, 8), 24),
    {
        let mut buf: Vec<u8> = Vec::new();
        seed.write_into(&mut buf);
        crate::utils::bytes::write_u64(&mut buf, value);
        Self::hash(buf.as_slice())
    }
}

/// BLAKE3 truncated to a 160-bit digest.
#[derive(Debug, Clone, Copy, PartialEq, Eq, Structural)]
pub struct Blake3_160;

impl Blake3_160 {
    /// Hashes a byte string; the digest is the first 20 bytes of the hash.
    pub fn hash(bytes: &[u8]) -> (r: Blake3Digest<20>)
        ensures
            r@ == truncated_hash(bytes@, 20),
    {
        Blake3Digest(shrink_bytes(blake3_hash(bytes)))
    }

    /// Hashes the concatenation of two digests.
    pub fn merge(values: &[Blake3Digest<20>; 2]) -> (r: Blake3Digest<20>)
        ensures
            r@ == truncated_hash(values[0]@ + values[1]@, 20),
    {
        let mut buf: Vec<u8> = Vec::new();
        values[0].write_into(&mut buf);
        values[1].write_into(&mut buf);
        Self::hash(buf.as_slice())
    }

    /// Hashes field elements by their 8-byte little-endian integer values.
    pub fn hash_elements(elements: &[Felt]) -> (r: Blake3Digest<20>)
        ensures
            r@ == truncated_hash(felts_le_bytes(elements@), 20),
    {
        let bytes = felts_to_le_bytes(elements);
        Self::hash(bytes.as_slice())
    }

    /// Hashes the digests of a list, each padded with zeros to 32 bytes.
    pub fn merge_many(values: &[Blake3Digest<20>]) -> (r: Blake3Digest<20>)
        ensures
            r@ == truncated_hash(expanded_digests_bytes(values@), 20),
    {
        let bytes = expand_all(values);
        Self::hash(bytes.as_slice())
    }

    /// Hashes a digest followed by the 8 little-endian bytes of an integer.
    pub fn merge_with_int(seed: Blake3Digest<20>, value: u64) -> (r: Blake3Digest<20>)
        ensures
            r@ == truncated_hash(seed@ + le_bytes_spec(value as nat, 8), 20),
    {
        let mut buf: Vec<u8> = Vec::new();
        seed.write_into(&mut buf);
        crate::utils::bytes::write_u64(&mut buf, value);
        Self::hash(buf.as_slice())
    }
}

/// The digests of a list, each padded with zeros to 32 bytes, concatenated.
fn expand_all<const N: usize>(values: &[Blake3Digest<N>]) -> (r: Vec<u8>)
    requires
        N <= 32,
    ensures
        r@ == expanded_digests_bytes(values@),
{
    let mut r: Vec<u8> = Vec::new();
    let mut i: usize = 0;
    while i < values.len()
        invariant
            0 <= i <= values@.len(),
            N <= 32,
            r@ == expanded_digests_bytes(values@.subrange(0, i as int)),
        decreases values@.len() - i,
    {
        let b = values[i].as_bytes();
        let ghost start = r@;
        let mut k: usize = 0;
        while k < 32
            invariant
                0 <= k <= 32,
                r@ == start + b@.subrange(0, k as int),
            decreases 32 - k,
        {
            r.push(b[k]);
            assert(b@.subrange(0, k + 1) =~= b@.subrange(0, k as int).push(b@[k as int]));
            k = k + 1;
        }
        assert(b@.subrange(0, 32) =~= b@);
        assert(values@.subrange(0, i + 1).drop_last() =~= values@.subrange(0, i as int));
        i = i + 1;
    }
    assert(values@.subrange(0, values@.len() as int) =~= values@);
    r
}

} // verus!
