//! The address of a node in a binary tree: its depth and its position from the
//! left at that depth.

use vstd::prelude::*;
use vstd::arithmetic::power2::pow2;
use crate::felt::Felt;
use crate::merkle::MerkleError;
use crate::rescue::digest::RpoDigest;
use crate::utils::bytes::{DeserializationError, SliceReader, le_bytes_spec, le_value, write_u64, write_u8};

verus! {

/// Whether `value` addresses a node at `depth`: below `2^depth`.
pub open spec fn index_valid(depth: nat, value: nat) -> bool {
    depth >= 64 || value < pow2(depth)
}

/// The address of a node: its depth and its position at that depth.
#[derive(Debug, Default, Clone, Copy, PartialEq, Eq, PartialOrd, Ord, Hash, Structural)]
pub struct NodeIndex {
    depth: u8,
    value: u64,
}

impl View for NodeIndex {
    type V = (nat, nat);

    closed spec fn view(&self) -> (nat, nat) {
        (self.depth as nat, self.value as nat)
    }
}

/// Indices with the same depth and value are the same index.
pub proof fn lemma_node_index_view_eq(a: NodeIndex, b: NodeIndex)
    ensures
        a@ == b@ <==> a == b,
{
}

/// Every view is a pair of a byte and a 64-bit integer.
pub proof fn lemma_node_index_bounds(a: NodeIndex)
    ensures
        a@.0 < 256,
        a@.1 < 0x1_0000_0000_0000_0000,
{
}

/// `v >> s == 0` exactly when `v < 2^s`.
proof fn lemma_shr_zero(v: u64, s: u64)
    requires
        s < 64,
    ensures
        (v >> s == 0) <==> v < pow2(s as nat),
{
    vstd::bits::lemma_u64_shr_is_div(v, s);
    vstd::arithmetic::power2::lemma_pow2_pos(s as nat);
    if v < pow2(s as nat) {
        vstd::arithmetic::div_mod::lemma_basic_div(v as int, pow2(s as nat) as int);
    } else {
        vstd::arithmetic::div_mod::lemma_div_non_zero(v as int, pow2(s as nat) as int);
    }
}

impl NodeIndex {
    /// The index at `depth` and `value`; fails when `value` does not fit in `depth` bits.
    pub fn new(depth: u8, value: u64) -> (r: Result<Self, MerkleError>)
        ensures
            r is Ok <==> index_valid(depth as nat, value as nat),
            r matches Ok(i) ==> i@ == (depth as nat, value as nat),
            r matches Err(e) ==> e == (MerkleError::InvalidNodeIndex { depth, value }),
    {
        if depth >= 64 {
            return Ok(NodeIndex { depth, value });
        }
        proof {
            lemma_shr_zero(value, depth as u64);
        }
        if value >> (depth as u64) != 0 {
            Err(MerkleError::InvalidNodeIndex { depth, value })
        } else {
            Ok(NodeIndex { depth, value })
        }
    }

    /// The index at `depth` and `value`, which must fit in `depth` bits.
    pub fn new_unchecked(depth: u8, value: u64) -> (r: Self)
        requires
            index_valid(depth as nat, value as nat),
        ensures
            r@ == (depth as nat, value as nat),
    {
        NodeIndex { depth, value }
    }

    /// The index with the given depth and value, which need not fit the depth.
    pub(crate) fn from_raw(depth: u8, value: u64) -> (r: Self)
        ensures
            r@ == (depth as nat, value as nat),
    {
        NodeIndex { depth, value }
    }

    /// The depth and value as a key.
    pub open spec fn key_spec(self) -> (u8, u64) {
        (self@.0 as u8, self@.1 as u64)
    }

    /// The depth and value as a key.
    #[verifier::when_used_as_spec(key_spec)]
    pub fn key(self) -> (r: (u8, u64))
        ensures
            r == (self@.0 as u8, self@.1 as u64),
            r.0 as nat == self@.0,
            r.1 as nat == self@.1,
    {
        (self.depth, self.value)
    }

    /// The index given by two field elements; the depth must fit in a byte.
    pub fn from_elements(depth: Felt, value: Felt) -> (r: Result<Self, MerkleError>)
        ensures
            depth@ >= 256 ==> r == Err::<Self, MerkleError>(MerkleError::DepthTooBig(depth@ as u64)),
            depth@ < 256 ==> {
                &&& (r is Ok <==> index_valid(depth@, value@))
                &&& (r matches Ok(i) ==> i@ == (depth@, value@))
                &&& (r matches Err(e) ==> e == (MerkleError::InvalidNodeIndex { depth: depth@ as u8, value: value@ as u64 }))
            },
    {
        let d = depth.as_int();
        if d >= 256 {
            return Err(MerkleError::DepthTooBig(d));
        }
        Self::new(d as u8, value.as_int())
    }

    /// The root: depth 0, value 0.
    pub fn root() -> (r: Self)
        ensures
            r@ == (0nat, 0nat),
    {
        NodeIndex { depth: 0, value: 0 }
    }

    /// The other child of the same parent.
    pub fn sibling(self) -> (r: Self)
        ensures
            r@.0 == self@.0,
            r@.1 == (if self@.1 % 2 == 0 { self@.1 + 1 } else { (self@.1 - 1) as nat }),
    {
        let v = if self.value % 2 == 0 { self.value + 1 } else { self.value - 1 };
        NodeIndex { depth: self.depth, value: v }
    }

    /// The left child.
    pub fn left_child(self) -> (r: Self)
        requires
            self@.0 < 255,
        ensures
            r@ == (self@.0 + 1, (2 * self@.1) % 0x1_0000_0000_0000_0000),
    {
        let v = (self.value % 0x8000_0000_0000_0000) * 2;
        assert(v as nat == (2 * self@.1) % 0x1_0000_0000_0000_0000) by {
            vstd::arithmetic::div_mod::lemma_mod_multiples_vanish(
                (self.value / 0x8000_0000_0000_0000) as int, (2 * (self.value % 0x8000_0000_0000_0000)) as int,
                0x1_0000_0000_0000_0000);
            vstd::arithmetic::div_mod::lemma_small_mod((2 * (self.value % 0x8000_0000_0000_0000)) as nat, 0x1_0000_0000_0000_0000);
        }
        NodeIndex { depth: self.depth + 1, value: v }
    }

    /// The right child.
    pub fn right_child(self) -> (r: Self)
        requires
            self@.0 < 255,
        ensures
            r@ == (self@.0 + 1, (2 * self@.1) % 0x1_0000_0000_0000_0000 + 1),
    {
        let l = self.left_child();
        NodeIndex { depth: l.depth, value: l.value + 1 }
    }

    /// The two nodes of a parent in order: `slf` is on the left when this index is even.
    pub fn build_node(self, slf: RpoDigest, sibling: RpoDigest) -> (r: [RpoDigest; 2])
        ensures
            self@.1 % 2 == 1 ==> r@ == seq![sibling, slf],
            self@.1 % 2 == 0 ==> r@ == seq![slf, sibling],
    {
        if self.is_value_odd() {
            let r = [sibling, slf];
            assert(r@ =~= seq![sibling, slf]);
            r
        } else {
            let r = [slf, sibling];
            assert(r@ =~= seq![slf, sibling]);
            r
        }
    }

    /// The position of the node in breadth-first order: `2^depth + value`.
    pub fn to_scalar_index(self) -> (r: u64)
        requires
            self@.0 < 64,
            pow2(self@.0) + self@.1 < 0x1_0000_0000_0000_0000,
        ensures
            r == pow2(self@.0) + self@.1,
    {
        proof {
            vstd::bits::lemma_u64_pow2_no_overflow(self.depth as nat);
            vstd::bits::lemma_u64_shl_is_mul(1, self.depth as u64);
        }
        (1u64 << (self.depth as u64)) + self.value
    }

    /// The depth.
    pub fn depth(self) -> (r: u8)
        ensures
            r == self@.0,
    {
        self.depth
    }

    /// The position at the depth.
    pub fn value(self) -> (r: u64)
        ensures
            r == self@.1,
    {
        self.value
    }

    /// Whether the node is a right child.
    pub fn is_value_odd(self) -> (r: bool)
        ensures
            r == (self@.1 % 2 == 1),
    {
        self.value % 2 == 1
    }

    /// Whether this is the root.
    pub fn is_root(self) -> (r: bool)
        ensures
            r == (self@.0 == 0),
    {
        self.depth == 0
    }

    /// Moves to the parent; the root stays at depth 0.
    pub fn move_up(&mut self)
        ensures
            final(self)@ == (if old(self)@.0 == 0 { 0nat } else { (old(self)@.0 - 1) as nat }, old(self)@.1 / 2),
    {
        self.depth = if self.depth == 0 { 0 } else { self.depth - 1 };
        self.value = self.value / 2;
    }

    /// Moves to depth `depth`, shifting the value right by `depth` bits.
    pub fn move_up_to(&mut self, depth: u8)
        requires
            depth < old(self)@.0,
            depth < 64,
        ensures
            final(self)@ == (depth as nat, old(self)@.1 / pow2(depth as nat)),
    {
        proof {
            vstd::bits::lemma_u64_shr_is_div(self.value, depth as u64);
        }
        let delta = self.depth - depth;
        self.depth = self.depth - delta;
        self.value = self.value >> (depth as u64);
    }

    /// Appends the depth byte and the 8 little-endian bytes of the value.
    pub fn write_into(&self, target: &mut Vec<u8>)
        ensures
            final(target)@ == old(target)@.push(self@.0 as u8) + le_bytes_spec(self@.1, 8),
    {
        write_u8(target, self.depth);
        write_u64(target, self.value);
    }

    /// Reads a depth byte and a little-endian value, which must fit in the depth.
    pub fn read_from(source: &mut SliceReader) -> (r: Result<Self, DeserializationError>)
        requires
            old(source).wf(),
        ensures
            final(source).wf(),
            final(source).data() == old(source).data(),
            ({
                let data = old(source).data();
                let p = old(source).position() as int;
                if p + 9 > data.len() {
                    r == Err::<Self, DeserializationError>(DeserializationError::UnexpectedEOF)
                } else {
                    let d = data[p] as nat;
                    let v = le_value(data.subrange(p + 1, p + 9));
                    &&& (r is Ok <==> index_valid(d, v))
                    &&& (r matches Ok(i) ==> i@ == (d, v) && final(source).position() == p + 9)
                    &&& (r matches Err(e) ==> e is InvalidValue)
                }
            }),
    {
        let depth = match source.read_u8() {
            Ok(d) => d,
            Err(e) => return Err(e),
        };
        let value = match source.read_u64() {
            Ok(v) => v,
            Err(e) => return Err(e),
        };
        match Self::new(depth, value) {
            Ok(i) => Ok(i),
            Err(_) => Err(DeserializationError::InvalidValue(invalid_index_message())),
        }
    }
}

/// The message of a decoding error for an index whose value does not fit its depth.
fn invalid_index_message() -> (r: String)
    ensures
        r@ == "invalid index"@,
{
    "invalid index".to_owned()
}

} // verus!
