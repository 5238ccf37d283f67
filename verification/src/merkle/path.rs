//! Authentication paths: the siblings met walking from a node to the root.

use vstd::prelude::*;
use vstd::arithmetic::power2::pow2;
use crate::merkle::{MerkleError, InnerNodeInfo, merge_digest, digests_view};
use crate::merkle::index::{NodeIndex, index_valid};
use crate::rescue::digest::{RpoDigest, digest_bytes_spec, read_felts_spec, lemma_rpo_digest_view_eq, ReadFailure, all_canonical};
use crate::felt::modulus;
use crate::utils::bytes::{le_bytes_spec, le_value, pow256, lemma_le_roundtrip};
use crate::rescue::rpo::Rpo256;
use crate::utils::bytes::{DeserializationError, SliceReader, write_u8};

verus! {

/// The parent of `node` and its sibling `sib`, `node` being at position `value`.
pub open spec fn parent_digest(sib: Seq<nat>, value: nat, node: Seq<nat>) -> Seq<nat> {
    if value % 2 == 1 {
        merge_digest(sib, node)
    } else {
        merge_digest(node, sib)
    }
}

/// The node reached after `k` steps up from `node` at position `value`, with
/// `siblings` the siblings met, lowest first.
pub open spec fn path_node_at(siblings: Seq<Seq<nat>>, value: nat, node: Seq<nat>, k: nat) -> Seq<nat>
    decreases k,
{
    if k == 0 {
        node
    } else {
        parent_digest(siblings[k - 1], value / pow2((k - 1) as nat), path_node_at(siblings, value, node, (k - 1) as nat))
    }
}

/// The root reached from `node` at position `value` through all of `siblings`.
pub open spec fn path_root(siblings: Seq<Seq<nat>>, value: nat, node: Seq<nat>) -> Seq<nat> {
    path_node_at(siblings, value, node, siblings.len())
}

/// The left and right children merged at step `k` of the walk.
pub open spec fn path_children_at(siblings: Seq<Seq<nat>>, value: nat, node: Seq<nat>, k: nat) -> (Seq<nat>, Seq<nat>) {
    let here = path_node_at(siblings, value, node, k);
    if (value / pow2(k)) % 2 == 1 {
        (siblings[k as int], here)
    } else {
        (here, siblings[k as int])
    }
}

/// The serialized form of a sequence of digests.
pub open spec fn digests_bytes(s: Seq<Seq<nat>>) -> Seq<u8>
    decreases s.len(),
{
    if s.len() == 0 {
        Seq::empty()
    } else {
        digests_bytes(s.drop_last()) + digest_bytes_spec(s.last())
    }
}

/// Reading `k` digests at `pos`, 32 bytes each.
pub open spec fn read_digests_spec(data: Seq<u8>, pos: int, k: nat) -> Result<Seq<Seq<nat>>, ReadFailure>
    decreases k,
{
    if k == 0 {
        Ok(Seq::empty())
    } else {
        match read_digests_spec(data, pos, (k - 1) as nat) {
            Err(e) => Err(e),
            Ok(s) => match read_felts_spec(data, pos + 32 * (k - 1), 4) {
                Err(e) => Err(e),
                Ok(d) => Ok(s.push(d)),
            },
        }
    }
}

/// Reading a path at `pos`: a count byte, then that many digests.
pub open spec fn read_path_spec(data: Seq<u8>, pos: int) -> Result<Seq<Seq<nat>>, ReadFailure> {
    if pos + 1 > data.len() {
        Err(ReadFailure::Eof)
    } else {
        read_digests_spec(data, pos + 1, data[pos] as nat)
    }
}

/// Whether a read's result is the decoded value, or the error for its failure.
pub open spec fn path_read_matches(r: Result<MerklePath, DeserializationError>, s: Result<Seq<Seq<nat>>, ReadFailure>) -> bool {
    match s {
        Ok(v) => r matches Ok(p) && p@ == v,
        Err(ReadFailure::Eof) => r == Err::<MerklePath, DeserializationError>(DeserializationError::UnexpectedEOF),
        Err(ReadFailure::OutOfRange) => r matches Err(DeserializationError::InvalidValue(_)),
    }
}

/// Once reading digests fails it stays failed with the same reason.
pub proof fn lemma_read_digests_err_stays(data: Seq<u8>, pos: int, k: nat, m: nat)
    requires
        k <= m,
        read_digests_spec(data, pos, k) is Err,
    ensures
        read_digests_spec(data, pos, m) == read_digests_spec(data, pos, k),
    decreases m - k,
{
    if k < m {
        lemma_read_digests_err_stays(data, pos, k, (m - 1) as nat);
    }
}

/// The 32 bytes of a canonical digest read back as the digest.
pub proof fn lemma_digest_read_back(data: Seq<u8>, pos: int, d: Seq<nat>)
    requires
        d.len() == 4,
        all_canonical(d),
        0 <= pos,
        pos + 32 <= data.len(),
        data.subrange(pos, pos + 32) == digest_bytes_spec(d),
    ensures
        read_felts_spec(data, pos, 4) == Ok::<Seq<nat>, ReadFailure>(d),
{
    crate::utils::bytes::lemma_pow256_8();
    assert(modulus() < pow256(8));
    assert forall|j: int| 0 <= j < 4 implies data.subrange(pos + 8 * j, pos + 8 * j + 8) == le_bytes_spec(#[trigger] d[j], 8)
        && le_value(data.subrange(pos + 8 * j, pos + 8 * j + 8)) == d[j] by {
        assert(d[j] < modulus());
        lemma_le_roundtrip(d[j], 8);
        lemma_le_roundtrip(d[0], 8);
        lemma_le_roundtrip(d[1], 8);
        lemma_le_roundtrip(d[2], 8);
        let b = digest_bytes_spec(d);
        assert(data.subrange(pos + 8 * j, pos + 8 * j + 8) =~= b.subrange(8 * j, 8 * j + 8));
    }
    assert(read_felts_spec(data, pos, 0) == Ok::<Seq<nat>, ReadFailure>(Seq::empty()));
    assert(Seq::<nat>::empty().push(d[0]) =~= seq![d[0]]);
    assert(seq![d[0]].push(d[1]) =~= seq![d[0], d[1]]);
    assert(seq![d[0], d[1]].push(d[2]) =~= seq![d[0], d[1], d[2]]);
    assert(seq![d[0], d[1], d[2]].push(d[3]) =~= seq![d[0], d[1], d[2], d[3]]);
    assert(le_value(data.subrange(pos + 8 * 1, pos + 8 * 1 + 8)) == d[1]);
    assert(le_value(data.subrange(pos + 8 * 2, pos + 8 * 2 + 8)) == d[2]);
    assert(le_value(data.subrange(pos + 8 * 3, pos + 8 * 3 + 8)) == d[3]);
    assert(read_felts_spec(data, pos, 1) == Ok::<Seq<nat>, ReadFailure>(seq![d[0]]));
    assert(read_felts_spec(data, pos, 2) == Ok::<Seq<nat>, ReadFailure>(seq![d[0], d[1]]));
    assert(read_felts_spec(data, pos, 3) == Ok::<Seq<nat>, ReadFailure>(seq![d[0], d[1], d[2]]));
    assert(seq![d[0], d[1], d[2], d[3]] =~= d);
}

/// The bytes of canonical digests read back as the digests.
pub proof fn lemma_digests_read_back(data: Seq<u8>, pos: int, s: Seq<Seq<nat>>)
    requires
        0 <= pos,
        pos + digests_bytes(s).len() <= data.len(),
        data.subrange(pos, pos + digests_bytes(s).len()) == digests_bytes(s),
        forall|j: int| 0 <= j < s.len() ==> (#[trigger] s[j]).len() == 4 && all_canonical(s[j]),
    ensures
        digests_bytes(s).len() == 32 * s.len(),
        read_digests_spec(data, pos, s.len()) == Ok::<Seq<Seq<nat>>, ReadFailure>(s),
    decreases s.len(),
{
    if s.len() > 0 {
        let k = (s.len() - 1) as nat;
        let init = s.drop_last();
        assert forall|j: int| 0 <= j < init.len() implies (#[trigger] init[j]).len() == 4 && all_canonical(init[j]) by {
            assert(init[j] == s[j]);
        }
        lemma_digest_bytes_len(s.last());
        let whole = data.subrange(pos, pos + digests_bytes(s).len());
        lemma_digests_bytes_len(init);
        assert(whole =~= digests_bytes(init) + digest_bytes_spec(s.last()));
        assert(whole.subrange(0, digests_bytes(init).len() as int) =~= digests_bytes(init));
        assert(data.subrange(pos, pos + digests_bytes(init).len()) =~= whole.subrange(0, digests_bytes(init).len() as int));
        lemma_digests_read_back(data, pos, init);
        assert(whole.subrange(32 * k as int, 32 * k as int + 32) =~= digest_bytes_spec(s.last()));
        assert(data.subrange(pos + 32 * k, pos + 32 * k + 32) =~= whole.subrange(32 * k as int, 32 * k as int + 32));
        lemma_digest_read_back(data, pos + 32 * k, s.last());
        assert(init.push(s.last()) =~= s);
        assert(read_digests_spec(data, pos, s.len()) == Ok::<Seq<Seq<nat>>, ReadFailure>(init.push(s.last())));
    } else {
        assert(s =~= Seq::<Seq<nat>>::empty());
    }
}

/// Reading back what a path's `write_into` appended, wherever it stands in a
/// stream, gives the path back: its length byte, then its digests, provided
/// each digest has four canonical elements.
pub proof fn lemma_path_round_trip(pre: Seq<u8>, s: Seq<Seq<nat>>, post: Seq<u8>)
    requires
        s.len() < 256,
        forall|j: int| 0 <= j < s.len() ==> (#[trigger] s[j]).len() == 4 && all_canonical(s[j]),
    ensures
        read_path_spec(pre.push(s.len() as u8) + digests_bytes(s) + post, pre.len() as int)
            == Ok::<Seq<Seq<nat>>, ReadFailure>(s),
{
    let data = pre.push(s.len() as u8) + digests_bytes(s) + post;
    let p = pre.len() as int;
    lemma_digests_bytes_len(s);
    assert(data[p] == s.len() as u8);
    assert(data.subrange(p + 1, p + 1 + digests_bytes(s).len()) =~= digests_bytes(s));
    lemma_digests_read_back(data, p + 1, s);
}

/// A digest takes 32 bytes.
pub proof fn lemma_digest_bytes_len(d: Seq<nat>)
    ensures
        digest_bytes_spec(d).len() == 32,
{
    crate::utils::bytes::lemma_le_bytes_len(d[0], 8);
    crate::utils::bytes::lemma_le_bytes_len(d[1], 8);
    crate::utils::bytes::lemma_le_bytes_len(d[2], 8);
    crate::utils::bytes::lemma_le_bytes_len(d[3], 8);
}

/// Digests take 32 bytes each.
pub proof fn lemma_digests_bytes_len(s: Seq<Seq<nat>>)
    ensures
        digests_bytes(s).len() == 32 * s.len(),
    decreases s.len(),
{
    if s.len() > 0 {
        lemma_digests_bytes_len(s.drop_last());
        lemma_digest_bytes_len(s.last());
    }
}

/// `x / 2^k / 2 == x / 2^(k + 1)`.
pub proof fn lemma_div_pow2_step(x: nat, k: nat)
    ensures
        x / pow2(k) / 2 == x / pow2(k + 1),
        pow2(k) > 0,
{
    vstd::arithmetic::power2::lemma_pow2_pos(k);
    vstd::arithmetic::power2::lemma_pow2_unfold(k + 1);
    vstd::arithmetic::div_mod::lemma_div_denominator(x as int, pow2(k) as int, 2);
    assert(pow2(k) * 2 == pow2(k + 1)) by (nonlinear_arith)
        requires
            pow2(k + 1) == 2 * pow2(k),
    ;
}

/// A sequence of sibling digests from a node up to a root.
#[derive(Debug, PartialEq, Eq)]
pub struct MerklePath {
    nodes: Vec<RpoDigest>,
}

impl View for MerklePath {
    type V = Seq<Seq<nat>>;

    closed spec fn view(&self) -> Seq<Seq<nat>> {
        digests_view(self.nodes@)
    }
}

impl Clone for MerklePath {
    fn clone(&self) -> (r: Self)
        ensures
            r@ == self@,
    {
        proof { use_type_invariant(self); }
        let v = self.to_vec();
        assert(v@.len() == digests_view(v@).len());
        MerklePath { nodes: v }
    }
}

impl Default for MerklePath {
    fn default() -> (r: Self)
        ensures
            r@ == Seq::<Seq<nat>>::empty(),
    {
        let r = MerklePath { nodes: Vec::new() };
        assert(r@ =~= Seq::<Seq<nat>>::empty());
        r
    }
}

impl MerklePath {
    #[verifier::type_invariant]
    closed spec fn inv(self) -> bool {
        self.nodes@.len() <= 255
    }

    /// The path made of `nodes`, lowest sibling first; at most 255 of them.
    pub fn new(nodes: Vec<RpoDigest>) -> (r: Self)
        requires
            nodes@.len() <= 255,
        ensures
            r@ == digests_view(nodes@),
    {
        MerklePath { nodes }
    }

    /// Number of siblings.
    pub fn depth(&self) -> (r: u8)
        ensures
            r == self@.len(),
    {
        proof { use_type_invariant(self); }
        self.nodes.len() as u8
    }

    /// Number of siblings, as a `usize`.
    pub fn len(&self) -> (r: usize)
        ensures
            r == self@.len(),
    {
        self.nodes.len()
    }

    /// The siblings.
    pub fn nodes(&self) -> (r: &[RpoDigest])
        ensures
            digests_view(r@) == self@,
    {
        self.nodes.as_slice()
    }

    /// The siblings, by value.
    pub fn to_vec(&self) -> (r: Vec<RpoDigest>)
        ensures
            digests_view(r@) == self@,
    {
        let mut r: Vec<RpoDigest> = Vec::new();
        let mut i: usize = 0;
        while i < self.nodes.len()
            invariant
                0 <= i <= self.nodes@.len(),
                r@.len() == i,
                forall|j: int| 0 <= j < i ==> #[trigger] r@[j]@ == self.nodes@[j]@,
            decreases self.nodes@.len() - i,
        {
            r.push(self.nodes[i]);
            i = i + 1;
        }
        assert(digests_view(r@) =~= self@);
        r
    }

    /// The root reached from `node` at position `index`; fails when `index` does
    /// not fit in the depth of the path.
    pub fn compute_root(&self, index: u64, node: RpoDigest) -> (r: Result<RpoDigest, MerkleError>)
        ensures
            r is Ok <==> index_valid(self@.len(), index as nat),
            r matches Ok(root) ==> root@ == path_root(self@, index as nat, node@),
            r matches Err(e) ==> e == (MerkleError::InvalidNodeIndex { depth: self@.len() as u8, value: index }),
    {
        let depth = self.depth();
        let mut idx = match NodeIndex::new(depth, index) {
            Ok(i) => i,
            Err(e) => return Err(e),
        };
        let mut cur = node;
        let mut k: usize = 0;
        proof {
            vstd::arithmetic::power2::lemma2_to64();
        }
        while k < self.nodes.len()
            invariant
                0 <= k <= self@.len(),
                self@.len() == depth,
                idx@ == ((depth - k) as nat, index as nat / pow2(k as nat)),
                cur@ == path_node_at(self@, index as nat, node@, k as nat),
            decreases self@.len() - k,
        {
            let input = idx.build_node(cur, self.nodes[k]);
            proof {
                lemma_div_pow2_step(index as nat, k as nat);
            }
            idx.move_up();
            cur = Rpo256::merge(&input);
            k = k + 1;
        }
        Ok(cur)
    }

    /// Checks that `node` at position `index` leads to `root`.
    pub fn verify(&self, index: u64, node: RpoDigest, root: RpoDigest) -> (r: Result<(), MerkleError>)
        ensures
            !index_valid(self@.len(), index as nat) ==> r == Err::<(), MerkleError>(
                MerkleError::InvalidNodeIndex { depth: self@.len() as u8, value: index }),
            index_valid(self@.len(), index as nat) ==> {
                &&& (r is Ok <==> path_root(self@, index as nat, node@) == root@)
                &&& (r matches Err(e) ==> e matches MerkleError::ConflictingRoots { expected, actual }
                        && expected == root && actual@ == path_root(self@, index as nat, node@))
            },
    {
        let computed = match self.compute_root(index, node) {
            Ok(c) => c,
            Err(e) => return Err(e),
        };
        proof {
            lemma_rpo_digest_view_eq(computed, root);
        }
        if computed != root {
            return Err(MerkleError::ConflictingRoots { expected: root, actual: computed });
        }
        Ok(())
    }

    /// The nodes on the way from `node` at position `index` to the root, each with
    /// its two children, lowest first.
    pub fn inner_nodes(&self, index: u64, node: RpoDigest) -> (r: Result<Vec<InnerNodeInfo>, MerkleError>)
        ensures
            r is Ok <==> index_valid(self@.len(), index as nat),
            r matches Ok(v) ==> {
                &&& v@.len() == self@.len()
                &&& forall|k: int| 0 <= k < v@.len() ==> {
                    &&& (#[trigger] v@[k]).value@ == path_node_at(self@, index as nat, node@, (k + 1) as nat)
                    &&& (v@[k].left@, v@[k].right@) == path_children_at(self@, index as nat, node@, k as nat)
                }
            },
            r matches Err(e) ==> e == (MerkleError::InvalidNodeIndex { depth: self@.len() as u8, value: index }),
    {
        let depth = self.depth();
        let mut idx = match NodeIndex::new(depth, index) {
            Ok(i) => i,
            Err(e) => return Err(e),
        };
        let mut out: Vec<InnerNodeInfo> = Vec::new();
        let mut cur = node;
        let mut k: usize = 0;
        proof {
            vstd::arithmetic::power2::lemma2_to64();
        }
        proof {
            vstd::arithmetic::power2::lemma2_to64();
        }
        while k < self.nodes.len()
            invariant
                0 <= k <= self@.len(),
                self@.len() == depth,
                idx@ == ((depth - k) as nat, index as nat / pow2(k as nat)),
                cur@ == path_node_at(self@, index as nat, node@, k as nat),
                out@.len() == k,
                forall|j: int| 0 <= j < k ==> {
                    &&& (#[trigger] out@[j]).value@ == path_node_at(self@, index as nat, node@, (j + 1) as nat)
                    &&& (out@[j].left@, out@[j].right@) == path_children_at(self@, index as nat, node@, j as nat)
                },
            decreases self@.len() - k,
        {
            let sib = self.nodes[k];
            let odd = idx.is_value_odd();
            let left = if odd { sib } else { cur };
            let right = if odd { cur } else { sib };
            proof {
                lemma_div_pow2_step(index as nat, k as nat);
            }
            idx.move_up();
            cur = Rpo256::merge(&[left, right]);
            out.push(InnerNodeInfo { value: cur, left, right });
            k = k + 1;
        }
        Ok(out)
    }

    /// Appends the number of siblings as one byte, then each sibling.
    pub fn write_into(&self, target: &mut Vec<u8>)
        ensures
            final(target)@ == old(target)@.push(self@.len() as u8) + digests_bytes(self@),
    {
        proof { use_type_invariant(self); }
        write_u8(target, self.nodes.len() as u8);
        let ghost start = target@;
        let mut i: usize = 0;
        while i < self.nodes.len()
            invariant
                0 <= i <= self.nodes@.len(),
                target@ == start + digests_bytes(digests_view(self.nodes@.subrange(0, i as int))),
            decreases self.nodes@.len() - i,
        {
            self.nodes[i].write_into(target);
            proof {
                let a = digests_view(self.nodes@.subrange(0, i + 1));
                assert(a.drop_last() =~= digests_view(self.nodes@.subrange(0, i as int)));
            }
            i = i + 1;
        }
        assert(digests_view(self.nodes@.subrange(0, self.nodes@.len() as int)) =~= self@);
    }

    /// Reads a count byte, then that many digests.
    pub fn read_from(source: &mut SliceReader) -> (r: Result<Self, DeserializationError>)
        requires
            old(source).wf(),
        ensures
            final(source).wf(),
            final(source).data() == old(source).data(),
            path_read_matches(r, read_path_spec(old(source).data(), old(source).position() as int)),
            r matches Ok(p) ==> final(source).position() == old(source).position() + 1 + 32 * p@.len(),
    {
        let ghost data = source.data();
        let ghost pos = source.position() as int;
        let count = match source.read_u8() {
            Ok(c) => c,
            Err(e) => return Err(e),
        };
        let mut nodes: Vec<RpoDigest> = Vec::new();
        let mut i: u8 = 0;
        assert(digests_view(nodes@) =~= Seq::<Seq<nat>>::empty());
        while i < count
            invariant
                0 <= i <= count,
                source.wf(),
                data == old(source).data(),
                pos == old(source).position() as int,
                source.data() == data,
                source.position() == pos + 1 + 32 * i,
                nodes@.len() == i,
                pos + 1 <= data.len(),
                count == data[pos],
                read_digests_spec(data, pos + 1, i as nat) == Ok::<Seq<Seq<nat>>, ReadFailure>(digests_view(nodes@)),
            decreases count - i,
        {
            let ghost at = source.position() as int;
            let d = match RpoDigest::read_from(source) {
                Ok(d) => d,
                Err(e) => {
                    proof {
                        assert(at == pos + 1 + 32 * ((i + 1) as nat - 1));
                        lemma_read_digests_err_stays(data, pos + 1, (i + 1) as nat, count as nat);
                    }
                    return Err(e);
                },
            };
            let ghost before = nodes@;
            nodes.push(d);
            proof {
                assert(at == pos + 1 + 32 * ((i + 1) as nat - 1));
                assert(digests_view(nodes@) =~= digests_view(before).push(d@));
            }
            i = i + 1;
        }
        let p = MerklePath { nodes };
        proof {
            assert(p@ == digests_view(p.nodes@));
        }
        Ok(p)
    }
}

/// A leaf value with the path that authenticates it.
#[derive(Debug, Default, Clone, PartialEq, Eq)]
pub struct ValuePath {
    pub value: RpoDigest,
    pub path: MerklePath,
}

impl ValuePath {
    /// Pairs a value with its path.
    pub fn new(value: RpoDigest, path: MerklePath) -> (r: Self)
        ensures
            r.value == value,
            r.path == path,
    {
        ValuePath { value, path }
    }

    /// Appends the value, then the path.
    pub fn write_into(&self, target: &mut Vec<u8>)
        ensures
            final(target)@ == old(target)@ + digest_bytes_spec(self.value@) + seq![self.path@.len() as u8]
                + digests_bytes(self.path@),
    {
        self.value.write_into(target);
        self.path.write_into(target);
        assert(final(target)@ =~= old(target)@ + digest_bytes_spec(self.value@) + seq![self.path@.len() as u8]
            + digests_bytes(self.path@));
    }
}

/// A root with the path that leads to it.
#[derive(Debug, Default, Clone, PartialEq, Eq)]
pub struct RootPath {
    pub root: RpoDigest,
    pub path: MerklePath,
}

impl RootPath {
    /// Appends the root, then the path.
    pub fn write_into(&self, target: &mut Vec<u8>)
        ensures
            final(target)@ == old(target)@ + digest_bytes_spec(self.root@) + seq![self.path@.len() as u8]
                + digests_bytes(self.path@),
    {
        self.root.write_into(target);
        self.path.write_into(target);
        assert(final(target)@ =~= old(target)@ + digest_bytes_spec(self.root@) + seq![self.path@.len() as u8]
            + digests_bytes(self.path@));
    }
}

} // verus!
