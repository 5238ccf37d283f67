//! Text renderings of trees and paths, each node as the hexadecimal digits of
//! its 32-byte encoding.

use vstd::prelude::*;
use vstd::arithmetic::power2::pow2;
use crate::felt::Felt;
use crate::merkle::MerkleError;
use crate::merkle::index::NodeIndex;
use crate::merkle::path::MerklePath;
use crate::merkle::tree::MerkleTree;
use crate::rescue::digest::{RpoDigest, digest_bytes_spec, word_seq};
use crate::utils::hex::{hex_chars, push_char, push_hex_chars};

verus! {

/// The hexadecimal digits of the encoding of a word: each element as eight
/// little-endian bytes.
pub fn word_to_hex(w: [Felt; 4]) -> (r: String)
    ensures
        r@ == hex_chars(digest_bytes_spec(word_seq(w))),
{
    let d = RpoDigest::new(w);
    let bytes = d.as_bytes();
    let mut s = String::new();
    push_hex_chars(&mut s, &bytes);
    assert(s@ =~= hex_chars(digest_bytes_spec(word_seq(w))));
    s
}

/// The digits of a digest's encoding.
pub open spec fn digest_hex(d: Seq<nat>) -> Seq<char> {
    hex_chars(digest_bytes_spec(d))
}

/// The nodes of a path in brackets, separated by `", "`.
pub open spec fn path_text(nodes: Seq<Seq<nat>>) -> Seq<char>
    decreases nodes.len(),
{
    if nodes.len() == 0 {
        Seq::empty()
    } else if nodes.len() == 1 {
        digest_hex(nodes[0])
    } else {
        path_text(nodes.drop_last()) + seq![',', ' '] + digest_hex(nodes.last())
    }
}

/// The path as text: its nodes in brackets, separated by `", "`.
pub fn path_to_text(path: &MerklePath) -> (r: String)
    ensures
        r@ == seq!['['] + path_text(path@) + seq![']'],
{
    let nodes = path.nodes();
    let mut s = String::new();
    push_char(&mut s, '[');
    let mut i: usize = 0;
    while i < nodes.len()
        invariant
            i <= nodes@.len(),
            crate::merkle::digests_view(nodes@) == path@,
            s@ == seq!['['] + path_text(path@.take(i as int)),
        decreases nodes@.len() - i,
    {
        if i > 0 {
            push_char(&mut s, ',');
            push_char(&mut s, ' ');
        }
        let b = nodes[i].as_bytes();
        push_hex_chars(&mut s, &b);
        proof {
            assert(path@.take(i + 1).drop_last() =~= path@.take(i as int));
            assert(path@.take(i + 1).last() == nodes@[i as int]@);
            if i == 0 {
                assert(path@.take(0) =~= Seq::<Seq<nat>>::empty());
            }
        }
        i = i + 1;
        proof {
            assert(s@ =~= seq!['['] + path_text(path@.take(i as int)));
        }
    }
    push_char(&mut s, ']');
    assert(path@.take(nodes@.len() as int) =~= path@);
    assert(s@ =~= seq!['['] + path_text(path@) + seq![']']);
    s
}

/// Two spaces per level.
pub open spec fn indent_spaces(d: nat) -> Seq<char> {
    Seq::new(2 * d, |k: int| ' ')
}

/// The first `k` nodes of depth `d` of the tree `v`, one per line, indented.
pub open spec fn level_text(v: Seq<Seq<nat>>, d: nat, k: nat) -> Seq<char>
    decreases k,
{
    if k == 0 {
        Seq::empty()
    } else {
        level_text(v, d, (k - 1) as nat) + indent_spaces(d) + digest_hex(v[pow2(d) + k - 1]) + seq!['\n']
    }
}

/// The levels 1 to `d` of the tree `v`, from the top.
pub open spec fn levels_text(v: Seq<Seq<nat>>, d: nat) -> Seq<char>
    decreases d,
{
    if d == 0 { Seq::empty() } else { levels_text(v, (d - 1) as nat) + level_text(v, d, pow2(d)) }
}

/// The tree `v` of depth `depth` as text: the root, then each level.
pub open spec fn tree_text(v: Seq<Seq<nat>>, depth: nat) -> Seq<char> {
    digest_hex(v[1]) + seq!['\n'] + levels_text(v, depth)
}

/// The tree as text: the root, then each level from the top, one node per
/// line, indented by two spaces per level. It always succeeds.
pub fn tree_to_text(tree: &MerkleTree) -> (r: Result<String, MerkleError>)
    ensures
        r matches Ok(s) && s@ == tree_text(tree@, tree.depth_spec()),
{
    tree.check_structure();
    let mut s = String::new();
    let root = tree.root();
    let b = root.as_bytes();
    push_hex_chars(&mut s, &b);
    push_char(&mut s, '\n');
    let depth = tree.depth();
    let ghost v = tree@;
    let mut d: u8 = 1;
    proof {
        assert(s@ =~= digest_hex(v[1]) + seq!['\n'] + levels_text(v, 0));
    }
    while d <= depth
        invariant
            1 <= d <= depth + 1,
            depth == tree.depth_spec(),
            depth < 63,
            v == tree@,
            v.len() == 2 * pow2(depth as nat),
            s@ == digest_hex(v[1]) + seq!['\n'] + levels_text(v, (d - 1) as nat),
        decreases depth + 1 - d,
    {
        let entries = crate::merkle::mmr::in_order::pow2_u64(d as u32);
        let ghost start = s@;
        let mut i: u64 = 0;
        proof {
            assert(start =~= start + level_text(v, d as nat, 0));
        }
        while i < entries
            invariant
                1 <= d <= depth,
                depth == tree.depth_spec(),
                v == tree@,
                entries == pow2(d as nat),
                i <= entries,
                s@ == start + level_text(v, d as nat, i as nat),
            decreases entries - i,
        {
            let index = NodeIndex::new_unchecked(d, i);
            let node = match tree.get_node(index) {
                Ok(n) => n,
                Err(e) => return Err(e),
            };
            let ghost before = s@;
            let mut k: u8 = 0;
            while k < d
                invariant
                    k <= d,
                    s@ == before + Seq::new(2 * k as nat, |q: int| ' '),
                decreases d - k,
            {
                push_char(&mut s, ' ');
                push_char(&mut s, ' ');
                k = k + 1;
                proof {
                    assert(s@ =~= before + Seq::new(2 * k as nat, |q: int| ' '));
                }
            }
            let nb = node.as_bytes();
            push_hex_chars(&mut s, &nb);
            push_char(&mut s, '\n');
            proof {
                assert(indent_spaces(d as nat) =~= Seq::new(2 * d as nat, |q: int| ' '));
                assert(s@ =~= start + level_text(v, d as nat, (i + 1) as nat));
            }
            i = i + 1;
        }
        proof {
            assert(levels_text(v, d as nat) == levels_text(v, (d - 1) as nat) + level_text(v, d as nat, pow2(d as nat)));
            assert(s@ =~= digest_hex(v[1]) + seq!['\n'] + levels_text(v, d as nat));
        }
        d = d + 1;
    }
    Ok(s)
}

} // verus!
