//! An opening of a leaf of a mountain range: its position and the path to the
//! peak of its tree.

use vstd::prelude::*;
use vstd::arithmetic::power2::pow2;
use crate::merkle::mmr::{popcount, ilog2, count_ones, leaf_to_corresponding_tree, lemma_popcount_split, lemma_popcount_pos};
use crate::merkle::path::MerklePath;

verus! {

/// The tree of the forest holding leaf `pos`: the highest bit of `forest` not set in `pos`.
pub open spec fn tree_of(pos: nat, forest: nat) -> nat {
    ilog2((forest as u64 ^ (forest as u64 & pos as u64)) as nat)
}

/// The leaves of `forest` in trees larger than `2^(b - 1)`: `forest` with its
/// bits below `b` cleared.
pub open spec fn forest_above(forest: nat, b: nat) -> nat {
    if b >= 64 { 0 } else { (forest / pow2(b)) * pow2(b) }
}

/// `forest` with its bits below `b` cleared.
pub fn clear_low_bits(forest: usize, b: u32) -> (r: usize)
    ensures
        r == forest_above(forest as nat, b as nat),
        r <= forest,
{
    if b >= 64 {
        return 0;
    }
    proof {
        vstd::bits::lemma_u64_pow2_no_overflow(b as nat);
        vstd::arithmetic::power2::lemma_pow2_pos(b as nat);
        vstd::arithmetic::div_mod::lemma_fundamental_div_mod(forest as int, pow2(b as nat) as int);
        vstd::arithmetic::div_mod::lemma_mod_pos_bound(forest as int, pow2(b as nat) as int);
    }
    let p: u64 = crate::merkle::mmr::in_order::pow2_u64(b);
    let f = forest as u64;
    let q = f / p;
    assert(q * p <= f) by (nonlinear_arith)
        requires
            f == p * q + f % p,
            f % p >= 0,
    ;
    let r = q * p;
    r as usize
}

/// An opening of the leaf at `position` in a forest of `forest` leaves.
#[derive(Debug, Clone, PartialEq, Eq)]
pub struct MmrProof {
    pub forest: usize,
    pub position: usize,
    pub merkle_path: MerklePath,
}

impl MmrProof {
    /// The position of the leaf within its tree.
    pub open spec fn relative_pos_spec(&self) -> nat {
        (self.position - forest_above(self.forest as nat, tree_of(self.position as nat, self.forest as nat) + 1)) as nat
    }

    /// The index of the peak of the leaf's tree: the number of larger trees.
    pub open spec fn peak_index_spec(&self) -> nat {
        let t = tree_of(self.position as nat, self.forest as nat);
        (popcount(self.forest as nat) - popcount((self.forest as nat) % pow2(t)) - 1) as nat
    }

    /// The position of the leaf within its tree.
    pub fn relative_pos(&self) -> (r: usize)
        requires
            self.position < self.forest,
        ensures
            r == self.relative_pos_spec(),
    {
        let tree = leaf_to_corresponding_tree(self.position, self.forest).unwrap();
        assert(tree as nat == tree_of(self.position as nat, self.forest as nat));
        let before = clear_low_bits(self.forest, tree + 1);
        proof {
            lemma_forest_above_le_pos(self.position as nat, self.forest as nat);
        }
        self.position - before
    }

    /// The index of the peak of the leaf's tree among the peaks, largest first.
    pub fn peak_index(&self) -> (r: usize)
        requires
            self.position < self.forest,
        ensures
            r == self.peak_index_spec(),
    {
        let root = leaf_to_corresponding_tree(self.position, self.forest).unwrap();
        assert(root as nat == tree_of(self.position as nat, self.forest as nat));
        let mask = crate::merkle::mmr::in_order::pow2_u64(root);
        proof {
            vstd::arithmetic::power2::lemma_pow2_pos(root as nat);
            vstd::arithmetic::div_mod::lemma_mod_pos_bound(self.forest as int, mask as int);
            vstd::arithmetic::div_mod::lemma_mod_is_mod_recursive(self.forest as int, mask as int);
        }
        let rem = self.forest as u64 % mask;
        assert(rem <= self.forest) by {
            vstd::arithmetic::div_mod::lemma_mod_decreases(self.forest as nat, mask as nat);
        }
        let smaller = count_ones(rem as usize);
        let total = count_ones(self.forest);
        proof {
            let f = self.forest as nat;
            let t = root as nat;
            vstd::arithmetic::power2::lemma_pow2_pos(t);
            lemma_popcount_split(f, t);
            vstd::arithmetic::div_mod::lemma_div_pos_is_pos(f as int, pow2(t) as int);
            assert(f / pow2(t) >= 1) by {
                vstd::arithmetic::div_mod::lemma_div_basics(pow2(t) as int);
                vstd::arithmetic::div_mod::lemma_div_is_ordered(pow2(t) as int, f as int, pow2(t) as int);
            }
            lemma_popcount_pos(f / pow2(t));
        }
        (total - smaller - 1) as usize
    }
}

/// The leaves in larger trees than the one holding `pos` are at most `pos`.
proof fn lemma_forest_above_le_pos(pos: nat, forest: nat)
    requires
        pos < forest,
        forest <= usize::MAX,
    ensures
        forest_above(forest, tree_of(pos, forest) + 1) <= pos,
{
    let f = forest as u64;
    let p = pos as u64;
    let x = f ^ (f & p);
    assert(x != 0 && x <= f) by (bit_vector)
        requires
            p < f,
            x == f ^ (f & p),
    ;
    let t = ilog2(x as nat);
    lemma_ilog2_upper(x as nat);
    if t + 1 < 64 {
        let s = (t + 1) as u64;
        vstd::bits::lemma_u64_shr_is_div(x, s);
        vstd::bits::lemma_u64_shr_is_div(f, s);
        vstd::bits::lemma_u64_shr_is_div(p, s);
        vstd::arithmetic::power2::lemma_pow2_pos(s as nat);
        vstd::arithmetic::div_mod::lemma_basic_div(x as int, pow2(s as nat) as int);
        assert(f >> s == p >> s) by (bit_vector)
            requires
                p < f,
                x == f ^ (f & p),
                x >> s == 0,
                s < 64,
        ;
        vstd::arithmetic::div_mod::lemma_fundamental_div_mod(p as int, pow2(s as nat) as int);
        vstd::arithmetic::div_mod::lemma_mod_pos_bound(p as int, pow2(s as nat) as int);
    }
}

/// A positive number is below the power of two above its highest bit.
proof fn lemma_ilog2_upper(n: nat)
    requires
        n > 0,
    ensures
        n < pow2(ilog2(n) + 1),
        pow2(ilog2(n)) <= n,
    decreases n,
{
    vstd::arithmetic::power2::lemma2_to64();
    if n > 1 {
        lemma_ilog2_upper(n / 2);
        vstd::arithmetic::power2::lemma_pow2_unfold(ilog2(n) + 1);
        vstd::arithmetic::power2::lemma_pow2_unfold(ilog2(n));
    }
}

} // verus!
