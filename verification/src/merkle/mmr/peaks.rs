//! The peaks of a mountain range: the roots of its trees, largest first.

use vstd::prelude::*;
use crate::felt::Felt;
use crate::merkle::digests_view;
use crate::merkle::mmr::{MmrError, popcount, count_ones};
use crate::merkle::mmr::opening::MmrProof;
use crate::merkle::path::path_root;
use crate::rescue::digest::{RpoDigest, word_seq};
use crate::rescue::rpo::{Rpo256, rpo_perm};
use crate::rescue::sponge::{felts_seq, hash_elements_spec};

verus! {

/// The length the peaks are padded to before hashing: at least 16 words, and an
/// even number of words.
pub open spec fn padded_len(num_peaks: nat) -> nat {
    if num_peaks < 16 {
        64
    } else if num_peaks % 2 == 1 {
        (num_peaks + 1) * 4
    } else {
        num_peaks * 4
    }
}

/// The peaks' elements in order, followed by zeros up to the padded length.
pub open spec fn padded_elements(peaks: Seq<Seq<nat>>) -> Seq<nat> {
    Seq::new(padded_len(peaks.len()), |i: int| if i < 4 * peaks.len() { peaks[i / 4][i % 4] } else { 0 })
}

/// The message of the error for a number of peaks that does not match the leaves.
#[verifier::external_body]
fn peaks_count_message(ones: u32, len: usize) -> String {
    format!("number of one bits in leaves is {ones} which does not equal peak length {len}")
}

/// The peaks of a mountain range with `num_leaves` leaves.
#[derive(Debug, PartialEq, Eq)]
pub struct MmrPeaks {
    num_leaves: usize,
    peaks: Vec<RpoDigest>,
}

impl Clone for MmrPeaks {
    fn clone(&self) -> (r: Self)
        ensures
            r.leaves_spec() == self.leaves_spec(),
            r.peaks_spec() == self.peaks_spec(),
    {
        proof { use_type_invariant(self); }
        MmrPeaks { num_leaves: self.num_leaves, peaks: crate::merkle::tree::copy_digests(&self.peaks) }
    }
}

impl MmrPeaks {
    /// The number of leaves.
    pub closed spec fn leaves_spec(&self) -> nat {
        self.num_leaves as nat
    }

    /// The peaks, largest tree first.
    pub closed spec fn peaks_spec(&self) -> Seq<Seq<nat>> {
        digests_view(self.peaks@)
    }

    #[verifier::type_invariant]
    closed spec fn inv(self) -> bool {
        popcount(self.num_leaves as nat) == self.peaks@.len()
    }

    /// There is one peak per set bit of the number of leaves.
    pub fn check_count(&self)
        ensures
            popcount(self.leaves_spec()) == self.peaks_spec().len(),
    {
        proof { use_type_invariant(self); }
    }

    /// The peaks of `num_leaves` leaves; there must be one per set bit of `num_leaves`.
    pub fn new(num_leaves: usize, peaks: Vec<RpoDigest>) -> (r: Result<Self, MmrError>)
        ensures
            r is Ok <==> popcount(num_leaves as nat) == peaks@.len(),
            r matches Ok(p) ==> p.leaves_spec() == num_leaves && p.peaks_spec() == digests_view(peaks@),
            r matches Err(e) ==> e is InvalidPeaks,
    {
        let ones = count_ones(num_leaves);
        if ones as usize != peaks.len() {
            return Err(MmrError::InvalidPeaks(peaks_count_message(ones, peaks.len())));
        }
        Ok(MmrPeaks { num_leaves, peaks })
    }

    /// The number of leaves.
    pub fn num_leaves(&self) -> (r: usize)
        ensures
            r == self.leaves_spec(),
    {
        self.num_leaves
    }

    /// The number of peaks.
    pub fn num_peaks(&self) -> (r: usize)
        ensures
            r == self.peaks_spec().len(),
    {
        self.peaks.len()
    }

    /// The peaks, largest tree first.
    pub fn peaks(&self) -> (r: &[RpoDigest])
        ensures
            digests_view(r@) == self.peaks_spec(),
    {
        self.peaks.as_slice()
    }

    /// The peak at `peak_idx`.
    pub fn get_peak(&self, peak_idx: usize) -> (r: Result<RpoDigest, MmrError>)
        ensures
            peak_idx < self.peaks_spec().len() ==> (r matches Ok(d) && d@ == self.peaks_spec()[peak_idx as int]),
            peak_idx >= self.peaks_spec().len() ==> r == Err::<RpoDigest, MmrError>(
                MmrError::PeakOutOfBounds { peak_idx, peaks_len: self.peaks_spec().len() as usize }),
    {
        if peak_idx < self.peaks.len() {
            Ok(self.peaks[peak_idx])
        } else {
            Err(MmrError::PeakOutOfBounds { peak_idx, peaks_len: self.num_peaks() })
        }
    }

    /// The number of leaves and the peaks.
    pub fn into_parts(self) -> (r: (usize, Vec<RpoDigest>))
        ensures
            r.0 == self.leaves_spec(),
            digests_view(r.1@) == self.peaks_spec(),
    {
        (self.num_leaves, self.peaks)
    }

    /// The peaks' elements, padded with zeros to at least 16 words and to an even
    /// number of words.
    pub fn flatten_and_pad_peaks(&self) -> (r: Vec<Felt>)
        ensures
            felts_seq(r@) == padded_elements(self.peaks_spec()),
    {
        let n = self.peaks.len();
        proof {
            use_type_invariant(self);
            crate::merkle::mmr::lemma_popcount_bound_pub(self.num_leaves as nat);
        }
        let len: usize = if n < 16 {
            64
        } else if n % 2 == 1 {
            (n + 1) * 4
        } else {
            n * 4
        };
        let mut elements: Vec<Felt> = Vec::new();
        let mut i: usize = 0;
        while i < len
            invariant
                0 <= i <= len,
                n == self.peaks@.len(),
                n <= 64,
                len == padded_len(n as nat),
                4 * n <= len,
                elements@.len() == i,
                forall|j: int| 0 <= j < i ==> #[trigger] elements@[j]@ == padded_elements(self.peaks_spec())[j],
            decreases len - i,
        {
            if i < 4 * n {
                let w = self.peaks[i / 4].to_felts();
                elements.push(w[i % 4]);
            } else {
                elements.push(Felt::zero());
            }
            i = i + 1;
        }
        assert(felts_seq(elements@) =~= padded_elements(self.peaks_spec()));
        elements
    }

    /// The commitment to the peaks: the RPO hash of their padded elements.
    pub fn hash_peaks(&self) -> (r: RpoDigest)
        ensures
            r@ == hash_elements_spec(rpo_perm(), padded_elements(self.peaks_spec())),
    {
        let e = self.flatten_and_pad_peaks();
        Rpo256::hash_elements(e.as_slice())
    }

    /// Checks that `opening` leads from `value` to its peak.
    pub fn verify(&self, value: RpoDigest, opening: MmrProof) -> (r: Result<(), MmrError>)
        requires
            opening.position < opening.forest,
            opening.forest <= usize::MAX / 2,
        ensures
            opening.peak_index_spec() >= self.peaks_spec().len() ==> r == Err::<(), MmrError>(MmrError::PeakOutOfBounds {
                peak_idx: opening.peak_index_spec() as usize, peaks_len: self.peaks_spec().len() as usize }),
            opening.peak_index_spec() < self.peaks_spec().len() && crate::merkle::index::index_valid(
                opening.merkle_path@.len(), opening.relative_pos_spec()) ==> (r is Ok <==> path_root(opening.merkle_path@,
                opening.relative_pos_spec(), value@) == self.peaks_spec()[opening.peak_index_spec() as int]),
    {
        let root = match self.get_peak(opening.peak_index()) {
            Ok(p) => p,
            Err(e) => return Err(e),
        };
        match opening.merkle_path.verify(opening.relative_pos() as u64, value, root) {
            Ok(()) => Ok(()),
            Err(e) => Err(MmrError::InvalidMerklePath(e)),
        }
    }
}

} // verus!
