//! The changes that bring a partial mountain range up to date.

use vstd::prelude::*;
use crate::rescue::digest::RpoDigest;

verus! {

/// The new forest and the digests a partial range needs to reach it.
#[derive(Debug)]
pub struct MmrDelta {
    pub forest: usize,
    pub data: Vec<RpoDigest>,
}

} // verus!
