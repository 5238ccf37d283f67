//! Verified building blocks of the Miden cryptographic primitives: the Goldilocks
//! field wrapper, the Rescue Prime Optimized hash and the Merkle structures built on it.

pub mod blake;
pub mod felt;
pub mod formatting;
pub mod merkle;
pub mod rand;
pub mod rescue;
pub mod utils;
