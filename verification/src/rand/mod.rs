//! Pseudo-random values drawn from a sponge.

pub mod rpo;
