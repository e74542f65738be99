//! Locality-preserving maps between pairs of `u32` and a `u64` (Z-order and
//! Hilbert order), and a compact encoding of increasing `u64` sequences.

pub mod compression;
pub mod layout;
