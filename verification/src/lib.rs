//! Systematic Reed-Solomon erasure coding over GF(2^16) in the novel
//! polynomial basis of Lin, Han and Chung (FOCS 2014).
//!
//! A payload is striped into groups of `2k` bytes, each group is encoded
//! into `n` field symbols with an additive FFT, and symbol `v` of every
//! group lands in shard `v`.  Any `k` surviving shards recover the payload.

pub mod f2e16;
pub mod tables;
pub mod transforms;
pub mod errors;
pub mod shard;
pub mod novel_poly_basis;
pub mod f256;

pub use errors::Error;
pub use f2e16::{Additive, Logarithm, Tables};
pub use novel_poly_basis::{encode, reconstruct, ReedSolomon};
pub use shard::Shard;
pub use f256::{GF2e8, Multiplier, Tables256};
