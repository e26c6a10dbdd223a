//! Reed-Solomon erasure coding over GF(2^8).

pub mod field;
pub mod matrix;
pub mod coding;
mod tables;

pub use coding::{EncodedShards, ErasureCoding, ReconstructionInfo};
pub use field::{ErasureError, GaloisField};
