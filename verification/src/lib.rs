//! Block-header engine of a small SPV node: parsing and serialising 80-byte
//! headers, proof-of-work checks over compact difficulty targets, and a header
//! chain that follows the tip with the most cumulative work.

pub mod bignum;
pub mod blockchain;
pub mod crypto;
pub mod utils;

pub use bignum::BigNat;
pub use blockchain::{BlockError, BlockHeader, ChainEntry, HeaderChain};
