//! Byte-pair encoding of a byte string against a rank table, with the merge
//! engine verified against a mathematical model of greedy merging.
pub mod engine;
pub mod model;
pub mod vocab;

pub use engine::byte_pair_encode;
