//! Synthetic key sets and Zipfian access patterns for key-value store benchmarks.

pub mod rng;
pub mod unique;
pub mod bytes;
pub mod keys;
pub mod fill;
pub mod zipfian;
pub mod structured;
pub mod load;
