//! What the benchmark driver needs besides the algorithms.

pub mod benchmark;
pub mod global_constants;
