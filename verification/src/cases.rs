//! The two primitives and their algorithm variants.

pub mod compact;
pub mod scan;
