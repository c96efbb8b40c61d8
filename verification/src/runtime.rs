//! The work-assisting runtime: claim disciplines, block records, tasks and the pool.

pub mod block;
pub mod chained;
pub mod one_sided;
pub mod two_sided;
pub mod workassisting_loop;
pub mod worker;
