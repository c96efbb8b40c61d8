//! Block-cooperative prefix sums and stream compaction over a work-assisting
//! task runtime, with the runtime as an interleaving of the atomic steps of a
//! fixed set of workers.
//!
//! Every algorithm is a state machine over plain arrays. A step of a worker
//! stands for one atomic action of a thread on the shared state of a task,
//! together with the thread-local work around it. The pool in
//! [`runtime::worker`] interleaves such steps in any order that a schedule
//! asks for, and what is proved of a task holds of every schedule.
//!
//! - [`cases::scan`] and [`cases::compact`] hold the sequential kernels of the
//!   two primitives and, below them, one module for each parallel variant.
//! - [`runtime`] holds the two claim disciplines, the block records, the
//!   machine of the chained variants and the pool.
//! - [`theorems`] states what every completed task holds.
//! - [`utils`] holds what the benchmark driver needs besides.

pub mod cases;
pub mod runtime;
pub mod theorems;
pub mod utils;
