//! The limits of the benchmark charts.

use vstd::prelude::*;

verus! {

/// The largest speedup that a chart shows.
pub const MAX_SPEEDUP: u32 = 6;

/// The largest number of threads of a compaction benchmark.
pub const COMP_MAX_THREADS: u32 = 32;

/// The largest speedup that the chart of a compaction benchmark shows.
pub const COMP_MAX_SPEEDUP: u32 = 6;

} // verus!
