//! Chained compaction over half-sized blocks that tries one look-back at once
//! and puts the block off only where that meets a record without anything published.

use vstd::prelude::*;
use crate::runtime::block::{block_count, create_records, initialized};
use crate::runtime::chained::{Chained, Defer, Kernel, Policy, MAX_BLOCKS};

pub use crate::cases::compact::unchanged_half_sized::{reset, BlockInfo, BLOCK_SIZE};

verus! {

/// The records for an array of `size` elements, in their initial state.
pub fn create_temp(size: usize) -> (temp: Vec<BlockInfo>)
    ensures
        temp@.len() == block_count(size as int, BLOCK_SIZE as int),
        initialized(temp@),
{
    create_records(crate::runtime::block::blocks_for(size, BLOCK_SIZE))
}

/// What tells this variant apart.
pub open spec fn policy_spec() -> Policy {
    Policy {
        block_size: BLOCK_SIZE,
        adaptive: false,
        publish_aggregate: true,
        skip_aggregates: true,
        defer: Defer::WhenPending,
    }
}

/// What tells this variant apart, as a value.
#[verifier::when_used_as_spec(policy_spec)]
pub fn policy() -> (policy: Policy)
    ensures
        policy == policy_spec(),
{
    Policy { block_size: BLOCK_SIZE, adaptive: false, publish_aggregate: true, skip_aggregates: true, defer: Defer::WhenPending }
}

/// Resets the records and creates the task that packs the words of `input`
/// that the predicate keeps under `mask` into `output`.
pub fn create_task<'a>(mask: u64, input: &'a [u64], temp: Vec<BlockInfo>, output: Vec<u64>) -> (task: Chained<'a>)
    requires
        output@.len() == input@.len(),
        block_count(input@.len() as int, BLOCK_SIZE as int) <= MAX_BLOCKS,
        temp@.len() >= block_count(input@.len() as int, BLOCK_SIZE as int),
    ensures
        task.created(),
        task.kernel == (Kernel::Compact { mask }),
        task.policy == policy(),
        task.input@ == input@,
        task.temp@.len() == temp@.len(),
        task.output@ == output@,
{
    let mut temp = temp;
    reset(&mut temp);
    Chained::new(Kernel::Compact { mask }, policy(), input, temp, output)
}

} // verus!
