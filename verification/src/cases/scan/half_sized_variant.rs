//! Chained scan over half-sized blocks that tries one look-back at once and
//! puts the block off only where that meets a record without anything published.

use vstd::prelude::*;

use crate::runtime::block::{block_count, initialized};
use crate::runtime::chained::{Chained, Defer, Kernel, Policy, MAX_BLOCKS};

pub use crate::cases::scan::half_sized_blocks::{reset, BlockInfo, BLOCK_SIZE};

verus! {

/// What tells this variant apart.
pub open spec fn policy_spec() -> Policy {
    Policy {
        block_size: BLOCK_SIZE,
        adaptive: false,
        publish_aggregate: true,
        skip_aggregates: true,
        defer: Defer::WhenPending,
    }
}

/// What tells this variant apart, as a value.
#[verifier::when_used_as_spec(policy_spec)]
pub fn policy() -> (policy: Policy)
    ensures
        policy == policy_spec(),
{
    Policy { block_size: BLOCK_SIZE, adaptive: false, publish_aggregate: true, skip_aggregates: true, defer: Defer::WhenPending }
}

/// Resets the records and creates the task that scans `input` into `output`.
pub fn init_single<'a>(input: &'a [u64], temp: Vec<BlockInfo>, output: Vec<u64>) -> (task: Chained<'a>)
    requires
        output@.len() == input@.len(),
        block_count(input@.len() as int, BLOCK_SIZE as int) <= MAX_BLOCKS,
        temp@.len() >= block_count(input@.len() as int, BLOCK_SIZE as int),
    ensures
        task.created(),
        task.kernel == Kernel::Scan,
        task.policy == policy(),
        task.input@ == input@,
        task.temp@.len() == temp@.len(),
        task.output@ == output@,
{
    let mut temp = temp;
    reset(&mut temp);
    create_task(input, temp, output)
}

/// The task that scans `input` into `output`, over records in their initial state.
pub fn create_task<'a>(input: &'a [u64], temp: Vec<BlockInfo>, output: Vec<u64>) -> (task: Chained<'a>)
    requires
        output@.len() == input@.len(),
        block_count(input@.len() as int, BLOCK_SIZE as int) <= MAX_BLOCKS,
        temp@.len() >= block_count(input@.len() as int, BLOCK_SIZE as int),
        initialized(temp@),
    ensures
        task.created(),
        task.kernel == Kernel::Scan,
        task.policy == policy(),
        task.input@ == input@,
        task.temp@ == temp@,
        task.output@ == output@,
{
    Chained::new(Kernel::Scan, policy(), input, temp, output)
}

} // verus!
