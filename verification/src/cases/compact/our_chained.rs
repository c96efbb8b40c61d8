//! Adaptive chained compaction: a worker packs its block directly for as long
//! as the block before has its prefix, and follows the chained protocol after that.

use vstd::prelude::*;
use crate::runtime::block::block_count;
use crate::runtime::chained::{Chained, Defer, Kernel, Policy, MAX_BLOCKS};

pub use crate::cases::compact::chained::{reset, BlockInfo, BLOCK_SIZE};

verus! {

/// What tells this variant apart.
pub open spec fn policy_spec() -> Policy {
    Policy {
        block_size: BLOCK_SIZE,
        adaptive: true,
        publish_aggregate: true,
        skip_aggregates: true,
        defer: Defer::Never,
    }
}

/// What tells this variant apart, as a value.
#[verifier::when_used_as_spec(policy_spec)]
pub fn policy() -> (policy: Policy)
    ensures
        policy == policy_spec(),
{
    Policy { block_size: BLOCK_SIZE, adaptive: true, publish_aggregate: true, skip_aggregates: true, defer: Defer::Never }
}

/// Resets the records and creates the task that packs the words of `input`
/// that the predicate keeps under `mask` into `output`.
pub fn create_task<'a>(mask: u64, input: &'a [u64], temp: Vec<BlockInfo>, output: Vec<u64>) -> (task: Chained<'a>)
    requires
        output@.len() == input@.len(),
        block_count(input@.len() as int, BLOCK_SIZE as int) <= MAX_BLOCKS,
        temp@.len() >= block_count(input@.len() as int, BLOCK_SIZE as int),
    ensures
        task.created(),
        task.kernel == (Kernel::Compact { mask }),
        task.policy == policy(),
        task.input@ == input@,
        task.temp@.len() == temp@.len(),
        task.output@ == output@,
{
    let mut temp = temp;
    reset(&mut temp);
    Chained::new(Kernel::Compact { mask }, policy(), input, temp, output)
}

} // verus!
