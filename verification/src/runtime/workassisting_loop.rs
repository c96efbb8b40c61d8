//! The two claim disciplines over the blocks of a task.
//!
//! A task has `work_size` blocks and one shared 32-bit claim counter. In the
//! one-sided discipline the counter is the next unclaimed block. In the
//! two-sided discipline its low 16 bits count the blocks claimed from the left
//! by the one sequential leader, and its high 16 bits count the blocks claimed
//! from the right by the parallel followers.

use vstd::prelude::*;

verus! {

/// A two-sided task must have fewer blocks than this.
pub const TWO_SIDED_LIMIT: u32 = 32768;

/// A worker's token for telling the pool that it sees no more work in a task.
/// The pool counts the first signal of each worker only.
#[derive(Clone, Copy)]
pub struct EmptySignal {
    pub signalled: bool,
}

impl EmptySignal {
    /// A token that has not signalled.
    pub fn new() -> (signal: EmptySignal)
        ensures
            !signal.signalled,
    {
        EmptySignal { signalled: false }
    }

    /// Signals that the task has no unclaimed work. Returns whether this was
    /// the worker's first signal, the one that the pool counts.
    pub fn task_empty(&mut self) -> (first: bool)
        ensures
            final(self).signalled,
            first == !old(self).signalled,
    {
        let first = !self.signalled;
        self.signalled = true;
        first
    }
}

/// What a worker is given when it starts on a task.
#[derive(Clone, Copy)]
pub struct LoopArguments {
    /// The worker's reservation: the block it starts with, if there is such a block.
    pub first_index: u32,
    /// The number of blocks of the task.
    pub work_size: u32,
    pub empty_signal: EmptySignal,
}

/// The outcome of a claim in the two-sided discipline.
pub struct Claim {
    /// The block to execute, or `None` when everything was claimed before.
    pub block: Option<u32>,
    /// Set on the one claim that takes the last block: the number of blocks
    /// that went to the leader and to the followers.
    pub distribution: Option<(u32, u32)>,
}

/// The number of claims from the left that a two-sided counter records.
pub open spec fn sequential_count(work_index: u32) -> u32 {
    work_index & 0xFFFF
}

/// The number of claims from the right that a two-sided counter records.
pub open spec fn parallel_count(work_index: u32) -> u32 {
    work_index >> 16
}

/// The two-sided counter with `sequential` claims from the left and `parallel` from the right.
pub open spec fn two_sided(sequential: int, parallel: int) -> int {
    sequential + parallel * 0x1_0000
}

/// Each half of a counter fits in 16 bits, and the halves make up the counter.
pub proof fn lemma_two_sided_counts(work_index: u32)
    ensures
        sequential_count(work_index) <= 0xFFFF,
        parallel_count(work_index) <= 0xFFFF,
        work_index == two_sided(sequential_count(work_index) as int, parallel_count(work_index) as int),
{
    assert((work_index & 0xFFFF) <= 0xFFFF) by (bit_vector);
    assert((work_index >> 16) <= 0xFFFF) by (bit_vector);
    assert(work_index == (work_index & 0xFFFF) + (work_index >> 16) * 0x1_0000) by (bit_vector);
}

/// The counts of a counter that is given by its two halves.
pub proof fn lemma_two_sided_decode(sequential: u32, parallel: u32, work_index: u32)
    requires
        sequential <= 0xFFFF,
        parallel <= 0xFFFF,
        work_index == two_sided(sequential as int, parallel as int),
    ensures
        sequential_count(work_index) == sequential,
        parallel_count(work_index) == parallel,
{
    assert(sequential <= 0xFFFF && parallel <= 0xFFFF && work_index == sequential + parallel * 0x1_0000
        ==> (work_index & 0xFFFF) == sequential && (work_index >> 16) == parallel) by (bit_vector);
}

/// The first block of a worker in the one-sided discipline: its reservation,
/// if that is a block of the task. A worker that reserved the last block, or
/// none, signals that the task is empty.
pub fn first_block(arguments: &mut LoopArguments) -> (block: Option<u32>)
    ensures
        final(arguments).first_index == old(arguments).first_index,
        final(arguments).work_size == old(arguments).work_size,
        block == if old(arguments).first_index < old(arguments).work_size {
            Some(old(arguments).first_index)
        } else {
            None::<u32>
        },
        final(arguments).empty_signal.signalled == (old(arguments).empty_signal.signalled
            || old(arguments).first_index + 1 >= old(arguments).work_size),
{
    if arguments.first_index < arguments.work_size {
        if arguments.first_index == arguments.work_size - 1 {
            arguments.empty_signal.task_empty();
        }
        Some(arguments.first_index)
    } else {
        arguments.empty_signal.task_empty();
        None
    }
}

/// The next block of a worker in the one-sided discipline, claimed from the
/// shared counter after the body of the previous block has returned. The
/// worker that claims the last block, and every worker that finds none left,
/// signals that the task is empty.
pub fn next_block(arguments: &mut LoopArguments, work_index: &mut u32) -> (block: Option<u32>)
    ensures
        final(arguments).first_index == old(arguments).first_index,
        final(arguments).work_size == old(arguments).work_size,
        *final(work_index) == vstd::wrapping::u32_specs::wrapping_add(*old(work_index), 1),
        block == if *old(work_index) < old(arguments).work_size {
            Some(*old(work_index))
        } else {
            None::<u32>
        },
        final(arguments).empty_signal.signalled == (old(arguments).empty_signal.signalled
            || *old(work_index) + 1 >= old(arguments).work_size),
{
    let claimed: u32 = *work_index;
    *work_index = claimed.wrapping_add(1);
    if claimed < arguments.work_size {
        if claimed == arguments.work_size - 1 {
            arguments.empty_signal.task_empty();
        }
        Some(claimed)
    } else {
        arguments.empty_signal.task_empty();
        None
    }
}

/// What a two-sided claim yields when the counter held `sequential` claims
/// from the left and `parallel` from the right before it, and the claim was
/// made from the left (`from_left`) or from the right.
pub open spec fn claim_outcome(work_size: u32, sequential: u32, parallel: u32, from_left: bool) -> Claim {
    let claimed = sequential + parallel + 1;
    if claimed > work_size {
        Claim { block: None, distribution: None }
    } else {
        let block = if from_left {
            sequential
        } else {
            (work_size - parallel - 1) as u32
        };
        let split = if from_left {
            ((sequential + 1) as u32, parallel)
        } else {
            (sequential, (parallel + 1) as u32)
        };
        Claim { block: Some(block), distribution: if claimed == work_size { Some(split) } else { None } }
    }
}

/// Whether a two-sided claim on a counter with these counts signals that the task is empty.
pub open spec fn claim_signals(work_size: u32, sequential: u32, parallel: u32) -> bool {
    sequential + parallel + 1 >= work_size
}

/// The arrival of a worker at a two-sided task. The worker whose reservation
/// is block 0 and who finds the counter untouched becomes the sequential
/// leader: the counter then records its claim of block 0, which is returned.
/// Every other worker becomes a parallel follower and gets `None`.
pub fn arrive(arguments: &mut LoopArguments, work_index: &mut u32) -> (lead: Option<Claim>)
    requires
        old(arguments).work_size < TWO_SIDED_LIMIT,
    ensures
        final(arguments).first_index == old(arguments).first_index,
        final(arguments).work_size == old(arguments).work_size,
        lead.is_some() == (old(arguments).first_index == 0 && *old(work_index) == 0),
        lead.is_some() ==> *final(work_index) == 1
            && lead.unwrap() == claim_outcome(old(arguments).work_size, 0, 0, true)
            && final(arguments).empty_signal.signalled == (old(arguments).empty_signal.signalled
                || old(arguments).work_size <= 1),
        lead.is_none() ==> *final(work_index) == *old(work_index)
            && final(arguments).empty_signal == old(arguments).empty_signal,
{
    if arguments.first_index == 0 && *work_index == 0 {
        *work_index = 1;
        if arguments.work_size == 0 {
            arguments.empty_signal.task_empty();
            Some(Claim { block: None, distribution: None })
        } else if arguments.work_size == 1 {
            arguments.empty_signal.task_empty();
            Some(Claim { block: Some(0), distribution: Some((1, 0)) })
        } else {
            Some(Claim { block: Some(0), distribution: None })
        }
    } else {
        None
    }
}

/// The leader's claim of its next block from the left, made after the body of
/// its previous block has returned.
pub fn claim_sequential(arguments: &mut LoopArguments, work_index: &mut u32) -> (claim: Claim)
    requires
        old(arguments).work_size < TWO_SIDED_LIMIT,
    ensures
        final(arguments).first_index == old(arguments).first_index,
        final(arguments).work_size == old(arguments).work_size,
        *final(work_index) == vstd::wrapping::u32_specs::wrapping_add(*old(work_index), 1),
        claim == claim_outcome(
            old(arguments).work_size,
            sequential_count(*old(work_index)),
            parallel_count(*old(work_index)),
            true,
        ),
        final(arguments).empty_signal.signalled == (old(arguments).empty_signal.signalled || claim_signals(
            old(arguments).work_size,
            sequential_count(*old(work_index)),
            parallel_count(*old(work_index)),
        )),
{
    let index_value: u32 = *work_index;
    *work_index = index_value.wrapping_add(1);
    let sequential: u32 = index_value & 0xFFFF;
    let parallel: u32 = index_value >> 16;
    proof {
        lemma_two_sided_counts(index_value);
    }
    let count_claimed: u32 = sequential + parallel + 1;
    if count_claimed > arguments.work_size {
        arguments.empty_signal.task_empty();
        Claim { block: None, distribution: None }
    } else if count_claimed == arguments.work_size {
        arguments.empty_signal.task_empty();
        Claim { block: Some(sequential), distribution: Some((sequential + 1, parallel)) }
    } else {
        Claim { block: Some(sequential), distribution: None }
    }
}

/// A follower's claim of its next block from the right.
pub fn claim_parallel(arguments: &mut LoopArguments, work_index: &mut u32) -> (claim: Claim)
    requires
        old(arguments).work_size < TWO_SIDED_LIMIT,
    ensures
        final(arguments).first_index == old(arguments).first_index,
        final(arguments).work_size == old(arguments).work_size,
        *final(work_index) == vstd::wrapping::u32_specs::wrapping_add(*old(work_index), 0x1_0000),
        claim == claim_outcome(
            old(arguments).work_size,
            sequential_count(*old(work_index)),
            parallel_count(*old(work_index)),
            false,
        ),
        final(arguments).empty_signal.signalled == (old(arguments).empty_signal.signalled || claim_signals(
            old(arguments).work_size,
            sequential_count(*old(work_index)),
            parallel_count(*old(work_index)),
        )),
{
    let index_value: u32 = *work_index;
    *work_index = index_value.wrapping_add(1 << 16);
    let sequential: u32 = index_value & 0xFFFF;
    let parallel: u32 = index_value >> 16;
    proof {
        lemma_two_sided_counts(index_value);
        assert(1u32 << 16 == 0x1_0000u32) by (bit_vector);
    }
    let count_claimed: u32 = sequential + parallel + 1;
    if count_claimed > arguments.work_size {
        arguments.empty_signal.task_empty();
        Claim { block: None, distribution: None }
    } else if count_claimed == arguments.work_size {
        arguments.empty_signal.task_empty();
        Claim { block: Some(arguments.work_size - parallel - 1), distribution: Some((sequential, parallel + 1)) }
    } else {
        Claim { block: Some(arguments.work_size - parallel - 1), distribution: None }
    }
}

} // verus!
