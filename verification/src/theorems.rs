//! What holds of every run of a task, whatever the schedule.
//!
//! The pool runs a task from its created state to a completed state of the
//! same task. Each theorem here takes those two states, or the results of two
//! runs, and says what the completed state holds in terms of the input.

use vstd::prelude::*;
use crate::cases::compact::{count, kept, predicate_spec};
use crate::cases::scan::{inclusive_scan, sum, wrap};
use crate::runtime::block::{initialized, total, BlockInfo};
use crate::runtime::chained::{Chained, Kernel};
use crate::runtime::one_sided::OneSided;
use crate::runtime::two_sided::TwoSided;

verus! {

/// Every cell of a scan is the wrapping sum of the input up to and including it.
pub proof fn theorem_scan_cells(input: Seq<u64>, output: Seq<u64>, i: int)
    requires
        output == inclusive_scan(input),
        0 <= i < input.len(),
    ensures
        output.len() == input.len(),
        output[i] == wrap(sum(input.take(i + 1))),
        i == 0 ==> output[i] == input[0],
        i > 0 ==> output[i] == vstd::wrapping::u64_specs::wrapping_add(output[i - 1], input[i]),
{
    crate::cases::scan::lemma_sum_take_step(input, i);
    if i == 0 {
        assert(input.take(0) =~= Seq::<u64>::empty());
    } else {
        crate::cases::scan::lemma_wrap_add(sum(input.take(i)), input[i]);
    }
}

/// The kept words are the words that pass the predicate, in input order.
pub proof fn theorem_kept_is_filter(mask: u64, input: Seq<u64>)
    ensures
        kept(mask, input) == input.filter(|v: u64| predicate_spec(mask, v)),
    decreases input.len(),
{
    reveal(Seq::filter);
    if input.len() > 0 {
        theorem_kept_is_filter(mask, input.drop_last());
    }
}

/// A chained scan ends with the prefix sums of its input in the output.
pub proof fn theorem_chained_scan(start: &Chained, end: &Chained)
    requires
        start.created(),
        start.kernel == Kernel::Scan,
        end.completed(),
        end.same(start),
    ensures
        end.output@ == inclusive_scan(start.input@),
{
}

/// A chained compaction ends with the kept words of its input at the start
/// of the output, in input order, and with their number published. The cells
/// behind them are not specified.
pub proof fn theorem_chained_compact(start: &Chained, end: &Chained, mask: u64)
    requires
        start.created(),
        start.kernel == (Kernel::Compact { mask }),
        end.completed(),
        end.same(start),
    ensures
        end.output_count == count(mask, start.input@),
        end.output@.take(end.output_count as int) == kept(mask, start.input@),
{
}

/// Two scans of the same input have the same output.
pub proof fn theorem_scan_deterministic(input: Seq<u64>, first: Seq<u64>, second: Seq<u64>)
    requires
        first == inclusive_scan(input),
        second == inclusive_scan(input),
    ensures
        first == second,
{
}

/// Two chained tasks over the same input with the same kernel end with the
/// same results, whatever their variants, their numbers of workers, their
/// schedules and the records that they started from.
pub proof fn theorem_chained_deterministic(
    first_start: &Chained,
    first_end: &Chained,
    second_start: &Chained,
    second_end: &Chained,
)
    requires
        first_start.created(),
        second_start.created(),
        first_end.completed(),
        second_end.completed(),
        first_end.same(first_start),
        second_end.same(second_start),
        first_start.input@ == second_start.input@,
        first_start.kernel == second_start.kernel,
    ensures
        match first_start.kernel {
            Kernel::Scan => first_end.output@ == second_end.output@,
            Kernel::Compact { mask } => first_end.output_count == second_end.output_count && first_end.output@.take(
                first_end.output_count as int,
            ) == second_end.output@.take(second_end.output_count as int),
        },
{
}

/// A single worker of an adaptive chained task handles the whole array in
/// sequential mode.
pub proof fn theorem_chained_alone(end: &Chained)
    requires
        end.completed(),
        end.policy.adaptive,
        end.workers@.len() == 1,
    ensures
        end.workers@[0].sequential,
{
}

/// Records that were reset hold nothing of what they held before: any two
/// arrays of reset records of one length are equal.
pub proof fn theorem_reset_forgets(first: Seq<BlockInfo>, second: Seq<BlockInfo>)
    requires
        initialized(first),
        initialized(second),
        first.len() == second.len(),
    ensures
        first == second,
{
    assert forall|i: int| 0 <= i < first.len() implies first[i] == second[i] by {
        assert(first[i].state == second[i].state);
    }
    assert(first =~= second);
}

/// When all ones are added up, the sum is their number.
pub proof fn lemma_total_ones(s: Seq<nat>)
    requires
        forall|i: int| 0 <= i < s.len() ==> s[i] == 1,
    ensures
        total(s) == s.len(),
    decreases s.len(),
{
    if s.len() > 0 {
        lemma_total_ones(s.drop_last());
    }
}

/// The counters of how often each body has run, as natural numbers.
pub open spec fn runs(executions: Seq<u32>) -> Seq<nat> {
    Seq::new(executions.len(), |i: int| executions[i] as nat)
}

/// In a completed chained task the body of every block has run exactly
/// once: the counters add up to the number of blocks. Every worker has
/// signalled that the task is empty.
pub proof fn theorem_chained_bodies(end: &Chained)
    requires
        end.completed(),
    ensures
        forall|i: int| 0 <= i < end.work_size ==> end.executions@[i] == 1,
        total(runs(end.executions@)) == end.work_size,
        forall|w: int| 0 <= w < end.workers@.len() ==> (#[trigger] end.workers@[w]).arguments.empty_signal.signalled,
{
    lemma_total_ones(runs(end.executions@));
}

/// When every worker has left a one-sided phase, the body of every block has
/// run exactly once: the counters add up to the number of blocks. Every
/// worker has signalled that the task is empty.
pub proof fn theorem_one_sided_bodies(claims: &OneSided)
    requires
        claims.inv(),
        forall|w: int| 0 <= w < claims.workers_count() ==> claims.finished(w),
    ensures
        forall|i: int| 0 <= i < claims.work_size ==> claims.executions@[i] == 1,
        total(runs(claims.executions@)) == claims.work_size,
        forall|w: int|
            0 <= w < claims.workers_count() ==> (#[trigger] claims.workers@[w]).arguments.empty_signal.signalled,
{
    claims.lemma_finished();
    assert forall|i: int| 0 <= i < claims.work_size implies claims.executions@[i] == 1 by {
        assert(claims.done(i));
    }
    assert forall|i: int| 0 <= i < runs(claims.executions@).len() implies runs(claims.executions@)[i] == 1 by {
        assert(claims.done(i));
    }
    lemma_total_ones(runs(claims.executions@));
}

/// When every worker has left a two-sided phase, the body of every block has
/// run exactly once, and the completion hook has run exactly once, with a
/// split that adds up to the number of blocks. With a single worker the
/// leader has taken every block.
pub proof fn theorem_two_sided_conclusion(claims: &TwoSided)
    requires
        claims.inv(),
        forall|w: int| 0 <= w < claims.workers_count() ==> claims.finished(w),
    ensures
        forall|i: int| 0 <= i < claims.work_size ==> claims.executions@[i] == 1,
        total(runs(claims.executions@)) == claims.work_size,
        claims.conclusions == 1,
        claims.distribution.is_some(),
        claims.distribution.unwrap().0 + claims.distribution.unwrap().1 == claims.work_size,
        claims.distribution.unwrap().0 >= 1,
        claims.workers_count() == 1 ==> claims.distribution.unwrap() == (claims.work_size, 0u32),
        forall|w: int|
            0 <= w < claims.workers_count() ==> (#[trigger] claims.workers@[w]).arguments.empty_signal.signalled,
{
    claims.lemma_finished();
    assert forall|i: int| 0 <= i < claims.work_size implies claims.executions@[i] == 1 by {
        assert(claims.done(i));
    }
    assert forall|i: int| 0 <= i < runs(claims.executions@).len() implies runs(claims.executions@)[i] == 1 by {
        assert(claims.done(i));
    }
    lemma_total_ones(runs(claims.executions@));
}

/// A reduce-then-scan ends with the prefix sums of its input in the output.
/// The body of every block of its last phase has run exactly once.
pub proof fn theorem_reduce_then_scan(start: &crate::cases::scan::reduce_then_scan::Data, end: &crate::cases::scan::reduce_then_scan::Data)
    requires
        start.created(),
        end.completed(),
        end.same(start),
    ensures
        end.output@ == inclusive_scan(start.input@),
        end.bodies_ran(),
{
}

/// An adaptive reduce-then-scan ends with the prefix sums of its input in the
/// output. Its completion hook has run exactly once, with a split that adds up
/// to the number of blocks, and with a single worker the leader has scanned
/// every block.
/// The body of every block of its last phase has run exactly once.
pub proof fn theorem_our_reduce_then_scan(start: &crate::cases::scan::our_reduce_then_scan::Data, end: &crate::cases::scan::our_reduce_then_scan::Data)
    requires
        start.created(),
        end.completed(),
        end.same(start),
    ensures
        end.output@ == inclusive_scan(start.input@),
        end.phase1.conclusions == 1,
        end.sequential_block_count >= 1,
        end.sequential_block_count + end.parallel_block_count == end.block_count,
        end.phase1.workers_count() == 1 ==> end.sequential_block_count == end.block_count,
        end.bodies_ran(),
{
}

/// A reduce-then-scan compaction ends with the kept words of its input at the
/// start of the output, in input order, and with their number published.
/// The body of every block of its last phase has run exactly once.
pub proof fn theorem_reduce_then_compact(start: &crate::cases::compact::reduce_then_scan::Data, end: &crate::cases::compact::reduce_then_scan::Data)
    requires
        start.created(),
        end.completed(),
        end.same(start),
    ensures
        end.output_count == count(start.mask, start.input@),
        end.output@.take(end.output_count as int) == kept(start.mask, start.input@),
        end.bodies_ran(),
{
}

/// A scan-then-propagate compaction ends with the kept words of its input at
/// the start of the output, in input order, and with their number published.
/// The body of every block of its last phase has run exactly once.
pub proof fn theorem_scan_then_propagate_compact(start: &crate::cases::compact::scan_then_propagate::Data, end: &crate::cases::compact::scan_then_propagate::Data)
    requires
        start.created(),
        end.completed(),
        end.same(start),
    ensures
        end.output_count == count(start.mask, start.input@),
        end.output@.take(end.output_count as int) == kept(start.mask, start.input@),
        end.bodies_ran(),
{
}

/// An adaptive reduce-then-scan compaction ends with the kept words of its
/// input at the start of the output, in input order, and with their number
/// published. Its completion hook has run exactly once, with a split that adds
/// up to the number of blocks, and with a single worker the leader has packed
/// every block.
/// The body of every block of its last phase has run exactly once.
pub proof fn theorem_our_reduce_then_compact(start: &crate::cases::compact::our_reduce_then_scan::Data, end: &crate::cases::compact::our_reduce_then_scan::Data)
    requires
        start.created(),
        end.completed(),
        end.same(start),
    ensures
        end.output_count == count(start.mask, start.input@),
        end.output@.take(end.output_count as int) == kept(start.mask, start.input@),
        end.phase1.conclusions == 1,
        end.sequential_block_count >= 1,
        end.phase1.distribution.is_some(),
        end.phase1.distribution.unwrap().0 == end.sequential_block_count,
        end.sequential_block_count + end.phase1.distribution.unwrap().1 == end.block_count,
        end.phase1.workers_count() == 1 ==> end.sequential_block_count == end.block_count,
        end.bodies_ran(),
{
}

/// An adaptive scan-then-propagate compaction ends with the kept words of its
/// input at the start of the output, in input order, and with their number
/// published. Its completion hook has run exactly once, with a split that adds
/// up to the number of blocks, and with a single worker the leader has packed
/// every block.
/// The body of every block of its last phase has run exactly once.
pub proof fn theorem_our_scan_then_propagate_compact(start: &crate::cases::compact::our_scan_then_propagate::Data, end: &crate::cases::compact::our_scan_then_propagate::Data)
    requires
        start.created(),
        end.completed(),
        end.same(start),
    ensures
        end.output_count == count(start.mask, start.input@),
        end.output@.take(end.output_count as int) == kept(start.mask, start.input@),
        end.phase1.conclusions == 1,
        end.sequential_block_count >= 1,
        end.phase1.distribution.is_some(),
        end.phase1.distribution.unwrap().0 == end.sequential_block_count,
        end.sequential_block_count + end.phase1.distribution.unwrap().1 == end.block_count,
        end.phase1.workers_count() == 1 ==> end.sequential_block_count == end.block_count,
        end.bodies_ran(),
{
}

/// A scan-then-propagate ends with the prefix sums of its input in the output.
/// The body of every block of its last phase has run exactly once.
pub proof fn theorem_scan_then_propagate(
    start: &crate::cases::scan::scan_then_propagate::Data,
    end: &crate::cases::scan::scan_then_propagate::Data,
)
    requires
        start.created(),
        end.completed(),
        end.same(start),
    ensures
        end.output@ == inclusive_scan(start.input@),
        end.bodies_ran(),
{
}

/// An adaptive scan-then-propagate ends with the prefix sums of its input in
/// the output. Its completion hook has run exactly once, with a split that
/// adds up to the number of blocks, and with a single worker the leader has
/// scanned every block.
/// The body of every block of its last phase has run exactly once.
pub proof fn theorem_our_scan_then_propagate(
    start: &crate::cases::scan::our_scan_then_propagate::Data,
    end: &crate::cases::scan::our_scan_then_propagate::Data,
)
    requires
        start.created(),
        end.completed(),
        end.same(start),
    ensures
        end.output@ == inclusive_scan(start.input@),
        end.phase1.conclusions == 1,
        end.sequential_block_count >= 1,
        end.sequential_block_count + end.parallel_block_count == end.block_count,
        end.phase1.workers_count() == 1 ==> end.sequential_block_count == end.block_count,
        end.bodies_ran(),
{
}

/// Two compactions of the same input under the same mask publish the same
/// number and hold the same words before it.
pub proof fn theorem_compact_deterministic(
    mask: u64,
    input: Seq<u64>,
    first: Seq<u64>,
    first_count: int,
    second: Seq<u64>,
    second_count: int,
)
    requires
        first_count == count(mask, input),
        second_count == count(mask, input),
        first.take(first_count) == kept(mask, input),
        second.take(second_count) == kept(mask, input),
    ensures
        first_count == second_count,
        first.take(first_count) == second.take(second_count),
{
}

} // verus!
