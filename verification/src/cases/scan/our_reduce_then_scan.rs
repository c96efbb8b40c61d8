//! Adaptive reduce-then-scan over the two-sided claim discipline.
//!
//! In phase 1 the leader scans the blocks from the left directly, carrying
//! its accumulator from block to block, while the followers reduce blocks
//! from the right into the last cell of each. The completion hook records how
//! many blocks went to each side. Phase 2, serial, turns the reductions into
//! prefix sums at the ends of the followers' blocks, and phase 3 scans those
//! blocks. With one worker the leader scans the whole array in phase 1.

use vstd::prelude::*;
use crate::cases::scan::reduce_then_scan::{lemma_block_of, lemma_start_order, Phase};
use crate::cases::scan::{fold_sequential, inclusive_scan, lemma_sum_subrange, lemma_wrap_add, lemma_wrap_add_int, scan_range, sum, wrap};
use crate::runtime::block::{block_count, block_end, block_range, block_start, lemma_block_bounds, lemma_block_count, partition, partition_size};
use crate::runtime::one_sided::OneSided;
use crate::runtime::two_sided::{Turn, TwoSided};
use crate::runtime::worker::{Job, MAX_THREADS};

verus! {

/// The task with its data.
pub struct Data<'a> {
    pub input: &'a [u64],
    pub output: Vec<u64>,
    pub block_size: usize,
    pub block_count: usize,
    /// The leader's accumulator: the prefix sum of what it has scanned.
    pub accumulator: u64,
    /// The number of blocks that the leader scanned, once the hook has run.
    pub sequential_block_count: u32,
    /// The number of blocks that the followers reduced, once the hook has run.
    pub parallel_block_count: u32,
    /// For measurements: the number of elements that the leader scanned.
    pub output_sequential_size: Option<u64>,
    pub phase: Phase,
    pub phase1: TwoSided,
    pub phase3: OneSided,
}

/// The task that scans `input` into `output`. With `measure`, the hook also
/// reports the number of elements that the leader scanned.
pub fn create_task<'a>(input: &'a [u64], output: Vec<u64>, measure: bool) -> (task: Data<'a>)
    requires
        output@.len() == input@.len(),
        input@.len() >= 1,
    ensures
        task.created(),
        task.input@ == input@,
        task.output@ == output@,
        task.output_sequential_size.is_some() == measure,
{
    let (block_size, block_count) = partition(output.len());
    Data {
        input,
        output,
        block_size,
        block_count,
        accumulator: 0,
        sequential_block_count: 0,
        parallel_block_count: 0,
        output_sequential_size: if measure {
            Some(0)
        } else {
            None
        },
        phase: Phase::Created,
        phase1: TwoSided::idle(),
        phase3: OneSided::idle(),
    }
}

impl<'a> Data<'a> {
    /// The number of elements of the input.
    pub open spec fn len(&self) -> int {
        self.input@.len() as int
    }

    /// The index of the first element of block `i`.
    pub open spec fn start_of(&self, i: int) -> int {
        block_start(i, self.block_size as int)
    }

    /// The index after the last element of block `i`.
    pub open spec fn end_of(&self, i: int) -> int {
        block_end(i, self.block_size as int, self.len())
    }

    /// Where the blocks before block `k` end.
    pub open spec fn boundary(&self, k: int) -> int {
        if k >= self.block_count {
            self.len()
        } else {
            self.start_of(k)
        }
    }

    /// Block `i` has all of its `block_size` elements.
    pub open spec fn full(&self, i: int) -> bool {
        self.end_of(i) == self.start_of(i) + self.block_size
    }

    /// The prefix sum of the input before `pos`.
    pub open spec fn prefix(&self, pos: int) -> u64 {
        wrap(sum(self.input@.take(pos)))
    }

    /// The sizes of the arrays and the partition into blocks fit together.
    pub open spec fn geometry(&self) -> bool {
        &&& self.input@.len() >= 1
        &&& self.output@.len() == self.input@.len()
        &&& self.block_size == partition_size(self.len())
        &&& self.block_count == block_count(self.len(), self.block_size as int)
        &&& 1 <= self.block_count <= crate::runtime::block::BLOCK_COUNT
    }

    /// The task was created and has not started.
    pub open spec fn created(&self) -> bool {
        self.phase == Phase::Created && self.geometry()
    }

    /// The last cell of block `i` holds the sum of the block.
    pub open spec fn reduced(&self, i: int) -> bool {
        self.output@[self.end_of(i) - 1] == wrap(sum(self.input@.subrange(self.start_of(i), self.end_of(i))))
    }

    /// The last cell of full block `i` holds its final value.
    pub open spec fn bounded(&self, i: int) -> bool {
        self.full(i) ==> self.output@[self.end_of(i) - 1] == self.prefix(self.end_of(i))
    }

    /// Every cell of block `i` holds its final value.
    pub open spec fn scanned(&self, i: int) -> bool {
        forall|j: int| self.start_of(i) <= j < self.end_of(i) ==> #[trigger] self.output@[j] == self.prefix(j + 1)
    }

    /// What the hook has recorded is the split that it was given.
    pub open spec fn recorded(&self) -> bool {
        &&& self.phase1.distribution == Some((self.sequential_block_count, self.parallel_block_count))
        &&& self.output_sequential_size.is_some() ==> self.output_sequential_size.unwrap() == self.boundary(
            self.sequential_block_count as int,
        )
    }

    /// The protocol invariant of a started task: what the blocks that are done
    /// have left in the arrays, by phase.
    pub open spec fn consistent(&self) -> bool {
        &&& self.geometry()
        &&& match self.phase {
            Phase::Phase1 => {
                &&& self.phase1.inv()
                &&& self.phase1.work_size == self.block_count
                &&& self.accumulator == self.prefix(self.boundary(self.phase1.sequential_done()))
                &&& forall|i: int| 0 <= i < self.phase1.sequential_done() ==> #[trigger] self.scanned(i)
                &&& forall|i: int|
                    self.phase1.sequential_done() <= i < self.block_count && self.phase1.done(i) ==> #[trigger] self.reduced(i)
                &&& self.phase1.conclusions == 1 ==> self.recorded()
            },
            Phase::Phase3 => {
                &&& self.phase3.inv()
                &&& self.concluded()
                &&& self.phase3.workers_count() == self.phase1.workers_count()
                &&& self.phase3.work_size == self.parallel_block_count
                &&& forall|i: int| 0 <= i < self.sequential_block_count ==> #[trigger] self.scanned(i)
                &&& forall|i: int|
                    #![trigger self.bounded(i)] #![trigger self.scanned(i)]
                    self.sequential_block_count <= i < self.block_count ==> self.bounded(i) && (
                    self.phase3.done(i - self.sequential_block_count) ==> self.scanned(i))
            },
            _ => false,
        }
    }

    /// The body of every block has run exactly once in phase 1, and the
    /// completion hook has run exactly once, with a split that covers all
    /// blocks; with one worker, every block went to the leader.
    pub open spec fn concluded(&self) -> bool {
        &&& self.phase1.conclusions == 1
        &&& self.recorded()
        &&& self.sequential_block_count >= 1
        &&& self.sequential_block_count + self.parallel_block_count == self.block_count
        &&& self.phase1.workers_count() == 1 ==> self.sequential_block_count == self.block_count
        &&& self.phase1.executions@.len() == self.block_count
        &&& forall|i: int| 0 <= i < self.block_count ==> #[trigger] self.phase1.executions@[i] == 1
    }

    /// The body of every block of the last phase has run exactly once.
    pub open spec fn bodies_ran(&self) -> bool {
        &&& self.phase3.executions@.len() == self.phase3.work_size
        &&& forall|i: int| 0 <= i < self.phase3.work_size ==> #[trigger] self.phase3.executions@[i] == 1
    }

    /// The task has finished: the output is the inclusive scan of the input,
    /// and the completion hook has run once.
    pub open spec fn completed(&self) -> bool {
        &&& self.phase == Phase::Finished
        &&& self.geometry()
        &&& self.output@ == inclusive_scan(self.input@)
        &&& self.concluded()
        &&& self.bodies_ran()
    }

    /// The same input and parameters.
    pub open spec fn same(&self, start: &Self) -> bool {
        &&& self.input@ == start.input@
        &&& self.output@.len() == start.output@.len()
        &&& self.output_sequential_size.is_some() == start.output_sequential_size.is_some()
    }

    /// The body of a block in phase 1: the leader scans its block from its
    /// accumulator, and a follower reduces its block into the block's last cell.
    pub fn phase1_run(&mut self, turn: Turn)
        requires
            old(self).geometry(),
            match turn {
                Turn::Arrive => true,
                Turn::Sequential(b) => b < old(self).block_count && old(self).accumulator == old(self).prefix(
                    old(self).start_of(b as int),
                ),
                Turn::Parallel(b) => b < old(self).block_count,
            },
        ensures
            final(self).geometry(),
            final(self).same(old(self)),
            final(self).phase == old(self).phase,
            final(self).phase1 == old(self).phase1,
            final(self).phase3 == old(self).phase3,
            final(self).block_size == old(self).block_size,
            final(self).block_count == old(self).block_count,
            final(self).sequential_block_count == old(self).sequential_block_count,
            final(self).parallel_block_count == old(self).parallel_block_count,
            final(self).output_sequential_size == old(self).output_sequential_size,
            match turn {
                Turn::Arrive => final(self).output@ == old(self).output@ && final(self).accumulator == old(self).accumulator,
                Turn::Sequential(b) => final(self).scanned(b as int) && final(self).accumulator == final(self).prefix(
                    final(self).end_of(b as int),
                ) && forall|j: int|
                    0 <= j < final(self).output@.len() && !(final(self).start_of(b as int) <= j < final(self).end_of(
                        b as int,
                    )) ==> final(self).output@[j] == old(self).output@[j],
                Turn::Parallel(b) => final(self).accumulator == old(self).accumulator && final(self).output@ == old(self).output@.update(
                    old(self).end_of(b as int) - 1,
                    wrap(sum(old(self).input@.subrange(old(self).start_of(b as int), old(self).end_of(b as int)))),
                ),
            },
    {
        match turn {
            Turn::Arrive => {},
            Turn::Sequential(block_index) => {
                proof {
                    lemma_block_bounds(self.len(), self.block_size as int, block_index as int);
                }
                let (start, end) = block_range(block_index as usize, self.block_size, self.input.len());
                self.accumulator = scan_range(self.input, start, end, self.accumulator, &mut self.output);
                proof {
                    let block = self.input@.subrange(start as int, end as int);
                    lemma_sum_subrange(self.input@, start as int, end as int);
                    lemma_wrap_add_int(sum(self.input@.take(start as int)), sum(block));
                    assert forall|j: int| start <= j < end implies #[trigger] self.output@[j] == self.prefix(j + 1) by {
                        assert(block.take(j - start + 1) =~= self.input@.subrange(start as int, j + 1));
                        lemma_sum_subrange(self.input@, start as int, j + 1);
                        lemma_wrap_add_int(sum(self.input@.take(start as int)), sum(block.take(j - start + 1)));
                    }
                }
            },
            Turn::Parallel(block_index) => {
                proof {
                    lemma_block_bounds(self.len(), self.block_size as int, block_index as int);
                }
                let (start, end) = block_range(block_index as usize, self.block_size, self.input.len());
                let local = fold_sequential(&self.input[start..end]);
                self.output[end - 1] = local;
            },
        }
    }

    /// The completion hook of phase 1: records how many blocks went to the
    /// leader and how many to the followers.
    pub fn conclude_distribution(&mut self, sequential_count: u32, parallel_count: u32)
        requires
            old(self).geometry(),
            sequential_count <= old(self).block_count,
        ensures
            final(self).geometry(),
            final(self).same(old(self)),
            final(self).sequential_block_count == sequential_count,
            final(self).parallel_block_count == parallel_count,
            final(self).output_sequential_size.is_some() ==> final(self).output_sequential_size.unwrap()
                == final(self).boundary(sequential_count as int),
            final(self).input@ == old(self).input@,
            final(self).output@ == old(self).output@,
            final(self).accumulator == old(self).accumulator,
            final(self).phase == old(self).phase,
            final(self).phase1 == old(self).phase1,
            final(self).phase3 == old(self).phase3,
            final(self).block_size == old(self).block_size,
            final(self).block_count == old(self).block_count,
    {
        self.sequential_block_count = sequential_count;
        self.parallel_block_count = parallel_count;
        if self.output_sequential_size.is_some() {
            let size: usize = if sequential_count as usize >= self.block_count {
                self.input.len()
            } else {
                block_range(sequential_count as usize, self.block_size, self.input.len()).0
            };
            self.output_sequential_size = Some(size as u64);
        }
    }

    /// Phase 2, serial: the sums in the last cells of the followers' full
    /// blocks become the prefix sums at the ends of those blocks.
    pub fn phase1_finish(&mut self)
        requires
            old(self).geometry(),
            1 <= old(self).sequential_block_count <= old(self).block_count,
            forall|i: int| 0 <= i < old(self).sequential_block_count ==> #[trigger] old(self).scanned(i),
            forall|i: int|
                old(self).sequential_block_count <= i < old(self).block_count ==> #[trigger] old(self).reduced(i),
        ensures
            final(self).geometry(),
            final(self).same(old(self)),
            final(self).phase == old(self).phase,
            final(self).phase1 == old(self).phase1,
            final(self).phase3 == old(self).phase3,
            final(self).block_size == old(self).block_size,
            final(self).block_count == old(self).block_count,
            final(self).sequential_block_count == old(self).sequential_block_count,
            final(self).parallel_block_count == old(self).parallel_block_count,
            final(self).output_sequential_size == old(self).output_sequential_size,
            forall|i: int| 0 <= i < final(self).sequential_block_count ==> #[trigger] final(self).scanned(i),
            forall|i: int|
                final(self).sequential_block_count <= i < final(self).block_count ==> #[trigger] final(self).bounded(i),
    {
        let count: usize = self.block_count;
        let first: usize = self.sequential_block_count as usize;
        let mut k: usize = first;
        let mut aggregate: u64 = 0;
        proof {
            lemma_block_bounds(self.len(), self.block_size as int, first - 1);
            assert(self.scanned(first - 1));
        }
        if first < count {
            aggregate = self.output[block_range(first, self.block_size, self.input.len()).0 - 1];
        }
        while k < count
            invariant
                first <= k <= count,
                first >= 1,
                count == self.block_count,
                self.geometry(),
                self.same(old(self)),
                self.phase == old(self).phase,
                self.phase1 == old(self).phase1,
                self.phase3 == old(self).phase3,
                self.block_size == old(self).block_size,
                self.sequential_block_count == old(self).sequential_block_count,
                self.parallel_block_count == old(self).parallel_block_count,
                self.output_sequential_size == old(self).output_sequential_size,
                first == self.sequential_block_count,
                forall|i: int| 0 <= i < first ==> #[trigger] self.scanned(i),
                forall|i: int| first <= i < k ==> #[trigger] self.bounded(i),
                forall|i: int| k <= i < count ==> #[trigger] self.reduced(i),
                k < count ==> aggregate == self.prefix(self.start_of(k as int)),
            decreases count - k,
        {
            let ghost before = *self;
            proof {
                lemma_block_bounds(self.len(), self.block_size as int, k as int);
                assert(self.reduced(k as int));
                lemma_sum_subrange(self.input@, self.start_of(k as int), self.end_of(k as int));
                lemma_wrap_add(
                    sum(self.input@.take(self.start_of(k as int))),
                    wrap(sum(self.input@.subrange(self.start_of(k as int), self.end_of(k as int)))),
                );
                lemma_wrap_add_int(
                    sum(self.input@.take(self.start_of(k as int))),
                    sum(self.input@.subrange(self.start_of(k as int), self.end_of(k as int))),
                );
            }
            let (start, end) = block_range(k, self.block_size, self.input.len());
            if end - start == self.block_size {
                aggregate = aggregate.wrapping_add(self.output[end - 1]);
                self.output[end - 1] = aggregate;
            }
            proof {
                assert forall|i: int| 0 <= i < first implies #[trigger] self.scanned(i) by {
                    lemma_block_bounds(self.len(), self.block_size as int, i);
                    assert(before.scanned(i));
                    lemma_start_order(i, k as int, self.block_size as int);
                }
                assert forall|i: int| first <= i < k + 1 implies #[trigger] self.bounded(i) by {
                    lemma_block_bounds(self.len(), self.block_size as int, i);
                    if i < k {
                        assert(before.bounded(i));
                        lemma_start_order(i, k as int, self.block_size as int);
                    }
                }
                assert forall|i: int| k + 1 <= i < count implies #[trigger] self.reduced(i) by {
                    lemma_block_bounds(self.len(), self.block_size as int, i);
                    assert(before.reduced(i));
                    lemma_start_order(k as int, i, self.block_size as int);
                }
            }
            k += 1;
        }
    }

    /// The body of a block in phase 3: the scan of the followers' block at
    /// this offset from the value before it. The last cell of a full block is
    /// correct already.
    pub fn phase3_run(&mut self, block_idx_offset: u32)
        requires
            old(self).geometry(),
            1 <= old(self).sequential_block_count,
            block_idx_offset + old(self).sequential_block_count < old(self).block_count,
            old(self).scanned(old(self).sequential_block_count - 1),
            forall|i: int|
                old(self).sequential_block_count <= i < old(self).block_count ==> #[trigger] old(self).bounded(i),
        ensures
            final(self).geometry(),
            final(self).same(old(self)),
            final(self).phase == old(self).phase,
            final(self).phase1 == old(self).phase1,
            final(self).phase3 == old(self).phase3,
            final(self).block_size == old(self).block_size,
            final(self).block_count == old(self).block_count,
            final(self).sequential_block_count == old(self).sequential_block_count,
            final(self).parallel_block_count == old(self).parallel_block_count,
            final(self).output_sequential_size == old(self).output_sequential_size,
            final(self).scanned(block_idx_offset + old(self).sequential_block_count),
            forall|j: int|
                0 <= j < final(self).output@.len() && !(final(self).start_of(
                    block_idx_offset + old(self).sequential_block_count,
                ) <= j < final(self).end_of(block_idx_offset + old(self).sequential_block_count)) ==> final(self).output@[j]
                    == old(self).output@[j],
            final(self).full(block_idx_offset + old(self).sequential_block_count) ==> final(self).output@[final(self).end_of(
                block_idx_offset + old(self).sequential_block_count,
            ) - 1] == old(self).output@[final(self).end_of(block_idx_offset + old(self).sequential_block_count) - 1],
    {
        let block_idx: u32 = block_idx_offset + self.sequential_block_count;
        proof {
            lemma_block_bounds(self.len(), self.block_size as int, block_idx as int);
            lemma_block_bounds(self.len(), self.block_size as int, block_idx - 1);
            assert(self.bounded(block_idx as int));
            if block_idx > self.sequential_block_count {
                assert(self.bounded(block_idx - 1));
            }
        }
        let (start, whole) = block_range(block_idx as usize, self.block_size, self.input.len());
        let end: usize = if whole - start == self.block_size {
            whole - 1
        } else {
            whole
        };
        let accumulator: u64 = self.output[start - 1];
        scan_range(self.input, start, end, accumulator, &mut self.output);
        proof {
            let block = self.input@.subrange(start as int, end as int);
            assert forall|j: int| start <= j < whole implies #[trigger] self.output@[j] == self.prefix(j + 1) by {
                if j < end {
                    assert(block.take(j - start + 1) =~= self.input@.subrange(start as int, j + 1));
                    lemma_sum_subrange(self.input@, start as int, j + 1);
                    lemma_wrap_add_int(sum(self.input@.take(start as int)), sum(block.take(j - start + 1)));
                }
            }
        }
    }

    /// The completion callback of phase 3.
    pub fn phase3_finish(&mut self)
        requires
            old(self).bodies_ran(),
            old(self).geometry(),
            old(self).concluded(),
            forall|i: int| 0 <= i < old(self).block_count ==> #[trigger] old(self).scanned(i),
        ensures
            final(self).completed(),
            final(self).phase1 == old(self).phase1,
            final(self).phase3 == old(self).phase3,
            final(self).same(old(self)),
            final(self).output@ == old(self).output@,
    {
        proof {
            lemma_block_count(self.len(), self.block_size as int);
            assert forall|j: int| 0 <= j < self.len() implies self.output@[j] == self.prefix(j + 1) by {
                let i = j / (self.block_size as int);
                lemma_block_of(self.len(), self.block_size as int, j);
                assert(self.scanned(i));
            }
            assert(self.output@ =~= inclusive_scan(self.input@));
        }
        self.phase = Phase::Finished;
    }
}


impl<'a> Data<'a> {
    /// Blocks other than the one that a body wrote keep what was known of them.
    proof fn lemma_untouched(&self, before: &Self, block: int)
        requires
            before.geometry(),
            self.geometry(),
            self.input@ == before.input@,
            self.block_size == before.block_size,
            self.block_count == before.block_count,
            0 <= block < self.block_count,
            forall|j: int|
                0 <= j < self.output@.len() && !(self.start_of(block) <= j < self.end_of(block)) ==> self.output@[j]
                    == before.output@[j],
        ensures
            forall|i: int| 0 <= i < self.block_count && i != block && before.scanned(i) ==> #[trigger] self.scanned(i),
            forall|i: int| 0 <= i < self.block_count && i != block && before.reduced(i) ==> #[trigger] self.reduced(i),
            forall|i: int| 0 <= i < self.block_count && i != block && before.bounded(i) ==> #[trigger] self.bounded(i),
    {
        assert forall|i: int| 0 <= i < self.block_count && i != block implies (before.scanned(i) ==> self.scanned(i))
            && (before.reduced(i) ==> self.reduced(i)) && (before.bounded(i) ==> self.bounded(i)) by {
            lemma_block_bounds(self.len(), self.block_size as int, i);
            lemma_block_bounds(self.len(), self.block_size as int, block);
            if i < block {
                lemma_start_order(i, block, self.block_size as int);
            } else {
                lemma_start_order(block, i, self.block_size as int);
            }
            if before.scanned(i) {
                assert forall|j: int| self.start_of(i) <= j < self.end_of(i) implies #[trigger] self.output@[j]
                    == self.prefix(j + 1) by {
                    assert(before.output@[j] == before.prefix(j + 1));
                }
            }
        }
    }
}

impl<'a> Job for Data<'a> {
    open spec fn ready(&self) -> bool {
        self.created()
    }

    open spec fn inv(&self) -> bool {
        self.consistent()
    }

    open spec fn thread_count(&self) -> nat {
        if self.phase == Phase::Phase3 {
            self.phase3.workers@.len()
        } else {
            self.phase1.workers@.len()
        }
    }

    open spec fn admits(&self, thread_count: nat) -> bool {
        thread_count <= MAX_THREADS
    }

    open spec fn finished(&self, worker: int) -> bool {
        if self.phase == Phase::Phase3 {
            self.phase3.finished(worker)
        } else {
            self.phase1.finished(worker)
        }
    }

    open spec fn runnable(&self, worker: int) -> bool {
        !self.finished(worker)
    }

    open spec fn pending(&self) -> nat {
        if self.phase == Phase::Phase3 {
            self.phase3.pending()
        } else {
            self.phase1.pending()
        }
    }

    open spec fn local_work(&self) -> nat {
        if self.phase == Phase::Phase3 {
            0
        } else {
            self.phase1.waiting()
        }
    }

    open spec fn phases_left(&self) -> nat {
        if self.phase == Phase::Phase1 {
            1
        } else {
            0
        }
    }

    open spec fn complete(&self) -> bool {
        self.completed()
    }

    open spec fn same_task(&self, start: &Self) -> bool {
        self.same(start)
    }

    proof fn lemma_same_task_reflexive(&self) {
    }

    proof fn lemma_same_task_transitive(&self, middle: &Self, start: &Self) {
    }

    proof fn lemma_live(&self, worker: int) {
        assert(self.runnable(worker));
    }

    fn start(&mut self, thread_count: usize) {
        self.phase1 = TwoSided::new(self.block_count as u32, thread_count);
        self.accumulator = 0;
        self.phase = Phase::Phase1;
        proof {
            assert(self.input@.take(0) =~= Seq::<u64>::empty());
            assert(self.start_of(0) == 0) by (nonlinear_arith)
                requires
                    self.start_of(0) == 0 * self.block_size,
            ;
        }
    }

    fn is_finished(&self, worker: usize) -> (done: bool) {
        match self.phase {
            Phase::Phase3 => self.phase3.held(worker).is_none(),
            _ => self.phase1.is_finished(worker),
        }
    }

    fn step(&mut self, worker: usize) -> (progress: bool) {
        let ghost before = *self;
        match self.phase {
            Phase::Phase1 => {
                let turn: Turn = self.phase1.turn(worker);
                proof {
                    match turn {
                        Turn::Sequential(b) => {
                            lemma_block_bounds(self.len(), self.block_size as int, b as int);
                        },
                        _ => {},
                    }
                }
                self.phase1_run(turn);
                let ghost executed = *self;
                let concluded = self.phase1.release(worker);
                if let Some((sequential_count, parallel_count)) = concluded {
                    self.conclude_distribution(sequential_count, parallel_count);
                }
                proof {
                    match turn {
                        Turn::Arrive => {
                            assert forall|i: int| 0 <= i < self.phase1.sequential_done() implies #[trigger] self.scanned(i) by {
                                assert(before.scanned(i));
                            }
                            assert forall|i: int|
                                self.phase1.sequential_done() <= i < self.block_count && self.phase1.done(i) implies #[trigger] self.reduced(i) by {
                                assert(before.phase1.done(i));
                                assert(before.reduced(i));
                            }
                        },
                        Turn::Sequential(b) => {
                            executed.lemma_untouched(&before, b as int);
                            lemma_block_bounds(self.len(), self.block_size as int, b as int);
                            assert forall|i: int| 0 <= i < self.phase1.sequential_done() implies #[trigger] self.scanned(i) by {
                                if i != b {
                                    assert(before.scanned(i));
                                    assert(executed.scanned(i));
                                }
                            }
                            assert forall|i: int|
                                self.phase1.sequential_done() <= i < self.block_count && self.phase1.done(i) implies #[trigger] self.reduced(i) by {
                                assert(before.phase1.done(i));
                                assert(before.reduced(i));
                                assert(executed.reduced(i));
                            }
                        },
                        Turn::Parallel(b) => {
                            lemma_block_bounds(self.len(), self.block_size as int, b as int);
                            assert forall|j: int|
                                0 <= j < executed.output@.len() && !(executed.start_of(b as int) <= j < executed.end_of(
                                    b as int,
                                )) implies executed.output@[j] == before.output@[j] by {}
                            executed.lemma_untouched(&before, b as int);
                            assert forall|i: int| 0 <= i < self.phase1.sequential_done() implies #[trigger] self.scanned(i) by {
                                assert(before.scanned(i));
                                assert(executed.scanned(i));
                            }
                            assert forall|i: int|
                                self.phase1.sequential_done() <= i < self.block_count && self.phase1.done(i) implies #[trigger] self.reduced(i) by {
                                if i != b {
                                    assert(before.phase1.done(i));
                                    assert(before.reduced(i));
                                        assert(executed.reduced(i));
                                }
                            }
                        },
                    }
                }
            },
            _ => {
                let offset: u32 = self.phase3.held(worker).unwrap();
                let ghost block = offset + self.sequential_block_count;
                proof {
                    assert(self.scanned(self.sequential_block_count - 1));
                    assert forall|i: int| self.sequential_block_count <= i < self.block_count implies #[trigger] self.bounded(i) by {
                        assert(self.bounded(i) && (self.phase3.done(i - self.sequential_block_count) ==> self.scanned(i)));
                    }
                }
                self.phase3_run(offset);
                let ghost executed = *self;
                self.phase3.release(worker);
                proof {
                    executed.lemma_untouched(&before, block);
                    lemma_block_bounds(self.len(), self.block_size as int, block);
                    assert forall|i: int| 0 <= i < self.sequential_block_count implies #[trigger] self.scanned(i) by {
                        assert(before.scanned(i));
                        assert(executed.scanned(i));
                    }
                    assert forall|i: int|
                        #![trigger self.bounded(i)] #![trigger self.scanned(i)]
                        self.sequential_block_count <= i < self.block_count implies self.bounded(i) && (self.phase3.done(i - self.sequential_block_count) ==> self.scanned(i)) by {
                        assert(before.bounded(i));
                        assert(before.phase3.done(i - self.sequential_block_count) ==> before.scanned(i));
                        if i != block {
                            assert(executed.bounded(i));
                            if self.phase3.done(i - self.sequential_block_count) {
                                assert(before.phase3.done(i - self.sequential_block_count));
                                assert(executed.scanned(i));
                            }
                        } else {
                            assert(executed.bounded(i));
                            assert(executed.scanned(i));
                        }
                    }
                }
            },
        }
        true
    }

    fn finish(&mut self) -> (more: bool) {
        match self.phase {
            Phase::Phase1 => {
                proof {
                    assert forall|w: int| 0 <= w < self.phase1.workers_count() implies self.phase1.finished(w) by {
                        assert(self.finished(w));
                    }
                    self.phase1.lemma_finished();
                    assert forall|i: int| 0 <= i < self.block_count implies #[trigger] self.phase1.executions@[i]
                        == 1 by {
                        assert(self.phase1.done(i));
                    }
                    assert forall|i: int|
                        self.sequential_block_count <= i < self.block_count implies #[trigger] self.reduced(i) by {
                        assert(self.phase1.done(i));
                    }
                }
                let thread_count: usize = self.phase1.workers.len();
                self.phase1_finish();
                let ghost reduced = *self;
                self.phase3 = OneSided::new(self.parallel_block_count, thread_count);
                self.phase = Phase::Phase3;
                proof {
                    assert forall|i: int| 0 <= i < self.sequential_block_count implies #[trigger] self.scanned(i) by {
                        assert(reduced.scanned(i));
                    }
                    assert forall|i: int|
                        #![trigger self.bounded(i)] #![trigger self.scanned(i)]
                        self.sequential_block_count <= i < self.block_count implies self.bounded(i) && (self.phase3.done(i - self.sequential_block_count) ==> self.scanned(i)) by {
                        assert(reduced.bounded(i));
                    }
                }
                true
            },
            _ => {
                proof {
                    assert forall|w: int| 0 <= w < self.phase3.workers_count() implies self.phase3.finished(w) by {
                        assert(self.finished(w));
                    }
                    self.phase3.lemma_finished();
                    assert forall|i: int| 0 <= i < self.block_count implies #[trigger] self.scanned(i) by {
                        if i >= self.sequential_block_count {
                            assert(self.bounded(i));
                            assert(self.phase3.done(i - self.sequential_block_count));
                        }
                    }
                }
                proof {
                    assert forall|i: int| 0 <= i < self.phase3.work_size implies #[trigger] self.phase3.executions@[i] == 1 by {
                        assert(self.phase3.done(i));
                    }
                }
                self.phase3_finish();
                false
            },
        }
    }
}

} // verus!
