//! Adaptive reduce-then-scan compaction over the two-sided claim discipline.
//!
//! In phase 1 the leader packs the blocks from the left directly, carrying
//! its output index from block to block, while the followers count the kept
//! words of blocks from the right. The completion hook records how many
//! blocks the leader packed. Phase 2, serial, turns the followers' counts
//! into output indices and publishes the total, and phase 3 packs the
//! followers' blocks.

use vstd::prelude::*;
use crate::cases::compact::{compact_range, count, count_sequential, kept, lemma_count_bound, lemma_count_monotonic, lemma_kept_split, lemma_packed_all, lemma_packed_apart, lemma_packed_join, packed};
use crate::cases::scan::reduce_then_scan::{lemma_start_order, Phase};
use crate::runtime::block::{block_count, block_end, block_range, block_start, lemma_block_bounds, partition, partition_size};
use crate::runtime::one_sided::OneSided;
use crate::runtime::two_sided::{Turn, TwoSided};
use crate::runtime::worker::{Job, MAX_THREADS};

verus! {

/// The task with its data.
pub struct Data<'a> {
    pub mask: u64,
    pub input: &'a [u64],
    /// One cell per block: for a block of the leader the output index after
    /// it, for a block of the followers its count, then the output index at
    /// which it starts.
    pub temp: Vec<u64>,
    pub output: Vec<u64>,
    /// The number of kept words, published by phase 2.
    pub output_count: usize,
    pub block_size: usize,
    pub block_count: usize,
    /// The leader's output index: the number of kept words that it has packed.
    pub accumulator: usize,
    /// The number of blocks that the leader packed, once the hook has run.
    pub sequential_block_count: u32,
    pub phase: Phase,
    pub phase1: TwoSided,
    pub phase3: OneSided,
}

/// The task that packs the words of `input` that the predicate keeps under
/// `mask` into `output`, with one cell of `temp` for each block.
pub fn create_task<'a>(mask: u64, input: &'a [u64], temp: Vec<u64>, output: Vec<u64>) -> (task: Data<'a>)
    requires
        input@.len() >= 1,
        output@.len() == input@.len(),
        temp@.len() >= block_count(input@.len() as int, partition_size(input@.len() as int)),
    ensures
        task.created(),
        task.mask == mask,
        task.input@ == input@,
        task.temp@ == temp@,
        task.output@ == output@,
{
    let (block_size, block_count) = partition(output.len());
    Data {
        mask,
        input,
        temp,
        output,
        output_count: 0,
        block_size,
        block_count,
        accumulator: 0,
        sequential_block_count: 0,
        phase: Phase::Created,
        phase1: TwoSided::idle(),
        phase3: OneSided::idle(),
    }
}

impl<'a> Data<'a> {
    /// The number of elements of the input.
    pub open spec fn len(&self) -> int {
        self.input@.len() as int
    }

    /// The index of the first element of block `i`.
    pub open spec fn start_of(&self, i: int) -> int {
        block_start(i, self.block_size as int)
    }

    /// The index after the last element of block `i`.
    pub open spec fn end_of(&self, i: int) -> int {
        block_end(i, self.block_size as int, self.len())
    }

    /// Where the blocks before block `k` end.
    pub open spec fn boundary(&self, k: int) -> int {
        if k >= self.block_count {
            self.len()
        } else {
            self.start_of(k)
        }
    }

    /// The number of kept words before `pos`.
    pub open spec fn counted(&self, pos: int) -> nat {
        count(self.mask, self.input@.take(pos))
    }

    /// The number of kept words of block `i`.
    pub open spec fn block_total(&self, i: int) -> nat {
        count(self.mask, self.input@.subrange(self.start_of(i), self.end_of(i)))
    }

    /// The kept words of block `i` are in their output cells.
    pub open spec fn block_packed(&self, i: int) -> bool {
        packed(self.mask, self.input@, self.output@, self.start_of(i), self.end_of(i))
    }

    /// The sizes of the arrays and the partition into blocks fit together.
    pub open spec fn geometry(&self) -> bool {
        &&& self.input@.len() >= 1
        &&& self.output@.len() == self.input@.len()
        &&& self.block_size == partition_size(self.len())
        &&& self.block_count == block_count(self.len(), self.block_size as int)
        &&& 1 <= self.block_count <= crate::runtime::block::BLOCK_COUNT
        &&& self.temp@.len() >= self.block_count
    }

    /// The task was created and has not started.
    pub open spec fn created(&self) -> bool {
        self.phase == Phase::Created && self.geometry()
    }

    /// After phase 2: the cell of every block of the followers holds the
    /// output index at which the block starts, and the number of kept words
    /// is published.
    pub open spec fn indexed(&self) -> bool {
        &&& self.output_count == count(self.mask, self.input@)
        &&& forall|i: int|
            self.sequential_block_count <= i < self.block_count ==> #[trigger] self.temp@[i] == self.counted(
                self.start_of(i),
            )
    }

    /// The body of every block has run exactly once in phase 1, and the
    /// completion hook has run exactly once, with a split that covers all
    /// blocks; with one worker, every block went to the leader.
    pub open spec fn concluded(&self) -> bool {
        &&& self.phase1.conclusions == 1
        &&& self.phase1.distribution.is_some()
        &&& self.phase1.distribution.unwrap().0 == self.sequential_block_count
        &&& self.sequential_block_count >= 1
        &&& self.sequential_block_count + self.phase1.distribution.unwrap().1 == self.block_count
        &&& self.phase1.workers_count() == 1 ==> self.sequential_block_count == self.block_count
        &&& self.phase1.executions@.len() == self.block_count
        &&& forall|i: int| 0 <= i < self.block_count ==> #[trigger] self.phase1.executions@[i] == 1
    }

    /// The protocol invariant of a started task: what the blocks that are done
    /// have left in the arrays, by phase.
    pub open spec fn consistent(&self) -> bool {
        &&& self.geometry()
        &&& match self.phase {
            Phase::Phase1 => {
                &&& self.phase1.inv()
                &&& self.phase1.work_size == self.block_count
                &&& self.accumulator == self.counted(self.boundary(self.phase1.sequential_done()))
                &&& forall|i: int|
                    #![trigger self.block_packed(i)] #![trigger self.temp@[i]
                    ]
                    0 <= i < self.phase1.sequential_done() ==> self.block_packed(i) && self.temp@[i]
                        == self.counted(self.end_of(i))
                &&& forall|i: int|
                    self.phase1.sequential_done() <= i < self.block_count && self.phase1.done(i) ==> #[trigger] self.temp@[i]
                        == self.block_total(i)
                &&& self.phase1.conclusions == 1 ==> self.phase1.distribution.is_some()
                    && self.phase1.distribution.unwrap().0 == self.sequential_block_count
            },
            Phase::Phase3 => {
                &&& self.phase3.inv()
                &&& self.concluded()
                &&& self.phase3.workers_count() == self.phase1.workers_count()
                &&& self.phase3.work_size == self.block_count - self.sequential_block_count
                &&& self.indexed()
                &&& forall|i: int| 0 <= i < self.sequential_block_count ==> #[trigger] self.block_packed(i)
                &&& forall|i: int|
                    self.sequential_block_count <= i < self.block_count && self.phase3.done(
                        i - self.sequential_block_count,
                    ) ==> #[trigger] self.block_packed(i)
            },
            _ => false,
        }
    }

    /// The body of every block of the last phase has run exactly once.
    pub open spec fn bodies_ran(&self) -> bool {
        &&& self.phase3.executions@.len() == self.phase3.work_size
        &&& forall|i: int| 0 <= i < self.phase3.work_size ==> #[trigger] self.phase3.executions@[i] == 1
    }

    /// The output starts with the kept words of the input, in order, their
    /// number is published, and the hook has run once.
    pub open spec fn completed(&self) -> bool {
        &&& self.phase == Phase::Finished
        &&& self.geometry()
        &&& self.output_count == count(self.mask, self.input@)
        &&& self.output@.take(self.output_count as int) == kept(self.mask, self.input@)
        &&& self.concluded()
        &&& self.bodies_ran()
    }

    /// The same input and parameters.
    pub open spec fn same(&self, start: &Self) -> bool {
        &&& self.mask == start.mask
        &&& self.input@ == start.input@
        &&& self.output@.len() == start.output@.len()
        &&& self.temp@.len() == start.temp@.len()
    }

    /// The rest of the task is as it was.
    pub open spec fn frame(&self, before: &Self) -> bool {
        &&& self.same(before)
        &&& self.phase == before.phase
        &&& self.phase1 == before.phase1
        &&& self.phase3 == before.phase3
        &&& self.block_size == before.block_size
        &&& self.block_count == before.block_count
        &&& self.output_count == before.output_count
        &&& self.sequential_block_count == before.sequential_block_count
    }

    /// The body of a block in phase 1: the leader packs its block from its
    /// output index and notes the index after it, and a follower counts the
    /// kept words of its block.
    pub fn phase1_run(&mut self, turn: Turn)
        requires
            old(self).geometry(),
            match turn {
                Turn::Arrive => true,
                Turn::Sequential(b) => b < old(self).block_count && old(self).accumulator == old(self).counted(
                    old(self).start_of(b as int),
                ),
                Turn::Parallel(b) => b < old(self).block_count,
            },
        ensures
            final(self).geometry(),
            final(self).frame(old(self)),
            match turn {
                Turn::Arrive => final(self).output@ == old(self).output@ && final(self).temp@ == old(self).temp@
                    && final(self).accumulator == old(self).accumulator,
                Turn::Sequential(b) => {
                    &&& final(self).block_packed(b as int)
                    &&& final(self).accumulator == final(self).counted(final(self).end_of(b as int))
                    &&& final(self).temp@ == old(self).temp@.update(b as int, final(self).accumulator as u64)
                    &&& forall|c: int|
                        0 <= c < final(self).output@.len() && !(final(self).counted(final(self).start_of(b as int)) <= c
                            < final(self).counted(final(self).end_of(b as int))) ==> #[trigger] final(self).output@[c]
                            == old(self).output@[c]
                },
                Turn::Parallel(b) => final(self).accumulator == old(self).accumulator && final(self).output@ == old(self).output@ && final(self).temp@ == old(self).temp@.update(
                    b as int,
                    old(self).block_total(b as int) as u64,
                ),
            },
    {
        match turn {
            Turn::Arrive => {},
            Turn::Sequential(block_index) => {
                proof {
                    lemma_block_bounds(self.len(), self.block_size as int, block_index as int);
                }
                let (start, end) = block_range(block_index as usize, self.block_size, self.input.len());
                self.accumulator = compact_range(self.mask, self.input, start, end, self.accumulator, &mut self.output);
                self.temp[block_index as usize] = self.accumulator as u64;
            },
            Turn::Parallel(block_index) => {
                proof {
                    lemma_block_bounds(self.len(), self.block_size as int, block_index as int);
                }
                let (start, end) = block_range(block_index as usize, self.block_size, self.input.len());
                let local = count_sequential(self.mask, &self.input[start..end]);
                self.temp[block_index as usize] = local as u64;
            },
        }
    }

    /// The completion hook of phase 1: records how many blocks went to the leader.
    pub fn conclude_distribution(&mut self, sequential_count: u32, parallel_count: u32)
        ensures
            final(self).sequential_block_count == sequential_count,
            final(self).same(old(self)),
            final(self).phase == old(self).phase,
            final(self).phase1 == old(self).phase1,
            final(self).phase3 == old(self).phase3,
            final(self).block_size == old(self).block_size,
            final(self).block_count == old(self).block_count,
            final(self).output_count == old(self).output_count,
            final(self).accumulator == old(self).accumulator,
            final(self).input@ == old(self).input@,
            final(self).output@ == old(self).output@,
            final(self).temp@ == old(self).temp@,
    {
        self.sequential_block_count = sequential_count;
    }

    /// Phase 2, serial: the counts of the followers' blocks become the output
    /// indices at which those blocks start, and the total is published.
    pub fn phase1_finish(&mut self)
        requires
            old(self).geometry(),
            1 <= old(self).sequential_block_count <= old(self).block_count,
            old(self).temp@[old(self).sequential_block_count - 1] == old(self).counted(
                old(self).end_of(old(self).sequential_block_count - 1),
            ),
            forall|i: int|
                old(self).sequential_block_count <= i < old(self).block_count ==> #[trigger] old(self).temp@[i] == old(self).block_total(i),
        ensures
            final(self).geometry(),
            final(self).same(old(self)),
            final(self).phase == old(self).phase,
            final(self).phase1 == old(self).phase1,
            final(self).phase3 == old(self).phase3,
            final(self).block_size == old(self).block_size,
            final(self).block_count == old(self).block_count,
            final(self).sequential_block_count == old(self).sequential_block_count,
            final(self).output@ == old(self).output@,
            final(self).indexed(),
    {
        let count: usize = self.block_count;
        let total: usize = self.input.len();
        let first: usize = self.sequential_block_count as usize;
        let mut accumulator: u64 = self.temp[first - 1];
        let mut k: usize = first;
        proof {
            lemma_block_bounds(self.len(), self.block_size as int, first - 1);
        }
        while k < count
            invariant
                1 <= first <= k <= count,
                count == self.block_count,
                total == self.len(),
                first == self.sequential_block_count,
                self.geometry(),
                self.same(old(self)),
                self.phase == old(self).phase,
                self.phase1 == old(self).phase1,
                self.phase3 == old(self).phase3,
                self.block_size == old(self).block_size,
                self.sequential_block_count == old(self).sequential_block_count,
                self.output@ == old(self).output@,
                accumulator == self.counted(self.boundary(k as int)),
                forall|i: int| first <= i < k ==> #[trigger] self.temp@[i] == self.counted(self.start_of(i)),
                forall|i: int| k <= i < count ==> #[trigger] self.temp@[i] == self.block_total(i),
            decreases count - k,
        {
            proof {
                lemma_block_bounds(self.len(), self.block_size as int, k as int);
                lemma_kept_split(self.mask, self.input@, self.start_of(k as int), self.end_of(k as int));
                lemma_count_monotonic(self.mask, self.input@, self.start_of(k as int), self.end_of(k as int));
            }
            let local: u64 = self.temp[k];
            self.temp[k] = accumulator;
            accumulator = accumulator + local;
            k += 1;
        }
        proof {
            assert(self.input@.take(self.len()) =~= self.input@);
            lemma_count_bound(self.mask, self.input@);
        }
        self.output_count = accumulator as usize;
    }

    /// The body of a block in phase 3: the kept words of the followers' block
    /// at this offset are packed from the index in the block's cell.
    pub fn phase3_run(&mut self, block_idx_offset: u32)
        requires
            old(self).geometry(),
            old(self).indexed(),
            block_idx_offset + old(self).sequential_block_count < old(self).block_count,
        ensures
            final(self).geometry(),
            final(self).frame(old(self)),
            final(self).temp@ == old(self).temp@,
            final(self).accumulator == old(self).accumulator,
            final(self).block_packed(block_idx_offset + old(self).sequential_block_count),
            forall|c: int|
                0 <= c < final(self).output@.len() && !(final(self).counted(
                    final(self).start_of(block_idx_offset + old(self).sequential_block_count),
                ) <= c < final(self).counted(final(self).end_of(block_idx_offset + old(self).sequential_block_count)))
                    ==> #[trigger] final(self).output@[c] == old(self).output@[c],
    {
        let block_idx: u32 = block_idx_offset + self.sequential_block_count;
        proof {
            lemma_block_bounds(self.len(), self.block_size as int, block_idx as int);
            lemma_count_monotonic(self.mask, self.input@, self.start_of(block_idx as int), self.end_of(block_idx as int));
        }
        let (start, end) = block_range(block_idx as usize, self.block_size, self.input.len());
        let initial: u64 = self.temp[block_idx as usize];
        compact_range(self.mask, self.input, start, end, initial as usize, &mut self.output);
    }

    /// The kept words before block `k` are packed, when every block is.
    proof fn lemma_packed_below(&self, k: int)
        requires
            self.geometry(),
            forall|i: int| 0 <= i < self.block_count ==> #[trigger] self.block_packed(i),
            0 <= k <= self.block_count,
        ensures
            packed(self.mask, self.input@, self.output@, 0, self.boundary(k)),
        decreases k,
    {
        if k == 0 {
            assert(self.start_of(0) == 0) by (nonlinear_arith)
                requires
                    self.start_of(0) == 0 * self.block_size,
            ;
        } else {
            self.lemma_packed_below(k - 1);
            lemma_block_bounds(self.len(), self.block_size as int, k - 1);
            assert(self.block_packed(k - 1));
            lemma_packed_join(self.mask, self.input@, self.output@, 0, self.start_of(k - 1), self.end_of(k - 1));
        }
    }

    /// The completion callback of phase 3.
    pub fn phase3_finish(&mut self)
        requires
            old(self).bodies_ran(),
            old(self).geometry(),
            old(self).indexed(),
            old(self).concluded(),
            forall|i: int| 0 <= i < old(self).block_count ==> #[trigger] old(self).block_packed(i),
        ensures
            final(self).completed(),
            final(self).phase1 == old(self).phase1,
            final(self).phase3 == old(self).phase3,
            final(self).same(old(self)),
            final(self).output@ == old(self).output@,
            final(self).output_count == old(self).output_count,
    {
        proof {
            self.lemma_packed_below(self.block_count as int);
            lemma_packed_all(self.mask, self.input@, self.output@);
        }
        self.phase = Phase::Finished;
    }

    /// A block stays packed when the body of another block packs its words.
    proof fn lemma_others_packed(&self, before: &Self, block: int)
        requires
            before.geometry(),
            self.geometry(),
            self.mask == before.mask,
            self.input@ == before.input@,
            self.block_size == before.block_size,
            self.block_count == before.block_count,
            0 <= block < self.block_count,
            forall|c: int|
                0 <= c < self.output@.len() && !(self.counted(self.start_of(block)) <= c < self.counted(
                    self.end_of(block),
                )) ==> #[trigger] self.output@[c] == before.output@[c],
        ensures
            forall|i: int|
                0 <= i < self.block_count && i != block && before.block_packed(i) ==> #[trigger] self.block_packed(i),
    {
        assert forall|i: int| 0 <= i < self.block_count && i != block && before.block_packed(i) implies #[trigger] self.block_packed(i) by {
            lemma_block_bounds(self.len(), self.block_size as int, i);
            lemma_block_bounds(self.len(), self.block_size as int, block);
            if i < block {
                lemma_start_order(i, block, self.block_size as int);
            } else {
                lemma_start_order(block, i, self.block_size as int);
            }
            lemma_packed_apart(
                self.mask,
                self.input@,
                before.output@,
                self.output@,
                self.start_of(i),
                self.end_of(i),
                self.start_of(block),
                self.end_of(block),
            );
        }
    }
}

impl<'a> Job for Data<'a> {
    open spec fn ready(&self) -> bool {
        self.created()
    }

    open spec fn inv(&self) -> bool {
        self.consistent()
    }

    open spec fn thread_count(&self) -> nat {
        if self.phase == Phase::Phase3 {
            self.phase3.workers@.len()
        } else {
            self.phase1.workers@.len()
        }
    }

    open spec fn admits(&self, thread_count: nat) -> bool {
        thread_count <= MAX_THREADS
    }

    open spec fn finished(&self, worker: int) -> bool {
        if self.phase == Phase::Phase3 {
            self.phase3.finished(worker)
        } else {
            self.phase1.finished(worker)
        }
    }

    open spec fn runnable(&self, worker: int) -> bool {
        !self.finished(worker)
    }

    open spec fn pending(&self) -> nat {
        if self.phase == Phase::Phase3 {
            self.phase3.pending()
        } else {
            self.phase1.pending()
        }
    }

    open spec fn local_work(&self) -> nat {
        if self.phase == Phase::Phase3 {
            0
        } else {
            self.phase1.waiting()
        }
    }

    open spec fn phases_left(&self) -> nat {
        if self.phase == Phase::Phase1 {
            1
        } else {
            0
        }
    }

    open spec fn complete(&self) -> bool {
        self.completed()
    }

    open spec fn same_task(&self, start: &Self) -> bool {
        self.same(start)
    }

    proof fn lemma_same_task_reflexive(&self) {
    }

    proof fn lemma_same_task_transitive(&self, middle: &Self, start: &Self) {
    }

    proof fn lemma_live(&self, worker: int) {
        assert(self.runnable(worker));
    }

    fn start(&mut self, thread_count: usize) {
        self.phase1 = TwoSided::new(self.block_count as u32, thread_count);
        self.accumulator = 0;
        self.phase = Phase::Phase1;
        proof {
            assert(self.input@.take(0) =~= Seq::<u64>::empty());
            assert(self.start_of(0) == 0) by (nonlinear_arith)
                requires
                    self.start_of(0) == 0 * self.block_size,
            ;
        }
    }

    fn is_finished(&self, worker: usize) -> (done: bool) {
        match self.phase {
            Phase::Phase3 => self.phase3.held(worker).is_none(),
            _ => self.phase1.is_finished(worker),
        }
    }

    fn step(&mut self, worker: usize) -> (progress: bool) {
        let ghost before = *self;
        match self.phase {
            Phase::Phase1 => {
                let turn: Turn = self.phase1.turn(worker);
                proof {
                    match turn {
                        Turn::Sequential(b) => {
                            lemma_block_bounds(self.len(), self.block_size as int, b as int);
                        },
                        _ => {},
                    }
                }
                self.phase1_run(turn);
                let ghost executed = *self;
                let concluded = self.phase1.release(worker);
                if let Some((sequential_count, parallel_count)) = concluded {
                    self.conclude_distribution(sequential_count, parallel_count);
                }
                proof {
                    let touched: int = match turn {
                        Turn::Arrive => -1,
                        Turn::Sequential(b) => b as int,
                        Turn::Parallel(b) => b as int,
                    };
                    match turn {
                        Turn::Sequential(b) => {
                            executed.lemma_others_packed(&before, b as int);
                            lemma_block_bounds(self.len(), self.block_size as int, b as int);
                            lemma_count_monotonic(self.mask, self.input@, self.start_of(b as int), self.end_of(b as int));
                        },
                        Turn::Parallel(b) => {
                            lemma_block_bounds(self.len(), self.block_size as int, b as int);
                            lemma_count_bound(self.mask, self.input@.subrange(self.start_of(b as int), self.end_of(b as int)));
                        },
                        _ => {},
                    }
                    assert forall|i: int|
                        #![trigger self.block_packed(i)] #![trigger self.temp@[i]
                        ] 0 <= i < self.phase1.sequential_done() implies self.block_packed(i) && self.temp@[i] == self.counted(self.end_of(i)) by {
                        if i != touched {
                            assert(i < before.phase1.sequential_done());
                            assert(before.block_packed(i));
                            assert(before.temp@[i] == before.counted(before.end_of(i)));
                            if touched >= 0 {
                                assert(before.block_packed(i) ==> executed.block_packed(i));
                            }
                        }
                    }
                    assert forall|i: int|
                        self.phase1.sequential_done() <= i < self.block_count && self.phase1.done(i) implies #[trigger] self.temp@[i]
                        == self.block_total(i) by {
                        if i != touched {
                            assert(before.phase1.done(i));
                            assert(before.temp@[i] == before.block_total(i));
                        }
                    }
                    assert(self.phase1.conclusions == 1 ==> self.phase1.distribution.is_some()
                        && self.phase1.distribution.unwrap().0 == self.sequential_block_count);
                }
            },
            _ => {
                let offset: u32 = self.phase3.held(worker).unwrap();
                let ghost block = offset + self.sequential_block_count;
                self.phase3_run(offset);
                let ghost executed = *self;
                self.phase3.release(worker);
                proof {
                    executed.lemma_others_packed(&before, block);
                    assert forall|i: int| 0 <= i < self.sequential_block_count implies #[trigger] self.block_packed(i) by {
                        assert(before.block_packed(i));
                        assert(executed.block_packed(i));
                    }
                    assert forall|i: int|
                        self.sequential_block_count <= i < self.block_count && self.phase3.done(
                            i - self.sequential_block_count,
                        ) implies #[trigger] self.block_packed(i) by {
                        if i != block {
                            assert(before.phase3.done(i - self.sequential_block_count));
                            assert(before.block_packed(i));
                            assert(executed.block_packed(i));
                        } else {
                            assert(executed.block_packed(i));
                        }
                    }
                    assert forall|i: int|
                        self.sequential_block_count <= i < self.block_count implies #[trigger] self.temp@[i] == self.counted(
                        self.start_of(i),
                    ) by {
                        assert(before.temp@[i] == before.counted(before.start_of(i)));
                    }
                }
            },
        }
        true
    }

    fn finish(&mut self) -> (more: bool) {
        match self.phase {
            Phase::Phase1 => {
                proof {
                    assert forall|w: int| 0 <= w < self.phase1.workers_count() implies self.phase1.finished(w) by {
                        assert(self.finished(w));
                    }
                    self.phase1.lemma_finished();
                    assert forall|i: int| 0 <= i < self.block_count implies #[trigger] self.phase1.executions@[i]
                        == 1 by {
                        assert(self.phase1.done(i));
                    }
                    assert(self.block_packed(self.sequential_block_count - 1) && self.temp@[self.sequential_block_count
                        - 1] == self.counted(self.end_of(self.sequential_block_count - 1)));
                    assert forall|i: int|
                        self.sequential_block_count <= i < self.block_count implies #[trigger] self.temp@[i]
                        == self.block_total(i) by {
                        assert(self.phase1.done(i));
                    }
                }
                let thread_count: usize = self.phase1.workers.len();
                let ghost packed = *self;
                self.phase1_finish();
                let ghost indexed = *self;
                self.phase3 = OneSided::new(self.block_count as u32 - self.sequential_block_count, thread_count);
                self.phase = Phase::Phase3;
                proof {
                    assert forall|i: int| 0 <= i < self.sequential_block_count implies #[trigger] self.block_packed(i) by {
                        assert(packed.block_packed(i) && packed.temp@[i] == packed.counted(packed.end_of(i)));
                    }
                    assert forall|i: int|
                        self.sequential_block_count <= i < self.block_count implies #[trigger] self.temp@[i] == self.counted(
                        self.start_of(i),
                    ) by {
                        assert(indexed.temp@[i] == indexed.counted(indexed.start_of(i)));
                    }
                }
                true
            },
            _ => {
                proof {
                    assert forall|w: int| 0 <= w < self.phase3.workers_count() implies self.phase3.finished(w) by {
                        assert(self.finished(w));
                    }
                    self.phase3.lemma_finished();
                    assert forall|i: int| 0 <= i < self.block_count implies #[trigger] self.block_packed(i) by {
                        if i >= self.sequential_block_count {
                            assert(self.phase3.done(i - self.sequential_block_count));
                        }
                    }
                }
                proof {
                    assert forall|i: int| 0 <= i < self.phase3.work_size implies #[trigger] self.phase3.executions@[i] == 1 by {
                        assert(self.phase3.done(i));
                    }
                }
                self.phase3_finish();
                false
            },
        }
    }
}

} // verus!
