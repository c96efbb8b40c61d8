//! Reduce-then-scan compaction in three phases.
//!
//! Phase 1 counts the kept words of each block. Phase 2, serial, turns the
//! counts into the output index at which each block starts and publishes the
//! total. Phase 3 packs each block from its index.

use vstd::prelude::*;
use crate::cases::compact::{compact_range, count, count_sequential, kept, lemma_count_bound, lemma_count_monotonic, lemma_kept_split, lemma_packed_all, lemma_packed_apart, lemma_packed_join, packed};
use crate::cases::scan::reduce_then_scan::{lemma_start_order, Phase};
use crate::runtime::block::{block_count, block_end, block_range, block_start, lemma_block_bounds, lemma_block_count, partition, partition_size};
use crate::runtime::one_sided::OneSided;
use crate::runtime::worker::{Job, MAX_THREADS};

verus! {

/// The task with its data.
pub struct Data<'a> {
    pub mask: u64,
    pub input: &'a [u64],
    /// One cell per block: its count, then the output index at which it starts.
    pub temp: Vec<u64>,
    pub output: Vec<u64>,
    /// The number of kept words, published by phase 2.
    pub output_count: usize,
    pub block_size: usize,
    pub block_count: usize,
    pub phase: Phase,
    pub claims: OneSided,
}

/// The task that packs the words of `input` that the predicate keeps under
/// `mask` into `output`, with one cell of `temp` for each block.
pub fn create_task<'a>(mask: u64, input: &'a [u64], temp: Vec<u64>, output: Vec<u64>) -> (task: Data<'a>)
    requires
        output@.len() == input@.len(),
        temp@.len() >= block_count(input@.len() as int, partition_size(input@.len() as int)),
    ensures
        task.created(),
        task.mask == mask,
        task.input@ == input@,
        task.temp@ == temp@,
        task.output@ == output@,
{
    let (block_size, block_count) = partition(output.len());
    Data { mask, input, temp, output, output_count: 0, block_size, block_count, phase: Phase::Created, claims: OneSided::idle() }
}

impl<'a> Data<'a> {
    /// The number of elements of the input.
    pub open spec fn len(&self) -> int {
        self.input@.len() as int
    }

    /// The index of the first element of block `i`.
    pub open spec fn start_of(&self, i: int) -> int {
        block_start(i, self.block_size as int)
    }

    /// The index after the last element of block `i`.
    pub open spec fn end_of(&self, i: int) -> int {
        block_end(i, self.block_size as int, self.len())
    }

    /// Where the blocks before block `k` end.
    pub open spec fn boundary(&self, k: int) -> int {
        if k >= self.block_count {
            self.len()
        } else {
            self.start_of(k)
        }
    }

    /// The number of kept words before `pos`.
    pub open spec fn counted(&self, pos: int) -> nat {
        count(self.mask, self.input@.take(pos))
    }

    /// The number of kept words of block `i`.
    pub open spec fn block_total(&self, i: int) -> nat {
        count(self.mask, self.input@.subrange(self.start_of(i), self.end_of(i)))
    }

    /// The kept words of block `i` are in their output cells.
    pub open spec fn block_packed(&self, i: int) -> bool {
        packed(self.mask, self.input@, self.output@, self.start_of(i), self.end_of(i))
    }

    /// The sizes of the arrays and the partition into blocks fit together.
    pub open spec fn geometry(&self) -> bool {
        &&& self.output@.len() == self.input@.len()
        &&& self.block_size == partition_size(self.len())
        &&& self.block_count == block_count(self.len(), self.block_size as int)
        &&& self.block_count <= crate::runtime::block::BLOCK_COUNT
        &&& self.temp@.len() >= self.block_count
    }

    /// The task was created and has not started.
    pub open spec fn created(&self) -> bool {
        self.phase == Phase::Created && self.geometry()
    }

    /// After phase 2: every block's cell holds the output index at which the
    /// block starts, and the number of kept words is published.
    pub open spec fn indexed(&self) -> bool {
        &&& self.output_count == count(self.mask, self.input@)
        &&& forall|i: int| 0 <= i < self.block_count ==> #[trigger] self.temp@[i] == self.counted(self.start_of(i))
    }

    /// The protocol invariant of a started task: what the blocks that are done
    /// have left in the arrays, by phase.
    pub open spec fn consistent(&self) -> bool {
        &&& self.geometry()
        &&& self.claims.inv()
        &&& self.claims.work_size == self.block_count
        &&& match self.phase {
            Phase::Phase1 => forall|i: int|
                0 <= i < self.block_count && self.claims.done(i) ==> #[trigger] self.temp@[i] == self.block_total(i),
            Phase::Phase3 => self.indexed() && forall|i: int|
                0 <= i < self.block_count && self.claims.done(i) ==> #[trigger] self.block_packed(i),
            _ => false,
        }
    }

    /// The body of every block of the last phase has run exactly once.
    pub open spec fn bodies_ran(&self) -> bool {
        &&& self.claims.executions@.len() == self.claims.work_size
        &&& forall|i: int| 0 <= i < self.claims.work_size ==> #[trigger] self.claims.executions@[i] == 1
    }

    /// The output starts with the kept words of the input, in order, and
    /// their number is published.
    pub open spec fn completed(&self) -> bool {
        &&& self.phase == Phase::Finished
        &&& self.geometry()
        &&& self.output_count == count(self.mask, self.input@)
        &&& self.output@.take(self.output_count as int) == kept(self.mask, self.input@)
        &&& self.bodies_ran()
    }

    /// The same input and parameters.
    pub open spec fn same(&self, start: &Self) -> bool {
        &&& self.mask == start.mask
        &&& self.input@ == start.input@
        &&& self.output@.len() == start.output@.len()
        &&& self.temp@.len() == start.temp@.len()
    }

    /// The body of block `block_index` in phase 1: the local count.
    pub fn phase1_run(&mut self, block_index: u32)
        requires
            old(self).geometry(),
            block_index < old(self).block_count,
        ensures
            final(self).geometry(),
            final(self).same(old(self)),
            final(self).phase == old(self).phase,
            final(self).claims == old(self).claims,
            final(self).block_size == old(self).block_size,
            final(self).block_count == old(self).block_count,
            final(self).output@ == old(self).output@,
            final(self).output_count == old(self).output_count,
            final(self).temp@ == old(self).temp@.update(
                block_index as int,
                old(self).block_total(block_index as int) as u64,
            ),
    {
        proof {
            lemma_block_bounds(self.len(), self.block_size as int, block_index as int);
        }
        let (start, end) = block_range(block_index as usize, self.block_size, self.input.len());
        let local = count_sequential(self.mask, &self.input[start..end]);
        self.temp[block_index as usize] = local as u64;
    }

    /// Phase 2, serial: the exclusive scan of the counts, and the total.
    pub fn phase1_finish(&mut self)
        requires
            old(self).geometry(),
            forall|i: int| 0 <= i < old(self).block_count ==> #[trigger] old(self).temp@[i] == old(self).block_total(i),
        ensures
            final(self).geometry(),
            final(self).same(old(self)),
            final(self).phase == old(self).phase,
            final(self).claims == old(self).claims,
            final(self).block_size == old(self).block_size,
            final(self).block_count == old(self).block_count,
            final(self).output@ == old(self).output@,
            final(self).indexed(),
    {
        let count: usize = self.block_count;
        let total: usize = self.input.len();
        let mut accumulator: u64 = 0;
        let mut k: usize = 0;
        proof {
            assert(self.input@.take(0) =~= Seq::<u64>::empty());
            lemma_block_count(self.len(), self.block_size as int);
            if count > 0 {
                assert(self.start_of(0) == 0) by (nonlinear_arith)
                    requires
                        self.start_of(0) == 0 * self.block_size,
                ;
            }
        }
        while k < count
            invariant
                k <= count,
                count == self.block_count,
                total == self.len(),
                self.geometry(),
                self.same(old(self)),
                self.phase == old(self).phase,
                self.claims == old(self).claims,
                self.block_size == old(self).block_size,
                self.output@ == old(self).output@,
                accumulator == self.counted(self.boundary(k as int)),
                forall|i: int| 0 <= i < k ==> #[trigger] self.temp@[i] == self.counted(self.start_of(i)),
                forall|i: int| k <= i < count ==> #[trigger] self.temp@[i] == self.block_total(i),
            decreases count - k,
        {
            proof {
                lemma_block_bounds(self.len(), self.block_size as int, k as int);
                lemma_kept_split(self.mask, self.input@, self.start_of(k as int), self.end_of(k as int));
                lemma_count_monotonic(self.mask, self.input@, self.start_of(k as int), self.end_of(k as int));
            }
            let local: u64 = self.temp[k];
            self.temp[k] = accumulator;
            accumulator = accumulator + local;
            k += 1;
        }
        proof {
            assert(self.input@.take(self.len()) =~= self.input@);
            lemma_count_bound(self.mask, self.input@);
        }
        self.output_count = accumulator as usize;
    }

    /// The body of block `block_index` in phase 3: the block's kept words are
    /// packed from the index in the block's cell.
    pub fn phase3_run(&mut self, block_index: u32)
        requires
            old(self).geometry(),
            old(self).indexed(),
            block_index < old(self).block_count,
        ensures
            final(self).geometry(),
            final(self).same(old(self)),
            final(self).phase == old(self).phase,
            final(self).claims == old(self).claims,
            final(self).block_size == old(self).block_size,
            final(self).block_count == old(self).block_count,
            final(self).temp@ == old(self).temp@,
            final(self).output_count == old(self).output_count,
            final(self).block_packed(block_index as int),
            forall|c: int|
                0 <= c < final(self).output@.len() && !(final(self).counted(final(self).start_of(block_index as int)) <= c
                    < final(self).counted(final(self).end_of(block_index as int))) ==> #[trigger] final(self).output@[c]
                    == old(self).output@[c],
    {
        proof {
            lemma_block_bounds(self.len(), self.block_size as int, block_index as int);
            lemma_count_monotonic(self.mask, self.input@, self.start_of(block_index as int), self.end_of(block_index as int));
        }
        let (start, end) = block_range(block_index as usize, self.block_size, self.input.len());
        let initial: u64 = self.temp[block_index as usize];
        compact_range(self.mask, self.input, start, end, initial as usize, &mut self.output);
    }

    /// The kept words before block `k` are packed, when every block is.
    proof fn lemma_packed_below(&self, k: int)
        requires
            self.geometry(),
            forall|i: int| 0 <= i < self.block_count ==> #[trigger] self.block_packed(i),
            0 <= k <= self.block_count,
        ensures
            packed(self.mask, self.input@, self.output@, 0, self.boundary(k)),
        decreases k,
    {
        if k == 0 {
            lemma_block_count(self.len(), self.block_size as int);
            assert(self.boundary(0) == 0) by {
                if self.block_count > 0 {
                    assert(self.start_of(0) == 0) by (nonlinear_arith)
                        requires
                            self.start_of(0) == 0 * self.block_size,
                    ;
                }
            }
        } else {
            self.lemma_packed_below(k - 1);
            lemma_block_bounds(self.len(), self.block_size as int, k - 1);
            assert(self.block_packed(k - 1));
            lemma_packed_join(self.mask, self.input@, self.output@, 0, self.start_of(k - 1), self.end_of(k - 1));
        }
    }

    /// The completion callback of phase 3.
    pub fn phase3_finish(&mut self)
        requires
            old(self).bodies_ran(),
            old(self).geometry(),
            old(self).indexed(),
            forall|i: int| 0 <= i < old(self).block_count ==> #[trigger] old(self).block_packed(i),
        ensures
            final(self).completed(),
            final(self).claims == old(self).claims,
            final(self).same(old(self)),
            final(self).output@ == old(self).output@,
            final(self).output_count == old(self).output_count,
    {
        proof {
            self.lemma_packed_below(self.block_count as int);
            lemma_packed_all(self.mask, self.input@, self.output@);
        }
        self.phase = Phase::Finished;
    }

    /// A block stays packed when the body of another block packs its words.
    proof fn lemma_others_packed(&self, before: &Self, block: int)
        requires
            before.geometry(),
            self.geometry(),
            self.mask == before.mask,
            self.input@ == before.input@,
            self.block_size == before.block_size,
            self.block_count == before.block_count,
            0 <= block < self.block_count,
            forall|c: int|
                0 <= c < self.output@.len() && !(self.counted(self.start_of(block)) <= c < self.counted(
                    self.end_of(block),
                )) ==> #[trigger] self.output@[c] == before.output@[c],
        ensures
            forall|i: int|
                0 <= i < self.block_count && i != block && before.block_packed(i) ==> #[trigger] self.block_packed(i),
    {
        assert forall|i: int| 0 <= i < self.block_count && i != block && before.block_packed(i) implies #[trigger] self.block_packed(i) by {
            lemma_block_bounds(self.len(), self.block_size as int, i);
            lemma_block_bounds(self.len(), self.block_size as int, block);
            if i < block {
                lemma_start_order(i, block, self.block_size as int);
            } else {
                lemma_start_order(block, i, self.block_size as int);
            }
            lemma_packed_apart(
                self.mask,
                self.input@,
                before.output@,
                self.output@,
                self.start_of(i),
                self.end_of(i),
                self.start_of(block),
                self.end_of(block),
            );
        }
    }
}

impl<'a> Job for Data<'a> {
    open spec fn ready(&self) -> bool {
        self.created()
    }

    open spec fn inv(&self) -> bool {
        self.consistent()
    }

    open spec fn thread_count(&self) -> nat {
        self.claims.workers@.len()
    }

    open spec fn admits(&self, thread_count: nat) -> bool {
        thread_count <= MAX_THREADS
    }

    open spec fn finished(&self, worker: int) -> bool {
        self.claims.finished(worker)
    }

    open spec fn runnable(&self, worker: int) -> bool {
        !self.claims.finished(worker)
    }

    open spec fn pending(&self) -> nat {
        self.claims.pending()
    }

    open spec fn local_work(&self) -> nat {
        0
    }

    open spec fn phases_left(&self) -> nat {
        if self.phase == Phase::Phase1 {
            1
        } else {
            0
        }
    }

    open spec fn complete(&self) -> bool {
        self.completed()
    }

    open spec fn same_task(&self, start: &Self) -> bool {
        self.same(start)
    }

    proof fn lemma_same_task_reflexive(&self) {
    }

    proof fn lemma_same_task_transitive(&self, middle: &Self, start: &Self) {
    }

    proof fn lemma_live(&self, worker: int) {
        assert(self.runnable(worker));
    }

    fn start(&mut self, thread_count: usize) {
        self.claims = OneSided::new(self.block_count as u32, thread_count);
        self.phase = Phase::Phase1;
    }

    fn is_finished(&self, worker: usize) -> (done: bool) {
        self.claims.held(worker).is_none()
    }

    fn step(&mut self, worker: usize) -> (progress: bool) {
        let ghost before = *self;
        let block_index: u32 = self.claims.held(worker).unwrap();
        match self.phase {
            Phase::Phase1 => {
                self.phase1_run(block_index);
                self.claims.release(worker);
                proof {
                    assert forall|i: int| 0 <= i < self.block_count && self.claims.done(i) implies #[trigger] self.temp@[i]
                        == self.block_total(i) by {
                        if i != block_index {
                            assert(before.claims.done(i));
                            assert(before.temp@[i] == before.block_total(i));
                        } else {
                            lemma_block_bounds(self.len(), self.block_size as int, i);
                            lemma_count_bound(self.mask, self.input@.subrange(self.start_of(i), self.end_of(i)));
                        }
                    }
                }
            },
            _ => {
                self.phase3_run(block_index);
                let ghost executed = *self;
                self.claims.release(worker);
                proof {
                    executed.lemma_others_packed(&before, block_index as int);
                    assert forall|i: int| 0 <= i < self.block_count && self.claims.done(i) implies #[trigger] self.block_packed(i) by {
                        if i != block_index {
                            assert(before.claims.done(i));
                            assert(before.block_packed(i));
                            assert(executed.block_packed(i));
                        } else {
                            assert(executed.block_packed(i));
                        }
                    }
                    assert forall|i: int| 0 <= i < self.block_count implies #[trigger] self.temp@[i] == self.counted(
                        self.start_of(i),
                    ) by {
                        assert(before.temp@[i] == before.counted(before.start_of(i)));
                    }
                }
            },
        }
        true
    }

    fn finish(&mut self) -> (more: bool) {
        proof {
            assert forall|w: int| 0 <= w < self.claims.workers_count() implies self.claims.finished(w) by {
                assert(self.finished(w));
            }
            self.claims.lemma_finished();
        }
        match self.phase {
            Phase::Phase1 => {
                let thread_count: usize = self.claims.workers.len();
                proof {
                    assert forall|i: int| 0 <= i < self.block_count implies #[trigger] self.temp@[i] == self.block_total(i) by {
                        assert(self.claims.done(i));
                    }
                }
                self.phase1_finish();
                let ghost indexed = *self;
                self.claims = OneSided::new(self.block_count as u32, thread_count);
                self.phase = Phase::Phase3;
                proof {
                    assert forall|i: int| 0 <= i < self.block_count implies #[trigger] self.temp@[i] == self.counted(
                        self.start_of(i),
                    ) by {
                        assert(indexed.temp@[i] == indexed.counted(indexed.start_of(i)));
                    }
                }
                true
            },
            _ => {
                proof {
                    assert forall|i: int| 0 <= i < self.block_count implies #[trigger] self.block_packed(i) by {
                        assert(self.claims.done(i));
                    }
                }
                proof {
                    assert forall|i: int| 0 <= i < self.claims.work_size implies #[trigger] self.claims.executions@[i] == 1 by {
                        assert(self.claims.done(i));
                    }
                }
                self.phase3_finish();
                false
            },
        }
    }
}

} // verus!
