//! Scan-then-propagate in three phases.
//!
//! Phase 1 scans each block on its own. Phase 2, serial, turns the last cell
//! of each full block into the prefix sum at the end of the block. Phase 3
//! adds to the cells of each block after the first the value in the cell
//! before the block, and leaves the last cell of a full block as it is.

use vstd::prelude::*;
use crate::cases::scan::reduce_then_scan::{lemma_block_of, lemma_start_order, Phase};
use crate::cases::scan::{inclusive_scan, lemma_running_prefix, propagate_range, running, scan_range, sum, wrap};
use crate::runtime::block::{block_count, block_end, block_range, block_start, lemma_block_bounds, lemma_block_count, partition, partition_size};
use crate::runtime::one_sided::OneSided;
use crate::runtime::worker::{Job, MAX_THREADS};

verus! {

/// The task with its data.
pub struct Data<'a> {
    pub input: &'a [u64],
    pub output: Vec<u64>,
    pub block_size: usize,
    pub block_count: usize,
    pub phase: Phase,
    pub claims: OneSided,
}

/// The task that scans `input` into `output`.
pub fn create_task<'a>(input: &'a [u64], output: Vec<u64>) -> (task: Data<'a>)
    requires
        output@.len() == input@.len(),
    ensures
        task.created(),
        task.input@ == input@,
        task.output@ == output@,
{
    let (block_size, block_count) = partition(output.len());
    Data { input, output, block_size, block_count, phase: Phase::Created, claims: OneSided::idle() }
}

impl<'a> Data<'a> {
    /// The number of elements of the input.
    pub open spec fn len(&self) -> int {
        self.input@.len() as int
    }

    /// The index of the first element of block `i`.
    pub open spec fn start_of(&self, i: int) -> int {
        block_start(i, self.block_size as int)
    }

    /// The index after the last element of block `i`.
    pub open spec fn end_of(&self, i: int) -> int {
        block_end(i, self.block_size as int, self.len())
    }

    /// The prefix sum of the input before `pos`.
    pub open spec fn prefix(&self, pos: int) -> u64 {
        wrap(sum(self.input@.take(pos)))
    }

    /// The sizes of the arrays and the partition into blocks fit together.
    pub open spec fn geometry(&self) -> bool {
        &&& self.output@.len() == self.input@.len()
        &&& self.block_size == partition_size(self.len())
        &&& self.block_count == block_count(self.len(), self.block_size as int)
        &&& self.block_count <= crate::runtime::block::BLOCK_COUNT
    }

    /// The task was created and has not started.
    pub open spec fn created(&self) -> bool {
        self.phase == Phase::Created && self.geometry()
    }

    /// After phase 1: every cell of block `i` holds the sum of the block up
    /// to and including it.
    pub open spec fn local(&self, i: int) -> bool {
        forall|j: int|
            self.start_of(i) <= j < self.end_of(i) ==> #[trigger] self.output@[j] == running(
                self.input@,
                self.start_of(i),
                j,
            )
    }

    /// After phase 2: as after phase 1, but the last cell of a full block
    /// holds its final value.
    pub open spec fn bounded(&self, i: int) -> bool {
        forall|j: int|
            self.start_of(i) <= j < self.end_of(i) ==> #[trigger] self.output@[j] == if j == self.start_of(i)
                + self.block_size - 1 {
                self.prefix(j + 1)
            } else {
                running(self.input@, self.start_of(i), j)
            }
    }

    /// The cell before block `i` holds the prefix sum before the block.
    pub open spec fn linked(&self, i: int) -> bool {
        i > 0 ==> self.output@[self.start_of(i) - 1] == self.prefix(self.start_of(i))
    }

    /// After phase 3: every cell of block `i` holds its final value.
    pub open spec fn scanned(&self, i: int) -> bool {
        forall|j: int| self.start_of(i) <= j < self.end_of(i) ==> #[trigger] self.output@[j] == self.prefix(j + 1)
    }

    /// The protocol invariant of a started task: what the blocks that are done
    /// have left in the arrays, by phase.
    pub open spec fn consistent(&self) -> bool {
        &&& self.geometry()
        &&& self.claims.inv()
        &&& self.claims.work_size == self.block_count
        &&& match self.phase {
            Phase::Phase1 => forall|i: int| 0 <= i < self.block_count && self.claims.done(i) ==> #[trigger] self.local(i),
            Phase::Phase3 => forall|i: int|
                #![trigger self.linked(i)] #![trigger self.scanned(i)] #![trigger self.bounded(i)]
                0 <= i < self.block_count ==> self.linked(i) && if self.claims.done(i) {
                    self.scanned(i)
                } else {
                    self.bounded(i)
                },
            _ => false,
        }
    }

    /// The body of every block of the last phase has run exactly once.
    pub open spec fn bodies_ran(&self) -> bool {
        &&& self.claims.executions@.len() == self.claims.work_size
        &&& forall|i: int| 0 <= i < self.claims.work_size ==> #[trigger] self.claims.executions@[i] == 1
    }

    /// The task has finished: the output is the inclusive scan of the input.
    pub open spec fn completed(&self) -> bool {
        &&& self.phase == Phase::Finished
        &&& self.geometry()
        &&& self.output@ == inclusive_scan(self.input@)
        &&& self.bodies_ran()
    }

    /// The same input and parameters.
    pub open spec fn same(&self, start: &Self) -> bool {
        &&& self.input@ == start.input@
        &&& self.output@.len() == start.output@.len()
    }

    /// The rest of the task is as it was.
    pub open spec fn frame(&self, before: &Self) -> bool {
        &&& self.same(before)
        &&& self.phase == before.phase
        &&& self.claims == before.claims
        &&& self.block_size == before.block_size
        &&& self.block_count == before.block_count
    }

    /// The body of block `block_index` in phase 1: the local scan.
    pub fn phase1_run(&mut self, block_index: u32)
        requires
            old(self).geometry(),
            block_index < old(self).block_count,
        ensures
            final(self).geometry(),
            final(self).frame(old(self)),
            final(self).local(block_index as int),
            forall|j: int|
                0 <= j < final(self).output@.len() && !(final(self).start_of(block_index as int) <= j < final(self).end_of(block_index as int)) ==> final(self).output@[j] == old(self).output@[j],
    {
        proof {
            lemma_block_bounds(self.len(), self.block_size as int, block_index as int);
        }
        let (start, end) = block_range(block_index as usize, self.block_size, self.input.len());
        scan_range(self.input, start, end, 0, &mut self.output);
        proof {
            let block = self.input@.subrange(start as int, end as int);
            assert forall|j: int| start <= j < end implies #[trigger] self.output@[j] == running(
                self.input@,
                start as int,
                j,
            ) by {
                assert(block.take(j - start + 1) =~= self.input@.subrange(start as int, j + 1));
            }
        }
    }

    /// Phase 2, serial: the last cell of each full block becomes the prefix
    /// sum at the end of the block.
    pub fn phase1_finish(&mut self)
        requires
            old(self).geometry(),
            forall|i: int| 0 <= i < old(self).block_count ==> #[trigger] old(self).local(i),
        ensures
            final(self).geometry(),
            final(self).frame(old(self)),
            forall|i: int| 0 <= i < final(self).block_count ==> #[trigger] final(self).bounded(i) && final(self).linked(i),
    {
        let count: usize = self.block_count;
        let mut accumulator: u64 = 0;
        let mut k: usize = 0;
        proof {
            assert(self.input@.take(0) =~= Seq::<u64>::empty());
        }
        while k < count
            invariant
                k <= count,
                count == self.block_count,
                self.geometry(),
                self.frame(old(self)),
                k < count ==> accumulator == self.prefix(self.start_of(k as int)) && self.linked(k as int),
                forall|i: int|
                    #![trigger self.bounded(i)] #![trigger self.linked(i)]
                    0 <= i < k ==> self.bounded(i) && self.linked(i),
                forall|i: int| k <= i < count ==> #[trigger] self.local(i),
            decreases count - k,
        {
            let ghost before = *self;
            proof {
                lemma_block_bounds(self.len(), self.block_size as int, k as int);
                if k == 0 {
                    assert(self.start_of(0) == 0) by (nonlinear_arith)
                        requires
                            self.start_of(0) == 0 * self.block_size,
                    ;
                } else {
                    lemma_block_bounds(self.len(), self.block_size as int, k - 1);
                }
                assert(self.local(k as int));
                lemma_running_prefix(self.input@, self.start_of(k as int), self.end_of(k as int) - 1);
            }
            let (start, end) = block_range(k, self.block_size, self.input.len());
            if end - start == self.block_size {
                accumulator = accumulator.wrapping_add(self.output[end - 1]);
                self.output[end - 1] = accumulator;
            }
            proof {
                assert forall|i: int|
                    #![trigger self.bounded(i)] #![trigger self.linked(i)]
                    0 <= i < k + 1 implies self.bounded(i) && self.linked(i) by {
                    lemma_block_bounds(self.len(), self.block_size as int, i);
                    if i > 0 {
                        lemma_block_bounds(self.len(), self.block_size as int, i - 1);
                    }
                    if i < k {
                        assert(before.bounded(i));
                        assert(before.linked(i));
                        lemma_start_order(i, k as int, self.block_size as int);
                        assert forall|j: int| self.start_of(i) <= j < self.end_of(i) implies #[trigger] self.output@[j]
                            == if j == self.start_of(i) + self.block_size - 1 {
                            self.prefix(j + 1)
                        } else {
                            running(self.input@, self.start_of(i), j)
                        } by {
                            assert(self.output@[j] == before.output@[j]);
                        }
                    } else {
                        assert(before.linked(i));
                        assert forall|j: int| self.start_of(i) <= j < self.end_of(i) implies #[trigger] self.output@[j]
                            == if j == self.start_of(i) + self.block_size - 1 {
                            self.prefix(j + 1)
                        } else {
                            running(self.input@, self.start_of(i), j)
                        } by {
                            assert(before.output@[j] == running(before.input@, before.start_of(i), j));
                        }
                    }
                }
                assert forall|i: int| k + 1 <= i < count implies #[trigger] self.local(i) by {
                    lemma_block_bounds(self.len(), self.block_size as int, i);
                    assert(before.local(i));
                    lemma_start_order(k as int, i, self.block_size as int);
                    assert forall|j: int| self.start_of(i) <= j < self.end_of(i) implies #[trigger] self.output@[j]
                        == running(self.input@, self.start_of(i), j) by {
                        assert(self.output@[j] == before.output@[j]);
                    }
                }
                if k + 1 < count {
                    lemma_block_bounds(self.len(), self.block_size as int, k + 1);
                }
            }
            k += 1;
        }
    }

    /// The body of block `block_index` in phase 3: the value before the block
    /// is added to its cells. The last cell of a full block is correct already.
    pub fn phase3_run(&mut self, block_index: u32)
        requires
            old(self).geometry(),
            block_index < old(self).block_count,
            old(self).bounded(block_index as int),
            old(self).linked(block_index as int),
        ensures
            final(self).geometry(),
            final(self).frame(old(self)),
            final(self).scanned(block_index as int),
            forall|j: int|
                0 <= j < final(self).output@.len() && !(final(self).start_of(block_index as int) <= j < final(self).end_of(block_index as int)) ==> final(self).output@[j] == old(self).output@[j],
            final(self).output@[final(self).end_of(block_index as int) - 1] == final(self).prefix(
                final(self).end_of(block_index as int),
            ),
    {
        let ghost before = *self;
        proof {
            lemma_block_bounds(self.len(), self.block_size as int, block_index as int);
            if block_index > 0 {
                lemma_block_bounds(self.len(), self.block_size as int, block_index - 1);
            } else {
                assert(self.input@.take(0) =~= Seq::<u64>::empty());
                assert(self.start_of(0) == 0) by (nonlinear_arith)
                    requires
                        self.start_of(0) == 0 * self.block_size,
                ;
            }
        }
        let (start, whole) = block_range(block_index as usize, self.block_size, self.input.len());
        let end: usize = if whole - start == self.block_size {
            whole - 1
        } else {
            whole
        };
        let base: u64 = if block_index == 0 {
            0
        } else {
            self.output[start - 1]
        };
        propagate_range(&mut self.output, start, end, base);
        proof {
            assert forall|j: int| start <= j < whole implies #[trigger] self.output@[j] == self.prefix(j + 1) by {
                assert(before.output@[j] == if j == before.start_of(block_index as int) + before.block_size - 1 {
                    before.prefix(j + 1)
                } else {
                    running(before.input@, before.start_of(block_index as int), j)
                });
                if j < end {
                    lemma_running_prefix(self.input@, start as int, j);
                }
            }
        }
    }

    /// The completion callback of phase 3.
    pub fn phase3_finish(&mut self)
        requires
            old(self).bodies_ran(),
            old(self).geometry(),
            forall|i: int| 0 <= i < old(self).block_count ==> #[trigger] old(self).scanned(i),
        ensures
            final(self).completed(),
            final(self).claims == old(self).claims,
            final(self).same(old(self)),
            final(self).output@ == old(self).output@,
    {
        proof {
            lemma_block_count(self.len(), self.block_size as int);
            assert forall|j: int| 0 <= j < self.len() implies self.output@[j] == self.prefix(j + 1) by {
                let i = j / (self.block_size as int);
                lemma_block_of(self.len(), self.block_size as int, j);
                assert(self.scanned(i));
            }
            assert(self.output@ =~= inclusive_scan(self.input@));
        }
        self.phase = Phase::Finished;
    }

    /// What is known of a block stays true when the body of another block
    /// writes only cells of its own and keeps its last cell's final value.
    proof fn lemma_untouched(&self, before: &Self, block: int)
        requires
            before.geometry(),
            self.geometry(),
            self.input@ == before.input@,
            self.block_size == before.block_size,
            self.block_count == before.block_count,
            0 <= block < self.block_count,
            forall|j: int|
                0 <= j < self.output@.len() && !(self.start_of(block) <= j < self.end_of(block)) ==> self.output@[j]
                    == before.output@[j],
        ensures
            forall|i: int| 0 <= i < self.block_count && i != block && before.local(i) ==> #[trigger] self.local(i),
            forall|i: int| 0 <= i < self.block_count && i != block && before.bounded(i) ==> #[trigger] self.bounded(i),
            forall|i: int| 0 <= i < self.block_count && i != block && before.scanned(i) ==> #[trigger] self.scanned(i),
            forall|i: int|
                0 <= i < self.block_count && i != block + 1 && before.linked(i) ==> #[trigger] self.linked(i),
    {
        assert forall|i: int| 0 <= i < self.block_count && i != block implies (before.local(i) ==> self.local(i)) && (
        before.bounded(i) ==> self.bounded(i)) && (before.scanned(i) ==> self.scanned(i)) by {
            lemma_block_bounds(self.len(), self.block_size as int, i);
            lemma_block_bounds(self.len(), self.block_size as int, block);
            if i < block {
                lemma_start_order(i, block, self.block_size as int);
            } else {
                lemma_start_order(block, i, self.block_size as int);
            }
            if before.local(i) {
                assert forall|j: int| self.start_of(i) <= j < self.end_of(i) implies #[trigger] self.output@[j]
                    == running(self.input@, self.start_of(i), j) by {
                    assert(before.output@[j] == running(before.input@, before.start_of(i), j));
                }
            }
            if before.bounded(i) {
                assert forall|j: int| self.start_of(i) <= j < self.end_of(i) implies #[trigger] self.output@[j]
                    == if j == self.start_of(i) + self.block_size - 1 {
                    self.prefix(j + 1)
                } else {
                    running(self.input@, self.start_of(i), j)
                } by {
                    assert(before.output@[j] == if j == before.start_of(i) + before.block_size - 1 {
                        before.prefix(j + 1)
                    } else {
                        running(before.input@, before.start_of(i), j)
                    });
                }
            }
            if before.scanned(i) {
                assert forall|j: int| self.start_of(i) <= j < self.end_of(i) implies #[trigger] self.output@[j]
                    == self.prefix(j + 1) by {
                    assert(before.output@[j] == before.prefix(j + 1));
                }
            }
        }
        assert forall|i: int| 0 <= i < self.block_count && i != block + 1 && before.linked(i) implies #[trigger] self.linked(i) by {
            if i > 0 {
                lemma_block_bounds(self.len(), self.block_size as int, i);
                lemma_block_bounds(self.len(), self.block_size as int, i - 1);
                lemma_block_bounds(self.len(), self.block_size as int, block);
                if i - 1 < block {
                    lemma_start_order(i - 1, block, self.block_size as int);
                } else {
                    lemma_start_order(block, i - 1, self.block_size as int);
                }
            }
        }
    }
}

impl<'a> Job for Data<'a> {
    open spec fn ready(&self) -> bool {
        self.created()
    }

    open spec fn inv(&self) -> bool {
        self.consistent()
    }

    open spec fn thread_count(&self) -> nat {
        self.claims.workers@.len()
    }

    open spec fn admits(&self, thread_count: nat) -> bool {
        thread_count <= MAX_THREADS
    }

    open spec fn finished(&self, worker: int) -> bool {
        self.claims.finished(worker)
    }

    open spec fn runnable(&self, worker: int) -> bool {
        !self.claims.finished(worker)
    }

    open spec fn pending(&self) -> nat {
        self.claims.pending()
    }

    open spec fn local_work(&self) -> nat {
        0
    }

    open spec fn phases_left(&self) -> nat {
        if self.phase == Phase::Phase1 {
            1
        } else {
            0
        }
    }

    open spec fn complete(&self) -> bool {
        self.completed()
    }

    open spec fn same_task(&self, start: &Self) -> bool {
        self.same(start)
    }

    proof fn lemma_same_task_reflexive(&self) {
    }

    proof fn lemma_same_task_transitive(&self, middle: &Self, start: &Self) {
    }

    proof fn lemma_live(&self, worker: int) {
        assert(self.runnable(worker));
    }

    fn start(&mut self, thread_count: usize) {
        self.claims = OneSided::new(self.block_count as u32, thread_count);
        self.phase = Phase::Phase1;
    }

    fn is_finished(&self, worker: usize) -> (done: bool) {
        self.claims.held(worker).is_none()
    }

    fn step(&mut self, worker: usize) -> (progress: bool) {
        let ghost before = *self;
        let block_index: u32 = self.claims.held(worker).unwrap();
        match self.phase {
            Phase::Phase1 => {
                self.phase1_run(block_index);
                let ghost executed = *self;
                self.claims.release(worker);
                proof {
                    executed.lemma_untouched(&before, block_index as int);
                    assert forall|i: int| 0 <= i < self.block_count && self.claims.done(i) implies #[trigger] self.local(i) by {
                        if i != block_index {
                            assert(before.claims.done(i));
                            assert(before.local(i));
                            assert(executed.local(i));
                        } else {
                            assert(executed.local(i));
                        }
                    }
                }
            },
            _ => {
                proof {
                    assert(before.linked(block_index as int));
                    assert(!before.claims.done(block_index as int));
                    assert(before.bounded(block_index as int));
                }
                self.phase3_run(block_index);
                let ghost executed = *self;
                self.claims.release(worker);
                proof {
                    executed.lemma_untouched(&before, block_index as int);
                    lemma_block_bounds(self.len(), self.block_size as int, block_index as int);
                    assert forall|i: int|
                        #![trigger self.linked(i)] #![trigger self.scanned(i)] #![trigger self.bounded(i)]
                        0 <= i < self.block_count implies self.linked(i) && if self.claims.done(i) {
                        self.scanned(i)
                    } else {
                        self.bounded(i)
                    } by {
                        assert(before.linked(i));
                        if i == block_index + 1 {
                            lemma_block_bounds(self.len(), self.block_size as int, i);
                            assert(executed.linked(i));
                        } else {
                            assert(executed.linked(i));
                        }
                        if i != block_index {
                            if before.claims.done(i) {
                                assert(before.scanned(i));
                                assert(executed.scanned(i));
                            } else {
                                assert(before.bounded(i));
                                assert(executed.bounded(i));
                            }
                        } else {
                            assert(executed.scanned(i));
                        }
                    }
                }
            },
        }
        true
    }

    fn finish(&mut self) -> (more: bool) {
        proof {
            assert forall|w: int| 0 <= w < self.claims.workers_count() implies self.claims.finished(w) by {
                assert(self.finished(w));
            }
            self.claims.lemma_finished();
        }
        match self.phase {
            Phase::Phase1 => {
                let thread_count: usize = self.claims.workers.len();
                proof {
                    assert forall|i: int| 0 <= i < self.block_count implies #[trigger] self.local(i) by {
                        assert(self.claims.done(i));
                    }
                }
                self.phase1_finish();
                let ghost indexed = *self;
                self.claims = OneSided::new(self.block_count as u32, thread_count);
                self.phase = Phase::Phase3;
                proof {
                    assert forall|i: int|
                        #![trigger self.linked(i)] #![trigger self.scanned(i)] #![trigger self.bounded(i)]
                        0 <= i < self.block_count implies self.linked(i) && if self.claims.done(i) {
                        self.scanned(i)
                    } else {
                        self.bounded(i)
                    } by {
                        assert(indexed.bounded(i));
                        assert(indexed.linked(i));
                    }
                }
                true
            },
            _ => {
                proof {
                    assert forall|i: int| 0 <= i < self.block_count implies #[trigger] self.scanned(i) by {
                        assert(self.linked(i));
                        assert(self.claims.done(i));
                    }
                }
                proof {
                    assert forall|i: int| 0 <= i < self.claims.work_size implies #[trigger] self.claims.executions@[i] == 1 by {
                        assert(self.claims.done(i));
                    }
                }
                self.phase3_finish();
                false
            },
        }
    }
}

} // verus!
