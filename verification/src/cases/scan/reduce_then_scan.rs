//! Reduce-then-scan in three phases.
//!
//! Phase 1 writes the sum of each full block into the block's last cell.
//! Phase 2, serial, turns those cells into the prefix sums at the ends of the
//! blocks. Phase 3 scans each block from the value in the cell before it,
//! and leaves the last cell of a full block as it is.

use vstd::prelude::*;
use crate::cases::scan::{fold_sequential, inclusive_scan, lemma_sum_subrange, lemma_wrap_add, lemma_wrap_add_int, scan_range, sum, wrap};
use crate::runtime::block::{block_count, block_end, block_range, block_start, lemma_block_bounds, lemma_block_count, partition, partition_size};
use crate::runtime::one_sided::OneSided;
use crate::runtime::worker::{Job, MAX_THREADS};

verus! {

/// The phase that a three-phase task is in.
#[derive(Clone, Copy, PartialEq, Eq, Structural)]
pub enum Phase {
    Created,
    Phase1,
    Phase3,
    Finished,
}

/// The task with its data.
pub struct Data<'a> {
    pub input: &'a [u64],
    pub output: Vec<u64>,
    pub block_size: usize,
    pub block_count: usize,
    pub phase: Phase,
    pub claims: OneSided,
}

/// The task that scans `input` into `output`.
pub fn create_task<'a>(input: &'a [u64], output: Vec<u64>) -> (task: Data<'a>)
    requires
        output@.len() == input@.len(),
    ensures
        task.created(),
        task.input@ == input@,
        task.output@ == output@,
{
    let (block_size, block_count) = partition(output.len());
    Data { input, output, block_size, block_count, phase: Phase::Created, claims: OneSided::idle() }
}

impl<'a> Data<'a> {
    /// The number of elements of the input.
    pub open spec fn len(&self) -> int {
        self.input@.len() as int
    }

    /// The index of the first element of block `i`.
    pub open spec fn start_of(&self, i: int) -> int {
        block_start(i, self.block_size as int)
    }

    /// The index after the last element of block `i`.
    pub open spec fn end_of(&self, i: int) -> int {
        block_end(i, self.block_size as int, self.len())
    }

    /// Block `i` has all of its `block_size` elements.
    pub open spec fn full(&self, i: int) -> bool {
        self.end_of(i) == self.start_of(i) + self.block_size
    }

    /// The prefix sum of the input before `pos`.
    pub open spec fn prefix(&self, pos: int) -> u64 {
        wrap(sum(self.input@.take(pos)))
    }

    /// The sizes of the arrays and the partition into blocks fit together.
    pub open spec fn geometry(&self) -> bool {
        &&& self.output@.len() == self.input@.len()
        &&& self.block_size == partition_size(self.len())
        &&& self.block_count == block_count(self.len(), self.block_size as int)
        &&& self.block_count <= crate::runtime::block::BLOCK_COUNT
    }

    /// The task was created and has not started.
    pub open spec fn created(&self) -> bool {
        self.phase == Phase::Created && self.geometry()
    }

    /// After phase 1: the last cell of full block `i` holds the sum of the block.
    pub open spec fn reduced(&self, i: int) -> bool {
        self.full(i) ==> self.output@[self.end_of(i) - 1] == wrap(
            sum(self.input@.subrange(self.start_of(i), self.end_of(i))),
        )
    }

    /// After phase 2: the last cell of full block `i` holds its final value.
    pub open spec fn bounded(&self, i: int) -> bool {
        self.full(i) ==> self.output@[self.end_of(i) - 1] == self.prefix(self.end_of(i))
    }

    /// After phase 3: every cell of block `i` holds its final value.
    pub open spec fn scanned(&self, i: int) -> bool {
        forall|j: int| self.start_of(i) <= j < self.end_of(i) ==> #[trigger] self.output@[j] == self.prefix(j + 1)
    }

    /// The protocol invariant of a started task: what the blocks that are done
    /// have left in the arrays, by phase.
    pub open spec fn consistent(&self) -> bool {
        &&& self.geometry()
        &&& self.claims.inv()
        &&& self.claims.work_size == self.block_count
        &&& match self.phase {
            Phase::Phase1 => forall|i: int| 0 <= i < self.block_count && self.claims.done(i) ==> #[trigger] self.reduced(i),
            Phase::Phase3 => forall|i: int|
                #![trigger self.bounded(i)] #![trigger self.scanned(i)]
                0 <= i < self.block_count ==> self.bounded(i) && (self.claims.done(i) ==> self.scanned(i)),
            _ => false,
        }
    }

    /// The body of every block of the last phase has run exactly once.
    pub open spec fn bodies_ran(&self) -> bool {
        &&& self.claims.executions@.len() == self.claims.work_size
        &&& forall|i: int| 0 <= i < self.claims.work_size ==> #[trigger] self.claims.executions@[i] == 1
    }

    /// The task has finished: the output is the inclusive scan of the input.
    pub open spec fn completed(&self) -> bool {
        &&& self.phase == Phase::Finished
        &&& self.geometry()
        &&& self.output@ == inclusive_scan(self.input@)
        &&& self.bodies_ran()
    }

    /// The same input and parameters.
    pub open spec fn same(&self, start: &Self) -> bool {
        &&& self.input@ == start.input@
        &&& self.output@.len() == start.output@.len()
    }

    /// The body of block `block_index` in phase 1: the local reduction of a full block.
    pub fn phase1_run(&mut self, block_index: u32)
        requires
            old(self).geometry(),
            block_index < old(self).block_count,
        ensures
            final(self).geometry(),
            final(self).same(old(self)),
            final(self).phase == old(self).phase,
            final(self).claims == old(self).claims,
            final(self).block_size == old(self).block_size,
            final(self).block_count == old(self).block_count,
            final(self).reduced(block_index as int),
            final(self).output@ == if old(self).full(block_index as int) {
                old(self).output@.update(
                    old(self).end_of(block_index as int) - 1,
                    wrap(
                        sum(
                            old(self).input@.subrange(
                                old(self).start_of(block_index as int),
                                old(self).end_of(block_index as int),
                            ),
                        ),
                    ),
                )
            } else {
                old(self).output@
            },
    {
        proof {
            lemma_block_bounds(self.len(), self.block_size as int, block_index as int);
        }
        let (start, end) = block_range(block_index as usize, self.block_size, self.input.len());
        if end - start == self.block_size {
            let local = fold_sequential(&self.input[start..end]);
            self.output[end - 1] = local;
        }
    }

    /// Phase 2, serial: the sums in the last cells of the full blocks become
    /// the prefix sums at the ends of those blocks.
    pub fn phase1_finish(&mut self)
        requires
            old(self).geometry(),
            forall|i: int| 0 <= i < old(self).block_count ==> #[trigger] old(self).reduced(i),
        ensures
            final(self).geometry(),
            final(self).same(old(self)),
            final(self).phase == old(self).phase,
            final(self).claims == old(self).claims,
            final(self).block_size == old(self).block_size,
            final(self).block_count == old(self).block_count,
            forall|i: int| 0 <= i < final(self).block_count ==> #[trigger] final(self).bounded(i),
    {
        let mut accumulator: u64 = 0;
        let mut k: usize = 0;
        let count: usize = self.block_count;
        proof {
            assert(self.input@.take(0) =~= Seq::<u64>::empty());
            assert(self.start_of(0) == 0) by (nonlinear_arith)
                requires
                    self.start_of(0) == 0 * self.block_size,
            ;
        }
        while k < count
            invariant
                k <= count,
                count == self.block_count,
                self.geometry(),
                self.same(old(self)),
                self.phase == old(self).phase,
                self.claims == old(self).claims,
                self.block_size == old(self).block_size,
                forall|i: int| 0 <= i < k ==> #[trigger] self.bounded(i),
                forall|i: int| k <= i < count ==> #[trigger] self.reduced(i),
                k < count ==> accumulator == self.prefix(self.start_of(k as int)),
            decreases count - k,
        {
            let ghost before = *self;
            proof {
                lemma_block_bounds(self.len(), self.block_size as int, k as int);
                assert(self.reduced(k as int));
                lemma_sum_subrange(self.input@, self.start_of(k as int), self.end_of(k as int));
                lemma_wrap_add(
                    sum(self.input@.take(self.start_of(k as int))),
                    wrap(sum(self.input@.subrange(self.start_of(k as int), self.end_of(k as int)))),
                );
                lemma_wrap_add_int(
                    sum(self.input@.take(self.start_of(k as int))),
                    sum(self.input@.subrange(self.start_of(k as int), self.end_of(k as int))),
                );
            }
            let (start, end) = block_range(k, self.block_size, self.input.len());
            if end - start == self.block_size {
                accumulator = accumulator.wrapping_add(self.output[end - 1]);
                self.output[end - 1] = accumulator;
            }
            proof {
                assert forall|i: int| 0 <= i < k + 1 implies #[trigger] self.bounded(i) by {
                    lemma_block_bounds(self.len(), self.block_size as int, i);
                    if i < k {
                        assert(before.bounded(i));
                        lemma_start_order(i, k as int, self.block_size as int);
                    }
                }
                assert forall|i: int| k + 1 <= i < count implies #[trigger] self.reduced(i) by {
                    lemma_block_bounds(self.len(), self.block_size as int, i);
                    assert(before.reduced(i));
                    lemma_start_order(k as int, i, self.block_size as int);
                }
            }
            k += 1;
        }
    }

    /// The body of block `block_index` in phase 3: the scan of the block from
    /// the value before it. The last cell of a full block is correct already.
    pub fn phase3_run(&mut self, block_index: u32)
        requires
            old(self).geometry(),
            block_index < old(self).block_count,
            forall|i: int| 0 <= i < old(self).block_count ==> #[trigger] old(self).bounded(i),
        ensures
            final(self).geometry(),
            final(self).same(old(self)),
            final(self).phase == old(self).phase,
            final(self).claims == old(self).claims,
            final(self).block_size == old(self).block_size,
            final(self).block_count == old(self).block_count,
            final(self).scanned(block_index as int),
            forall|j: int|
                0 <= j < final(self).output@.len() && !(final(self).start_of(block_index as int) <= j < final(self).end_of(block_index as int)) ==> final(self).output@[j] == old(self).output@[j],
            final(self).full(block_index as int) ==> final(self).output@[final(self).end_of(block_index as int) - 1]
                == old(self).output@[final(self).end_of(block_index as int) - 1],
    {
        let ghost before = *self;
        proof {
            lemma_block_bounds(self.len(), self.block_size as int, block_index as int);
            assert(self.bounded(block_index as int));
            if block_index > 0 {
                lemma_block_bounds(self.len(), self.block_size as int, block_index - 1);
                assert(self.bounded(block_index - 1));
            } else {
                assert(self.input@.take(0) =~= Seq::<u64>::empty());
                assert(self.start_of(0) == 0) by (nonlinear_arith)
                    requires
                        self.start_of(0) == 0 * self.block_size,
                ;
            }
        }
        let (start, whole) = block_range(block_index as usize, self.block_size, self.input.len());
        let end: usize = if whole - start == self.block_size {
            whole - 1
        } else {
            whole
        };
        let initial: u64 = if block_index == 0 {
            0
        } else {
            self.output[start - 1]
        };
        scan_range(self.input, start, end, initial, &mut self.output);
        proof {
            let block = self.input@.subrange(start as int, end as int);
            assert forall|j: int| start <= j < whole implies #[trigger] self.output@[j] == self.prefix(j + 1) by {
                if j < end {
                    assert(block.take(j - start + 1) =~= self.input@.subrange(start as int, j + 1));
                    lemma_sum_subrange(self.input@, start as int, j + 1);
                    lemma_wrap_add_int(sum(self.input@.take(start as int)), sum(block.take(j - start + 1)));
                }
            }
        }
    }

    /// The completion callback of phase 3.
    pub fn phase3_finish(&mut self)
        requires
            old(self).bodies_ran(),
            old(self).geometry(),
            forall|i: int| 0 <= i < old(self).block_count ==> #[trigger] old(self).scanned(i),
        ensures
            final(self).completed(),
            final(self).claims == old(self).claims,
            final(self).same(old(self)),
            final(self).output@ == old(self).output@,
    {
        proof {
            lemma_block_count(self.len(), self.block_size as int);
            assert forall|j: int| 0 <= j < self.len() implies self.output@[j] == self.prefix(j + 1) by {
                let i = j / (self.block_size as int);
                lemma_block_of(self.len(), self.block_size as int, j);
                assert(self.scanned(i));
            }
            assert(self.output@ =~= inclusive_scan(self.input@));
        }
        self.phase = Phase::Finished;
    }
}

/// Earlier blocks end before later blocks start.
pub proof fn lemma_start_order(i: int, j: int, block_size: int)
    requires
        0 <= i < j,
        0 < block_size,
    ensures
        block_start(i, block_size) + block_size <= block_start(j, block_size),
{
    assert(i * block_size + block_size <= j * block_size) by (nonlinear_arith)
        requires
            0 <= i < j,
            0 < block_size,
    ;
}

/// Every element lies in the block of its index divided by the block size.
pub proof fn lemma_block_of(len: int, block_size: int, j: int)
    requires
        0 <= j < len,
        0 < block_size,
    ensures
        0 <= j / block_size < block_count(len, block_size),
        block_start(j / block_size, block_size) <= j < block_end(j / block_size, block_size, len),
{
    let i = j / block_size;
    vstd::arithmetic::div_mod::lemma_fundamental_div_mod(j, block_size);
    vstd::arithmetic::div_mod::lemma_mod_bound(j, block_size);
    assert(block_size * i == i * block_size) by (nonlinear_arith);
    assert((i + 1) * block_size == i * block_size + block_size) by (nonlinear_arith);
    lemma_block_count(len, block_size);
    let q = block_count(len, block_size);
    assert(0 <= i) by (nonlinear_arith)
        requires
            i * block_size + block_size > j,
            j >= 0,
            block_size > 0,
    ;
    assert(i < q) by (nonlinear_arith)
        requires
            i * block_size <= j,
            j < len,
            q * block_size >= len,
            block_size > 0,
    ;
}

impl<'a> Job for Data<'a> {
    open spec fn ready(&self) -> bool {
        self.created()
    }

    open spec fn inv(&self) -> bool {
        self.consistent()
    }

    open spec fn thread_count(&self) -> nat {
        self.claims.workers@.len()
    }

    open spec fn admits(&self, thread_count: nat) -> bool {
        thread_count <= MAX_THREADS
    }

    open spec fn finished(&self, worker: int) -> bool {
        self.claims.finished(worker)
    }

    open spec fn runnable(&self, worker: int) -> bool {
        !self.claims.finished(worker)
    }

    open spec fn pending(&self) -> nat {
        self.claims.pending()
    }

    open spec fn local_work(&self) -> nat {
        0
    }

    open spec fn phases_left(&self) -> nat {
        if self.phase == Phase::Phase1 {
            1
        } else {
            0
        }
    }

    open spec fn complete(&self) -> bool {
        self.completed()
    }

    open spec fn same_task(&self, start: &Self) -> bool {
        self.same(start)
    }

    proof fn lemma_same_task_reflexive(&self) {
    }

    proof fn lemma_same_task_transitive(&self, middle: &Self, start: &Self) {
    }

    proof fn lemma_live(&self, worker: int) {
        assert(self.runnable(worker));
    }

    fn start(&mut self, thread_count: usize) {
        self.claims = OneSided::new(self.block_count as u32, thread_count);
        self.phase = Phase::Phase1;
    }

    fn is_finished(&self, worker: usize) -> (done: bool) {
        self.claims.held(worker).is_none()
    }

    fn step(&mut self, worker: usize) -> (progress: bool) {
        let ghost before = *self;
        let block_index: u32 = self.claims.held(worker).unwrap();
        match self.phase {
            Phase::Phase1 => {
                self.phase1_run(block_index);
            },
            _ => {
                proof {
                    assert forall|i: int| 0 <= i < self.block_count implies #[trigger] self.bounded(i) by {
                        assert(self.bounded(i) && (self.claims.done(i) ==> self.scanned(i)));
                    }
                }
                self.phase3_run(block_index);
            },
        }
        let ghost executed = *self;
        self.claims.release(worker);
        proof {
            assert forall|i: int| 0 <= i < self.block_count && i != block_index implies (before.reduced(i)
                ==> executed.reduced(i)) && (before.bounded(i) ==> executed.bounded(i)) && (before.phase
                == Phase::Phase3 && before.scanned(i) ==> executed.scanned(i)) by {
                lemma_block_bounds(self.len(), self.block_size as int, i);
                lemma_block_bounds(self.len(), self.block_size as int, block_index as int);
                if i < block_index {
                    lemma_start_order(i, block_index as int, self.block_size as int);
                } else {
                    lemma_start_order(block_index as int, i, self.block_size as int);
                }
            }
            if self.phase == Phase::Phase1 {
                assert forall|i: int| 0 <= i < self.block_count && self.claims.done(i) implies #[trigger] self.reduced(i) by {
                    if i != block_index {
                        assert(before.claims.done(i));
                        assert(before.reduced(i));
                    }
                    assert(executed.reduced(i));
                }
            } else {
                assert forall|i: int|
                    #![trigger self.bounded(i)] #![trigger self.scanned(i)]
                    0 <= i < self.block_count implies self.bounded(i) && (
                self.claims.done(i) ==> self.scanned(i)) by {
                    assert(before.bounded(i));
                    assert(before.claims.done(i) ==> before.scanned(i));
                    if i != block_index {
                        assert(executed.bounded(i));
                        if self.claims.done(i) {
                            assert(before.claims.done(i));
                            assert(executed.scanned(i));
                        }
                    } else {
                        lemma_block_bounds(self.len(), self.block_size as int, i);
                        assert(executed.bounded(i));
                        assert(executed.scanned(i));
                    }
                }
            }
        }
        true
    }

    fn finish(&mut self) -> (more: bool) {
        proof {
            assert forall|w: int| 0 <= w < self.claims.workers_count() implies self.claims.finished(w) by {
                assert(self.finished(w));
            }
            self.claims.lemma_finished();
        }
        match self.phase {
            Phase::Phase1 => {
                let thread_count: usize = self.claims.workers.len();
                proof {
                    assert forall|i: int| 0 <= i < self.block_count implies #[trigger] self.reduced(i) by {
                        assert(self.claims.done(i));
                    }
                }
                self.phase1_finish();
                let ghost reduced = *self;
                self.claims = OneSided::new(self.block_count as u32, thread_count);
                self.phase = Phase::Phase3;
                proof {
                    assert forall|i: int|
                        #![trigger self.bounded(i)] #![trigger self.scanned(i)]
                        0 <= i < self.block_count implies self.bounded(i) && (
                    self.claims.done(i) ==> self.scanned(i)) by {
                        assert(reduced.bounded(i));
                    }
                }
                true
            },
            _ => {
                proof {
                    assert forall|i: int| 0 <= i < self.block_count implies #[trigger] self.scanned(i) by {
                        assert(self.bounded(i) && (self.claims.done(i) ==> self.scanned(i)));
                    }
                }
                proof {
                    assert forall|i: int| 0 <= i < self.claims.work_size implies #[trigger] self.claims.executions@[i] == 1 by {
                        assert(self.claims.done(i));
                    }
                }
                self.phase3_finish();
                false
            },
        }
    }
}

} // verus!
