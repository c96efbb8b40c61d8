//! Scan-then-propagate compaction in three phases.
//!
//! Phase 1 writes for every element the number of kept words of its block up
//! to and including it. Phase 2, serial, turns the last cell of each full
//! block into the number of kept words up to the end of the block. Phase 3
//! adds to each index the number of kept words before the block and stores
//! the word of every element at which the index grows.

use vstd::prelude::*;
use crate::cases::compact::{count, kept, lemma_count_bound, lemma_count_monotonic, lemma_kept_split, lemma_kept_take_step, lemma_packed_all, lemma_packed_apart, lemma_packed_join, packed, scan_indices_range};
use crate::cases::scan::reduce_then_scan::{lemma_start_order, Phase};
use crate::runtime::block::{block_count, block_end, block_range, block_start, lemma_block_bounds, lemma_block_count, partition, partition_size};
use crate::runtime::one_sided::OneSided;
use crate::runtime::worker::{Job, MAX_THREADS};

verus! {

/// The task with its data.
pub struct Data<'a> {
    pub mask: u64,
    pub input: &'a [u64],
    /// One cell per element: the running count of kept words.
    pub temp: Vec<u64>,
    pub output: Vec<u64>,
    /// The number of kept words, published by the last block in phase 3.
    pub output_count: usize,
    pub block_size: usize,
    pub block_count: usize,
    pub phase: Phase,
    pub claims: OneSided,
}

/// The task that packs the words of `input` that the predicate keeps under
/// `mask` into `output`, with one cell of `temp` for each element.
pub fn create_task<'a>(mask: u64, input: &'a [u64], temp: Vec<u64>, output: Vec<u64>) -> (task: Data<'a>)
    requires
        output@.len() == input@.len(),
        temp@.len() == input@.len(),
    ensures
        task.created(),
        task.mask == mask,
        task.input@ == input@,
        task.temp@ == temp@,
        task.output@ == output@,
{
    let (block_size, block_count) = partition(output.len());
    Data { mask, input, temp, output, output_count: 0, block_size, block_count, phase: Phase::Created, claims: OneSided::idle() }
}

/// The number of kept words of `input[from..=at]`.
pub open spec fn running(mask: u64, input: Seq<u64>, from: int, at: int) -> nat {
    count(mask, input.subrange(from, at + 1))
}

/// The words that `input[start..end]` keeps are stored by their indices in
/// `temp`: cell `j` holds the number of kept words before and at `j`, counted
/// from `start` and raised by `prefix`, or counted from the start of the input
/// where `j` is `last`. The word of every element at which the index grows is
/// stored at the index before it. Returns the index of the last element.
pub fn propagate(mask: u64, input: &[u64], temp: &Vec<u64>, start: usize, end: usize, last: usize, prefix: u64, output: &mut Vec<u64>) -> (total: u64)
    requires
        start <= end <= input@.len(),
        input@.len() == temp@.len(),
        input@.len() <= old(output)@.len(),
        prefix == count(mask, input@.take(start as int)),
        forall|j: int|
            start <= j < end ==> #[trigger] temp@[j] == if j == last {
                count(mask, input@.take(j + 1))
            } else {
                running(mask, input@, start as int, j)
            },
    ensures
        final(output)@.len() == old(output)@.len(),
        total == count(mask, input@.take(end as int)),
        packed(mask, input@, final(output)@, start as int, end as int),
        forall|c: int|
            0 <= c < final(output)@.len() && !(count(mask, input@.take(start as int)) <= c < count(
                mask,
                input@.take(end as int),
            )) ==> #[trigger] final(output)@[c] == old(output)@[c],
{
    let mut previous: u64 = prefix;
    let mut i: usize = start;
    let n: usize = input.len();
    while i < end
        invariant
            n == input@.len(),
            start <= i <= end <= input@.len(),
            input@.len() == temp@.len(),
            input@.len() <= output@.len(),
            output@.len() == old(output)@.len(),
            prefix == count(mask, input@.take(start as int)),
            previous == count(mask, input@.take(i as int)),
            forall|j: int|
                start <= j < end ==> #[trigger] temp@[j] == if j == last {
                    count(mask, input@.take(j + 1))
                } else {
                    running(mask, input@, start as int, j)
                },
            packed(mask, input@, output@, start as int, i as int),
            forall|c: int|
                0 <= c < output@.len() && !(count(mask, input@.take(start as int)) <= c < count(
                    mask,
                    input@.take(i as int),
                )) ==> #[trigger] output@[c] == old(output)@[c],
        decreases end - i,
    {
        let ghost before = output@;
        proof {
            lemma_kept_split(mask, input@, start as int, i + 1);
            lemma_kept_take_step(mask, input@, i as int);
            lemma_count_monotonic(mask, input@, i + 1, input@.len() as int);
            lemma_kept_split(mask, input@, i + 1, input@.len() as int);
            assert(input@.take(input@.len() as int) =~= input@);
            assert(temp@[i as int] == if i == last {
                count(mask, input@.take(i + 1))
            } else {
                running(mask, input@, start as int, i as int)
            });
        }
        let mut index: u64 = temp[i];
        if i != last {
            index = index + prefix;
        }
        if index != previous {
            output[(index - 1) as usize] = input[i];
        }
        proof {
            assert forall|c: int|
                count(mask, input@.take(start as int)) <= c < count(mask, input@.take(i + 1)) implies #[trigger] output@[c]
                == kept(mask, input@)[c] by {
                if c < count(mask, input@.take(i as int)) {
                    assert(before[c] == kept(mask, input@)[c]);
                }
            }
        }
        previous = index;
        i += 1;
    }
    previous
}

impl<'a> Data<'a> {
    /// The number of elements of the input.
    pub open spec fn len(&self) -> int {
        self.input@.len() as int
    }

    /// The index of the first element of block `i`.
    pub open spec fn start_of(&self, i: int) -> int {
        block_start(i, self.block_size as int)
    }

    /// The index after the last element of block `i`.
    pub open spec fn end_of(&self, i: int) -> int {
        block_end(i, self.block_size as int, self.len())
    }

    /// Where the blocks before block `k` end.
    pub open spec fn boundary(&self, k: int) -> int {
        if k >= self.block_count {
            self.len()
        } else {
            self.start_of(k)
        }
    }

    /// The number of kept words before `pos`.
    pub open spec fn counted(&self, pos: int) -> nat {
        count(self.mask, self.input@.take(pos))
    }

    /// The kept words of block `i` are in their output cells.
    pub open spec fn block_packed(&self, i: int) -> bool {
        packed(self.mask, self.input@, self.output@, self.start_of(i), self.end_of(i))
    }

    /// After phase 1: every cell of block `i` holds the number of kept words
    /// of the block up to and including it.
    pub open spec fn numbered(&self, i: int) -> bool {
        forall|j: int|
            self.start_of(i) <= j < self.end_of(i) ==> #[trigger] self.temp@[j] == running(
                self.mask,
                self.input@,
                self.start_of(i),
                j,
            )
    }

    /// After phase 2: as after phase 1, but the last cell of a full block
    /// holds the number of kept words up to the end of the block.
    pub open spec fn bounded(&self, i: int) -> bool {
        forall|j: int|
            self.start_of(i) <= j < self.end_of(i) ==> #[trigger] self.temp@[j] == if j == self.start_of(i)
                + self.block_size - 1 {
                self.counted(j + 1)
            } else {
                running(self.mask, self.input@, self.start_of(i), j)
            }
    }

    /// The sizes of the arrays and the partition into blocks fit together.
    pub open spec fn geometry(&self) -> bool {
        &&& self.output@.len() == self.input@.len()
        &&& self.temp@.len() == self.input@.len()
        &&& self.block_size == partition_size(self.len())
        &&& self.block_count == block_count(self.len(), self.block_size as int)
        &&& self.block_count <= crate::runtime::block::BLOCK_COUNT
        &&& self.block_count == 0 ==> self.output_count == 0
    }

    /// The task was created and has not started.
    pub open spec fn created(&self) -> bool {
        self.phase == Phase::Created && self.geometry()
    }

    /// The protocol invariant of a started task: what the blocks that are done
    /// have left in the arrays, by phase.
    pub open spec fn consistent(&self) -> bool {
        &&& self.geometry()
        &&& self.claims.inv()
        &&& self.claims.work_size == self.block_count
        &&& match self.phase {
            Phase::Phase1 => forall|i: int| 0 <= i < self.block_count && self.claims.done(i) ==> #[trigger] self.numbered(i),
            Phase::Phase3 => {
                &&& forall|i: int| 0 <= i < self.block_count ==> #[trigger] self.bounded(i)
                &&& forall|i: int| 0 <= i < self.block_count && self.claims.done(i) ==> #[trigger] self.block_packed(i)
                &&& self.block_count > 0 && self.claims.done(self.block_count - 1) ==> self.output_count == count(
                    self.mask,
                    self.input@,
                )
            },
            _ => false,
        }
    }

    /// The body of every block of the last phase has run exactly once.
    pub open spec fn bodies_ran(&self) -> bool {
        &&& self.claims.executions@.len() == self.claims.work_size
        &&& forall|i: int| 0 <= i < self.claims.work_size ==> #[trigger] self.claims.executions@[i] == 1
    }

    /// The output starts with the kept words of the input, in order, and
    /// their number is published.
    pub open spec fn completed(&self) -> bool {
        &&& self.phase == Phase::Finished
        &&& self.geometry()
        &&& self.output_count == count(self.mask, self.input@)
        &&& self.output@.take(self.output_count as int) == kept(self.mask, self.input@)
        &&& self.bodies_ran()
    }

    /// The same input and parameters.
    pub open spec fn same(&self, start: &Self) -> bool {
        &&& self.mask == start.mask
        &&& self.input@ == start.input@
        &&& self.output@.len() == start.output@.len()
        &&& self.temp@.len() == start.temp@.len()
    }

    /// The rest of the task is as it was.
    pub open spec fn frame(&self, before: &Self) -> bool {
        &&& self.same(before)
        &&& self.phase == before.phase
        &&& self.claims == before.claims
        &&& self.block_size == before.block_size
        &&& self.block_count == before.block_count
    }

    /// The body of block `block_index` in phase 1: the local scan of the indices.
    pub fn phase1_run(&mut self, block_index: u32)
        requires
            old(self).geometry(),
            block_index < old(self).block_count,
        ensures
            final(self).geometry(),
            final(self).frame(old(self)),
            final(self).output@ == old(self).output@,
            final(self).output_count == old(self).output_count,
            final(self).numbered(block_index as int),
            forall|j: int|
                0 <= j < final(self).temp@.len() && !(final(self).start_of(block_index as int) <= j < final(self).end_of(
                    block_index as int,
                )) ==> final(self).temp@[j] == old(self).temp@[j],
    {
        proof {
            lemma_block_bounds(self.len(), self.block_size as int, block_index as int);
        }
        let (start, end) = block_range(block_index as usize, self.block_size, self.input.len());
        scan_indices_range(self.mask, self.input, start, end, &mut self.temp);
        proof {
            let block = self.input@.subrange(start as int, end as int);
            assert forall|j: int| start <= j < end implies #[trigger] self.temp@[j] == running(
                self.mask,
                self.input@,
                start as int,
                j,
            ) by {
                assert(block.take(j - start + 1) =~= self.input@.subrange(start as int, j + 1));
            }
        }
    }

    /// Phase 2, serial: the last cell of each full block becomes the number
    /// of kept words up to the end of the block.
    pub fn phase1_finish(&mut self)
        requires
            old(self).geometry(),
            forall|i: int| 0 <= i < old(self).block_count ==> #[trigger] old(self).numbered(i),
        ensures
            final(self).geometry(),
            final(self).frame(old(self)),
            final(self).output@ == old(self).output@,
            final(self).output_count == old(self).output_count,
            forall|i: int| 0 <= i < final(self).block_count ==> #[trigger] final(self).bounded(i),
    {
        let count: usize = self.block_count;
        let mut aggregate: u64 = 0;
        let mut k: usize = 0;
        proof {
            assert(self.input@.take(0) =~= Seq::<u64>::empty());
        }
        while k < count
            invariant
                k <= count,
                count == self.block_count,
                self.geometry(),
                self.frame(old(self)),
                self.output@ == old(self).output@,
                self.output_count == old(self).output_count,
                k < count ==> aggregate == self.counted(self.start_of(k as int)),
                forall|i: int| 0 <= i < k ==> #[trigger] self.bounded(i),
                forall|i: int| k <= i < count ==> #[trigger] self.numbered(i),
            decreases count - k,
        {
            let ghost before = *self;
            proof {
                lemma_block_bounds(self.len(), self.block_size as int, k as int);
                if k == 0 {
                    assert(self.start_of(0) == 0) by (nonlinear_arith)
                        requires
                            self.start_of(0) == 0 * self.block_size,
                    ;
                }
                assert(self.numbered(k as int));
                lemma_kept_split(self.mask, self.input@, self.start_of(k as int), self.end_of(k as int));
                lemma_count_monotonic(self.mask, self.input@, self.start_of(k as int), self.end_of(k as int));
            }
            let (start, end) = block_range(k, self.block_size, self.input.len());
            if end - start == self.block_size {
                aggregate = aggregate + self.temp[end - 1];
                self.temp[end - 1] = aggregate;
            }
            proof {
                assert forall|i: int| 0 <= i < k + 1 implies #[trigger] self.bounded(i) by {
                    lemma_block_bounds(self.len(), self.block_size as int, i);
                    if i < k {
                        assert(before.bounded(i));
                        lemma_start_order(i, k as int, self.block_size as int);
                        assert forall|j: int| self.start_of(i) <= j < self.end_of(i) implies #[trigger] self.temp@[j]
                            == if j == self.start_of(i) + self.block_size - 1 {
                            self.counted(j + 1)
                        } else {
                            running(self.mask, self.input@, self.start_of(i), j)
                        } by {
                            assert(self.temp@[j] == before.temp@[j]);
                        }
                    } else {
                        assert forall|j: int| self.start_of(i) <= j < self.end_of(i) implies #[trigger] self.temp@[j]
                            == if j == self.start_of(i) + self.block_size - 1 {
                            self.counted(j + 1)
                        } else {
                            running(self.mask, self.input@, self.start_of(i), j)
                        } by {
                            assert(before.temp@[j] == running(before.mask, before.input@, before.start_of(i), j));
                        }
                    }
                }
                assert forall|i: int| k + 1 <= i < count implies #[trigger] self.numbered(i) by {
                    lemma_block_bounds(self.len(), self.block_size as int, i);
                    assert(before.numbered(i));
                    lemma_start_order(k as int, i, self.block_size as int);
                    assert forall|j: int| self.start_of(i) <= j < self.end_of(i) implies #[trigger] self.temp@[j]
                        == running(self.mask, self.input@, self.start_of(i), j) by {
                        assert(self.temp@[j] == before.temp@[j]);
                    }
                }
            }
            k += 1;
        }
    }

    /// The body of block `block_index` in phase 3: the block's kept words are
    /// stored by their indices, and the last block publishes the total.
    pub fn phase3_run(&mut self, block_index: u32)
        requires
            old(self).geometry(),
            block_index < old(self).block_count,
            forall|i: int| 0 <= i < old(self).block_count ==> #[trigger] old(self).bounded(i),
        ensures
            final(self).geometry(),
            final(self).frame(old(self)),
            final(self).temp@ == old(self).temp@,
            final(self).block_packed(block_index as int),
            block_index == old(self).block_count - 1 ==> final(self).output_count == count(
                old(self).mask,
                old(self).input@,
            ),
            block_index != old(self).block_count - 1 ==> final(self).output_count == old(self).output_count,
            forall|c: int|
                0 <= c < final(self).output@.len() && !(final(self).counted(final(self).start_of(block_index as int)) <= c
                    < final(self).counted(final(self).end_of(block_index as int))) ==> #[trigger] final(self).output@[c]
                    == old(self).output@[c],
    {
        proof {
            lemma_block_bounds(self.len(), self.block_size as int, block_index as int);
            if block_index + 1 < self.block_count {
                lemma_block_bounds(self.len(), self.block_size as int, block_index + 1);
            }
            assert(self.bounded(block_index as int));
            if block_index > 0 {
                lemma_block_bounds(self.len(), self.block_size as int, block_index - 1);
                assert(self.bounded(block_index - 1));
            } else {
                assert(self.input@.take(0) =~= Seq::<u64>::empty());
                assert(self.start_of(0) == 0) by (nonlinear_arith)
                    requires
                        self.start_of(0) == 0 * self.block_size,
                ;
            }
        }
        let (start, end) = block_range(block_index as usize, self.block_size, self.input.len());
        let prefix: u64 = if start == 0 {
            0
        } else {
            self.temp[start - 1]
        };
        let last: usize = if end - start == self.block_size {
            end - 1
        } else {
            end
        };
        let total = propagate(self.mask, self.input, &self.temp, start, end, last, prefix, &mut self.output);
        if end == self.input.len() {
            proof {
                assert(self.input@.take(self.len()) =~= self.input@);
                lemma_count_bound(self.mask, self.input@);
            }
            self.output_count = total as usize;
        }
    }

    /// The kept words before block `k` are packed, when every block is.
    proof fn lemma_packed_below(&self, k: int)
        requires
            self.geometry(),
            forall|i: int| 0 <= i < self.block_count ==> #[trigger] self.block_packed(i),
            0 <= k <= self.block_count,
        ensures
            packed(self.mask, self.input@, self.output@, 0, self.boundary(k)),
        decreases k,
    {
        if k == 0 {
            lemma_block_count(self.len(), self.block_size as int);
            assert(self.boundary(0) == 0) by {
                if self.block_count > 0 {
                    assert(self.start_of(0) == 0) by (nonlinear_arith)
                        requires
                            self.start_of(0) == 0 * self.block_size,
                    ;
                }
            }
        } else {
            self.lemma_packed_below(k - 1);
            lemma_block_bounds(self.len(), self.block_size as int, k - 1);
            assert(self.block_packed(k - 1));
            lemma_packed_join(self.mask, self.input@, self.output@, 0, self.start_of(k - 1), self.end_of(k - 1));
        }
    }

    /// The completion callback of phase 3.
    pub fn phase3_finish(&mut self)
        requires
            old(self).bodies_ran(),
            old(self).geometry(),
            old(self).output_count == count(old(self).mask, old(self).input@),
            forall|i: int| 0 <= i < old(self).block_count ==> #[trigger] old(self).block_packed(i),
        ensures
            final(self).completed(),
            final(self).claims == old(self).claims,
            final(self).same(old(self)),
            final(self).output@ == old(self).output@,
            final(self).output_count == old(self).output_count,
    {
        proof {
            self.lemma_packed_below(self.block_count as int);
            lemma_packed_all(self.mask, self.input@, self.output@);
        }
        self.phase = Phase::Finished;
    }

    /// A block stays packed when the body of another block stores its words.
    proof fn lemma_others_packed(&self, before: &Self, block: int)
        requires
            before.geometry(),
            self.geometry(),
            self.mask == before.mask,
            self.input@ == before.input@,
            self.block_size == before.block_size,
            self.block_count == before.block_count,
            0 <= block < self.block_count,
            forall|c: int|
                0 <= c < self.output@.len() && !(self.counted(self.start_of(block)) <= c < self.counted(
                    self.end_of(block),
                )) ==> #[trigger] self.output@[c] == before.output@[c],
        ensures
            forall|i: int|
                0 <= i < self.block_count && i != block && before.block_packed(i) ==> #[trigger] self.block_packed(i),
    {
        assert forall|i: int| 0 <= i < self.block_count && i != block && before.block_packed(i) implies #[trigger] self.block_packed(i) by {
            lemma_block_bounds(self.len(), self.block_size as int, i);
            lemma_block_bounds(self.len(), self.block_size as int, block);
            if i < block {
                lemma_start_order(i, block, self.block_size as int);
            } else {
                lemma_start_order(block, i, self.block_size as int);
            }
            lemma_packed_apart(
                self.mask,
                self.input@,
                before.output@,
                self.output@,
                self.start_of(i),
                self.end_of(i),
                self.start_of(block),
                self.end_of(block),
            );
        }
    }

    /// The indices of a block stay as they are when the body of another block
    /// writes its own.
    proof fn lemma_others_numbered(&self, before: &Self, block: int)
        requires
            before.geometry(),
            self.geometry(),
            self.mask == before.mask,
            self.input@ == before.input@,
            self.block_size == before.block_size,
            self.block_count == before.block_count,
            0 <= block < self.block_count,
            forall|j: int|
                0 <= j < self.temp@.len() && !(self.start_of(block) <= j < self.end_of(block)) ==> self.temp@[j]
                    == before.temp@[j],
        ensures
            forall|i: int| 0 <= i < self.block_count && i != block && before.numbered(i) ==> #[trigger] self.numbered(i),
    {
        assert forall|i: int| 0 <= i < self.block_count && i != block && before.numbered(i) implies #[trigger] self.numbered(i) by {
            lemma_block_bounds(self.len(), self.block_size as int, i);
            lemma_block_bounds(self.len(), self.block_size as int, block);
            if i < block {
                lemma_start_order(i, block, self.block_size as int);
            } else {
                lemma_start_order(block, i, self.block_size as int);
            }
            assert forall|j: int| self.start_of(i) <= j < self.end_of(i) implies #[trigger] self.temp@[j] == running(
                self.mask,
                self.input@,
                self.start_of(i),
                j,
            ) by {
                assert(before.temp@[j] == running(before.mask, before.input@, before.start_of(i), j));
            }
        }
    }
}

impl<'a> Job for Data<'a> {
    open spec fn ready(&self) -> bool {
        self.created()
    }

    open spec fn inv(&self) -> bool {
        self.consistent()
    }

    open spec fn thread_count(&self) -> nat {
        self.claims.workers@.len()
    }

    open spec fn admits(&self, thread_count: nat) -> bool {
        thread_count <= MAX_THREADS
    }

    open spec fn finished(&self, worker: int) -> bool {
        self.claims.finished(worker)
    }

    open spec fn runnable(&self, worker: int) -> bool {
        !self.claims.finished(worker)
    }

    open spec fn pending(&self) -> nat {
        self.claims.pending()
    }

    open spec fn local_work(&self) -> nat {
        0
    }

    open spec fn phases_left(&self) -> nat {
        if self.phase == Phase::Phase1 {
            1
        } else {
            0
        }
    }

    open spec fn complete(&self) -> bool {
        self.completed()
    }

    open spec fn same_task(&self, start: &Self) -> bool {
        self.same(start)
    }

    proof fn lemma_same_task_reflexive(&self) {
    }

    proof fn lemma_same_task_transitive(&self, middle: &Self, start: &Self) {
    }

    proof fn lemma_live(&self, worker: int) {
        assert(self.runnable(worker));
    }

    fn start(&mut self, thread_count: usize) {
        self.claims = OneSided::new(self.block_count as u32, thread_count);
        self.phase = Phase::Phase1;
    }

    fn is_finished(&self, worker: usize) -> (done: bool) {
        self.claims.held(worker).is_none()
    }

    fn step(&mut self, worker: usize) -> (progress: bool) {
        let ghost before = *self;
        let block_index: u32 = self.claims.held(worker).unwrap();
        match self.phase {
            Phase::Phase1 => {
                self.phase1_run(block_index);
                let ghost executed = *self;
                self.claims.release(worker);
                proof {
                    executed.lemma_others_numbered(&before, block_index as int);
                    assert forall|i: int| 0 <= i < self.block_count && self.claims.done(i) implies #[trigger] self.numbered(i) by {
                        if i != block_index {
                            assert(before.claims.done(i));
                            assert(before.numbered(i));
                            assert(executed.numbered(i));
                        } else {
                            assert(executed.numbered(i));
                        }
                    }
                }
            },
            _ => {
                self.phase3_run(block_index);
                let ghost executed = *self;
                self.claims.release(worker);
                proof {
                    executed.lemma_others_packed(&before, block_index as int);
                    assert forall|i: int| 0 <= i < self.block_count implies #[trigger] self.bounded(i) by {
                        assert(before.bounded(i));
                    }
                    assert forall|i: int| 0 <= i < self.block_count && self.claims.done(i) implies #[trigger] self.block_packed(i) by {
                        if i != block_index {
                            assert(before.claims.done(i));
                            assert(before.block_packed(i));
                            assert(executed.block_packed(i));
                        } else {
                            assert(executed.block_packed(i));
                        }
                    }
                    if self.block_count > 0 && self.claims.done(self.block_count - 1) {
                        if block_index != self.block_count - 1 {
                            assert(before.claims.done(self.block_count - 1));
                        }
                        lemma_count_bound(self.mask, self.input@);
                    }
                    assert(self.block_count > 0 && self.claims.done(self.block_count - 1) ==> self.output_count == count(
                        self.mask,
                        self.input@,
                    ));
                }
            },
        }
        true
    }

    fn finish(&mut self) -> (more: bool) {
        proof {
            assert forall|w: int| 0 <= w < self.claims.workers_count() implies self.claims.finished(w) by {
                assert(self.finished(w));
            }
            self.claims.lemma_finished();
        }
        match self.phase {
            Phase::Phase1 => {
                let thread_count: usize = self.claims.workers.len();
                proof {
                    assert forall|i: int| 0 <= i < self.block_count implies #[trigger] self.numbered(i) by {
                        assert(self.claims.done(i));
                    }
                }
                self.phase1_finish();
                let ghost indexed = *self;
                self.claims = OneSided::new(self.block_count as u32, thread_count);
                self.phase = Phase::Phase3;
                proof {
                    assert forall|i: int| 0 <= i < self.block_count implies #[trigger] self.bounded(i) by {
                        assert(indexed.bounded(i));
                    }
                }
                true
            },
            _ => {
                proof {
                    assert forall|i: int| 0 <= i < self.block_count implies #[trigger] self.block_packed(i) by {
                        assert(self.claims.done(i));
                    }
                    if self.block_count > 0 {
                        assert(self.claims.done(self.block_count - 1));
                    } else {
                        lemma_block_count(self.len(), self.block_size as int);
                        assert(self.len() == 0) by (nonlinear_arith)
                            requires
                                0 * self.block_size >= self.len(),
                                self.len() >= 0,
                        ;
                        assert(self.input@ =~= Seq::<u64>::empty());
                    }
                }
                proof {
                    assert forall|i: int| 0 <= i < self.claims.work_size implies #[trigger] self.claims.executions@[i] == 1 by {
                        assert(self.claims.done(i));
                    }
                }
                self.phase3_finish();
                false
            },
        }
    }
}

} // verus!
