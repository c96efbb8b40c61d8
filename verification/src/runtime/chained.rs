//! Chained scan with decoupled look-back, and its variants, over either primitive.
//!
//! One phase, no barrier. A worker that holds a block either takes the prefix
//! of the block before it and emits its own block directly, or reduces its
//! block, publishes the aggregate, and looks back over the records of the
//! blocks before it until it meets a published prefix. The variants differ in
//! the block size, in whether a worker starts out sequentially, in how far it
//! looks back, and in whether it puts the look-back of one block off until it
//! has reduced the next.

use vstd::prelude::*;
use crate::cases::compact::{count, count_sequential, kept, lemma_count_bound, lemma_kept_concat, lemma_kept_split};
use crate::cases::scan::{fold_sequential, inclusive_scan, lemma_sum_concat, lemma_sum_nonnegative, lemma_sum_subrange, lemma_wrap_add, lemma_wrap_add_int, lemma_wrap_small, scan_range, sum, wrap};
use crate::runtime::block::{block_count, block_end, block_range, block_start, lemma_block_bounds, lemma_block_count, lemma_total_flags, lemma_total_update, total, BlockInfo, STATE_AGGREGATE_AVAILABLE, STATE_INITIALIZED, STATE_PREFIX_AVAILABLE};
use crate::runtime::workassisting_loop::{first_block, next_block, EmptySignal, LoopArguments};
use crate::runtime::worker::{Job, MAX_THREADS};

verus! {

/// The primitive that a chained task computes.
#[derive(Clone, Copy)]
pub enum Kernel {
    /// Inclusive prefix sums under wrapping addition.
    Scan,
    /// Packing of the words that the predicate keeps under this mask.
    Compact { mask: u64 },
}

impl Kernel {
    /// What a segment of the input contributes to the prefix of the blocks after it.
    pub open spec fn weight(self, s: Seq<u64>) -> int {
        match self {
            Kernel::Scan => sum(s),
            Kernel::Compact { mask } => count(mask, s) as int,
        }
    }

    /// The first output cell that the input from `pos` on is written to.
    pub open spec fn cell(self, input: Seq<u64>, pos: int) -> int {
        match self {
            Kernel::Scan => pos,
            Kernel::Compact { mask } => count(mask, input.take(pos)) as int,
        }
    }

    /// The value that output cell `c` must hold in the end.
    pub open spec fn expected(self, input: Seq<u64>, c: int) -> u64 {
        match self {
            Kernel::Scan => wrap(sum(input.take(c + 1))),
            Kernel::Compact { mask } => kept(mask, input)[c],
        }
    }

    /// The weight before a position splits at any earlier position, and the
    /// output cells grow with the position.
    pub proof fn lemma_weight_split(self, input: Seq<u64>, lo: int, hi: int)
        requires
            0 <= lo <= hi <= input.len(),
        ensures
            self.weight(input.take(hi)) == self.weight(input.take(lo)) + self.weight(input.subrange(lo, hi)),
            0 <= self.weight(input.subrange(lo, hi)),
            0 <= self.weight(input.take(lo)),
            self.cell(input, lo) <= self.cell(input, hi),
            0 <= self.cell(input, lo),
            self.cell(input, hi) <= hi,
    {
        match self {
            Kernel::Scan => {
                lemma_sum_subrange(input, lo, hi);
                lemma_sum_nonnegative(input.subrange(lo, hi));
                lemma_sum_nonnegative(input.take(lo));
            },
            Kernel::Compact { mask } => {
                lemma_kept_split(mask, input, lo, hi);
                lemma_count_bound(mask, input.take(hi));
            },
        }
    }

    /// Weights of adjacent segments add up.
    pub proof fn lemma_weight_adjacent(self, input: Seq<u64>, lo: int, mid: int, hi: int)
        requires
            0 <= lo <= mid <= hi <= input.len(),
        ensures
            self.weight(input.subrange(lo, hi)) == self.weight(input.subrange(lo, mid)) + self.weight(
                input.subrange(mid, hi),
            ),
    {
        assert(input.subrange(lo, hi) =~= input.subrange(lo, mid) + input.subrange(mid, hi));
        match self {
            Kernel::Scan => {
                lemma_sum_concat(input.subrange(lo, mid), input.subrange(mid, hi));
            },
            Kernel::Compact { mask } => {
                lemma_kept_concat(mask, input.subrange(lo, mid), input.subrange(mid, hi));
            },
        }
    }
}

/// The reduction of `input[start..end]`: its wrapping sum, or its number of kept words.
pub fn reduce(kernel: Kernel, input: &[u64], start: usize, end: usize) -> (local: u64)
    requires
        start <= end <= input@.len(),
    ensures
        local == wrap(kernel.weight(input@.subrange(start as int, end as int))),
{
    let block = &input[start..end];
    match kernel {
        Kernel::Scan => fold_sequential(block),
        Kernel::Compact { mask } => {
            proof {
                lemma_count_bound(mask, block@);
                lemma_wrap_small(count(mask, block@) as int);
            }
            count_sequential(mask, block) as u64
        },
    }
}

/// Emits the output of `input[start..end]`, given the prefix `base` of
/// everything before it, and returns the prefix of everything up to `end`.
pub fn emit(kernel: Kernel, input: &[u64], start: usize, end: usize, base: u64, output: &mut Vec<u64>) -> (prefix: u64)
    requires
        start <= end <= input@.len(),
        input@.len() <= old(output)@.len(),
        base == wrap(kernel.weight(input@.take(start as int))),
    ensures
        final(output)@.len() == old(output)@.len(),
        prefix == wrap(kernel.weight(input@.take(end as int))),
        forall|c: int|
            kernel.cell(input@, start as int) <= c < kernel.cell(input@, end as int) ==> #[trigger] final(output)@[c]
                == kernel.expected(input@, c),
        forall|c: int|
            0 <= c < final(output)@.len() && !(kernel.cell(input@, start as int) <= c < kernel.cell(
                input@,
                end as int,
            )) ==> #[trigger] final(output)@[c] == old(output)@[c],
{
    proof {
        kernel.lemma_weight_split(input@, start as int, end as int);
    }
    match kernel {
        Kernel::Scan => {
            let last = scan_range(input, start, end, base, output);
            proof {
                let block = input@.subrange(start as int, end as int);
                lemma_wrap_add_int(sum(input@.take(start as int)), sum(block));
                assert forall|c: int| start <= c < end implies #[trigger] output@[c] == wrap(sum(input@.take(c + 1))) by {
                    assert(block.take(c - start + 1) =~= input@.subrange(start as int, c + 1));
                    lemma_sum_subrange(input@, start as int, c + 1);
                    lemma_wrap_add_int(sum(input@.take(start as int)), sum(block.take(c - start + 1)));
                }
            }
            last
        },
        Kernel::Compact { mask } => {
            proof {
                lemma_count_bound(mask, input@.take(start as int));
                lemma_count_bound(mask, input@.take(end as int));
                lemma_wrap_small(count(mask, input@.take(start as int)) as int);
                lemma_wrap_small(count(mask, input@.take(end as int)) as int);
            }
            let next = crate::cases::compact::compact_range(mask, input, start, end, base as usize, output);
            next as u64
        },
    }
}

/// When a worker puts the look-back of a reduced block off.
#[derive(Clone, Copy, PartialEq, Eq, Structural)]
pub enum Defer {
    /// Never: it looks back for each block before it claims the next.
    Never,
    /// Always: it keeps the block unfinished until it has reduced its next block.
    Always,
    /// Only where a first look-back meets a record that is still initialized.
    WhenPending,
}

/// What tells the variants of the chained algorithm apart.
#[derive(Clone, Copy)]
pub struct Policy {
    /// The number of elements of a block.
    pub block_size: usize,
    /// A worker starts out sequentially: while the block before its own has
    /// its prefix, it emits its block directly.
    pub adaptive: bool,
    /// A reduced block's aggregate is published.
    pub publish_aggregate: bool,
    /// A look-back steps over published aggregates; otherwise it waits for
    /// the prefix of the block just before.
    pub skip_aggregates: bool,
    pub defer: Defer,
}

/// Where a block stands. Ghost bookkeeping of the task.
pub enum Status {
    /// No worker has claimed the block.
    Unclaimed,
    /// The worker holds the block and has not begun its body.
    Reserved(int),
    /// The worker has reduced the block and owes its look-back.
    Reduced(int),
    /// The block's prefix is published and its output is emitted.
    Complete,
}

/// A reduced block whose look-back was put off.
#[derive(Clone, Copy)]
pub struct Pending {
    pub index: u32,
    pub local: u64,
}

/// A look-back in progress for block `index`.
#[derive(Clone, Copy)]
pub struct LookBack {
    pub index: u32,
    /// The reduction of the block.
    pub local: u64,
    /// The block whose record is read next.
    pub previous: u32,
    /// The reduction of the blocks after `previous` and before `index`.
    pub aggregate: u64,
    /// A first attempt, which is put off rather than repeated where it
    /// meets an initialized record.
    pub inline: bool,
}

/// The thread-local state of a worker.
#[derive(Clone, Copy)]
pub struct Worker {
    pub arguments: LoopArguments,
    /// The claimed block whose body has not begun.
    pub block: Option<u32>,
    pub resolving: Option<LookBack>,
    /// At most one reduced block is kept unfinished between two claims.
    pub unfinished: Option<Pending>,
    /// Still in sequential mode. Once false it stays false.
    pub sequential: bool,
    /// The worker has left the claim loop.
    pub exited: bool,
    pub finished: bool,
}

/// A chained task with its data and the state of its workers.
pub struct Chained<'a> {
    pub kernel: Kernel,
    pub policy: Policy,
    pub input: &'a [u64],
    pub temp: Vec<BlockInfo>,
    pub output: Vec<u64>,
    /// The number of kept words, published when a compaction finishes.
    pub output_count: usize,
    pub work_size: u32,
    /// The shared claim counter: the next unclaimed block.
    pub work_index: u32,
    pub workers: Vec<Worker>,
    /// How often the body of each block has run.
    pub executions: Vec<u32>,
    pub started: bool,
    pub done: bool,
    pub status: Ghost<Seq<Status>>,
}

/// The worker holds block `i` as reduced: it looks back for it or keeps it unfinished.
pub open spec fn keeps(k: Worker, i: int) -> bool {
    (k.resolving.is_some() && k.resolving.unwrap().index == i) || (k.unfinished.is_some()
        && k.unfinished.unwrap().index == i)
}

/// The steps that a block is away from being complete.
pub open spec fn rank(status: Status) -> nat {
    match status {
        Status::Unclaimed => 2,
        Status::Reserved(_) => 2,
        Status::Reduced(_) => 1,
        Status::Complete => 0,
    }
}

/// The look-back for a block that was put off, at its start.
pub open spec fn look_back_from(pending: Pending) -> LookBack {
    LookBack { index: pending.index, local: pending.local, previous: (pending.index - 1) as u32, aggregate: 0, inline: false }
}

/// The worker after it has left the claim loop: it looks back for its
/// unfinished block, if it has one, and is finished otherwise.
pub open spec fn leave_spec(me: Worker) -> Worker {
    match me.unfinished {
        Some(u) => Worker { exited: true, block: None, unfinished: None, resolving: Some(look_back_from(u)), ..me },
        None => Worker { exited: true, finished: true, block: None, resolving: None, ..me },
    }
}

/// The worker after a claim that found the counter at `work_index`.
pub open spec fn advance_spec(me: Worker, work_index: u32) -> Worker {
    let signalled = me.arguments.empty_signal.signalled || work_index + 1 >= me.arguments.work_size;
    let arguments = LoopArguments { empty_signal: EmptySignal { signalled }, ..me.arguments };
    if work_index < me.arguments.work_size {
        Worker { arguments, block: Some(work_index), resolving: None, ..me }
    } else {
        leave_spec(Worker { arguments, ..me })
    }
}

fn leave(me: Worker) -> (next: Worker)
    requires
        me.unfinished.is_some() ==> me.unfinished.unwrap().index >= 1,
    ensures
        next == leave_spec(me),
{
    let mut next = me;
    next.exited = true;
    next.block = None;
    match me.unfinished {
        Some(u) => {
            next.unfinished = None;
            next.resolving = Some(LookBack { index: u.index, local: u.local, previous: u.index - 1, aggregate: 0, inline: false });
        },
        None => {
            next.resolving = None;
            next.finished = true;
        },
    }
    next
}

/// The claim of a worker that has finished the body of a block.
fn advance(me: Worker, work_index: &mut u32) -> (next: Worker)
    requires
        me.unfinished.is_some() ==> me.unfinished.unwrap().index >= 1,
    ensures
        *final(work_index) == vstd::wrapping::u32_specs::wrapping_add(*old(work_index), 1),
        next == advance_spec(me, *old(work_index)),
{
    let mut next = me;
    let mut arguments = me.arguments;
    let claimed = next_block(&mut arguments, work_index);
    next.arguments = arguments;
    match claimed {
        Some(b) => {
            next.block = Some(b);
            next.resolving = None;
            next
        },
        None => leave(next),
    }
}

impl<'a> Chained<'a> {
    /// The number of elements of a block.
    pub open spec fn block_size(&self) -> int {
        self.policy.block_size as int
    }

    /// The number of elements of the input.
    pub open spec fn len(&self) -> int {
        self.input@.len() as int
    }

    /// The index of the first element of block `i`.
    pub open spec fn start_of(&self, i: int) -> int {
        block_start(i, self.block_size())
    }

    /// The index after the last element of block `i`.
    pub open spec fn end_of(&self, i: int) -> int {
        block_end(i, self.block_size(), self.len())
    }

    /// The reduction of block `i`.
    pub open spec fn block_weight(&self, i: int) -> u64 {
        wrap(self.kernel.weight(self.input@.subrange(self.start_of(i), self.end_of(i))))
    }

    /// The reduction of the input before `pos`.
    pub open spec fn prefix_weight(&self, pos: int) -> u64 {
        wrap(self.kernel.weight(self.input@.take(pos)))
    }

    /// The reduction of the blocks from `lo` up to and without `hi`.
    pub open spec fn span_weight(&self, lo: int, hi: int) -> u64 {
        wrap(self.kernel.weight(self.input@.subrange(self.start_of(lo), self.start_of(hi))))
    }

    /// Output cell `c` is one of those that block `i` emits.
    pub open spec fn owes(&self, i: int, c: int) -> bool {
        self.kernel.cell(self.input@, self.start_of(i)) <= c < self.kernel.cell(self.input@, self.end_of(i))
    }

    /// The number of workers.
    pub open spec fn workers_count(&self) -> int {
        self.workers@.len() as int
    }

    /// The sizes fit together: one record, one status and one counter per
    /// block, and an output cell per input element.
    pub open spec fn geometry(&self) -> bool {
        &&& self.policy.block_size > 0
        &&& self.work_size == block_count(self.len(), self.block_size())
        &&& self.temp@.len() >= self.work_size
        &&& self.output@.len() == self.input@.len()
        &&& self.executions@.len() == self.work_size
        &&& self.status@.len() == self.work_size
    }

    /// One for each worker that has left the claim loop, zero for the others.
    pub open spec fn exit_flags(&self) -> Seq<nat> {
        Seq::new(self.workers@.len(), |w: int| if self.workers@[w].exited { 1nat } else { 0nat })
    }

    /// The value that the claim counter has at the first claim that fails, at most.
    pub open spec fn claim_bound(&self) -> int {
        if self.work_size as int > self.workers_count() {
            self.work_size as int
        } else {
            self.workers_count()
        }
    }

    /// The claim counter is past every reservation and cannot overflow.
    pub open spec fn claims_ok(&self) -> bool {
        &&& 1 <= self.workers_count() <= crate::runtime::worker::MAX_THREADS
        &&& self.work_index >= self.workers_count()
        &&& self.work_index <= self.claim_bound() + total(self.exit_flags())
        &&& self.claim_bound() + self.workers_count() <= u32::MAX
    }

    /// What the status of block `i` says of its record, its holder and its counter.
    pub open spec fn block_ok(&self, i: int) -> bool {
        let r = self.temp@[i];
        match self.status@[i] {
            Status::Unclaimed => i >= self.work_index && r.state == STATE_INITIALIZED && self.executions@[i] == 0,
            Status::Reserved(w) => i < self.work_index && 0 <= w < self.workers_count() && self.workers@[w].block
                == Some(i as u32) && r.state == STATE_INITIALIZED && self.executions@[i] == 0,
            Status::Reduced(w) => i < self.work_index && i > 0 && 0 <= w < self.workers_count() && keeps(
                self.workers@[w],
                i,
            ) && self.executions@[i] == 1 && (if self.policy.publish_aggregate {
                r.state == STATE_AGGREGATE_AVAILABLE && r.aggregate == self.block_weight(i)
            } else {
                r.state == STATE_INITIALIZED
            }),
            Status::Complete => i < self.work_index && r.state == STATE_PREFIX_AVAILABLE && r.prefix
                == self.prefix_weight(self.end_of(i)) && self.executions@[i] == 1,
        }
    }

    /// What the thread-local state of worker `w` says of the blocks it holds.
    pub open spec fn worker_ok(&self, w: int) -> bool {
        let k = self.workers@[w];
        &&& k.arguments.work_size == self.work_size
        &&& k.finished ==> k.block.is_none() && k.resolving.is_none() && k.unfinished.is_none() && k.exited
        &&& !k.finished ==> (k.block.is_some() != k.resolving.is_some())
        &&& k.exited ==> k.block.is_none() && k.unfinished.is_none() && self.work_index >= self.work_size
            && k.arguments.empty_signal.signalled
        &&& k.block.is_some() ==> {
            let b = k.block.unwrap();
            &&& b < self.work_size
            &&& self.status@[b as int] == Status::Reserved(w)
            &&& b == 0 ==> k.sequential
            &&& k.unfinished.is_some() ==> k.unfinished.unwrap().index < b
        }
        &&& k.resolving.is_some() ==> {
            let lb = k.resolving.unwrap();
            &&& lb.index < self.work_size
            &&& self.status@[lb.index as int] == Status::Reduced(w)
            &&& lb.previous < lb.index
            &&& lb.local == self.block_weight(lb.index as int)
            &&& lb.aggregate == self.span_weight(lb.previous + 1, lb.index as int)
            &&& lb.inline ==> self.policy.defer == Defer::WhenPending && !k.exited
            &&& k.unfinished.is_some() ==> if lb.inline {
                k.unfinished.unwrap().index < lb.index
            } else {
                lb.index < k.unfinished.unwrap().index
            }
        }
        &&& k.unfinished.is_some() ==> {
            let u = k.unfinished.unwrap();
            &&& u.index < self.work_size
            &&& self.status@[u.index as int] == Status::Reduced(w)
            &&& u.local == self.block_weight(u.index as int)
            &&& self.policy.defer != Defer::Never
        }
    }

    /// The cells of every complete block hold their final values.
    pub open spec fn cells_ok(&self) -> bool {
        forall|i: int, c: int|
            0 <= i < self.work_size && self.status@[i] == Status::Complete && #[trigger] self.owes(i, c)
                ==> self.output@[c] == self.kernel.expected(self.input@, c)
    }

    /// A single adaptive worker stays in sequential mode: it never has to
    /// reduce a block.
    pub open spec fn alone_sequential(&self) -> bool {
        self.policy.adaptive && self.workers_count() == 1 ==> self.workers@[0].sequential && forall|i: int|
            0 <= i < self.work_size ==> #[trigger] self.status@[i] != Status::Reduced(0)
    }

    /// The protocol invariant of a started task.
    pub open spec fn consistent(&self) -> bool {
        &&& self.started
        &&& !self.done
        &&& self.geometry()
        &&& self.claims_ok()
        &&& forall|i: int| 0 <= i < self.work_size ==> #[trigger] self.block_ok(i)
        &&& forall|w: int| 0 <= w < self.workers_count() ==> #[trigger] self.worker_ok(w)
        &&& self.cells_ok()
        &&& self.alone_sequential()
    }

    /// The rank of every block.
    pub open spec fn ranks(&self) -> Seq<nat> {
        Seq::new(self.status@.len(), |i: int| rank(self.status@[i]))
    }

    /// What is left of a worker's look-back: the records that it may still have to read.
    pub open spec fn effort(&self, k: Worker) -> nat {
        match k.resolving {
            Some(lb) => (lb.previous + 1 + if lb.inline {
                self.work_size + 1
            } else {
                0
            }) as nat,
            None => 0,
        }
    }

    /// The effort of every worker.
    pub open spec fn efforts(&self) -> Seq<nat> {
        Seq::new(self.workers@.len(), |w: int| self.effort(self.workers@[w]))
    }

    /// The next step of worker `w` makes progress: it holds a block whose
    /// body has not begun, or the record that its look-back reads next lets it go on.
    pub open spec fn can_step(&self, w: int) -> bool {
        let k = self.workers@[w];
        !k.finished && (k.block.is_some() || (k.resolving.is_some() && {
            let lb = k.resolving.unwrap();
            let state = self.temp@[lb.previous as int].state;
            lb.inline || state == STATE_PREFIX_AVAILABLE || (state == STATE_AGGREGATE_AVAILABLE
                && self.policy.skip_aggregates)
        }))
    }

    /// The same input and parameters.
    pub open spec fn same(&self, start: &Self) -> bool {
        &&& self.kernel == start.kernel
        &&& self.policy == start.policy
        &&& self.input@ == start.input@
        &&& self.temp@.len() == start.temp@.len()
        &&& self.output@.len() == start.output@.len()
        &&& self.work_size == start.work_size
    }

    /// What a step of worker `w` can have touched: the worker itself, which
    /// does not go back to sequential mode, the claim counter by one claim,
    /// the record and the counter of a block that the worker held, and output
    /// cells, which it leaves with their final values.
    pub open spec fn stepped(&self, before: &Self, w: int) -> bool {
        &&& self.workers@.len() == before.workers@.len()
        &&& forall|v: int| 0 <= v < self.workers@.len() && v != w ==> #[trigger] self.workers@[v] == before.workers@[v]
        &&& self.workers@[w].sequential ==> before.workers@[w].sequential
        &&& before.work_index <= self.work_index <= before.work_index + 1
        &&& forall|i: int|
            0 <= i < self.temp@.len() && !(i < before.work_size && (before.status@[i] == Status::Reserved(w)
                || before.status@[i] == Status::Reduced(w))) ==> #[trigger] self.temp@[i] == before.temp@[i]
        &&& forall|i: int|
            0 <= i < self.executions@.len() && !(before.status@[i] == Status::Reserved(w)) ==> #[trigger] self.executions@[i]
                == before.executions@[i]
        &&& forall|c: int|
            0 <= c < self.output@.len() ==> #[trigger] self.output@[c] == before.output@[c] || self.output@[c]
                == self.kernel.expected(self.input@, c)
    }

    /// No record has gone back: a state is at least what it was.
    pub open spec fn no_state_went_back(&self, before: &Self) -> bool {
        forall|i: int| 0 <= i < self.temp@.len() ==> (#[trigger] self.temp@[i]).state >= before.temp@[i].state
    }
}

impl<'a> Chained<'a> {
    /// Nothing lies between a block and itself.
    proof fn lemma_empty_span(&self, i: int)
        requires
            self.geometry(),
            0 <= i < self.work_size,
        ensures
            self.span_weight(i, i) == 0,
            0 <= self.start_of(i) <= self.len(),
    {
        lemma_block_bounds(self.len(), self.block_size(), i);
        assert(self.input@.subrange(self.start_of(i), self.start_of(i)) =~= Seq::<u64>::empty());
        assert(self.kernel.weight(Seq::<u64>::empty()) == 0);
    }

    /// The claim counter stays in its bounds over a step of worker `w`, in
    /// which the worker made one claim as `me` or none.
    proof fn lemma_claims(&self, before: &Self, w: int, claimed: bool, me: Worker)
        requires
            before.claims_ok(),
            0 <= w < before.workers_count(),
            self.work_size == before.work_size,
            self.workers@ == before.workers@.update(w, self.workers@[w]),
            !claimed ==> self.work_index == before.work_index && (before.workers@[w].exited
                ==> self.workers@[w].exited),
            claimed ==> !before.workers@[w].exited && !me.exited && me.arguments.work_size == self.work_size
                && self.workers@[w] == advance_spec(me, before.work_index) && self.work_index
                == vstd::wrapping::u32_specs::wrapping_add(before.work_index, 1),
        ensures
            self.claims_ok(),
            self.work_index == before.work_index + if claimed {
                1int
            } else {
                0int
            },
    {
        let flags = before.exit_flags();
        let flag: nat = if self.workers@[w].exited {
            1
        } else {
            0
        };
        assert(self.exit_flags() =~= flags.update(w, flag));
        lemma_total_update(flags, w, flag);
        lemma_total_flags(flags);
        if claimed {
            lemma_total_update(flags, w, 1);
            lemma_total_flags(flags.update(w, 1));
        }
    }

    /// A step of worker `w` on block `t` keeps the task consistent, where it
    /// leaves block `t` and the worker consistent and touches nothing else
    /// but a block that the worker claimed.
    proof fn lemma_transition(&self, before: &Self, w: int, t: int)
        requires
            before.consistent(),
            0 <= w < before.workers_count(),
            0 <= t < before.work_size,
            before.status@[t] == Status::Reserved(w) || before.status@[t] == Status::Reduced(w),
            before.status@[t] == Status::Reduced(w) ==> before.workers@[w].block.is_none(),
            self.same(before),
            self.started,
            !self.done,
            self.executions@.len() == before.executions@.len(),
            self.status@.len() == before.status@.len(),
            self.workers@ == before.workers@.update(w, self.workers@[w]),
            self.claims_ok(),
            before.work_index <= self.work_index <= before.work_index + 1,
            forall|i: int|
                0 <= i < self.temp@.len() && i != t ==> #[trigger] self.temp@[i] == before.temp@[i],
            forall|i: int|
                0 <= i < self.work_size && i != t ==> #[trigger] self.executions@[i] == before.executions@[i],
            forall|i: int|
                0 <= i < self.work_size && i != t && i != before.work_index ==> #[trigger] self.status@[i]
                    == before.status@[i],
            before.work_index < self.work_size && before.work_index != t ==> self.status@[before.work_index as int]
                == (if self.work_index > before.work_index {
                Status::Reserved(w)
            } else {
                Status::Unclaimed
            }),
            self.work_index > before.work_index && before.work_index < self.work_size ==> self.workers@[w].block
                == Some(before.work_index),
            self.block_ok(t),
            self.worker_ok(w),
            self.status@[t] != Status::Reduced(0) || !(self.policy.adaptive && self.workers_count() == 1),
            self.workers@[w].sequential || !(self.policy.adaptive && self.workers_count() == 1),
            forall|i: int|
                0 <= i < self.work_size && i != t && before.status@[i] == Status::Reduced(w) ==> #[trigger] keeps(
                    self.workers@[w],
                    i,
                ),
            forall|c: int|
                0 <= c < self.output@.len() ==> #[trigger] self.output@[c] == before.output@[c] || self.output@[c]
                    == self.kernel.expected(self.input@, c),
            self.status@[t] == Status::Complete ==> forall|c: int| #[trigger]
                self.owes(t, c) ==> self.output@[c] == self.kernel.expected(self.input@, c),
        ensures
            self.consistent(),
    {
        assert forall|i: int| 0 <= i < self.work_size implies #[trigger] self.block_ok(i) by {
            assert(before.block_ok(i));
            assert(before.block_ok(t));
            if i != t {
                if i == before.work_index {
                } else {
                    match before.status@[i] {
                        Status::Reserved(v) => {
                            assert(before.worker_ok(v));
                        },
                        Status::Reduced(v) => {
                            assert(before.worker_ok(v));
                        },
                        _ => {},
                    }
                }
            }
        }
        assert forall|v: int| 0 <= v < self.workers_count() implies #[trigger] self.worker_ok(v) by {
            assert(before.worker_ok(v));
            if v != w {
                let k = before.workers@[v];
                if k.block.is_some() {
                    assert(before.block_ok(k.block.unwrap() as int));
                }
                if k.resolving.is_some() {
                    assert(before.block_ok(k.resolving.unwrap().index as int));
                }
                if k.unfinished.is_some() {
                    assert(before.block_ok(k.unfinished.unwrap().index as int));
                }
            }
        }
        assert forall|i: int, c: int|
            0 <= i < self.work_size && self.status@[i] == Status::Complete && #[trigger] self.owes(
                i,
                c,
            ) implies self.output@[c] == self.kernel.expected(self.input@, c) by {
            lemma_block_bounds(self.len(), self.block_size(), i);
            self.kernel.lemma_weight_split(self.input@, self.start_of(i), self.end_of(i));
            if i != t {
                assert(before.block_ok(i));
                assert(before.owes(i, c));
            }
        }
    }

    /// The step of a worker that holds block `b` and has not begun its body:
    /// it emits the block directly where it may, and reduces it otherwise.
    fn step_body(&mut self, w: usize, b: u32)
        requires
            old(self).consistent(),
            w < old(self).workers_count(),
            old(self).workers@[w as int].block == Some(b),
        ensures
            final(self).consistent(),
            final(self).workers_count() == old(self).workers_count(),
            final(self).same(old(self)),
            final(self).no_state_went_back(old(self)),
            final(self).stepped(old(self), w as int),
            total(final(self).ranks()) < total(old(self).ranks()),
    {
        let ghost before = *self;
        proof {
            assert(self.worker_ok(w as int));
            assert(self.block_ok(b as int));
            lemma_block_bounds(self.len(), self.block_size(), b as int);
            if self.policy.adaptive && self.workers_count() == 1 && b > 0 {
                assert(self.block_ok(b - 1));
                assert(self.status@[b - 1] != Status::Reduced(0));
            }
        }
        let mut me: Worker = self.workers[w];
        let ghost mut claimed = false;
        let ghost mut claimant = me;
        let index: usize = b as usize;
        let (start, end) = block_range(index, self.policy.block_size, self.input.len());
        self.executions[index] = self.executions[index] + 1;
        let direct: Option<u64> = if b == 0 {
            if self.policy.adaptive && !me.sequential {
                None
            } else {
                Some(0)
            }
        } else if self.policy.adaptive && me.sequential {
            let record: BlockInfo = self.temp[index - 1];
            if record.state == STATE_PREFIX_AVAILABLE {
                Some(record.prefix)
            } else {
                None
            }
        } else {
            None
        };
        me.block = None;
        match direct {
            Some(base) => {
                proof {
                    if b == 0 {
                        assert(start == 0) by (nonlinear_arith)
                            requires
                                start == index * self.policy.block_size,
                                index == 0,
                        ;
                        assert(self.input@.take(0) =~= Seq::<u64>::empty());
                        assert(self.kernel.weight(Seq::<u64>::empty()) == 0);
                    } else {
                        assert(before.block_ok(b - 1));
                        lemma_block_bounds(self.len(), self.block_size(), b - 1);
                    }
                }
                let prefix = emit(self.kernel, self.input, start, end, base, &mut self.output);
                self.temp[index].prefix = prefix;
                self.temp[index].state = STATE_PREFIX_AVAILABLE;
                self.status = Ghost(self.status@.update(b as int, Status::Complete));
                proof {
                    claimed = true;
                    claimant = me;
                    if me.unfinished.is_some() {
                        assert(before.block_ok(me.unfinished.unwrap().index as int));
                    }
                }
                me = advance(me, &mut self.work_index);
            },
            None => {
                me.sequential = false;
                let local = reduce(self.kernel, self.input, start, end);
                if self.policy.publish_aggregate {
                    self.temp[index].aggregate = local;
                    self.temp[index].state = STATE_AGGREGATE_AVAILABLE;
                }
                self.status = Ghost(self.status@.update(b as int, Status::Reduced(w as int)));
                proof {
                    before.lemma_empty_span(b as int);
                }
                match self.policy.defer {
                    Defer::Never => {
                        me.resolving = Some(LookBack { index: b, local, previous: b - 1, aggregate: 0, inline: false });
                    },
                    Defer::WhenPending => {
                        me.resolving = Some(LookBack { index: b, local, previous: b - 1, aggregate: 0, inline: true });
                    },
                    Defer::Always => {
                        let earlier = me.unfinished;
                        me.unfinished = Some(Pending { index: b, local });
                        match earlier {
                            Some(u) => {
                                proof {
                                    assert(before.block_ok(u.index as int));
                                }
                                me.resolving = Some(LookBack { index: u.index, local: u.local, previous: u.index - 1, aggregate: 0, inline: false });
                            },
                            None => {
                                proof {
                                    claimed = true;
                                    claimant = me;
                                }
                                me = advance(me, &mut self.work_index);
                            },
                        }
                    },
                }
            },
        }
        if let Some(next) = me.block {
            self.status = Ghost(self.status@.update(next as int, Status::Reserved(w as int)));
        }
        self.workers[w] = me;
        proof {
            self.lemma_claims(&before, w as int, claimed, claimant);
            assert(self.workers@ =~= before.workers@.update(w as int, me));
            if before.work_index < before.work_size {
                assert(before.block_ok(before.work_index as int));
            }
            let k = before.workers@[w as int];
            if k.unfinished.is_some() {
                assert(before.block_ok(k.unfinished.unwrap().index as int));
                before.lemma_empty_span(k.unfinished.unwrap().index as int);
            }
            before.lemma_empty_span(b as int);
            assert(self.block_ok(b as int));
            assert(self.worker_ok(w as int));
            assert forall|i: int|
                0 <= i < self.work_size && i != b && before.status@[i] == Status::Reduced(w as int) implies #[trigger] keeps(
                self.workers@[w as int],
                i,
            ) by {
                assert(before.block_ok(i));
            }
            self.lemma_transition(&before, w as int, b as int);
            let ranks = before.ranks();
            assert(self.ranks() =~= ranks.update(b as int, rank(self.status@[b as int])));
            lemma_total_update(ranks, b as int, rank(self.status@[b as int]));
        }
    }
}

/// Later blocks start later.
pub proof fn lemma_start_monotonic(i: int, j: int, block_size: int)
    requires
        0 <= i <= j,
        0 < block_size,
    ensures
        0 <= block_start(i, block_size) <= block_start(j, block_size),
{
    assert(0 <= i * block_size <= j * block_size) by (nonlinear_arith)
        requires
            0 <= i <= j,
            0 < block_size,
    ;
}

impl<'a> Chained<'a> {
    /// The prefix before block `t`, from the prefix of an earlier block and
    /// the reduction of the blocks between them.
    proof fn lemma_look_back_prefix(&self, previous: int, t: int)
        requires
            self.geometry(),
            0 <= previous < t < self.work_size,
        ensures
            vstd::wrapping::u64_specs::wrapping_add(
                self.prefix_weight(self.end_of(previous)),
                self.span_weight(previous + 1, t),
            ) == self.prefix_weight(self.start_of(t)),
            vstd::wrapping::u64_specs::wrapping_add(self.prefix_weight(self.start_of(t)), self.block_weight(t))
                == self.prefix_weight(self.end_of(t)),
            vstd::wrapping::u64_specs::wrapping_add(self.block_weight(previous), self.span_weight(previous + 1, t))
                == self.span_weight(previous, t),
    {
        lemma_block_bounds(self.len(), self.block_size(), previous);
        lemma_block_bounds(self.len(), self.block_size(), t);
        lemma_start_monotonic(previous + 1, t, self.block_size());
        let lo = self.start_of(previous);
        let mid = self.start_of(previous + 1);
        let hi = self.start_of(t);
        let end = self.end_of(t);
        let k = self.kernel;
        k.lemma_weight_split(self.input@, mid, hi);
        k.lemma_weight_split(self.input@, hi, end);
        k.lemma_weight_split(self.input@, lo, mid);
        k.lemma_weight_adjacent(self.input@, lo, mid, hi);
        let a = k.weight(self.input@.take(mid));
        let b = k.weight(self.input@.subrange(mid, hi));
        let c = k.weight(self.input@.subrange(hi, end));
        let d = k.weight(self.input@.subrange(lo, mid));
        lemma_wrap_add(a, wrap(b));
        lemma_wrap_add_int(a, b);
        lemma_wrap_add(a + b, wrap(c));
        lemma_wrap_add_int(a + b, c);
        lemma_wrap_add(d, wrap(b));
        lemma_wrap_add_int(d, b);
    }

    /// The step of a worker that looks back: it reads the record of one
    /// earlier block. A published prefix ends the look-back and the block is
    /// completed; a published aggregate is added where the variant steps over
    /// aggregates; otherwise a first attempt is put off, and any other
    /// look-back makes no progress.
    fn step_look_back(&mut self, w: usize, lb: LookBack) -> (progress: bool)
        requires
            old(self).consistent(),
            w < old(self).workers_count(),
            old(self).workers@[w as int].resolving == Some(lb),
        ensures
            final(self).consistent(),
            final(self).workers_count() == old(self).workers_count(),
            final(self).same(old(self)),
            final(self).no_state_went_back(old(self)),
            final(self).stepped(old(self), w as int),
            progress == old(self).can_step(w as int),
            progress ==> total(final(self).ranks()) < total(old(self).ranks()) || (total(final(self).ranks())
                == total(old(self).ranks()) && total(final(self).efforts()) < total(old(self).efforts())),
            !progress ==> *final(self) == *old(self),
    {
        let ghost before = *self;
        let t: usize = lb.index as usize;
        proof {
            assert(self.worker_ok(w as int));
            assert(self.block_ok(t as int));
            assert(self.block_ok(lb.previous as int));
            lemma_block_bounds(self.len(), self.block_size(), t as int);
            self.lemma_look_back_prefix(lb.previous as int, t as int);
            if before.work_index < before.work_size {
                assert(before.block_ok(before.work_index as int));
            }
            let k = before.workers@[w as int];
            if k.unfinished.is_some() {
                assert(before.block_ok(k.unfinished.unwrap().index as int));
                before.lemma_empty_span(k.unfinished.unwrap().index as int);
            }
            before.lemma_empty_span(t as int);
        }
        let mut me: Worker = self.workers[w];
        let ghost mut claimed = false;
        let ghost mut claimant = me;
        let record: BlockInfo = self.temp[lb.previous as usize];
        if record.state == STATE_PREFIX_AVAILABLE {
            let base: u64 = record.prefix.wrapping_add(lb.aggregate);
            let (start, end) = block_range(t, self.policy.block_size, self.input.len());
            self.temp[t].prefix = base.wrapping_add(lb.local);
            self.temp[t].state = STATE_PREFIX_AVAILABLE;
            emit(self.kernel, self.input, start, end, base, &mut self.output);
            self.status = Ghost(self.status@.update(t as int, Status::Complete));
            me.resolving = None;
            if me.exited {
                me.finished = true;
            } else {
                proof {
                    claimed = true;
                    claimant = me;
                }
                me = advance(me, &mut self.work_index);
            }
        } else if record.state == STATE_AGGREGATE_AVAILABLE && self.policy.skip_aggregates {
            me.resolving = Some(
                LookBack {
                    index: lb.index,
                    local: lb.local,
                    previous: lb.previous - 1,
                    aggregate: record.aggregate.wrapping_add(lb.aggregate),
                    inline: lb.inline,
                },
            );
        } else if lb.inline {
            let earlier = me.unfinished;
            me.unfinished = Some(Pending { index: lb.index, local: lb.local });
            match earlier {
                Some(u) => {
                    me.resolving = Some(LookBack { index: u.index, local: u.local, previous: u.index - 1, aggregate: 0, inline: false });
                },
                None => {
                    me.resolving = None;
                    proof {
                        claimed = true;
                        claimant = me;
                    }
                    me = advance(me, &mut self.work_index);
                },
            }
        } else {
            return false;
        }
        if let Some(next) = me.block {
            self.status = Ghost(self.status@.update(next as int, Status::Reserved(w as int)));
        }
        self.workers[w] = me;
        proof {
            self.lemma_claims(&before, w as int, claimed, claimant);
            assert(self.workers@ =~= before.workers@.update(w as int, me));
            assert(self.block_ok(t as int));
            assert(self.worker_ok(w as int));
            assert forall|i: int|
                0 <= i < self.work_size && i != t && before.status@[i] == Status::Reduced(w as int) implies #[trigger] keeps(
                self.workers@[w as int],
                i,
            ) by {
                assert(before.block_ok(i));
            }
            self.lemma_transition(&before, w as int, t as int);
            let ranks = before.ranks();
            assert(self.ranks() =~= ranks.update(t as int, rank(self.status@[t as int])));
            lemma_total_update(ranks, t as int, rank(self.status@[t as int]));
            let efforts = before.efforts();
            assert(self.efforts() =~= efforts.update(w as int, self.effort(me)));
            lemma_total_update(efforts, w as int, self.effort(me));
        }
        true
    }
}

/// A chained task must have no more blocks than this, so that the claim
/// counter has room for the failing claims of all workers.
pub const MAX_BLOCKS: usize = 0x8000_0000;

/// The first block from `from` on that is not complete, or the number of blocks.
pub open spec fn first_incomplete(status: Seq<Status>, from: int) -> int
    decreases status.len() - from,
{
    if from >= status.len() {
        status.len() as int
    } else if status[from] != Status::Complete {
        from
    } else {
        first_incomplete(status, from + 1)
    }
}

/// Every block before the first incomplete one is complete.
pub proof fn lemma_first_incomplete(status: Seq<Status>, from: int)
    requires
        0 <= from <= status.len(),
    ensures
        from <= first_incomplete(status, from) <= status.len(),
        forall|j: int| from <= j < first_incomplete(status, from) ==> status[j] == Status::Complete,
        first_incomplete(status, from) < status.len() ==> status[first_incomplete(status, from)]
            != Status::Complete,
    decreases status.len() - from,
{
    if from < status.len() && status[from] == Status::Complete {
        lemma_first_incomplete(status, from + 1);
    }
}

impl<'a> Chained<'a> {
    /// A task over `input` with the records `temp`, which must be in their
    /// initial state, and the output array `output`.
    pub fn new(kernel: Kernel, policy: Policy, input: &'a [u64], temp: Vec<BlockInfo>, output: Vec<u64>) -> (task: Chained<'a>)
        requires
            policy.block_size > 0,
            block_count(input@.len() as int, policy.block_size as int) <= MAX_BLOCKS,
            temp@.len() >= block_count(input@.len() as int, policy.block_size as int),
            crate::runtime::block::initialized(temp@),
            output@.len() == input@.len(),
        ensures
            task.created(),
            task.kernel == kernel,
            task.policy == policy,
            task.input@ == input@,
            task.temp@ == temp@,
            task.output@ == output@,
    {
        let blocks: usize = crate::runtime::block::blocks_for(input.len(), policy.block_size);
        Chained {
            kernel,
            policy,
            input,
            temp,
            output,
            output_count: 0,
            work_size: blocks as u32,
            work_index: 0,
            workers: Vec::new(),
            executions: Vec::new(),
            started: false,
            done: false,
            status: Ghost(Seq::empty()),
        }
    }

    /// The task was created and has not started.
    pub open spec fn created(&self) -> bool {
        &&& !self.started
        &&& !self.done
        &&& self.policy.block_size > 0
        &&& self.work_size == block_count(self.len(), self.block_size())
        &&& self.work_size <= MAX_BLOCKS
        &&& self.temp@.len() >= self.work_size
        &&& self.output@.len() == self.input@.len()
        &&& forall|i: int| 0 <= i < self.work_size ==> (#[trigger] self.temp@[i]).state == STATE_INITIALIZED
    }

    /// The task has finished: the output is the scan of the input, or holds
    /// the kept words of the input in order with their number published;
    /// every record has its prefix, every body has run once, and every worker
    /// has left and has signalled that the task is empty. A single adaptive
    /// worker has stayed in sequential mode.
    pub open spec fn completed(&self) -> bool {
        &&& self.done
        &&& self.policy.block_size > 0
        &&& self.work_size == block_count(self.len(), self.block_size())
        &&& self.temp@.len() >= self.work_size
        &&& self.executions@.len() == self.work_size
        &&& self.output@.len() == self.input@.len()
        &&& match self.kernel {
            Kernel::Scan => self.output@ == inclusive_scan(self.input@),
            Kernel::Compact { mask } => self.output_count == count(mask, self.input@) && self.output@.take(
                self.output_count as int,
            ) == kept(mask, self.input@),
        }
        &&& forall|i: int|
            0 <= i < self.work_size ==> (#[trigger] self.temp@[i]).state == STATE_PREFIX_AVAILABLE
                && self.temp@[i].prefix == self.prefix_weight(self.end_of(i))
        &&& forall|i: int| 0 <= i < self.work_size ==> #[trigger] self.executions@[i] == 1
        &&& forall|w: int|
            0 <= w < self.workers@.len() ==> (#[trigger] self.workers@[w]).finished
                && self.workers@[w].arguments.empty_signal.signalled
        &&& self.policy.adaptive && self.workers@.len() == 1 ==> self.workers@[0].sequential
    }

    /// When every worker has finished, every block is complete.
    proof fn lemma_all_complete(&self)
        requires
            self.consistent(),
            forall|w: int| 0 <= w < self.workers_count() ==> self.workers@[w].finished,
        ensures
            forall|i: int| 0 <= i < self.work_size ==> self.status@[i] == Status::Complete,
    {
        assert(self.worker_ok(0));
        assert forall|i: int| 0 <= i < self.work_size implies self.status@[i] == Status::Complete by {
            assert(self.block_ok(i));
            match self.status@[i] {
                Status::Reserved(v) => {
                    assert(self.worker_ok(v));
                },
                Status::Reduced(v) => {
                    assert(self.worker_ok(v));
                },
                _ => {},
            }
        }
    }

    /// The cells of the blocks before block `k` hold their final values, when
    /// every block is complete.
    proof fn lemma_cells_below(&self, k: int)
        requires
            self.consistent(),
            forall|i: int| 0 <= i < self.work_size ==> self.status@[i] == Status::Complete,
            0 <= k <= self.work_size,
        ensures
            forall|c: int|
                0 <= c < self.kernel.cell(
                    self.input@,
                    if k == self.work_size {
                        self.len()
                    } else {
                        self.start_of(k)
                    },
                ) ==> self.output@[c] == self.kernel.expected(self.input@, c),
        decreases k,
    {
        lemma_block_count(self.len(), self.block_size());
        if k == 0 {
            assert(self.input@.take(0) =~= Seq::<u64>::empty());
            assert(self.start_of(0) == 0) by (nonlinear_arith)
                requires
                    self.start_of(0) == 0 * self.block_size(),
            ;
        } else {
            self.lemma_cells_below(k - 1);
            lemma_block_bounds(self.len(), self.block_size(), k - 1);
            let bound = if k == self.work_size {
                self.len()
            } else {
                self.start_of(k)
            };
            assert(bound == self.end_of(k - 1));
            assert forall|c: int| 0 <= c < self.kernel.cell(self.input@, bound) implies self.output@[c]
                == self.kernel.expected(self.input@, c) by {
                if c >= self.kernel.cell(self.input@, self.start_of(k - 1)) {
                    assert(self.owes(k - 1, c));
                }
            }
        }
    }

    /// While a worker is left, the holder of the first incomplete block can
    /// make progress: every record that it may have to read has its prefix.
    proof fn lemma_some_can_step(&self, worker: int)
        requires
            self.consistent(),
            0 <= worker < self.workers_count(),
            !self.workers@[worker].finished,
        ensures
            exists|w: int| 0 <= w < self.workers_count() && !self.workers@[w].finished && #[trigger] self.can_step(w),
    {
        let k = self.workers@[worker];
        assert(self.worker_ok(worker));
        let held: int = if k.block.is_some() {
            k.block.unwrap() as int
        } else {
            k.resolving.unwrap().index as int
        };
        assert(self.block_ok(held));
        let m = first_incomplete(self.status@, 0);
        lemma_first_incomplete(self.status@, 0);
        assert(m <= held) by {
            if held < m {
                assert(self.status@[held] == Status::Complete);
            }
        }
        assert(self.block_ok(m));
        match self.status@[m] {
            Status::Reserved(v) => {
                assert(self.worker_ok(v));
                assert(self.can_step(v));
            },
            Status::Reduced(v) => {
                assert(self.worker_ok(v));
                let h = self.workers@[v];
                if h.block.is_some() {
                    assert(self.can_step(v));
                } else {
                    let lb = h.resolving.unwrap();
                    if lb.inline {
                        assert(self.can_step(v));
                    } else {
                        if lb.index != m {
                            assert(self.status@[lb.index as int] == Status::Complete);
                        }
                        assert(self.status@[lb.previous as int] == Status::Complete);
                        assert(self.block_ok(lb.previous as int));
                        assert(self.can_step(v));
                    }
                }
            },
            _ => {},
        }
    }

    /// Starts the task with `thread_count` workers: worker `k` reserves block
    /// `k`, and the claim counter starts behind the reservations.
    fn start_workers(&mut self, thread_count: usize)
        requires
            old(self).created(),
            1 <= thread_count <= MAX_THREADS,
        ensures
            final(self).consistent(),
            final(self).workers_count() == thread_count,
            final(self).same(old(self)),
    {
        let work_size: u32 = self.work_size;
        let mut workers: Vec<Worker> = Vec::new();
        let mut executions: Vec<u32> = Vec::new();
        let mut i: u32 = 0;
        while i < work_size
            invariant
                i <= work_size,
                executions@.len() == i,
                forall|j: int| 0 <= j < i ==> executions@[j] == 0,
            decreases work_size - i,
        {
            executions.push(0);
            i += 1;
        }
        let mut k: usize = 0;
        while k < thread_count
            invariant
                k <= thread_count <= MAX_THREADS,
                workers@.len() == k,
                forall|w: int|
                    0 <= w < k ==> {
                        let me = #[trigger] workers@[w];
                        &&& me.arguments.work_size == work_size
                        &&& me.unfinished.is_none()
                        &&& me.resolving.is_none()
                        &&& me.sequential
                        &&& w < work_size ==> me.block == Some(w as u32) && !me.exited && !me.finished
                        &&& w >= work_size ==> me.block.is_none() && me.exited && me.finished
                            && me.arguments.empty_signal.signalled
                    },
            decreases thread_count - k,
        {
            let mut arguments = LoopArguments { first_index: k as u32, work_size, empty_signal: EmptySignal::new() };
            let block = first_block(&mut arguments);
            let me = Worker {
                arguments,
                block,
                resolving: None,
                unfinished: None,
                sequential: true,
                exited: block.is_none(),
                finished: block.is_none(),
            };
            workers.push(me);
            k += 1;
        }
        self.workers = workers;
        self.executions = executions;
        self.work_index = thread_count as u32;
        self.started = true;
        self.status = Ghost(
            Seq::new(
                work_size as nat,
                |i: int|
                    if i < thread_count {
                        Status::Reserved(i)
                    } else {
                        Status::Unclaimed
                    },
            ),
        );
        proof {
            assert forall|w: int| 0 <= w < self.workers_count() implies #[trigger] self.worker_ok(w) by {
                let me = self.workers@[w];
                assert(me.arguments.work_size == work_size);
            }
            assert forall|i: int| 0 <= i < self.work_size implies #[trigger] self.block_ok(i) by {
                assert(self.temp@[i].state == STATE_INITIALIZED);
                if i < thread_count {
                    let me = self.workers@[i];
                    assert(me.arguments.work_size == work_size);
                }
            }
        }
    }

    /// The completion callback: a compaction publishes the last block's
    /// prefix as the number of kept words.
    fn finish_task(&mut self)
        requires
            old(self).consistent(),
            forall|w: int| 0 <= w < old(self).workers_count() ==> old(self).workers@[w].finished,
        ensures
            final(self).completed(),
            final(self).same(old(self)),
            final(self).workers@ == old(self).workers@,
            final(self).temp@ == old(self).temp@,
            final(self).output@ == old(self).output@,
    {
        let n: usize = self.input.len();
        proof {
            self.lemma_all_complete();
            self.lemma_cells_below(self.work_size as int);
            lemma_block_count(self.len(), self.block_size());
            assert(self.input@.take(self.len()) =~= self.input@);
            assert forall|i: int| 0 <= i < self.work_size implies (#[trigger] self.temp@[i]).state
                == STATE_PREFIX_AVAILABLE && self.temp@[i].prefix == self.prefix_weight(self.end_of(i))
                && self.executions@[i] == 1 by {
                assert(self.block_ok(i));
            }
        }
        match self.kernel {
            Kernel::Scan => {
                proof {
                    assert(self.output@ =~= inclusive_scan(self.input@));
                }
            },
            Kernel::Compact { mask } => {
                proof {
                    lemma_count_bound(mask, self.input@);
                    lemma_wrap_small(count(mask, self.input@) as int);
                }
                if self.work_size > 0 {
                    proof {
                        lemma_block_bounds(self.len(), self.block_size(), self.work_size - 1);
                        assert(self.block_ok(self.work_size - 1));
                    }
                    self.output_count = self.temp[(self.work_size - 1) as usize].prefix as usize;
                } else {
                    proof {
                        assert(self.len() == 0) by (nonlinear_arith)
                            requires
                                0 * self.block_size() >= self.len(),
                                self.len() >= 0,
                        ;
                        assert(self.input@ =~= Seq::<u64>::empty());
                    }
                    self.output_count = 0;
                }
                proof {
                    assert(self.output@.take(self.output_count as int) =~= kept(mask, self.input@));
                }
            },
        }
        self.done = true;
        proof {
            assert(self.executions@.len() == self.work_size);
            assert(match self.kernel {
                Kernel::Scan => self.output@ == inclusive_scan(self.input@),
                Kernel::Compact { mask } => self.output_count == count(mask, self.input@) && self.output@.take(
                    self.output_count as int,
                ) == kept(mask, self.input@),
            });
            assert forall|i: int| 0 <= i < self.work_size implies (#[trigger] self.temp@[i]).state
                == STATE_PREFIX_AVAILABLE && self.temp@[i].prefix == self.prefix_weight(self.end_of(i)) by {
                assert(old(self).temp@[i].prefix == old(self).prefix_weight(old(self).end_of(i)));
            }
            assert forall|i: int| 0 <= i < self.work_size implies #[trigger] self.executions@[i] == 1 by {
                assert(old(self).block_ok(i));
            }
            assert forall|w: int| 0 <= w < self.workers@.len() implies (#[trigger] self.workers@[w]).finished
                && self.workers@[w].arguments.empty_signal.signalled by {
                assert(old(self).worker_ok(w));
            }
        }
    }
}

impl<'a> Job for Chained<'a> {
    open spec fn ready(&self) -> bool {
        self.created()
    }

    open spec fn inv(&self) -> bool {
        self.consistent()
    }

    open spec fn thread_count(&self) -> nat {
        self.workers@.len()
    }

    open spec fn admits(&self, thread_count: nat) -> bool {
        thread_count <= MAX_THREADS
    }

    open spec fn finished(&self, worker: int) -> bool {
        self.workers@[worker].finished
    }

    open spec fn runnable(&self, worker: int) -> bool {
        self.can_step(worker)
    }

    open spec fn pending(&self) -> nat {
        total(self.ranks())
    }

    open spec fn local_work(&self) -> nat {
        total(self.efforts())
    }

    open spec fn phases_left(&self) -> nat {
        0
    }

    open spec fn complete(&self) -> bool {
        self.completed()
    }

    open spec fn same_task(&self, start: &Self) -> bool {
        self.same(start)
    }

    proof fn lemma_same_task_reflexive(&self) {
    }

    proof fn lemma_same_task_transitive(&self, middle: &Self, start: &Self) {
    }

    proof fn lemma_live(&self, worker: int) {
        self.lemma_some_can_step(worker);
        let w = choose|w: int| 0 <= w < self.workers_count() && !self.workers@[w].finished && #[trigger] self.can_step(w);
        assert(self.runnable(w));
    }

    fn start(&mut self, thread_count: usize) {
        self.start_workers(thread_count);
    }

    fn is_finished(&self, worker: usize) -> (done: bool) {
        self.workers[worker].finished
    }

    /// One step of a worker. No record goes back in a step, and the step
    /// touches nothing but what the worker holds.
    fn step(&mut self, worker: usize) -> (progress: bool)
        ensures
            final(self).no_state_went_back(old(self)),
            final(self).stepped(old(self), worker as int),
    {
        proof {
            assert(self.worker_ok(worker as int));
        }
        let me: Worker = self.workers[worker];
        match me.block {
            Some(b) => {
                self.step_body(worker, b);
                true
            },
            None => {
                match me.resolving {
                    Some(lb) => self.step_look_back(worker, lb),
                    None => false,
                }
            },
        }
    }

    fn finish(&mut self) -> (more: bool) {
        proof {
            assert forall|w: int| 0 <= w < self.workers_count() implies self.workers@[w].finished by {
                assert(self.finished(w));
            }
        }
        self.finish_task();
        false
    }
}

} // verus!
