//! The workers of a phase under the one-sided claim discipline.
//!
//! Worker `k` starts with block `k` as its reservation, and the claim counter
//! starts behind the reservations. A worker executes the body of the block it
//! holds and then claims the next block from the counter, until a claim finds
//! no block left. The bodies of such a phase never wait for each other.

use vstd::prelude::*;
use crate::runtime::block::{lemma_total_flags, lemma_total_update, total};
use crate::runtime::workassisting_loop::{first_block, next_block, EmptySignal, LoopArguments};
use crate::runtime::worker::MAX_THREADS;

verus! {

/// A phase must have no more blocks than this, so that the claim counter has
/// room for the failing claims of all workers.
pub const MAX_BLOCKS: usize = 0x8000_0000;

/// Where a block stands. Ghost bookkeeping of the phase.
pub enum Progress {
    /// No worker has claimed the block.
    Unclaimed,
    /// The worker holds the block and has not run its body.
    Held(int),
    /// The body of the block has run.
    Done,
}

/// A worker of the phase.
#[derive(Clone, Copy)]
pub struct Claimant {
    pub arguments: LoopArguments,
    /// The block that the worker holds.
    pub block: Option<u32>,
}

/// The claim state of a one-sided phase.
pub struct OneSided {
    pub work_size: u32,
    /// The shared claim counter: the next unclaimed block.
    pub work_index: u32,
    pub workers: Vec<Claimant>,
    /// How often the body of each block has run.
    pub executions: Vec<u32>,
    pub progress: Ghost<Seq<Progress>>,
}

/// One for a block whose body has not run, zero for one that is done.
pub open spec fn weight_of(progress: Progress) -> nat {
    match progress {
        Progress::Done => 0,
        _ => 1,
    }
}

impl OneSided {
    /// The number of workers.
    pub open spec fn workers_count(&self) -> int {
        self.workers@.len() as int
    }

    /// The body of block `i` has run.
    pub open spec fn done(&self, i: int) -> bool {
        self.progress@[i] == Progress::Done
    }

    /// The worker has left the phase.
    pub open spec fn finished(&self, w: int) -> bool {
        self.workers@[w].block.is_none()
    }

    /// One for each worker that has left the claim loop, zero for the others.
    pub open spec fn exit_flags(&self) -> Seq<nat> {
        Seq::new(self.workers@.len(), |w: int| if self.workers@[w].block.is_none() { 1nat } else { 0nat })
    }

    /// The value that the claim counter has at the first claim that fails, at most.
    pub open spec fn claim_bound(&self) -> int {
        if self.work_size as int > self.workers_count() {
            self.work_size as int
        } else {
            self.workers_count()
        }
    }

    /// What the progress of block `i` says of its holder and its counter.
    pub open spec fn block_ok(&self, i: int) -> bool {
        match self.progress@[i] {
            Progress::Unclaimed => i >= self.work_index && self.executions@[i] == 0,
            Progress::Held(w) => i < self.work_index && 0 <= w < self.workers_count() && self.workers@[w].block
                == Some(i as u32) && self.executions@[i] == 0,
            Progress::Done => i < self.work_index && self.executions@[i] == 1,
        }
    }

    /// What the state of worker `w` says of the block that it holds.
    pub open spec fn worker_ok(&self, w: int) -> bool {
        let k = self.workers@[w];
        &&& k.arguments.work_size == self.work_size
        &&& k.block.is_none() ==> self.work_index >= self.work_size && k.arguments.empty_signal.signalled
        &&& k.block.is_some() ==> k.block.unwrap() < self.work_size && self.progress@[k.block.unwrap() as int]
            == Progress::Held(w)
    }

    /// Every claimed block is done or held by the one worker that claimed
    /// it, and the claim counter cannot overflow.
    pub open spec fn inv(&self) -> bool {
        &&& self.work_size <= MAX_BLOCKS
        &&& self.executions@.len() == self.work_size
        &&& self.progress@.len() == self.work_size
        &&& 1 <= self.workers_count() <= MAX_THREADS
        &&& self.work_index >= self.workers_count()
        &&& self.work_index <= self.claim_bound() + total(self.exit_flags())
        &&& forall|i: int| 0 <= i < self.work_size ==> #[trigger] self.block_ok(i)
        &&& forall|w: int| 0 <= w < self.workers_count() ==> #[trigger] self.worker_ok(w)
    }

    /// The weight of every block.
    pub open spec fn weights(&self) -> Seq<nat> {
        Seq::new(self.progress@.len(), |i: int| weight_of(self.progress@[i]))
    }

    /// The number of blocks whose body has not run.
    pub open spec fn pending(&self) -> nat {
        total(self.weights())
    }

    /// The claim state of a phase that has not started: no blocks, no workers, the counter at zero.
    pub fn idle() -> (claims: OneSided)
        ensures
            claims.work_size == 0,
            claims.work_index == 0,
            claims.workers@ == Seq::<Claimant>::empty(),
            claims.executions@ == Seq::<u32>::empty(),
            claims.progress@ == Seq::<Progress>::empty(),
            claims.workers_count() == 0,
            claims.pending() == 0,
    {
        OneSided { work_size: 0, work_index: 0, workers: Vec::new(), executions: Vec::new(), progress: Ghost(Seq::empty()) }
    }

    /// The claim state of a phase of `work_size` blocks at its start with
    /// `thread_count` workers.
    pub fn new(work_size: u32, thread_count: usize) -> (claims: OneSided)
        requires
            work_size <= MAX_BLOCKS,
            1 <= thread_count <= MAX_THREADS,
        ensures
            claims.inv(),
            claims.work_size == work_size,
            claims.workers_count() == thread_count,
            forall|i: int| 0 <= i < work_size ==> !claims.done(i),
    {
        let mut workers: Vec<Claimant> = Vec::new();
        let mut executions: Vec<u32> = Vec::new();
        let mut i: u32 = 0;
        while i < work_size
            invariant
                i <= work_size,
                executions@.len() == i,
                forall|j: int| 0 <= j < i ==> executions@[j] == 0,
            decreases work_size - i,
        {
            executions.push(0);
            i += 1;
        }
        let mut k: usize = 0;
        while k < thread_count
            invariant
                k <= thread_count <= MAX_THREADS,
                workers@.len() == k,
                forall|w: int|
                    0 <= w < k ==> {
                        let me = #[trigger] workers@[w];
                        &&& me.arguments.work_size == work_size
                        &&& w < work_size ==> me.block == Some(w as u32)
                        &&& w >= work_size ==> me.block.is_none() && me.arguments.empty_signal.signalled
                    },
            decreases thread_count - k,
        {
            let mut arguments = LoopArguments { first_index: k as u32, work_size, empty_signal: EmptySignal::new() };
            let block = first_block(&mut arguments);
            workers.push(Claimant { arguments, block });
            k += 1;
        }
        let claims = OneSided {
            work_size,
            work_index: thread_count as u32,
            workers,
            executions,
            progress: Ghost(
                Seq::new(
                    work_size as nat,
                    |i: int|
                        if i < thread_count {
                            Progress::Held(i)
                        } else {
                            Progress::Unclaimed
                        },
                ),
            ),
        };
        proof {
            assert forall|w: int| 0 <= w < claims.workers_count() implies #[trigger] claims.worker_ok(w) by {
                let me = claims.workers@[w];
                assert(me.arguments.work_size == work_size);
            }
            assert forall|i: int| 0 <= i < claims.work_size implies #[trigger] claims.block_ok(i) by {
                if i < thread_count {
                    let me = claims.workers@[i];
                    assert(me.arguments.work_size == work_size);
                }
            }
        }
        claims
    }

    /// The block that the worker holds, or `None` when it has left the phase.
    pub fn held(&self, w: usize) -> (block: Option<u32>)
        requires
            self.inv(),
            w < self.workers_count(),
        ensures
            block == self.workers@[w as int].block,
            block.is_none() == self.finished(w as int),
            block.is_some() ==> block.unwrap() < self.work_size && !self.done(block.unwrap() as int)
                && self.progress@[block.unwrap() as int] == Progress::Held(w as int),
    {
        proof {
            assert(self.worker_ok(w as int));
        }
        self.workers[w].block
    }

    /// Records that the body of the block that the worker holds has run, and
    /// claims the worker's next block.
    pub fn release(&mut self, w: usize)
        requires
            old(self).inv(),
            w < old(self).workers_count(),
            !old(self).finished(w as int),
        ensures
            final(self).inv(),
            final(self).work_size == old(self).work_size,
            final(self).workers_count() == old(self).workers_count(),
            forall|i: int|
                0 <= i < final(self).work_size ==> final(self).done(i) == (old(self).done(i) || i == old(self).workers@[w as int].block.unwrap()),
            final(self).pending() == old(self).pending() - 1,
            final(self).work_index == old(self).work_index + 1,
            final(self).workers@[w as int].block == if old(self).work_index < old(self).work_size {
                Some(old(self).work_index)
            } else {
                None::<u32>
            },
            forall|v: int|
                0 <= v < final(self).workers_count() && v != w ==> #[trigger] final(self).workers@[v] == old(self).workers@[v],
            final(self).executions@ == old(self).executions@.update(
                old(self).workers@[w as int].block.unwrap() as int,
                1,
            ),
    {
        let ghost before = *self;
        proof {
            assert(self.worker_ok(w as int));
        }
        let mut me: Claimant = self.workers[w];
        let b: u32 = me.block.unwrap();
        proof {
            assert(self.block_ok(b as int));
            if self.work_index < self.work_size {
                assert(self.block_ok(self.work_index as int));
            }
            let flags = self.exit_flags();
            lemma_total_flags(flags);
            lemma_total_update(flags, w as int, 1);
            lemma_total_flags(flags.update(w as int, 1));
        }
        self.executions[b as usize] = self.executions[b as usize] + 1;
        self.progress = Ghost(self.progress@.update(b as int, Progress::Done));
        let mut arguments = me.arguments;
        me.block = next_block(&mut arguments, &mut self.work_index);
        me.arguments = arguments;
        if let Some(next) = me.block {
            self.progress = Ghost(self.progress@.update(next as int, Progress::Held(w as int)));
        }
        self.workers[w] = me;
        proof {
            assert(self.workers@ =~= before.workers@.update(w as int, me));
            let flag: nat = if me.block.is_none() {
                1
            } else {
                0
            };
            assert(self.exit_flags() =~= before.exit_flags().update(w as int, flag));
            lemma_total_update(before.exit_flags(), w as int, flag);
            assert forall|i: int| 0 <= i < self.work_size implies #[trigger] self.block_ok(i) by {
                assert(before.block_ok(i));
                match before.progress@[i] {
                    Progress::Held(v) => {
                        assert(before.worker_ok(v));
                    },
                    _ => {},
                }
            }
            assert forall|v: int| 0 <= v < self.workers_count() implies #[trigger] self.worker_ok(v) by {
                assert(before.worker_ok(v));
                if v != w && before.workers@[v].block.is_some() {
                    assert(before.block_ok(before.workers@[v].block.unwrap() as int));
                }
            }
            let weights = before.weights();
            assert(self.weights() =~= weights.update(b as int, 0));
            lemma_total_update(weights, b as int, 0);
        }
    }

    /// When every worker has left the phase, the body of every block has run
    /// once, and every worker has signalled that the task is empty.
    pub proof fn lemma_finished(&self)
        requires
            self.inv(),
            forall|w: int| 0 <= w < self.workers_count() ==> self.finished(w),
        ensures
            forall|i: int| 0 <= i < self.work_size ==> self.done(i) && self.executions@[i] == 1,
            forall|w: int|
                0 <= w < self.workers_count() ==> (#[trigger] self.workers@[w]).arguments.empty_signal.signalled,
    {
        assert forall|w: int| 0 <= w < self.workers_count() implies (#[trigger] self.workers@[w]).arguments.empty_signal.signalled by {
            assert(self.worker_ok(w));
            assert(self.finished(w));
        }
        assert(self.worker_ok(0));
        assert(self.finished(0));
        assert forall|i: int| 0 <= i < self.work_size implies self.done(i) && self.executions@[i] == 1 by {
            assert(self.block_ok(i));
            match self.progress@[i] {
                Progress::Held(v) => {
                    assert(self.worker_ok(v));
                    assert(self.finished(v));
                },
                _ => {},
            }
        }
    }
}

} // verus!
