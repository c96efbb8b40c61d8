//! The workers of a phase under the two-sided claim discipline.
//!
//! The worker that submits the task arrives first, becomes the sequential
//! leader and takes the blocks from the left, in order. Every other worker
//! becomes a parallel follower when it arrives and takes blocks from the
//! right. The claim that takes the last block carries the final split of the
//! blocks between the two sides; the worker that made it runs the completion
//! hook after the body of that block.

use vstd::prelude::*;
use crate::runtime::block::{lemma_total_flags, lemma_total_positive, lemma_total_update, lemma_total_zero, total};
use crate::runtime::one_sided::Progress;
use crate::runtime::workassisting_loop::{arrive, claim_outcome, claim_parallel, claim_sequential, lemma_two_sided_decode, parallel_count, sequential_count, two_sided, Claim, EmptySignal, LoopArguments, TWO_SIDED_LIMIT};
use crate::runtime::worker::MAX_THREADS;

verus! {

/// A worker of the phase.
#[derive(Clone, Copy)]
pub struct Assistant {
    pub arguments: LoopArguments,
    pub arrived: bool,
    /// The block that the worker holds.
    pub block: Option<u32>,
    /// The split to report after the body of the held block, where the
    /// worker's claim took the last block.
    pub distribution: Option<(u32, u32)>,
    pub finished: bool,
}

/// What a worker does in its next step.
#[derive(Clone, Copy)]
pub enum Turn {
    /// It arrives as a follower and makes its first claim.
    Arrive,
    /// It runs the sequential body of the block.
    Sequential(u32),
    /// It runs the parallel body of the block.
    Parallel(u32),
}

/// The claim state of a two-sided phase.
pub struct TwoSided {
    pub work_size: u32,
    /// The shared claim counter: claims from the left in the low half,
    /// claims from the right in the high half.
    pub work_index: u32,
    pub workers: Vec<Assistant>,
    /// How often the body of each block has run.
    pub executions: Vec<u32>,
    /// How often the completion hook has run.
    pub conclusions: u32,
    /// The split that the completion hook was given.
    pub distribution: Option<(u32, u32)>,
    /// The number of blocks claimed from the left.
    pub sequential: Ghost<nat>,
    /// The number of blocks claimed from the right.
    pub parallel: Ghost<nat>,
    /// The worker whose claim took the last block.
    pub concluder: Ghost<Option<int>>,
    pub progress: Ghost<Seq<Progress>>,
}

/// One for a block whose body has not run, zero for one that is done.
pub open spec fn weight_of(progress: Progress) -> nat {
    match progress {
        Progress::Done => 0,
        _ => 1,
    }
}

impl TwoSided {
    /// The number of workers.
    pub open spec fn workers_count(&self) -> int {
        self.workers@.len() as int
    }

    /// The body of block `i` has run.
    pub open spec fn done(&self, i: int) -> bool {
        self.progress@[i] == Progress::Done
    }

    /// The worker has left the phase.
    pub open spec fn finished(&self, w: int) -> bool {
        self.workers@[w].finished
    }

    /// The number of blocks from the left whose sequential body has run.
    pub open spec fn sequential_done(&self) -> int {
        if self.workers@[0].finished {
            self.sequential@ as int
        } else {
            self.sequential@ - 1
        }
    }

    /// One for each worker that has left the claim loop, zero for the others.
    pub open spec fn exit_flags(&self) -> Seq<nat> {
        Seq::new(self.workers@.len(), |w: int| if self.workers@[w].finished { 1nat } else { 0nat })
    }

    /// One for each worker that has not arrived, zero for the others.
    pub open spec fn waiting_flags(&self) -> Seq<nat> {
        Seq::new(self.workers@.len(), |w: int| if self.workers@[w].arrived { 0nat } else { 1nat })
    }

    /// One once the leader has left the phase, zero before.
    pub open spec fn leader_exits(&self) -> int {
        if self.workers@[0].finished {
            1
        } else {
            0
        }
    }

    /// What the progress of block `i` says of its holder and its counter.
    pub open spec fn block_ok(&self, i: int) -> bool {
        match self.progress@[i] {
            Progress::Unclaimed => self.sequential@ <= i < self.work_size - self.parallel@ && self.executions@[i] == 0,
            Progress::Held(w) => 0 <= w < self.workers_count() && self.workers@[w].block == Some(i as u32)
                && self.executions@[i] == 0 && (if w == 0 {
                i == self.sequential@ - 1
            } else {
                i >= self.work_size - self.parallel@
            }),
            Progress::Done => (i < self.sequential_done() || i >= self.work_size - self.parallel@)
                && self.executions@[i] == 1,
        }
    }

    /// What the state of worker `w` says of the block that it holds.
    pub open spec fn worker_ok(&self, w: int) -> bool {
        let k = self.workers@[w];
        &&& k.arguments.work_size == self.work_size
        &&& k.arguments.first_index == w
        &&& w == 0 ==> k.arrived
        &&& k.finished ==> k.arrived && k.block.is_none() && self.sequential@ + self.parallel@ == self.work_size
            && k.arguments.empty_signal.signalled
        &&& !k.arrived ==> k.block.is_none() && !k.finished
        &&& k.arrived && !k.finished ==> k.block.is_some()
        &&& k.block.is_some() ==> k.block.unwrap() < self.work_size && self.progress@[k.block.unwrap() as int]
            == Progress::Held(w)
        &&& k.distribution.is_some() ==> k.block.is_some() && self.concluder@ == Some(w)
        &&& self.concluder@ == Some(w) ==> (k.distribution.is_some() != (self.conclusions == 1))
    }

    /// The two halves of the counter account for every claim, each claimed
    /// block is done or held by the worker that claimed it, the blocks from
    /// the left are done in order, and the hook has run if and only if the
    /// body of the last claimed block has.
    pub open spec fn inv(&self) -> bool {
        &&& 1 <= self.work_size < TWO_SIDED_LIMIT
        &&& self.executions@.len() == self.work_size
        &&& self.progress@.len() == self.work_size
        &&& 1 <= self.workers_count() <= MAX_THREADS
        &&& 1 <= self.sequential@
        &&& self.sequential@ + self.parallel@ <= self.work_size
        &&& self.workers_count() == 1 ==> self.parallel@ == 0
        &&& self.work_index == two_sided(
            self.sequential@ + self.leader_exits(),
            self.parallel@ + total(self.exit_flags()) - self.leader_exits(),
        )
        &&& self.conclusions <= 1
        &&& (self.sequential@ + self.parallel@ == self.work_size) == self.concluder@.is_some()
        &&& self.concluder@.is_some() ==> 0 <= self.concluder@.unwrap() < self.workers_count()
        &&& (self.conclusions == 1) == self.distribution.is_some()
        &&& self.conclusions == 1 ==> self.concluder@.is_some() && self.distribution == Some(
            (self.sequential@ as u32, self.parallel@ as u32),
        )
        &&& forall|i: int| 0 <= i < self.work_size ==> #[trigger] self.block_ok(i)
        &&& forall|w: int| 0 <= w < self.workers_count() ==> #[trigger] self.worker_ok(w)
        &&& forall|w: int|
            0 <= w < self.workers_count() && (#[trigger] self.workers@[w]).distribution.is_some()
                ==> self.workers@[w].distribution == Some((self.sequential@ as u32, self.parallel@ as u32))
    }

    /// The weight of every block.
    pub open spec fn weights(&self) -> Seq<nat> {
        Seq::new(self.progress@.len(), |i: int| weight_of(self.progress@[i]))
    }

    /// The number of blocks whose body has not run.
    pub open spec fn pending(&self) -> nat {
        total(self.weights())
    }

    /// The number of workers that have not arrived.
    pub open spec fn waiting(&self) -> nat {
        total(self.waiting_flags())
    }

    /// The claim state of a phase that has not started: no blocks, no workers, no claim, no hook run.
    pub fn idle() -> (claims: TwoSided)
        ensures
            claims.work_size == 0,
            claims.work_index == 0,
            claims.workers@ == Seq::<Assistant>::empty(),
            claims.executions@ == Seq::<u32>::empty(),
            claims.conclusions == 0,
            claims.distribution == None::<(u32, u32)>,
            claims.sequential@ == 0,
            claims.parallel@ == 0,
            claims.concluder@ == None::<int>,
            claims.progress@ == Seq::<Progress>::empty(),
            claims.workers_count() == 0,
            claims.pending() == 0,
    {
        TwoSided {
            work_size: 0,
            work_index: 0,
            workers: Vec::new(),
            executions: Vec::new(),
            conclusions: 0,
            distribution: None,
            sequential: Ghost(0),
            parallel: Ghost(0),
            concluder: Ghost(None),
            progress: Ghost(Seq::empty()),
        }
    }

    /// The claim state of a phase of `work_size` blocks at its start with
    /// `thread_count` workers: worker 0 has arrived and leads with block 0.
    pub fn new(work_size: u32, thread_count: usize) -> (claims: TwoSided)
        requires
            1 <= work_size < TWO_SIDED_LIMIT,
            1 <= thread_count <= MAX_THREADS,
        ensures
            claims.inv(),
            claims.work_size == work_size,
            claims.workers_count() == thread_count,
            claims.sequential@ == 1,
            claims.parallel@ == 0,
            claims.conclusions == 0,
            claims.sequential_done() == 0,
            forall|i: int| 0 <= i < work_size ==> !claims.done(i),
    {
        let mut work_index: u32 = 0;
        let mut workers: Vec<Assistant> = Vec::new();
        let mut executions: Vec<u32> = Vec::new();
        let mut i: u32 = 0;
        while i < work_size
            invariant
                i <= work_size,
                executions@.len() == i,
                forall|j: int| 0 <= j < i ==> executions@[j] == 0,
            decreases work_size - i,
        {
            executions.push(0);
            i += 1;
        }
        let mut arguments = LoopArguments { first_index: 0, work_size, empty_signal: EmptySignal::new() };
        let lead = arrive(&mut arguments, &mut work_index);
        let claim: Claim = lead.unwrap();
        workers.push(Assistant { arguments, arrived: true, block: claim.block, distribution: claim.distribution, finished: false });
        let mut k: usize = 1;
        while k < thread_count
            invariant
                1 <= k <= thread_count <= MAX_THREADS,
                workers@.len() == k,
                workers@[0].arguments.work_size == work_size,
                workers@[0].arguments.first_index == 0,
                workers@[0].arrived,
                !workers@[0].finished,
                workers@[0].block == Some(0u32),
                workers@[0].distribution == if work_size == 1 {
                    Some((1u32, 0u32))
                } else {
                    None::<(u32, u32)>
                },
                forall|w: int|
                    1 <= w < k ==> {
                        let me = #[trigger] workers@[w];
                        &&& me.arguments.work_size == work_size
                        &&& me.arguments.first_index == w
                        &&& !me.arrived
                        &&& me.block.is_none()
                        &&& me.distribution.is_none()
                        &&& !me.finished
                    },
            decreases thread_count - k,
        {
            let arguments = LoopArguments { first_index: k as u32, work_size, empty_signal: EmptySignal::new() };
            workers.push(Assistant { arguments, arrived: false, block: None, distribution: None, finished: false });
            k += 1;
        }
        let claims = TwoSided {
            work_size,
            work_index,
            workers,
            executions,
            conclusions: 0,
            distribution: None,
            sequential: Ghost(1),
            parallel: Ghost(0),
            concluder: Ghost(
                if work_size == 1 {
                    Some(0int)
                } else {
                    None
                },
            ),
            progress: Ghost(
                Seq::new(
                    work_size as nat,
                    |i: int|
                        if i == 0 {
                            Progress::Held(0)
                        } else {
                            Progress::Unclaimed
                        },
                ),
            ),
        };
        proof {
            lemma_total_zero(claims.exit_flags());
            assert forall|w: int| 0 <= w < claims.workers_count() implies #[trigger] claims.worker_ok(w) by {
                let me = claims.workers@[w];
                assert(me.arguments.work_size == work_size);
            }
            assert forall|i: int| 0 <= i < claims.work_size implies #[trigger] claims.block_ok(i) by {}
        }
        claims
    }

    /// What the worker does next.
    pub fn turn(&self, w: usize) -> (turn: Turn)
        requires
            self.inv(),
            w < self.workers_count(),
            !self.finished(w as int),
        ensures
            match turn {
                Turn::Arrive => !self.workers@[w as int].arrived && w > 0 && self.workers@[w as int].block.is_none(),
                Turn::Sequential(b) => w == 0 && self.workers@[w as int].block == Some(b) && b
                    == self.sequential_done() && b < self.work_size && !self.done(b as int),
                Turn::Parallel(b) => w > 0 && self.workers@[w as int].block == Some(b) && self.sequential@ <= b
                    < self.work_size && !self.done(b as int),
            },
    {
        proof {
            assert(self.worker_ok(w as int));
        }
        let me: Assistant = self.workers[w];
        match me.block {
            Some(b) => {
                proof {
                    assert(self.block_ok(b as int));
                }
                if w == 0 {
                    Turn::Sequential(b)
                } else {
                    Turn::Parallel(b)
                }
            },
            None => Turn::Arrive,
        }
    }

    /// Whether the worker has left the phase.
    pub fn is_finished(&self, w: usize) -> (done: bool)
        requires
            w < self.workers_count(),
        ensures
            done == self.finished(w as int),
    {
        self.workers[w].finished
    }

    /// Ends the worker's turn: records that the body of the block it holds, if
    /// any, has run, runs the completion hook where the worker's claim of that
    /// block took the last block, and makes the worker's next claim. Returns
    /// the split that the hook was given, if it ran.
    pub fn release(&mut self, w: usize) -> (concluded: Option<(u32, u32)>)
        requires
            old(self).inv(),
            w < old(self).workers_count(),
            !old(self).finished(w as int),
        ensures
            final(self).inv(),
            final(self).work_size == old(self).work_size,
            final(self).workers_count() == old(self).workers_count(),
            forall|i: int|
                0 <= i < final(self).work_size ==> final(self).done(i) == (old(self).done(i) || old(self).workers@[w as int].block
                    == Some(i as u32)),
            old(self).workers@[w as int].block.is_some() ==> final(self).pending() < old(self).pending(),
            old(self).workers@[w as int].block.is_none() ==> final(self).pending() == old(self).pending()
                && final(self).waiting() < old(self).waiting(),
            final(self).sequential_done() == old(self).sequential_done() + if w == 0 {
                1int
            } else {
                0int
            },
            final(self).sequential@ >= old(self).sequential@,
            concluded.is_some() ==> old(self).conclusions == 0 && final(self).conclusions == 1 && final(self).distribution
                == concluded && concluded.unwrap().0 + concluded.unwrap().1 == final(self).work_size
                && concluded.unwrap().0 == old(self).sequential@,
            concluded.is_none() ==> final(self).conclusions == old(self).conclusions && final(self).distribution
                == old(self).distribution,
            concluded == if old(self).workers@[w as int].block.is_some() {
                old(self).workers@[w as int].distribution
            } else {
                None::<(u32, u32)>
            },
            final(self).work_index == old(self).work_index + if w == 0 {
                1int
            } else {
                0x1_0000int
            },
            final(self).workers@[w as int].block == claim_outcome(
                old(self).work_size,
                sequential_count(old(self).work_index),
                parallel_count(old(self).work_index),
                w == 0,
            ).block,
            final(self).workers@[w as int].distribution == claim_outcome(
                old(self).work_size,
                sequential_count(old(self).work_index),
                parallel_count(old(self).work_index),
                w == 0,
            ).distribution,
            forall|v: int|
                0 <= v < final(self).workers_count() && v != w ==> #[trigger] final(self).workers@[v] == old(self).workers@[v],
            old(self).workers@[w as int].block.is_some() ==> final(self).executions@ == old(self).executions@.update(
                old(self).workers@[w as int].block.unwrap() as int,
                1,
            ),
            old(self).workers@[w as int].block.is_none() ==> final(self).executions@ == old(self).executions@,
    {
        let ghost before = *self;
        proof {
            assert(self.worker_ok(w as int));
            assert(self.worker_ok(0));
            let flags = self.exit_flags();
            lemma_total_flags(flags);
            lemma_total_update(flags, w as int, 1);
            lemma_total_flags(flags.update(w as int, 1));
            lemma_total_update(flags, 0, 0);
            lemma_total_flags(flags.update(0, 0));
            lemma_two_sided_decode(
                (self.sequential@ + self.leader_exits()) as u32,
                (self.parallel@ + total(flags) - self.leader_exits()) as u32,
                self.work_index,
            );
            if self.concluder@.is_some() {
                assert(self.worker_ok(self.concluder@.unwrap()));
            }
            if total(flags) > 0 {
                let v = lemma_total_positive(flags);
                assert(self.worker_ok(v));
            }
            if self.sequential@ + self.parallel@ < self.work_size {
                assert(self.block_ok(self.sequential@ as int));
                assert(self.block_ok(self.work_size - self.parallel@ - 1));
            }
        }
        let mut me: Assistant = self.workers[w];
        let mut concluded: Option<(u32, u32)> = None;
        let ghost mut touched: int = -1;
        match me.block {
            Some(b) => {
                proof {
                    assert(self.block_ok(b as int));
                    touched = b as int;
                }
                self.executions[b as usize] = self.executions[b as usize] + 1;
                self.progress = Ghost(self.progress@.update(b as int, Progress::Done));
                if let Some(split) = me.distribution {
                    self.conclusions = self.conclusions + 1;
                    self.distribution = Some(split);
                    concluded = Some(split);
                    me.distribution = None;
                }
            },
            None => {
                me.arrived = true;
            },
        }
        let mut arguments = me.arguments;
        let claim: Claim = if w == 0 {
            claim_sequential(&mut arguments, &mut self.work_index)
        } else {
            claim_parallel(&mut arguments, &mut self.work_index)
        };
        me.arguments = arguments;
        me.block = claim.block;
        me.distribution = claim.distribution;
        match claim.block {
            Some(next) => {
                self.progress = Ghost(self.progress@.update(next as int, Progress::Held(w as int)));
                if w == 0 {
                    self.sequential = Ghost(self.sequential@ + 1);
                } else {
                    self.parallel = Ghost(self.parallel@ + 1);
                }
                if claim.distribution.is_some() {
                    self.concluder = Ghost(Some(w as int));
                }
            },
            None => {
                me.finished = true;
            },
        }
        self.workers[w] = me;
        proof {
            assert(self.workers@ =~= before.workers@.update(w as int, me));
            let flag: nat = if me.finished {
                1
            } else {
                0
            };
            assert(self.exit_flags() =~= before.exit_flags().update(w as int, flag));
            lemma_total_update(before.exit_flags(), w as int, flag);
            let waits = before.waiting_flags();
            assert(self.waiting_flags() =~= waits.update(w as int, 0));
            lemma_total_update(waits, w as int, 0);
            assert forall|i: int| 0 <= i < self.work_size implies #[trigger] self.block_ok(i) by {
                assert(before.block_ok(i));
                match before.progress@[i] {
                    Progress::Held(v) => {
                        assert(before.worker_ok(v));
                    },
                    _ => {},
                }
            }
            assert forall|v: int| 0 <= v < self.workers_count() implies #[trigger] self.worker_ok(v) by {
                assert(before.worker_ok(v));
                if v != w && before.workers@[v].block.is_some() {
                    assert(before.block_ok(before.workers@[v].block.unwrap() as int));
                }
            }
            assert forall|v: int|
                0 <= v < self.workers_count() && (#[trigger] self.workers@[v]).distribution.is_some() implies self.workers@[v].distribution
                == Some((self.sequential@ as u32, self.parallel@ as u32)) by {
                if v != w {
                    assert(before.workers@[v].distribution.is_some());
                    assert(before.worker_ok(v));
                }
            }
            if touched >= 0 {
                let weights = before.weights();
                assert(self.weights() =~= weights.update(touched, 0));
                lemma_total_update(weights, touched, 0);
            } else {
                assert(self.weights() =~= before.weights());
            }
        }
        concluded
    }

    /// When every worker has left the phase, the body of every block has run
    /// once, and the completion hook has run once, with a split that covers
    /// all blocks.
    pub proof fn lemma_finished(&self)
        requires
            self.inv(),
            forall|w: int| 0 <= w < self.workers_count() ==> self.finished(w),
        ensures
            forall|i: int| 0 <= i < self.work_size ==> self.done(i) && self.executions@[i] == 1,
            self.conclusions == 1,
            self.distribution == Some((self.sequential@ as u32, self.parallel@ as u32)),
            self.sequential@ + self.parallel@ == self.work_size,
            self.sequential_done() == self.sequential@,
            self.workers_count() == 1 ==> self.sequential@ == self.work_size,
            forall|w: int|
                0 <= w < self.workers_count() ==> (#[trigger] self.workers@[w]).arguments.empty_signal.signalled,
    {
        assert forall|w: int| 0 <= w < self.workers_count() implies (#[trigger] self.workers@[w]).arguments.empty_signal.signalled by {
            assert(self.worker_ok(w));
            assert(self.finished(w));
        }
        assert(self.worker_ok(0));
        assert(self.finished(0));
        assert(self.worker_ok(self.concluder@.unwrap()));
        assert(self.finished(self.concluder@.unwrap()));
        assert forall|i: int| 0 <= i < self.work_size implies self.done(i) && self.executions@[i] == 1 by {
            assert(self.block_ok(i));
            match self.progress@[i] {
                Progress::Held(v) => {
                    assert(self.worker_ok(v));
                    assert(self.finished(v));
                },
                _ => {},
            }
        }
    }
}

} // verus!
