//! The worker pool, as an interleaving of the atomic steps of its workers.
//!
//! A task is a state machine that a fixed number of workers drive. Each step
//! of a worker stands for one atomic action on the shared state of the task
//! together with the thread-local work before the worker's next such action.
//! A worker that would spin on a block record makes a step without progress,
//! which leaves the task as it was.

use vstd::prelude::*;

verus! {

/// A data-parallel task that the pool can run: one or more phases, each a set
/// of blocks that the workers claim and execute.
pub trait Job: Sized {
    /// The task was created and no worker has started on it.
    spec fn ready(&self) -> bool;

    /// The protocol invariant of a started task.
    spec fn inv(&self) -> bool;

    /// The number of workers of the phase that is running.
    spec fn thread_count(&self) -> nat;

    /// Whether so many workers can run the task: the claim counter must
    /// have room for every claim that they can make.
    spec fn admits(&self, thread_count: nat) -> bool;

    /// The worker has left the phase that is running.
    spec fn finished(&self, worker: int) -> bool;

    /// The next step of the worker makes progress.
    spec fn runnable(&self, worker: int) -> bool;

    /// The work that is left in the running phase, in bodies of blocks.
    spec fn pending(&self) -> nat;

    /// The work that is left in the running phase below the level of blocks.
    spec fn local_work(&self) -> nat;

    /// The number of phases that can still follow the running one.
    spec fn phases_left(&self) -> nat;

    /// Every phase has finished and the results are in place.
    spec fn complete(&self) -> bool;

    /// `self` is a state of the task that `start` was created as: the input
    /// and the parameters are those of `start`.
    spec fn same_task(&self, start: &Self) -> bool;

    proof fn lemma_same_task_reflexive(&self)
        ensures
            self.same_task(self),
    ;

    proof fn lemma_same_task_transitive(&self, middle: &Self, start: &Self)
        requires
            self.same_task(middle),
            middle.same_task(start),
        ensures
            self.same_task(start),
    ;

    /// While a worker is left in the phase, some worker can make progress.
    proof fn lemma_live(&self, worker: int)
        requires
            self.inv(),
            0 <= worker < self.thread_count(),
            !self.finished(worker),
        ensures
            exists|w: int| 0 <= w < self.thread_count() && !self.finished(w) && #[trigger] self.runnable(w),
    ;

    /// Starts the first phase with `thread_count` workers, worker `k` with
    /// block `k` as its reservation.
    fn start(&mut self, thread_count: usize)
        requires
            old(self).ready(),
            1 <= thread_count,
            old(self).admits(thread_count as nat),
        ensures
            final(self).inv(),
            final(self).thread_count() == thread_count,
            final(self).same_task(old(self)),
    ;

    fn is_finished(&self, worker: usize) -> (done: bool)
        requires
            self.inv(),
            worker < self.thread_count(),
        ensures
            done == self.finished(worker as int),
    ;

    /// One step of a worker. Returns whether the step made progress; a step
    /// without progress changes nothing.
    fn step(&mut self, worker: usize) -> (progress: bool)
        requires
            old(self).inv(),
            worker < old(self).thread_count(),
            !old(self).finished(worker as int),
        ensures
            final(self).inv(),
            final(self).thread_count() == old(self).thread_count(),
            final(self).same_task(old(self)),
            final(self).phases_left() == old(self).phases_left(),
            progress == old(self).runnable(worker as int),
            progress ==> final(self).pending() < old(self).pending() || (final(self).pending() == old(self).pending() && final(self).local_work() < old(self).local_work()),
            !progress ==> *final(self) == *old(self),
    ;

    /// The completion callback of a phase, run once when every worker has left
    /// it. Returns whether it pushed a follow-on phase, which then runs with
    /// the same workers.
    fn finish(&mut self) -> (more: bool)
        requires
            old(self).inv(),
            forall|w: int| 0 <= w < old(self).thread_count() ==> old(self).finished(w),
        ensures
            final(self).same_task(old(self)),
            final(self).thread_count() == old(self).thread_count(),
            more ==> final(self).inv() && final(self).phases_left() < old(self).phases_left(),
            !more ==> final(self).complete(),
    ;
}

/// The pool of workers.
pub struct Workers {}

/// The largest number of workers that the pool runs.
pub const MAX_THREADS: usize = 32768;

impl Workers {
    /// Runs a task to completion with `thread_count` workers that take turns
    /// in round-robin order.
    pub fn run<T: Job>(thread_count: usize, task: &mut T)
        requires
            old(task).ready(),
            1 <= thread_count <= MAX_THREADS,
            old(task).admits(thread_count as nat),
        ensures
            final(task).complete(),
            final(task).same_task(old(task)),
            final(task).thread_count() == thread_count,
    {
        let schedule: Vec<usize> = Vec::new();
        Workers::run_scheduled(thread_count, task, schedule.as_slice())
    }

    /// Runs a task to completion with `thread_count` workers. Entry `t` of the
    /// schedule, taken cyclically and modulo the number of workers, names the
    /// worker that takes turn `t`; where that worker cannot make progress, the
    /// first worker that can takes the turn. The result does not depend on the
    /// schedule.
    pub fn run_scheduled<T: Job>(thread_count: usize, task: &mut T, schedule: &[usize])
        requires
            old(task).ready(),
            1 <= thread_count <= MAX_THREADS,
            old(task).admits(thread_count as nat),
        ensures
            final(task).complete(),
            final(task).same_task(old(task)),
            final(task).thread_count() == thread_count,
    {
        task.start(thread_count);
        let mut turn: usize = 0;
        let mut more: bool = true;
        while more
            invariant
                1 <= thread_count <= MAX_THREADS,
                task.same_task(old(task)),
                task.thread_count() == thread_count,
                more ==> task.inv(),
                !more ==> task.complete(),
            decreases if more { task.phases_left() + 1 } else { 0 },
        {
            let ghost phase_start = *task;
            while !Workers::all_finished(task, thread_count)
                invariant
                    1 <= thread_count <= MAX_THREADS,
                    task.inv(),
                    task.thread_count() == thread_count,
                    task.same_task(old(task)),
                    task.phases_left() == phase_start.phases_left(),
                decreases task.pending(), task.local_work(),
            {
                let hint: usize = if schedule.len() > 0 {
                    schedule[turn % schedule.len()] % thread_count
                } else {
                    turn % thread_count
                };
                turn = turn.wrapping_add(1);
                let ghost before = *task;
                let mut progressed: bool = false;
                if !task.is_finished(hint) {
                    progressed = task.step(hint);
                    proof {
                        task.lemma_same_task_transitive(&before, old(task));
                    }
                }
                let mut candidate: usize = 0;
                while candidate < thread_count && !progressed
                    invariant
                        1 <= thread_count <= MAX_THREADS,
                        candidate <= thread_count,
                        before.inv(),
                        before.thread_count() == thread_count,
                        task.inv(),
                        task.thread_count() == thread_count,
                        task.same_task(old(task)),
                        task.phases_left() == phase_start.phases_left(),
                        !progressed ==> *task == before,
                        !progressed ==> forall|w: int| 0 <= w < candidate ==> before.finished(w) || !before.runnable(w),
                        progressed ==> task.pending() < before.pending() || (task.pending() == before.pending()
                            && task.local_work() < before.local_work()),
                    decreases thread_count - candidate,
                {
                    if !task.is_finished(candidate) {
                        let ghost now = *task;
                        progressed = task.step(candidate);
                        proof {
                            task.lemma_same_task_transitive(&now, old(task));
                        }
                    }
                    candidate += 1;
                }
                proof {
                    if !progressed {
                        let unfinished = choose|w: int| 0 <= w < thread_count && !before.finished(w);
                        before.lemma_live(unfinished);
                        assert(false);
                    }
                }
            }
            let ghost phase_end = *task;
            more = task.finish();
            proof {
                task.lemma_same_task_transitive(&phase_end, old(task));
            }
        }
    }

    fn all_finished<T: Job>(task: &T, thread_count: usize) -> (done: bool)
        requires
            task.inv(),
            task.thread_count() == thread_count,
        ensures
            done == (forall|w: int| 0 <= w < thread_count ==> task.finished(w)),
    {
        let mut worker: usize = 0;
        while worker < thread_count
            invariant
                worker <= thread_count,
                task.inv(),
                task.thread_count() == thread_count,
                forall|w: int| 0 <= w < worker ==> task.finished(w),
            decreases thread_count - worker,
        {
            if !task.is_finished(worker) {
                return false;
            }
            worker += 1;
        }
        true
    }
}

} // verus!
