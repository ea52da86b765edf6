//! The pool: owner of the workers and of the channel's producing end.
//!
//! The pool here is the bookkeeping half of a worker pool: it decides which
//! submissions are accepted, hands each queued job to exactly one worker,
//! records completions, and says when shutdown is allowed to count as done.
//! A host that runs real threads drives one transition per event: `execute`
//! when a caller submits, `poll` when a worker asks the channel for work,
//! `finish` when a dequeued job returns, `close` when shutdown begins, and
//! `join` when a stopped worker's thread has been waited for.

use crate::channel::Channel;
use crate::channel::Recv;
use crate::job::Job;
use crate::worker::Worker;
use crate::worker::WorkerPhase;
use vstd::prelude::*;

verus! {

/// Why constructing a pool failed.
#[derive(Clone, Copy, Debug, PartialEq, Eq, Structural)]
pub enum PoolError {
    /// A pool must have at least one worker.
    ZeroWorkers,
}

/// Why a submission was refused.
#[derive(Clone, Copy, Debug, PartialEq, Eq, Structural)]
pub enum SubmitError {
    /// Shutdown has begun: the producing end of the channel is closed.
    ShutDown,
}

/// What a worker should do next, as decided by one call to
/// [`ThreadPool::poll`].
#[derive(Clone, Copy, Debug)]
pub enum WorkerStep {
    /// Run this job, then report back through [`ThreadPool::finish`].
    Run(Job),
    /// Nothing queued yet, but submissions are still open: keep waiting.
    Wait,
    /// The channel is closed and drained: leave the loop for good.
    Stop,
}

/// The abstract state of a pool.
pub struct PoolView {
    /// The workers, in construction order.
    pub workers: Seq<Worker>,
    /// Jobs accepted but not yet handed to any worker, oldest first.
    pub pending: Seq<Job>,
    /// How many jobs have been accepted; doubles as the next job id.
    pub submitted: u64,
    /// Jobs that have finished running, in completion order.
    pub executed: Seq<Job>,
    /// Whether submissions are still accepted, that is, whether the
    /// producing end of the channel is still open.
    pub accepting: bool,
}

/// A fixed-size worker pool: a set of workers fixed at construction, the
/// dispatch channel they share, and the record of what has run.
pub struct ThreadPool {
    workers: Vec<Worker>,
    chan: Channel<Job>,
    submitted: u64,
    executed: Vec<Job>,
}

impl View for ThreadPool {
    type V = PoolView;

    closed spec fn view(&self) -> PoolView {
        PoolView {
            workers: self.workers@,
            pending: self.chan@.pending,
            submitted: self.submitted,
            executed: self.executed@,
            accepting: !self.chan@.closed,
        }
    }
}

/// How many of these workers are executing a job right now.
pub open spec fn count_executing(ws: Seq<Worker>) -> nat
    decreases ws.len(),
{
    if ws.len() == 0 {
        0
    } else {
        count_executing(ws.drop_last()) + if ws.last().is_executing() {
            1nat
        } else {
            0nat
        }
    }
}

/// Workers none of which is executing contribute no running job.
proof fn lemma_count_executing_none(ws: Seq<Worker>)
    requires
        forall|w: int| 0 <= w < ws.len() ==> !(#[trigger] ws[w]).is_executing(),
    ensures
        count_executing(ws) == 0,
    decreases ws.len(),
{
    if ws.len() > 0 {
        lemma_count_executing_none(ws.drop_last());
    }
}

/// Replacing one worker changes the running count exactly by the difference
/// between the new and the old worker's contribution.
proof fn lemma_count_executing_update(ws: Seq<Worker>, i: int, w: Worker)
    requires
        0 <= i < ws.len(),
    ensures
        count_executing(ws.update(i, w)) == count_executing(ws)
            - (if ws[i].is_executing() { 1int } else { 0int })
            + (if w.is_executing() { 1int } else { 0int }),
    decreases ws.len(),
{
    let updated = ws.update(i, w);
    if i == ws.len() - 1 {
        assert(updated.drop_last() =~= ws.drop_last());
    } else {
        assert(updated.drop_last() =~= ws.drop_last().update(i, w));
        lemma_count_executing_update(ws.drop_last(), i, w);
    }
}

impl ThreadPool {
    /// How many of the accepted jobs have already left the queue, whether
    /// they are running now or have finished.
    pub open spec fn dequeued(&self) -> int {
        self@.submitted - self@.pending.len()
    }

    /// Whether some worker is running this job right now.
    pub open spec fn in_flight(&self, j: Job) -> bool {
        exists|w: int|
            0 <= w < self@.workers.len() && (#[trigger] self@.workers[w]).is_executing()
                && self@.workers[w].current_job() == j
    }

    /// Whether the job with this id is accounted for after leaving the
    /// queue: finished, or running on some worker.
    pub open spec fn accounted(&self, id: u64) -> bool {
        self@.executed.contains(Job { id }) || self.in_flight(Job { id })
    }

    /// Whether every worker has left its loop.
    pub open spec fn all_stopped(&self) -> bool {
        forall|w: int| 0 <= w < self@.workers.len() ==> (#[trigger] self@.workers[w]).phase is Stopped
    }

    /// Whether shutdown has fully completed: submissions closed, every
    /// worker out of its loop, every worker thread joined.
    pub open spec fn shutdown_done(&self) -> bool {
        &&& !self@.accepting
        &&& forall|w: int|
            0 <= w < self@.workers.len() ==> (#[trigger] self@.workers[w]).phase is Stopped
                && !self@.workers[w].handle_present
    }

    /// What every pool satisfies from construction on.
    pub closed spec fn wf(&self) -> bool {
        &&& self.chan.wf()
        // A pool is never empty.
        &&& self@.workers.len() >= 1
        // Identities are the construction order, fixed for good.
        &&& forall|w: int| 0 <= w < self@.workers.len() ==> (#[trigger] self@.workers[w]).id == w
        // No more is pending than was ever submitted.
        &&& self@.pending.len() <= self@.submitted
        // The queue holds exactly the accepted jobs not yet dequeued, in
        // submission order.
        &&& forall|i: int|
            0 <= i < self@.pending.len() ==> (#[trigger] self@.pending[i]).id == self.dequeued() + i
        // A running job has left the queue.
        &&& forall|w: int|
            0 <= w < self@.workers.len() && (#[trigger] self@.workers[w]).is_executing()
                ==> self@.workers[w].current_job().id < self.dequeued()
        // No two workers run the same job.
        &&& forall|v: int, w: int|
            #![trigger self@.workers[v], self@.workers[w]]
            0 <= v < w < self@.workers.len() && self@.workers[v].is_executing()
                && self@.workers[w].is_executing() ==> self@.workers[v].current_job()
                != self@.workers[w].current_job()
        // A finished job has left the queue.
        &&& forall|i: int|
            0 <= i < self@.executed.len() ==> (#[trigger] self@.executed[i]).id < self.dequeued()
        // Every job that left the queue is finished or running.
        &&& forall|id: u64| id < self.dequeued() ==> #[trigger] self.accounted(id)
        // No job is finished and still running.
        &&& forall|i: int|
            0 <= i < self@.executed.len() ==> !self.in_flight(#[trigger] self@.executed[i])
        // No job finishes twice.
        &&& forall|i: int, k: int|
            #![trigger self@.executed[i], self@.executed[k]]
            0 <= i < k < self@.executed.len() ==> self@.executed[i] != self@.executed[k]
        // Dequeued jobs are either finished or on exactly one worker.
        &&& self@.executed.len() + count_executing(self@.workers) == self.dequeued()
        // A worker stops only once submissions are closed and the queue has
        // been observed empty; from then on the queue stays empty.
        &&& forall|w: int|
            0 <= w < self@.workers.len() && (#[trigger] self@.workers[w]).phase is Stopped
                ==> !self@.accepting && self@.pending.len() == 0
        // A worker's thread is joined only after it has stopped.
        &&& forall|w: int|
            0 <= w < self@.workers.len() && !(#[trigger] self@.workers[w]).handle_present
                ==> self@.workers[w].phase is Stopped
        // A lone worker finishes jobs in submission order.
        &&& self@.workers.len() == 1 ==> forall|i: int|
            0 <= i < self@.executed.len() ==> (#[trigger] self@.executed[i]).id == i
    }

    /// Creates a pool of `num_threads` workers, all spawned before the call
    /// returns, each idle on the shared consuming end of a fresh channel.
    /// Asking for an empty pool is refused.
    pub fn new(num_threads: usize) -> (r: Result<ThreadPool, PoolError>)
        ensures
            r is Ok <==> num_threads >= 1,
            match r {
                Ok(p) => p.wf() && p@.workers.len() == num_threads && p@.accepting && p@.submitted
                    == 0 && p@.pending.len() == 0 && p@.executed.len() == 0 && forall|w: int|
                    0 <= w < num_threads ==> (#[trigger] p@.workers[w]).id == w
                        && p@.workers[w].handle_present && p@.workers[w].phase is Idle,
                Err(e) => e == PoolError::ZeroWorkers,
            },
    {
        if num_threads == 0 {
            return Err(PoolError::ZeroWorkers);
        }
        let mut workers: Vec<Worker> = Vec::new();
        let mut id: usize = 0;
        while id < num_threads
            invariant
                id <= num_threads,
                workers@.len() == id,
                forall|w: int|
                    0 <= w < id ==> (#[trigger] workers@[w]).id == w && workers@[w].handle_present
                        && workers@[w].phase is Idle,
            decreases num_threads - id,
        {
            workers.push(Worker::new(id));
            id += 1;
        }
        let pool = ThreadPool { workers, chan: Channel::new(), submitted: 0, executed: Vec::new() };
        proof {
            lemma_count_executing_none(pool@.workers);
        }
        Ok(pool)
    }

    /// Accepts one job and queues it behind everything already pending, or
    /// refuses it if shutdown has begun.  Returns the accepted job, whose id
    /// is its place in the submission order.  Nothing else about the pool
    /// moves: no worker is chosen here, and nothing waits on job completion.
    pub fn execute(&mut self) -> (r: Result<Job, SubmitError>)
        requires
            old(self).wf(),
            old(self)@.submitted < u64::MAX,
        ensures
            final(self).wf(),
            r is Ok <==> old(self)@.accepting,
            final(self)@.workers == old(self)@.workers,
            final(self)@.executed == old(self)@.executed,
            final(self)@.accepting == old(self)@.accepting,
            match r {
                Ok(j) => j.id == old(self)@.submitted && final(self)@.submitted == old(
                    self,
                )@.submitted + 1 && final(self)@.pending == old(self)@.pending.push(j),
                Err(e) => e == SubmitError::ShutDown && *final(self) == *old(self),
            },
    {
        let job = Job::new(self.submitted);
        match self.chan.send(job) {
            Ok(()) => {
                self.submitted = self.submitted + 1;
                proof {
                    assert forall|id: u64| id < self.dequeued() implies #[trigger] self.accounted(
                        id,
                    ) by {
                        assert(old(self).accounted(id));
                        if old(self).in_flight(Job { id }) {
                            let w = choose|w: int|
                                0 <= w < old(self)@.workers.len() && (#[trigger] old(
                                    self,
                                )@.workers[w]).is_executing() && old(self)@.workers[w].current_job()
                                    == Job { id };
                            assert(self@.workers[w].is_executing());
                        }
                    }
                }
                Ok(job)
            },
            Err(_) => Err(SubmitError::ShutDown),
        }
    }

    /// Closes the producing end of the channel, once and for all: shutdown
    /// has begun.  Jobs already queued stay queued and will still be handed
    /// out; only new submissions are refused from here on.
    pub fn close(&mut self)
        requires
            old(self).wf(),
            old(self)@.accepting,
        ensures
            final(self).wf(),
            !final(self)@.accepting,
            final(self)@.workers == old(self)@.workers,
            final(self)@.pending == old(self)@.pending,
            final(self)@.submitted == old(self)@.submitted,
            final(self)@.executed == old(self)@.executed,
    {
        self.chan.close();
        proof {
            assert forall|id: u64| id < self.dequeued() implies #[trigger] self.accounted(id) by {
                assert(old(self).accounted(id));
                if old(self).in_flight(Job { id }) {
                    let w = choose|w: int|
                        0 <= w < old(self)@.workers.len() && (#[trigger] old(
                            self,
                        )@.workers[w]).is_executing() && old(self)@.workers[w].current_job() == Job {
                            id,
                        };
                    assert(self@.workers[w].is_executing());
                }
            }
        }
    }

    /// One attempt by an idle worker to take work from the shared consuming
    /// end.  With something queued, the oldest job moves onto this worker
    /// and must be run; with the queue empty, the worker either keeps
    /// waiting (submissions still open) or stops for good (channel closed
    /// and drained).  No other worker moves.
    pub fn poll(&mut self, w: usize) -> (step: WorkerStep)
        requires
            old(self).wf(),
            w < old(self)@.workers.len(),
            old(self)@.workers[w as int].phase is Idle,
        ensures
            final(self).wf(),
            final(self)@.workers.len() == old(self)@.workers.len(),
            final(self)@.submitted == old(self)@.submitted,
            final(self)@.executed == old(self)@.executed,
            final(self)@.accepting == old(self)@.accepting,
            forall|i: int|
                0 <= i < old(self)@.workers.len() && i != w ==> final(self)@.workers[i] == old(
                    self,
                )@.workers[i],
            final(self)@.workers[w as int].id == old(self)@.workers[w as int].id,
            final(self)@.workers[w as int].handle_present == old(
                self,
            )@.workers[w as int].handle_present,
            step is Run <==> old(self)@.pending.len() > 0,
            match step {
                WorkerStep::Run(j) => j == old(self)@.pending[0] && final(self)@.pending == old(
                    self,
                )@.pending.drop_first() && final(self)@.workers[w as int].phase
                    == WorkerPhase::Executing(j),
                WorkerStep::Wait => old(self)@.accepting && *final(self) == *old(self),
                WorkerStep::Stop => !old(self)@.accepting && final(self)@.pending == old(
                    self,
                )@.pending && final(self)@.workers[w as int].phase is Stopped,
            },
    {
        let ghost prev = *old(self);
        match self.chan.try_recv() {
            Recv::Item(job) => {
                let stamped = Worker {
                    id: self.workers[w].id,
                    handle_present: self.workers[w].handle_present,
                    phase: WorkerPhase::Executing(job),
                };
                self.workers.set(w, stamped);
                proof {
                    self.lemma_poll_run_preserves_wf(prev, w as int, job);
                }
                WorkerStep::Run(job)
            },
            Recv::Closed => {
                let stamped = Worker {
                    id: self.workers[w].id,
                    handle_present: self.workers[w].handle_present,
                    phase: WorkerPhase::Stopped,
                };
                self.workers.set(w, stamped);
                proof {
                    self.lemma_poll_stop_preserves_wf(prev, w as int);
                }
                WorkerStep::Stop
            },
            Recv::Empty => WorkerStep::Wait,
        }
    }

    /// Taking the oldest queued job onto an idle worker keeps the pool
    /// well formed.  `prev` is the pool as `poll` found it; `self` differs
    /// from it in the shortened queue and in worker `w` now executing `j`.
    proof fn lemma_poll_run_preserves_wf(&self, prev: ThreadPool, w: int, j: Job)
        requires
            prev.wf(),
            0 <= w < prev@.workers.len(),
            prev@.workers[w].phase is Idle,
            prev@.pending.len() > 0,
            j == prev@.pending[0],
            self.chan.wf(),
            self@.pending == prev@.pending.drop_first(),
            self@.workers == prev@.workers.update(
                w,
                Worker {
                    id: prev@.workers[w].id,
                    handle_present: prev@.workers[w].handle_present,
                    phase: WorkerPhase::Executing(j),
                },
            ),
            self@.submitted == prev@.submitted,
            self@.executed == prev@.executed,
            self@.accepting == prev@.accepting,
        ensures
            self.wf(),
    {
        let d = prev.dequeued();
        assert(j.id == d);
        assert(self.dequeued() == d + 1);
        // The queue stays in submission order.
        assert forall|i: int| 0 <= i < self@.pending.len() implies (#[trigger] self@.pending[i]).id
            == self.dequeued() + i by {
            assert(self@.pending[i] == prev@.pending[i + 1]);
        }
        // No worker was stopped: the queue was not empty.
        assert forall|v: int|
            0 <= v < self@.workers.len() && (#[trigger] self@.workers[v]).phase is Stopped implies
            !self@.accepting && self@.pending.len() == 0 by {
            assert(prev@.workers[v].phase is Stopped);
            assert(prev@.pending.len() == 0);
        }
        // Every dequeued job is still finished or on a worker; j itself is
        // now on worker w.
        assert forall|id: u64| id < self.dequeued() implies #[trigger] self.accounted(id) by {
            if id < d {
                assert(prev.accounted(id));
                if prev.in_flight(Job { id }) {
                    let v = choose|v: int|
                        0 <= v < prev@.workers.len() && (#[trigger] prev@.workers[v]).is_executing()
                            && prev@.workers[v].current_job() == Job { id };
                    assert(self@.workers[v].is_executing());
                    assert(self.in_flight(Job { id }));
                }
            } else {
                assert(id == d);
                assert(Job { id } == j);
                assert(self@.workers[w].is_executing());
                assert(self.in_flight(Job { id }));
            }
        }
        // No finished job got back in flight: the one new running job left
        // the queue only now.
        assert forall|i: int| 0 <= i < self@.executed.len() implies !self.in_flight(
            #[trigger] self@.executed[i],
        ) by {
            assert(!prev.in_flight(prev@.executed[i]));
            assert(prev@.executed[i].id < d);
            if self.in_flight(self@.executed[i]) {
                let v = choose|v: int|
                    0 <= v < self@.workers.len() && (#[trigger] self@.workers[v]).is_executing()
                        && self@.workers[v].current_job() == self@.executed[i];
                assert(v != w);
                assert(prev@.workers[v].is_executing());
            }
        }
        lemma_count_executing_update(
            prev@.workers,
            w,
            Worker {
                id: prev@.workers[w].id,
                handle_present: prev@.workers[w].handle_present,
                phase: WorkerPhase::Executing(j),
            },
        );
    }

    /// An idle worker observing the channel closed and drained may stop;
    /// the pool stays well formed.
    proof fn lemma_poll_stop_preserves_wf(&self, prev: ThreadPool, w: int)
        requires
            prev.wf(),
            0 <= w < prev@.workers.len(),
            prev@.workers[w].phase is Idle,
            prev@.pending.len() == 0,
            !prev@.accepting,
            self.chan.wf(),
            self@.pending == prev@.pending,
            self@.workers == prev@.workers.update(
                w,
                Worker {
                    id: prev@.workers[w].id,
                    handle_present: prev@.workers[w].handle_present,
                    phase: WorkerPhase::Stopped,
                },
            ),
            self@.submitted == prev@.submitted,
            self@.executed == prev@.executed,
            self@.accepting == prev@.accepting,
        ensures
            self.wf(),
    {
        assert(self.dequeued() == prev.dequeued());
        assert forall|id: u64| id < self.dequeued() implies #[trigger] self.accounted(id) by {
            assert(prev.accounted(id));
            if prev.in_flight(Job { id }) {
                let v = choose|v: int|
                    0 <= v < prev@.workers.len() && (#[trigger] prev@.workers[v]).is_executing()
                        && prev@.workers[v].current_job() == Job { id };
                assert(self@.workers[v].is_executing());
            }
        }
        assert forall|i: int| 0 <= i < self@.executed.len() implies !self.in_flight(
            #[trigger] self@.executed[i],
        ) by {
            assert(!prev.in_flight(prev@.executed[i]));
            if self.in_flight(self@.executed[i]) {
                let v = choose|v: int|
                    0 <= v < self@.workers.len() && (#[trigger] self@.workers[v]).is_executing()
                        && self@.workers[v].current_job() == self@.executed[i];
                assert(prev@.workers[v].is_executing());
            }
        }
        lemma_count_executing_update(
            prev@.workers,
            w,
            Worker {
                id: prev@.workers[w].id,
                handle_present: prev@.workers[w].handle_present,
                phase: WorkerPhase::Stopped,
            },
        );
    }

    /// The job on worker `w` has returned: the worker goes back to waiting
    /// and the job joins the record of completed work.  Each job gets here
    /// exactly once, and never while still counted as running elsewhere.
    pub fn finish(&mut self, w: usize)
        requires
            old(self).wf(),
            w < old(self)@.workers.len(),
            old(self)@.workers[w as int].phase is Executing,
        ensures
            final(self).wf(),
            final(self)@.workers.len() == old(self)@.workers.len(),
            final(self)@.submitted == old(self)@.submitted,
            final(self)@.pending == old(self)@.pending,
            final(self)@.accepting == old(self)@.accepting,
            forall|i: int|
                0 <= i < old(self)@.workers.len() && i != w ==> final(self)@.workers[i] == old(
                    self,
                )@.workers[i],
            final(self)@.workers[w as int].id == old(self)@.workers[w as int].id,
            final(self)@.workers[w as int].handle_present == old(
                self,
            )@.workers[w as int].handle_present,
            final(self)@.workers[w as int].phase is Idle,
            final(self)@.executed == old(self)@.executed.push(
                old(self)@.workers[w as int].current_job(),
            ),
    {
        let ghost prev = *old(self);
        let job = match self.workers[w].phase {
            WorkerPhase::Executing(j) => j,
            _ => Job::new(0),
        };
        let rested = Worker {
            id: self.workers[w].id,
            handle_present: self.workers[w].handle_present,
            phase: WorkerPhase::Idle,
        };
        self.workers.set(w, rested);
        self.executed.push(job);
        proof {
            self.lemma_finish_preserves_wf(prev, w as int, job);
        }
    }

    /// Moving the job on worker `w` from running to finished keeps the pool
    /// well formed.  `prev` is the pool as `finish` found it.
    proof fn lemma_finish_preserves_wf(&self, prev: ThreadPool, w: int, j: Job)
        requires
            prev.wf(),
            0 <= w < prev@.workers.len(),
            prev@.workers[w].phase is Executing,
            j == prev@.workers[w].current_job(),
            self.chan.wf(),
            self@.pending == prev@.pending,
            self@.workers == prev@.workers.update(
                w,
                Worker {
                    id: prev@.workers[w].id,
                    handle_present: prev@.workers[w].handle_present,
                    phase: WorkerPhase::Idle,
                },
            ),
            self@.submitted == prev@.submitted,
            self@.executed == prev@.executed.push(j),
            self@.accepting == prev@.accepting,
        ensures
            self.wf(),
    {
        let d = prev.dequeued();
        let n = prev@.executed.len() as int;
        assert(self.dequeued() == d);
        assert(prev.in_flight(j));
        // j had not finished before, so the record stays free of repeats.
        assert(forall|i: int| 0 <= i < n ==> prev@.executed[i] != j);
        // Everything dequeued stays finished or running: witnesses other
        // than w survive, and w's own job is the one just recorded.
        assert forall|id: u64| id < self.dequeued() implies #[trigger] self.accounted(id) by {
            assert(prev.accounted(id));
            if (Job { id }) == j {
                assert(self@.executed[n] == j);
                assert(self@.executed.contains(Job { id }));
            } else if prev@.executed.contains(Job { id }) {
                let i = choose|i: int| 0 <= i < n && prev@.executed[i] == Job { id };
                assert(self@.executed[i] == Job { id });
                assert(self@.executed.contains(Job { id }));
            } else {
                let v = choose|v: int|
                    0 <= v < prev@.workers.len() && (#[trigger] prev@.workers[v]).is_executing()
                        && prev@.workers[v].current_job() == Job { id };
                assert(v != w);
                assert(self@.workers[v].is_executing());
                assert(self.in_flight(Job { id }));
            }
        }
        // Nothing finished is still running: worker w dropped out of the
        // witnesses, and no other worker was running j.
        assert forall|i: int| 0 <= i < self@.executed.len() implies !self.in_flight(
            #[trigger] self@.executed[i],
        ) by {
            if self.in_flight(self@.executed[i]) {
                let v = choose|v: int|
                    0 <= v < self@.workers.len() && (#[trigger] self@.workers[v]).is_executing()
                        && self@.workers[v].current_job() == self@.executed[i];
                assert(v != w);
                assert(prev@.workers[v].is_executing());
                assert(prev@.workers[v].current_job() == self@.executed[i]);
                if i < n {
                    assert(!prev.in_flight(prev@.executed[i]));
                } else {
                    // Two workers would have been running j at once.
                    assert(self@.executed[i] == j);
                    assert(prev@.workers[w].current_job() == j);
                }
            }
        }
        lemma_count_executing_update(
            prev@.workers,
            w,
            Worker {
                id: prev@.workers[w].id,
                handle_present: prev@.workers[w].handle_present,
                phase: WorkerPhase::Idle,
            },
        );
        // With a single worker the record grows in submission order: the
        // one running job must have been the next id in line.
        if self@.workers.len() == 1 {
            assert(w == 0);
            assert(count_executing(prev@.workers.drop_last()) == 0) by {
                assert(prev@.workers.drop_last().len() == 0);
            }
            assert(count_executing(prev@.workers) == 1);
            assert(n + 1 == d);
            assert(j.id < d);
            // j never finished, so its id is not among 0..n.
            assert(j.id >= n) by {
                if j.id < n {
                    assert(prev@.executed[j.id as int].id == j.id as int);
                    assert(prev@.executed[j.id as int] == j);
                    assert(prev.in_flight(prev@.executed[j.id as int]));
                }
            }
            assert(j.id == n);
            assert forall|i: int| 0 <= i < self@.executed.len() implies (
            #[trigger] self@.executed[i]).id == i by {
                if i < n {
                    assert(prev@.executed[i].id == i);
                }
            }
        }
    }

    /// Waits out worker `w`'s thread: its handle is given up, exactly once,
    /// and only after the worker has stopped.
    pub fn join(&mut self, w: usize)
        requires
            old(self).wf(),
            w < old(self)@.workers.len(),
            old(self)@.workers[w as int].phase is Stopped,
            old(self)@.workers[w as int].handle_present,
        ensures
            final(self).wf(),
            final(self)@.workers.len() == old(self)@.workers.len(),
            final(self)@.submitted == old(self)@.submitted,
            final(self)@.pending == old(self)@.pending,
            final(self)@.executed == old(self)@.executed,
            final(self)@.accepting == old(self)@.accepting,
            forall|i: int|
                0 <= i < old(self)@.workers.len() && i != w ==> final(self)@.workers[i] == old(
                    self,
                )@.workers[i],
            final(self)@.workers[w as int].id == old(self)@.workers[w as int].id,
            final(self)@.workers[w as int].phase is Stopped,
            !final(self)@.workers[w as int].handle_present,
    {
        let ghost prev = *old(self);
        let joined = Worker { id: self.workers[w].id, handle_present: false, phase: WorkerPhase::Stopped };
        self.workers.set(w, joined);
        proof {
            assert forall|id: u64| id < self.dequeued() implies #[trigger] self.accounted(id) by {
                assert(prev.accounted(id));
                if prev.in_flight(Job { id }) {
                    let v = choose|v: int|
                        0 <= v < prev@.workers.len() && (#[trigger] prev@.workers[v]).is_executing()
                            && prev@.workers[v].current_job() == Job { id };
                    assert(self@.workers[v].is_executing());
                }
            }
            assert forall|i: int| 0 <= i < self@.executed.len() implies !self.in_flight(
                #[trigger] self@.executed[i],
            ) by {
                if self.in_flight(self@.executed[i]) {
                    let v = choose|v: int|
                        0 <= v < self@.workers.len() && (#[trigger] self@.workers[v]).is_executing()
                            && self@.workers[v].current_job() == self@.executed[i];
                    assert(prev@.workers[v].is_executing());
                }
            }
            lemma_count_executing_update(
                prev@.workers,
                w as int,
                Worker {
                    id: prev@.workers[w as int].id,
                    handle_present: false,
                    phase: WorkerPhase::Stopped,
                },
            );
        }
    }

    /// How many workers the pool was built with.
    pub fn worker_count(&self) -> (n: usize)
        ensures
            n == self@.workers.len(),
    {
        self.workers.len()
    }

    /// The worker at this position, as the pool sees it.
    pub fn worker(&self, w: usize) -> (r: Worker)
        requires
            w < self@.workers.len(),
        ensures
            r == self@.workers[w as int],
    {
        self.workers[w]
    }

    /// Whether submissions are still accepted.
    pub fn is_accepting(&self) -> (r: bool)
        ensures
            r == self@.accepting,
    {
        !self.chan.is_closed()
    }

    /// How many accepted jobs wait in the queue.
    pub fn pending_count(&self) -> (n: usize)
        ensures
            n == self@.pending.len(),
    {
        self.chan.len()
    }

    /// How many jobs have been accepted so far.
    pub fn submitted_count(&self) -> (n: u64)
        ensures
            n == self@.submitted,
    {
        self.submitted
    }

    /// How many jobs have finished running.
    pub fn executed_count(&self) -> (n: usize)
        ensures
            n == self@.executed.len(),
    {
        self.executed.len()
    }

    /// The job that finished at this position of the completion order.
    pub fn executed_at(&self, i: usize) -> (j: Job)
        requires
            i < self@.executed.len(),
        ensures
            j == self@.executed[i as int],
    {
        self.executed[i]
    }

    /// Whether shutdown has fully completed: submissions closed, every
    /// worker out of its loop, every thread joined.
    pub fn is_shut_down(&self) -> (r: bool)
        ensures
            r == self.shutdown_done(),
    {
        if !self.chan.is_closed() {
            return false;
        }
        let mut w: usize = 0;
        while w < self.workers.len()
            invariant
                w <= self.workers.len(),
                forall|i: int|
                    0 <= i < w ==> (#[trigger] self@.workers[i]).phase is Stopped
                        && !self@.workers[i].handle_present,
            decreases self.workers.len() - w,
        {
            let current = self.workers[w];
            match current.phase {
                WorkerPhase::Stopped => {},
                _ => {
                    return false;
                },
            }
            if current.handle_present {
                return false;
            }
            w += 1;
        }
        true
    }
}

/// Once every worker has stopped, every job accepted before shutdown has
/// been executed, each exactly once: the completion record is as long as
/// the submission count, repeats no job, and holds every id that was ever
/// handed out.
pub proof fn lemma_stopped_pool_ran_every_job(p: &ThreadPool)
    requires
        p.wf(),
        p.all_stopped(),
    ensures
        p@.executed.len() == p@.submitted,
        forall|i: int, k: int|
            #![trigger p@.executed[i], p@.executed[k]]
            0 <= i < k < p@.executed.len() ==> p@.executed[i] != p@.executed[k],
        forall|id: u64| id < p@.submitted ==> p@.executed.contains(Job { id }),
{
    // Some worker exists and has stopped, so the queue has been drained.
    assert(p@.workers[0].phase is Stopped);
    assert(p@.pending.len() == 0);
    assert(p.dequeued() == p@.submitted);
    // Nothing is running any more.
    assert forall|w: int| 0 <= w < p@.workers.len() implies !(
    #[trigger] p@.workers[w]).is_executing() by {
        assert(p@.workers[w].phase is Stopped);
    }
    lemma_count_executing_none(p@.workers);
    assert(p@.executed.len() == p@.submitted);
    // Every id handed out is accounted for, and with no worker running, the
    // account is the completion record.
    assert forall|id: u64| id < p@.submitted implies p@.executed.contains(Job { id }) by {
        assert(p.accounted(id));
        if p.in_flight(Job { id }) {
            let v = choose|v: int|
                0 <= v < p@.workers.len() && (#[trigger] p@.workers[v]).is_executing()
                    && p@.workers[v].current_job() == Job { id };
            assert(false);
        }
    }
}

/// Shutdown blocks until the work is done: while any accepted job has not
/// finished running, the pool cannot count as shut down.
pub proof fn lemma_shutdown_waits_for_jobs(p: &ThreadPool)
    requires
        p.wf(),
        p@.executed.len() < p@.submitted,
    ensures
        !p.shutdown_done(),
{
    if p.shutdown_done() {
        assert(p.all_stopped());
        lemma_stopped_pool_ran_every_job(p);
        assert(false);
    }
}

/// A pool of one worker executes jobs in submission order: the completion
/// record reads 0, 1, 2, ... exactly as the jobs were accepted.
pub proof fn lemma_single_worker_runs_in_order(p: &ThreadPool)
    requires
        p.wf(),
        p@.workers.len() == 1,
    ensures
        forall|i: int| 0 <= i < p@.executed.len() ==> (#[trigger] p@.executed[i]).id == i,
{
}

} // verus!
