//! Workers: the persistent consumers of the dispatch channel.
//!
//! A worker is known to the pool by its identity, by whether its thread
//! handle is still held (present until joined exactly once during shutdown),
//! and by where it stands in its little life: waiting for work, running one
//! job, or stopped for good after observing the channel closed and drained.

use crate::job::Job;
use vstd::prelude::*;

verus! {

/// Where a worker stands in its execution loop.
#[derive(Clone, Copy, Debug)]
pub enum WorkerPhase {
    /// Blocked on the shared consuming end, waiting for the next job.
    Idle,
    /// Running the job it just dequeued, outside the channel lock.
    Executing(Job),
    /// Out of the loop for good: the channel was closed and drained.
    Stopped,
}

/// One worker of a pool: an identity fixed at construction, a flag for the
/// thread handle it stands for, and its current phase.
#[derive(Clone, Copy, Debug)]
pub struct Worker {
    /// Identity, unique within its pool and immutable thereafter.
    pub id: usize,
    /// Whether the worker's thread handle is still held.  It is given up by
    /// a single join during shutdown, and only once the worker has stopped.
    pub handle_present: bool,
    /// Where the worker stands in its execution loop.
    pub phase: WorkerPhase,
}

impl Worker {
    /// Whether this worker is currently running a job.
    pub open spec fn is_executing(&self) -> bool {
        self.phase is Executing
    }

    /// The job this worker is running; meaningful only while it is executing.
    pub open spec fn current_job(&self) -> Job
        recommends
            self.is_executing(),
    {
        match self.phase {
            WorkerPhase::Executing(j) => j,
            _ => arbitrary(),
        }
    }

    /// Makes a fresh worker: alive, idle, with the given identity.
    pub fn new(id: usize) -> (w: Worker)
        ensures
            w.id == id,
            w.handle_present,
            w.phase is Idle,
    {
        Worker { id, handle_present: true, phase: WorkerPhase::Idle }
    }
}

} // verus!
