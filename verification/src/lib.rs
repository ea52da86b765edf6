//! A fixed-size worker pool, modelled as a verified state machine.
//!
//! The pool decouples submission of single-invocation jobs from their
//! execution by a bounded set of persistent workers.  Jobs travel through an
//! ordered dispatch channel whose consuming end the workers share; shutdown
//! closes the producing end first and then waits for every worker, so that no
//! accepted job is ever dropped unexecuted.
//!
//! This crate verifies the lifecycle and bookkeeping of the pool: which
//! submissions are accepted, how jobs move from the queue into a worker and
//! into the record of completed work, and what must already hold whenever the
//! pool counts as fully shut down.  Running jobs on OS threads is the caller's
//! side of the bargain: a host drives one `poll`/`finish` pair per dequeued
//! job from each worker thread and mirrors the pool's decisions onto its own
//! threads and channels.

pub mod channel;
pub mod job;
pub mod pool;
pub mod worker;
