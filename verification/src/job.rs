use vstd::prelude::*;

verus! {

/// A single-invocation unit of work, named by its place in the submission
/// order: the k-th job the pool accepts carries id k.
///
/// The payload of a job is owned by whoever finally runs it; the pool's
/// bookkeeping needs nothing from a job beyond its identity, so the model
/// carries the identity alone.
#[derive(Clone, Copy, Debug, PartialEq, Eq, Structural)]
pub struct Job {
    /// Position in the submission order, assigned when the pool accepts it.
    pub id: u64,
}

impl Job {
    /// Makes the job with the given submission index.
    pub fn new(id: u64) -> (j: Job)
        ensures
            j.id == id,
    {
        Job { id }
    }
}

} // verus!
