//! The worker-pool capability: `new` and `spawn`. Scheduling is left open
//! by design; these pools run each job where it is handed in, which
//! preserves the contract (every spawned job is a complete, independent
//! unit of work) without claiming any parallelism.

use vstd::prelude::*;

use crate::err::Error;

verus! {

/// A pool that jobs can be handed to. A job must be callable
/// unconditionally: the pool decides when and where it runs.
pub trait ThreadPool: Sized {
    /// A pool sized for the given number of workers.
    fn new(threads: u32) -> (r: Result<Self, Error>);

    /// Hands a job to the pool.
    fn spawn<F: FnOnce() + Send + 'static>(&self, job: F)
        requires
            job.requires(()),
    ;
}

/// The simplest pool: runs each job at once.
pub struct NaiveThreadPool {}

impl ThreadPool for NaiveThreadPool {
    fn new(threads: u32) -> (r: Result<Self, Error>) {
        Ok(NaiveThreadPool {})
    }

    fn spawn<F: FnOnce() + Send + 'static>(&self, job: F) {
        job()
    }
}

/// A pool meant to feed a shared queue of workers; it runs jobs in order,
/// one at a time.
pub struct SharedQueueThreadPool {}

impl ThreadPool for SharedQueueThreadPool {
    fn new(threads: u32) -> (r: Result<Self, Error>) {
        Ok(SharedQueueThreadPool {})
    }

    fn spawn<F: FnOnce() + Send + 'static>(&self, job: F) {
        job()
    }
}

/// A pool meant to delegate to a work-stealing scheduler; it runs jobs in
/// order, one at a time.
pub struct RayonThreadPool {}

impl ThreadPool for RayonThreadPool {
    fn new(threads: u32) -> (r: Result<Self, Error>) {
        Ok(RayonThreadPool {})
    }

    fn spawn<F: FnOnce() + Send + 'static>(&self, job: F) {
        job()
    }
}

} // verus!
