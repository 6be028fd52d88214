//! What a worker pool offers.

use vstd::prelude::*;
use crate::error::KvsError;

verus! {

/// A pool of workers that run jobs.
pub trait ThreadPool {
    /// A pool with `threads` workers.
    fn new(threads: usize) -> Result<Self, KvsError> where Self: Sized
        requires
            threads > 0,
    ;

    /// Hands `job` to some worker. A job that was handed over cannot be
    /// taken back.
    fn spawn<F>(&self, job: F) where F: FnOnce() + Send + 'static;
}

} // verus!
