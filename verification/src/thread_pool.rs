//! Pools of threads that run jobs.

use crate::error::Result;
use vstd::prelude::*;

verus! {

/// A pool of threads.
///
/// `spawn` only hands the job over: when and on which thread it runs is
/// the pool's affair, and nothing is known of it when `spawn` returns.
pub trait ThreadPool {
    /// A pool that aims at `num` threads.
    fn new(num: u8) -> Result<Self> where Self: Sized;

    /// Hands `job` to the pool, which runs it on one of its threads.
    fn spawn<F>(&self, job: F) where F: FnOnce() + Send + 'static;
}

} // verus!
