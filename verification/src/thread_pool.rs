//! Worker pools: something that runs jobs, each once, on threads of its own.

use vstd::prelude::*;
use rayon::ThreadPool as WorkStealingPool;
use crate::error::KvsError;

verus! {

/// A pool of worker threads.
///
/// A pool promises to run each job it is given once; it promises no order
/// among the jobs.
pub trait ThreadPool {
    /// A pool of `threads` workers.
    fn new(threads: u32) -> Result<Self, KvsError> where Self: Sized;

    /// Hands `job` to the pool.
    fn spawn<F>(&self, job: F) where F: FnOnce() + Send + 'static;
}

/// `rayon::ThreadPoolBuildError`, carried through as it is.
#[verifier::external_type_specification]
#[verifier::external_body]
pub struct ExRayonBuildError(rayon::ThreadPoolBuildError);

/// The thread pool of `rayon`, carried through as it is.
#[verifier::external_type_specification]
#[verifier::external_body]
pub struct ExWorkStealingPool(WorkStealingPool);

/// A pool whose workers steal work from one another: the thread pool of
/// `rayon`.
pub struct RayonThreadPool(WorkStealingPool);

/// Builds a pool of `threads` workers with `rayon::ThreadPoolBuilder` (`new`,
/// `num_threads`, `build`). Nothing is claimed of the outcome.
#[verifier::external_body]
fn build_pool(threads: usize) -> Result<WorkStealingPool, rayon::ThreadPoolBuildError> {
    rayon::ThreadPoolBuilder::new().num_threads(threads).build()
}

/// Calls `rayon::ThreadPool::spawn`. Nothing is claimed of when the job runs.
#[verifier::external_body]
fn spawn_in<F>(pool: &WorkStealingPool, job: F) where F: FnOnce() + Send + 'static {
    pool.spawn(job)
}

impl RayonThreadPool {
    /// The pool of `rayon` that this pool hands its jobs to.
    pub closed spec fn pool(&self) -> WorkStealingPool {
        self.0
    }

    /// What `new` returns for the outcome of building the pool: the pool that
    /// was built, or `StringError` with the message that `rayon` prints for
    /// its failure.
    pub fn from_built(built: Result<WorkStealingPool, rayon::ThreadPoolBuildError>) -> (r: Result<
        Self,
        KvsError,
    >)
        ensures
            match built {
                Ok(pool) => r is Ok && r->Ok_0.pool() == pool,
                Err(e) => r matches Err(KvsError::StringError(m))
                    && vstd::string::to_string_from_display_ensures::<rayon::ThreadPoolBuildError>(
                    &e,
                    m,
                ),
            },
    {
        match built {
            Ok(pool) => Ok(RayonThreadPool(pool)),
            Err(e) => Err(KvsError::StringError(e.to_string())),
        }
    }
}

impl ThreadPool for RayonThreadPool {
    /// Asks `rayon` for a pool of `threads` workers. Whether the pool can be
    /// built is up to `rayon` and the machine; a failure to build it comes
    /// back as `StringError` with `rayon`'s message.
    fn new(threads: u32) -> (r: Result<Self, KvsError>)
        ensures
            r matches Err(e) ==> e is StringError,
    {
        RayonThreadPool::from_built(build_pool(threads as usize))
    }

    fn spawn<F>(&self, job: F) where F: FnOnce() + Send + 'static {
        spawn_in(&self.0, job)
    }
}

} // verus!
