//! Running independent jobs on the `rayon` thread pool.

use rayon::iter::IntoParallelIterator;
use rayon::iter::ParallelIterator;
use vstd::prelude::*;

verus! {

/// Calls `job` once for each index below `jobs` on rayon's thread pool and
/// collects what the calls return.
///
/// Trusted: `into_par_iter` on a range, `map` and `collect` into a `Vec` keep
/// the order of the indices, so the result has one entry per index and entry
/// `i` is what `job(i)` returned.
#[verifier::external_body]
pub(crate) fn run_indexed<T, F>(jobs: usize, job: F) -> (out: Vec<T>) where
    T: Send,
    F: Fn(usize) -> T + Sync + Send,

    requires
        forall|i: usize| i < jobs ==> call_requires(job, (i,)),
    ensures
        out@.len() == jobs,
        forall|i: int| 0 <= i < jobs ==> call_ensures(job, (i as usize,), #[trigger] out@[i]),
{
    (0..jobs).into_par_iter().map(job).collect()
}

/// Calls `rayon::current_num_threads`.
///
/// Nothing is promised of the number: it depends on the machine and on how
/// the pool was built.
#[verifier::external_body]
pub(crate) fn pool_threads() -> usize {
    rayon::current_num_threads()
}

} // verus!
