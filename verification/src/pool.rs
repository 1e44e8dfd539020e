//! The worker-pool dispatcher: bounded parallel fan-out of the sort jobs,
//! fan-in of their results over a completion channel.

use vstd::prelude::*;

verus! {

use crate::reduce::seq_views;
use crate::sorting::sort_chunk;
use crate::sorting::sort_seq;

/// Dispatch the jobs to a pool of `n_workers` worker threads; each worker
/// sorts its job and sends the result back over a completion channel, in the
/// order the workers finish. Returns `None` when the channel closes before
/// every result has arrived.
///
/// Relies on `threadpool::ThreadPool`: `new` builds a pool of `n_workers`
/// threads and panics on zero, and `execute` runs each submitted closure
/// exactly once on a pool thread. Relies on `std::sync::mpsc::channel`: each
/// sent value is received exactly once, and `recv` blocks until a value
/// arrives and fails only once every sender is gone. Each closure sorts one
/// job with the verified `sort_chunk`, so whatever order the workers finish
/// in, the results received are the sorted jobs, each exactly once.
#[verifier::external_body]
pub(crate) fn sort_jobs_on_pool(jobs: Vec<Vec<usize>>, n_workers: usize) -> (r: Option<
    Vec<Vec<usize>>,
>)
    requires
        n_workers >= 1,
    ensures
        match r {
            Some(sorted) => seq_views(sorted@).to_multiset() == jobs@.map_values(
                |v: Vec<usize>| sort_seq(v@),
            ).to_multiset(),
            None => true,
        },
{
    let pool = threadpool::ThreadPool::new(n_workers);
    let (tx, rx) = std::sync::mpsc::channel();
    let n = jobs.len();
    for job in jobs {
        let tx = tx.clone();
        pool.execute(move || {
            let _ = tx.send(sort_chunk(job));
        });
    }
    drop(tx);
    (0..n).map(|_| rx.recv()).collect::<Result<Vec<Vec<usize>>, _>>().ok()
}

} // verus!
