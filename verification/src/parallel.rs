//! The parallel sort entry point: validation, partitioning, dispatch to the
//! worker pool, and the final reduction.

use vstd::prelude::*;

verus! {

use vstd::multiset::Multiset;
use crate::partition::job_start;
use crate::partition::partition;
use crate::pool::sort_jobs_on_pool;
use crate::reduce::elems_of;
use crate::reduce::lemma_elems_of_permutation;
use crate::reduce::lemma_elems_of_pointwise;
use crate::reduce::lemma_elems_of_push;
use crate::reduce::reduce_sorted_runs;
use crate::reduce::seq_views;
use crate::sorting::copy_range;
use crate::sorting::is_sorted;
use crate::sorting::lemma_sort_seq_correct;
use crate::sorting::lemma_sorted_multiset_unique;
use crate::sorting::sort_seq;

/// Why a parallel sort was refused or failed.
#[derive(Clone, Copy, Debug, PartialEq, Eq, Structural)]
pub enum SortError {
    /// The worker count or the job count is not a power of two.
    ConfigurationError,
    /// The input is shorter than the job count.
    InsufficientInputError,
    /// A worker's result never arrived: the completion channel closed
    /// without delivering it.
    InternalChannelError,
}

/// Whether `n` is a power of two (including 2^0 == 1).
pub open spec fn spec_is_pow2(n: nat) -> bool
    decreases n,
{
    if n == 0 {
        false
    } else if n == 1 {
        true
    } else {
        n % 2 == 0 && spec_is_pow2(n / 2)
    }
}

/// Decide whether `n` is a power of two (including 2^0 == 1).
pub fn is_power_of_two(n: usize) -> (r: bool)
    ensures
        r == spec_is_pow2(n as nat),
    decreases n,
{
    if n == 0 {
        false
    } else if n == 1 {
        true
    } else if n % 2 == 1 {
        false
    } else {
        is_power_of_two(n / 2)
    }
}

/// Sort the input by splitting it into `n_jobs` contiguous jobs, sorting
/// each job concurrently on a pool of `n_workers` worker threads, and
/// merging the sorted partial results pairwise into one ordered sequence.
///
/// `n_workers` and `n_jobs` must both be powers of two (including 2^0 == 1)
/// and the input must hold at least `n_jobs` elements; both conditions are
/// checked before any work is dispatched, and a violation is reported
/// without any side effect. On success the result is the input sorted
/// non-decreasing — exactly what the sequential `merge_sort` returns on the
/// same input. `InternalChannelError` reports a worker whose result never
/// arrived, and can only come after validation has passed.
pub fn parallel_merge_sort(array: Vec<usize>, n_workers: usize, n_jobs: usize) -> (r: Result<
    Vec<usize>,
    SortError,
>)
    ensures
        match r {
            Ok(out) => spec_is_pow2(n_workers as nat) && spec_is_pow2(n_jobs as nat)
                && array@.len() >= n_jobs && out@ == sort_seq(array@),
            Err(e) => match e {
                SortError::ConfigurationError => !(spec_is_pow2(n_workers as nat) && spec_is_pow2(
                    n_jobs as nat,
                )),
                SortError::InsufficientInputError => spec_is_pow2(n_workers as nat)
                    && spec_is_pow2(n_jobs as nat) && array@.len() < n_jobs,
                SortError::InternalChannelError => spec_is_pow2(n_workers as nat) && spec_is_pow2(
                    n_jobs as nat,
                ) && array@.len() >= n_jobs,
            },
        },
{
    if !(is_power_of_two(n_jobs) && is_power_of_two(n_workers)) {
        return Err(SortError::ConfigurationError);
    }
    if array.len() < n_jobs {
        return Err(SortError::InsufficientInputError);
    }
    let n = array.len();
    proof {
        assert(n_jobs >= 1);
        assert(n_workers >= 1);
    }
    let bounds = partition(n, n_jobs);
    let mut jobs: Vec<Vec<usize>> = Vec::new();
    let mut i: usize = 0;
    proof {
        broadcast use vstd::seq_lib::group_to_multiset_ensures;
        broadcast use vstd::multiset::group_multiset_axioms;

        assert(seq_views(jobs@) =~= Seq::<Seq<usize>>::empty());
        assert(array@.take(0) =~= Seq::<usize>::empty());
        assert forall|x: usize| array@.take(0).to_multiset().count(x) == 0 by {
            assert(!array@.take(0).contains(x));
        }
        assert(array@.take(0).to_multiset() =~= Multiset::<usize>::empty());
    }
    while i < n_jobs
        invariant
            i <= n_jobs,
            1 <= n_jobs <= n,
            n == array@.len(),
            bounds@.len() == n_jobs,
            forall|t: int|
                0 <= t < n_jobs ==> (#[trigger] bounds@[t]).0 == job_start(
                    n as int,
                    n_jobs as int,
                    t,
                ) && bounds@[t].1 == job_start(n as int, n_jobs as int, t + 1),
            forall|t: int| 0 <= t < n_jobs ==> (#[trigger] bounds@[t]).0 <= bounds@[t].1 <= n,
            jobs@.len() == i,
            elems_of(seq_views(jobs@)) == array@.take(
                job_start(n as int, n_jobs as int, i as int),
            ).to_multiset(),
        decreases n_jobs - i,
    {
        let b = bounds[i];
        let chunk = copy_range(&array, b.0, b.1);
        let ghost prev = seq_views(jobs@);
        jobs.push(chunk);
        proof {
            let lo = job_start(n as int, n_jobs as int, i as int);
            let hi = job_start(n as int, n_jobs as int, i + 1);
            assert(seq_views(jobs@) =~= prev.push(chunk@));
            lemma_elems_of_push(prev, chunk@);
            assert(array@.take(hi) =~= array@.take(lo) + array@.subrange(lo, hi));
            vstd::seq_lib::lemma_multiset_commutative(array@.take(lo), array@.subrange(lo, hi));
        }
        i = i + 1;
    }
    proof {
        assert(bounds@[n_jobs - 1].1 == job_start(n as int, n_jobs as int, n_jobs as int));
        assert(job_start(n as int, n_jobs as int, n_jobs as int) == n);
        assert(array@.take(n as int) =~= array@);
        assert(elems_of(seq_views(jobs@)) == array@.to_multiset());
    }
    let ghost gjobs: Seq<Vec<usize>> = jobs@;
    let ghost jviews: Seq<Seq<usize>> = seq_views(gjobs);
    let ghost jsorted: Seq<Seq<usize>> = gjobs.map_values(|v: Vec<usize>| sort_seq(v@));
    match sort_jobs_on_pool(jobs, n_workers) {
        None => Err(SortError::InternalChannelError),
        Some(runs) => {
            proof {
                broadcast use vstd::seq_lib::group_to_multiset_ensures;

                let rv = seq_views(runs@);
                assert(rv.to_multiset() == jsorted.to_multiset());
                assert(rv.len() == rv.to_multiset().len());
                assert(jsorted.len() == jsorted.to_multiset().len());
                assert(rv.len() == n_jobs);
                assert(runs@.len() == n_jobs);
                assert forall|t: int| 0 <= t < runs@.len() implies is_sorted(
                    (#[trigger] runs@[t])@,
                ) by {
                    assert(rv[t] == runs@[t]@);
                    assert(rv.contains(rv[t]));
                    assert(rv.to_multiset().count(rv[t]) > 0);
                    assert(jsorted.to_multiset().count(rv[t]) > 0);
                    assert(jsorted.contains(rv[t]));
                    let k = choose|k: int| 0 <= k < jsorted.len() && jsorted[k] == rv[t];
                    assert(jsorted[k] == sort_seq(gjobs[k]@));
                    lemma_sort_seq_correct(gjobs[k]@);
                }
                lemma_elems_of_permutation(rv, jsorted);
                assert forall|t: int| 0 <= t < jsorted.len() implies (#[trigger] jsorted[t]).to_multiset()
                    == jviews[t].to_multiset() by {
                    assert(jsorted[t] == sort_seq(gjobs[t]@));
                    assert(jviews[t] == gjobs[t]@);
                    lemma_sort_seq_correct(gjobs[t]@);
                }
                lemma_elems_of_pointwise(jsorted, jviews);
                assert(elems_of(rv) == array@.to_multiset());
            }
            let out = reduce_sorted_runs(runs);
            proof {
                lemma_sort_seq_correct(array@);
                lemma_sorted_multiset_unique(out@, sort_seq(array@));
            }
            Ok(out)
        },
    }
}

} // verus!
