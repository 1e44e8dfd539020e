//! The job partitioner: splitting an input of length `n` into a fixed number
//! of contiguous index ranges.

use vstd::prelude::*;

verus! {

use vstd::arithmetic::div_mod::lemma_fundamental_div_mod;
use vstd::arithmetic::mul::lemma_mul_inequality;
use vstd::arithmetic::mul::lemma_mul_is_distributive_add_other_way;
use vstd::arithmetic::mul::lemma_mul_nonnegative;

/// The number of elements per job: `ceil(n / j)`.
pub open spec fn job_step(n: int, j: int) -> int
    recommends
        j >= 1,
{
    if n % j == 0 {
        n / j
    } else {
        n / j + 1
    }
}

/// Where job `i` begins: `i * step`, clamped to the input length.
pub open spec fn job_start(n: int, j: int, i: int) -> int
    recommends
        j >= 1,
{
    if i * job_step(n, j) > n {
        n
    } else {
        i * job_step(n, j)
    }
}

/// The job size is at least one element when there are no more jobs than
/// elements, and `j` jobs of that size reach the end of the input.
proof fn lemma_job_step_bounds(n: int, j: int)
    requires
        1 <= j <= n,
    ensures
        1 <= job_step(n, j),
        j * job_step(n, j) >= n,
{
    lemma_fundamental_div_mod(n, j);
    let q = n / j;
    assert(q >= 1) by (nonlinear_arith)
        requires
            n == j * q + n % j,
            0 <= n % j < j,
            1 <= j <= n,
    ;
    if n % j == 0 {
        assert(j * q >= n) by (nonlinear_arith)
            requires
                n == j * q + n % j,
                n % j == 0,
        ;
    } else {
        assert(j * (q + 1) >= n) by (nonlinear_arith)
            requires
                n == j * q + n % j,
                n % j < j,
        ;
    }
}

/// How one job's start leads to the next: stepping from `job_start(n, j, i)`
/// by `job_step(n, j)` and clamping to `n` reaches `job_start(n, j, i + 1)`.
proof fn lemma_job_start_next(n: int, j: int, i: int)
    requires
        1 <= j <= n,
        0 <= i,
    ensures
        0 <= job_start(n, j, i) <= n,
        job_start(n, j, i + 1) == if n - job_start(n, j, i) < job_step(n, j) {
            n
        } else {
            job_start(n, j, i) + job_step(n, j)
        },
{
    let s = job_step(n, j);
    lemma_job_step_bounds(n, j);
    lemma_mul_nonnegative(i, s);
    lemma_mul_inequality(i, i + 1, s);
    lemma_mul_is_distributive_add_other_way(s, i, 1);
    assert((i + 1) * s == i * s + s);
}

/// The `j`-th start, one past the last job, is the input length itself.
proof fn lemma_job_start_full(n: int, j: int)
    requires
        1 <= j <= n,
    ensures
        job_start(n, j, j) == n,
{
    lemma_job_step_bounds(n, j);
}

/// Split the index range `[0, n)` into `n_jobs` contiguous ranges of
/// `ceil(n / n_jobs)` indices each, the last ones clamped to the end of the
/// input. The ranges are contiguous, non-overlapping, and cover `[0, n)`
/// exactly; every range is non-empty whenever even the last job's start
/// falls inside the input.
pub fn partition(n: usize, n_jobs: usize) -> (r: Vec<(usize, usize)>)
    requires
        1 <= n_jobs <= n,
    ensures
        r@.len() == n_jobs,
        forall|i: int|
            0 <= i < n_jobs ==> (#[trigger] r@[i]).0 == job_start(n as int, n_jobs as int, i)
                && r@[i].1 == job_start(n as int, n_jobs as int, i + 1),
        r@[0].0 == 0,
        r@[n_jobs - 1].1 == n,
        forall|i: int| 0 <= i < n_jobs ==> (#[trigger] r@[i]).0 <= r@[i].1 <= n,
        forall|i: int| 0 <= i < n_jobs - 1 ==> (#[trigger] r@[i]).1 == r@[i + 1].0,
        (n_jobs - 1) * job_step(n as int, n_jobs as int) < n ==> forall|i: int|
            0 <= i < n_jobs ==> (#[trigger] r@[i]).0 < r@[i].1,
{
    let step = if n % n_jobs == 0 {
        n / n_jobs
    } else {
        proof {
            vstd::arithmetic::div_mod::lemma_div_decreases(n as int, n_jobs as int);
        }
        n / n_jobs + 1
    };
    let mut r: Vec<(usize, usize)> = Vec::new();
    let mut start: usize = 0;
    let mut i: usize = 0;
    while i < n_jobs
        invariant
            i <= n_jobs,
            1 <= n_jobs <= n,
            r@.len() == i,
            step == job_step(n as int, n_jobs as int),
            start == job_start(n as int, n_jobs as int, i as int),
            start <= n,
            forall|t: int|
                0 <= t < i ==> (#[trigger] r@[t]).0 == job_start(n as int, n_jobs as int, t)
                    && r@[t].1 == job_start(n as int, n_jobs as int, t + 1),
        decreases n_jobs - i,
    {
        proof {
            lemma_job_start_next(n as int, n_jobs as int, i as int);
        }
        let end = if n - start < step {
            n
        } else {
            start + step
        };
        r.push((start, end));
        start = end;
        i = i + 1;
    }
    proof {
        lemma_job_start_full(n as int, n_jobs as int);
        assert forall|i: int| 0 <= i < n_jobs implies (#[trigger] r@[i]).0 <= r@[i].1 <= n by {
            lemma_job_start_next(n as int, n_jobs as int, i);
            lemma_job_step_bounds(n as int, n_jobs as int);
        }
        if (n_jobs - 1) * job_step(n as int, n_jobs as int) < n {
            assert forall|i: int| 0 <= i < n_jobs implies (#[trigger] r@[i]).0 < r@[i].1 by {
                let s = job_step(n as int, n_jobs as int);
                lemma_job_step_bounds(n as int, n_jobs as int);
                lemma_mul_inequality(i, n_jobs - 1, s);
                lemma_job_start_next(n as int, n_jobs as int, i);
            }
        }
    }
    r
}

} // verus!
