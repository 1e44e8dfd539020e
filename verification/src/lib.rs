//! Parallel merge sort for sequences of unsigned integers.
//!
//! The input is split into contiguous jobs, each job is sorted on a bounded
//! worker pool, and the sorted partial results are merged pairwise back into
//! one ordered sequence.

pub mod parallel;
pub mod partition;
pub(crate) mod pool;
pub mod reduce;
pub mod sorting;

pub use parallel::is_power_of_two;
pub use parallel::parallel_merge_sort;
pub use parallel::SortError;
pub use partition::partition;
pub use sorting::merge;
pub use sorting::merge_sort;
pub use sorting::sort_chunk;
