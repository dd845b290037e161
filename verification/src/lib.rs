//! Verified implementations of six classical sorting algorithms over
//! sequences of signed 32-bit integers: counting sort, insertion sort,
//! merge sort, quick sort, LSD radix sort (base 10) and selection sort.
//! Each sort carries a contract stating that its result is a
//! non-decreasing permutation of its input, together with the ordering
//! check and the line parser used by the benchmark drivers around it.

pub mod counting_sort;
pub mod counts;
pub mod insertion_sort;
pub mod merge_sort;
pub mod order;
pub mod parse;
pub mod quick_sort;
pub mod radix_sort;
pub mod selection_sort;

pub use order::is_sorted;
