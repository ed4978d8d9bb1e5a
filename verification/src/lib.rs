//! An incremental, resumable, in-place radix sort over `usize` keys.
//!
//! The sorter performs a bounded amount of work per `sort` call, so a
//! cooperative caller can interleave sorting with other work.  The sort
//! proceeds one bit at a time, least significant first; each bit pass
//! counts the elements whose bit is zero, assigns every element a stable
//! target position, and then applies that permutation in place by
//! cycle-following swaps.

mod digits;
mod laws;
mod perm;
mod sorter;

pub use laws::lemma_constant_sorts_to_itself;
pub use laws::lemma_singleton_sorts_to_itself;
pub use laws::lemma_sorted_same_keys_equal;

pub use sorter::IncrementalSorter;
pub use sorter::SorterState;
pub use sorter::UsageError;

pub use digits::digit_of;
pub use digits::elems_below;
pub use digits::is_sorted;
pub use digits::low_bits;
pub use digits::sorted_below;
