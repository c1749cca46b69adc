use vstd::prelude::*;

pub mod order;
pub mod search;
pub mod sort;

pub use search::SearchAlgs;
pub use sort::{is_sorted, SortingAlgs};

verus! {

/// Sum of two indices; the caller keeps it within `usize`.
pub fn add(left: usize, right: usize) -> (r: usize)
    requires
        left + right <= usize::MAX,
    ensures
        r == left + right,
{
    left + right
}

} // verus!
