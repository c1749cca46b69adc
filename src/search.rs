use vstd::prelude::*;
use crate::order::{is_total_order, le, lemma_le_total, sorted};

verus! {

/// Lookup of a value in a sequence of comparable elements.
pub trait SearchAlgs<T: PartialOrd>: View<V = Seq<T>> {
    /// Binary search; O(log n). The sequence must be in ascending order for
    /// a miss to mean absence: on unsorted input a present value may be
    /// missed, though any index returned still holds the target.
    fn bin_search(&self, target: T) -> (r: Option<usize>)
        requires
            is_total_order::<T>(),
        ensures
            match r {
                Some(i) => i < self@.len() && self@[i as int] == target,
                None => sorted(self@) ==> !self@.contains(target),
            },
    ;

    /// Linear search from the front; O(n). Returns the first index that
    /// holds the target.
    fn linear_search(&self, target: T) -> (r: Option<usize>)
        requires
            is_total_order::<T>(),
        ensures
            match r {
                Some(i) => {
                    &&& i < self@.len()
                    &&& self@[i as int] == target
                    &&& forall|k: int| 0 <= k < i ==> self@[k] != target
                },
                None => !self@.contains(target),
            },
    ;
}

impl<T: PartialOrd> SearchAlgs<T> for [T] {
    fn bin_search(&self, target: T) -> (r: Option<usize>) {
        if self.len() == 0 {
            return None;
        }
        // The target, if present in sorted input, lies in [left, right).
        let mut left: usize = 0;
        let mut right: usize = self.len();
        while right - left > 1
            invariant
                is_total_order::<T>(),
                left < right <= self@.len(),
                sorted(self@) ==> forall|k: int|
                    0 <= k < self@.len() && self@[k] == target ==> left <= k < right,
            decreases right - left,
        {
            let mid = left + (right - left) / 2;
            if self[mid] == target {
                return Some(mid);
            } else if self[mid] < target {
                proof {
                    assert forall|k: int| 0 <= k < self@.len() && self@[k] == target && sorted(self@)
                        implies mid < k by {
                        lemma_le_total(self@[k], self@[mid as int]);
                        if k <= mid {
                            if k < mid {
                                assert(le(self@[k], self@[mid as int]));
                            }
                        }
                    }
                }
                left = mid;
            } else {
                proof {
                    lemma_le_total(self@[mid as int], target);
                    assert forall|k: int| 0 <= k < self@.len() && self@[k] == target && sorted(self@)
                        implies k < mid by {
                        lemma_le_total(self@[k], self@[mid as int]);
                        if mid < k {
                            assert(le(self@[mid as int], self@[k]));
                        }
                    }
                }
                right = mid;
            }
        }
        // One candidate is left.
        if self[left] == target {
            Some(left)
        } else {
            None
        }
    }

    fn linear_search(&self, target: T) -> (r: Option<usize>) {
        for i in 0..self.len()
            invariant
                is_total_order::<T>(),
                forall|k: int| 0 <= k < i ==> self@[k] != target,
        {
            if self[i] == target {
                return Some(i);
            }
        }
        None
    }
}

} // verus!
