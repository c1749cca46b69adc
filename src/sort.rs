use vstd::prelude::*;
use crate::order::{
    is_sorting_of, is_total_order, le, lemma_le_total, lemma_multiset_contains,
    lemma_sorted_unique, lemma_swap_multiset, lt, sorted,
};

verus! {

/// Relies on `<[T]>::swap`, which exchanges the elements at two positions,
/// both below the length (it panics otherwise).
pub assume_specification<V>[ <[V]>::swap ](s: &mut [V], a: usize, b: usize)
    requires
        a < old(s)@.len(),
        b < old(s)@.len(),
    ensures
        final(s)@ == old(s)@.update(a as int, old(s)@[b as int]).update(b as int, old(s)@[a as int]),
;

/// Exchanges two positions; the multiset of elements stays the same.
fn swap_at<T>(a: &mut [T], i: usize, j: usize)
    requires
        i < old(a)@.len(),
        j < old(a)@.len(),
    ensures
        final(a)@ == old(a)@.update(i as int, old(a)@[j as int]).update(j as int, old(a)@[i as int]),
        final(a)@.to_multiset() == old(a)@.to_multiset(),
{
    proof {
        lemma_swap_multiset(a@, i as int, j as int);
    }
    a.swap(i, j);
}

/// A sorted run of elements `<= p`, then `p`, then a sorted run of
/// elements `>= p`, is sorted.
proof fn lemma_sorted_around<T: PartialOrd>(l: Seq<T>, p: T, r: Seq<T>)
    requires
        is_total_order::<T>(),
        sorted(l),
        sorted(r),
        forall|k: int| 0 <= k < l.len() ==> #[trigger] le(l[k], p),
        forall|k: int| 0 <= k < r.len() ==> #[trigger] le(p, r[k]),
    ensures
        sorted(l + seq![p] + r),
{
    let s = l + seq![p] + r;
    lemma_le_total(p, p);
    assert forall|i: int, j: int| 0 <= i < j < s.len() implies #[trigger] le(s[i], s[j]) by {
        if j < l.len() {
        } else if j == l.len() {
            assert(le(l[i], p));
        } else if i > l.len() {
            assert(le(r[i - l.len() - 1], r[j - l.len() - 1]));
        } else if i == l.len() {
            assert(le(p, r[j - l.len() - 1]));
        } else {
            assert(le(l[i], p));
            assert(le(p, r[j - l.len() - 1]));
        }
    }
}

/// In-place quicksort: partitions around the last element, then sorts the
/// two sides, which never overlap.
fn quick_sort_in<T: PartialOrd>(a: &mut [T])
    requires
        is_total_order::<T>(),
    ensures
        is_sorting_of(final(a)@, old(a)@),
    decreases old(a)@.len(),
{
    let length = a.len();
    if length <= 1 {
        return;
    }
    let pivot: usize = length - 1;
    let ghost p = a@[pivot as int];
    let ghost s0 = a@;
    let mut greater: usize = pivot;
    let mut swap = false;
    for i in 0..pivot
        invariant
            is_total_order::<T>(),
            a@.len() == length,
            pivot == length - 1,
            a@[pivot as int] == p,
            a@.to_multiset() == s0.to_multiset(),
            !swap ==> greater == pivot,
            swap ==> greater < i,
            forall|k: int| 0 <= k < i && (!swap || k < greater) ==> #[trigger] le(a@[k], p),
            swap ==> forall|k: int| greater <= k < i ==> #[trigger] le(p, a@[k]),
    {
        if !swap && a[i] > a[pivot] {
            proof {
                lemma_le_total(a@[i as int], p);
                lemma_le_total(p, a@[i as int]);
            }
            greater = i;
            swap = true;
        }
        if swap && a[i] < a[pivot] {
            proof {
                lemma_le_total(a@[i as int], p);
            }
            swap_at(a, greater, i);
            greater = greater + 1;
        } else {
            proof {
                lemma_le_total(a@[i as int], p);
                lemma_le_total(p, a@[i as int]);
            }
        }
    }
    swap_at(a, greater, pivot);
    proof {
        lemma_le_total(p, p);
    }
    let ghost mid = a@;
    assert(mid[greater as int] == p);
    assert(forall|k: int| 0 <= k < greater ==> #[trigger] le(mid[k], p));
    assert(forall|k: int| greater < k < length ==> #[trigger] le(p, mid[k]));
    let (left, right) = a.split_at_mut(greater);
    let (middle, rest) = right.split_at_mut(1);
    let ghost l0 = left@;
    let ghost r0 = rest@;
    quick_sort_in(left);
    quick_sort_in(rest);
    proof {
        broadcast use vstd::seq_lib::lemma_multiset_commutative;

        lemma_multiset_contains(l0, left@);
        lemma_multiset_contains(r0, rest@);
        assert(mid =~= l0 + middle@ + r0);
        assert(middle@ =~= seq![p]);
        lemma_sorted_around(left@, p, rest@);
        assert((left@ + middle@ + rest@).to_multiset() =~= (l0 + middle@ + r0).to_multiset());
        assert(is_sorting_of(left@ + middle@ + rest@, s0));
    }
    assert(a@ == left@ + middle@ + rest@);
}

/// Every element before position `n` is `<=` every element from `n` on.
pub open spec fn split_ordered<T: PartialOrd>(s: Seq<T>, n: int) -> bool {
    forall|k: int, m: int| 0 <= k < n <= m < s.len() ==> #[trigger] le(s[k], s[m])
}

/// The elements from position `n` on are in ascending order.
pub open spec fn sorted_from<T: PartialOrd>(s: Seq<T>, n: int) -> bool {
    forall|k: int, m: int| n <= k < m < s.len() ==> #[trigger] le(s[k], s[m])
}

/// The elements before position `n` are in ascending order.
pub open spec fn sorted_below<T: PartialOrd>(s: Seq<T>, n: int) -> bool {
    forall|k: int, m: int| 0 <= k < m < n ==> #[trigger] le(s[k], s[m])
}

/// Tells whether every element is `<=` the next one, that is whether the
/// sequence is in ascending order; the sequence is left as it was.
pub fn is_sorted<T: PartialOrd>(arr: &mut [T]) -> (r: bool)
    requires
        is_total_order::<T>(),
    ensures
        r == sorted(old(arr)@),
        final(arr)@ == old(arr)@,
{
    let mut i: usize = 1;
    while i < arr.len()
        invariant
            is_total_order::<T>(),
            1 <= i,
            i <= arr@.len() || arr@.len() == 0,
            arr@ == old(arr)@,
            sorted_below(arr@, i as int),
        decreases arr@.len() - i,
    {
        let in_order = arr[i - 1] <= arr[i];
        assert(in_order == le(arr@[i - 1], arr@[i as int]));
        if !in_order {
            return false;
        }
        proof {
            assert forall|k: int, m: int| 0 <= k < m < i + 1 implies #[trigger] le(arr@[k], arr@[m]) by {
                if m == i && k < i - 1 {
                    assert(le(arr@[k], arr@[i - 1]));
                }
            }
        }
        i = i + 1;
    }
    true
}

/// Bubble sort: each pass carries the largest element of the unsorted
/// front to its end; a pass without an exchange ends the sort early.
fn bubble_sort_in<T: PartialOrd>(a: &mut [T])
    requires
        is_total_order::<T>(),
    ensures
        is_sorting_of(final(a)@, old(a)@),
{
    let length = a.len();
    for i in 0..length
        invariant
            is_total_order::<T>(),
            a@.len() == length,
            a@.to_multiset() == old(a)@.to_multiset(),
            sorted_from(a@, length - i),
            split_ordered(a@, length - i),
    {
        let mut is_ordered = true;
        let mut j: usize = 1;
        proof {
            lemma_le_total(a@[0], a@[0]);
        }
        while j < length - i
            invariant
                is_total_order::<T>(),
                a@.len() == length,
                i < length,
                1 <= j <= length - i,
                a@.to_multiset() == old(a)@.to_multiset(),
                sorted_from(a@, length - i),
                split_ordered(a@, length - i),
                forall|k: int| 0 <= k < j ==> #[trigger] le(a@[k], a@[j - 1]),
                is_ordered ==> sorted_below(a@, j as int),
            decreases length - i - j,
        {
            proof {
                lemma_le_total(a@[j - 1], a@[j as int]);
                lemma_le_total(a@[j as int], a@[j as int]);
            }
            if a[j - 1] > a[j] {
                let ghost before = a@;
                swap_at(a, j - 1, j);
                is_ordered = false;
                proof {
                    assert forall|k: int, m: int|
                        0 <= k < length - i <= m < length implies #[trigger] le(a@[k], a@[m]) by {
                        if k == j - 1 {
                            assert(le(before[j as int], before[m]));
                        } else if k == j {
                            assert(le(before[j - 1], before[m]));
                        } else {
                            assert(le(before[k], before[m]));
                        }
                    }
                    assert forall|k: int| 0 <= k < j + 1 implies #[trigger] le(a@[k], a@[j as int]) by {
                        if k < j - 1 {
                            assert(le(before[k], before[j - 1]));
                        }
                    }
                }
            } else {
                proof {
                    assert forall|k: int| 0 <= k < j + 1 implies #[trigger] le(a@[k], a@[j as int]) by {
                        if k < j {
                            assert(le(a@[k], a@[j - 1]));
                        }
                    }
                    if is_ordered {
                        assert forall|k: int, m: int| 0 <= k < m < j + 1 implies #[trigger] le(a@[k], a@[m]) by {
                            if m == j && k < j - 1 {
                                assert(le(a@[k], a@[j - 1]));
                            }
                        }
                    }
                }
            }
            j = j + 1;
        }
        let ghost top = length - i - 1;
        if is_ordered {
            proof {
                assert forall|k: int, m: int| 0 <= k < m < length implies #[trigger] le(a@[k], a@[m]) by {
                    if m > top && k <= top {
                        assert(split_ordered(a@, top + 1));
                    }
                }
            }
            return;
        }
        proof {
            lemma_le_total(a@[top], a@[top]);
            assert forall|k: int, m: int| 0 <= k < top <= m < length implies #[trigger] le(a@[k], a@[m]) by {
                if m == top {
                    assert(le(a@[k], a@[top]));
                }
            }
            assert forall|k: int, m: int| top <= k < m < length implies #[trigger] le(a@[k], a@[m]) by {
                if k == top {
                    assert(split_ordered(a@, top + 1));
                }
            }
        }
    }
}

/// The sequence `a` that results from moving the element at `t` of `s`
/// down to position `k`, shifting the ones between up by one, is sorted up
/// to `t` when `s` was sorted below `t`, the moved element is `<` all it
/// passed and not `<` its new left neighbour.
proof fn lemma_settled<T: PartialOrd>(s: Seq<T>, a: Seq<T>, k: int, t: int)
    requires
        is_total_order::<T>(),
        0 <= k <= t < s.len(),
        a.len() == s.len(),
        sorted_below(s, t),
        a[k] == s[t],
        forall|p: int| 0 <= p < k ==> a[p] == s[p],
        forall|q: int| k < q <= t ==> a[q] == s[q - 1],
        forall|q: int| k < q <= t ==> #[trigger] lt(s[t], a[q]),
        k > 0 ==> le(a[k - 1], a[k]),
    ensures
        sorted_below(a, t + 1),
{
    assert forall|p: int, q: int| 0 <= p < q < t + 1 implies #[trigger] le(a[p], a[q]) by {
        lemma_le_total(s[t], a[q]);
        if q < k {
            assert(le(s[p], s[q]));
        } else if q == k {
            if p < k - 1 {
                assert(le(s[p], s[k - 1]));
            }
        } else if p > k {
            assert(le(s[p - 1], s[q - 1]));
        } else if p == k {
            assert(lt(s[t], a[q]));
        } else {
            assert(le(s[p], s[q - 1]));
        }
    }
}

/// Moves the element at `to_move` leftward by adjacent exchanges until it
/// is not smaller than its left neighbour or reaches the front; the
/// elements before `to_move` must already be in order.
fn to_sorted<T: PartialOrd>(arr: &mut [T], to_move: usize) -> (r: &[T])
    requires
        is_total_order::<T>(),
        to_move < old(arr)@.len(),
        sorted_below(old(arr)@, to_move as int),
    ensures
        final(arr)@.len() == old(arr)@.len(),
        final(arr)@.to_multiset() == old(arr)@.to_multiset(),
        sorted_below(final(arr)@, to_move + 1),
        forall|q: int| to_move < q < old(arr)@.len() ==> final(arr)@[q] == old(arr)@[q],
        r@ == final(arr)@,
{
    let ghost x = arr@[to_move as int];
    for i in 0..to_move
        invariant
            is_total_order::<T>(),
            to_move < old(arr)@.len(),
            sorted_below(old(arr)@, to_move as int),
            x == old(arr)@[to_move as int],
            arr@.len() == old(arr)@.len(),
            arr@.to_multiset() == old(arr)@.to_multiset(),
            arr@[to_move - i] == x,
            forall|p: int| 0 <= p < to_move - i ==> arr@[p] == old(arr)@[p],
            forall|q: int| to_move - i < q <= to_move ==> arr@[q] == old(arr)@[q - 1],
            forall|q: int| to_move < q < arr@.len() ==> arr@[q] == old(arr)@[q],
            forall|q: int| to_move - i < q <= to_move ==> #[trigger] lt(x, arr@[q]),
    {
        if arr[to_move - i] < arr[to_move - i - 1] {
            swap_at(arr, to_move - i, to_move - i - 1);
        } else {
            proof {
                lemma_le_total(arr@[to_move - i - 1], x);
                lemma_settled(old(arr)@, arr@, to_move - i, to_move as int);
            }
            return arr;
        }
    }
    proof {
        lemma_settled(old(arr)@, arr@, 0, to_move as int);
    }
    arr
}

/// Insertion sort: grows a sorted prefix, settling each element that is
/// smaller than its left neighbour into place; a sweep that finds no such
/// element ends the sort.
fn insertion_sort_in<T: PartialOrd>(a: &mut [T])
    requires
        is_total_order::<T>(),
    ensures
        is_sorting_of(final(a)@, old(a)@),
{
    let len = a.len();
    for _i in 0..len
        invariant
            is_total_order::<T>(),
            a@.len() == len,
            a@.to_multiset() == old(a)@.to_multiset(),
            _i > 0 ==> sorted(a@),
    {
        let mut is_ordered = true;
        let mut j: usize = 1;
        while j < len
            invariant
                is_total_order::<T>(),
                a@.len() == len,
                1 <= j,
                j <= len || len == 0,
                a@.to_multiset() == old(a)@.to_multiset(),
                sorted_below(a@, j as int),
            decreases len - j,
        {
            if a[j - 1] > a[j] {
                is_ordered = false;
                to_sorted(a, j);
            } else {
                proof {
                    lemma_le_total(a@[j - 1], a@[j as int]);
                    assert forall|k: int, m: int| 0 <= k < m < j + 1 implies #[trigger] le(a@[k], a@[m]) by {
                        if m == j && k < j - 1 {
                            assert(le(a@[k], a@[j - 1]));
                        }
                    }
                }
            }
            j = j + 1;
        }
        if is_ordered {
            return;
        }
    }
}

/// Selection sort: for each position in turn, the smallest element of the
/// rest is exchanged into it.
fn selection_sort_in<T: PartialOrd>(a: &mut [T])
    requires
        is_total_order::<T>(),
    ensures
        is_sorting_of(final(a)@, old(a)@),
{
    let length = a.len();
    for i in 0..length
        invariant
            is_total_order::<T>(),
            a@.len() == length,
            a@.to_multiset() == old(a)@.to_multiset(),
            sorted_below(a@, i as int),
            split_ordered(a@, i as int),
    {
        let mut min: usize = i;
        let mut j: usize = i;
        proof {
            lemma_le_total(a@[i as int], a@[i as int]);
        }
        while j < a.len()
            invariant
                is_total_order::<T>(),
                a@.len() == length,
                i < length,
                i <= j <= length,
                i <= min < length,
                forall|k: int| i <= k < j ==> #[trigger] le(a@[min as int], a@[k]),
            decreases length - j,
        {
            proof {
                lemma_le_total(a@[min as int], a@[j as int]);
            }
            if a[min] > a[j] {
                proof {
                    assert forall|k: int| i <= k < j + 1 implies #[trigger] le(a@[j as int], a@[k]) by {
                        lemma_le_total(a@[j as int], a@[k]);
                        if k < j {
                            assert(le(a@[min as int], a@[k]));
                        }
                    }
                }
                min = j;
            }
            j = j + 1;
        }
        let ghost before = a@;
        swap_at(a, i, min);
        proof {
            assert forall|k: int, m: int| 0 <= k < i + 1 <= m < length implies #[trigger] le(a@[k], a@[m]) by {
                if k < i {
                    if m == min {
                        assert(le(before[k], before[i as int]));
                    } else {
                        assert(le(before[k], before[m]));
                    }
                } else if m == min {
                    assert(le(before[min as int], before[i as int]));
                } else {
                    assert(le(before[min as int], before[m]));
                }
            }
            assert forall|k: int, m: int| 0 <= k < m < i + 1 implies #[trigger] le(a@[k], a@[m]) by {
                if m == i {
                    assert(le(before[k], before[min as int]));
                }
            }
        }
    }
}

/// In-place sorting, ascending, of a sequence of comparable elements.
/// Each operation hands back the same storage it sorted.
pub trait SortingAlgs<T: PartialOrd>: View<V = Seq<T>> {
    /// Lomuto quicksort with the last element as pivot; O(n log n) on
    /// average, O(n^2) on input that is already ordered.
    fn quick_sort(&mut self) -> (r: &mut Self)
        requires
            is_total_order::<T>(),
        ensures
            is_sorting_of(r@, old(self)@),
            sorted(old(self)@) ==> r@ == old(self)@,
            final(self)@ == final(r)@,
    ;

    /// Bubble sort with early exit; O(n^2), O(n) on sorted input.
    fn bubble_sort(&mut self) -> (r: &mut Self)
        requires
            is_total_order::<T>(),
        ensures
            is_sorting_of(r@, old(self)@),
            sorted(old(self)@) ==> r@ == old(self)@,
            final(self)@ == final(r)@,
    ;

    /// Insertion sort with early exit; O(n^2), O(n) on sorted input.
    fn insertion_sort(&mut self) -> (r: &mut Self)
        requires
            is_total_order::<T>(),
        ensures
            is_sorting_of(r@, old(self)@),
            sorted(old(self)@) ==> r@ == old(self)@,
            final(self)@ == final(r)@,
    ;

    /// Selection sort; O(n^2) on every input. Equal elements may change
    /// their relative order.
    fn selection_sort(&mut self) -> (r: &mut Self)
        requires
            is_total_order::<T>(),
        ensures
            is_sorting_of(r@, old(self)@),
            sorted(old(self)@) ==> r@ == old(self)@,
            final(self)@ == final(r)@,
    ;
}

/// Sorting a sequence that is already in ascending order leaves it as it
/// is: its only sorting is itself.
pub proof fn lemma_sorting_keeps_sorted<T: PartialOrd>(r: Seq<T>, s: Seq<T>)
    requires
        is_total_order::<T>(),
        is_sorting_of(r, s),
    ensures
        sorted(s) ==> r == s,
{
    if sorted(s) {
        lemma_sorted_unique(r, s);
    }
}

/// A sequence of no element or of one is already sorted, so sorting gives
/// it back unchanged.
pub proof fn lemma_sorting_short<T: PartialOrd>(r: Seq<T>, s: Seq<T>)
    requires
        is_total_order::<T>(),
        s.len() <= 1,
        is_sorting_of(r, s),
    ensures
        sorted(s),
        r == s,
{
    lemma_sorting_keeps_sorted(r, s);
}

/// Any two sortings of one input are the same sequence: whichever of the
/// sorting operations produced them, run separately on copies of the input,
/// they agree element for element.
pub proof fn lemma_sortings_agree<T: PartialOrd>(s: Seq<T>, r1: Seq<T>, r2: Seq<T>)
    requires
        is_total_order::<T>(),
        is_sorting_of(r1, s),
        is_sorting_of(r2, s),
    ensures
        r1 == r2,
{
    lemma_sorted_unique(r1, r2);
}

impl<T: PartialOrd> SortingAlgs<T> for [T] {
    fn quick_sort(&mut self) -> (r: &mut [T]) {
        quick_sort_in(self);
        proof {
            lemma_sorting_keeps_sorted(self@, old(self)@);
        }
        self
    }

    fn bubble_sort(&mut self) -> (r: &mut [T]) {
        bubble_sort_in(self);
        proof {
            lemma_sorting_keeps_sorted(self@, old(self)@);
        }
        self
    }

    fn insertion_sort(&mut self) -> (r: &mut [T]) {
        insertion_sort_in(self);
        proof {
            lemma_sorting_keeps_sorted(self@, old(self)@);
        }
        self
    }

    fn selection_sort(&mut self) -> (r: &mut [T]) {
        selection_sort_in(self);
        proof {
            lemma_sorting_keeps_sorted(self@, old(self)@);
        }
        self
    }
}

} // verus!
