//! Sorting algorithms that work in place on a slice.
//!
//! Every function here keeps the elements it is given and only changes their
//! places. Where the element type is totally ordered (`total_order`), the
//! result is sorted in the direction asked for.
//!
//! The functions of this module take the whole slice, or an inclusive range
//! `p..=r` of it. Each algorithm also has a module of its own.
use crate::order::{sorted, sorted_range, total_order};
use crate::sequence::{lemma_rearranged_within_chains, lemma_swap_rearranges_within, rearranged_within, swapped};
use vstd::prelude::*;

pub mod bubble;
pub mod heap;
pub mod insertion;
pub mod merge;
pub mod quick;

verus! {

/// Sorts `data` with insertion sort: ascending when `asc` holds, descending otherwise.
///
/// The elements are kept, each as often. Where the element type is totally
/// ordered, the result is sorted in the direction asked for.
pub fn insertion_sort<T>(data: &mut [T], asc: bool) where T: PartialOrd
    ensures
        final(data)@.len() == old(data)@.len(),
        final(data)@.to_multiset() == old(data)@.to_multiset(),
        total_order::<T>() ==> sorted(final(data)@, asc),
{
    insertion::insertion_sort(data, asc);
}

/// Sorts the elements of `data` at the indices `p..=r` with merge sort.
///
/// The elements in that range are kept, each as often, and nothing outside it
/// is touched; where `p >= r` nothing is touched at all. Where the element
/// type is totally ordered, the range is sorted afterwards: ascending when
/// `asc` holds, descending otherwise.
pub fn merge_sort<T>(data: &mut [T], p: usize, r: usize, asc: bool) where T: PartialOrd + Copy
    requires
        p < r ==> r < old(data)@.len(),
    ensures
        p < r ==> rearranged_within(old(data)@, final(data)@, p as int, r + 1),
        p >= r ==> final(data)@ == old(data)@,
        total_order::<T>() ==> sorted_range(final(data)@, p as int, r + 1, asc),
{
    merge::merge_sort(data, p, r, asc);
}

/// Sorts `data` with bubble sort: ascending when `asc` holds, descending otherwise.
///
/// The elements are kept, each as often. Where the element type is totally
/// ordered, the result is sorted in the direction asked for.
pub fn bubble_sort<T>(data: &mut [T], asc: bool) where T: PartialOrd
    ensures
        final(data)@.len() == old(data)@.len(),
        final(data)@.to_multiset() == old(data)@.to_multiset(),
        total_order::<T>() ==> sorted(final(data)@, asc),
{
    bubble::bubble_sort(data, asc);
}

/// Sorts `data` with heap sort: ascending when `asc` holds, descending otherwise.
///
/// The elements are kept, each as often. Where the element type is totally
/// ordered, the result is sorted in the direction asked for.
pub fn heap_sort<T>(data: &mut [T], asc: bool) where T: PartialOrd
    ensures
        final(data)@.len() == old(data)@.len(),
        final(data)@.to_multiset() == old(data)@.to_multiset(),
        total_order::<T>() ==> sorted(final(data)@, asc),
{
    heap::heap_sort(data, asc);
}

/// Sorts the elements of `data` at the indices `p..=r` in ascending order
/// with quick sort.
///
/// The elements in that range are kept, each as often, and nothing outside it
/// is touched; where `p >= r` nothing is touched at all. Where the element
/// type is totally ordered, the range is sorted afterwards.
pub fn quick_sort<T>(data: &mut [T], p: usize, r: usize) where T: PartialOrd + Copy
    requires
        p < r ==> r < old(data)@.len(),
    ensures
        p < r ==> rearranged_within(old(data)@, final(data)@, p as int, r + 1),
        p >= r ==> final(data)@ == old(data)@,
        total_order::<T>() ==> sorted_range(final(data)@, p as int, r + 1, true),
    decreases
            (if p < r {
                r - p
            } else {
                0
            }),
{
    if p < r {
        proof {
            vstd::slice::axiom_spec_len(data);
        }
        let q: usize = partition(data, &p, &r);
        let ghost split = data@;
        if q > 0 {
            quick_sort(data, p, q - 1);
        }
        let ghost front = data@;
        quick_sort(data, q + 1, r);
        proof {
            quick::lemma_quick_sort_joins(old(data)@, split, front, data@, p as int, q as int, r as int);
        }
    }
}

/// Partitions the elements of `data` at `p..=r` around the last of them, the
/// pivot, and returns the index at which the pivot ends up.
///
/// The elements in that range are kept, each as often, and nothing outside it
/// is touched. Where the element type is totally ordered, the elements before
/// the returned index compare as less than or equal to the pivot, and those
/// behind it as greater.
pub fn partition<T>(data: &mut [T], p: &usize, r: &usize) -> (q: usize) where T: PartialOrd + Copy
    requires
        *p <= *r < old(data)@.len(),
    ensures
        *p <= q <= *r,
        rearranged_within(old(data)@, final(data)@, *p as int, *r + 1),
        final(data)@[q as int] == old(data)@[*r as int],
        total_order::<T>() ==> quick::split_around(final(data)@, *p as int, q as int, *r as int),
{
    let x: T = data[*r];
    let mut i: usize = *p;
    let mut j: usize = *p;

    while j < *r
        invariant
            *p <= i <= j <= *r < data@.len(),
            data@.len() == old(data)@.len(),
            rearranged_within(old(data)@, data@, *p as int, *r + 1),
            data@[*r as int] == x,
            x == old(data)@[*r as int],
            total_order::<T>() ==> quick::partitioning(data@, *p as int, i as int, j as int, x),
        decreases *r - j,
    {
        let ghost before = data@;
        proof {
            if total_order::<T>() {
                quick::lemma_partition_advances(before, *p as int, i as int, j as int, x);
            }
        }
        if data[j] <= x {
            data.swap(i, j);
            proof {
                lemma_swap_rearranges_within(before, i as int, j as int, *p as int, *r + 1);
                lemma_rearranged_within_chains(old(data)@, before, data@, *p as int, *r + 1);
            }
            i += 1;
        }
        j += 1;
    }

    proof {
        lemma_swap_rearranges_within(data@, i as int, *r as int, *p as int, *r + 1);
        lemma_rearranged_within_chains(
            old(data)@,
            data@,
            swapped(data@, i as int, *r as int),
            *p as int,
            *r + 1,
        );
        if total_order::<T>() {
            quick::lemma_partition_ends(data@, *p as int, i as int, *r as int);
        }
    }
    data.swap(i, *r);
    i
}

} // verus!
