//! Heap sort, and the steps it is made of: sifting an element down and
//! building a heap out of a slice.
use crate::heap_order::{
    heap_from, is_heap, left_of, lemma_heap_behind_is_sift_ready, lemma_heap_without_last,
    lemma_choice_is_first, lemma_leaves_are_heap, lemma_root_is_first, lemma_sift_step, node_ok, parent_of, right_of, sift_ready,
};
use crate::order::{in_order, lemma_in_order_reverses, sorted, sorted_range, total_order};
use crate::sequence::{
    lemma_rearranged_element_origin, lemma_rearranged_within_whole, lemma_rearranged_within_widens,
    lemma_swap_keeps_elements, lemma_swap_rearranges_within, rearranged_within,
};
use vstd::prelude::*;

verus! {

/// Index of the parent of the node at `i`.
pub fn _parent(i: &usize) -> (p: usize)
    requires
        *i > 0,
    ensures
        p == parent_of(*i as int),
{
    (*i - 1) / 2
}

/// Index of the left child of the node at `i`.
pub fn left(i: &usize) -> (l: usize)
    requires
        left_of(*i as int) <= usize::MAX,
    ensures
        l == left_of(*i as int),
{
    2 * *i + 1
}

/// Index of the right child of the node at `i`.
pub fn right(i: &usize) -> (r: usize)
    requires
        right_of(*i as int) <= usize::MAX,
    ensures
        r == right_of(*i as int),
{
    2 * *i + 2
}

/// Sifts the element at `i` down the heap made of the first `heap_size`
/// elements of `data`, the greatest element being wanted at the root.
///
/// Only elements at `i..heap_size` change places, and they are kept, each as
/// often. Where the element type is totally ordered and the node at `i` could
/// be sifted down (`sift_ready`) with respect to the nodes from some `lo` on,
/// all nodes from `lo` on are in place afterwards.
pub fn max_heapify<T>(data: &mut [T], i: &usize, heap_size: &usize) where T: PartialOrd
    requires
        *heap_size <= old(data)@.len(),
    ensures
        *i < *heap_size ==> rearranged_within(old(data)@, final(data)@, *i as int, *heap_size as int),
        *i >= *heap_size ==> final(data)@ == old(data)@,
        total_order::<T>() ==> forall|lo: int|
            0 <= lo <= *i && #[trigger] sift_ready(old(data)@, lo, *heap_size as int, *i as int, false)
                ==> heap_from(final(data)@, lo, *heap_size as int, false),
    decreases *heap_size - *i,
{
    if *i >= *heap_size / 2 {
        proof {
            assert(left_of(*i as int) >= *heap_size);
            assert(node_ok(data@, *i as int, *heap_size as int, false));
        }
        return ;
    }
    let l: usize = left(i);
    let r: usize = right(i);
    let mut largest: usize;

    if l < *heap_size && data[l] > data[*i] {
        largest = l;
    } else {
        largest = *i;
    }
    let ghost first = largest;

    if r < *heap_size && data[r] > data[largest] {
        largest = r;
    }

    proof {
        if total_order::<T>() {
            lemma_choice_is_first(data@, *i as int, *heap_size as int, first as int, largest as int, false);
        }
    }

    if largest != *i {
        data.swap(*i, largest);
        let ghost middle = data@;
        max_heapify(data, &largest, heap_size);
        proof {
            lemma_swap_rearranges_within(old(data)@, *i as int, largest as int, *i as int, *heap_size as int);
            lemma_rearranged_within_widens(
                middle,
                data@,
                largest as int,
                *heap_size as int,
                *i as int,
                *heap_size as int,
            );
            if total_order::<T>() {
                assert forall|lo: int|
                    0 <= lo <= *i && #[trigger] sift_ready(
                        old(data)@,
                        lo,
                        *heap_size as int,
                        *i as int,
                        false,
                    ) implies heap_from(data@, lo, *heap_size as int, false) by {
                    lemma_sift_step(old(data)@, lo, *heap_size as int, *i as int, largest as int, false);
                }
            }
        }
    }
}

/// Sifts the element at `i` down the heap made of the first `heap_size`
/// elements of `data`, the least element being wanted at the root.
///
/// Only elements at `i..heap_size` change places, and they are kept, each as
/// often. Where the element type is totally ordered and the node at `i` could
/// be sifted down (`sift_ready`) with respect to the nodes from some `lo` on,
/// all nodes from `lo` on are in place afterwards.
pub fn min_heapify<T>(data: &mut [T], i: &usize, heap_size: &usize) where T: PartialOrd
    requires
        *heap_size <= old(data)@.len(),
    ensures
        *i < *heap_size ==> rearranged_within(old(data)@, final(data)@, *i as int, *heap_size as int),
        *i >= *heap_size ==> final(data)@ == old(data)@,
        total_order::<T>() ==> forall|lo: int|
            0 <= lo <= *i && #[trigger] sift_ready(old(data)@, lo, *heap_size as int, *i as int, true)
                ==> heap_from(final(data)@, lo, *heap_size as int, true),
    decreases *heap_size - *i,
{
    if *i >= *heap_size / 2 {
        proof {
            assert(left_of(*i as int) >= *heap_size);
            assert(node_ok(data@, *i as int, *heap_size as int, true));
        }
        return ;
    }
    let l: usize = left(i);
    let r: usize = right(i);
    let mut smallest: usize;

    if l < *heap_size && data[l] < data[*i] {
        smallest = l;
    } else {
        smallest = *i;
    }
    let ghost first = smallest;

    if r < *heap_size && data[r] < data[smallest] {
        smallest = r;
    }

    proof {
        if total_order::<T>() {
            lemma_choice_is_first(data@, *i as int, *heap_size as int, first as int, smallest as int, true);
        }
    }

    if smallest != *i {
        data.swap(*i, smallest);
        let ghost middle = data@;
        min_heapify(data, &smallest, heap_size);
        proof {
            lemma_swap_rearranges_within(old(data)@, *i as int, smallest as int, *i as int, *heap_size as int);
            lemma_rearranged_within_widens(
                middle,
                data@,
                smallest as int,
                *heap_size as int,
                *i as int,
                *heap_size as int,
            );
            if total_order::<T>() {
                assert forall|lo: int|
                    0 <= lo <= *i && #[trigger] sift_ready(
                        old(data)@,
                        lo,
                        *heap_size as int,
                        *i as int,
                        true,
                    ) implies heap_from(data@, lo, *heap_size as int, true) by {
                    lemma_sift_step(old(data)@, lo, *heap_size as int, *i as int, smallest as int, true);
                }
            }
        }
    }
}

/// Turns the whole of `data` into a binary heap: one with the greatest
/// element at the root where `asc` holds, with the least otherwise.
///
/// The elements are kept, each as often. Where the element type is totally
/// ordered, the result is a heap.
pub fn build_heap<T>(data: &mut [T], asc: bool) where T: PartialOrd
    ensures
        final(data)@.len() == old(data)@.len(),
        final(data)@.to_multiset() == old(data)@.to_multiset(),
        total_order::<T>() ==> is_heap(final(data)@, final(data)@.len() as int, !asc),
{
    let heap_size: usize = data.len();
    let mut i: usize = heap_size / 2 + 1;
    proof {
        lemma_leaves_are_heap(data@, i as int, heap_size as int, !asc);
    }
    while i > 0
        invariant
            i <= heap_size / 2 + 1,
            heap_size == data@.len(),
            data@.len() == old(data)@.len(),
            data@.to_multiset() == old(data)@.to_multiset(),
            total_order::<T>() ==> heap_from(data@, i as int, heap_size as int, !asc),
        decreases i,
    {
        i = i - 1;
        let ghost before = data@;
        if asc {
            max_heapify(data, &i, &heap_size);
        } else {
            min_heapify(data, &i, &heap_size);
        }
        proof {
            if i < heap_size {
                lemma_rearranged_within_whole(before, data@, i as int, heap_size as int);
            }
            if total_order::<T>() {
                lemma_heap_behind_is_sift_ready(before, heap_size as int, i as int, !asc);
            }
        }
    }
}

/// Sorts `data` with heap sort: ascending when `asc` holds, descending otherwise.
///
/// The elements are kept, each as often. Where the element type is totally
/// ordered, the result is sorted in the direction asked for.
pub fn heap_sort<T>(data: &mut [T], asc: bool) where T: PartialOrd
    ensures
        final(data)@.len() == old(data)@.len(),
        final(data)@.to_multiset() == old(data)@.to_multiset(),
        total_order::<T>() ==> sorted(final(data)@, asc),
{
    build_heap(data, asc);

    let mut heap_size: usize = data.len();
    let mut i: usize = heap_size;

    while i > 1
        invariant
            i == heap_size,
            heap_size <= data@.len(),
            data@.len() == old(data)@.len(),
            data@.to_multiset() == old(data)@.to_multiset(),
            total_order::<T>() ==> is_heap(data@, heap_size as int, !asc),
            total_order::<T>() ==> sorted_range(data@, heap_size as int, data@.len() as int, asc),
            total_order::<T>() ==> forall|x: int, y: int|
                0 <= x < heap_size <= y < data@.len() ==> in_order(#[trigger] data@[x], #[trigger] data@[y], asc),
        decreases i,
    {
        i = i - 1;
        let ghost heap = data@;
        data.swap(0, i);
        heap_size -= 1;
        let ghost shrunk = data@;

        if asc {
            max_heapify(data, &0, &heap_size);
        } else {
            min_heapify(data, &0, &heap_size);
        }

        proof {
            lemma_swap_keeps_elements(heap, 0, i as int);
            lemma_rearranged_within_whole(shrunk, data@, 0, heap_size as int);
            if total_order::<T>() {
                lemma_heap_without_last(heap, i + 1, !asc);
                lemma_heap_behind_is_sift_ready(shrunk, heap_size as int, 0, !asc);
                assert(data@[i as int] == heap[0]);
                assert forall|x: int, y: int| 0 <= x < heap_size <= y < data@.len() implies in_order(
                    #[trigger] data@[x],
                    #[trigger] data@[y],
                    asc,
                ) by {
                    let k = lemma_rearranged_element_origin(shrunk, data@, 0, heap_size as int, x);
                    let from = if k == 0 {
                        i as int
                    } else {
                        k
                    };
                    assert(shrunk[k] == heap[from]);
                    if y == i {
                        lemma_root_is_first(heap, i + 1, from, !asc);
                        lemma_in_order_reverses(heap[0], heap[from], asc);
                    } else {
                        assert(data@[y] == heap[y]);
                        assert(in_order(heap[from], heap[y], asc));
                    }
                }
                assert forall|x: int, y: int| heap_size <= x < y < data@.len() implies in_order(
                    #[trigger] data@[x],
                    #[trigger] data@[y],
                    asc,
                ) by {
                    assert(data@[y] == heap[y]);
                    if x == i {
                        assert(in_order(heap[0], heap[y], asc));
                    } else {
                        assert(data@[x] == heap[x]);
                    }
                }
            }
        }
    }
}

} // verus!
