//! Binary heaps stored in a vector.
//!
//! A heap is built out of a vector of elements in one go. A `MinHeap` has its
//! least element at the root, a `MaxHeap` its greatest; `BinaryHeap` is either
//! of the two.
use crate::heap_order::{
    heap_from, is_heap, left_of, lemma_choice_is_first, lemma_heap_behind_is_sift_ready,
    lemma_leaves_are_heap, lemma_sift_step, node_ok, parent_of, right_of, sift_ready,
};
use crate::order::total_order;
use crate::sequence::{
    lemma_rearranged_within_whole, lemma_rearranged_within_widens, lemma_swap_rearranges_within,
    rearranged_within,
};
use vstd::prelude::*;

verus! {

/// A binary heap: either a `MinHeap` or a `MaxHeap`.
pub enum BinaryHeap<T> where T: PartialOrd {
    Min(MinHeap<T>),
    Max(MaxHeap<T>),
}

/// A binary heap with the least element at its root.
pub struct MinHeap<T> where T: PartialOrd {
    data: Vec<T>,
}

/// A binary heap with the greatest element at its root.
pub struct MaxHeap<T> where T: PartialOrd {
    data: Vec<T>,
}

impl<T> BinaryHeap<T> where T: PartialOrd {
    /// The elements of the heap in the order in which they are stored.
    pub open spec fn view(&self) -> Seq<T> {
        match self {
            BinaryHeap::Min(heap) => heap@,
            BinaryHeap::Max(heap) => heap@,
        }
    }

    /// The heap inside is well formed.
    pub open spec fn wf(&self) -> bool {
        match self {
            BinaryHeap::Min(heap) => heap.wf(),
            BinaryHeap::Max(heap) => heap.wf(),
        }
    }

    /// Creates an empty heap that is to have its least element at the root.
    pub fn new_min() -> (heap: Self)
        ensures
            heap is Min,
            heap@ == Seq::<T>::empty(),
            heap.wf(),
    {
        BinaryHeap::Min(MinHeap::new())
    }

    /// Creates an empty heap that is to have its greatest element at the root.
    pub fn new_max() -> (heap: Self)
        ensures
            heap is Max,
            heap@ == Seq::<T>::empty(),
            heap.wf(),
    {
        BinaryHeap::Max(MaxHeap::new())
    }

    /// Creates a heap out of the elements of `data`, with the least of them at the root.
    pub fn from_data_min(data: Vec<T>) -> (heap: Self)
        ensures
            heap is Min,
            heap@.len() == data@.len(),
            heap@.to_multiset() == data@.to_multiset(),
            heap.wf(),
    {
        BinaryHeap::Min(MinHeap::from_data(data))
    }

    /// Creates a heap out of the elements of `data`, with the greatest of them at the root.
    pub fn from_data_max(data: Vec<T>) -> (heap: Self)
        ensures
            heap is Max,
            heap@.len() == data@.len(),
            heap@.to_multiset() == data@.to_multiset(),
            heap.wf(),
    {
        BinaryHeap::Max(MaxHeap::from_data(data))
    }

    /// The number of elements in the heap.
    pub fn len(&self) -> (n: usize)
        ensures
            n == self@.len(),
    {
        match self {
            BinaryHeap::Min(heap) => heap.data.len(),
            BinaryHeap::Max(heap) => heap.data.len(),
        }
    }
}

impl<T> MinHeap<T> where T: PartialOrd {
    /// The elements of the heap in the order in which they are stored: the
    /// root first, then the children of each node at `2 * i + 1` and `2 * i + 2`.
    pub closed spec fn view(&self) -> Seq<T> {
        self.data@
    }

    /// Where the element type is totally ordered, the elements form a binary
    /// heap with the least element at the root.
    pub open spec fn wf(&self) -> bool {
        total_order::<T>() ==> is_heap(self@, self@.len() as int, true)
    }

    /// Creates an empty heap.
    pub fn new() -> (heap: Self)
        ensures
            heap@ == Seq::<T>::empty(),
            heap.wf(),
    {
        MinHeap { data: Vec::new() }
    }

    /// Creates a heap out of the elements of `data`.
    ///
    /// The heap holds the elements of `data`, each as often, and has the
    /// least of them at its root where the element type is totally ordered.
    pub fn from_data(data: Vec<T>) -> (heap: Self)
        ensures
            heap@.len() == data@.len(),
            heap@.to_multiset() == data@.to_multiset(),
            heap.wf(),
    {
        let mut new_heap = MinHeap { data };
        new_heap.build_heap();
        new_heap
    }

    /// Puts the elements in heap order, sifting down every node that has a
    /// child, the last of them first.
    fn build_heap(&mut self)
        ensures
            final(self)@.len() == old(self)@.len(),
            final(self)@.to_multiset() == old(self)@.to_multiset(),
            final(self).wf(),
    {
        let heap_size: usize = self.data.len();
        let mut i: usize = heap_size / 2 + 1;
        proof {
            lemma_leaves_are_heap(self.data@, i as int, heap_size as int, true);
        }
        while i > 0
            invariant
                i <= heap_size / 2 + 1,
                heap_size == self.data@.len(),
                self.data@.len() == old(self).data@.len(),
                self.data@.to_multiset() == old(self).data@.to_multiset(),
                total_order::<T>() ==> heap_from(self.data@, i as int, heap_size as int, true),
            decreases i,
        {
            i = i - 1;
            let ghost before = self.data@;
            self.min_heapify(&i);
            proof {
                if i < heap_size {
                    lemma_rearranged_within_whole(before, self.data@, i as int, heap_size as int);
                }
                if total_order::<T>() {
                    lemma_heap_behind_is_sift_ready(before, heap_size as int, i as int, true);
                }
            }
        }
    }

    /// Sifts the element at `i` down until it may stand before its children.
    ///
    /// Only elements from `i` on change places, and they are kept, each as
    /// often. Where the element type is totally ordered and the node at `i`
    /// could be sifted down (`sift_ready`) with respect to the nodes from some
    /// `lo` on, all nodes from `lo` on are in place afterwards.
    fn min_heapify(&mut self, i: &usize)
        ensures
            final(self)@.len() == old(self)@.len(),
            *i < old(self)@.len() ==> rearranged_within(
                old(self)@,
                final(self)@,
                *i as int,
                old(self)@.len() as int,
            ),
            *i >= old(self)@.len() ==> final(self)@ == old(self)@,
            total_order::<T>() ==> forall|lo: int|
                0 <= lo <= *i && #[trigger] sift_ready(
                    old(self)@,
                    lo,
                    old(self)@.len() as int,
                    *i as int,
                    true,
                ) ==> heap_from(final(self)@, lo, old(self)@.len() as int, true),
        decreases old(self)@.len() - *i,
    {
        let ghost size = self.data@.len() as int;
        if *i >= self.data.len() / 2 {
            proof {
                assert(left_of(*i as int) >= size);
                assert(node_ok(self.data@, *i as int, size, true));
            }
            return ;
        }
        let l: usize = left(i);
        let r: usize = right(i);
        let mut smallest: usize;

        if l < self.data.len() && self.data[l] < self.data[*i] {
            smallest = l;
        } else {
            smallest = *i;
        }
        let ghost first = smallest;

        if r < self.data.len() && self.data[r] < self.data[smallest] {
            smallest = r;
        }

        proof {
            if total_order::<T>() {
                lemma_choice_is_first(self.data@, *i as int, size, first as int, smallest as int, true);
            }
        }

        if smallest != *i {
            self.data.swap(*i, smallest);
            let ghost middle = self.data@;
            self.min_heapify(&smallest);
            proof {
                lemma_swap_rearranges_within(old(self).data@, *i as int, smallest as int, *i as int, size);
                lemma_rearranged_within_widens(middle, self.data@, smallest as int, size, *i as int, size);
                if total_order::<T>() {
                    assert forall|lo: int|
                        0 <= lo <= *i && #[trigger] sift_ready(
                            old(self)@,
                            lo,
                            size,
                            *i as int,
                            true,
                        ) implies heap_from(self.data@, lo, size, true) by {
                        lemma_sift_step(old(self)@, lo, size, *i as int, smallest as int, true);
                    }
                }
            }
        }
    }
}

impl<T> MaxHeap<T> where T: PartialOrd {
    /// The elements of the heap in the order in which they are stored: the
    /// root first, then the children of each node at `2 * i + 1` and `2 * i + 2`.
    pub closed spec fn view(&self) -> Seq<T> {
        self.data@
    }

    /// Where the element type is totally ordered, the elements form a binary
    /// heap with the greatest element at the root.
    pub open spec fn wf(&self) -> bool {
        total_order::<T>() ==> is_heap(self@, self@.len() as int, false)
    }

    /// Creates an empty heap.
    pub fn new() -> (heap: Self)
        ensures
            heap@ == Seq::<T>::empty(),
            heap.wf(),
    {
        MaxHeap { data: Vec::new() }
    }

    /// Creates a heap out of the elements of `data`.
    ///
    /// The heap holds the elements of `data`, each as often, and has the
    /// greatest of them at its root where the element type is totally ordered.
    pub fn from_data(data: Vec<T>) -> (heap: Self)
        ensures
            heap@.len() == data@.len(),
            heap@.to_multiset() == data@.to_multiset(),
            heap.wf(),
    {
        let mut new_heap = MaxHeap { data };
        new_heap.build_heap();
        new_heap
    }

    /// Puts the elements in heap order, sifting down every node that has a
    /// child, the last of them first.
    fn build_heap(&mut self)
        ensures
            final(self)@.len() == old(self)@.len(),
            final(self)@.to_multiset() == old(self)@.to_multiset(),
            final(self).wf(),
    {
        let heap_size: usize = self.data.len();
        let mut i: usize = heap_size / 2 + 1;
        proof {
            lemma_leaves_are_heap(self.data@, i as int, heap_size as int, false);
        }
        while i > 0
            invariant
                i <= heap_size / 2 + 1,
                heap_size == self.data@.len(),
                self.data@.len() == old(self).data@.len(),
                self.data@.to_multiset() == old(self).data@.to_multiset(),
                total_order::<T>() ==> heap_from(self.data@, i as int, heap_size as int, false),
            decreases i,
        {
            i = i - 1;
            let ghost before = self.data@;
            self.max_heapify(&i);
            proof {
                if i < heap_size {
                    lemma_rearranged_within_whole(before, self.data@, i as int, heap_size as int);
                }
                if total_order::<T>() {
                    lemma_heap_behind_is_sift_ready(before, heap_size as int, i as int, false);
                }
            }
        }
    }

    /// Sifts the element at `i` down until it may stand before its children.
    ///
    /// Only elements from `i` on change places, and they are kept, each as
    /// often. Where the element type is totally ordered and the node at `i`
    /// could be sifted down (`sift_ready`) with respect to the nodes from some
    /// `lo` on, all nodes from `lo` on are in place afterwards.
    fn max_heapify(&mut self, i: &usize)
        ensures
            final(self)@.len() == old(self)@.len(),
            *i < old(self)@.len() ==> rearranged_within(
                old(self)@,
                final(self)@,
                *i as int,
                old(self)@.len() as int,
            ),
            *i >= old(self)@.len() ==> final(self)@ == old(self)@,
            total_order::<T>() ==> forall|lo: int|
                0 <= lo <= *i && #[trigger] sift_ready(
                    old(self)@,
                    lo,
                    old(self)@.len() as int,
                    *i as int,
                    false,
                ) ==> heap_from(final(self)@, lo, old(self)@.len() as int, false),
        decreases old(self)@.len() - *i,
    {
        let ghost size = self.data@.len() as int;
        if *i >= self.data.len() / 2 {
            proof {
                assert(left_of(*i as int) >= size);
                assert(node_ok(self.data@, *i as int, size, false));
            }
            return ;
        }
        let l: usize = left(i);
        let r: usize = right(i);
        let mut largest: usize;

        if l < self.data.len() && self.data[l] > self.data[*i] {
            largest = l;
        } else {
            largest = *i;
        }
        let ghost first = largest;

        if r < self.data.len() && self.data[r] > self.data[largest] {
            largest = r;
        }

        proof {
            if total_order::<T>() {
                lemma_choice_is_first(self.data@, *i as int, size, first as int, largest as int, false);
            }
        }

        if largest != *i {
            self.data.swap(*i, largest);
            let ghost middle = self.data@;
            self.max_heapify(&largest);
            proof {
                lemma_swap_rearranges_within(old(self).data@, *i as int, largest as int, *i as int, size);
                lemma_rearranged_within_widens(middle, self.data@, largest as int, size, *i as int, size);
                if total_order::<T>() {
                    assert forall|lo: int|
                        0 <= lo <= *i && #[trigger] sift_ready(
                            old(self)@,
                            lo,
                            size,
                            *i as int,
                            false,
                        ) implies heap_from(self.data@, lo, size, false) by {
                        lemma_sift_step(old(self)@, lo, size, *i as int, largest as int, false);
                    }
                }
            }
        }
    }
}

/// Index of the parent of the node at `i`.
pub fn _parent(i: &usize) -> (p: usize)
    requires
        *i > 0,
    ensures
        p == parent_of(*i as int),
{
    (*i - 1) / 2
}

/// Index of the left child of the node at `i`.
pub fn left(i: &usize) -> (l: usize)
    requires
        left_of(*i as int) <= usize::MAX,
    ensures
        l == left_of(*i as int),
{
    2 * *i + 1
}

/// Index of the right child of the node at `i`.
pub fn right(i: &usize) -> (r: usize)
    requires
        right_of(*i as int) <= usize::MAX,
    ensures
        r == right_of(*i as int),
{
    2 * *i + 2
}

} // verus!
