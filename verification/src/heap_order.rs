//! The heap property of a sequence read as a binary tree, and why sifting an
//! element down restores it.
//!
//! The node at index `i` has its children at `2 * i + 1` and `2 * i + 2`. In a
//! heap every node may stand before its children: with `min_first` the least
//! element is at the root, without it the greatest.
use crate::order::{
    in_order, lemma_in_order_is_total, lemma_in_order_is_transitive, strictly_in_order, total_order,
};
use crate::sequence::swapped;
use vstd::prelude::*;

verus! {

/// Index of the left child of the node at `i`.
pub open spec fn left_of(i: int) -> int {
    2 * i + 1
}

/// Index of the right child of the node at `i`.
pub open spec fn right_of(i: int) -> int {
    2 * i + 2
}

/// Index of the parent of the node at `i`, for `i > 0`.
pub open spec fn parent_of(i: int) -> int {
    (i - 1) / 2
}

/// The node at `i` may stand before each of its children among the first `size` elements of `s`.
pub open spec fn node_ok<T: PartialOrd>(s: Seq<T>, i: int, size: int, min_first: bool) -> bool {
    &&& left_of(i) < size ==> in_order(s[i], s[left_of(i)], min_first)
    &&& right_of(i) < size ==> in_order(s[i], s[right_of(i)], min_first)
}

/// Every node at an index in `lo..size` may stand before its children.
pub open spec fn heap_from<T: PartialOrd>(s: Seq<T>, lo: int, size: int, min_first: bool) -> bool {
    forall|j: int| lo <= j < size ==> #[trigger] node_ok(s, j, size, min_first)
}

/// The first `size` elements of `s` form a binary heap.
pub open spec fn is_heap<T: PartialOrd>(s: Seq<T>, size: int, min_first: bool) -> bool {
    heap_from(s, 0, size, min_first)
}

/// The state in which the node at `i` can be sifted down: every other node
/// from `lo` on may stand before its children, and the parent of `i`, where it
/// is at `lo` or behind it, may stand before the children of `i`.
pub open spec fn sift_ready<T: PartialOrd>(s: Seq<T>, lo: int, size: int, i: int, min_first: bool) -> bool {
    &&& forall|j: int| lo <= j < size && j != i ==> #[trigger] node_ok(s, j, size, min_first)
    &&& i > 0 && parent_of(i) >= lo ==> {
        &&& left_of(i) < size ==> in_order(s[parent_of(i)], s[left_of(i)], min_first)
        &&& right_of(i) < size ==> in_order(s[parent_of(i)], s[right_of(i)], min_first)
    }
}

/// Where all nodes behind `i` are in place, the node at `i` can be sifted down.
pub proof fn lemma_heap_behind_is_sift_ready<T: PartialOrd>(s: Seq<T>, size: int, i: int, min_first: bool)
    requires
        0 <= i,
        heap_from(s, i + 1, size, min_first),
    ensures
        sift_ready(s, i, size, i, min_first),
{
}

/// Nodes in the second half of the heap have no children, so they are in place.
pub proof fn lemma_leaves_are_heap<T: PartialOrd>(s: Seq<T>, lo: int, size: int, min_first: bool)
    requires
        0 <= size,
        lo >= size / 2,
    ensures
        heap_from(s, lo, size, min_first),
{
    assert forall|j: int| lo <= j < size implies #[trigger] node_ok(s, j, size, min_first) by {
        assert(left_of(j) >= size);
    }
}

/// What the choice between a node and its children establishes. The left child
/// is preferred to the node where it must stand before it, and the right child
/// to that choice where it must stand before it; what is chosen may then stand
/// before all three.
pub proof fn lemma_choice_is_first<T: PartialOrd>(
    s: Seq<T>,
    i: int,
    size: int,
    first: int,
    chosen: int,
    min_first: bool,
)
    requires
        total_order::<T>(),
        0 <= i,
        left_of(i) < size <= s.len(),
        first == (if strictly_in_order(s[left_of(i)], s[i], min_first) {
            left_of(i)
        } else {
            i
        }),
        chosen == (if right_of(i) < size && strictly_in_order(s[right_of(i)], s[first], min_first) {
            right_of(i)
        } else {
            first
        }),
    ensures
        chosen == i || chosen == left_of(i) || chosen == right_of(i),
        in_order(s[chosen], s[i], min_first),
        in_order(s[chosen], s[left_of(i)], min_first),
        right_of(i) < size ==> in_order(s[chosen], s[right_of(i)], min_first),
        chosen == i ==> node_ok(s, i, size, min_first),
{
    let l = left_of(i);
    let r = right_of(i);
    lemma_in_order_is_total(s[i], s[i], min_first);
    lemma_in_order_is_total(s[l], s[l], min_first);
    lemma_in_order_is_total(s[l], s[i], min_first);
    lemma_in_order_is_total(s[i], s[l], min_first);
    lemma_in_order_is_total(s[first], s[i], min_first);
    lemma_in_order_is_total(s[first], s[l], min_first);
    if r < size {
        lemma_in_order_is_total(s[r], s[r], min_first);
        lemma_in_order_is_total(s[r], s[first], min_first);
        lemma_in_order_is_total(s[first], s[r], min_first);
        if chosen == r {
            lemma_in_order_is_transitive(s[r], s[first], s[i], min_first);
            lemma_in_order_is_transitive(s[r], s[first], s[l], min_first);
        }
    }
}

/// One step of sifting down: the node at `i` changes places with its child at
/// `c`, which may stand before both the node and its own sibling. Afterwards
/// the node at `c` is the one that can be sifted down.
pub proof fn lemma_sift_step<T: PartialOrd>(
    s: Seq<T>,
    lo: int,
    size: int,
    i: int,
    c: int,
    min_first: bool,
)
    requires
        total_order::<T>(),
        0 <= lo <= i,
        c == left_of(i) || c == right_of(i),
        c < size <= s.len(),
        sift_ready(s, lo, size, i, min_first),
        in_order(s[c], s[i], min_first),
        left_of(i) < size ==> in_order(s[c], s[left_of(i)], min_first),
        right_of(i) < size ==> in_order(s[c], s[right_of(i)], min_first),
    ensures
        sift_ready(swapped(s, i, c), lo, size, c, min_first),
{
    let t = swapped(s, i, c);
    assert(node_ok(s, c, size, min_first));
    assert forall|j: int| lo <= j < size && j != c implies #[trigger] node_ok(t, j, size, min_first) by {
        if j == i {
            assert(t[i] == s[c]);
            if left_of(i) < size {
                if left_of(i) == c {
                    assert(t[left_of(i)] == s[i]);
                } else {
                    assert(t[left_of(i)] == s[left_of(i)]);
                }
            }
            if right_of(i) < size {
                if right_of(i) == c {
                    assert(t[right_of(i)] == s[i]);
                } else {
                    assert(t[right_of(i)] == s[right_of(i)]);
                }
            }
        } else {
            assert(node_ok(s, j, size, min_first));
            assert(t[j] == s[j]);
            if i > 0 && j == parent_of(i) {
                if left_of(j) < size {
                    if left_of(j) == i {
                        assert(t[left_of(j)] == s[c]);
                    } else {
                        assert(t[left_of(j)] == s[left_of(j)]);
                    }
                }
                if right_of(j) < size {
                    if right_of(j) == i {
                        assert(t[right_of(j)] == s[c]);
                    } else {
                        assert(t[right_of(j)] == s[right_of(j)]);
                    }
                }
            } else {
                if left_of(j) < size {
                    assert(left_of(j) != i && left_of(j) != c);
                    assert(t[left_of(j)] == s[left_of(j)]);
                }
                if right_of(j) < size {
                    assert(right_of(j) != i && right_of(j) != c);
                    assert(t[right_of(j)] == s[right_of(j)]);
                }
            }
        }
    }
    assert(parent_of(c) == i);
    if left_of(c) < size {
        assert(t[left_of(c)] == s[left_of(c)]);
    }
    if right_of(c) < size {
        assert(t[right_of(c)] == s[right_of(c)]);
    }
}

/// The root of a heap may stand before every element of the heap.
pub proof fn lemma_root_is_first<T: PartialOrd>(s: Seq<T>, size: int, k: int, min_first: bool)
    requires
        total_order::<T>(),
        is_heap(s, size, min_first),
        0 <= k < size,
    ensures
        in_order(s[0], s[k], min_first),
    decreases k,
{
    if k == 0 {
        lemma_in_order_is_total(s[0], s[0], min_first);
    } else {
        let p = parent_of(k);
        lemma_root_is_first(s, size, p, min_first);
        assert(node_ok(s, p, size, min_first));
        assert(k == left_of(p) || k == right_of(p));
        lemma_in_order_is_transitive(s[0], s[p], s[k], min_first);
    }
}

/// Taking the last element out of a heap, by exchanging it with the root,
/// leaves every node but the root in place among the elements that remain.
pub proof fn lemma_heap_without_last<T: PartialOrd>(s: Seq<T>, size: int, min_first: bool)
    requires
        is_heap(s, size, min_first),
        1 <= size <= s.len(),
    ensures
        heap_from(swapped(s, 0, size - 1), 1, size - 1, min_first),
{
    let t = swapped(s, 0, size - 1);
    assert forall|j: int| 1 <= j < size - 1 implies #[trigger] node_ok(t, j, size - 1, min_first) by {
        assert(node_ok(s, j, size, min_first));
    }
}

} // verus!
