//! Insertion sort.
use crate::order::{
    in_order, lemma_in_order_is_total, lemma_in_order_is_transitive, sorted, sorted_range,
    strictly_in_order, total_order,
};
use crate::sequence::{lemma_swap_keeps_elements, swapped};
use vstd::prelude::*;

verus! {

/// The state of an insertion: the element that started at `i` has moved down
/// to `j`. What is before it is sorted, what is from it on up to `i` is sorted,
/// and the elements before it may stand before those behind it.
spec fn inserting<T: PartialOrd>(s: Seq<T>, j: int, i: int, asc: bool) -> bool {
    &&& sorted_range(s, 0, j, asc)
    &&& sorted_range(s, j, i + 1, asc)
    &&& forall|x: int, y: int| 0 <= x < j < y <= i ==> in_order(#[trigger] s[x], #[trigger] s[y], asc)
}

/// Moving the element one place further down keeps the insertion going,
/// where it must stand before the element it changes places with.
proof fn lemma_insertion_moves<T: PartialOrd>(s: Seq<T>, j: int, i: int, asc: bool)
    requires
        total_order::<T>(),
        0 < j <= i < s.len(),
        inserting(s, j, i, asc),
        strictly_in_order(s[j], s[j - 1], asc),
    ensures
        inserting(swapped(s, j - 1, j), j - 1, i, asc),
{
    let t = swapped(s, j - 1, j);
    lemma_in_order_is_total(s[j], s[j - 1], asc);
    assert forall|x: int, y: int| 0 <= x < y < j - 1 implies in_order(
        #[trigger] t[x],
        #[trigger] t[y],
        asc,
    ) by {
        assert(in_order(s[x], s[y], asc));
    }
    assert forall|x: int, y: int| j - 1 <= x < y < i + 1 implies in_order(
        #[trigger] t[x],
        #[trigger] t[y],
        asc,
    ) by {
        if x == j - 1 {
            if y > j {
                assert(in_order(s[j], s[y], asc));
            }
        } else if x == j {
            assert(in_order(s[j - 1], s[y], asc));
        } else {
            assert(in_order(s[x], s[y], asc));
        }
    }
    assert forall|x: int, y: int| 0 <= x < j - 1 < y <= i implies in_order(
        #[trigger] t[x],
        #[trigger] t[y],
        asc,
    ) by {
        if y == j {
            assert(in_order(s[x], s[j - 1], asc));
        } else {
            assert(in_order(s[x], s[y], asc));
        }
    }
}

/// The insertion is over where the element has reached the front or may stand
/// behind its neighbour: the elements up to `i` are sorted then.
proof fn lemma_insertion_ends<T: PartialOrd>(s: Seq<T>, j: int, i: int, asc: bool)
    requires
        total_order::<T>(),
        0 <= j <= i < s.len(),
        inserting(s, j, i, asc),
        j > 0 ==> !strictly_in_order(s[j], s[j - 1], asc),
    ensures
        sorted_range(s, 0, i + 1, asc),
{
    assert forall|x: int, y: int| 0 <= x < y < i + 1 implies in_order(
        #[trigger] s[x],
        #[trigger] s[y],
        asc,
    ) by {
        if y < j {
            assert(in_order(s[x], s[y], asc));
        } else if x >= j {
            assert(in_order(s[x], s[y], asc));
        } else if y > j {
            assert(in_order(s[x], s[y], asc));
        } else {
            lemma_in_order_is_total(s[j - 1], s[j], asc);
            if x < j - 1 {
                assert(in_order(s[x], s[j - 1], asc));
                lemma_in_order_is_transitive(s[x], s[j - 1], s[j], asc);
            }
        }
    }
}

/// Sorts `data` with insertion sort: ascending when `asc` holds, descending otherwise.
///
/// The elements are kept, each as often. Where the element type is totally
/// ordered, the result is sorted in the direction asked for.
pub fn insertion_sort<T>(data: &mut [T], asc: bool) where T: PartialOrd
    ensures
        final(data)@.len() == old(data)@.len(),
        final(data)@.to_multiset() == old(data)@.to_multiset(),
        total_order::<T>() ==> sorted(final(data)@, asc),
{
    let n: usize = data.len();
    let mut i: usize = 1;
    while i < n
        invariant
            1 <= i,
            i <= n || n == 0,
            n == data@.len(),
            data@.len() == old(data)@.len(),
            data@.to_multiset() == old(data)@.to_multiset(),
            total_order::<T>() ==> sorted_range(data@, 0, i as int, asc),
        decreases n - i,
    {
        let mut j: usize = i;
        if asc {
            while j > 0 && data[j - 1] > data[j]
                invariant
                    j <= i < n,
                    n == data@.len(),
                    data@.len() == old(data)@.len(),
                    data@.to_multiset() == old(data)@.to_multiset(),
                    asc,
                    total_order::<T>() ==> inserting(data@, j as int, i as int, asc),
                decreases j,
            {
                proof {
                    lemma_swap_keeps_elements(data@, j - 1, j as int);
                    if total_order::<T>() {
                        lemma_in_order_is_total(data@[j as int], data@[j - 1], asc);
                        lemma_insertion_moves(data@, j as int, i as int, asc);
                    }
                }
                data.swap(j - 1, j);
                j = j - 1;
            }
        } else {
            while j > 0 && data[j - 1] < data[j]
                invariant
                    j <= i < n,
                    n == data@.len(),
                    data@.len() == old(data)@.len(),
                    data@.to_multiset() == old(data)@.to_multiset(),
                    !asc,
                    total_order::<T>() ==> inserting(data@, j as int, i as int, asc),
                decreases j,
            {
                proof {
                    lemma_swap_keeps_elements(data@, j - 1, j as int);
                    if total_order::<T>() {
                        lemma_in_order_is_total(data@[j as int], data@[j - 1], asc);
                        lemma_insertion_moves(data@, j as int, i as int, asc);
                    }
                }
                data.swap(j - 1, j);
                j = j - 1;
            }
        }
        proof {
            if total_order::<T>() {
                if j > 0 {
                    lemma_in_order_is_total(data@[j as int], data@[j - 1], asc);
                }
                lemma_insertion_ends(data@, j as int, i as int, asc);
            }
        }
        i = i + 1;
    }
}

} // verus!
