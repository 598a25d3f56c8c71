//! Bubble sort.
use crate::order::{
    in_order, lemma_in_order_is_total, lemma_in_order_is_transitive, sorted, sorted_range,
    strictly_in_order, total_order,
};
use crate::sequence::{lemma_swap_keeps_elements, swapped};
use vstd::prelude::*;

verus! {

/// The first `i` elements of `s` are in their final places: they are sorted,
/// and each may stand before every element behind them.
spec fn settled<T: PartialOrd>(s: Seq<T>, i: int, asc: bool) -> bool {
    &&& sorted_range(s, 0, i, asc)
    &&& forall|x: int, y: int|
        0 <= x < i <= y < s.len() ==> in_order(#[trigger] s[x], #[trigger] s[y], asc)
}

/// The element at `j` may stand before every element behind it.
spec fn leads<T: PartialOrd>(s: Seq<T>, j: int, asc: bool) -> bool {
    forall|y: int| j < y < s.len() ==> in_order(s[j], #[trigger] s[y], asc)
}

/// One step of a pass: the leading element at `j` is compared with the one
/// before it and changes places with it where it must stand before it.
/// Either way the element at `j - 1` leads afterwards, and the elements
/// settled before stay settled.
proof fn lemma_bubble_rises<T: PartialOrd>(s: Seq<T>, i: int, j: int, asc: bool, swap: bool)
    requires
        total_order::<T>(),
        0 <= i < j < s.len(),
        settled(s, i, asc),
        leads(s, j, asc),
        swap == strictly_in_order(s[j], s[j - 1], asc),
    ensures
        settled(if swap { swapped(s, j, j - 1) } else { s }, i, asc),
        leads(if swap { swapped(s, j, j - 1) } else { s }, j - 1, asc),
{
    let t = if swap { swapped(s, j, j - 1) } else { s };
    lemma_in_order_is_total(s[j], s[j - 1], asc);
    lemma_in_order_is_total(s[j - 1], s[j], asc);
    assert forall|x: int, y: int| 0 <= x < y < i implies in_order(#[trigger] t[x], #[trigger] t[y], asc) by {
        assert(in_order(s[x], s[y], asc));
    }
    assert forall|x: int, y: int| 0 <= x < i <= y < t.len() implies in_order(
        #[trigger] t[x],
        #[trigger] t[y],
        asc,
    ) by {
        assert(t[x] == s[x]);
        if swap && y == j {
            assert(in_order(s[x], s[j - 1], asc));
        } else if swap && y == j - 1 {
            assert(in_order(s[x], s[j], asc));
        } else {
            assert(in_order(s[x], s[y], asc));
        }
    }
    assert forall|y: int| j - 1 < y < t.len() implies in_order(t[j - 1], #[trigger] t[y], asc) by {
        if swap {
            if y > j {
                assert(in_order(s[j], s[y], asc));
            }
        } else {
            if y > j {
                assert(in_order(s[j], s[y], asc));
                lemma_in_order_is_transitive(s[j - 1], s[j], s[y], asc);
            }
        }
    }
}

/// Once the leading element has reached `i`, one more element is settled.
proof fn lemma_pass_settles<T: PartialOrd>(s: Seq<T>, i: int, asc: bool)
    requires
        total_order::<T>(),
        0 <= i < s.len(),
        settled(s, i, asc),
        leads(s, i, asc),
    ensures
        settled(s, i + 1, asc),
{
    assert forall|x: int, y: int| 0 <= x < y < i + 1 implies in_order(
        #[trigger] s[x],
        #[trigger] s[y],
        asc,
    ) by {
        assert(in_order(s[x], s[y], asc));
    }
    assert forall|x: int, y: int| 0 <= x < i + 1 <= y < s.len() implies in_order(
        #[trigger] s[x],
        #[trigger] s[y],
        asc,
    ) by {
        if x < i {
            assert(in_order(s[x], s[y], asc));
        }
    }
}

/// Sorts `data` with bubble sort: ascending when `asc` holds, descending otherwise.
///
/// The elements are kept, each as often. Where the element type is totally
/// ordered, the result is sorted in the direction asked for.
pub fn bubble_sort<T>(data: &mut [T], asc: bool) where T: PartialOrd
    ensures
        final(data)@.len() == old(data)@.len(),
        final(data)@.to_multiset() == old(data)@.to_multiset(),
        total_order::<T>() ==> sorted(final(data)@, asc),
{
    let n: usize = data.len();
    let mut i: usize = 0;
    while i < n
        invariant
            i <= n,
            n == data@.len(),
            data@.len() == old(data)@.len(),
            data@.to_multiset() == old(data)@.to_multiset(),
            total_order::<T>() ==> settled(data@, i as int, asc),
        decreases n - i,
    {
        let mut j: usize = n - 1;
        while j > i
            invariant
                i <= j < n,
                n == data@.len(),
                data@.len() == old(data)@.len(),
                data@.to_multiset() == old(data)@.to_multiset(),
                total_order::<T>() ==> settled(data@, i as int, asc),
                total_order::<T>() ==> leads(data@, j as int, asc),
            decreases j,
        {
            let ghost before = data@;
            let ghost mut swap = false;
            if asc && data[j] < data[j - 1] {
                data.swap(j, j - 1);
                proof {
                    swap = true;
                }
            } else if !asc && data[j] > data[j - 1] {
                data.swap(j, j - 1);
                proof {
                    swap = true;
                }
            }
            proof {
                if swap {
                    lemma_swap_keeps_elements(before, j as int, j - 1);
                }
                if total_order::<T>() {
                    lemma_bubble_rises(before, i as int, j as int, asc, swap);
                }
            }
            j = j - 1;
        }
        proof {
            if total_order::<T>() {
                lemma_pass_settles(data@, i as int, asc);
            }
        }
        i = i + 1;
    }
}

} // verus!
