//! Quick sort, ascending, with the last element of a range as its pivot.
use crate::order::{in_order, lemma_in_order_is_total, lemma_in_order_is_transitive, sorted, sorted_range, total_order};
use crate::sequence::{
    lemma_rearranged_element_origin, lemma_rearranged_within_chains, lemma_rearranged_within_whole,
    lemma_rearranged_within_widens, lemma_swap_rearranges_within, rearranged_within, swapped,
};
use vstd::prelude::*;

verus! {

/// The elements of `s` at `lo..=hi` are split around the one at `q`: those
/// before it may stand before it, and it may stand before those behind it.
pub open spec fn split_around<T: PartialOrd>(s: Seq<T>, lo: int, q: int, hi: int) -> bool {
    &&& lo <= q <= hi
    &&& forall|k: int| lo <= k < q ==> in_order(#[trigger] s[k], s[q], true)
    &&& forall|k: int| q < k <= hi ==> in_order(s[q], #[trigger] s[k], true)
}

/// The state of a partition that has looked at the elements at `lo..j`: those
/// at `lo..i` may stand before the pivot, and the pivot must stand before
/// those at `i..j`.
pub open spec fn partitioning<T: PartialOrd>(s: Seq<T>, lo: int, i: int, j: int, pivot: T) -> bool {
    &&& lo <= i <= j
    &&& forall|k: int| lo <= k < i ==> in_order(#[trigger] s[k], pivot, true)
    &&& forall|k: int| i <= k < j ==> !in_order(#[trigger] s[k], pivot, true)
}

/// Looking at one more element keeps the partition going: an element that may
/// stand before the pivot changes places with the one at `i`.
pub proof fn lemma_partition_advances<T: PartialOrd>(s: Seq<T>, lo: int, i: int, j: int, pivot: T)
    requires
        0 <= lo,
        j < s.len(),
        partitioning(s, lo, i, j, pivot),
    ensures
        in_order(s[j], pivot, true) ==> partitioning(swapped(s, i, j), lo, i + 1, j + 1, pivot),
        !in_order(s[j], pivot, true) ==> partitioning(s, lo, i, j + 1, pivot),
{
    if in_order(s[j], pivot, true) {
        let t = swapped(s, i, j);
        assert forall|k: int| lo <= k < i + 1 implies in_order(#[trigger] t[k], pivot, true) by {
            if k < i {
                assert(t[k] == s[k]);
            }
        }
        assert forall|k: int| i + 1 <= k < j + 1 implies !in_order(#[trigger] t[k], pivot, true) by {
            if k < j {
                assert(t[k] == s[k]);
            } else {
                assert(t[k] == s[i]);
            }
        }
    }
}

/// Putting the pivot between the two parts ends the partition.
pub proof fn lemma_partition_ends<T: PartialOrd>(s: Seq<T>, lo: int, i: int, hi: int)
    requires
        total_order::<T>(),
        0 <= lo,
        hi < s.len(),
        partitioning(s, lo, i, hi, s[hi]),
    ensures
        split_around(swapped(s, i, hi), lo, i, hi),
{
    let t = swapped(s, i, hi);
    assert forall|k: int| lo <= k < i implies in_order(#[trigger] t[k], t[i], true) by {
        assert(t[k] == s[k]);
    }
    assert forall|k: int| i < k <= hi implies in_order(t[i], #[trigger] t[k], true) by {
        if k < hi {
            assert(t[k] == s[k]);
            lemma_in_order_is_total(s[k], s[hi], true);
        } else {
            assert(t[k] == s[i]);
            lemma_in_order_is_total(s[i], s[hi], true);
        }
    }
}

/// A range that is split around `q` stays split around it when the part
/// before `q` is rearranged within itself, and then the part behind it.
pub proof fn lemma_split_survives_rearranging<T: PartialOrd>(
    a: Seq<T>,
    b: Seq<T>,
    c: Seq<T>,
    lo: int,
    q: int,
    hi: int,
)
    requires
        0 <= lo <= q <= hi < a.len(),
        split_around(a, lo, q, hi),
        lo < q ==> rearranged_within(a, b, lo, q),
        lo >= q ==> b == a,
        q < hi ==> rearranged_within(b, c, q + 1, hi + 1),
        q >= hi ==> c == b,
    ensures
        split_around(c, lo, q, hi),
        rearranged_within(a, c, lo, hi + 1),
        forall|k: int| lo <= k < q ==> c[k] == b[k],
{
    assert(b[q] == a[q]);
    assert(c[q] == a[q]);
    assert forall|k: int| lo <= k < q implies in_order(#[trigger] c[k], c[q], true) by {
        assert(c[k] == b[k]);
        let from = lemma_rearranged_element_origin(a, b, lo, q, k);
        assert(in_order(a[from], a[q], true));
    }
    assert forall|k: int| q < k <= hi implies in_order(c[q], #[trigger] c[k], true) by {
        let from = lemma_rearranged_element_origin(b, c, q + 1, hi + 1, k);
        assert(b[from] == a[from]);
        assert(in_order(a[q], a[from], true));
    }
    assert(rearranged_within(a, b, lo, hi + 1)) by {
        if lo < q {
            lemma_rearranged_within_widens(a, b, lo, q, lo, hi + 1);
        }
    }
    assert(rearranged_within(b, c, lo, hi + 1)) by {
        if q < hi {
            lemma_rearranged_within_widens(b, c, q + 1, hi + 1, lo, hi + 1);
        }
    }
    lemma_rearranged_within_chains(a, b, c, lo, hi + 1);
}

/// A range split around `q` whose two parts are sorted is sorted.
pub proof fn lemma_sorted_around_pivot<T: PartialOrd>(s: Seq<T>, lo: int, q: int, hi: int)
    requires
        total_order::<T>(),
        0 <= lo <= q <= hi < s.len(),
        split_around(s, lo, q, hi),
        sorted_range(s, lo, q, true),
        sorted_range(s, q + 1, hi + 1, true),
    ensures
        sorted_range(s, lo, hi + 1, true),
{
    assert forall|x: int, y: int| lo <= x < y < hi + 1 implies in_order(
        #[trigger] s[x],
        #[trigger] s[y],
        true,
    ) by {
        if y < q {
            assert(in_order(s[x], s[y], true));
        } else if x > q {
            assert(in_order(s[x], s[y], true));
        } else if x < q && q < y {
            assert(in_order(s[x], s[q], true));
            assert(in_order(s[q], s[y], true));
            lemma_in_order_is_transitive(s[x], s[q], s[y], true);
        }
    }
}

/// Partitions the elements of `data` at `left..=right` around the last of
/// them, the pivot, and returns the index at which the pivot ends up.
///
/// The elements in that range are kept, each as often, and nothing outside it
/// is touched. Where the element type is totally ordered, the elements before
/// the returned index compare as less than or equal to the pivot, and those
/// behind it as greater.
pub fn partition<T>(data: &mut [T], left: isize, right: isize) -> (pivot_index: isize) where
    T: PartialOrd + Copy,

    requires
        0 <= left <= right < old(data)@.len(),
    ensures
        left <= pivot_index <= right,
        rearranged_within(old(data)@, final(data)@, left as int, right + 1),
        final(data)@[pivot_index as int] == old(data)@[right as int],
        total_order::<T>() ==> split_around(final(data)@, left as int, pivot_index as int, right as int),
{
    let x: T = data[right as usize];
    let mut i: isize = left;
    let mut j: isize = left;

    while j < right
        invariant
            0 <= left <= i <= j <= right < data@.len(),
            data@.len() == old(data)@.len(),
            rearranged_within(old(data)@, data@, left as int, right + 1),
            data@[right as int] == x,
            x == old(data)@[right as int],
            total_order::<T>() ==> partitioning(data@, left as int, i as int, j as int, x),
        decreases right - j,
    {
        let ghost before = data@;
        proof {
            if total_order::<T>() {
                lemma_partition_advances(before, left as int, i as int, j as int, x);
            }
        }
        if data[j as usize] <= x {
            data.swap(i as usize, j as usize);
            proof {
                lemma_swap_rearranges_within(before, i as int, j as int, left as int, right + 1);
                lemma_rearranged_within_chains(old(data)@, before, data@, left as int, right + 1);
            }
            i += 1;
        }
        j += 1;
    }

    proof {
        lemma_swap_rearranges_within(data@, i as int, right as int, left as int, right + 1);
        lemma_rearranged_within_chains(
            old(data)@,
            data@,
            swapped(data@, i as int, right as int),
            left as int,
            right + 1,
        );
        if total_order::<T>() {
            lemma_partition_ends(data@, left as int, i as int, right as int);
        }
    }
    data.swap(i as usize, right as usize);
    i
}

/// Sorts the elements of `data` at `left..=right` in ascending order.
///
/// The elements in that range are kept, each as often, and nothing outside it
/// is touched; where `left >= right` nothing is touched at all. Where the
/// element type is totally ordered, the range is sorted afterwards.
pub fn _quick_sort<T>(data: &mut [T], left: isize, right: isize) where T: PartialOrd + Copy
    requires
        left < right ==> 0 <= left && right < old(data)@.len() <= isize::MAX,
    ensures
        left < right ==> rearranged_within(old(data)@, final(data)@, left as int, right + 1),
        left >= right ==> final(data)@ == old(data)@,
        total_order::<T>() ==> sorted_range(final(data)@, left as int, right + 1, true),
    decreases
            (if left < right {
                right - left
            } else {
                0
            }),
{
    if left < right {
        let pivot_index: isize = partition(data, left, right);
        let ghost split = data@;
        _quick_sort(data, left, pivot_index - 1);
        let ghost front = data@;
        _quick_sort(data, pivot_index + 1, right);
        proof {
            lemma_quick_sort_joins(old(data)@, split, front, data@, left as int, pivot_index as int, right as int);
        }
    }
}

/// What a quick sort has done once both parts around the pivot are sorted:
/// the range is rearranged within itself and, in a total order, sorted.
pub proof fn lemma_quick_sort_joins<T: PartialOrd>(
    start: Seq<T>,
    split: Seq<T>,
    front: Seq<T>,
    end: Seq<T>,
    lo: int,
    q: int,
    hi: int,
)
    requires
        0 <= lo <= q <= hi < start.len(),
        rearranged_within(start, split, lo, hi + 1),
        total_order::<T>() ==> split_around(split, lo, q, hi),
        lo < q - 1 ==> rearranged_within(split, front, lo, q),
        lo >= q - 1 ==> front == split,
        q + 1 < hi ==> rearranged_within(front, end, q + 1, hi + 1),
        q + 1 >= hi ==> end == front,
        total_order::<T>() ==> sorted_range(front, lo, q, true),
        total_order::<T>() ==> sorted_range(end, q + 1, hi + 1, true),
    ensures
        rearranged_within(start, end, lo, hi + 1),
        total_order::<T>() ==> sorted_range(end, lo, hi + 1, true),
{
    assert(rearranged_within(split, front, lo, hi + 1)) by {
        if lo < q - 1 {
            lemma_rearranged_within_widens(split, front, lo, q, lo, hi + 1);
        }
    }
    assert(rearranged_within(front, end, lo, hi + 1)) by {
        if q + 1 < hi {
            lemma_rearranged_within_widens(front, end, q + 1, hi + 1, lo, hi + 1);
        }
    }
    lemma_rearranged_within_chains(start, split, front, lo, hi + 1);
    lemma_rearranged_within_chains(start, front, end, lo, hi + 1);
    if total_order::<T>() {
        if lo < q && !(lo < q - 1) {
            assert(split.subrange(lo, q) =~= front.subrange(lo, q));
        }
        if q < hi && !(q + 1 < hi) {
            assert(front.subrange(q + 1, hi + 1) =~= end.subrange(q + 1, hi + 1));
        }
        lemma_split_survives_rearranging(split, front, end, lo, q, hi);
        assert(sorted_range(end, lo, q, true)) by {
            assert forall|x: int, y: int| lo <= x < y < q implies in_order(
                #[trigger] end[x],
                #[trigger] end[y],
                true,
            ) by {
                assert(end[x] == front[x]);
                assert(end[y] == front[y]);
            }
        }
        lemma_sorted_around_pivot(end, lo, q, hi);
    }
}

/// Sorts `data` in ascending order with quick sort.
///
/// The elements are kept, each as often. Where the element type is totally
/// ordered, the result is sorted.
pub fn quick_sort<T>(data: &mut [T]) where T: PartialOrd + Copy
    requires
        old(data)@.len() <= isize::MAX,
    ensures
        final(data)@.len() == old(data)@.len(),
        final(data)@.to_multiset() == old(data)@.to_multiset(),
        total_order::<T>() ==> sorted(final(data)@, true),
{
    let length: isize = data.len() as isize;
    _quick_sort(data, 0, length - 1);
    proof {
        if 0 < length - 1 {
            lemma_rearranged_within_whole(old(data)@, data@, 0, length as int);
        }
    }
}

} // verus!
