//! Merge sort on an inclusive range of a slice.
use crate::order::{in_order, lemma_in_order_is_total, lemma_in_order_is_transitive, sorted, sorted_range, total_order};
use crate::sequence::{lemma_rearranged_within_widens, rearranged_within, same_outside};
use vstd::prelude::*;
use vstd::seq_lib::{lemma_multiset_commutative, to_multiset_build};
use vstd::slice::{slice_subrange, slice_to_vec};

verus! {

/// The elements of `data` at `p..k` are the first `i` of `left` and the first `j` of `right`.
spec fn merged_prefix<T>(data: Seq<T>, p: int, k: int, left: Seq<T>, i: int, right: Seq<T>, j: int) -> bool {
    data.subrange(p, k).to_multiset() == left.take(i).to_multiset().add(right.take(j).to_multiset())
}

/// The elements of `data` at `p..k` are sorted, and each may stand before
/// whatever is left of `left` from `i` on and of `right` from `j` on.
spec fn ordered_prefix<T: PartialOrd>(
    data: Seq<T>,
    p: int,
    k: int,
    left: Seq<T>,
    i: int,
    right: Seq<T>,
    j: int,
    asc: bool,
) -> bool {
    &&& sorted_range(data, p, k, asc)
    &&& forall|x: int, y: int|
        p <= x < k && i <= y < left.len() ==> in_order(#[trigger] data[x], #[trigger] left[y], asc)
    &&& forall|x: int, y: int|
        p <= x < k && j <= y < right.len() ==> in_order(#[trigger] data[x], #[trigger] right[y], asc)
}

/// Writing the next element of `left` behind a merged prefix gives a merged prefix.
proof fn lemma_merged_prefix_takes_left<T>(
    data: Seq<T>,
    p: int,
    k: int,
    left: Seq<T>,
    i: int,
    right: Seq<T>,
    j: int,
)
    requires
        0 <= p <= k < data.len(),
        0 <= i < left.len(),
        0 <= j <= right.len(),
        merged_prefix(data, p, k, left, i, right, j),
    ensures
        merged_prefix(data.update(k, left[i]), p, k + 1, left, i + 1, right, j),
{
    let after = data.update(k, left[i]);
    assert(after.subrange(p, k + 1) =~= data.subrange(p, k).push(left[i]));
    assert(left.take(i + 1) =~= left.take(i).push(left[i]));
    to_multiset_build(data.subrange(p, k), left[i]);
    to_multiset_build(left.take(i), left[i]);
    assert(after.subrange(p, k + 1).to_multiset() =~= left.take(i + 1).to_multiset().add(
        right.take(j).to_multiset(),
    ));
}

/// Writing the next element of `right` behind a merged prefix gives a merged prefix.
proof fn lemma_merged_prefix_takes_right<T>(
    data: Seq<T>,
    p: int,
    k: int,
    left: Seq<T>,
    i: int,
    right: Seq<T>,
    j: int,
)
    requires
        0 <= p <= k < data.len(),
        0 <= i <= left.len(),
        0 <= j < right.len(),
        merged_prefix(data, p, k, left, i, right, j),
    ensures
        merged_prefix(data.update(k, right[j]), p, k + 1, left, i, right, j + 1),
{
    let after = data.update(k, right[j]);
    assert(after.subrange(p, k + 1) =~= data.subrange(p, k).push(right[j]));
    assert(right.take(j + 1) =~= right.take(j).push(right[j]));
    to_multiset_build(data.subrange(p, k), right[j]);
    to_multiset_build(right.take(j), right[j]);
    assert(after.subrange(p, k + 1).to_multiset() =~= left.take(i).to_multiset().add(
        right.take(j + 1).to_multiset(),
    ));
}

/// Writing the next element of `left` behind an ordered prefix keeps it ordered,
/// where that element may stand before what is left of `right`.
proof fn lemma_ordered_prefix_takes_left<T: PartialOrd>(
    data: Seq<T>,
    p: int,
    k: int,
    left: Seq<T>,
    i: int,
    right: Seq<T>,
    j: int,
    asc: bool,
)
    requires
        total_order::<T>(),
        sorted(left, asc),
        sorted(right, asc),
        0 <= p <= k < data.len(),
        0 <= i < left.len(),
        0 <= j <= right.len(),
        ordered_prefix(data, p, k, left, i, right, j, asc),
        j < right.len() ==> in_order(left[i], right[j], asc),
    ensures
        ordered_prefix(data.update(k, left[i]), p, k + 1, left, i + 1, right, j, asc),
{
    let after = data.update(k, left[i]);
    assert forall|x: int, y: int| p <= x < y < k + 1 implies in_order(
        #[trigger] after[x],
        #[trigger] after[y],
        asc,
    ) by {
        if y < k {
            assert(in_order(data[x], data[y], asc));
        } else {
            assert(in_order(data[x], left[i], asc));
        }
    }
    assert forall|x: int, y: int| p <= x < k + 1 && i + 1 <= y < left.len() implies in_order(
        #[trigger] after[x],
        #[trigger] left[y],
        asc,
    ) by {
        if x < k {
            assert(in_order(data[x], left[y], asc));
        } else {
            assert(in_order(left[i], left[y], asc));
        }
    }
    assert forall|x: int, y: int| p <= x < k + 1 && j <= y < right.len() implies in_order(
        #[trigger] after[x],
        #[trigger] right[y],
        asc,
    ) by {
        if x < k {
            assert(in_order(data[x], right[y], asc));
        } else if y == j {
        } else {
            assert(in_order(right[j], right[y], asc));
            lemma_in_order_is_transitive(left[i], right[j], right[y], asc);
        }
    }
}

/// Writing the next element of `right` behind an ordered prefix keeps it ordered,
/// where that element may stand before what is left of `left`.
proof fn lemma_ordered_prefix_takes_right<T: PartialOrd>(
    data: Seq<T>,
    p: int,
    k: int,
    left: Seq<T>,
    i: int,
    right: Seq<T>,
    j: int,
    asc: bool,
)
    requires
        total_order::<T>(),
        sorted(left, asc),
        sorted(right, asc),
        0 <= p <= k < data.len(),
        0 <= i <= left.len(),
        0 <= j < right.len(),
        ordered_prefix(data, p, k, left, i, right, j, asc),
        i < left.len() ==> in_order(right[j], left[i], asc),
    ensures
        ordered_prefix(data.update(k, right[j]), p, k + 1, left, i, right, j + 1, asc),
{
    let after = data.update(k, right[j]);
    assert forall|x: int, y: int| p <= x < y < k + 1 implies in_order(
        #[trigger] after[x],
        #[trigger] after[y],
        asc,
    ) by {
        if y < k {
            assert(in_order(data[x], data[y], asc));
        } else {
            assert(in_order(data[x], right[j], asc));
        }
    }
    assert forall|x: int, y: int| p <= x < k + 1 && j + 1 <= y < right.len() implies in_order(
        #[trigger] after[x],
        #[trigger] right[y],
        asc,
    ) by {
        if x < k {
            assert(in_order(data[x], right[y], asc));
        } else {
            assert(in_order(right[j], right[y], asc));
        }
    }
    assert forall|x: int, y: int| p <= x < k + 1 && i <= y < left.len() implies in_order(
        #[trigger] after[x],
        #[trigger] left[y],
        asc,
    ) by {
        if x < k {
            assert(in_order(data[x], left[y], asc));
        } else if y == i {
        } else {
            assert(in_order(left[i], left[y], asc));
            lemma_in_order_is_transitive(right[j], left[i], left[y], asc);
        }
    }
}

/// Merges the two neighbouring runs `p..=q` and `q+1..=r` of `data` into one.
///
/// The elements at `p..=r` are kept, each as often, and nothing outside that
/// range is touched. Where the element type is totally ordered and both runs
/// were sorted in the direction `asc`, the whole of `p..=r` is sorted in that
/// direction afterwards.
pub fn merge<T>(data: &mut [T], p: usize, q: usize, r: usize, asc: bool) where T: PartialOrd + Copy
    requires
        p <= q < r < old(data)@.len(),
    ensures
        rearranged_within(old(data)@, final(data)@, p as int, r + 1),
        total_order::<T>() && sorted_range(old(data)@, p as int, q + 1, asc) && sorted_range(
            old(data)@,
            q + 1,
            r + 1,
            asc,
        ) ==> sorted_range(final(data)@, p as int, r + 1, asc),
{
    proof {
        vstd::slice::axiom_spec_len(data);
    }
    let left: Vec<T> = slice_to_vec(slice_subrange(data, p, q + 1));
    let right: Vec<T> = slice_to_vec(slice_subrange(data, q + 1, r + 1));
    let ghost runs_sorted = total_order::<T>() && sorted_range(old(data)@, p as int, q + 1, asc)
        && sorted_range(old(data)@, q + 1, r + 1, asc);

    let mut i: usize = 0;
    let mut j: usize = 0;
    let mut k: usize = p;

    proof {
        assert(data@.subrange(p as int, k as int) =~= Seq::<T>::empty());
        assert(left@.take(0) =~= Seq::<T>::empty());
        assert(right@.take(0) =~= Seq::<T>::empty());
        assert(merged_prefix(data@, p as int, k as int, left@, 0, right@, 0)) by {
            assert(Seq::<T>::empty().to_multiset() =~= Seq::<T>::empty().to_multiset().add(
                Seq::<T>::empty().to_multiset(),
            )) by {
                broadcast use vstd::multiset::group_multiset_axioms;
                Seq::<T>::empty().to_multiset_ensures();
            }
        }
        if runs_sorted {
            assert(sorted(left@, asc));
            assert(sorted(right@, asc));
        }
    }

    while i < left.len() && j < right.len()
        invariant
            p <= q < r < data@.len(),
            data@.len() == old(data)@.len(),
            left@ == old(data)@.subrange(p as int, q + 1),
            right@ == old(data)@.subrange(q + 1, r + 1),
            i <= left@.len(),
            j <= right@.len(),
            k == p + i + j,
            same_outside(old(data)@, data@, p as int, r + 1),
            merged_prefix(data@, p as int, k as int, left@, i as int, right@, j as int),
            runs_sorted ==> total_order::<T>() && sorted(left@, asc) && sorted(right@, asc),
            runs_sorted ==> ordered_prefix(data@, p as int, k as int, left@, i as int, right@, j as int, asc),
        decreases left@.len() - i + right@.len() - j,
    {
        let ghost before = data@;
        if asc && left[i] <= right[j] {
            data[k] = left[i];
            proof {
                lemma_merged_prefix_takes_left(before, p as int, k as int, left@, i as int, right@, j as int);
                if runs_sorted {
                    lemma_ordered_prefix_takes_left(before, p as int, k as int, left@, i as int, right@, j as int, asc);
                }
            }
            i = i + 1;
        } else if !asc && left[i] >= right[j] {
            data[k] = left[i];
            proof {
                lemma_merged_prefix_takes_left(before, p as int, k as int, left@, i as int, right@, j as int);
                if runs_sorted {
                    lemma_ordered_prefix_takes_left(before, p as int, k as int, left@, i as int, right@, j as int, asc);
                }
            }
            i = i + 1;
        } else {
            data[k] = right[j];
            proof {
                lemma_merged_prefix_takes_right(before, p as int, k as int, left@, i as int, right@, j as int);
                if runs_sorted {
                    lemma_in_order_is_total(left@[i as int], right@[j as int], asc);
                    lemma_ordered_prefix_takes_right(before, p as int, k as int, left@, i as int, right@, j as int, asc);
                }
            }
            j = j + 1;
        }
        k = k + 1;
    }

    while i < left.len()
        invariant
            p <= q < r < data@.len(),
            data@.len() == old(data)@.len(),
            left@ == old(data)@.subrange(p as int, q + 1),
            right@ == old(data)@.subrange(q + 1, r + 1),
            i <= left@.len(),
            j <= right@.len(),
            k == p + i + j,
            same_outside(old(data)@, data@, p as int, r + 1),
            merged_prefix(data@, p as int, k as int, left@, i as int, right@, j as int),
            runs_sorted ==> total_order::<T>() && sorted(left@, asc) && sorted(right@, asc),
            runs_sorted ==> ordered_prefix(data@, p as int, k as int, left@, i as int, right@, j as int, asc),
            i < left@.len() ==> j == right@.len(),
        decreases left@.len() - i,
    {
        let ghost before = data@;
        data[k] = left[i];
        proof {
            lemma_merged_prefix_takes_left(before, p as int, k as int, left@, i as int, right@, j as int);
            if runs_sorted {
                lemma_ordered_prefix_takes_left(before, p as int, k as int, left@, i as int, right@, j as int, asc);
            }
        }
        i = i + 1;
        k = k + 1;
    }

    while j < right.len()
        invariant
            p <= q < r < data@.len(),
            data@.len() == old(data)@.len(),
            left@ == old(data)@.subrange(p as int, q + 1),
            right@ == old(data)@.subrange(q + 1, r + 1),
            i <= left@.len(),
            j <= right@.len(),
            k == p + i + j,
            same_outside(old(data)@, data@, p as int, r + 1),
            merged_prefix(data@, p as int, k as int, left@, i as int, right@, j as int),
            runs_sorted ==> total_order::<T>() && sorted(left@, asc) && sorted(right@, asc),
            runs_sorted ==> ordered_prefix(data@, p as int, k as int, left@, i as int, right@, j as int, asc),
            i == left@.len(),
        decreases right@.len() - j,
    {
        let ghost before = data@;
        data[k] = right[j];
        proof {
            lemma_merged_prefix_takes_right(before, p as int, k as int, left@, i as int, right@, j as int);
            if runs_sorted {
                lemma_ordered_prefix_takes_right(before, p as int, k as int, left@, i as int, right@, j as int, asc);
            }
        }
        j = j + 1;
        k = k + 1;
    }

    proof {
        assert(left@.take(left@.len() as int) =~= left@);
        assert(right@.take(right@.len() as int) =~= right@);
        assert(old(data)@.subrange(p as int, r + 1) =~= left@ + right@);
        lemma_multiset_commutative(left@, right@);
    }
}

/// Sorts the elements of `data` at the indices `p..=r` with merge sort.
///
/// The elements in that range are kept, each as often, and nothing outside it
/// is touched; where `p >= r` nothing is touched at all. Where the element
/// type is totally ordered, the range is sorted afterwards: ascending when
/// `asc` holds, descending otherwise.
pub fn merge_sort<T>(data: &mut [T], p: usize, r: usize, asc: bool) where T: PartialOrd + Copy
    requires
        p < r ==> r < old(data)@.len(),
    ensures
        p < r ==> rearranged_within(old(data)@, final(data)@, p as int, r + 1),
        p >= r ==> final(data)@ == old(data)@,
        total_order::<T>() ==> sorted_range(final(data)@, p as int, r + 1, asc),
    decreases r - p,
{
    if p >= r {
        return ;
    }
    let q: usize = p + (r - p) / 2;
    merge_sort(data, p, q, asc);
    let ghost first = data@;
    merge_sort(data, q + 1, r, asc);
    let ghost second = data@;
    merge(data, p, q, r, asc);
    proof {
        if p < q {
            lemma_rearranged_within_widens(old(data)@, first, p as int, q + 1, p as int, r + 1);
        }
        if q + 1 < r {
            lemma_rearranged_within_widens(first, second, q + 1, r + 1, p as int, r + 1);
        }
        if total_order::<T>() {
            assert(sorted_range(second, p as int, q + 1, asc)) by {
                assert forall|x: int, y: int| p <= x < y < q + 1 implies in_order(
                    #[trigger] second[x],
                    #[trigger] second[y],
                    asc,
                ) by {
                    assert(second[x] == first[x]);
                    assert(second[y] == first[y]);
                }
            }
        }
    }
}

} // verus!
