//! Facts about sequences that the containers and the sorting algorithms rest on:
//! what a swap of two elements does, and which rearrangements keep the elements.
use vstd::prelude::*;
use vstd::seq_lib::{lemma_multiset_commutative, to_multiset_contains, to_multiset_update};

verus! {

/// What `<[T]>::swap` of the standard library does: it exchanges the elements at
/// the indices `a` and `b`, and leaves every other element alone. Outside the
/// slice's bounds it panics, so both indices are required to be inside them.
pub assume_specification<Element>[ <[Element]>::swap ](slice: &mut [Element], a: usize, b: usize)
    requires
        a < old(slice)@.len(),
        b < old(slice)@.len(),
    ensures
        final(slice)@ == old(slice)@.update(a as int, old(slice)@[b as int]).update(
            b as int,
            old(slice)@[a as int],
        ),
;

/// `s` with the elements at `i` and `j` exchanged.
pub open spec fn swapped<T>(s: Seq<T>, i: int, j: int) -> Seq<T> {
    s.update(i, s[j]).update(j, s[i])
}

/// `before` and `after` agree everywhere but, possibly, at the indices in `lo..hi`.
pub open spec fn same_outside<T>(before: Seq<T>, after: Seq<T>, lo: int, hi: int) -> bool {
    &&& after.len() == before.len()
    &&& forall|k: int| 0 <= k < before.len() && !(lo <= k < hi) ==> #[trigger] after[k] == before[k]
}

/// `after` holds, at the indices in `lo..hi`, the elements that `before` holds
/// there, each as often, and is `before` elsewhere.
pub open spec fn rearranged_within<T>(before: Seq<T>, after: Seq<T>, lo: int, hi: int) -> bool {
    &&& same_outside(before, after, lo, hi)
    &&& after.subrange(lo, hi).to_multiset() == before.subrange(lo, hi).to_multiset()
}

/// A swap keeps the elements of a sequence, each as often.
pub proof fn lemma_swap_keeps_elements<T>(s: Seq<T>, i: int, j: int)
    requires
        0 <= i < s.len(),
        0 <= j < s.len(),
    ensures
        swapped(s, i, j).len() == s.len(),
        swapped(s, i, j).to_multiset() == s.to_multiset(),
{
    broadcast use vstd::multiset::group_multiset_axioms;
    let mid = s.update(i, s[j]);
    to_multiset_update(s, i, s[j]);
    to_multiset_update(mid, j, s[i]);
    to_multiset_contains(s, s[i]);
    to_multiset_contains(s, s[j]);
    assert(s.contains(s[i]));
    assert(s.contains(s[j]));
    assert(mid[j] == s[j]);
    assert(swapped(s, i, j).to_multiset() =~= s.to_multiset());
}

/// A swap of two elements inside `lo..hi` rearranges the sequence within that range.
pub proof fn lemma_swap_rearranges_within<T>(s: Seq<T>, i: int, j: int, lo: int, hi: int)
    requires
        0 <= lo <= i < hi <= s.len(),
        lo <= j < hi,
    ensures
        rearranged_within(s, swapped(s, i, j), lo, hi),
{
    let t = swapped(s, i, j);
    lemma_swap_keeps_elements(s.subrange(lo, hi), i - lo, j - lo);
    assert(t.subrange(lo, hi) =~= swapped(s.subrange(lo, hi), i - lo, j - lo));
}

/// Rearranging within a range twice in a row is rearranging within it once.
pub proof fn lemma_rearranged_within_chains<T>(a: Seq<T>, b: Seq<T>, c: Seq<T>, lo: int, hi: int)
    requires
        rearranged_within(a, b, lo, hi),
        rearranged_within(b, c, lo, hi),
    ensures
        rearranged_within(a, c, lo, hi),
{
}

/// What is rearranged within a range is rearranged within any range around it.
pub proof fn lemma_rearranged_within_widens<T>(
    a: Seq<T>,
    b: Seq<T>,
    lo: int,
    hi: int,
    wide_lo: int,
    wide_hi: int,
)
    requires
        rearranged_within(a, b, lo, hi),
        0 <= wide_lo <= lo <= hi <= wide_hi <= a.len(),
    ensures
        rearranged_within(a, b, wide_lo, wide_hi),
{
    let a1 = a.subrange(wide_lo, lo);
    let a2 = a.subrange(lo, hi);
    let a3 = a.subrange(hi, wide_hi);
    let b1 = b.subrange(wide_lo, lo);
    let b2 = b.subrange(lo, hi);
    let b3 = b.subrange(hi, wide_hi);
    assert(a1 =~= b1);
    assert(a3 =~= b3);
    assert(a.subrange(wide_lo, wide_hi) =~= (a1 + a2) + a3);
    assert(b.subrange(wide_lo, wide_hi) =~= (b1 + b2) + b3);
    lemma_multiset_commutative(a1, a2);
    lemma_multiset_commutative(a1 + a2, a3);
    lemma_multiset_commutative(b1, b2);
    lemma_multiset_commutative(b1 + b2, b3);
}

/// Every element found in a rearranged range was in that range before.
pub proof fn lemma_rearranged_element_origin<T>(a: Seq<T>, b: Seq<T>, lo: int, hi: int, x: int) -> (k: int)
    requires
        rearranged_within(a, b, lo, hi),
        0 <= lo <= x < hi <= a.len(),
    ensures
        lo <= k < hi,
        a[k] == b[x],
{
    let before = a.subrange(lo, hi);
    let after = b.subrange(lo, hi);
    assert(after[x - lo] == b[x]);
    assert(after.contains(b[x]));
    to_multiset_contains(after, b[x]);
    to_multiset_contains(before, b[x]);
    assert(before.contains(b[x]));
    let at = choose|at: int| 0 <= at < before.len() && before[at] == b[x];
    lo + at
}

/// A sequence rearranged within the whole of itself keeps its elements, each as often.
pub proof fn lemma_rearranged_within_whole<T>(a: Seq<T>, b: Seq<T>, lo: int, hi: int)
    requires
        rearranged_within(a, b, lo, hi),
        0 <= lo <= hi <= a.len(),
    ensures
        b.to_multiset() == a.to_multiset(),
{
    lemma_rearranged_within_widens(a, b, lo, hi, 0, a.len() as int);
    assert(a.subrange(0, a.len() as int) =~= a);
    assert(b.subrange(0, b.len() as int) =~= b);
}

} // verus!
