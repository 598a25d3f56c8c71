//! The comparison relations that the sorting and heap contracts are stated over.
//!
//! A type that is `PartialOrd` compares two values as less, equal, greater or
//! not at all. The relations below name these outcomes, and `total_order` says
//! when they form a total order that the executed comparisons follow.
use core::cmp::Ordering;
use vstd::prelude::*;
use vstd::std_specs::cmp::PartialOrdSpec;

verus! {

/// `a` compares as strictly less than `b`.
pub open spec fn below<T: PartialOrd>(a: T, b: T) -> bool {
    a.partial_cmp_spec(&b) == Some(Ordering::Less)
}

/// `a` compares as strictly greater than `b`.
pub open spec fn above<T: PartialOrd>(a: T, b: T) -> bool {
    a.partial_cmp_spec(&b) == Some(Ordering::Greater)
}

/// `a` compares as equal to `b`.
pub open spec fn level<T: PartialOrd>(a: T, b: T) -> bool {
    a.partial_cmp_spec(&b) == Some(Ordering::Equal)
}

/// `a` compares as less than or equal to `b`.
pub open spec fn at_most<T: PartialOrd>(a: T, b: T) -> bool {
    below(a, b) || level(a, b)
}

/// `a` compares as greater than or equal to `b`.
pub open spec fn at_least<T: PartialOrd>(a: T, b: T) -> bool {
    above(a, b) || level(a, b)
}

/// The operators `<`, `<=`, `>` and `>=` of `T` return what the relations above say.
pub open spec fn operators_follow_relations<T: PartialOrd>() -> bool {
    T::obeys_partial_cmp_spec()
}

/// The comparison of `T` is a total order that its operators follow: any two
/// values are comparable, less and greater mirror each other, equality is
/// symmetric, and less-or-equal is transitive.
pub open spec fn total_order<T: PartialOrd>() -> bool {
    &&& operators_follow_relations::<T>()
    &&& forall|a: T, b: T|
        #![trigger below(a, b)]
        #![trigger above(a, b)]
        #![trigger level(a, b)]
        below(a, b) || level(a, b) || above(a, b)
    &&& forall|a: T, b: T| #![trigger below(a, b)] #![trigger above(b, a)] below(a, b) <==> above(b, a)
    &&& forall|a: T, b: T| #![trigger level(a, b)] level(a, b) ==> level(b, a)
    &&& forall|a: T, b: T, c: T|
        #![trigger at_most(a, b), at_most(b, c)]
        at_most(a, b) && at_most(b, c) ==> at_most(a, c)
}

/// `a` may stand before `b` in a sequence sorted in the given direction:
/// ascending when `asc` holds, descending otherwise.
pub open spec fn in_order<T: PartialOrd>(a: T, b: T, asc: bool) -> bool {
    if asc {
        at_most(a, b)
    } else {
        at_least(a, b)
    }
}

/// `a` must stand before `b` in a sequence sorted in the given direction:
/// it compares as strictly less when `asc` holds, as strictly greater otherwise.
pub open spec fn strictly_in_order<T: PartialOrd>(a: T, b: T, asc: bool) -> bool {
    if asc {
        below(a, b)
    } else {
        above(a, b)
    }
}

/// Every element of `s` at an index in `lo..hi` may stand before every later one in that range.
pub open spec fn sorted_range<T: PartialOrd>(s: Seq<T>, lo: int, hi: int, asc: bool) -> bool {
    forall|i: int, j: int| lo <= i < j < hi ==> in_order(#[trigger] s[i], #[trigger] s[j], asc)
}

/// The whole of `s` is sorted in the given direction.
pub open spec fn sorted<T: PartialOrd>(s: Seq<T>, asc: bool) -> bool {
    sorted_range(s, 0, s.len() as int, asc)
}

/// In a total order, whatever is not out of order is in order, both ways round.
pub proof fn lemma_in_order_is_total<T: PartialOrd>(a: T, b: T, asc: bool)
    requires
        total_order::<T>(),
    ensures
        in_order(a, b, asc) || in_order(b, a, asc),
        in_order(a, b, asc) <==> !strictly_in_order(b, a, asc),
        strictly_in_order(a, b, asc) ==> in_order(a, b, asc),
        in_order(a, b, asc) <==> (if asc { at_most(a, b) } else { at_most(b, a) }),
        in_order(a, a, asc),
{
    assert(below(a, b) || level(a, b) || above(a, b));
    assert(below(b, a) || level(b, a) || above(b, a));
    assert(below(a, a) || level(a, a) || above(a, a));
    assert(below(a, b) <==> above(b, a));
    assert(below(b, a) <==> above(a, b));
    assert(below(a, a) <==> above(a, a));
}

/// In a total order, what is in order in one direction is in order in the
/// other direction when read from the far end.
pub proof fn lemma_in_order_reverses<T: PartialOrd>(a: T, b: T, asc: bool)
    requires
        total_order::<T>(),
    ensures
        in_order(a, b, !asc) <==> in_order(b, a, asc),
{
    lemma_in_order_is_total(a, b, !asc);
    lemma_in_order_is_total(b, a, asc);
}

/// In a total order, being in order is transitive.
pub proof fn lemma_in_order_is_transitive<T: PartialOrd>(a: T, b: T, c: T, asc: bool)
    requires
        total_order::<T>(),
        in_order(a, b, asc),
        in_order(b, c, asc),
    ensures
        in_order(a, c, asc),
{
    lemma_in_order_is_total(a, b, asc);
    lemma_in_order_is_total(b, c, asc);
    lemma_in_order_is_total(a, c, asc);
    if asc {
        assert(at_most(a, b) && at_most(b, c));
    } else {
        assert(at_most(c, b) && at_most(b, a));
    }
}

/// The values of `u8` are totally ordered, and at most means `<=`.
pub proof fn lemma_total_order_u8()
    ensures
        total_order::<u8>(),
        forall|a: u8, b: u8| #[trigger] at_most(a, b) <==> a <= b,
        forall|a: u8, b: u8| #[trigger] at_least(a, b) <==> a >= b,
{
}

/// The values of `u16` are totally ordered, and at most means `<=`.
pub proof fn lemma_total_order_u16()
    ensures
        total_order::<u16>(),
        forall|a: u16, b: u16| #[trigger] at_most(a, b) <==> a <= b,
        forall|a: u16, b: u16| #[trigger] at_least(a, b) <==> a >= b,
{
}

/// The values of `u32` are totally ordered, and at most means `<=`.
pub proof fn lemma_total_order_u32()
    ensures
        total_order::<u32>(),
        forall|a: u32, b: u32| #[trigger] at_most(a, b) <==> a <= b,
        forall|a: u32, b: u32| #[trigger] at_least(a, b) <==> a >= b,
{
}

/// The values of `u64` are totally ordered, and at most means `<=`.
pub proof fn lemma_total_order_u64()
    ensures
        total_order::<u64>(),
        forall|a: u64, b: u64| #[trigger] at_most(a, b) <==> a <= b,
        forall|a: u64, b: u64| #[trigger] at_least(a, b) <==> a >= b,
{
}

/// The values of `u128` are totally ordered, and at most means `<=`.
pub proof fn lemma_total_order_u128()
    ensures
        total_order::<u128>(),
        forall|a: u128, b: u128| #[trigger] at_most(a, b) <==> a <= b,
        forall|a: u128, b: u128| #[trigger] at_least(a, b) <==> a >= b,
{
}

/// The values of `usize` are totally ordered, and at most means `<=`.
pub proof fn lemma_total_order_usize()
    ensures
        total_order::<usize>(),
        forall|a: usize, b: usize| #[trigger] at_most(a, b) <==> a <= b,
        forall|a: usize, b: usize| #[trigger] at_least(a, b) <==> a >= b,
{
}

/// The values of `i8` are totally ordered, and at most means `<=`.
pub proof fn lemma_total_order_i8()
    ensures
        total_order::<i8>(),
        forall|a: i8, b: i8| #[trigger] at_most(a, b) <==> a <= b,
        forall|a: i8, b: i8| #[trigger] at_least(a, b) <==> a >= b,
{
}

/// The values of `i16` are totally ordered, and at most means `<=`.
pub proof fn lemma_total_order_i16()
    ensures
        total_order::<i16>(),
        forall|a: i16, b: i16| #[trigger] at_most(a, b) <==> a <= b,
        forall|a: i16, b: i16| #[trigger] at_least(a, b) <==> a >= b,
{
}

/// The values of `i32` are totally ordered, and at most means `<=`.
pub proof fn lemma_total_order_i32()
    ensures
        total_order::<i32>(),
        forall|a: i32, b: i32| #[trigger] at_most(a, b) <==> a <= b,
        forall|a: i32, b: i32| #[trigger] at_least(a, b) <==> a >= b,
{
}

/// The values of `i64` are totally ordered, and at most means `<=`.
pub proof fn lemma_total_order_i64()
    ensures
        total_order::<i64>(),
        forall|a: i64, b: i64| #[trigger] at_most(a, b) <==> a <= b,
        forall|a: i64, b: i64| #[trigger] at_least(a, b) <==> a >= b,
{
}

/// The values of `i128` are totally ordered, and at most means `<=`.
pub proof fn lemma_total_order_i128()
    ensures
        total_order::<i128>(),
        forall|a: i128, b: i128| #[trigger] at_most(a, b) <==> a <= b,
        forall|a: i128, b: i128| #[trigger] at_least(a, b) <==> a >= b,
{
}

/// The values of `isize` are totally ordered, and at most means `<=`.
pub proof fn lemma_total_order_isize()
    ensures
        total_order::<isize>(),
        forall|a: isize, b: isize| #[trigger] at_most(a, b) <==> a <= b,
        forall|a: isize, b: isize| #[trigger] at_least(a, b) <==> a >= b,
{
}

} // verus!
