//! The numbers a matrix can be filled with: the primitive integer types, each
//! with its additive and its multiplicative identity.
//!
//! The identities are those of the `num_traits` crate.
use crate::sealed::Sealed;
use vstd::prelude::*;

verus! {

/// The additive and the multiplicative identity of a numeric type, as values
/// to reason about. It is implemented for the primitive integer types, where
/// they are `0` and `1`, and cannot be implemented elsewhere.
pub trait Identities: Sized + Sealed {
    /// The additive identity: zero.
    spec fn zero_value() -> Self;

    /// The multiplicative identity: one.
    spec fn one_value() -> Self;
}

/// A numeric type that can produce its identities.
pub trait Scalar: Identities {
    /// Returns the additive identity.
    fn zero() -> (z: Self)
        ensures
            z == Self::zero_value(),
    ;

    /// Returns the multiplicative identity.
    fn one() -> (o: Self)
        ensures
            o == Self::one_value(),
    ;
}

/// Calls `num_traits::zero`, which returns `T::zero()` of the trait `Zero`.
///
/// The contract claims that this is the value that `Identities` names for `T`.
/// Only the primitive integer types implement `Identities`, each with `0` for
/// its zero, and `num_traits` implements `Zero` for each of them with `0`.
#[verifier::external_body]
fn additive_identity<T: num_traits::Num + Identities>() -> (z: T)
    ensures
        z == T::zero_value(),
{
    num_traits::zero()
}

/// Calls `num_traits::one`, which returns `T::one()` of the trait `One`.
///
/// The contract claims that this is the value that `Identities` names for `T`.
/// Only the primitive integer types implement `Identities`, each with `1` for
/// its one, and `num_traits` implements `One` for each of them with `1`.
#[verifier::external_body]
fn multiplicative_identity<T: num_traits::Num + Identities>() -> (o: T)
    ensures
        o == T::one_value(),
{
    num_traits::one()
}

impl Identities for u8 {
    open spec fn zero_value() -> u8 {
        0
    }

    open spec fn one_value() -> u8 {
        1
    }
}

impl Scalar for u8 {
    fn zero() -> (z: u8) {
        additive_identity()
    }

    fn one() -> (o: u8) {
        multiplicative_identity()
    }
}

impl Identities for u16 {
    open spec fn zero_value() -> u16 {
        0
    }

    open spec fn one_value() -> u16 {
        1
    }
}

impl Scalar for u16 {
    fn zero() -> (z: u16) {
        additive_identity()
    }

    fn one() -> (o: u16) {
        multiplicative_identity()
    }
}

impl Identities for u32 {
    open spec fn zero_value() -> u32 {
        0
    }

    open spec fn one_value() -> u32 {
        1
    }
}

impl Scalar for u32 {
    fn zero() -> (z: u32) {
        additive_identity()
    }

    fn one() -> (o: u32) {
        multiplicative_identity()
    }
}

impl Identities for u64 {
    open spec fn zero_value() -> u64 {
        0
    }

    open spec fn one_value() -> u64 {
        1
    }
}

impl Scalar for u64 {
    fn zero() -> (z: u64) {
        additive_identity()
    }

    fn one() -> (o: u64) {
        multiplicative_identity()
    }
}

impl Identities for u128 {
    open spec fn zero_value() -> u128 {
        0
    }

    open spec fn one_value() -> u128 {
        1
    }
}

impl Scalar for u128 {
    fn zero() -> (z: u128) {
        additive_identity()
    }

    fn one() -> (o: u128) {
        multiplicative_identity()
    }
}

impl Identities for usize {
    open spec fn zero_value() -> usize {
        0
    }

    open spec fn one_value() -> usize {
        1
    }
}

impl Scalar for usize {
    fn zero() -> (z: usize) {
        additive_identity()
    }

    fn one() -> (o: usize) {
        multiplicative_identity()
    }
}

impl Identities for i8 {
    open spec fn zero_value() -> i8 {
        0
    }

    open spec fn one_value() -> i8 {
        1
    }
}

impl Scalar for i8 {
    fn zero() -> (z: i8) {
        additive_identity()
    }

    fn one() -> (o: i8) {
        multiplicative_identity()
    }
}

impl Identities for i16 {
    open spec fn zero_value() -> i16 {
        0
    }

    open spec fn one_value() -> i16 {
        1
    }
}

impl Scalar for i16 {
    fn zero() -> (z: i16) {
        additive_identity()
    }

    fn one() -> (o: i16) {
        multiplicative_identity()
    }
}

impl Identities for i32 {
    open spec fn zero_value() -> i32 {
        0
    }

    open spec fn one_value() -> i32 {
        1
    }
}

impl Scalar for i32 {
    fn zero() -> (z: i32) {
        additive_identity()
    }

    fn one() -> (o: i32) {
        multiplicative_identity()
    }
}

impl Identities for i64 {
    open spec fn zero_value() -> i64 {
        0
    }

    open spec fn one_value() -> i64 {
        1
    }
}

impl Scalar for i64 {
    fn zero() -> (z: i64) {
        additive_identity()
    }

    fn one() -> (o: i64) {
        multiplicative_identity()
    }
}

impl Identities for i128 {
    open spec fn zero_value() -> i128 {
        0
    }

    open spec fn one_value() -> i128 {
        1
    }
}

impl Scalar for i128 {
    fn zero() -> (z: i128) {
        additive_identity()
    }

    fn one() -> (o: i128) {
        multiplicative_identity()
    }
}

impl Identities for isize {
    open spec fn zero_value() -> isize {
        0
    }

    open spec fn one_value() -> isize {
        1
    }
}

impl Scalar for isize {
    fn zero() -> (z: isize) {
        additive_identity()
    }

    fn one() -> (o: isize) {
        multiplicative_identity()
    }
}

} // verus!
