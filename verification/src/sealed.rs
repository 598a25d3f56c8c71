//! The marker that keeps the numeric traits of this library closed.
use vstd::prelude::*;

verus! {

/// Implemented for the primitive integer types, and for nothing else: a trait
/// that has it as a supertrait cannot be implemented outside this library.
pub trait Sealed {
}

impl Sealed for u8 {
}

impl Sealed for u16 {
}

impl Sealed for u32 {
}

impl Sealed for u64 {
}

impl Sealed for u128 {
}

impl Sealed for usize {
}

impl Sealed for i8 {
}

impl Sealed for i16 {
}

impl Sealed for i32 {
}

impl Sealed for i64 {
}

impl Sealed for i128 {
}

impl Sealed for isize {
}

} // verus!
