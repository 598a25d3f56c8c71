//! Mathematics: linear algebra.
pub mod linear_algebra;
