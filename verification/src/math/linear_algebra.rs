//! Linear algebra: the dense matrix.
pub mod matrix;
