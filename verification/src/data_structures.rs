//! Containers: binary heaps, a dense matrix, a queue and a stack.
pub mod heap;
pub mod queue;
pub mod stack;
pub mod matrix;
