//! Classic containers and in-place sorting algorithms, each with a proved contract.
//!
//! * [`data_structures`] holds a stack, a queue, binary heaps and a dense matrix.
//! * [`math`] holds the dense matrix in its linear-algebra flavour.
//! * [`sort`] holds insertion, bubble, merge, heap and quick sort.
//! * [`order`] says what it means for values to be compared and for a sequence to be sorted.
//! * [`sequence`] holds the facts about sequences that the algorithms rest on.
//! * [`heap_order`] says what a binary heap is and why sifting down restores one.
//! * [`layout`] holds the arithmetic of row-major addressing.
//! * [`scalar`] names the numeric identities a matrix can be filled with.
pub mod data_structures;
pub mod heap_order;
pub mod layout;
pub mod math;
pub mod order;
pub mod scalar;
mod sealed;
pub mod sequence;

pub mod sort;
