//! Heap sort and the binary heap it is built on.

pub mod heap;
pub mod heap_sort;
