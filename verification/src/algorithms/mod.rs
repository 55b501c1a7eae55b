//! The sorting algorithms, one module each.

pub mod helpers;
pub mod selection_sort;
pub mod insertion_sort;
pub mod heap_sort;
pub mod quick_sort;
