//! Insertion sort.

pub mod insertion_sort;
