//! Selection sort.

pub mod selection_sort;
