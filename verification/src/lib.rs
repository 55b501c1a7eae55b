//! In-place comparison sorts over slices: heap sort, quick sort, insertion
//! sort and selection sort, each driven either by a direction over the
//! element type's own ordering or by a caller-supplied "precedes" predicate.

use vstd::prelude::*;

pub mod algorithms;
pub mod comparator;
pub mod helpers;
pub mod rearrange;
pub mod sorted;

verus! {

/// Direction of a sort over the element type's own ordering.
#[derive(Clone, Copy, Debug, PartialEq, Eq, Structural)]
pub enum Order {
    /// Smallest element first.
    Asc,
    /// Largest element first.
    Desc,
}

/// Which index of the active range supplies the quick sort pivot.
#[derive(Clone, Copy, Debug, PartialEq, Eq, Structural)]
pub enum Partition {
    /// The lowest index of the range.
    First,
    /// The highest index of the range.
    Last,
    /// The midpoint of the range, rounded down.
    Center,
}

} // verus!
