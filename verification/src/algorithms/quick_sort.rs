//! Quick sort and the partition step it is built on.

use vstd::prelude::*;
use crate::{Order, Partition};
use crate::comparator::{
    ascending, descending, has_specified_order, lemma_natural_comparators, natural_order,
};
use crate::rearrange::is_rearranged_within;

pub mod partition;
pub mod quick_sort;

verus! {

/// Partitions the range of `data` from `l` to `r`, both included, by the
/// ordering of its elements in the direction that `order` gives, around the
/// element that `policy` selects, and returns the index at which that
/// element ends.
///
/// Only the range is rearranged. Where the operators of `T` follow its
/// specified ordering, every element that ends left of the pivot precedes
/// it and no element that ends right of it does, so the pivot ends as many
/// places after `l` as the range holds other elements that precede it.
pub fn partition<T: PartialOrd>(
    data: &mut [T],
    l: usize,
    r: usize,
    order: Order,
    policy: Partition,
) -> (pivot: usize)
    requires
        l <= r < old(data)@.len(),
    ensures
        l <= pivot <= r,
        final(data)@.len() == old(data)@.len(),
        final(data)@.to_multiset() == old(data)@.to_multiset(),
        is_rearranged_within(old(data)@, final(data)@, l as int, r + 1),
        final(data)@[pivot as int] == old(data)@[self::partition::pivot_index(
            l as int,
            r as int,
            policy,
        )],
        has_specified_order::<T>() ==> forall|k: int|
            l <= k < pivot ==> natural_order::<T>(order)(
                #[trigger] final(data)@[k],
                final(data)@[pivot as int],
            ),
        has_specified_order::<T>() ==> forall|k: int|
            pivot < k <= r ==> !natural_order::<T>(order)(
                #[trigger] final(data)@[k],
                final(data)@[pivot as int],
            ),
        has_specified_order::<T>() ==> pivot - l == self::partition::count_preceding(
            old(data)@,
            l as int,
            r + 1,
            self::partition::pivot_index(l as int, r as int, policy),
            natural_order::<T>(order),
        ),
{
    proof {
        if has_specified_order::<T>() {
            lemma_natural_comparators::<T>();
        }
    }
    match order {
        Order::Asc => self::partition::partition_by_predicate(
            data,
            l,
            r,
            ascending::<T>,
            &policy,
        ),
        Order::Desc => self::partition::partition_by_predicate(
            data,
            l,
            r,
            descending::<T>,
            &policy,
        ),
    }
}

} // verus!
