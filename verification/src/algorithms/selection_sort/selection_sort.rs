//! Selection sort: repeatedly move the first least remaining element to the
//! front of the unsorted tail.

use vstd::prelude::*;
use crate::Order;
use crate::comparator::{
    accepts_all, ascending, descending, has_specified_order, is_comparator_for,
    is_strict_weak_order, lemma_natural_comparators, lemma_not_precedes_transitive, natural_order,
    relation_of,
};
use crate::rearrange::{exchanged, lemma_exchanged_multiset};
use crate::sorted::{is_sorted_by, lemma_sorted_by_answers};

verus! {

/// Sorts `data` in place by the ordering of its elements, in the direction
/// that `order` gives.
///
/// The result is a rearrangement of the input. Where the operators of `T`
/// follow its specified ordering and that ordering is a strict weak order,
/// the result is sorted, and a sorted buffer is left as it is.
pub fn sort<T: PartialOrd>(data: &mut [T], order: Order)
    ensures
        final(data)@.len() == old(data)@.len(),
        final(data)@.to_multiset() == old(data)@.to_multiset(),
        has_specified_order::<T>() && is_strict_weak_order(natural_order::<T>(order))
            ==> is_sorted_by(final(data)@, natural_order::<T>(order)),
        has_specified_order::<T>() && is_sorted_by(old(data)@, natural_order::<T>(order))
            ==> final(data)@ == old(data)@,
        old(data)@.len() <= 1 ==> final(data)@ == old(data)@,
{
    proof {
        if has_specified_order::<T>() {
            lemma_natural_comparators::<T>();
            if is_sorted_by(data@, natural_order::<T>(order)) {
                match order {
                    Order::Asc => lemma_sorted_by_answers(
                        data@,
                        ascending::<T>,
                        natural_order::<T>(order),
                    ),
                    Order::Desc => lemma_sorted_by_answers(
                        data@,
                        descending::<T>,
                        natural_order::<T>(order),
                    ),
                }
            }
        }
    }
    match order {
        Order::Asc => sort_by_predicate(data, ascending::<T>),
        Order::Desc => sort_by_predicate(data, descending::<T>),
    }
    proof {
        if has_specified_order::<T>() && is_strict_weak_order(natural_order::<T>(order)) {
            match order {
                Order::Asc => assert(is_comparator_for(ascending::<T>, natural_order::<T>(order))),
                Order::Desc => assert(is_comparator_for(
                    descending::<T>,
                    natural_order::<T>(order),
                )),
            }
        }
    }
}

/// Sorts `data` in place by `predicate`.
///
/// The result is a rearrangement of the input. It is sorted by every strict
/// weak order that the predicate answers by, and a buffer in which the
/// predicate finds no pair out of order is left as it is.
pub fn sort_by_predicate<T, P>(data: &mut [T], predicate: P)
    where P: Fn(&T, &T) -> bool
    requires
        accepts_all(predicate),
    ensures
        final(data)@.len() == old(data)@.len(),
        final(data)@.to_multiset() == old(data)@.to_multiset(),
        forall|lt: spec_fn(T, T) -> bool| #[trigger]
            is_comparator_for(predicate, lt) ==> is_sorted_by(final(data)@, lt),
        is_sorted_by(old(data)@, relation_of(predicate)) ==> final(data)@ == old(data)@,
        old(data)@.len() <= 1 ==> final(data)@ == old(data)@,
{
    let n = data.len();
    let mut i: usize = 0;
    while i < n
        invariant
            i <= n,
            n == data@.len(),
            data@.len() == old(data)@.len(),
            accepts_all(predicate),
            data@.to_multiset() == old(data)@.to_multiset(),
            is_sorted_by(old(data)@, relation_of(predicate)) || n <= 1 ==> data@ == old(data)@,
            forall|lt: spec_fn(T, T) -> bool| #[trigger]
                is_comparator_for(predicate, lt) ==> is_sorted_up_to(data@, i as int, lt),
        decreases n - i,
    {
        let mut i_min: usize = i;
        let mut j: usize = i + 1;
        while j < n
            invariant
                i < n,
                i <= i_min < j <= n,
                n == data@.len(),
                accepts_all(predicate),
                is_sorted_by(data@, relation_of(predicate)) ==> i_min == i,
                forall|lt: spec_fn(T, T) -> bool| #[trigger]
                    is_comparator_for(predicate, lt) ==> is_least_from(
                        data@,
                        i as int,
                        j as int,
                        i_min as int,
                        lt,
                    ),
            decreases n - j,
        {
            let ghost prev_min = i_min;
            if predicate(&data[j], &data[i_min]) {
                i_min = j;
            }
            proof {
                assert forall|lt: spec_fn(T, T) -> bool| #[trigger]
                    is_comparator_for(predicate, lt) implies is_least_from(
                    data@,
                    i as int,
                    j + 1,
                    i_min as int,
                    lt,
                ) by {
                    assert(is_least_from(data@, i as int, j as int, prev_min as int, lt));
                    assert forall|k: int| i <= k < j + 1 implies !lt(
                        #[trigger] data@[k],
                        data@[i_min as int],
                    ) by {
                        if i_min == j && k < j {
                            lemma_not_precedes_transitive(
                                lt,
                                data@[k],
                                data@[prev_min as int],
                                data@[j as int],
                            );
                        }
                    }
                }
            }
            j += 1;
        }
        proof {
            lemma_exchanged_multiset(data@, i as int, i_min as int);
            if i_min == i {
                assert(exchanged(data@, i as int, i as int) =~= data@);
            }
        }
        let ghost before = data@;
        data.swap(i, i_min);
        proof {
            assert forall|lt: spec_fn(T, T) -> bool| #[trigger]
                is_comparator_for(predicate, lt) implies is_sorted_up_to(data@, i + 1, lt) by {
                assert(is_sorted_up_to(before, i as int, lt));
                assert(is_least_from(before, i as int, n as int, i_min as int, lt));
                assert forall|a: int, b: int| 0 <= a < i + 1 && a < b < n implies !lt(
                    #[trigger] data@[b],
                    #[trigger] data@[a],
                ) by {
                    if a < i {
                        let b0 = if b == i {
                            i_min as int
                        } else if b == i_min {
                            i as int
                        } else {
                            b
                        };
                        assert(data@[b] == before[b0]);
                        assert(data@[a] == before[a]);
                    } else {
                        let b0 = if b == i_min {
                            i as int
                        } else {
                            b
                        };
                        assert(data@[b] == before[b0]);
                        assert(data@[a] == before[i_min as int]);
                    }
                }
            }
        }
        i += 1;
    }
}

/// The first `i` elements of `s` are in order, and none of them is preceded
/// by an element that stands after it.
pub open spec fn is_sorted_up_to<T>(s: Seq<T>, i: int, lt: spec_fn(T, T) -> bool) -> bool {
    forall|a: int, b: int|
        0 <= a < i && a < b < s.len() ==> !lt(#[trigger] s[b], #[trigger] s[a])
}

/// No element of `s` from `i` up to `j` precedes the element at `least`.
pub open spec fn is_least_from<T>(
    s: Seq<T>,
    i: int,
    j: int,
    least: int,
    lt: spec_fn(T, T) -> bool,
) -> bool {
    forall|k: int| i <= k < j ==> !lt(#[trigger] s[k], s[least])
}

} // verus!
