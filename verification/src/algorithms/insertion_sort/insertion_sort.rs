//! Insertion sort: grow a sorted prefix by sinking each next element to its
//! place with exchanges of neighbours.

use vstd::prelude::*;
use crate::Order;
use crate::comparator::{
    accepts_all, ascending, descending, has_specified_order, is_comparator_for,
    is_strict_weak_order, lemma_natural_comparators, lemma_not_precedes_transitive, natural_order,
    relation_of,
};
use crate::rearrange::{
    exchanged, is_arranged_from, is_stable_rearrangement, lemma_exchanged_multiset,
    lemma_stable_by_answers, moves_only_ordered_pairs,
};
use crate::sorted::{is_sorted_by, lemma_sorted_by_answers};

verus! {

/// Sorts `data` in place by the ordering of its elements, in the direction
/// that `order` gives.
///
/// The result is a rearrangement of the input. Where the operators of `T`
/// follow its specified ordering, the rearrangement is stable, a sorted
/// buffer is left as it is, and, if that ordering is a strict weak order,
/// the result is sorted.
pub fn sort<T: PartialOrd>(data: &mut [T], order: Order)
    ensures
        final(data)@.len() == old(data)@.len(),
        final(data)@.to_multiset() == old(data)@.to_multiset(),
        has_specified_order::<T>() && is_strict_weak_order(natural_order::<T>(order))
            ==> is_sorted_by(final(data)@, natural_order::<T>(order)),
        has_specified_order::<T>() ==> is_stable_rearrangement(
            old(data)@,
            final(data)@,
            natural_order::<T>(order),
        ),
        has_specified_order::<T>() && is_sorted_by(old(data)@, natural_order::<T>(order))
            ==> final(data)@ == old(data)@,
        old(data)@.len() <= 1 ==> final(data)@ == old(data)@,
{
    let ghost lt = natural_order::<T>(order);
    proof {
        if has_specified_order::<T>() {
            lemma_natural_comparators::<T>();
            if is_sorted_by(data@, lt) {
                match order {
                    Order::Asc => lemma_sorted_by_answers(data@, ascending::<T>, lt),
                    Order::Desc => lemma_sorted_by_answers(data@, descending::<T>, lt),
                }
            }
        }
    }
    match order {
        Order::Asc => sort_by_predicate(data, ascending::<T>),
        Order::Desc => sort_by_predicate(data, descending::<T>),
    }
    proof {
        if has_specified_order::<T>() {
            match order {
                Order::Asc => {
                    lemma_stable_by_answers(old(data)@, data@, ascending::<T>, lt);
                    if is_strict_weak_order(lt) {
                        assert(is_comparator_for(ascending::<T>, lt));
                    }
                },
                Order::Desc => {
                    lemma_stable_by_answers(old(data)@, data@, descending::<T>, lt);
                    if is_strict_weak_order(lt) {
                        assert(is_comparator_for(descending::<T>, lt));
                    }
                },
            }
        }
    }
}

/// Sorts `data` in place by `predicate`.
///
/// The result is a stable rearrangement of the input: two elements change
/// their relative order only where the predicate answered that the later one
/// precedes the earlier. It is sorted by every strict weak order that the
/// predicate answers by, and a buffer in which the predicate finds no pair
/// out of order is left as it is.
pub fn sort_by_predicate<T, P>(data: &mut [T], predicate: P)
    where P: Fn(&T, &T) -> bool
    requires
        accepts_all(predicate),
    ensures
        final(data)@.len() == old(data)@.len(),
        final(data)@.to_multiset() == old(data)@.to_multiset(),
        forall|lt: spec_fn(T, T) -> bool| #[trigger]
            is_comparator_for(predicate, lt) ==> is_sorted_by(final(data)@, lt),
        is_stable_rearrangement(old(data)@, final(data)@, relation_of(predicate)),
        is_sorted_by(old(data)@, relation_of(predicate)) ==> final(data)@ == old(data)@,
        old(data)@.len() <= 1 ==> final(data)@ == old(data)@,
{
    let ghost answers = relation_of(predicate);
    let n = data.len();
    let ghost mut origin: Seq<int> = Seq::new(n as nat, |k: int| k);
    let mut i: usize = 1;
    while i < n
        invariant
            1 <= i,
            n == data@.len(),
            data@.len() == old(data)@.len(),
            accepts_all(predicate),
            answers == relation_of(predicate),
            data@.to_multiset() == old(data)@.to_multiset(),
            is_arranged_from(old(data)@, data@, origin),
            moves_only_ordered_pairs(data@, origin, answers),
            is_sorted_by(old(data)@, answers) || n <= 1 ==> data@ == old(data)@,
            forall|lt: spec_fn(T, T) -> bool| #[trigger]
                is_comparator_for(predicate, lt) ==> is_sorted_through(data@, i - 1, lt),
        decreases n - i,
    {
        let mut j: usize = i;
        while j > 0
            invariant
                j <= i < n,
                n == data@.len(),
                data@.len() == old(data)@.len(),
                accepts_all(predicate),
                answers == relation_of(predicate),
                data@.to_multiset() == old(data)@.to_multiset(),
                is_arranged_from(old(data)@, data@, origin),
                moves_only_ordered_pairs(data@, origin, answers),
                is_sorted_by(old(data)@, answers) ==> data@ == old(data)@ && j == i,
                forall|lt: spec_fn(T, T) -> bool| #[trigger]
                    is_comparator_for(predicate, lt) ==> is_sorted_except(
                        data@,
                        i as int,
                        j as int,
                        lt,
                    ) && stands_before(data@, j as int, i as int, lt),
            ensures
                n == data@.len(),
                data@.len() == old(data)@.len(),
                data@.to_multiset() == old(data)@.to_multiset(),
                is_arranged_from(old(data)@, data@, origin),
                moves_only_ordered_pairs(data@, origin, answers),
                is_sorted_by(old(data)@, answers) ==> data@ == old(data)@,
                forall|lt: spec_fn(T, T) -> bool| #[trigger]
                    is_comparator_for(predicate, lt) ==> is_sorted_through(data@, i as int, lt),
            decreases j,
        {
            if !predicate(&data[j], &data[j - 1]) {
                proof {
                    assert forall|lt: spec_fn(T, T) -> bool| #[trigger]
                        is_comparator_for(predicate, lt) implies is_sorted_through(
                        data@,
                        i as int,
                        lt,
                    ) by {
                        assert(is_sorted_except(data@, i as int, j as int, lt));
                        assert(stands_before(data@, j as int, i as int, lt));
                        assert forall|a: int, b: int| 0 <= a < b <= i implies !lt(
                            #[trigger] data@[b],
                            #[trigger] data@[a],
                        ) by {
                            if b == j && a < j - 1 {
                                lemma_not_precedes_transitive(
                                    lt,
                                    data@[j as int],
                                    data@[j - 1],
                                    data@[a],
                                );
                            }
                        }
                    }
                }
                break ;
            }
            let ghost before = data@;
            let ghost before_origin = origin;
            data.swap(j - 1, j);
            proof {
                origin = exchanged(before_origin, j - 1, j as int);
                lemma_exchanged_multiset(before, j - 1, j as int);
                assert forall|a: int, b: int|
                    0 <= a < b < n && #[trigger] origin[a] > #[trigger] origin[b] implies answers(
                    data@[a],
                    data@[b],
                ) by {
                    if a == j - 1 && b == j {
                    } else {
                        let a0 = if a == j {
                            j - 1
                        } else if a == j - 1 {
                            j as int
                        } else {
                            a
                        };
                        let b0 = if b == j {
                            j - 1
                        } else if b == j - 1 {
                            j as int
                        } else {
                            b
                        };
                        assert(before_origin[a0] > before_origin[b0]);
                    }
                }
                assert forall|lt: spec_fn(T, T) -> bool| #[trigger]
                    is_comparator_for(predicate, lt) implies is_sorted_except(
                    data@,
                    i as int,
                    j - 1,
                    lt,
                ) && stands_before(data@, j - 1, i as int, lt) by {
                    assert(is_sorted_except(before, i as int, j as int, lt));
                    assert(stands_before(before, j as int, i as int, lt));
                    assert forall|b: int| j - 1 < b <= i implies !lt(
                        #[trigger] data@[b],
                        data@[j - 1],
                    ) by {
                        if b > j {
                            assert(data@[b] == before[b]);
                            lemma_not_precedes_transitive(
                                lt,
                                before[b],
                                before[j - 1],
                                before[j as int],
                            );
                        }
                    }
                    assert forall|a: int, b: int|
                        0 <= a < b <= i && a != j - 1 && b != j - 1 implies !lt(
                        #[trigger] data@[b],
                        #[trigger] data@[a],
                    ) by {
                        let a0 = if a == j {
                            j - 1
                        } else {
                            a
                        };
                        let b0 = if b == j {
                            j - 1
                        } else {
                            b
                        };
                        assert(data@[a] == before[a0]);
                        assert(data@[b] == before[b0]);
                    }
                }
            }
            j -= 1;
        }
        i += 1;
    }
}

/// The elements of `s` up to and including position `i` are in order.
pub open spec fn is_sorted_through<T>(s: Seq<T>, i: int, lt: spec_fn(T, T) -> bool) -> bool {
    forall|a: int, b: int|
        0 <= a < b <= i && b < s.len() ==> !lt(#[trigger] s[b], #[trigger] s[a])
}

/// The elements of `s` up to and including position `i` are in order, the
/// one at `j` left aside.
pub open spec fn is_sorted_except<T>(s: Seq<T>, i: int, j: int, lt: spec_fn(T, T) -> bool) -> bool {
    forall|a: int, b: int|
        0 <= a < b <= i && b < s.len() && a != j && b != j ==> !lt(
            #[trigger] s[b],
            #[trigger] s[a],
        )
}

/// No element of `s` after position `j`, up to and including position `i`,
/// precedes the element at `j`.
pub open spec fn stands_before<T>(s: Seq<T>, j: int, i: int, lt: spec_fn(T, T) -> bool) -> bool {
    forall|b: int| j < b <= i && b < s.len() ==> !lt(#[trigger] s[b], s[j])
}

} // verus!
