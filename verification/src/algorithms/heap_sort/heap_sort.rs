//! Heap sort: build a heap, then repeatedly move its root behind the
//! shrinking heap and repair the heap.

use vstd::prelude::*;
use crate::Order;
use crate::comparator::{
    accepts_all, ascending, descending, has_specified_order, is_comparator_for,
    is_strict_weak_order, lemma_natural_comparators, natural_order,
};
use crate::rearrange::{
    lemma_exchanged_multiset, lemma_same_elements_before, lemma_single_rearrangement,
};
use crate::sorted::{is_sorted_by, lemma_sorted_rearrangement_unique, separates};
use super::heap::{
    children_are_heaps, create_heap_by_predicate, down_heap_by_predicate, in_subtree, is_heap,
    lemma_all_in_root_subtree, lemma_heap_root_is_greatest, parent, parent_dominates,
};

verus! {

/// Sorts `data` in place by the ordering of its elements, in the direction
/// that `order` gives.
///
/// The result is a rearrangement of the input. Where the operators of `T`
/// follow its specified ordering and that ordering is a strict weak order,
/// the result is sorted, and a sorted buffer of which the ordering leaves no
/// two different elements unordered is left as it is.
pub fn sort<T: PartialOrd>(data: &mut [T], order: Order)
    ensures
        final(data)@.len() == old(data)@.len(),
        final(data)@.to_multiset() == old(data)@.to_multiset(),
        has_specified_order::<T>() && is_strict_weak_order(natural_order::<T>(order))
            ==> is_sorted_by(final(data)@, natural_order::<T>(order)),
        has_specified_order::<T>() && is_strict_weak_order(natural_order::<T>(order))
            && is_sorted_by(old(data)@, natural_order::<T>(order)) && separates(
            natural_order::<T>(order),
            old(data)@,
        ) ==> final(data)@ == old(data)@,
        old(data)@.len() <= 1 ==> final(data)@ == old(data)@,
{
    let ghost lt = natural_order::<T>(order);
    match order {
        Order::Asc => sort_by_predicate(data, ascending::<T>),
        Order::Desc => sort_by_predicate(data, descending::<T>),
    }
    proof {
        if has_specified_order::<T>() && is_strict_weak_order(lt) {
            lemma_natural_comparators::<T>();
            match order {
                Order::Asc => assert(is_comparator_for(ascending::<T>, lt)),
                Order::Desc => assert(is_comparator_for(descending::<T>, lt)),
            }
        }
    }
}

/// Sorts `data` in place by `predicate`.
///
/// The result is a rearrangement of the input, sorted by every strict weak
/// order that the predicate answers by. Elements of which neither precedes
/// the other may change their order; where such an order leaves no two
/// different elements of a sorted buffer unordered, that buffer is left as
/// it is.
pub fn sort_by_predicate<T, P>(data: &mut [T], predicate: P)
    where P: Fn(&T, &T) -> bool
    requires
        accepts_all(predicate),
    ensures
        final(data)@.len() == old(data)@.len(),
        final(data)@.to_multiset() == old(data)@.to_multiset(),
        forall|lt: spec_fn(T, T) -> bool| #[trigger]
            is_comparator_for(predicate, lt) ==> is_sorted_by(final(data)@, lt),
        forall|lt: spec_fn(T, T) -> bool| #[trigger]
            is_comparator_for(predicate, lt) && is_sorted_by(old(data)@, lt) && separates(
                lt,
                old(data)@,
            ) ==> final(data)@ == old(data)@,
        old(data)@.len() <= 1 ==> final(data)@ == old(data)@,
{
    let len = data.len();
    create_heap_by_predicate(data, &predicate);
    proof {
        if len <= 1 {
            lemma_single_rearrangement(old(data)@, data@);
        }
    }
    let mut i: usize = len;
    while i > 1
        invariant
            i <= len,
            len == data@.len(),
            data@.len() == old(data)@.len(),
            accepts_all(predicate),
            data@.to_multiset() == old(data)@.to_multiset(),
            len <= 1 ==> data@ == old(data)@,
            forall|lt: spec_fn(T, T) -> bool| #[trigger]
                is_comparator_for(predicate, lt) ==> is_heap(data@, i as int, lt) && is_sorted_from(
                    data@,
                    i as int,
                    lt,
                ),
        decreases i,
    {
        i -= 1;
        let ghost s0 = data@;
        data.swap(0, i);
        let ghost s1 = data@;
        proof {
            lemma_exchanged_multiset(s0, 0, i as int);
            assert forall|lt: spec_fn(T, T) -> bool| #[trigger]
                is_comparator_for(predicate, lt) implies children_are_heaps(s1, 0, i as int, lt)
                && is_sorted_from(s1, i as int, lt) by {
                assert(is_heap(s0, i + 1, lt));
                assert(is_sorted_from(s0, i + 1, lt));
                assert forall|c: int| 1 < c < i && in_subtree(1, c) implies #[trigger] parent_dominates(
                    s1,
                    c,
                    lt,
                ) by {
                    assert(in_subtree(1, parent(c)));
                    assert(parent_dominates(s0, c, lt));
                }
                assert forall|c: int| 2 < c < i && in_subtree(2, c) implies #[trigger] parent_dominates(
                    s1,
                    c,
                    lt,
                ) by {
                    assert(in_subtree(2, parent(c)));
                    assert(parent_dominates(s0, c, lt));
                }
                assert forall|a: int, b: int| 0 <= a < b < len && i <= b implies !lt(
                    #[trigger] s1[b],
                    #[trigger] s1[a],
                ) by {
                    let a0 = if a == 0 {
                        i as int
                    } else if a == i {
                        0
                    } else {
                        a
                    };
                    if b == i {
                        lemma_heap_root_is_greatest(s0, i + 1, lt, a0);
                    } else {
                        assert(s1[b] == s0[b]);
                        assert(s1[a] == s0[a0]);
                        if a0 > a {
                            assert(!lt(s0[b], s0[a0]));
                        }
                    }
                }
            }
        }
        down_heap_by_predicate(data, 0, i, &predicate);
        proof {
            let s2 = data@;
            assert forall|lt: spec_fn(T, T) -> bool| #[trigger]
                is_comparator_for(predicate, lt) implies is_heap(s2, i as int, lt)
                && is_sorted_from(s2, i as int, lt) by {
                assert(children_are_heaps(s1, 0, i as int, lt));
                assert(is_sorted_from(s1, i as int, lt));
                assert forall|c: int| 0 < c < i implies #[trigger] parent_dominates(s2, c, lt) by {
                    lemma_all_in_root_subtree(c);
                }
                assert forall|a: int, b: int| 0 <= a < b < len && i <= b implies !lt(
                    #[trigger] s2[b],
                    #[trigger] s2[a],
                ) by {
                    assert(s2[b] == s1[b]);
                    if a < i {
                        lemma_same_elements_before(s1, s2, i as int, a);
                        let a1 = choose|a1: int| 0 <= a1 < i && s2[a] == s1[a1];
                        assert(!lt(s1[b], s1[a1]));
                    } else {
                        assert(s2[a] == s1[a]);
                    }
                }
            }
        }
    }
    proof {
        assert forall|lt: spec_fn(T, T) -> bool| #[trigger]
            is_comparator_for(predicate, lt) implies is_sorted_by(data@, lt) by {
            assert(is_sorted_from(data@, i as int, lt));
            assert forall|a: int, b: int| 0 <= a < b < len implies !lt(
                #[trigger] data@[b],
                #[trigger] data@[a],
            ) by {
                assert(i <= b);
            }
        }
        assert forall|lt: spec_fn(T, T) -> bool| #[trigger]
            is_comparator_for(predicate, lt) && is_sorted_by(old(data)@, lt) && separates(
                lt,
                old(data)@,
            ) implies data@ == old(data)@ by {
            lemma_sorted_rearrangement_unique(old(data)@, data@, lt);
        }
    }
}

/// From position `i` on the elements of `s` are in order, and none of them
/// precedes an element that stands before it.
pub open spec fn is_sorted_from<T>(s: Seq<T>, i: int, lt: spec_fn(T, T) -> bool) -> bool {
    forall|a: int, b: int|
        0 <= a < b < s.len() && i <= b ==> !lt(#[trigger] s[b], #[trigger] s[a])
}

} // verus!
