//! Quick sort: partition a range around a pivot, then sort the two sides.
//! The shorter side is sorted by a nested call and the longer one by going
//! round a loop, so each nested call takes half of its caller's range at
//! most and the calls never nest deeper than 64 levels, however the pivots
//! fall.

use vstd::prelude::*;
use vstd::arithmetic::power2::{lemma2_to64, lemma_pow2_unfold, pow2};
use crate::{Order, Partition};
use crate::comparator::{
    accepts_all, ascending, descending, has_specified_order, is_comparator_for,
    is_strict_weak_order, lemma_natural_comparators, lemma_not_precedes_transitive, natural_order,
};
use crate::rearrange::{
    is_rearranged_within, lemma_rearranged_within_multiset, lemma_rearranged_within_source,
    lemma_rearranged_within_transitive, lemma_rearranged_within_wider,
};
use crate::sorted::{is_sorted_by, lemma_sorted_rearrangement_unique, separates};
use super::partition::partition_by_predicate;

verus! {

/// Sorts `data` in place by the ordering of its elements, in the direction
/// that `order` gives, taking pivots as `partition` says.
///
/// Whatever the pivot policy, the result is a rearrangement of the input.
/// Where the operators of `T` follow its specified ordering and that
/// ordering is a strict weak order, the result is sorted, and a sorted
/// buffer of which the ordering leaves no two different elements unordered
/// is left as it is.
pub fn sort<T: PartialOrd>(data: &mut [T], order: Order, partition: Partition)
    ensures
        final(data)@.len() == old(data)@.len(),
        final(data)@.to_multiset() == old(data)@.to_multiset(),
        has_specified_order::<T>() && is_strict_weak_order(natural_order::<T>(order))
            ==> is_sorted_by(final(data)@, natural_order::<T>(order)),
        has_specified_order::<T>() && is_strict_weak_order(natural_order::<T>(order))
            && is_sorted_by(old(data)@, natural_order::<T>(order)) && separates(
            natural_order::<T>(order),
            old(data)@,
        ) ==> final(data)@ == old(data)@,
        old(data)@.len() <= 1 ==> final(data)@ == old(data)@,
{
    let ghost lt = natural_order::<T>(order);
    match order {
        Order::Asc => sort_by_predicate(data, ascending::<T>, partition),
        Order::Desc => sort_by_predicate(data, descending::<T>, partition),
    }
    proof {
        if has_specified_order::<T>() && is_strict_weak_order(lt) {
            lemma_natural_comparators::<T>();
            match order {
                Order::Asc => assert(is_comparator_for(ascending::<T>, lt)),
                Order::Desc => assert(is_comparator_for(descending::<T>, lt)),
            }
        }
    }
}

/// Sorts `data` in place by `predicate`, taking pivots as `partition` says.
///
/// Whatever the pivot policy, the result is a rearrangement of the input,
/// sorted by every strict weak order that the predicate answers by. Elements
/// of which neither precedes the other may change their order; where such an
/// order leaves no two different elements of a sorted buffer unordered, that
/// buffer is left as it is. An empty buffer is accepted.
pub fn sort_by_predicate<T, P>(data: &mut [T], predicate: P, partition: Partition)
    where P: Fn(&T, &T) -> bool
    requires
        accepts_all(predicate),
    ensures
        final(data)@.len() == old(data)@.len(),
        final(data)@.to_multiset() == old(data)@.to_multiset(),
        forall|lt: spec_fn(T, T) -> bool| #[trigger]
            is_comparator_for(predicate, lt) ==> is_sorted_by(final(data)@, lt),
        forall|lt: spec_fn(T, T) -> bool| #[trigger]
            is_comparator_for(predicate, lt) && is_sorted_by(old(data)@, lt) && separates(
                lt,
                old(data)@,
            ) ==> final(data)@ == old(data)@,
        old(data)@.len() <= 1 ==> final(data)@ == old(data)@,
{
    let len = data.len();
    if len == 0 {
        return ;
    }
    proof {
        lemma2_to64();
    }
    sort_by_predicate_rec(data, 0, len - 1, &predicate, &partition, Ghost(64));
    proof {
        lemma_rearranged_within_multiset(old(data)@, data@, 0, len as int);
        if len == 1 {
            lemma_rearranged_within_source(old(data)@, data@, 0, 1, 0);
            assert(data@ =~= old(data)@);
        }
        assert forall|lt: spec_fn(T, T) -> bool| #[trigger]
            is_comparator_for(predicate, lt) implies is_sorted_by(data@, lt) by {
            assert(is_sorted_between(data@, 0, len - 1, lt));
        }
        assert forall|lt: spec_fn(T, T) -> bool| #[trigger]
            is_comparator_for(predicate, lt) && is_sorted_by(old(data)@, lt) && separates(
                lt,
                old(data)@,
            ) implies data@ == old(data)@ by {
            lemma_sorted_rearrangement_unique(old(data)@, data@, lt);
        }
    }
}

/// The elements of `s` from `l` to `r`, both included, are in order.
pub open spec fn is_sorted_between<T>(s: Seq<T>, l: int, r: int, lt: spec_fn(T, T) -> bool) -> bool {
    forall|a: int, b: int| l <= a < b <= r ==> !lt(#[trigger] s[b], #[trigger] s[a])
}

/// Within the range from `l` to `r`, both included, every pair of positions
/// that does not lie wholly between `lo` and `hi` is in order.
pub open spec fn is_sorted_around<T>(
    s: Seq<T>,
    l: int,
    r: int,
    lo: int,
    hi: int,
    lt: spec_fn(T, T) -> bool,
) -> bool {
    forall|a: int, b: int|
        l <= a < b <= r && (a < lo || hi < b) ==> !lt(#[trigger] s[b], #[trigger] s[a])
}

/// The element at `p` splits the range from `lo` to `hi`, both included:
/// what stands left of it precedes it, what stands right of it does not.
pub open spec fn is_split_at<T>(
    s: Seq<T>,
    lo: int,
    p: int,
    hi: int,
    lt: spec_fn(T, T) -> bool,
) -> bool {
    &&& forall|k: int| lo <= k < p ==> lt(#[trigger] s[k], s[p])
    &&& forall|k: int| p < k <= hi ==> !lt(#[trigger] s[k], s[p])
}

/// Sorts the range of `data` from `l` to `r`, both included.
///
/// `depth` bounds how deep the calls nest: a range of `2^depth` elements at
/// most needs `depth` nested calls at most, because each nested call takes
/// the shorter side of a partition.
fn sort_by_predicate_rec<T, P>(
    data: &mut [T],
    l: usize,
    r: usize,
    predicate: &P,
    partition: &Partition,
    Ghost(depth): Ghost<nat>,
)
    where P: Fn(&T, &T) -> bool
    requires
        l <= r < old(data)@.len(),
        accepts_all(*predicate),
        r - l < pow2(depth),
    ensures
        final(data)@.len() == old(data)@.len(),
        is_rearranged_within(old(data)@, final(data)@, l as int, r + 1),
        forall|lt: spec_fn(T, T) -> bool| #[trigger]
            is_comparator_for(*predicate, lt) ==> is_sorted_between(
                final(data)@,
                l as int,
                r as int,
                lt,
            ),
    decreases depth,
{
    let ghost s0 = data@;
    let mut lo: usize = l;
    let mut hi: usize = r;
    proof {
        assert(r < usize::MAX) by {
            vstd::slice::axiom_spec_len::<T>(&*data);
        }
    }
    while lo < hi
        invariant
            l <= lo <= hi <= r < data@.len(),
            r < usize::MAX,
            data@.len() == s0.len(),
            accepts_all(*predicate),
            r - l < pow2(depth),
            is_rearranged_within(s0, data@, l as int, r + 1),
            forall|lt: spec_fn(T, T) -> bool| #[trigger]
                is_comparator_for(*predicate, lt) ==> is_sorted_around(
                    data@,
                    l as int,
                    r as int,
                    lo as int,
                    hi as int,
                    lt,
                ),
        decreases hi - lo,
    {
        let ghost s1 = data@;
        let pivot = partition_by_predicate(data, lo, hi, predicate, partition);
        let ghost s2 = data@;
        proof {
            assert(depth > 0) by {
                lemma2_to64();
            }
            lemma_pow2_unfold(depth);
            lemma_rearranged_within_wider(s1, s2, lo as int, hi + 1, l as int, r + 1);
            lemma_rearranged_within_transitive(s0, s1, s2, l as int, r + 1);
            assert forall|lt: spec_fn(T, T) -> bool| #[trigger]
                is_comparator_for(*predicate, lt) implies is_sorted_around(
                s2,
                l as int,
                r as int,
                lo as int,
                hi as int,
                lt,
            ) && is_split_at(s2, lo as int, pivot as int, hi as int, lt) by {
                lemma_sorted_around_kept(s1, s2, l as int, r as int, lo as int, hi as int, lt);
            }
        }
        if pivot - lo < hi - pivot {
            if pivot > lo + 1 {
                sort_by_predicate_rec(
                    data,
                    lo,
                    pivot - 1,
                    predicate,
                    partition,
                    Ghost((depth - 1) as nat),
                );
            }
            proof {
                let s3 = data@;
                assert(is_rearranged_within(s2, s3, lo as int, pivot as int)) by {
                    if pivot <= lo + 1 {
                        assert(s3.subrange(lo as int, pivot as int) =~= s2.subrange(
                            lo as int,
                            pivot as int,
                        ));
                    }
                }
                lemma_rearranged_within_wider(s2, s3, lo as int, pivot as int, l as int, r + 1);
                lemma_rearranged_within_transitive(s0, s2, s3, l as int, r + 1);
                assert forall|lt: spec_fn(T, T) -> bool| #[trigger]
                    is_comparator_for(*predicate, lt) implies is_sorted_around(
                    s3,
                    l as int,
                    r as int,
                    pivot + 1,
                    hi as int,
                    lt,
                ) by {
                    assert(is_sorted_around(s2, l as int, r as int, lo as int, hi as int, lt));
                    assert(is_split_at(s2, lo as int, pivot as int, hi as int, lt));
                    if pivot > lo + 1 {
                        assert(is_sorted_between(s3, lo as int, pivot - 1, lt));
                    }
                    lemma_rearranged_within_wider(
                        s2,
                        s3,
                        lo as int,
                        pivot as int,
                        lo as int,
                        hi + 1,
                    );
                    lemma_sorted_around_kept(s2, s3, l as int, r as int, lo as int, hi as int, lt);
                    lemma_split_kept(
                        s2,
                        s3,
                        lo as int,
                        pivot as int,
                        hi as int,
                        lo as int,
                        pivot as int,
                        lt,
                    );
                    assert forall|a: int, b: int|
                        l <= a < b <= r && (a < pivot + 1 || hi < b) implies !lt(
                        #[trigger] s3[b],
                        #[trigger] s3[a],
                    ) by {
                        if a < lo || hi < b {
                        } else if b < pivot {
                        } else {
                            lemma_split_orders(s3, lo as int, pivot as int, hi as int, lt, a, b);
                        }
                    }
                }
            }
            lo = pivot + 1;
        } else {
            if pivot + 1 < hi {
                sort_by_predicate_rec(
                    data,
                    pivot + 1,
                    hi,
                    predicate,
                    partition,
                    Ghost((depth - 1) as nat),
                );
            }
            proof {
                let s3 = data@;
                assert(is_rearranged_within(s2, s3, pivot + 1, hi + 1)) by {
                    if pivot + 1 >= hi {
                        assert(s3.subrange(pivot + 1, hi + 1) =~= s2.subrange(pivot + 1, hi + 1));
                    }
                }
                lemma_rearranged_within_wider(s2, s3, pivot + 1, hi + 1, l as int, r + 1);
                lemma_rearranged_within_transitive(s0, s2, s3, l as int, r + 1);
                assert forall|lt: spec_fn(T, T) -> bool| #[trigger]
                    is_comparator_for(*predicate, lt) implies is_sorted_around(
                    s3,
                    l as int,
                    r as int,
                    lo as int,
                    pivot - 1,
                    lt,
                ) by {
                    assert(is_sorted_around(s2, l as int, r as int, lo as int, hi as int, lt));
                    assert(is_split_at(s2, lo as int, pivot as int, hi as int, lt));
                    if pivot + 1 < hi {
                        assert(is_sorted_between(s3, pivot + 1, hi as int, lt));
                    }
                    lemma_rearranged_within_wider(s2, s3, pivot + 1, hi + 1, lo as int, hi + 1);
                    lemma_sorted_around_kept(s2, s3, l as int, r as int, lo as int, hi as int, lt);
                    lemma_split_kept(
                        s2,
                        s3,
                        lo as int,
                        pivot as int,
                        hi as int,
                        pivot + 1,
                        hi + 1,
                        lt,
                    );
                    assert forall|a: int, b: int|
                        l <= a < b <= r && (a < lo || pivot - 1 < b) implies !lt(
                        #[trigger] s3[b],
                        #[trigger] s3[a],
                    ) by {
                        if a < lo || hi < b {
                        } else if a > pivot {
                        } else {
                            lemma_split_orders(s3, lo as int, pivot as int, hi as int, lt, a, b);
                        }
                    }
                }
            }
            hi = pivot - 1;
        }
    }
}

/// Rearranging between `lo` and `hi` keeps the order of every pair that does
/// not lie wholly between them.
proof fn lemma_sorted_around_kept<T>(
    s: Seq<T>,
    t: Seq<T>,
    l: int,
    r: int,
    lo: int,
    hi: int,
    lt: spec_fn(T, T) -> bool,
)
    requires
        0 <= l <= lo <= hi <= r < s.len(),
        is_sorted_around(s, l, r, lo, hi, lt),
        is_rearranged_within(s, t, lo, hi + 1),
    ensures
        is_sorted_around(t, l, r, lo, hi, lt),
{
    assert forall|a: int, b: int| l <= a < b <= r && (a < lo || hi < b) implies !lt(
        #[trigger] t[b],
        #[trigger] t[a],
    ) by {
        let a0 = if lo <= a <= hi {
            lemma_rearranged_within_source(s, t, lo, hi + 1, a);
            choose|j: int| lo <= j < hi + 1 && t[a] == s[j]
        } else {
            a
        };
        let b0 = if lo <= b <= hi {
            lemma_rearranged_within_source(s, t, lo, hi + 1, b);
            choose|j: int| lo <= j < hi + 1 && t[b] == s[j]
        } else {
            b
        };
        assert(t[a] == s[a0] && t[b] == s[b0]);
        assert(!lt(s[b0], s[a0]));
    }
}

/// Rearranging one side of a split keeps the split.
proof fn lemma_split_kept<T>(
    s: Seq<T>,
    t: Seq<T>,
    lo: int,
    p: int,
    hi: int,
    from: int,
    to: int,
    lt: spec_fn(T, T) -> bool,
)
    requires
        0 <= lo <= p <= hi < s.len(),
        is_split_at(s, lo, p, hi, lt),
        is_rearranged_within(s, t, from, to),
        (lo <= from && to <= p) || (p < from && to <= hi + 1),
    ensures
        is_split_at(t, lo, p, hi, lt),
{
    assert(t[p] == s[p]);
    assert forall|k: int| lo <= k < p implies lt(#[trigger] t[k], t[p]) by {
        if from <= k < to {
            lemma_rearranged_within_source(s, t, from, to, k);
        } else {
            assert(t[k] == s[k]);
        }
    }
    assert forall|k: int| p < k <= hi implies !lt(#[trigger] t[k], t[p]) by {
        if from <= k < to {
            lemma_rearranged_within_source(s, t, from, to, k);
        } else {
            assert(t[k] == s[k]);
        }
    }
}

/// Across a split, no element precedes one that stands before it.
proof fn lemma_split_orders<T>(
    s: Seq<T>,
    lo: int,
    p: int,
    hi: int,
    lt: spec_fn(T, T) -> bool,
    a: int,
    b: int,
)
    requires
        is_strict_weak_order(lt),
        is_split_at(s, lo, p, hi, lt),
        lo <= a <= p <= b <= hi,
        a < b,
    ensures
        !lt(s[b], s[a]),
{
    if a < p {
        assert(lt(s[a], s[p]));
        if b > p {
            assert(!lt(s[b], s[p]));
            lemma_not_precedes_transitive(lt, s[b], s[p], s[a]);
        }
    } else {
        assert(!lt(s[b], s[p]));
    }
}

} // verus!
