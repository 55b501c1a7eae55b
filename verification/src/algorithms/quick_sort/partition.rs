//! The partition step of quick sort: one scan over a range that brings the
//! elements preceding the pivot to its left and leaves the others on its
//! right.

use vstd::prelude::*;
use crate::Partition;
use crate::comparator::{accepts_all, answers_by, may_answer};
use crate::rearrange::{
    is_rearranged_within, lemma_exchanged_within, lemma_rearranged_within_multiset,
    lemma_rearranged_within_transitive,
};

verus! {

/// Index of the element of the range from `l` to `r`, both included, that
/// the policy takes as the pivot.
pub open spec fn pivot_index(l: int, r: int, partition: Partition) -> int {
    match partition {
        Partition::First => l,
        Partition::Last => r,
        Partition::Center => (l + r) / 2,
    }
}

/// Number of positions from `from` up to `to`, `to` left out and `chosen`
/// left aside, whose element precedes the element at `chosen`.
pub open spec fn count_preceding<T>(
    s: Seq<T>,
    from: int,
    to: int,
    chosen: int,
    lt: spec_fn(T, T) -> bool,
) -> int
    decreases to - from,
{
    if from >= to {
        0
    } else if to - 1 != chosen && lt(s[to - 1], s[chosen]) {
        count_preceding(s, from, to - 1, chosen, lt) + 1
    } else {
        count_preceding(s, from, to - 1, chosen, lt)
    }
}

/// Partitions the range of `data` from `l` to `r`, both included, around the
/// element that `partition` selects, and returns the index at which that
/// element ends.
///
/// Only the range is rearranged. Every element that ends left of the pivot
/// was found to precede it, and every element that ends right of it was
/// found not to, so elements level with the pivot end on its right. For
/// every relation that the predicate answers by, the pivot ends as many
/// places after `l` as the range holds other elements that precede it.
pub fn partition_by_predicate<T, P>(
    data: &mut [T],
    l: usize,
    r: usize,
    predicate: P,
    partition: &Partition,
) -> (pivot: usize)
    where P: Fn(&T, &T) -> bool
    requires
        l <= r < old(data)@.len(),
        accepts_all(predicate),
    ensures
        l <= pivot <= r,
        final(data)@.len() == old(data)@.len(),
        final(data)@.to_multiset() == old(data)@.to_multiset(),
        is_rearranged_within(old(data)@, final(data)@, l as int, r + 1),
        final(data)@[pivot as int] == old(data)@[pivot_index(l as int, r as int, *partition)],
        forall|k: int|
            l <= k < pivot ==> may_answer(
                predicate,
                #[trigger] final(data)@[k],
                final(data)@[pivot as int],
                true,
            ),
        forall|k: int|
            pivot < k <= r ==> may_answer(
                predicate,
                #[trigger] final(data)@[k],
                final(data)@[pivot as int],
                false,
            ),
        forall|lt: spec_fn(T, T) -> bool| #[trigger]
            answers_by(predicate, lt) ==> pivot - l == count_preceding(
                old(data)@,
                l as int,
                r + 1,
                pivot_index(l as int, r as int, *partition),
                lt,
            ),
{
    let chosen: usize = match partition {
        Partition::First => l,
        Partition::Last => r,
        Partition::Center => l + (r - l) / 2,
    };
    let ghost s0 = data@;
    let ghost x = s0[chosen as int];
    proof {
        assert(chosen == pivot_index(l as int, r as int, *partition));
        assert(r < usize::MAX) by {
            vstd::slice::axiom_spec_len::<T>(&*data);
        }
    }
    let mut i: usize = l;
    let mut j: usize = l;
    while j <= r
        invariant
            l <= chosen <= r < data@.len(),
            r < usize::MAX,
            l <= i <= j <= r + 1,
            data@.len() == s0.len(),
            accepts_all(predicate),
            is_rearranged_within(s0, data@, l as int, r + 1),
            x == s0[chosen as int],
            data@[chosen as int] == x,
            forall|k: int|
                l <= k < i && k != chosen ==> may_answer(predicate, #[trigger] data@[k], x, true),
            forall|k: int|
                i <= k < j && k != chosen ==> may_answer(predicate, #[trigger] data@[k], x, false),
            forall|k: int| j <= k <= r ==> #[trigger] data@[k] == s0[k],
            forall|lt: spec_fn(T, T) -> bool| #[trigger]
                answers_by(predicate, lt) ==> i - l == count_preceding(
                    s0,
                    l as int,
                    j as int,
                    chosen as int,
                    lt,
                ) + if i > chosen {
                    1int
                } else {
                    0int
                },
        decreases r + 1 - j,
    {
        let ghost i0 = i;
        let ghost d0 = data@;
        let ghost mut took = false;
        if i == chosen {
            i += 1;
        }
        if j != chosen {
            if predicate(&data[j], &data[chosen]) {
                let ghost before = data@;
                proof {
                    took = true;
                }
                data.swap(i, j);
                proof {
                    lemma_exchanged_within(before, l as int, r + 1, i as int, j as int);
                    lemma_rearranged_within_transitive(s0, before, data@, l as int, r + 1);
                }
                i += 1;
            }
        }
        proof {
            assert forall|lt: spec_fn(T, T) -> bool| #[trigger]
                answers_by(predicate, lt) implies i - l == count_preceding(
                s0,
                l as int,
                j + 1,
                chosen as int,
                lt,
            ) + if i > chosen {
                1int
            } else {
                0int
            } by {
                assert(j != chosen ==> took == lt(d0[j as int], d0[chosen as int]));
                assert(d0[j as int] == s0[j as int] && d0[chosen as int] == s0[chosen as int]);
                assert(i0 - l == count_preceding(s0, l as int, j as int, chosen as int, lt)
                    + if i0 > chosen {
                    1int
                } else {
                    0int
                });
                assert(i == i0 + if i0 == chosen {
                    1int
                } else {
                    0int
                } + if took {
                    1int
                } else {
                    0int
                });
            }
        }
        j += 1;
    }
    let ghost before = data@;
    let pivot: usize = if i <= chosen {
        i
    } else {
        i - 1
    };
    data.swap(pivot, chosen);
    proof {
        lemma_exchanged_within(before, l as int, r + 1, pivot as int, chosen as int);
        lemma_rearranged_within_transitive(s0, before, data@, l as int, r + 1);
        lemma_rearranged_within_multiset(s0, data@, l as int, r + 1);
        assert forall|k: int| l <= k < pivot implies may_answer(
            predicate,
            #[trigger] data@[k],
            data@[pivot as int],
            true,
        ) by {
            if k == chosen {
                assert(data@[k] == before[pivot as int]);
            } else {
                assert(data@[k] == before[k]);
            }
        }
        assert forall|k: int| pivot < k <= r implies may_answer(
            predicate,
            #[trigger] data@[k],
            data@[pivot as int],
            false,
        ) by {
            if k == chosen {
                assert(data@[k] == before[pivot as int]);
            } else {
                assert(data@[k] == before[k]);
            }
        }
    }
    pivot
}

} // verus!
