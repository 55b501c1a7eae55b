//! Sorted sequences: what it means for a sequence to be sorted by a
//! relation, and how far being sorted decides a rearrangement.

use vstd::prelude::*;
use crate::comparator::{
    answers_by, equivalent, is_strict_weak_order, lemma_not_precedes_transitive, may_answer,
    relation_of,
};
use crate::rearrange::{exchanged, lemma_exchanged_multiset};

verus! {

/// No element of `s` precedes an element that stands before it.
pub open spec fn is_sorted_by<T>(s: Seq<T>, lt: spec_fn(T, T) -> bool) -> bool {
    forall|i: int, j: int| 0 <= i < j < s.len() ==> !lt(#[trigger] s[j], #[trigger] s[i])
}

/// No element of `s` precedes its left neighbour.
pub open spec fn is_sorted_adjacent<T>(s: Seq<T>, lt: spec_fn(T, T) -> bool) -> bool {
    forall|i: int| 0 <= i < s.len() - 1 ==> !lt(s[i + 1], #[trigger] s[i])
}

/// Elements of `s` that the relation leaves unordered are the same element.
pub open spec fn separates<T>(lt: spec_fn(T, T) -> bool, s: Seq<T>) -> bool {
    forall|i: int, j: int|
        0 <= i < s.len() && 0 <= j < s.len() && equivalent(lt, #[trigger] s[i], #[trigger] s[j])
            ==> s[i] == s[j]
}

/// A sequence that is sorted by a relation is sorted by the answers of every
/// predicate that answers by that relation.
pub proof fn lemma_sorted_by_answers<T, P: Fn(&T, &T) -> bool>(
    s: Seq<T>,
    p: P,
    lt: spec_fn(T, T) -> bool,
)
    requires
        answers_by(p, lt),
        is_sorted_by(s, lt),
    ensures
        is_sorted_by(s, relation_of(p)),
{
    assert forall|i: int, j: int| 0 <= i < j < s.len() implies !relation_of(p)(
        #[trigger] s[j],
        #[trigger] s[i],
    ) by {
        if may_answer(p, s[j], s[i], true) {
            assert(lt(s[j], s[i]));
        }
    }
}

/// A sorted sequence is sorted at every adjacent pair.
pub proof fn lemma_sorted_implies_adjacent<T>(s: Seq<T>, lt: spec_fn(T, T) -> bool)
    requires
        is_sorted_by(s, lt),
    ensures
        is_sorted_adjacent(s, lt),
{
}

/// Under a strict weak order, a sequence that is sorted at every adjacent
/// pair is sorted.
pub proof fn lemma_adjacent_implies_sorted<T>(s: Seq<T>, lt: spec_fn(T, T) -> bool)
    requires
        is_strict_weak_order(lt),
        is_sorted_adjacent(s, lt),
    ensures
        is_sorted_by(s, lt),
{
    assert forall|i: int, j: int| 0 <= i < j < s.len() implies !lt(
        #[trigger] s[j],
        #[trigger] s[i],
    ) by {
        lemma_adjacent_reaches(s, lt, i, j);
    }
}

/// Under a strict weak order, being sorted at every adjacent pair carries
/// over to the pair of positions `i` and `j`.
proof fn lemma_adjacent_reaches<T>(s: Seq<T>, lt: spec_fn(T, T) -> bool, i: int, j: int)
    requires
        is_strict_weak_order(lt),
        is_sorted_adjacent(s, lt),
        0 <= i < j < s.len(),
    ensures
        !lt(s[j], s[i]),
    decreases j - i,
{
    if j == i + 1 {
    } else {
        lemma_adjacent_reaches(s, lt, i, j - 1);
        assert(!lt(s[(j - 1) + 1], s[j - 1]));
        lemma_not_precedes_transitive(lt, s[j], s[j - 1], s[i]);
    }
}

/// The sequence without its last element has the elements that are left
/// when one copy of that element is taken away.
proof fn lemma_drop_last_multiset<T>(s: Seq<T>, t: Seq<T>)
    requires
        s.len() > 0,
        s.len() == t.len(),
        s.last() == t.last(),
        s.to_multiset() == t.to_multiset(),
    ensures
        s.drop_last().to_multiset() == t.drop_last().to_multiset(),
{
    broadcast use vstd::seq_lib::group_to_multiset_ensures;
    let x = s.last();
    let s1 = s.drop_last();
    let t1 = t.drop_last();
    assert(s =~= s1.push(x));
    assert(t =~= t1.push(x));
    assert(s1.to_multiset().insert(x) == t1.to_multiset().insert(x));
    assert forall|v: T| s1.to_multiset().count(v) == t1.to_multiset().count(v) by {
        assert(s1.to_multiset().insert(x).count(v) == t1.to_multiset().insert(x).count(v));
    }
    assert(s1.to_multiset() =~= t1.to_multiset());
}

/// Under a strict weak order, two sorted rearrangements of one sequence
/// agree position by position up to equivalence: what stands at a position
/// of one neither precedes nor is preceded by what stands there in the
/// other. So all ways of sorting a buffer give the same result but for the
/// order of elements that the relation leaves unordered.
pub proof fn lemma_sorted_rearrangements_level<T>(s: Seq<T>, t: Seq<T>, lt: spec_fn(T, T) -> bool)
    requires
        is_strict_weak_order(lt),
        is_sorted_by(s, lt),
        is_sorted_by(t, lt),
        s.to_multiset() == t.to_multiset(),
    ensures
        s.len() == t.len(),
        forall|k: int| 0 <= k < s.len() ==> equivalent(lt, #[trigger] s[k], t[k]),
    decreases s.len(),
{
    broadcast use vstd::seq_lib::group_to_multiset_ensures;
    assert(s.len() == s.to_multiset().len() && t.len() == t.to_multiset().len());
    if s.len() > 0 {
        let n = s.len() as int;
        let x = s[n - 1];
        let y = t[n - 1];
        // The last element of each is greatest, and stands in the other too.
        assert(t.contains(y));
        assert(s.to_multiset().count(y) > 0);
        assert(s.contains(y));
        let i = choose|i: int| 0 <= i < n && s[i] == y;
        assert(s.contains(x));
        assert(t.to_multiset().count(x) > 0);
        assert(t.contains(x));
        let j = choose|j: int| 0 <= j < n && t[j] == x;
        assert(!lt(x, y)) by {
            if i < n - 1 {
                assert(!lt(s[n - 1], s[i]));
            }
        }
        assert(!lt(y, x)) by {
            if j < n - 1 {
                assert(!lt(t[n - 1], t[j]));
            }
        }
        // Exchanging the two in `t` keeps it sorted and makes the last elements the same.
        let u = exchanged(t, j, n - 1);
        lemma_exchanged_multiset(t, j, n - 1);
        assert(is_sorted_by(u, lt)) by {
            assert forall|a: int, b: int| 0 <= a < b < n implies !lt(
                #[trigger] u[b],
                #[trigger] u[a],
            ) by {
                if b == n - 1 {
                    if a > j {
                        assert(!lt(t[n - 1], t[a]));
                        lemma_not_precedes_transitive(lt, x, y, t[a]);
                    } else if a < j {
                        assert(!lt(t[j], t[a]));
                    }
                } else if b == j {
                    assert(!lt(t[n - 1], t[a]));
                } else if a == j {
                    assert(!lt(t[b], t[j]));
                    lemma_not_precedes_transitive(lt, t[b], x, y);
                } else {
                    assert(!lt(t[b], t[a]));
                }
            }
        }
        let s1 = s.drop_last();
        let u1 = u.drop_last();
        lemma_drop_last_multiset(s, u);
        assert(is_sorted_by(s1, lt)) by {
            assert forall|a: int, b: int| 0 <= a < b < s1.len() implies !lt(
                #[trigger] s1[b],
                #[trigger] s1[a],
            ) by {
                assert(s1[a] == s[a] && s1[b] == s[b]);
            }
        }
        assert(is_sorted_by(u1, lt)) by {
            assert forall|a: int, b: int| 0 <= a < b < u1.len() implies !lt(
                #[trigger] u1[b],
                #[trigger] u1[a],
            ) by {
                assert(u1[a] == u[a] && u1[b] == u[b]);
            }
        }
        lemma_sorted_rearrangements_level(s1, u1, lt);
        assert forall|k: int| 0 <= k < n implies equivalent(lt, #[trigger] s[k], t[k]) by {
            if k < n - 1 {
                assert(equivalent(lt, s1[k], u1[k]));
                assert(s1[k] == s[k] && u1[k] == u[k]);
                if k == j {
                    assert(equivalent(lt, y, x));
                    assert(equivalent(lt, s[k], y));
                }
            }
        }
    }
}

/// A sequence has one sorted rearrangement at most, when the relation is a
/// strict weak order that leaves no two different elements unordered.
pub proof fn lemma_sorted_rearrangement_unique<T>(s: Seq<T>, t: Seq<T>, lt: spec_fn(T, T) -> bool)
    requires
        is_strict_weak_order(lt),
        separates(lt, s),
        is_sorted_by(s, lt),
        is_sorted_by(t, lt),
        s.to_multiset() == t.to_multiset(),
    ensures
        s == t,
{
    broadcast use vstd::seq_lib::group_to_multiset_ensures;
    lemma_sorted_rearrangements_level(s, t, lt);
    assert forall|k: int| 0 <= k < s.len() implies s[k] == t[k] by {
        assert(t.contains(t[k]));
        assert(s.to_multiset().count(t[k]) > 0);
        assert(s.contains(t[k]));
        let i = choose|i: int| 0 <= i < s.len() && s[i] == t[k];
        assert(equivalent(lt, s[k], s[i]));
    }
    assert(s =~= t);
}

} // verus!
