//! Rearrangements of a sequence: the exchange of two positions, what it
//! preserves, rearrangements confined to a range, and stable ones.

use vstd::prelude::*;
use crate::comparator::{answers_by, relation_of};

verus! {

/// `s` with the elements at `i` and `j` exchanged.
pub open spec fn exchanged<T>(s: Seq<T>, i: int, j: int) -> Seq<T> {
    s.update(i, s[j]).update(j, s[i])
}

/// `core::slice::swap`: exchanges the elements at the two indices and leaves
/// every other element in place. It panics when an index is out of bounds,
/// so both indices must lie inside the slice.
pub assume_specification<V>[ <[V]>::swap ](slice: &mut [V], a: usize, b: usize)
    requires
        a < old(slice)@.len(),
        b < old(slice)@.len(),
    ensures
        final(slice)@ == exchanged(old(slice)@, a as int, b as int),
;

/// Exchanging two positions keeps the multiset of elements.
pub proof fn lemma_exchanged_multiset<T>(s: Seq<T>, i: int, j: int)
    requires
        0 <= i < s.len(),
        0 <= j < s.len(),
    ensures
        exchanged(s, i, j).to_multiset() == s.to_multiset(),
        exchanged(s, i, j).len() == s.len(),
{
    broadcast use vstd::seq_lib::group_to_multiset_ensures;
    vstd::seq_lib::to_multiset_update(s, i, s[j]);
    vstd::seq_lib::to_multiset_update(s.update(i, s[j]), j, s[i]);
    assert(exchanged(s, i, j).to_multiset() =~= s.to_multiset());
}

/// A sequence of one element at most has no rearrangement but itself.
pub proof fn lemma_single_rearrangement<T>(s: Seq<T>, t: Seq<T>)
    requires
        s.len() <= 1,
        s.to_multiset() == t.to_multiset(),
    ensures
        s == t,
{
    broadcast use vstd::seq_lib::group_to_multiset_ensures;
    assert(s.len() == s.to_multiset().len() && t.len() == t.to_multiset().len());
    if s.len() == 1 {
        assert(t.contains(t[0]));
        assert(s.to_multiset().count(t[0]) > 0);
        assert(s.contains(t[0]));
    }
    assert(s =~= t);
}

/// `after` holds the elements of `before`, rearranged between `lo` and `hi`
/// only: outside that range every element stands where it stood.
pub open spec fn is_rearranged_within<T>(before: Seq<T>, after: Seq<T>, lo: int, hi: int) -> bool {
    &&& after.len() == before.len()
    &&& 0 <= lo <= hi <= before.len()
    &&& forall|k: int| 0 <= k < lo || hi <= k < before.len() ==> #[trigger] after[k] == before[k]
    &&& after.subrange(lo, hi).to_multiset() == before.subrange(lo, hi).to_multiset()
}

/// Exchanging two positions of a range rearranges within that range.
pub proof fn lemma_exchanged_within<T>(s: Seq<T>, lo: int, hi: int, i: int, j: int)
    requires
        0 <= lo <= i < hi <= s.len(),
        lo <= j < hi,
    ensures
        is_rearranged_within(s, exchanged(s, i, j), lo, hi),
{
    let inner = s.subrange(lo, hi);
    assert(exchanged(s, i, j).subrange(lo, hi) =~= exchanged(inner, i - lo, j - lo));
    lemma_exchanged_multiset(inner, i - lo, j - lo);
}

/// Rearranging within a range twice is rearranging within it.
pub proof fn lemma_rearranged_within_transitive<T>(
    a: Seq<T>,
    b: Seq<T>,
    c: Seq<T>,
    lo: int,
    hi: int,
)
    requires
        is_rearranged_within(a, b, lo, hi),
        is_rearranged_within(b, c, lo, hi),
    ensures
        is_rearranged_within(a, c, lo, hi),
{
}

/// Rearranging within a range is rearranging within every wider range.
pub proof fn lemma_rearranged_within_wider<T>(
    a: Seq<T>,
    b: Seq<T>,
    lo: int,
    hi: int,
    wide_lo: int,
    wide_hi: int,
)
    requires
        is_rearranged_within(a, b, lo, hi),
        0 <= wide_lo <= lo,
        hi <= wide_hi <= a.len(),
    ensures
        is_rearranged_within(a, b, wide_lo, wide_hi),
{
    let head = a.subrange(wide_lo, lo);
    let tail = a.subrange(hi, wide_hi);
    assert(b.subrange(wide_lo, lo) =~= head);
    assert(b.subrange(hi, wide_hi) =~= tail);
    assert(a.subrange(wide_lo, wide_hi) =~= head + a.subrange(lo, hi) + tail);
    assert(b.subrange(wide_lo, wide_hi) =~= head + b.subrange(lo, hi) + tail);
    vstd::seq_lib::lemma_multiset_commutative(head + a.subrange(lo, hi), tail);
    vstd::seq_lib::lemma_multiset_commutative(head, a.subrange(lo, hi));
    vstd::seq_lib::lemma_multiset_commutative(head + b.subrange(lo, hi), tail);
    vstd::seq_lib::lemma_multiset_commutative(head, b.subrange(lo, hi));
}

/// Rearranging within a range keeps the multiset of all elements.
pub proof fn lemma_rearranged_within_multiset<T>(a: Seq<T>, b: Seq<T>, lo: int, hi: int)
    requires
        is_rearranged_within(a, b, lo, hi),
    ensures
        a.to_multiset() == b.to_multiset(),
{
    lemma_rearranged_within_wider(a, b, lo, hi, 0, a.len() as int);
    assert(a.subrange(0, a.len() as int) =~= a);
    assert(b.subrange(0, b.len() as int) =~= b);
}

/// After a rearrangement within a range, each element of the range stood in
/// the range before.
pub proof fn lemma_rearranged_within_source<T>(a: Seq<T>, b: Seq<T>, lo: int, hi: int, k: int)
    requires
        is_rearranged_within(a, b, lo, hi),
        lo <= k < hi,
    ensures
        exists|j: int| lo <= j < hi && b[k] == a[j],
{
    broadcast use vstd::seq_lib::group_to_multiset_ensures;
    let x = b[k];
    assert(b.subrange(lo, hi)[k - lo] == x);
    assert(b.subrange(lo, hi).contains(x));
    assert(b.subrange(lo, hi).to_multiset().count(x) > 0);
    assert(a.subrange(lo, hi).contains(x));
    let j = choose|j: int| 0 <= j < hi - lo && a.subrange(lo, hi)[j] == x;
    assert(a[lo + j] == x);
}

/// Two sequences with the same elements that agree from `mid` on have the
/// same elements before `mid`: each element of `t` before `mid` stands in
/// `s` before `mid`.
pub proof fn lemma_same_elements_before<T>(s: Seq<T>, t: Seq<T>, mid: int, k: int)
    requires
        s.len() == t.len(),
        s.to_multiset() == t.to_multiset(),
        0 <= k < mid <= s.len(),
        forall|j: int| mid <= j < s.len() ==> t[j] == s[j],
    ensures
        exists|j: int| 0 <= j < mid && t[k] == s[j],
{
    broadcast use vstd::seq_lib::group_to_multiset_ensures;
    let n = s.len() as int;
    let tail = s.subrange(mid, n);
    assert(t.subrange(mid, n) =~= tail);
    assert(s =~= s.subrange(0, mid) + tail);
    assert(t =~= t.subrange(0, mid) + tail);
    vstd::seq_lib::lemma_multiset_commutative(s.subrange(0, mid), tail);
    vstd::seq_lib::lemma_multiset_commutative(t.subrange(0, mid), tail);
    let ms = s.subrange(0, mid).to_multiset();
    let mt = t.subrange(0, mid).to_multiset();
    assert(ms.add(tail.to_multiset()) == mt.add(tail.to_multiset()));
    let x = t[k];
    assert(t.subrange(0, mid)[k] == x);
    assert(t.subrange(0, mid).contains(x));
    assert(mt.count(x) > 0);
    assert(ms.add(tail.to_multiset()).count(x) == mt.add(tail.to_multiset()).count(x));
    assert(ms.count(x) > 0);
    assert(s.subrange(0, mid).contains(x));
    let j = choose|j: int| 0 <= j < mid && s.subrange(0, mid)[j] == x;
    assert(s[j] == x);
}

/// `origin` says where each element of `after` stood in `before`: position
/// `k` of `after` holds the element that was at `origin[k]`, and no position
/// of `before` is used twice.
pub open spec fn is_arranged_from<T>(before: Seq<T>, after: Seq<T>, origin: Seq<int>) -> bool {
    &&& after.len() == before.len()
    &&& origin.len() == before.len()
    &&& forall|k: int|
        0 <= k < after.len() ==> 0 <= #[trigger] origin[k] < before.len() && after[k]
            == before[origin[k]]
    &&& forall|i: int, j: int|
        0 <= i < j < after.len() ==> #[trigger] origin[i] != #[trigger] origin[j]
}

/// Two elements stand in the opposite order to the one they came in only
/// where the first precedes the second.
pub open spec fn moves_only_ordered_pairs<T>(
    after: Seq<T>,
    origin: Seq<int>,
    lt: spec_fn(T, T) -> bool,
) -> bool {
    forall|i: int, j: int|
        0 <= i < j < after.len() && #[trigger] origin[i] > #[trigger] origin[j] ==> lt(
            after[i],
            after[j],
        )
}

/// `after` is a stable rearrangement of `before`: elements of which neither
/// precedes the other keep the order in which they came.
pub open spec fn is_stable_rearrangement<T>(
    before: Seq<T>,
    after: Seq<T>,
    lt: spec_fn(T, T) -> bool,
) -> bool {
    exists|origin: Seq<int>|
        #[trigger] is_arranged_from(before, after, origin) && moves_only_ordered_pairs(
            after,
            origin,
            lt,
        )
}

/// A rearrangement that is stable by the answers of a predicate is stable by
/// every relation that the predicate answers by.
pub proof fn lemma_stable_by_answers<T, P: Fn(&T, &T) -> bool>(
    before: Seq<T>,
    after: Seq<T>,
    p: P,
    lt: spec_fn(T, T) -> bool,
)
    requires
        answers_by(p, lt),
        is_stable_rearrangement(before, after, relation_of(p)),
    ensures
        is_stable_rearrangement(before, after, lt),
{
    let origin = choose|origin: Seq<int>|
        #[trigger] is_arranged_from(before, after, origin) && moves_only_ordered_pairs(
            after,
            origin,
            relation_of(p),
        );
    assert(moves_only_ordered_pairs(after, origin, lt)) by {
        assert forall|i: int, j: int|
            0 <= i < j < after.len() && #[trigger] origin[i] > #[trigger] origin[j] implies lt(
            after[i],
            after[j],
        ) by {
            assert(relation_of(p)(after[i], after[j]));
        }
    }
}

} // verus!
