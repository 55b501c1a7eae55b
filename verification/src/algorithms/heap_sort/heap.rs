//! A binary heap laid out in a slice: the children of the node at index `k`
//! stand at `2k + 1` and `2k + 2`, and no node precedes one of its children,
//! so the root holds an element that would sort last.

use vstd::prelude::*;
use crate::comparator::{
    accepts_all, answers_by, is_comparator_for, is_strict_weak_order, lemma_not_precedes_transitive,
};
use crate::rearrange::lemma_exchanged_multiset;

verus! {

/// Index of the parent of the node at index `k`, for `k > 0`.
pub open spec fn parent(k: int) -> int {
    (k - 1) / 2
}

/// The node at `k` lies in the subtree rooted at `root`.
pub open spec fn in_subtree(root: int, k: int) -> bool
    decreases k,
{
    if k <= root || k <= 0 {
        k == root
    } else {
        in_subtree(root, parent(k))
    }
}

/// The node at `c` is not preceded by its parent.
pub open spec fn parent_dominates<T>(s: Seq<T>, c: int, lt: spec_fn(T, T) -> bool) -> bool {
    !lt(s[parent(c)], s[c])
}

/// The first `bound` elements of `s` form a heap.
pub open spec fn is_heap<T>(s: Seq<T>, bound: int, lt: spec_fn(T, T) -> bool) -> bool {
    forall|c: int| 0 < c < bound ==> #[trigger] parent_dominates(s, c, lt)
}

/// The nodes below `bound` in the subtree rooted at `root` form a heap.
pub open spec fn is_heap_below<T>(
    s: Seq<T>,
    root: int,
    bound: int,
    lt: spec_fn(T, T) -> bool,
) -> bool {
    forall|c: int| root < c < bound && in_subtree(root, c) ==> #[trigger] parent_dominates(s, c, lt)
}

/// The subtrees of both children of the node at `i` are heaps below `bound`.
pub open spec fn children_are_heaps<T>(
    s: Seq<T>,
    i: int,
    bound: int,
    lt: spec_fn(T, T) -> bool,
) -> bool {
    is_heap_below(s, 2 * i + 1, bound, lt) && is_heap_below(s, 2 * i + 2, bound, lt)
}

/// The nodes below `bound` whose parent stands at `from` or after it are not
/// preceded by their parents.
pub open spec fn is_heap_from<T>(
    s: Seq<T>,
    from: int,
    bound: int,
    lt: spec_fn(T, T) -> bool,
) -> bool {
    forall|c: int| 0 < c < bound && parent(c) >= from ==> #[trigger] parent_dominates(s, c, lt)
}

/// The element of `s` at `k` precedes no element of `s`.
pub open spec fn is_greatest<T>(s: Seq<T>, k: int, lt: spec_fn(T, T) -> bool) -> bool {
    forall|j: int| 0 <= j < s.len() ==> !lt(s[k], #[trigger] s[j])
}

/// Index of the node whose element one step of sinking brings to `i`: `i`
/// itself, or the child that takes its place. The left child takes the place
/// of `i` unless it precedes the element there; the right child then takes
/// the place of whichever of the two was kept, unless it precedes that one.
/// So a child that is level with the greatest seen so far rises.
pub open spec fn rising_node<T>(s: Seq<T>, i: int, bound: int, lt: spec_fn(T, T) -> bool) -> int {
    let left = 2 * i + 1;
    let right = 2 * i + 2;
    let kept = if left < bound && !lt(s[left], s[i]) {
        left
    } else {
        i
    };
    if right < bound && !lt(s[right], s[kept]) {
        right
    } else {
        kept
    }
}

/// Rearranges the whole of `data` into a heap, sinking every node that has a
/// child, from the last such node back to the root.
///
/// For every strict weak order that the predicate answers by, the result is
/// a heap, and so its first element precedes no other.
pub fn create_heap_by_predicate<T, P>(data: &mut [T], predicate: &P)
    where P: Fn(&T, &T) -> bool
    requires
        accepts_all(*predicate),
    ensures
        final(data)@.len() == old(data)@.len(),
        final(data)@.to_multiset() == old(data)@.to_multiset(),
        forall|lt: spec_fn(T, T) -> bool| #[trigger]
            is_comparator_for(*predicate, lt) ==> is_heap(
                final(data)@,
                final(data)@.len() as int,
                lt,
            ) && is_greatest(final(data)@, 0, lt),
{
    let l = data.len();
    let mut i: usize = l / 2;
    while i > 0
        invariant
            i <= l / 2,
            l == data@.len(),
            data@.len() == old(data)@.len(),
            accepts_all(*predicate),
            data@.to_multiset() == old(data)@.to_multiset(),
            forall|lt: spec_fn(T, T) -> bool| #[trigger]
                is_comparator_for(*predicate, lt) ==> is_heap_from(data@, i as int, l as int, lt),
        decreases i,
    {
        i -= 1;
        let ghost before = data@;
        proof {
            assert forall|lt: spec_fn(T, T) -> bool| #[trigger]
                is_comparator_for(*predicate, lt) implies children_are_heaps(
                before,
                i as int,
                l as int,
                lt,
            ) by {
                assert(is_heap_from(before, i + 1, l as int, lt));
                assert forall|c: int|
                    2 * i + 1 < c < l && in_subtree(2 * i + 1, c) implies #[trigger] parent_dominates(
                    before,
                    c,
                    lt,
                ) by {
                    assert(in_subtree(2 * i + 1, parent(c)));
                }
                assert forall|c: int|
                    2 * i + 2 < c < l && in_subtree(2 * i + 2, c) implies #[trigger] parent_dominates(
                    before,
                    c,
                    lt,
                ) by {
                    assert(in_subtree(2 * i + 2, parent(c)));
                }
            }
        }
        down_heap_by_predicate(data, i, l, predicate);
        proof {
            assert forall|lt: spec_fn(T, T) -> bool| #[trigger]
                is_comparator_for(*predicate, lt) implies is_heap_from(
                data@,
                i as int,
                l as int,
                lt,
            ) by {
                assert(is_heap_from(before, i + 1, l as int, lt));
                assert(children_are_heaps(before, i as int, l as int, lt));
                assert forall|c: int| 0 < c < l && parent(c) >= i implies #[trigger] parent_dominates(
                    data@,
                    c,
                    lt,
                ) by {
                    if !in_subtree(i as int, c) {
                        assert(!in_subtree(i as int, parent(c)));
                        assert(parent_dominates(before, c, lt));
                    }
                }
            }
        }
    }
    proof {
        assert forall|lt: spec_fn(T, T) -> bool| #[trigger]
            is_comparator_for(*predicate, lt) implies is_heap(data@, l as int, lt) && is_greatest(
            data@,
            0,
            lt,
        ) by {
            assert(is_heap_from(data@, 0, l as int, lt));
            assert(is_heap(data@, l as int, lt));
            assert forall|k: int| 0 <= k < l implies !lt(data@[0], #[trigger] data@[k]) by {
                lemma_heap_root_is_greatest(data@, l as int, lt, k);
            }
        }
    }
}

/// Restores the heap in the subtree rooted at `i`, among the first `l`
/// elements, when only the root may be out of place: the root sinks,
/// exchanged each time with its greater child, until it precedes neither
/// child. A child that is level with the greatest seen so far takes its
/// place.
///
/// Only nodes of that subtree below `l` move. For every relation that the
/// predicate answers by, the element that ends at `i` is the one that
/// `rising_node` names; and if the relation is a strict weak order and the
/// subtrees of both children of `i` were heaps, the subtree of `i` is a heap
/// afterwards.
pub fn down_heap_by_predicate<T, P>(data: &mut [T], i: usize, l: usize, predicate: &P)
    where P: Fn(&T, &T) -> bool
    requires
        l <= old(data)@.len(),
        accepts_all(*predicate),
    ensures
        final(data)@.len() == old(data)@.len(),
        final(data)@.to_multiset() == old(data)@.to_multiset(),
        forall|k: int|
            0 <= k < old(data)@.len() && (k >= l || !in_subtree(i as int, k))
                ==> #[trigger] final(data)@[k] == old(data)@[k],
        2 * i + 1 >= l ==> final(data)@ == old(data)@,
        forall|lt: spec_fn(T, T) -> bool| #[trigger]
            answers_by(*predicate, lt) && i < l ==> final(data)@[i as int] == old(
                data,
            )@[rising_node(old(data)@, i as int, l as int, lt)],
        forall|lt: spec_fn(T, T) -> bool| #[trigger]
            is_comparator_for(*predicate, lt) && children_are_heaps(
                old(data)@,
                i as int,
                l as int,
                lt,
            ) ==> is_heap_below(final(data)@, i as int, l as int, lt),
    decreases l - i,
{
    let ghost s0 = data@;
    if i >= l / 2 {
        // No child of `i` stands below `l`.
        proof {
            assert(in_subtree(i as int, i as int));
            assert forall|lt: spec_fn(T, T) -> bool| #[trigger]
                is_comparator_for(*predicate, lt) && children_are_heaps(
                    s0,
                    i as int,
                    l as int,
                    lt,
                ) implies is_heap_below(s0, i as int, l as int, lt) by {
                lemma_heap_from_children(s0, i as int, l as int, lt);
            }
        }
        return ;
    }
    let left: usize = 2 * i + 1;
    let right: usize = left + 1;
    let mut max: usize = i;
    if !predicate(&data[left], &data[max]) {
        max = left;
    }
    let ghost first = max;
    if right < l && !predicate(&data[right], &data[max]) {
        max = right;
    }
    if max != i {
        let ghost other = if max == left {
            right
        } else {
            left
        };
        data.swap(max, i);
        let ghost s1 = data@;
        proof {
            lemma_exchanged_multiset(s0, max as int, i as int);
            assert(parent(max as int) == i);
            assert(in_subtree(max as int, max as int));
            lemma_child_subtree_in_subtree(i as int, max as int);
        }
        down_heap_by_predicate(data, max, l, predicate);
        proof {
            let s2 = data@;
            assert forall|k: int|
                0 <= k < s0.len() && (k >= l || !in_subtree(i as int, k)) implies #[trigger] s2[k]
                == s0[k] by {
                if in_subtree(max as int, k) {
                    lemma_child_subtree_in_subtree(i as int, k);
                }
                assert(s2[k] == s1[k]);
            }
            assert(s2[i as int] == s1[i as int]);
            assert(s2[i as int] == s0[max as int]);
            assert forall|lt: spec_fn(T, T) -> bool| #[trigger]
                is_comparator_for(*predicate, lt) && children_are_heaps(
                    s0,
                    i as int,
                    l as int,
                    lt,
                ) implies is_heap_below(s2, i as int, l as int, lt) by {
                // The greater child went up: it precedes neither the old root nor its sibling.
                assert(!lt(s0[max as int], s0[i as int])) by {
                    if max == right && first == left {
                        lemma_not_precedes_transitive(
                            lt,
                            s0[right as int],
                            s0[left as int],
                            s0[i as int],
                        );
                    }
                }
                assert(other < l ==> !lt(s0[max as int], s0[other as int])) by {
                    if max == left {
                        if right < l {
                            assert(lt(s0[right as int], s0[left as int]));
                        }
                    } else if first == left {
                        assert(!lt(s0[right as int], s0[left as int]));
                    } else {
                        assert(lt(s0[left as int], s0[i as int]));
                        assert(!lt(s0[right as int], s0[i as int]));
                    }
                }
                // The subtree that the old root sank into is a heap again.
                lemma_heap_children(s0, max as int, l as int, lt);
                lemma_heap_unchanged(s0, s1, 2 * max + 1, l as int, lt);
                lemma_heap_unchanged(s0, s1, 2 * max + 2, l as int, lt);
                assert(children_are_heaps(s1, max as int, l as int, lt));
                assert(is_heap_below(s2, max as int, l as int, lt));
                // Its new root came from that subtree, where the risen child was greatest.
                let k0 = rising_node(s1, max as int, l as int, lt);
                assert(s2[max as int] == s1[k0]);
                assert(!lt(s2[i as int], s2[max as int])) by {
                    if k0 != max {
                        assert(parent(k0) == max);
                        assert(in_subtree(max as int, k0));
                        lemma_heap_root_dominates(s0, max as int, l as int, lt, k0);
                    }
                }
                // The sibling's subtree did not move.
                assert forall|k: int|
                    other <= k < l && in_subtree(other as int, k) implies s2[k] == s0[k] by {
                    lemma_sibling_subtrees_disjoint(i as int, k);
                    assert(s2[k] == s1[k]);
                }
                lemma_heap_unchanged(s0, s2, other as int, l as int, lt);
                if other < l {
                    assert(in_subtree(other as int, other as int));
                }
                lemma_heap_from_children(s2, i as int, l as int, lt);
            }
        }
    } else {
        proof {
            assert(in_subtree(i as int, i as int));
            assert forall|lt: spec_fn(T, T) -> bool| #[trigger]
                is_comparator_for(*predicate, lt) && children_are_heaps(
                    s0,
                    i as int,
                    l as int,
                    lt,
                ) implies is_heap_below(s0, i as int, l as int, lt) by {
                lemma_heap_from_children(s0, i as int, l as int, lt);
            }
        }
    }
}

/// The subtree of a node holds the subtrees of its two children.
pub proof fn lemma_child_subtree_in_subtree(root: int, k: int)
    requires
        0 <= root,
        in_subtree(2 * root + 1, k) || in_subtree(2 * root + 2, k),
    ensures
        in_subtree(root, k),
    decreases k,
{
    if k > 2 * root + 2 || (k > 2 * root + 1 && in_subtree(2 * root + 1, k)) {
        lemma_child_subtree_in_subtree(root, parent(k));
    } else {
        assert(parent(k) == root);
        assert(in_subtree(root, root));
    }
}

/// A node of a subtree other than its root lies in the subtree of one of the
/// root's two children.
pub proof fn lemma_subtree_splits(root: int, k: int)
    requires
        0 <= root < k,
        in_subtree(root, k),
    ensures
        in_subtree(2 * root + 1, k) || in_subtree(2 * root + 2, k),
    decreases k,
{
    let pk = parent(k);
    assert(in_subtree(root, pk));
    if pk == root {
        assert(k == 2 * root + 1 || k == 2 * root + 2);
    } else {
        lemma_subtree_splits(root, pk);
    }
}

/// The subtrees of the two children of a node share no node.
pub proof fn lemma_sibling_subtrees_disjoint(root: int, k: int)
    requires
        0 <= root,
    ensures
        !(in_subtree(2 * root + 1, k) && in_subtree(2 * root + 2, k)),
    decreases k,
{
    if k > 2 * root + 2 {
        lemma_sibling_subtrees_disjoint(root, parent(k));
    } else if k == 2 * root + 2 {
        assert(parent(k) == root);
        assert(!in_subtree(2 * root + 1, root));
    }
}

/// Every node lies in the subtree of the root of the whole tree.
pub proof fn lemma_all_in_root_subtree(k: int)
    requires
        0 <= k,
    ensures
        in_subtree(0, k),
    decreases k,
{
    if k > 0 {
        lemma_all_in_root_subtree(parent(k));
    }
}

/// In a heap, the root of a subtree precedes none of the subtree's nodes.
pub proof fn lemma_heap_root_dominates<T>(
    s: Seq<T>,
    root: int,
    bound: int,
    lt: spec_fn(T, T) -> bool,
    k: int,
)
    requires
        is_strict_weak_order(lt),
        is_heap_below(s, root, bound, lt),
        0 <= root <= k < bound <= s.len(),
        in_subtree(root, k),
    ensures
        !lt(s[root], s[k]),
    decreases k,
{
    if k > root {
        assert(in_subtree(root, parent(k)));
        lemma_heap_root_dominates(s, root, bound, lt, parent(k));
        assert(parent_dominates(s, k, lt));
        lemma_not_precedes_transitive(lt, s[root], s[parent(k)], s[k]);
    }
}

/// In a heap, the root precedes none of the elements.
pub proof fn lemma_heap_root_is_greatest<T>(
    s: Seq<T>,
    bound: int,
    lt: spec_fn(T, T) -> bool,
    k: int,
)
    requires
        is_strict_weak_order(lt),
        is_heap(s, bound, lt),
        0 <= k < bound <= s.len(),
    ensures
        !lt(s[0], s[k]),
{
    lemma_all_in_root_subtree(k);
    lemma_heap_root_dominates(s, 0, bound, lt, k);
}

/// A subtree is a heap when the subtrees of the root's children are heaps
/// and the root precedes neither child.
pub proof fn lemma_heap_from_children<T>(
    s: Seq<T>,
    root: int,
    bound: int,
    lt: spec_fn(T, T) -> bool,
)
    requires
        0 <= root,
        is_heap_below(s, 2 * root + 1, bound, lt),
        is_heap_below(s, 2 * root + 2, bound, lt),
        2 * root + 1 < bound ==> !lt(s[root], s[2 * root + 1]),
        2 * root + 2 < bound ==> !lt(s[root], s[2 * root + 2]),
    ensures
        is_heap_below(s, root, bound, lt),
{
    assert forall|c: int| root < c < bound && in_subtree(root, c) implies #[trigger] parent_dominates(
        s,
        c,
        lt,
    ) by {
        lemma_subtree_splits(root, c);
        if c == 2 * root + 1 || c == 2 * root + 2 {
            assert(parent(c) == root);
        }
    }
}

/// The subtrees of the children of a heap's root are heaps.
pub proof fn lemma_heap_children<T>(s: Seq<T>, root: int, bound: int, lt: spec_fn(T, T) -> bool)
    requires
        0 <= root,
        is_heap_below(s, root, bound, lt),
    ensures
        is_heap_below(s, 2 * root + 1, bound, lt),
        is_heap_below(s, 2 * root + 2, bound, lt),
{
    assert forall|c: int|
        2 * root + 1 < c < bound && in_subtree(2 * root + 1, c) implies #[trigger] parent_dominates(
        s,
        c,
        lt,
    ) by {
        lemma_child_subtree_in_subtree(root, c);
    }
    assert forall|c: int|
        2 * root + 2 < c < bound && in_subtree(2 * root + 2, c) implies #[trigger] parent_dominates(
        s,
        c,
        lt,
    ) by {
        lemma_child_subtree_in_subtree(root, c);
    }
}

/// A heap stays a heap where none of its nodes changes.
pub proof fn lemma_heap_unchanged<T>(
    s: Seq<T>,
    t: Seq<T>,
    root: int,
    bound: int,
    lt: spec_fn(T, T) -> bool,
)
    requires
        0 <= root,
        is_heap_below(s, root, bound, lt),
        forall|k: int| root <= k < bound && in_subtree(root, k) ==> t[k] == s[k],
    ensures
        is_heap_below(t, root, bound, lt),
{
    assert forall|c: int| root < c < bound && in_subtree(root, c) implies #[trigger] parent_dominates(
        t,
        c,
        lt,
    ) by {
        assert(parent_dominates(s, c, lt));
        assert(in_subtree(root, parent(c)));
    }
}

} // verus!
