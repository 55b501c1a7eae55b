//! The comparator model: the answers that a predicate may give, the
//! relations that it answers by, and when such a relation is a strict weak
//! order.
//!
//! A relation is written `lt` throughout: `lt(a, b)` says that `a` precedes
//! `b`, that is, that `a` must stand before `b` in a sorted buffer. For a
//! descending sort `lt` is "greater than".

use vstd::prelude::*;
use vstd::std_specs::cmp::PartialOrdSpec;
use core::cmp::Ordering;
use crate::Order;

verus! {

/// The predicate may be called on every pair of elements.
pub open spec fn accepts_all<T, P: Fn(&T, &T) -> bool>(p: P) -> bool {
    forall|a: T, b: T| #[trigger] call_requires(p, (&a, &b))
}

/// The predicate may give the answer `r` when asked whether `a` precedes `b`.
#[verifier::inline]
pub open spec fn may_answer<T, P: Fn(&T, &T) -> bool>(p: P, a: T, b: T, r: bool) -> bool {
    call_ensures(p, (&a, &b), r)
}

/// The pairs on which the predicate may answer that the first element
/// precedes the second.
pub open spec fn relation_of<T, P: Fn(&T, &T) -> bool>(p: P) -> spec_fn(T, T) -> bool {
    |a: T, b: T| may_answer(p, a, b, true)
}

/// The predicate answers by the relation `lt`: whatever it answers on a pair
/// is what `lt` says of that pair.
pub open spec fn answers_by<T, P: Fn(&T, &T) -> bool>(p: P, lt: spec_fn(T, T) -> bool) -> bool {
    forall|a: T, b: T, r: bool| #[trigger] may_answer(p, a, b, r) ==> r == lt(a, b)
}

/// Neither element precedes the other.
pub open spec fn equivalent<T>(lt: spec_fn(T, T) -> bool, a: T, b: T) -> bool {
    !lt(a, b) && !lt(b, a)
}

/// The relation is a strict weak order: irreflexive, asymmetric, transitive,
/// and with a transitive equivalence.
pub open spec fn is_strict_weak_order<T>(lt: spec_fn(T, T) -> bool) -> bool {
    &&& forall|a: T| !#[trigger] lt(a, a)
    &&& forall|a: T, b: T| #[trigger] lt(a, b) ==> !lt(b, a)
    &&& forall|a: T, b: T, c: T| #[trigger] lt(a, b) && #[trigger] lt(b, c) ==> lt(a, c)
    &&& forall|a: T, b: T, c: T|
        #[trigger] equivalent(lt, a, b) && #[trigger] equivalent(lt, b, c) ==> equivalent(
            lt,
            a,
            c,
        )
}

/// The predicate is a comparator for `lt`: it answers by `lt`, and `lt` is a
/// strict weak order.
pub open spec fn is_comparator_for<T, P: Fn(&T, &T) -> bool>(
    p: P,
    lt: spec_fn(T, T) -> bool,
) -> bool {
    answers_by(p, lt) && is_strict_weak_order(lt)
}

/// The comparison operators of `T` follow its specified ordering.
pub open spec fn has_specified_order<T: PartialOrd>() -> bool {
    T::obeys_partial_cmp_spec()
}

/// The "precedes" relation of a direction over the ordering of `T`: less
/// than for ascending, greater than for descending.
pub open spec fn natural_order<T: PartialOrd>(order: Order) -> spec_fn(T, T) -> bool {
    |a: T, b: T|
        match order {
            Order::Asc => a.partial_cmp_spec(&b) == Some(Ordering::Less),
            Order::Desc => a.partial_cmp_spec(&b) == Some(Ordering::Greater),
        }
}

/// The comparator of ascending order: whether `a` is less than `b`.
pub fn ascending<T: PartialOrd>(a: &T, b: &T) -> (r: bool)
    ensures
        has_specified_order::<T>() ==> r == natural_order::<T>(Order::Asc)(*a, *b),
{
    a < b
}

/// The comparator of descending order: whether `a` is greater than `b`.
pub fn descending<T: PartialOrd>(a: &T, b: &T) -> (r: bool)
    ensures
        has_specified_order::<T>() ==> r == natural_order::<T>(Order::Desc)(*a, *b),
{
    a > b
}

/// Where the operators of `T` follow its specified ordering, the two
/// comparators answer by the relation of their direction.
pub proof fn lemma_natural_comparators<T: PartialOrd>()
    requires
        has_specified_order::<T>(),
    ensures
        answers_by(ascending::<T>, natural_order::<T>(Order::Asc)),
        answers_by(descending::<T>, natural_order::<T>(Order::Desc)),
        accepts_all(ascending::<T>),
        accepts_all(descending::<T>),
{
}

/// Under a strict weak order, "does not precede" is transitive.
pub proof fn lemma_not_precedes_transitive<T>(lt: spec_fn(T, T) -> bool, a: T, b: T, c: T)
    requires
        is_strict_weak_order(lt),
        !lt(a, b),
        !lt(b, c),
    ensures
        !lt(a, c),
{
    if lt(a, c) {
        if lt(b, a) {
            assert(lt(b, c));
        } else if lt(c, b) {
            assert(lt(a, b));
        } else {
            assert(equivalent(lt, a, b));
            assert(equivalent(lt, b, c));
            assert(equivalent(lt, a, c));
        }
    }
}

} // verus!
