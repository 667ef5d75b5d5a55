//! The order of the elements, as specifications see it.

use vstd::prelude::*;
use vstd::multiset::Multiset;
use vstd::std_specs::cmp::PartialOrdSpec;
use core::cmp::Ordering;

verus! {

/// `a` comes strictly before `b` in the order that `<` computes on `T`.
pub open spec fn lt<T: Ord>(a: T, b: T) -> bool {
    a.partial_cmp_spec(&b) == Some(Ordering::Less)
}

/// `a` does not come after `b`: `b` is not strictly before `a`.
pub open spec fn le<T: Ord>(a: T, b: T) -> bool {
    !lt(b, a)
}

/// The comparison of `T` is one that a priority queue can work with: `<` computes `lt`, no two
/// values are strictly before each other, and `le` is transitive. Then `le` is also reflexive
/// and total. Two different values may stand level, neither strictly before the other.
pub open spec fn total_order<T: Ord>() -> bool {
    &&& T::obeys_partial_cmp_spec()
    &&& forall|a: T, b: T| #[trigger] lt(a, b) ==> !lt(b, a)
    &&& forall|a: T, b: T, c: T| #[trigger] le(a, b) && #[trigger] le(b, c) ==> le(a, c)
}

/// No element of `items` comes strictly before an earlier one.
pub open spec fn sorted<T: Ord>(items: Seq<T>) -> bool {
    forall|i: int, j: int|
        0 <= i <= j < items.len() ==> le(#[trigger] items[i], #[trigger] items[j])
}

/// `value` is not after any element of `bag`.
pub open spec fn is_least<T: Ord>(value: T, bag: Multiset<T>) -> bool {
    forall|other: T| #[trigger] bag.count(other) > 0 ==> le(value, other)
}

/// Under a total order `le` is reflexive and total, and `lt` goes through `le` on either side.
pub proof fn lemma_total_order<T: Ord>()
    requires
        total_order::<T>(),
    ensures
        forall|a: T| #[trigger] le(a, a),
        forall|a: T, b: T| #[trigger] le(a, b) || le(b, a),
        forall|a: T, b: T, c: T| #[trigger] lt(a, b) && #[trigger] le(b, c) ==> lt(a, c),
        forall|a: T, b: T, c: T| #[trigger] le(a, b) && #[trigger] lt(b, c) ==> lt(a, c),
{
    assert forall|a: T| #[trigger] le(a, a) by {
        if lt(a, a) {
        }
    }
    assert forall|a: T, b: T| #[trigger] le(a, b) || le(b, a) by {
        if lt(b, a) {
        }
    }
    assert forall|a: T, b: T, c: T| #[trigger] lt(a, b) && #[trigger] le(b, c) implies lt(a, c) by {
        if le(c, a) {
            assert(le(b, a));
        }
    }
    assert forall|a: T, b: T, c: T| #[trigger] le(a, b) && #[trigger] lt(b, c) implies lt(a, c) by {
        if le(c, a) {
            assert(le(c, b));
        }
    }
}

/// A type whose comparisons keep the laws that `vstd` states for `Ord` has a total order.
pub proof fn lemma_lawful_order_is_total<T: Ord>()
    requires
        vstd::laws_cmp::obeys_cmp::<T>(),
    ensures
        total_order::<T>(),
{
    reveal(vstd::laws_cmp::obeys_cmp_partial_ord);
    reveal(vstd::laws_cmp::obeys_cmp_ord);
    reveal(vstd::laws_cmp::obeys_partial_cmp_spec_properties);
    reveal(vstd::laws_eq::obeys_eq_spec_properties);
}

/// Whether `a` is strictly before `b`.
pub(crate) fn less<T: Ord>(a: &T, b: &T) -> (r: bool)
    ensures
        T::obeys_partial_cmp_spec() ==> r == lt(*a, *b),
{
    *a < *b
}

} // verus!
