//! Precedence between two items: what a three-way comparison says, and the
//! vocabulary in which the algorithms' contracts speak of a comparison.

use std::cmp::Ordering;
use vstd::prelude::*;
use vstd::std_specs::cmp::OrdSpec;
use vstd::std_specs::cmp::PartialOrdSpec;

verus! {

/// `compare` may be called on every pair of items.
pub open spec fn callable<T, F: Fn(&T, &T) -> Ordering>(compare: F) -> bool {
    forall|a: T, b: T| #[trigger] compare.requires((&a, &b))
}

/// Whatever `compare` answers for a pair of items is what `rel` says of it.
pub open spec fn decides<T, F: Fn(
    &T,
    &T,
) -> Ordering>(compare: F, rel: spec_fn(T, T) -> Ordering) -> bool {
    forall|a: T, b: T, o: Ordering| #[trigger] compare.ensures((&a, &b), o) ==> o == rel(a, b)
}

/// The natural order of `T` as a relation.
pub open spec fn natural<T: Ord>() -> spec_fn(T, T) -> Ordering {
    |a: T, b: T| a.cmp_spec(&b)
}

/// `a` may stand before `b` in a sequence that runs in the given direction:
/// going up, `a` is not greater than `b`; going down, `a` is not less.
pub open spec fn precedes<T>(rel: spec_fn(T, T) -> Ordering, ascending: bool, a: T, b: T) -> bool {
    !says_after(rel(a, b), ascending)
}

/// `rel` orders the items of `T` consistently: whenever `a` is less than `b`,
/// `b` is greater than `a`, and "not greater than" is transitive.
#[verifier::opaque]
pub open spec fn weak_order<T>(rel: spec_fn(T, T) -> Ordering) -> bool {
    &&& forall|a: T, b: T| #![trigger rel(a, b)] rel(a, b) is Less <==> rel(b, a) is Greater
    &&& forall|a: T, b: T, c: T|
        #![trigger rel(a, b), rel(b, c)]
        !(rel(a, b) is Greater) && !(rel(b, c) is Greater) ==> !(rel(a, c) is Greater)
}

/// `compare` may be called on every pair of items, and its answers are those
/// of some weak order.
pub open spec fn is_weak_order<T, F: Fn(&T, &T) -> Ordering>(compare: F) -> bool {
    &&& callable(compare)
    &&& exists|rel: spec_fn(T, T) -> Ordering| #[trigger] decides(compare, rel) && weak_order(rel)
}

/// Of two items, one may stand before the other.
pub proof fn lemma_precedes_total<T>(rel: spec_fn(T, T) -> Ordering, ascending: bool, a: T, b: T)
    requires
        weak_order(rel),
    ensures
        precedes(rel, ascending, a, b) || precedes(rel, ascending, b, a),
        rel(a, b) is Equal <==> rel(b, a) is Equal,
        rel(a, b) is Less <==> rel(b, a) is Greater,
        precedes(rel, ascending, a, b) <==> precedes(rel, !ascending, b, a),
{
    reveal(weak_order);
    assert(rel(a, b) is Less <==> rel(b, a) is Greater);
    assert(rel(b, a) is Less <==> rel(a, b) is Greater);
}

/// Standing before is transitive.
pub proof fn lemma_precedes_transitive<T>(
    rel: spec_fn(T, T) -> Ordering,
    ascending: bool,
    a: T,
    b: T,
    c: T,
)
    requires
        weak_order(rel),
        precedes(rel, ascending, a, b),
        precedes(rel, ascending, b, c),
    ensures
        precedes(rel, ascending, a, c),
{
    reveal(weak_order);
    if ascending {
        assert(!(rel(a, b) is Greater) && !(rel(b, c) is Greater) ==> !(rel(a, c) is Greater));
    } else {
        assert(rel(a, b) is Less <==> rel(b, a) is Greater);
        assert(rel(b, c) is Less <==> rel(c, b) is Greater);
        assert(rel(a, c) is Less <==> rel(c, a) is Greater);
        assert(!(rel(c, b) is Greater) && !(rel(b, a) is Greater) ==> !(rel(c, a) is Greater));
    }
}

/// The natural order of a type whose `Ord` keeps the laws is a weak order.
pub proof fn lemma_natural_weak_order<T: Ord>()
    requires
        vstd::laws_cmp::obeys_cmp::<T>(),
    ensures
        weak_order(natural::<T>()),
{
    reveal(weak_order);
    reveal(vstd::laws_cmp::obeys_cmp_ord);
    reveal(vstd::laws_cmp::obeys_cmp_partial_ord);
    reveal(vstd::laws_cmp::obeys_partial_cmp_spec_properties);
    reveal(vstd::laws_eq::obeys_eq_spec_properties);
    let rel = natural::<T>();
    assert forall|a: T, b: T| #![trigger rel(a, b)] rel(a, b) is Less <==> rel(b, a) is Greater by {
        assert(a.partial_cmp_spec(&b) == Some(a.cmp_spec(&b)));
        assert(b.partial_cmp_spec(&a) == Some(b.cmp_spec(&a)));
    }
    assert forall|a: T, b: T, c: T|
        #![trigger rel(a, b), rel(b, c)]
        !(rel(a, b) is Greater) && !(rel(b, c) is Greater) implies !(rel(a, c) is Greater) by {
        assert(a.partial_cmp_spec(&b) == Some(a.cmp_spec(&b)));
        assert(b.partial_cmp_spec(&c) == Some(b.cmp_spec(&c)));
        assert(a.partial_cmp_spec(&c) == Some(a.cmp_spec(&c)));
        assert(c.partial_cmp_spec(&a) == Some(c.cmp_spec(&a)));
        assert(c.partial_cmp_spec(&b) == Some(c.cmp_spec(&b)));
        assert(b.partial_cmp_spec(&a) == Some(b.cmp_spec(&a)));
    }
}

/// What an answer of the comparison says of the item it was asked about: the
/// item must stand before the other one, going in the given direction.
pub open spec fn says_before(order: Ordering, ascending: bool) -> bool {
    if ascending {
        order is Less
    } else {
        order is Greater
    }
}

/// What an answer of the comparison says of the item it was asked about: the
/// item must stand after the other one, going in the given direction.
pub open spec fn says_after(order: Ordering, ascending: bool) -> bool {
    if ascending {
        order is Greater
    } else {
        order is Less
    }
}

/// Checks to see if `a` is bigger than `b`.
pub fn gt<T: Ord>(a: &T, b: &T) -> (r: bool)
    ensures
        T::obeys_cmp_spec() ==> r == (a.cmp_spec(b) is Greater),
{
    matches!(a.cmp(b), Ordering::Greater)
}

/// Checks to see if `a` is greater than or equal to `b`.
pub fn ge<T: Ord>(a: &T, b: &T) -> (r: bool)
    ensures
        T::obeys_cmp_spec() ==> r == !(a.cmp_spec(b) is Less),
{
    matches!(a.cmp(b), Ordering::Greater | Ordering::Equal)
}

/// Checks to see if `a` takes the same precedence as `b`.
pub fn eq<T: Ord>(a: &T, b: &T) -> (r: bool)
    ensures
        T::obeys_cmp_spec() ==> r == (a.cmp_spec(b) is Equal),
{
    matches!(a.cmp(b), Ordering::Equal)
}

/// Checks to see if `a` is less than `b`.
pub fn lt<T: Ord>(a: &T, b: &T) -> (r: bool)
    ensures
        T::obeys_cmp_spec() ==> r == (a.cmp_spec(b) is Less),
{
    matches!(a.cmp(b), Ordering::Less)
}

/// Checks to see if `a` is less than or takes the same precedence as `b`.
pub fn le<T: Ord>(a: &T, b: &T) -> (r: bool)
    ensures
        T::obeys_cmp_spec() ==> r == !(a.cmp_spec(b) is Greater),
{
    matches!(a.cmp(b), Ordering::Less | Ordering::Equal)
}

/// `true` if order is `Ordering::Less`.
pub fn is_lt(order: Ordering) -> (r: bool)
    ensures
        r == (order is Less),
{
    matches!(order, Ordering::Less)
}

/// `true` if order is `Ordering::Less` or `Ordering::Equal`.
pub fn is_le(order: Ordering) -> (r: bool)
    ensures
        r == !(order is Greater),
{
    matches!(order, Ordering::Less | Ordering::Equal)
}

/// `true` if order is `Ordering::Equal`.
pub fn is_eq(order: Ordering) -> (r: bool)
    ensures
        r == (order is Equal),
{
    matches!(order, Ordering::Equal)
}

/// `true` if order is `Ordering::Greater` or `Ordering::Equal`.
pub fn is_ge(order: Ordering) -> (r: bool)
    ensures
        r == !(order is Less),
{
    matches!(order, Ordering::Greater | Ordering::Equal)
}

/// `true` if order is `Ordering::Greater`.
pub fn is_gt(order: Ordering) -> (r: bool)
    ensures
        r == (order is Greater),
{
    matches!(order, Ordering::Greater)
}

/// `true` if order puts the first item strictly before the second: it is
/// `Ordering::Less` going up, `Ordering::Greater` going down.
pub fn is_before(order: Ordering, ascending: bool) -> (r: bool)
    ensures
        r == says_before(order, ascending),
{
    if ascending {
        is_lt(order)
    } else {
        is_gt(order)
    }
}

/// `true` if order puts the first item strictly after the second: it is
/// `Ordering::Greater` going up, `Ordering::Less` going down.
pub fn is_after(order: Ordering, ascending: bool) -> (r: bool)
    ensures
        r == says_after(order, ascending),
{
    if ascending {
        is_gt(order)
    } else {
        is_lt(order)
    }
}

} // verus!
