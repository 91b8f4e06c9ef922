//! The order that the sorting algorithms rely on.
//!
//! The algorithms are generic over `T: Ord`. What they need from the element
//! type is collected in [`lawful`]: comparison behaves like a total order in
//! which two elements that compare equal are the same value. Every primitive
//! integer type is lawful in this sense.

use core::cmp::Ordering;
use vstd::laws_cmp::obeys_cmp;
use vstd::laws_eq::obeys_concrete_eq;
use vstd::prelude::*;
use vstd::relations::sorted_by;
use vstd::relations::total_ordering;
use vstd::std_specs::cmp::OrdSpec;
use vstd::std_specs::cmp::PartialEqSpec;
use vstd::std_specs::cmp::PartialOrdSpec;

verus! {

/// The comparison operators of `T` form a total order, and `==` on `T` is
/// identity.
pub open spec fn lawful<T: Ord>() -> bool {
    obeys_cmp::<T>() && obeys_concrete_eq::<T>()
}

/// `a` is not greater than `b`.
pub open spec fn le<T: Ord>(a: T, b: T) -> bool {
    a.partial_cmp_spec(&b) == Some(Ordering::Less) || a == b
}

/// [`le`] as a relation value, for the sequence library.
pub open spec fn le_fn<T: Ord>() -> spec_fn(T, T) -> bool {
    |a: T, b: T| le(a, b)
}

/// The sequence is in ascending order.
pub open spec fn sorted<T: Ord>(s: Seq<T>) -> bool {
    forall|i: int, j: int| 0 <= i < j < s.len() ==> le(s[i], s[j])
}

/// What the comparison operators of a lawful type compute, in terms of [`le`].
pub proof fn lemma_operators<T: Ord>()
    requires
        lawful::<T>(),
    ensures
        T::obeys_partial_cmp_spec(),
        forall|a: T, b: T|
            (#[trigger] a.partial_cmp_spec(&b) == Some(Ordering::Less)) <==> !le(b, a),
        forall|a: T, b: T|
            (#[trigger] a.partial_cmp_spec(&b) == Some(Ordering::Greater)) <==> !le(a, b),
        forall|a: T, b: T|
            (#[trigger] a.partial_cmp_spec(&b) == Some(Ordering::Equal)) <==> a == b,
        forall|a: T, b: T| #[trigger] a.partial_cmp_spec(&b) is Some,
{
    reveal(vstd::laws_cmp::obeys_cmp_partial_ord);
    reveal(vstd::laws_cmp::obeys_cmp_ord);
    reveal(vstd::laws_cmp::obeys_partial_cmp_spec_properties);
    reveal(vstd::laws_eq::obeys_concrete_eq);
    reveal(vstd::laws_eq::obeys_eq_spec_properties);
}

/// `a > b`, as the algorithms ask it.
pub fn greater<T: Ord>(a: &T, b: &T) -> (r: bool)
    requires
        lawful::<T>(),
    ensures
        r == !le(*a, *b),
{
    proof {
        lemma_operators::<T>();
    }
    *a > *b
}

/// `a < b`, as the algorithms ask it.
pub fn less<T: Ord>(a: &T, b: &T) -> (r: bool)
    requires
        lawful::<T>(),
    ensures
        r == !le(*b, *a),
{
    proof {
        lemma_operators::<T>();
    }
    *a < *b
}

/// `a <= b`, as the algorithms ask it.
pub fn at_most<T: Ord>(a: &T, b: &T) -> (r: bool)
    requires
        lawful::<T>(),
    ensures
        r == le(*a, *b),
{
    proof {
        lemma_operators::<T>();
        lemma_le_total_order::<T>();
    }
    *a <= *b
}

/// [`le`] is reflexive, total, antisymmetric and transitive on a lawful type.
pub proof fn lemma_le_total_order<T: Ord>()
    requires
        lawful::<T>(),
    ensures
        forall|a: T| #[trigger] le(a, a),
        forall|a: T, b: T| #[trigger] le(a, b) || le(b, a),
        forall|a: T, b: T| #[trigger] le(a, b) && le(b, a) ==> a == b,
        forall|a: T, b: T, c: T| #[trigger] le(a, b) && #[trigger] le(b, c) ==> le(a, c),
        total_ordering(le_fn::<T>()),
{
    reveal(vstd::laws_cmp::obeys_cmp_partial_ord);
    reveal(vstd::laws_cmp::obeys_cmp_ord);
    reveal(vstd::laws_cmp::obeys_partial_cmp_spec_properties);
    reveal(vstd::laws_eq::obeys_concrete_eq);
    reveal(vstd::laws_eq::obeys_eq_spec_properties);
    assert forall|a: T, b: T| #[trigger] le(a, b) || le(b, a) by {
        assert(a.partial_cmp_spec(&b) == Some(a.cmp_spec(&b)));
    }
    assert forall|a: T, b: T| #[trigger] le(a, b) && le(b, a) implies a == b by {
        if a != b {
            assert(a.partial_cmp_spec(&b) == Some(Ordering::Less));
            assert(b.partial_cmp_spec(&a) == Some(Ordering::Less));
            assert(a.partial_cmp_spec(&a) == Some(Ordering::Less));
            assert(a.eq_spec(&a));
        }
    }
    assert forall|a: T, b: T, c: T| #[trigger] le(a, b) && #[trigger] le(b, c) implies le(
        a,
        c,
    ) by {
        if a != b && b != c {
            assert(a.partial_cmp_spec(&b) == Some(Ordering::Less));
            assert(b.partial_cmp_spec(&c) == Some(Ordering::Less));
        }
    }
    let r = le_fn::<T>();
    assert forall|a: T| #[trigger] r(a, a) by {
        assert(le(a, a));
    }
    assert forall|a: T, b: T| #[trigger] r(a, b) || #[trigger] r(b, a) by {
        assert(le(a, b) || le(b, a));
    }
    assert forall|a: T, b: T| #[trigger] r(a, b) && #[trigger] r(b, a) implies a == b by {
        assert(le(a, b) && le(b, a));
    }
    assert forall|a: T, b: T, c: T| #[trigger] r(a, b) && #[trigger] r(b, c) implies r(a, c) by {
        assert(le(a, b) && le(b, c));
    }
}

/// [`sorted`] is the sequence library's `sorted_by` for [`le`].
pub proof fn lemma_sorted_is_sorted_by<T: Ord>(s: Seq<T>)
    ensures
        sorted(s) <==> sorted_by(s, le_fn::<T>()),
{
    let r = le_fn::<T>();
    if sorted(s) {
        assert forall|i: int, j: int| 0 <= i < j < s.len() implies #[trigger] r(s[i], s[j]) by {
            assert(le(s[i], s[j]));
        }
    }
    if sorted_by(s, r) {
        assert forall|i: int, j: int| 0 <= i < j < s.len() implies le(s[i], s[j]) by {
            assert(r(s[i], s[j]));
        }
    }
}

/// Two ascending sequences with the same elements, each as often, are equal.
pub proof fn lemma_sorted_unique<T: Ord>(x: Seq<T>, y: Seq<T>)
    requires
        lawful::<T>(),
        sorted(x),
        sorted(y),
        x.to_multiset() == y.to_multiset(),
    ensures
        x == y,
{
    lemma_le_total_order::<T>();
    lemma_sorted_is_sorted_by(x);
    lemma_sorted_is_sorted_by(y);
    vstd::seq_lib::lemma_sorted_unique(x, y, le_fn::<T>());
}

/// The primitive integer types that the library sorts are lawful.
pub proof fn lemma_i32_lawful()
    ensures
        lawful::<i32>(),
        forall|a: i32, b: i32| le(a, b) <==> a <= b,
{
    broadcast use vstd::laws_cmp::group_laws_cmp;
    broadcast use vstd::laws_eq::group_laws_eq;

    assert(lawful::<i32>());
}

} // verus!
