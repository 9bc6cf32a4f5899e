//! The total order on the values that members report.
use std::cmp::Ordering;
use vstd::laws_cmp::obeys_cmp;
use vstd::laws_eq::obeys_concrete_eq;
use vstd::prelude::*;
use vstd::std_specs::cmp::{OrdSpec, PartialEqSpec, PartialOrdSpec};

verus! {

/// `T`'s comparison is a total order whose equality is identity.
pub open spec fn total_order<T: Ord>() -> bool {
    obeys_cmp::<T>() && obeys_concrete_eq::<T>()
}

/// `a` is strictly below `b`.
pub open spec fn lt<T: Ord>(a: T, b: T) -> bool {
    a.cmp_spec(&b) == Ordering::Less
}

/// `a` is below or equal to `b`.
pub open spec fn le<T: Ord>(a: T, b: T) -> bool {
    a.cmp_spec(&b) != Ordering::Greater
}

/// The lesser of two values.
pub open spec fn min_value<T: Ord>(a: T, b: T) -> T {
    if lt(b, a) {
        b
    } else {
        a
    }
}

/// The laws of a total order, for three values.
pub proof fn lemma_order<T: Ord>(a: T, b: T, c: T)
    requires
        total_order::<T>(),
    ensures
        le(a, a),
        le(a, b) || le(b, a),
        le(a, b) && le(b, a) ==> a == b,
        le(a, b) && le(b, c) ==> le(a, c),
        lt(a, b) <==> !le(b, a),
        lt(a, b) && le(b, c) ==> lt(a, c),
        le(a, b) && lt(b, c) ==> lt(a, c),
{
    reveal(vstd::laws_cmp::obeys_partial_cmp_spec_properties);
    reveal(vstd::laws_cmp::obeys_cmp_partial_ord);
    reveal(vstd::laws_cmp::obeys_cmp_ord);
    reveal(vstd::laws_eq::obeys_concrete_eq);
    reveal(vstd::laws_eq::obeys_eq_spec_properties);
    assert(a.partial_cmp_spec(&a) == Some(a.cmp_spec(&a)));
    assert(a.partial_cmp_spec(&b) == Some(a.cmp_spec(&b)));
    assert(b.partial_cmp_spec(&a) == Some(b.cmp_spec(&a)));
    assert(b.partial_cmp_spec(&c) == Some(b.cmp_spec(&c)));
    assert(a.partial_cmp_spec(&c) == Some(a.cmp_spec(&c)));
    assert(a.eq_spec(&a));
}

/// Whether `a` is strictly below `b`.
pub fn less<T: Ord>(a: &T, b: &T) -> (r: bool)
    requires
        total_order::<T>(),
    ensures
        r == lt(*a, *b),
{
    proof {
        reveal(vstd::laws_cmp::obeys_cmp_ord);
    }
    match a.cmp(b) {
        Ordering::Less => true,
        _ => false,
    }
}

/// The lesser of two values.
pub fn lesser<T: Ord + Copy>(a: T, b: T) -> (r: T)
    requires
        total_order::<T>(),
    ensures
        r == min_value(a, b),
{
    proof {
        reveal(vstd::laws_cmp::obeys_cmp_ord);
    }
    a.min(b)
}

} // verus!
