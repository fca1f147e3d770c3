//! Marker trait for Interval Types.

use vstd::prelude::*;
use vstd::std_specs::cmp::{PartialOrdIs, PartialOrdSpec};

verus! {

/// A marker trait for the types that the bounds of an interval are drawn
/// from: copyable values with an order. It is implemented for the standard
/// integral types; implement it for any other type whose order is total.
pub trait IntervalType: Copy + PartialOrd + PartialEq {

}

impl IntervalType for i8 {

}

impl IntervalType for u8 {

}

impl IntervalType for i32 {

}

impl IntervalType for u32 {

}

impl IntervalType for usize {

}

impl IntervalType for isize {

}

/// `a` comes strictly before `b` in the order of `T`.
pub open spec fn before<T: IntervalType>(a: T, b: T) -> bool {
    a.is_lt(&b)
}

/// `a` does not come after `b` in the order of `T`.
pub open spec fn at_most<T: IntervalType>(a: T, b: T) -> bool {
    a.is_le(&b)
}

/// The comparison operators of `T` compute a total order: of two values one
/// does not come after the other, and "not after" is transitive.
pub open spec fn is_total_order<T: IntervalType>() -> bool {
    &&& T::obeys_partial_cmp_spec()
    &&& forall|a: T, b: T| #[trigger] at_most(a, b) <==> !before(b, a)
    &&& forall|a: T, b: T, c: T| #[trigger]
        at_most(a, b) && #[trigger] at_most(b, c) ==> at_most(a, c)
}

/// The larger of two values; the first one if neither comes before the other.
pub open spec fn larger<T: IntervalType>(a: T, b: T) -> T {
    if before(a, b) {
        b
    } else {
        a
    }
}

/// What follows from a total order: it is reflexive, "before" implies "not
/// after", and "before" composes with "not after" on either side.
pub proof fn lemma_total_order<T: IntervalType>()
    requires
        is_total_order::<T>(),
    ensures
        forall|a: T| #[trigger] at_most(a, a),
        forall|a: T, b: T| #[trigger] before(a, b) ==> at_most(a, b),
        forall|a: T, b: T| #[trigger] at_most(a, b) || at_most(b, a),
        forall|a: T, b: T, c: T| #[trigger] before(a, b) && #[trigger] at_most(b, c) ==> before(a, c),
        forall|a: T, b: T, c: T| #[trigger] at_most(a, b) && #[trigger] before(b, c) ==> before(a, c),
{
    assert forall|a: T| #[trigger] at_most(a, a) by {
        assert(at_most(a, a) <==> !before(a, a));
    }
    assert forall|a: T, b: T, c: T| #[trigger] before(a, b) && #[trigger] at_most(b, c) implies before(
        a,
        c,
    ) by {
        assert(at_most(c, a) <==> !before(a, c));
        assert(at_most(b, a) <==> !before(a, b));
        if at_most(c, a) {
            assert(at_most(b, c) && at_most(c, a));
        }
    }
    assert forall|a: T, b: T, c: T| #[trigger] at_most(a, b) && #[trigger] before(b, c) implies before(
        a,
        c,
    ) by {
        assert(at_most(c, a) <==> !before(a, c));
        assert(at_most(c, b) <==> !before(b, c));
        if at_most(c, a) {
            assert(at_most(c, a) && at_most(a, b));
        }
    }
    assert forall|a: T, b: T| #[trigger] at_most(a, b) || at_most(b, a) by {
        assert(at_most(a, b) <==> !before(b, a));
    }
}

/// The order of the 32-bit signed integers is total.
pub proof fn lemma_i32_total_order()
    ensures
        is_total_order::<i32>(),
{
}

/// The order of the 32-bit unsigned integers is total.
pub proof fn lemma_u32_total_order()
    ensures
        is_total_order::<u32>(),
{
}

/// The order of the 8-bit signed integers is total.
pub proof fn lemma_i8_total_order()
    ensures
        is_total_order::<i8>(),
{
}

/// The order of the 8-bit unsigned integers is total.
pub proof fn lemma_u8_total_order()
    ensures
        is_total_order::<u8>(),
{
}

/// The order of the pointer-sized signed integers is total.
pub proof fn lemma_isize_total_order()
    ensures
        is_total_order::<isize>(),
{
}

/// The order of the pointer-sized unsigned integers is total.
pub proof fn lemma_usize_total_order()
    ensures
        is_total_order::<usize>(),
{
}

} // verus!
