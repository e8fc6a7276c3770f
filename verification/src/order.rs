//! The order on elements that the searches rely on: the one that `Ord`
//! gives, read through vstd's model of it.

use core::cmp::Ordering;
use vstd::laws_cmp::{
    obeys_cmp, obeys_cmp_ord, obeys_cmp_partial_ord, obeys_partial_cmp_spec_properties,
};
use vstd::laws_eq::obeys_eq_spec_properties;
use vstd::prelude::*;
use vstd::std_specs::cmp::{OrdSpec, PartialEqSpec, PartialOrdSpec};

verus! {

/// `a` orders strictly before `b`.
pub open spec fn lt<T: Ord>(a: T, b: T) -> bool {
    a.cmp_spec(&b) == Ordering::Less
}

/// `a` does not order after `b`.
pub open spec fn le<T: Ord>(a: T, b: T) -> bool {
    a.cmp_spec(&b) != Ordering::Greater
}

/// `a` and `b` compare as equal.
pub open spec fn equiv<T: Ord>(a: T, b: T) -> bool {
    a.cmp_spec(&b) == Ordering::Equal
}

/// The sequence is non-decreasing from end to end.
pub open spec fn sorted<T: Ord>(s: Seq<T>) -> bool {
    forall|i: int, j: int| 0 <= i <= j < s.len() ==> le(#[trigger] s[i], #[trigger] s[j])
}

/// The comparison of `T` is specified and obeys the laws of a total order.
pub open spec fn totally_ordered<T: Ord>() -> bool {
    obeys_cmp::<T>()
}

/// On a type whose comparison obeys the laws of a total order, `lt`, `le`
/// and `equiv` behave as the strict part, the weak part and the equivalence
/// of one total preorder.
pub proof fn lemma_total_order<T: Ord>(a: T, b: T, c: T)
    requires
        totally_ordered::<T>(),
    ensures
        le(a, a),
        lt(a, b) <==> !le(b, a),
        equiv(a, b) <==> le(a, b) && le(b, a),
        equiv(a, b) <==> equiv(b, a),
        le(a, b) && le(b, c) ==> le(a, c),
        lt(a, b) && le(b, c) ==> lt(a, c),
        le(a, b) && lt(b, c) ==> lt(a, c),
{
    reveal(obeys_cmp_ord);
    reveal(obeys_cmp_partial_ord);
    reveal(obeys_partial_cmp_spec_properties);
    reveal(obeys_eq_spec_properties);
    let aa = a.partial_cmp_spec(&a);
    let ab = a.partial_cmp_spec(&b);
    let ba = b.partial_cmp_spec(&a);
    let bc = b.partial_cmp_spec(&c);
    let cb = c.partial_cmp_spec(&b);
    let ac = a.partial_cmp_spec(&c);
    let ca = c.partial_cmp_spec(&a);
    assert(aa == Some(a.cmp_spec(&a)));
    assert(ab == Some(a.cmp_spec(&b)));
    assert(ba == Some(b.cmp_spec(&a)));
    assert(bc == Some(b.cmp_spec(&c)));
    assert(cb == Some(c.cmp_spec(&b)));
    assert(ac == Some(a.cmp_spec(&c)));
    assert(ca == Some(c.cmp_spec(&a)));
    assert(a.eq_spec(&b) <==> b.eq_spec(&a));
    assert(a.eq_spec(&c) <==> c.eq_spec(&a));
    assert(b.eq_spec(&c) <==> c.eq_spec(&b));
}

/// Whether `a` orders strictly before `b`.
pub fn is_lt<T: Ord>(a: &T, b: &T) -> (r: bool)
    requires
        totally_ordered::<T>(),
    ensures
        r == lt(*a, *b),
{
    proof {
        reveal(obeys_cmp_ord);
    }
    match a.cmp(b) {
        Ordering::Less => true,
        _ => false,
    }
}

/// Whether `a` does not order after `b`.
pub fn is_le<T: Ord>(a: &T, b: &T) -> (r: bool)
    requires
        totally_ordered::<T>(),
    ensures
        r == le(*a, *b),
{
    proof {
        reveal(obeys_cmp_ord);
    }
    match a.cmp(b) {
        Ordering::Greater => false,
        _ => true,
    }
}

} // verus!
