//! The order that the search tree keeps its values in.
//!
//! A type that implements `Ord` may order its values in any way at all.  The
//! tree relies on a strict total order in which only identical values count
//! as equal, and this module says so in terms that the rest of the library
//! can use.

use core::cmp::Ordering;
use vstd::prelude::*;
use vstd::std_specs::cmp::OrdSpec;

verus! {

/// `a` stands strictly before `b`.
pub open spec fn precedes<T: Ord>(a: T, b: T) -> bool {
    a.cmp_spec(&b) == Ordering::Less
}

/// The comparison of `T` is a strict total order: of two values either one
/// precedes the other or the two are the same value, and precedence is
/// transitive.
pub open spec fn strict_total_order<T: Ord>() -> bool {
    &&& T::obeys_cmp_spec()
    &&& forall|a: T, b: T| #[trigger] a.cmp_spec(&b) == Ordering::Equal <==> a == b
    &&& forall|a: T, b: T| #[trigger] a.cmp_spec(&b) == Ordering::Greater <==> precedes(b, a)
    &&& forall|a: T, b: T, c: T|
        #[trigger] precedes(a, b) && #[trigger] precedes(b, c) ==> precedes(a, c)
}

/// How one value stands to another.
#[derive(Clone, Copy, Debug, PartialEq, Eq, Structural)]
pub enum Place {
    Before,
    Same,
    After,
}

/// Compares two values.
pub fn place_of<T: Ord>(a: &T, b: &T) -> (place: Place)
    requires
        strict_total_order::<T>(),
    ensures
        place == Place::Before <==> precedes(*a, *b),
        place == Place::Same <==> *a == *b,
        place == Place::After <==> precedes(*b, *a),
{
    match a.cmp(b) {
        Ordering::Less => Place::Before,
        Ordering::Equal => Place::Same,
        Ordering::Greater => Place::After,
    }
}

/// No value precedes itself, and of two values at most one precedes the
/// other.
pub proof fn lemma_precedes_strict<T: Ord>(a: T, b: T)
    requires
        strict_total_order::<T>(),
    ensures
        !precedes(a, a),
        !(precedes(a, b) && precedes(b, a)),
        precedes(a, b) || a == b || precedes(b, a),
{
    assert(a.cmp_spec(&a) == Ordering::Equal);
    let forth = a.cmp_spec(&b);
    assert(forth == Ordering::Greater <==> precedes(b, a));
    assert(forth == Ordering::Equal <==> a == b);
}

/// Precedence carries over a value that does not come after.
pub proof fn lemma_precedes_chain<T: Ord>(a: T, b: T, c: T)
    requires
        strict_total_order::<T>(),
    ensures
        precedes(a, b) && precedes(b, c) ==> precedes(a, c),
        !precedes(b, a) && precedes(b, c) ==> precedes(a, c),
        precedes(a, b) && !precedes(c, b) ==> precedes(a, c),
        !precedes(b, a) && !precedes(c, b) ==> !precedes(c, a),
{
    lemma_precedes_strict(a, b);
    lemma_precedes_strict(b, c);
    lemma_precedes_strict(a, c);
    if precedes(c, a) && !precedes(b, a) && !precedes(c, b) {
        if a == b {
        } else {
            assert(precedes(c, a) && precedes(a, b));
        }
    }
}

/// The unsigned 64-bit integers are strictly and totally ordered.
pub proof fn lemma_u64_strict_total_order()
    ensures
        strict_total_order::<u64>(),
{
}

} // verus!
