//! Helpers of the Frank–Wolfe method that do not compute on floating-point numbers.

use vstd::prelude::*;
use vstd::std_specs::cmp::PartialOrdIs;
use crate::order::partial_order_is_specified;

verus! {

/// Returns the minimum of two values, if they are comparable, and otherwise
/// returns the second value: `a` when `a < b`, and `b` otherwise.
///
/// For a type whose `<` is specified (integers, for instance) the result is
/// pinned down; for any type it is one of the two arguments.
pub fn partial_min<T: PartialOrd>(a: T, b: T) -> (r: T)
    ensures
        r == a || r == b,
        partial_order_is_specified::<T>() ==> r == (if a.is_lt(&b) { a } else { b }),
{
    if a < b {
        a
    } else {
        b
    }
}

} // verus!
