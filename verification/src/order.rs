//! Comparisons of generic items, as the standard library specifies them.
//!
//! The iterators of this crate are generic over their items. Their contracts
//! speak of the comparisons through the specification functions that vstd
//! attaches to `PartialEq`, `PartialOrd` and `Ord`; the helpers here perform one
//! comparison each and state its result over those functions, for the item
//! types whose comparisons follow those functions (the integers among them).
//! Of other item types, such as `str`, nothing is known about the outcome;
//! [`crate::iter::text_items`] deduplicates and filters strings by their characters.

use std::cmp::Ordering;
use vstd::prelude::*;
use vstd::std_specs::cmp::{OrdSpec, PartialEqSpec, PartialOrdIs, PartialOrdSpec};

verus! {

/// The outcome of a three-way comparison.
#[derive(PartialEq, Eq, Structural, Clone, Copy, Debug)]
pub enum Rank {
    Less,
    Equal,
    Greater,
}

/// `T`'s equality behaves as its specification `eq_spec` says.
pub open spec fn eq_is_specified<T: PartialEq>() -> bool {
    T::obeys_eq_spec()
}

/// `T`'s partial order behaves as its specification `partial_cmp_spec` says.
pub open spec fn partial_order_is_specified<T: PartialOrd>() -> bool {
    T::obeys_partial_cmp_spec()
}

/// `T`'s total order behaves as its specification `cmp_spec` says.
pub open spec fn total_order_is_specified<T: Ord>() -> bool {
    T::obeys_cmp_spec()
}

/// Whether `a == b` holds for `T`'s equality.
pub open spec fn items_equal<T: PartialEq>(a: T, b: T) -> bool {
    a.eq_spec(&b)
}

/// Whether `a <= b` holds for `T`'s partial order.
pub open spec fn item_le<T: PartialOrd>(a: T, b: T) -> bool {
    a.is_le(&b)
}

/// The three-way comparison of `a` with `b` under `T`'s total order.
pub open spec fn rank_of<T: Ord>(a: T, b: T) -> Rank {
    match a.cmp_spec(&b) {
        Ordering::Less => Rank::Less,
        Ordering::Equal => Rank::Equal,
        Ordering::Greater => Rank::Greater,
    }
}

/// Evaluates `a == b`.
pub fn equal<T: PartialEq>(a: &T, b: &T) -> (r: bool)
    ensures
        eq_is_specified::<T>() ==> r == items_equal(*a, *b),
{
    *a == *b
}

/// Evaluates `a <= b`.
pub fn less_or_equal<T: PartialOrd>(a: &T, b: &T) -> (r: bool)
    ensures
        partial_order_is_specified::<T>() ==> r == item_le(*a, *b),
{
    *a <= *b
}

/// Evaluates `a < b`.
pub fn less_than<T: PartialOrd>(a: &T, b: &T) -> (r: bool)
    ensures
        partial_order_is_specified::<T>() ==> r == a.is_lt(b),
{
    *a < *b
}

/// Compares `a` with `b` under `T`'s total order.
pub fn compare<T: Ord>(a: &T, b: &T) -> (r: Rank)
    ensures
        total_order_is_specified::<T>() ==> r == rank_of(*a, *b),
{
    match a.cmp(b) {
        Ordering::Less => Rank::Less,
        Ordering::Equal => Rank::Equal,
        Ordering::Greater => Rank::Greater,
    }
}

} // verus!
