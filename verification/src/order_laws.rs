//! Laws of lawful total orders, stated over the comparison helpers of [`crate::order`].
//!
//! vstd calls an order lawful (`vstd::laws_cmp::obeys_cmp`) when its equality
//! is symmetric and transitive, `partial_cmp` agrees with `cmp`, `Less` and
//! `Greater` are each other's reverse and transitive, and `Equal` means equal.
//! The lemmas here derive the facts that the sorted iterators need.

use std::cmp::Ordering;
use vstd::prelude::*;
use vstd::laws_cmp::{obeys_cmp, obeys_cmp_ord, obeys_partial_cmp_spec_properties};
use vstd::laws_eq::obeys_eq_spec_properties;
use vstd::std_specs::cmp::{OrdSpec, PartialEqSpec, PartialOrdSpec};
use crate::order::{item_le, rank_of, Rank};

verus! {

/// Whether `s` is sorted: each item is `<=` every later one.
pub open spec fn sorted_items<T: PartialOrd>(s: Seq<T>) -> bool {
    forall|i: int, j: int| 0 <= i < j < s.len() ==> item_le(#[trigger] s[i], #[trigger] s[j])
}

/// Under a lawful total order, `<=` means "not greater", `Less` and `Greater`
/// are each other's reverse, `Equal` is symmetric, and every item is equal to itself.
pub proof fn lemma_rank_basics<T: Ord>(x: T, y: T)
    requires
        obeys_cmp::<T>(),
    ensures
        item_le(x, y) <==> rank_of(x, y) != Rank::Greater,
        rank_of(x, y) == Rank::Less <==> rank_of(y, x) == Rank::Greater,
        rank_of(x, y) == Rank::Equal <==> rank_of(y, x) == Rank::Equal,
        rank_of(x, x) == Rank::Equal,
{
    reveal(obeys_cmp_ord);
    reveal(obeys_partial_cmp_spec_properties);
    reveal(obeys_eq_spec_properties);
    assert(x.partial_cmp_spec(&y) == Some(x.cmp_spec(&y)));
    assert(y.partial_cmp_spec(&x) == Some(y.cmp_spec(&x)));
    assert(x.partial_cmp_spec(&x) == Some(x.cmp_spec(&x)));
    assert(x.partial_cmp_spec(&y) == Some(Ordering::Less) <==> y.partial_cmp_spec(&x) == Some(Ordering::Greater));
    assert(x.partial_cmp_spec(&x) == Some(Ordering::Less) <==> x.partial_cmp_spec(&x) == Some(Ordering::Greater));
    assert(x.partial_cmp_spec(&y) == Some(Ordering::Equal) <==> x.eq_spec(&y));
    assert(y.partial_cmp_spec(&x) == Some(Ordering::Equal) <==> y.eq_spec(&x));
    assert(x.eq_spec(&y) <==> y.eq_spec(&x));
}

/// Transitivity of a lawful total order: `<=` is transitive, and a chain of
/// `<=` with one `<` in it gives `<`.
pub proof fn lemma_rank_trans<T: Ord>(x: T, y: T, z: T)
    requires
        obeys_cmp::<T>(),
    ensures
        rank_of(x, y) != Rank::Greater && rank_of(y, z) != Rank::Greater ==> rank_of(x, z) != Rank::Greater,
        rank_of(x, y) == Rank::Less && rank_of(y, z) != Rank::Greater ==> rank_of(x, z) == Rank::Less,
        rank_of(x, y) != Rank::Greater && rank_of(y, z) == Rank::Less ==> rank_of(x, z) == Rank::Less,
{
    reveal(obeys_cmp_ord);
    reveal(obeys_partial_cmp_spec_properties);
    reveal(obeys_eq_spec_properties);
    lemma_rank_basics(x, y);
    lemma_rank_basics(y, z);
    lemma_rank_basics(x, z);
    lemma_rank_basics(z, x);
    lemma_rank_basics(y, x);
    lemma_rank_basics(z, y);
    assert(x.partial_cmp_spec(&y) == Some(x.cmp_spec(&y)));
    assert(y.partial_cmp_spec(&z) == Some(y.cmp_spec(&z)));
    assert(x.partial_cmp_spec(&z) == Some(x.cmp_spec(&z)));
    assert(z.partial_cmp_spec(&x) == Some(z.cmp_spec(&x)));
    assert(y.partial_cmp_spec(&x) == Some(y.cmp_spec(&x)));
    assert(z.partial_cmp_spec(&y) == Some(z.cmp_spec(&y)));
    // Less chains.
    if x.partial_cmp_spec(&y) == Some(Ordering::Less) && y.partial_cmp_spec(&z) == Some(Ordering::Less) {
        assert(x.partial_cmp_spec(&z) == Some(Ordering::Less));
    }
    if z.partial_cmp_spec(&x) == Some(Ordering::Less) && x.partial_cmp_spec(&y) == Some(Ordering::Less) {
        assert(z.partial_cmp_spec(&y) == Some(Ordering::Less));
    }
    if y.partial_cmp_spec(&z) == Some(Ordering::Less) && z.partial_cmp_spec(&x) == Some(Ordering::Less) {
        assert(y.partial_cmp_spec(&x) == Some(Ordering::Less));
    }
    // Equal chains.
    if x.eq_spec(&y) && y.eq_spec(&z) {
        assert(x.eq_spec(&z));
    }
    if z.eq_spec(&x) && x.eq_spec(&y) {
        assert(z.eq_spec(&y));
    }
    if y.eq_spec(&z) && z.eq_spec(&x) {
        assert(y.eq_spec(&x));
    }
    if x.eq_spec(&z) && z.eq_spec(&y) {
        assert(x.eq_spec(&y));
    }
    if y.eq_spec(&x) && x.eq_spec(&z) {
        assert(y.eq_spec(&z));
    }
}

} // verus!
