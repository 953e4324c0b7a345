//! Bundles of permits: the sets of permits that a route requires.

use vstd::prelude::*;
use crate::common::BUNDLE_IDX_EMPTY;
use crate::index::{holds_key, interned, Index, Payload};
use crate::iter::dedup::Dedup;
use crate::iter::filter_sorted::{sorted_filter_seq, SortedFilter, SortedFilterIterator};
use crate::iter::merge_sorted::merge_sorted;
use crate::sorted::{
    lemma_filter_of_sorted, lemma_strict_is_sorted, lemma_strictly_sorted_len,
    lemma_strictly_sorted_unique, lemma_union_of_sorted, sorted, strictly_sorted, union_seq,
};

verus! {

/// A set of permits, held as the strictly increasing sequence of their indices.
#[derive(Debug, PartialEq, Eq, Hash)]
pub struct Bundle {
    permits: Vec<usize>,
}

impl View for Bundle {
    type V = Seq<usize>;

    /// The permit indices, in increasing order.
    closed spec fn view(&self) -> Seq<usize> {
        self.permits@
    }
}

/// Sorts `permits` in place, in ascending order.
///
/// Calls `slice::sort_unstable`; the claim is what its documentation states:
/// afterwards the slice is sorted and holds the same items as before.
#[verifier::external_body]
fn sort_unstable_indices(permits: &mut Vec<usize>)
    ensures
        sorted(final(permits)@),
        final(permits)@.to_multiset() == old(permits)@.to_multiset(),
{
    permits.sort_unstable();
}

impl Bundle {
    #[verifier::type_invariant]
    spec fn inv(self) -> bool {
        strictly_sorted(self.permits@)
    }

    /// The bundle without permits.
    pub fn empty() -> (r: Bundle)
        ensures
            r@ == Seq::<usize>::empty(),
    {
        Bundle { permits: Vec::new() }
    }

    fn new(permits: Vec<usize>) -> (r: Bundle)
        requires
            strictly_sorted(permits@),
        ensures
            r@ == permits@,
    {
        Bundle { permits }
    }

    /// The bundle of the given permits; order and repetitions in `permits` do not matter.
    pub fn from_permits(permits: Vec<usize>) -> (r: Bundle)
        ensures
            strictly_sorted(r@),
            forall|p: usize| r@.contains(p) <==> permits@.contains(p),
    {
        let mut permits = permits;
        let ghost before = permits@;
        sort_unstable_indices(&mut permits);
        proof {
            broadcast use vstd::seq_lib::group_to_multiset_ensures;
            assert forall|p: usize| permits@.contains(p) <==> before.contains(p) by {
                assert(permits@.to_multiset().count(p) == before.to_multiset().count(p));
            }
            crate::sorted::lemma_dedup_of_sorted(permits@);
        }
        let unique = permits.as_slice().dedup().into_vec();
        Bundle::new(unique)
    }

    /// The permit indices of the bundle, in increasing order.
    pub fn permits(&self) -> (r: &[usize])
        ensures
            r@ == self@,
            strictly_sorted(self@),
    {
        proof {
            use_type_invariant(self);
        }
        self.permits.as_slice()
    }

    /// The number of permits that the bundle holds.
    pub fn len(&self) -> (r: usize)
        ensures
            r == self@.len(),
    {
        self.permits.len()
    }

    /// The number of permits in the union of both bundles.
    pub fn union_count(&self, other: &Bundle) -> (r: usize)
        ensures
            r == union_seq(self@, other@).len(),
            r == (self@.to_set() + other@.to_set()).len(),
    {
        proof {
            use_type_invariant(self);
            use_type_invariant(other);
            lemma_union_count(self@, other@);
        }
        let merged = merge_sorted(self.permits.as_slice(), other.permits.as_slice()).into_vec();
        merged.as_slice().dedup().count()
    }

    /// The union of both bundles, reusing `self` when it already holds every permit of `other`.
    pub fn into_union(self, other: &Bundle) -> (r: Bundle)
        ensures
            r@ == union_seq(self@, other@),
    {
        proof {
            use_type_invariant(&self);
            use_type_invariant(other);
        }
        let count = self.union_count(other);
        if count == self.permits.len() {
            proof {
                lemma_union_same_len(self@, other@);
            }
            return self;
        }
        self.union(other)
    }

    /// The union of both bundles.
    pub fn union(&self, other: &Bundle) -> (r: Bundle)
        ensures
            r@ == union_seq(self@, other@),
    {
        proof {
            use_type_invariant(self);
            use_type_invariant(other);
            lemma_union_of_sorted(self@, other@);
        }
        let merged = merge_sorted(self.permits.as_slice(), other.permits.as_slice()).into_vec();
        let unique = merged.as_slice().dedup().into_vec();
        Bundle::new(unique)
    }

    /// The permits of `self` that `other` does not hold, in increasing order.
    pub fn set_minus_iter<'a>(&'a self, other: &'a Bundle) -> (r: SortedFilterIterator<'a, usize>)
        ensures
            r.wf(),
            r.remaining() == sorted_filter_seq(self@, other@),
    {
        self.permits.as_slice().sorted_filter(other.permits.as_slice())
    }
}

/// The size of a union of strictly sorted sequences is the size of the union of their sets.
proof fn lemma_union_count(a: Seq<usize>, b: Seq<usize>)
    requires
        strictly_sorted(a),
        strictly_sorted(b),
    ensures
        union_seq(a, b).len() == (a.to_set() + b.to_set()).len(),
{
    lemma_union_of_sorted(a, b);
    let u = union_seq(a, b);
    lemma_strictly_sorted_len(u);
    assert(u.to_set() =~= a.to_set() + b.to_set());
}

/// When the union is as long as `a`, it is `a`.
proof fn lemma_union_same_len(a: Seq<usize>, b: Seq<usize>)
    requires
        strictly_sorted(a),
        strictly_sorted(b),
        union_seq(a, b).len() == a.len(),
    ensures
        union_seq(a, b) == a,
{
    lemma_union_of_sorted(a, b);
    let u = union_seq(a, b);
    lemma_strictly_sorted_len(u);
    lemma_strictly_sorted_len(a);
    assert(a.to_set().subset_of(u.to_set()));
    vstd::set_lib::lemma_subset_equality(a.to_set(), u.to_set());
    assert forall|x: usize| u.contains(x) <==> a.contains(x) by {
        assert(u.contains(x) <==> u.to_set().contains(x));
        assert(a.contains(x) <==> a.to_set().contains(x));
    }
    lemma_strictly_sorted_unique(u, a);
}

/// The union of two bundles is the bundle of the permits of either.
pub proof fn law_union_holds_both(a: Seq<usize>, b: Seq<usize>)
    requires
        strictly_sorted(a),
        strictly_sorted(b),
    ensures
        strictly_sorted(union_seq(a, b)),
        forall|p: usize| union_seq(a, b).contains(p) <==> (a.contains(p) || b.contains(p)),
{
    lemma_union_of_sorted(a, b);
}

/// The union of bundles does not depend on their order.
pub proof fn law_union_commutative(a: Seq<usize>, b: Seq<usize>)
    requires
        strictly_sorted(a),
        strictly_sorted(b),
    ensures
        union_seq(a, b) == union_seq(b, a),
{
    lemma_union_of_sorted(a, b);
    lemma_union_of_sorted(b, a);
    assert forall|x: usize| union_seq(a, b).contains(x) <==> union_seq(b, a).contains(x) by {
        assert(union_seq(a, b).contains(x) <==> (a.contains(x) || b.contains(x)));
        assert(union_seq(b, a).contains(x) <==> (a.contains(x) || b.contains(x)));
    }
    lemma_strictly_sorted_unique(union_seq(a, b), union_seq(b, a));
}

/// The union of bundles does not depend on how they are grouped.
pub proof fn law_union_associative(a: Seq<usize>, b: Seq<usize>, c: Seq<usize>)
    requires
        strictly_sorted(a),
        strictly_sorted(b),
        strictly_sorted(c),
    ensures
        union_seq(union_seq(a, b), c) == union_seq(a, union_seq(b, c)),
{
    lemma_union_of_sorted(a, b);
    lemma_union_of_sorted(b, c);
    lemma_union_of_sorted(union_seq(a, b), c);
    lemma_union_of_sorted(a, union_seq(b, c));
    assert forall|x: usize|
        union_seq(union_seq(a, b), c).contains(x) <==> union_seq(a, union_seq(b, c)).contains(
            x,
        ) by {
        assert(union_seq(a, b).contains(x) <==> (a.contains(x) || b.contains(x)));
        assert(union_seq(b, c).contains(x) <==> (b.contains(x) || c.contains(x)));
        assert(union_seq(union_seq(a, b), c).contains(x) <==> (union_seq(a, b).contains(x)
            || c.contains(x)));
        assert(union_seq(a, union_seq(b, c)).contains(x) <==> (a.contains(x) || union_seq(
            b,
            c,
        ).contains(x)));
    }
    lemma_strictly_sorted_unique(union_seq(union_seq(a, b), c), union_seq(a, union_seq(b, c)));
}

/// A bundle united with itself, or with the empty bundle, stays as it is.
pub proof fn law_union_idempotent_and_neutral(a: Seq<usize>)
    requires
        strictly_sorted(a),
    ensures
        union_seq(a, a) == a,
        union_seq(a, Seq::empty()) == a,
        union_seq(Seq::empty(), a) == a,
{
    lemma_union_of_sorted(a, a);
    lemma_strictly_sorted_unique(union_seq(a, a), a);
    lemma_union_of_sorted(a, Seq::empty());
    lemma_strictly_sorted_unique(union_seq(a, Seq::empty()), a);
    lemma_union_of_sorted(Seq::empty(), a);
    lemma_strictly_sorted_unique(union_seq(Seq::empty(), a), a);
}

/// The set difference of two bundles holds, in increasing order, exactly the
/// permits of the first that the second does not hold; together with the
/// second it makes up their union.
pub proof fn law_set_minus(a: Seq<usize>, b: Seq<usize>)
    requires
        strictly_sorted(a),
        strictly_sorted(b),
    ensures
        strictly_sorted(sorted_filter_seq(a, b)),
        forall|p: usize| sorted_filter_seq(a, b).contains(p) <==> (a.contains(p) && !b.contains(p)),
        union_seq(sorted_filter_seq(a, b), b) == union_seq(a, b),
{
    lemma_strict_is_sorted(b);
    lemma_filter_of_sorted(a, b);
    let d = sorted_filter_seq(a, b);
    lemma_union_of_sorted(d, b);
    lemma_union_of_sorted(a, b);
    assert forall|x: usize| union_seq(d, b).contains(x) <==> union_seq(a, b).contains(x) by {
        assert(union_seq(d, b).contains(x) <==> (d.contains(x) || b.contains(x)));
        assert(union_seq(a, b).contains(x) <==> (a.contains(x) || b.contains(x)));
        assert(d.contains(x) <==> (a.contains(x) && !b.contains(x)));
    }
    lemma_strictly_sorted_unique(union_seq(d, b), union_seq(a, b));
}

/// An interning table of bundles, which holds the empty bundle at index BUNDLE_IDX_EMPTY.
pub struct BundleIndex {
    index: Index<Bundle>,
}

impl View for BundleIndex {
    type V = Seq<Bundle>;

    /// The interned bundles, by index.
    closed spec fn view(&self) -> Seq<Bundle> {
        self.index@
    }
}

impl BundleIndex {
    #[verifier::type_invariant]
    spec fn inv(self) -> bool {
        self.index@.len() >= 1 && self.index@[0]@ == Seq::<usize>::empty()
    }

    /// An index that holds only the empty bundle, at index BUNDLE_IDX_EMPTY.
    pub fn new() -> (r: Self)
        ensures
            r@.len() == 1,
            r@[BUNDLE_IDX_EMPTY as int]@ == Seq::<usize>::empty(),
    {
        let mut index = Index::new();
        index.transfer_element(Bundle::empty());
        BundleIndex { index }
    }

    /// The number of interned bundles; their sequences are pairwise distinct, and the first is empty.
    pub fn len(&self) -> (r: usize)
        ensures
            r == self@.len(),
            r >= 1,
            self@[BUNDLE_IDX_EMPTY as int]@ == Seq::<usize>::empty(),
            forall|i: int, j: int| 0 <= i < j < self@.len() ==> #[trigger] self@[i]@ != #[trigger] self@[j]@,
    {
        proof {
            use_type_invariant(self);
        }
        let r = self.index.len();
        proof {
            assert forall|i: int, j: int| 0 <= i < j < self@.len() implies #[trigger] self@[i]@
                != #[trigger] self@[j]@ by {
                assert(self.index@[i].key() != self.index@[j].key());
            }
        }
        r
    }

    /// The index of the bundle equal to `element`, if one is interned.
    pub fn find_idx(&self, element: &Bundle) -> (r: Option<usize>)
        ensures
            match r {
                Some(i) => i < self@.len() && self@[i as int]@ == element@,
                None => !holds_key(self@, element@),
            },
    {
        self.index.find_idx(element)
    }

    /// The bundle with index `idx`.
    pub fn get_by_idx(&self, idx: usize) -> (r: &Bundle)
        requires
            idx < self@.len(),
        ensures
            *r == self@[idx as int],
    {
        self.index.get_by_idx(idx)
    }

    /// The indices of all interned bundles, `0..len`.
    pub fn element_ids(&self) -> (r: std::ops::Range<usize>)
        ensures
            r.start == 0,
            r.end == self@.len(),
    {
        self.index.element_ids()
    }

    /// Interns `element` unless an equal bundle is interned already, and
    /// returns the index of the bundle equal to it.
    pub fn transfer_element(&mut self, element: Bundle) -> (r: usize)
        ensures
            (final(self)@, r as int) == interned(old(self)@, element),
            holds_key(old(self)@, element@) ==> {
                &&& final(self)@ == old(self)@
                &&& r < old(self)@.len()
                &&& old(self)@[r as int]@ == element@
            },
            !holds_key(old(self)@, element@) ==> {
                &&& final(self)@ == old(self)@.push(element)
                &&& r == old(self)@.len()
            },
    {
        proof {
            use_type_invariant(&*self);
        }
        let mut taken = BundleIndex::new();
        std::mem::swap(&mut taken, self);
        let BundleIndex { index } = taken;
        let mut index = index;
        let r = index.transfer_element(element);
        *self = BundleIndex { index };
        r
    }
}

} // verus!
