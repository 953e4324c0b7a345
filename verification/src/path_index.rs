//! Paths: the sequences of edges that a route takes.

use vstd::prelude::*;
use crate::index::{holds_key, interned, Index, Payload};
use crate::iter::dedup::Dedup;
use crate::iter::filter_sorted::{sorted_filter_seq, SortedFilter, SortedFilterIterator};
use crate::iter::merge_sorted::merge_sorted;
use crate::sorted::union_seq;

verus! {

/// A sequence of edge indices.
#[derive(Debug, Clone)]
pub struct Path {
    edges: Vec<usize>,
}

impl View for Path {
    type V = Seq<usize>;

    /// The edge indices, in the order in which the path takes them.
    closed spec fn view(&self) -> Seq<usize> {
        self.edges@
    }
}

impl Path {
    /// The path without edges.
    pub fn empty() -> (r: Path)
        ensures
            r@ == Seq::<usize>::empty(),
    {
        Path { edges: Vec::new() }
    }

    /// The path that takes `edges` in order.
    pub fn from_edges(edges: Vec<usize>) -> (r: Path)
        ensures
            r@ == edges@,
    {
        Path { edges }
    }

    /// The edge indices, in the order in which the path takes them.
    pub fn edges(&self) -> (r: &[usize])
        ensures
            r@ == self@,
    {
        self.edges.as_slice()
    }

    /// The number of edges of the path.
    pub fn len(&self) -> (r: usize)
        ensures
            r == self@.len(),
    {
        self.edges.len()
    }

    /// The number of items that merging both edge sequences and removing
    /// consecutive repetitions yields: for paths whose edges are sorted, the
    /// number of distinct edges of both.
    pub fn union_count(&self, other: &Path) -> (r: usize)
        ensures
            r == union_seq(self@, other@).len(),
    {
        let merged = merge_sorted(self.edges.as_slice(), other.edges.as_slice()).into_vec();
        merged.as_slice().dedup().count()
    }

    /// The edges of both paths, merged with consecutive repetitions removed.
    pub fn union(&self, other: &Path) -> (r: Path)
        ensures
            r@ == union_seq(self@, other@),
    {
        let merged = merge_sorted(self.edges.as_slice(), other.edges.as_slice()).into_vec();
        Path { edges: merged.as_slice().dedup().into_vec() }
    }

    /// The edges of `self` that the sorted filter keeps against `other`: for
    /// sorted paths, those that `other` does not take.
    pub fn set_minus_iter<'a>(&'a self, other: &'a Path) -> (r: SortedFilterIterator<'a, usize>)
        ensures
            r.wf(),
            r.remaining() == sorted_filter_seq(self@, other@),
    {
        self.edges.as_slice().sorted_filter(other.edges.as_slice())
    }
}

/// An interning table of paths, which holds the empty path at index 0.
pub struct PathIndex {
    index: Index<Path>,
}

impl View for PathIndex {
    type V = Seq<Path>;

    /// The interned paths, by index.
    closed spec fn view(&self) -> Seq<Path> {
        self.index@
    }
}

impl PathIndex {
    #[verifier::type_invariant]
    spec fn inv(self) -> bool {
        self.index@.len() >= 1 && self.index@[0]@ == Seq::<usize>::empty()
    }

    /// An index that holds only the empty path, at index 0.
    pub fn new() -> (r: Self)
        ensures
            r@.len() == 1,
            r@[0 as int]@ == Seq::<usize>::empty(),
    {
        let mut index = Index::new();
        index.transfer_element(Path::empty());
        PathIndex { index }
    }

    /// The number of interned paths; their sequences are pairwise distinct, and the first is empty.
    pub fn len(&self) -> (r: usize)
        ensures
            r == self@.len(),
            r >= 1,
            self@[0 as int]@ == Seq::<usize>::empty(),
            forall|i: int, j: int| 0 <= i < j < self@.len() ==> #[trigger] self@[i]@ != #[trigger] self@[j]@,
    {
        proof {
            use_type_invariant(self);
        }
        let r = self.index.len();
        proof {
            assert forall|i: int, j: int| 0 <= i < j < self@.len() implies #[trigger] self@[i]@
                != #[trigger] self@[j]@ by {
                assert(self.index@[i].key() != self.index@[j].key());
            }
        }
        r
    }

    /// The index of the path equal to `element`, if one is interned.
    pub fn find_idx(&self, element: &Path) -> (r: Option<usize>)
        ensures
            match r {
                Some(i) => i < self@.len() && self@[i as int]@ == element@,
                None => !holds_key(self@, element@),
            },
    {
        self.index.find_idx(element)
    }

    /// The path with index `idx`.
    pub fn get_by_idx(&self, idx: usize) -> (r: &Path)
        requires
            idx < self@.len(),
        ensures
            *r == self@[idx as int],
    {
        self.index.get_by_idx(idx)
    }

    /// The indices of all interned paths, `0..len`.
    pub fn element_ids(&self) -> (r: std::ops::Range<usize>)
        ensures
            r.start == 0,
            r.end == self@.len(),
    {
        self.index.element_ids()
    }

    /// Interns `element` unless an equal path is interned already, and
    /// returns the index of the path equal to it.
    pub fn transfer_element(&mut self, element: Path) -> (r: usize)
        ensures
            (final(self)@, r as int) == interned(old(self)@, element),
            holds_key(old(self)@, element@) ==> {
                &&& final(self)@ == old(self)@
                &&& r < old(self)@.len()
                &&& old(self)@[r as int]@ == element@
            },
            !holds_key(old(self)@, element@) ==> {
                &&& final(self)@ == old(self)@.push(element)
                &&& r == old(self)@.len()
            },
    {
        proof {
            use_type_invariant(&*self);
        }
        let mut taken = PathIndex::new();
        std::mem::swap(&mut taken, self);
        let PathIndex { index } = taken;
        let mut index = index;
        let r = index.transfer_element(element);
        *self = PathIndex { index };
        r
    }
}

} // verus!
