//! Merging two sorted sequences.

use vstd::prelude::*;
use crate::order::{item_le, less_or_equal, partial_order_is_specified, rank_of, Rank};
use crate::order_laws::{lemma_rank_basics, lemma_rank_trans, sorted_items};
use vstd::laws_cmp::obeys_cmp;

verus! {

/// The sequence that merging `left` and `right` yields: at each step the
/// head of `left` is taken when it is `<=` the head of `right`, and the head
/// of `right` otherwise; once one side is exhausted the other follows as is.
pub open spec fn merge_seq<T: PartialOrd>(left: Seq<T>, right: Seq<T>) -> Seq<T>
    decreases left.len() + right.len(),
{
    if left.len() == 0 {
        right
    } else if right.len() == 0 {
        left
    } else if item_le(left[0], right[0]) {
        seq![left[0]] + merge_seq(left.drop_first(), right)
    } else {
        seq![right[0]] + merge_seq(left, right.drop_first())
    }
}

/// An iterator that merges two sorted sequences in ascending order.
pub struct MergedIterator<'a, T> {
    left: &'a [T],
    right: &'a [T],
    left_pos: usize,
    right_pos: usize,
}

impl<'a, T: PartialOrd + Copy> MergedIterator<'a, T> {
    /// The items that the iterator has yet to yield, in order.
    pub closed spec fn remaining(&self) -> Seq<T> {
        merge_seq(self.left@.skip(self.left_pos as int), self.right@.skip(self.right_pos as int))
    }

    pub closed spec fn wf(&self) -> bool {
        self.left_pos <= self.left@.len() && self.right_pos <= self.right@.len()
    }

    /// Creates a new merged iterator from two sorted sequences.
    pub fn new(left: &'a [T], right: &'a [T]) -> (r: Self)
        ensures
            r.wf(),
            r.remaining() == merge_seq(left@, right@),
    {
        let r = MergedIterator { left, right, left_pos: 0, right_pos: 0 };
        assert(left@.skip(0) =~= left@);
        assert(right@.skip(0) =~= right@);
        r
    }

    /// How many items both sides have left, together.
    pub closed spec fn steps_left(&self) -> nat {
        ((self.left@.len() - self.left_pos) + (self.right@.len() - self.right_pos)) as nat
    }

    /// Yields the next item of the merge, or `None` once both sides are
    /// exhausted. Each call takes one item from one side; which side is stated
    /// for item types whose order follows its specification.
    pub fn next(&mut self) -> (r: Option<T>)
        requires
            old(self).wf(),
        ensures
            final(self).wf(),
            old(self).steps_left() == old(self).remaining().len(),
            r is None <==> old(self).remaining().len() == 0,
            r is None ==> final(self).remaining() == old(self).remaining() && final(self).steps_left() == 0,
            r is Some ==> final(self).steps_left() + 1 == old(self).steps_left(),
            partial_order_is_specified::<T>() && old(self).remaining().len() > 0 ==> r == Some(
                old(self).remaining()[0],
            ) && final(self).remaining() == old(self).remaining().drop_first(),
    {
        let ghost l = self.left@.skip(self.left_pos as int);
        let ghost rr = self.right@.skip(self.right_pos as int);
        proof {
            law_merge_len(l, rr);
        }
        let left_open = self.left_pos < self.left.len();
        let right_open = self.right_pos < self.right.len();
        if !left_open && !right_open {
            assert(l.len() == 0 && rr.len() == 0);
            None
        } else if left_open && (!right_open || less_or_equal(
            &self.left[self.left_pos],
            &self.right[self.right_pos],
        )) {
            let item = self.left[self.left_pos];
            self.left_pos = self.left_pos + 1;
            assert(l.drop_first() =~= self.left@.skip(self.left_pos as int));
            assert(l[0] == item);
            Some(item)
        } else {
            let item = self.right[self.right_pos];
            self.right_pos = self.right_pos + 1;
            assert(rr.drop_first() =~= self.right@.skip(self.right_pos as int));
            assert(rr[0] == item);
            Some(item)
        }
    }

    /// Yields all remaining items: exactly [`Self::remaining`] for item types
    /// whose order follows its specification, and in any case as many items as
    /// both sides have left.
    pub fn into_vec(self) -> (r: Vec<T>)
        requires
            self.wf(),
        ensures
            partial_order_is_specified::<T>() ==> r@ == self.remaining(),
            r@.len() == self.remaining().len(),
    {
        let ghost all = self.remaining();
        let mut it = self;
        let mut out: Vec<T> = Vec::new();
        proof {
            law_merge_len(self.left@.skip(self.left_pos as int), self.right@.skip(self.right_pos as int));
        }
        loop
            invariant
                it.wf(),
                partial_order_is_specified::<T>() ==> all == out@ + it.remaining(),
                all == self.remaining(),
                out@.len() + it.steps_left() == all.len(),
            decreases it.steps_left(),
        {
            let ghost before = it.remaining();
            match it.next() {
                None => {
                    assert(out@ + it.remaining() =~= out@);
                    return out;
                },
                Some(item) => {
                    out.push(item);
                    proof {
                        if partial_order_is_specified::<T>() {
                            assert(before =~= seq![before[0]] + before.drop_first());
                            assert(all == out@ + it.remaining());
                        }
                    }
                },
            }
        }
    }
}

/// The merge yields as many items as both sides hold together.
pub proof fn law_merge_len<T: PartialOrd>(left: Seq<T>, right: Seq<T>)
    ensures
        merge_seq(left, right).len() == left.len() + right.len(),
    decreases left.len() + right.len(),
{
    if left.len() > 0 && right.len() > 0 {
        if item_le(left[0], right[0]) {
            law_merge_len(left.drop_first(), right);
        } else {
            law_merge_len(left, right.drop_first());
        }
    }
}

/// Merges two sorted sequences into a single sorted sequence.
pub fn merge_sorted<'a, T: PartialOrd + Copy>(left: &'a [T], right: &'a [T]) -> (r: MergedIterator<'a, T>)
    ensures
        r.wf(),
        r.remaining() == merge_seq(left@, right@),
{
    MergedIterator::new(left, right)
}

/// Merging with an empty side gives the other side as it is, sorted or not.
pub proof fn law_merge_empty_identity<T: PartialOrd>(s: Seq<T>)
    ensures
        merge_seq(s, Seq::empty()) == s,
        merge_seq(Seq::empty(), s) == s,
{
}

/// The merge holds exactly the items of both sides, as many times as both together.
pub proof fn law_merge_multiset<T: PartialOrd>(left: Seq<T>, right: Seq<T>)
    ensures
        merge_seq(left, right).to_multiset() == left.to_multiset().add(right.to_multiset()),
    decreases left.len() + right.len(),
{
    broadcast use vstd::seq_lib::group_to_multiset_ensures;
    if left.len() > 0 && right.len() > 0 {
        if item_le(left[0], right[0]) {
            law_merge_multiset(left.drop_first(), right);
            assert(left =~= seq![left[0]] + left.drop_first());
            vstd::seq_lib::lemma_multiset_commutative(seq![left[0]], merge_seq(left.drop_first(), right));
            vstd::seq_lib::lemma_multiset_commutative(seq![left[0]], left.drop_first());
        } else {
            law_merge_multiset(left, right.drop_first());
            assert(right =~= seq![right[0]] + right.drop_first());
            vstd::seq_lib::lemma_multiset_commutative(seq![right[0]], merge_seq(left, right.drop_first()));
            vstd::seq_lib::lemma_multiset_commutative(seq![right[0]], right.drop_first());
        }
    }
}

/// With a lawful total order, the merge of two sorted sequences is sorted.
pub proof fn law_merge_sorted<T: Ord>(left: Seq<T>, right: Seq<T>)
    requires
        obeys_cmp::<T>(),
        sorted_items(left),
        sorted_items(right),
    ensures
        sorted_items(merge_seq(left, right)),
    decreases left.len() + right.len(),
{
    if left.len() > 0 && right.len() > 0 {
        let m = merge_seq(left, right);
        let (x, rest) = if item_le(left[0], right[0]) {
            assert(sorted_items(left.drop_first())) by {
                assert forall|i: int, j: int| 0 <= i < j < left.drop_first().len() implies item_le(
                    #[trigger] left.drop_first()[i],
                    #[trigger] left.drop_first()[j],
                ) by {
                    assert(left.drop_first()[i] == left[i + 1] && left.drop_first()[j] == left[j + 1]);
                }
            }
            law_merge_sorted(left.drop_first(), right);
            (left[0], merge_seq(left.drop_first(), right))
        } else {
            assert(sorted_items(right.drop_first())) by {
                assert forall|i: int, j: int| 0 <= i < j < right.drop_first().len() implies item_le(
                    #[trigger] right.drop_first()[i],
                    #[trigger] right.drop_first()[j],
                ) by {
                    assert(right.drop_first()[i] == right[i + 1] && right.drop_first()[j] == right[j + 1]);
                }
            }
            law_merge_sorted(left, right.drop_first());
            (right[0], merge_seq(left, right.drop_first()))
        };
        assert(m == seq![x] + rest);
        // The head is `<=` every item of both sides, hence of the rest.
        assert forall|k: int| 0 <= k < rest.len() implies item_le(x, #[trigger] rest[k]) by {
            let y = rest[k];
            let l0 = left[0];
            let r0 = right[0];
            lemma_rank_basics(l0, r0);
            lemma_rank_basics(x, y);
            if item_le(l0, r0) {
                law_merge_multiset(left.drop_first(), right);
                assert(rest.to_multiset().count(y) > 0) by {
                    broadcast use vstd::seq_lib::group_to_multiset_ensures;
                    assert(rest.contains(y));
                }
                if left.drop_first().to_multiset().count(y) > 0 {
                    broadcast use vstd::seq_lib::group_to_multiset_ensures;
                    let j = choose|j: int| 0 <= j < left.drop_first().len() && left.drop_first()[j] == y;
                    assert(left[j + 1] == y);
                    assert(item_le(left[0], left[j + 1]));
                } else {
                    broadcast use vstd::seq_lib::group_to_multiset_ensures;
                    assert(right.to_multiset().count(y) > 0);
                    let j = choose|j: int| 0 <= j < right.len() && right[j] == y;
                    if j > 0 {
                        assert(item_le(right[0], right[j]));
                    }
                    lemma_rank_basics(r0, y);
                    lemma_rank_trans(l0, r0, y);
                }
            } else {
                law_merge_multiset(left, right.drop_first());
                assert(rest.to_multiset().count(y) > 0) by {
                    broadcast use vstd::seq_lib::group_to_multiset_ensures;
                    assert(rest.contains(y));
                }
                if right.drop_first().to_multiset().count(y) > 0 {
                    broadcast use vstd::seq_lib::group_to_multiset_ensures;
                    let j = choose|j: int| 0 <= j < right.drop_first().len() && right.drop_first()[j] == y;
                    assert(right[j + 1] == y);
                    assert(item_le(right[0], right[j + 1]));
                } else {
                    broadcast use vstd::seq_lib::group_to_multiset_ensures;
                    assert(left.to_multiset().count(y) > 0);
                    let j = choose|j: int| 0 <= j < left.len() && left[j] == y;
                    if j > 0 {
                        assert(item_le(left[0], left[j]));
                    }
                    lemma_rank_basics(r0, l0);
                    lemma_rank_basics(l0, y);
                    lemma_rank_trans(r0, l0, y);
                }
            }
        }
        assert forall|i: int, j: int| 0 <= i < j < m.len() implies item_le(#[trigger] m[i], #[trigger] m[j]) by {
            if i == 0 {
                assert(m[j] == rest[j - 1]);
            } else {
                assert(m[i] == rest[i - 1] && m[j] == rest[j - 1]);
            }
        }
    }
}

} // verus!
