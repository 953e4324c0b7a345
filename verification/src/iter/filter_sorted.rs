//! Removing from one sorted sequence the items of another.

use vstd::prelude::*;
use crate::order::{compare, item_le, rank_of, total_order_is_specified, Rank};
use crate::order_laws::{lemma_rank_basics, lemma_rank_trans, sorted_items};
use vstd::laws_cmp::obeys_cmp;

verus! {

/// The items of `left` that the sorted filter keeps against `right`: the heads
/// of both sides are compared; a smaller left head is kept, a greater one makes
/// the right side advance, and an equal one is dropped while the right head stays.
pub open spec fn sorted_filter_seq<T: Ord>(left: Seq<T>, right: Seq<T>) -> Seq<T>
    decreases left.len() + right.len(),
{
    if left.len() == 0 {
        Seq::empty()
    } else if right.len() == 0 {
        left
    } else {
        match rank_of(left[0], right[0]) {
            Rank::Less => seq![left[0]] + sorted_filter_seq(left.drop_first(), right),
            Rank::Greater => sorted_filter_seq(left, right.drop_first()),
            Rank::Equal => sorted_filter_seq(left.drop_first(), right),
        }
    }
}

/// Filtering the items of a sorted sequence that appear in another sorted sequence.
pub trait SortedFilter<T: Ord + Copy> {
    /// The items of the sequence.
    spec fn items(&self) -> Seq<T>;

    /// Returns an iterator that yields the items of `self` that are not present in `other`.
    fn sorted_filter<'a>(&'a self, other: &'a [T]) -> (r: SortedFilterIterator<'a, T>)
        ensures
            r.wf(),
            r.remaining() == sorted_filter_seq(self.items(), other@),
    ;
}

impl<T: Ord + Copy> SortedFilter<T> for [T] {
    open spec fn items(&self) -> Seq<T> {
        self@
    }

    fn sorted_filter<'a>(&'a self, other: &'a [T]) -> (r: SortedFilterIterator<'a, T>) {
        SortedFilterIterator::new(self, other)
    }
}

/// An iterator that yields the items of a sorted sequence that do not appear in
/// another sorted sequence.
pub struct SortedFilterIterator<'a, T> {
    left: &'a [T],
    right: &'a [T],
    left_pos: usize,
    right_pos: usize,
}

impl<'a, T: Ord + Copy> SortedFilterIterator<'a, T> {
    /// The items that the iterator has yet to yield, in order.
    pub closed spec fn remaining(&self) -> Seq<T> {
        sorted_filter_seq(self.left@.skip(self.left_pos as int), self.right@.skip(self.right_pos as int))
    }

    pub closed spec fn wf(&self) -> bool {
        self.left_pos <= self.left@.len() && self.right_pos <= self.right@.len()
    }

    /// Creates a new sorted filter iterator from two sorted sequences.
    pub fn new(left: &'a [T], right: &'a [T]) -> (r: Self)
        ensures
            r.wf(),
            r.remaining() == sorted_filter_seq(left@, right@),
    {
        let r = SortedFilterIterator { left, right, left_pos: 0, right_pos: 0 };
        assert(left@.skip(0) =~= left@);
        assert(right@.skip(0) =~= right@);
        r
    }

    /// How many items both sides have left, together.
    pub closed spec fn steps_left(&self) -> nat {
        ((self.left@.len() - self.left_pos) + (self.right@.len() - self.right_pos)) as nat
    }

    /// The items of the left side that the iterator has not passed yet.
    pub closed spec fn left_rest(&self) -> Seq<T> {
        self.left@.skip(self.left_pos as int)
    }

    /// Yields the next item of the left sequence that the right one does not
    /// hold. Each item yielded is one of the left items not passed yet, and the
    /// calls end with `None`; which items are yielded is stated for item types
    /// whose order follows its specification.
    pub fn next(&mut self) -> (r: Option<T>)
        requires
            old(self).wf(),
        ensures
            final(self).wf(),
            final(self).left_rest().len() <= old(self).left_rest().len(),
            final(self).left_rest() == old(self).left_rest().skip(
                old(self).left_rest().len() - final(self).left_rest().len(),
            ),
            r is Some ==> final(self).steps_left() < old(self).steps_left()
                && old(self).left_rest().contains(r->0),
            r is None ==> final(self).left_rest().len() == 0 && final(self).remaining().len() == 0,
            total_order_is_specified::<T>() ==> {
                &&& old(self).remaining().len() == 0 ==> r is None && final(self).remaining() == old(self).remaining()
                &&& old(self).remaining().len() > 0 ==> r == Some(old(self).remaining()[0])
                    && final(self).remaining() == old(self).remaining().drop_first()
            },
    {
        let ghost start = self.remaining();
        let ghost old_rest = self.left_rest();
        while self.left_pos < self.left.len()
            invariant
                self.wf(),
                total_order_is_specified::<T>() ==> start == self.remaining(),
                start == old(self).remaining(),
                old_rest == old(self).left_rest(),
                self.left == old(self).left,
                self.right == old(self).right,
                old(self).left_pos <= self.left_pos,
                old(self).right_pos <= self.right_pos,
                self.left_rest() == old_rest.skip(self.left_pos - old(self).left_pos),
            decreases (self.left@.len() - self.left_pos) + (self.right@.len() - self.right_pos),
        {
            let ghost l = self.left@.skip(self.left_pos as int);
            let ghost r = self.right@.skip(self.right_pos as int);
            let item = self.left[self.left_pos];
            assert(l[0] == item);
            assert(old_rest[self.left_pos - old(self).left_pos] == item);
            if self.right_pos >= self.right.len() {
                self.left_pos = self.left_pos + 1;
                assert(l.drop_first() =~= self.left@.skip(self.left_pos as int));
                assert(r.len() == 0);
                assert(l =~= seq![item] + l.drop_first());
                proof { lemma_filter_no_right(l.drop_first(), r); }
                return Some(item);
            }
            assert(r[0] == self.right@[self.right_pos as int]);
            match compare(&item, &self.right[self.right_pos]) {
                Rank::Less => {
                    self.left_pos = self.left_pos + 1;
                    assert(l.drop_first() =~= self.left@.skip(self.left_pos as int));
                    return Some(item);
                },
                Rank::Greater => {
                    self.right_pos = self.right_pos + 1;
                    assert(r.drop_first() =~= self.right@.skip(self.right_pos as int));
                },
                Rank::Equal => {
                    self.left_pos = self.left_pos + 1;
                    assert(l.drop_first() =~= self.left@.skip(self.left_pos as int));
                },
            }
        }
        assert(self.left@.skip(self.left_pos as int).len() == 0);
        assert(self.left_rest() =~= old_rest.skip(old_rest.len() - self.left_rest().len()));
        None
    }

    /// Yields all remaining items: exactly [`Self::remaining`] for item types
    /// whose order follows its specification, and in any case only items of
    /// the left side not passed yet.
    pub fn into_vec(self) -> (r: Vec<T>)
        requires
            self.wf(),
        ensures
            total_order_is_specified::<T>() ==> r@ == self.remaining(),
            forall|k: int| 0 <= k < r@.len() ==> self.left_rest().contains(#[trigger] r@[k]),
    {
        let ghost all = self.remaining();
        let ghost rest0 = self.left_rest();
        let mut it = self;
        let mut out: Vec<T> = Vec::new();
        loop
            invariant
                it.wf(),
                total_order_is_specified::<T>() ==> all == out@ + it.remaining(),
                all == self.remaining(),
                rest0 == self.left_rest(),
                it.left_rest().len() <= rest0.len(),
                it.left_rest() == rest0.skip(rest0.len() - it.left_rest().len()),
                forall|k: int| 0 <= k < out@.len() ==> rest0.contains(#[trigger] out@[k]),
            decreases it.steps_left(),
        {
            let ghost before = it.remaining();
            let ghost rest_before = it.left_rest();
            match it.next() {
                None => {
                    assert(out@ + it.remaining() =~= out@);
                    return out;
                },
                Some(item) => {
                    proof {
                        let k = choose|k: int| 0 <= k < rest_before.len() && rest_before[k] == item;
                        assert(rest0[k + rest0.len() - rest_before.len()] == item);
                        assert(it.left_rest() =~= rest0.skip(rest0.len() - it.left_rest().len()));
                    }
                    out.push(item);
                    proof {
                        if total_order_is_specified::<T>() {
                            assert(before =~= seq![before[0]] + before.drop_first());
                            assert(all == out@ + it.remaining());
                        }
                    }
                },
            }
        }
    }
}

/// Against an exhausted right side, everything on the left is kept.
pub proof fn lemma_filter_no_right<T: Ord>(left: Seq<T>, right: Seq<T>)
    requires
        right.len() == 0,
    ensures
        sorted_filter_seq(left, right) == left,
{
}

/// Whether no item of `r` is equal to `x`.
pub open spec fn missing_from<T: Ord>(x: T, r: Seq<T>) -> bool {
    forall|k: int| 0 <= k < r.len() ==> rank_of(x, #[trigger] r[k]) != Rank::Equal
}

/// The items of `l` that `r` lacks, in the order of `l`, repetitions kept.
pub open spec fn items_missing<T: Ord>(l: Seq<T>, r: Seq<T>) -> Seq<T>
    decreases l.len(),
{
    if l.len() == 0 {
        Seq::empty()
    } else if missing_from(l[0], r) {
        seq![l[0]] + items_missing(l.drop_first(), r)
    } else {
        items_missing(l.drop_first(), r)
    }
}

/// Against an empty side, every item is missing.
proof fn lemma_missing_from_empty<T: Ord>(l: Seq<T>, r: Seq<T>)
    requires
        r.len() == 0,
    ensures
        items_missing(l, r) == l,
    decreases l.len(),
{
    if l.len() > 0 {
        lemma_missing_from_empty(l.drop_first(), r);
        assert(l =~= seq![l[0]] + l.drop_first());
    }
}

/// An item of `r` that equals no item of `l` does not change what `l` lacks.
proof fn lemma_missing_drop_right<T: Ord>(l: Seq<T>, r: Seq<T>)
    requires
        r.len() > 0,
        forall|i: int| 0 <= i < l.len() ==> rank_of(#[trigger] l[i], r[0]) != Rank::Equal,
    ensures
        items_missing(l, r) == items_missing(l, r.drop_first()),
    decreases l.len(),
{
    if l.len() > 0 {
        let x = l[0];
        assert(missing_from(x, r) <==> missing_from(x, r.drop_first())) by {
            if missing_from(x, r.drop_first()) {
                assert forall|k: int| 0 <= k < r.len() implies rank_of(x, #[trigger] r[k]) != Rank::Equal by {
                    if k > 0 {
                        assert(r[k] == r.drop_first()[k - 1]);
                    }
                }
            }
            if missing_from(x, r) {
                assert forall|k: int| 0 <= k < r.drop_first().len() implies rank_of(x, #[trigger] r.drop_first()[k])
                    != Rank::Equal by {
                    assert(r.drop_first()[k] == r[k + 1]);
                }
            }
        }
        assert forall|i: int| 0 <= i < l.drop_first().len() implies rank_of(#[trigger] l.drop_first()[i], r[0])
            != Rank::Equal by {
            assert(l.drop_first()[i] == l[i + 1]);
        }
        lemma_missing_drop_right(l.drop_first(), r);
    }
}

/// A sorted sequence without its first item is sorted.
proof fn lemma_sorted_rest<T: PartialOrd>(s: Seq<T>)
    requires
        sorted_items(s),
        s.len() > 0,
    ensures
        sorted_items(s.drop_first()),
{
    assert forall|i: int, j: int| 0 <= i < j < s.drop_first().len() implies item_le(
        #[trigger] s.drop_first()[i],
        #[trigger] s.drop_first()[j],
    ) by {
        assert(s.drop_first()[i] == s[i + 1] && s.drop_first()[j] == s[j + 1]);
    }
}

/// With a lawful total order and sorted sides, the sorted filter keeps exactly
/// the items of the left side that no item of the right side equals, in
/// order and with their repetitions.
pub proof fn law_sorted_filter_keeps_missing<T: Ord>(l: Seq<T>, r: Seq<T>)
    requires
        obeys_cmp::<T>(),
        sorted_items(l),
        sorted_items(r),
    ensures
        sorted_filter_seq(l, r) == items_missing(l, r),
    decreases l.len() + r.len(),
{
    if l.len() == 0 {
    } else if r.len() == 0 {
        lemma_filter_no_right(l, r);
        lemma_missing_from_empty(l, r);
    } else {
        let x = l[0];
        let y = r[0];
        match rank_of(x, y) {
            Rank::Less => {
                assert forall|k: int| 0 <= k < r.len() implies rank_of(x, #[trigger] r[k]) != Rank::Equal by {
                    if k > 0 {
                        assert(item_le(r[0], r[k]));
                        lemma_rank_basics(y, r[k]);
                    }
                    lemma_rank_trans(x, y, r[k]);
                    lemma_rank_basics(y, y);
                }
                lemma_sorted_rest(l);
                law_sorted_filter_keeps_missing(l.drop_first(), r);
            },
            Rank::Greater => {
                lemma_rank_basics(x, y);
                assert forall|i: int| 0 <= i < l.len() implies rank_of(#[trigger] l[i], y) != Rank::Equal by {
                    if i > 0 {
                        assert(item_le(l[0], l[i]));
                        lemma_rank_basics(x, l[i]);
                    }
                    lemma_rank_basics(x, x);
                    lemma_rank_trans(y, x, l[i]);
                    lemma_rank_basics(y, l[i]);
                }
                lemma_missing_drop_right(l, r);
                lemma_sorted_rest(r);
                law_sorted_filter_keeps_missing(l, r.drop_first());
            },
            Rank::Equal => {
                assert(!missing_from(x, r)) by {
                    assert(rank_of(x, r[0]) == Rank::Equal);
                }
                lemma_sorted_rest(l);
                law_sorted_filter_keeps_missing(l.drop_first(), r);
            },
        }
    }
}

/// Against an empty right side the sorted filter keeps everything.
pub proof fn law_sorted_filter_empty_right<T: Ord>(l: Seq<T>)
    ensures
        sorted_filter_seq(l, Seq::empty()) == l,
{
    lemma_filter_no_right(l, Seq::<T>::empty());
}

} // verus!
