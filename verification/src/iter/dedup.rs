//! Removing consecutive repetitions from a sequence.

use vstd::prelude::*;
use crate::order::{eq_is_specified, equal, items_equal};

verus! {

/// What remains of `rest` behind `head` once every item equal to the head of
/// its group is dropped: `head` is yielded once, the following items equal to
/// `head` are skipped, and the first item that differs starts the next group.
pub open spec fn dedup_from<T: PartialEq>(head: T, rest: Seq<T>) -> Seq<T>
    decreases rest.len(),
{
    if rest.len() == 0 {
        seq![head]
    } else if items_equal(head, rest[0]) {
        dedup_from(head, rest.drop_first())
    } else {
        seq![head] + dedup_from(rest[0], rest.drop_first())
    }
}

/// The first item of each group of consecutive items equal to the group's first item.
pub open spec fn dedup_seq<T: PartialEq>(s: Seq<T>) -> Seq<T> {
    if s.len() == 0 {
        Seq::empty()
    } else {
        dedup_from(s[0], s.drop_first())
    }
}

/// Deduplicating consecutive identical elements of a sequence.
pub trait Dedup<T: PartialEq + Copy> {
    /// The items of the sequence.
    spec fn items(&self) -> Seq<T>;

    /// Returns an iterator that yields only the first occurrence of each
    /// consecutive group of identical elements.
    fn dedup(&self) -> (r: DedupIterator<'_, T>)
        ensures
            r.wf(),
            r.remaining() == dedup_seq(self.items()),
    ;
}

impl<T: PartialEq + Copy> Dedup<T> for [T] {
    open spec fn items(&self) -> Seq<T> {
        self@
    }

    fn dedup(&self) -> (r: DedupIterator<'_, T>) {
        DedupIterator::new(self)
    }
}

/// An iterator that deduplicates consecutive identical elements.
pub struct DedupIterator<'a, T> {
    items: &'a [T],
    pos: usize,
    head: Option<T>,
}

impl<'a, T: PartialEq + Copy> DedupIterator<'a, T> {
    /// The items that the iterator has yet to yield, in order.
    pub closed spec fn remaining(&self) -> Seq<T> {
        match self.head {
            None => Seq::empty(),
            Some(h) => dedup_from(h, self.items@.skip(self.pos as int)),
        }
    }

    pub closed spec fn wf(&self) -> bool {
        &&& self.pos <= self.items@.len()
        &&& self.head is None ==> self.pos == self.items@.len()
    }

    /// Creates the iterator over `items`.
    pub fn new(items: &'a [T]) -> (r: Self)
        ensures
            r.wf(),
            r.remaining() == dedup_seq(items@),
    {
        if items.len() == 0 {
            DedupIterator { items, pos: 0, head: None }
        } else {
            let r = DedupIterator { items, pos: 1, head: Some(items[0]) };
            assert(items@.skip(1) =~= items@.drop_first());
            r
        }
    }

    /// How many more calls of `next` can yield an item, at most.
    pub closed spec fn steps_left(&self) -> nat {
        match self.head {
            None => 0,
            Some(_) => (self.items@.len() - self.pos + 1) as nat,
        }
    }

    /// Yields the first item of the next group, or `None` at the end. The item
    /// yielded is always the next remaining one; which items the group skips
    /// is stated for item types whose equality follows its specification.
    pub fn next(&mut self) -> (r: Option<T>)
        requires
            old(self).wf(),
        ensures
            final(self).wf(),
            r is None <==> old(self).remaining().len() == 0,
            r is None ==> final(self).remaining() == old(self).remaining() && final(self).steps_left() == 0,
            r is Some ==> r == Some(old(self).remaining()[0]) && final(self).steps_left() < old(self).steps_left(),
            eq_is_specified::<T>() && old(self).remaining().len() > 0 ==> final(self).remaining() == old(
                self,
            ).remaining().drop_first(),
    {
        let ghost start = self.remaining();
        let ghost old_steps = self.steps_left();
        match self.head {
            None => {
                return None;
            },
            Some(h) => {
                proof {
                    lemma_dedup_from_shape(h, self.items@.skip(self.pos as int));
                }
                while self.pos < self.items.len()
                    invariant
                        self.pos <= self.items@.len(),
                        self.head == Some(h),
                        eq_is_specified::<T>() ==> start == dedup_from(h, self.items@.skip(self.pos as int)),
                        start == old(self).remaining(),
                        start.len() > 0 && start[0] == h,
                        self.items == old(self).items,
                        self.pos >= old(self).pos,
                        old_steps == old(self).steps_left(),
                        old(self).head is Some,
                    decreases self.items@.len() - self.pos,
                {
                    let item = self.items[self.pos];
                    let ghost rest = self.items@.skip(self.pos as int);
                    self.pos = self.pos + 1;
                    assert(rest.drop_first() =~= self.items@.skip(self.pos as int));
                    assert(rest[0] == item);
                    if !equal(&h, &item) {
                        self.head = Some(item);
                        return Some(h);
                    }
                }
                assert(self.items@.skip(self.pos as int) =~= Seq::<T>::empty());
                self.head = None;
                proof {
                    if eq_is_specified::<T>() {
                        assert(start =~= seq![h]);
                    }
                }
                return Some(h);
            },
        }
    }

    /// Yields all remaining items: exactly [`Self::remaining`] for item types
    /// whose equality follows its specification, and in any case nothing
    /// exactly when nothing remains, and the next remaining item first.
    pub fn into_vec(self) -> (r: Vec<T>)
        requires
            self.wf(),
        ensures
            eq_is_specified::<T>() ==> r@ == self.remaining(),
            r@.len() == 0 <==> self.remaining().len() == 0,
            r@.len() > 0 ==> r@[0] == self.remaining()[0],
    {
        let ghost all = self.remaining();
        let mut it = self;
        let mut out: Vec<T> = Vec::new();
        loop
            invariant
                it.wf(),
                eq_is_specified::<T>() ==> all == out@ + it.remaining(),
                all == self.remaining(),
                out@.len() == 0 ==> it.remaining() == all,
                out@.len() > 0 ==> all.len() > 0 && out@[0] == all[0],
            decreases it.steps_left(),
        {
            let ghost before = it.remaining();
            match it.next() {
                None => {
                    assert(out@ + it.remaining() =~= out@);
                    return out;
                },
                Some(item) => {
                    out.push(item);
                    proof {
                        if eq_is_specified::<T>() {
                            assert(before =~= seq![before[0]] + before.drop_first());
                            assert(all == out@ + it.remaining());
                        }
                    }
                },
            }
        }
    }

    /// Counts the remaining items.
    pub fn count(self) -> (r: usize)
        requires
            self.wf(),
        ensures
            eq_is_specified::<T>() ==> r == self.remaining().len(),
            r == 0 <==> self.remaining().len() == 0,
    {
        let v = self.into_vec();
        v.len()
    }
}

/// Whether no item of `s` equals the item right after it.
pub open spec fn no_equal_neighbours<T: PartialEq>(s: Seq<T>) -> bool {
    forall|i: int| 0 <= i < s.len() - 1 ==> !items_equal(#[trigger] s[i], s[i + 1])
}

/// A group's output starts with its head, holds only the head and items of
/// `rest`, and has no item equal to the next one.
proof fn lemma_dedup_from_shape<T: PartialEq>(head: T, rest: Seq<T>)
    ensures
        dedup_from(head, rest).len() > 0,
        dedup_from(head, rest)[0] == head,
        no_equal_neighbours(dedup_from(head, rest)),
        forall|k: int| 0 <= k < dedup_from(head, rest).len() ==> #[trigger] dedup_from(head, rest)[k] == head
            || rest.contains(dedup_from(head, rest)[k]),
    decreases rest.len(),
{
    let d = dedup_from(head, rest);
    if rest.len() == 0 {
    } else if items_equal(head, rest[0]) {
        lemma_dedup_from_shape(head, rest.drop_first());
        assert forall|k: int| 0 <= k < d.len() implies #[trigger] d[k] == head || rest.contains(d[k]) by {
            if d[k] != head {
                let j = choose|j: int| 0 <= j < rest.drop_first().len() && rest.drop_first()[j] == d[k];
                assert(rest[j + 1] == d[k]);
            }
        }
    } else {
        let t = dedup_from(rest[0], rest.drop_first());
        lemma_dedup_from_shape(rest[0], rest.drop_first());
        assert(d == seq![head] + t);
        assert forall|i: int| 0 <= i < d.len() - 1 implies !items_equal(#[trigger] d[i], d[i + 1]) by {
            if i > 0 {
                assert(d[i] == t[i - 1] && d[i + 1] == t[i]);
            }
        }
        assert forall|k: int| 0 <= k < d.len() implies #[trigger] d[k] == head || rest.contains(d[k]) by {
            if k > 0 {
                assert(d[k] == t[k - 1]);
                if t[k - 1] == rest[0] {
                    assert(rest[0] == d[k]);
                } else {
                    let j = choose|j: int| 0 <= j < rest.drop_first().len() && rest.drop_first()[j] == t[k - 1];
                    assert(rest[j + 1] == d[k]);
                }
            }
        }
    }
}

/// Deduplicating leaves no item equal to the item right after it.
pub proof fn law_dedup_no_equal_neighbours<T: PartialEq>(s: Seq<T>)
    ensures
        no_equal_neighbours(dedup_seq(s)),
{
    if s.len() > 0 {
        lemma_dedup_from_shape(s[0], s.drop_first());
    }
}

/// Deduplicating keeps the first item, is empty exactly for the empty
/// sequence, and yields only items of the sequence.
pub proof fn law_dedup_keeps_items<T: PartialEq>(s: Seq<T>)
    ensures
        dedup_seq(s).len() == 0 <==> s.len() == 0,
        s.len() > 0 ==> dedup_seq(s)[0] == s[0],
        forall|k: int| 0 <= k < dedup_seq(s).len() ==> s.contains(#[trigger] dedup_seq(s)[k]),
{
    if s.len() > 0 {
        lemma_dedup_from_shape(s[0], s.drop_first());
        let d = dedup_seq(s);
        assert forall|k: int| 0 <= k < d.len() implies s.contains(#[trigger] d[k]) by {
            if d[k] == s[0] {
                assert(s[0] == d[k]);
            } else {
                let j = choose|j: int| 0 <= j < s.drop_first().len() && s.drop_first()[j] == d[k];
                assert(s[j + 1] == d[k]);
            }
        }
    }
}

/// A sequence without equal neighbours is its own deduplication.
proof fn lemma_dedup_from_distinct_neighbours<T: PartialEq>(head: T, rest: Seq<T>)
    requires
        no_equal_neighbours(seq![head] + rest),
    ensures
        dedup_from(head, rest) == seq![head] + rest,
    decreases rest.len(),
{
    let s = seq![head] + rest;
    if rest.len() > 0 {
        assert(s[0] == head && s[1] == rest[0]);
        assert(!items_equal(head, rest[0]));
        let t = seq![rest[0]] + rest.drop_first();
        assert(t =~= rest);
        assert forall|i: int| 0 <= i < t.len() - 1 implies !items_equal(#[trigger] t[i], t[i + 1]) by {
            assert(t[i] == s[i + 1] && t[i + 1] == s[i + 2]);
        }
        lemma_dedup_from_distinct_neighbours(rest[0], rest.drop_first());
        assert(dedup_from(head, rest) =~= seq![head] + rest);
    } else {
        assert(dedup_from(head, rest) =~= seq![head] + rest);
    }
}

/// Deduplicating twice changes nothing beyond deduplicating once.
pub proof fn law_dedup_idempotent<T: PartialEq>(s: Seq<T>)
    ensures
        dedup_seq(dedup_seq(s)) == dedup_seq(s),
{
    let d = dedup_seq(s);
    law_dedup_no_equal_neighbours(s);
    if d.len() > 0 {
        assert(d =~= seq![d[0]] + d.drop_first());
        lemma_dedup_from_distinct_neighbours(d[0], d.drop_first());
    }
}

} // verus!
