//! Sorted sequences of indices and what the sorted-sequence iterators do to them.

use vstd::prelude::*;
use vstd::multiset::Multiset;
use crate::iter::dedup::{dedup_from, dedup_seq};
use crate::iter::filter_sorted::sorted_filter_seq;
use crate::iter::merge_sorted::merge_seq;

verus! {

/// The union that merging two sequences and removing consecutive repetitions
/// gives: for two strictly sorted sequences, the strictly sorted sequence of the
/// items of either.
pub open spec fn union_seq(a: Seq<usize>, b: Seq<usize>) -> Seq<usize> {
    dedup_seq(merge_seq(a, b))
}

/// Every item is `<=` each item after it.
pub open spec fn sorted(s: Seq<usize>) -> bool {
    forall|i: int, j: int| 0 <= i < j < s.len() ==> s[i] <= s[j]
}

/// Every item is `<` each item after it: the sequence is sorted and holds no item twice.
pub open spec fn strictly_sorted(s: Seq<usize>) -> bool {
    forall|i: int, j: int| 0 <= i < j < s.len() ==> s[i] < s[j]
}

/// An item is in `seq![head] + rest` when it is `head` or in `rest`.
pub proof fn lemma_cons_contains(head: usize, rest: Seq<usize>, x: usize)
    ensures
        (seq![head] + rest).contains(x) <==> (x == head || rest.contains(x)),
{
    let s = seq![head] + rest;
    if x == head {
        assert(s[0] == x);
    }
    if rest.contains(x) {
        let k = choose|k: int| 0 <= k < rest.len() && rest[k] == x;
        assert(s[k + 1] == x);
    }
    if s.contains(x) && x != head {
        let k = choose|k: int| 0 <= k < s.len() && s[k] == x;
        assert(rest[k - 1] == x);
    }
}

/// An item is in a non-empty sequence when it is its first item or in the rest.
pub proof fn lemma_first_contains(s: Seq<usize>, x: usize)
    requires
        s.len() > 0,
    ensures
        s.contains(x) <==> (x == s[0] || s.drop_first().contains(x)),
{
    assert(s =~= seq![s[0]] + s.drop_first());
    lemma_cons_contains(s[0], s.drop_first(), x);
}

/// Merging two sorted sequences gives a sorted sequence that holds exactly the
/// items of both, as many times as both together.
pub proof fn lemma_merge_of_sorted(a: Seq<usize>, b: Seq<usize>)
    requires
        sorted(a),
        sorted(b),
    ensures
        sorted(merge_seq(a, b)),
        merge_seq(a, b).len() == a.len() + b.len(),
        forall|x: usize| merge_seq(a, b).contains(x) <==> (a.contains(x) || b.contains(x)),
        merge_seq(a, b).to_multiset() =~= a.to_multiset().add(b.to_multiset()),
    decreases a.len() + b.len(),
{
    broadcast use vstd::seq_lib::group_to_multiset_ensures;
    let m = merge_seq(a, b);
    if a.len() == 0 {
        assert(a =~= Seq::<usize>::empty());
        assert(a.to_multiset() =~= Multiset::empty());
    } else if b.len() == 0 {
        assert(b =~= Seq::<usize>::empty());
        assert(b.to_multiset() =~= Multiset::empty());
    } else if a[0] <= b[0] {
        let a1 = a.drop_first();
        lemma_merge_of_sorted(a1, b);
        let m1 = merge_seq(a1, b);
        assert(m == seq![a[0]] + m1);
        assert forall|x: usize| m1.contains(x) implies a[0] <= x by {
            if a1.contains(x) {
                let k = choose|k: int| 0 <= k < a1.len() && a1[k] == x;
                assert(a[k + 1] == x);
            } else {
                let k = choose|k: int| 0 <= k < b.len() && b[k] == x;
                assert(b[0] <= b[k]);
            }
        }
        assert forall|i: int, j: int| 0 <= i < j < m.len() implies m[i] <= m[j] by {
            if i == 0 {
                assert(m1.contains(m1[j - 1]));
            }
        }
        assert forall|x: usize| m.contains(x) <==> (a.contains(x) || b.contains(x)) by {
            lemma_cons_contains(a[0], m1, x);
            lemma_first_contains(a, x);
        }
        assert(a =~= seq![a[0]] + a1);
        vstd::seq_lib::lemma_multiset_commutative(seq![a[0]], a1);
        vstd::seq_lib::lemma_multiset_commutative(seq![a[0]], m1);
    } else {
        let b1 = b.drop_first();
        lemma_merge_of_sorted(a, b1);
        let m1 = merge_seq(a, b1);
        assert(m == seq![b[0]] + m1);
        assert forall|x: usize| m1.contains(x) implies b[0] <= x by {
            if b1.contains(x) {
                let k = choose|k: int| 0 <= k < b1.len() && b1[k] == x;
                assert(b[k + 1] == x);
            } else {
                let k = choose|k: int| 0 <= k < a.len() && a[k] == x;
                assert(a[0] <= a[k]);
            }
        }
        assert forall|i: int, j: int| 0 <= i < j < m.len() implies m[i] <= m[j] by {
            if i == 0 {
                assert(m1.contains(m1[j - 1]));
            }
        }
        assert forall|x: usize| m.contains(x) <==> (a.contains(x) || b.contains(x)) by {
            lemma_cons_contains(b[0], m1, x);
            lemma_first_contains(b, x);
        }
        assert(b =~= seq![b[0]] + b1);
        vstd::seq_lib::lemma_multiset_commutative(seq![b[0]], b1);
        vstd::seq_lib::lemma_multiset_commutative(seq![b[0]], m1);
    }
}

/// Deduplicating a sorted sequence that starts with `head` gives a strictly
/// sorted sequence that starts with `head` and holds the same items.
pub proof fn lemma_dedup_from_sorted(head: usize, rest: Seq<usize>)
    requires
        sorted(seq![head] + rest),
    ensures
        strictly_sorted(dedup_from(head, rest)),
        dedup_from(head, rest).len() > 0,
        dedup_from(head, rest)[0] == head,
        forall|x: usize| dedup_from(head, rest).contains(x) <==> (x == head || rest.contains(x)),
    decreases rest.len(),
{
    let s = seq![head] + rest;
    let d = dedup_from(head, rest);
    if rest.len() == 0 {
        assert(d =~= seq![head]);
    } else {
        let r1 = rest.drop_first();
        assert forall|i: int, j: int| 0 <= i < j < r1.len() + 1 implies (seq![rest[0]] + r1)[i] <= (
        seq![rest[0]] + r1)[j] by {
            assert((seq![rest[0]] + r1)[i] == s[i + 1]);
            assert((seq![rest[0]] + r1)[j] == s[j + 1]);
        }
        if head == rest[0] {
            assert forall|i: int, j: int| 0 <= i < j < r1.len() + 1 implies (seq![head] + r1)[i] <= (
            seq![head] + r1)[j] by {
                assert((seq![rest[0]] + r1)[i] == (seq![head] + r1)[i]);
                assert((seq![rest[0]] + r1)[j] == (seq![head] + r1)[j]);
            }
            lemma_dedup_from_sorted(head, r1);
            assert forall|x: usize| rest.contains(x) <==> (x == head || r1.contains(x)) by {
                if rest.contains(x) && x != head {
                    let k = choose|k: int| 0 <= k < rest.len() && rest[k] == x;
                    assert(r1[k - 1] == x);
                }
                if r1.contains(x) {
                    let k = choose|k: int| 0 <= k < r1.len() && r1[k] == x;
                    assert(rest[k + 1] == x);
                }
            }
        } else {
            assert(s[0] <= s[1]);
            lemma_dedup_from_sorted(rest[0], r1);
            let d1 = dedup_from(rest[0], r1);
            assert(d == seq![head] + d1);
            assert forall|x: usize| d1.contains(x) implies head < x by {
                if r1.contains(x) {
                    let k = choose|k: int| 0 <= k < r1.len() && r1[k] == x;
                    assert(s[0] <= s[k + 2]);
                    assert(s[k + 2] == x);
                }
            }
            assert forall|i: int, j: int| 0 <= i < j < d.len() implies d[i] < d[j] by {
                if i == 0 {
                    assert(d1.contains(d1[j - 1]));
                } else {
                    assert(d[i] == d1[i - 1] && d[j] == d1[j - 1]);
                }
            }
            assert forall|x: usize| d.contains(x) <==> (x == head || rest.contains(x)) by {
                lemma_cons_contains(head, d1, x);
                lemma_first_contains(rest, x);
            }
        }
    }
}

/// Deduplicating a sorted sequence gives the strictly sorted sequence of its items.
pub proof fn lemma_dedup_of_sorted(s: Seq<usize>)
    requires
        sorted(s),
    ensures
        strictly_sorted(dedup_seq(s)),
        forall|x: usize| dedup_seq(s).contains(x) <==> s.contains(x),
{
    if s.len() > 0 {
        assert(s =~= seq![s[0]] + s.drop_first());
        lemma_dedup_from_sorted(s[0], s.drop_first());
        assert forall|x: usize| s.contains(x) <==> (x == s[0] || s.drop_first().contains(x)) by {
            if s.contains(x) && x != s[0] {
                let k = choose|k: int| 0 <= k < s.len() && s[k] == x;
                assert(s.drop_first()[k - 1] == x);
            }
            if s.drop_first().contains(x) {
                let k = choose|k: int| 0 <= k < s.drop_first().len() && s.drop_first()[k] == x;
                assert(s[k + 1] == x);
            }
        }
    }
}

/// Filtering a strictly sorted sequence against a sorted one keeps, in order,
/// exactly the items that the second does not hold.
pub proof fn lemma_filter_of_sorted(l: Seq<usize>, r: Seq<usize>)
    requires
        strictly_sorted(l),
        sorted(r),
    ensures
        strictly_sorted(sorted_filter_seq(l, r)),
        forall|x: usize|
            sorted_filter_seq(l, r).contains(x) <==> (l.contains(x) && !r.contains(x)),
    decreases l.len() + r.len(),
{
    let f = sorted_filter_seq(l, r);
    if l.len() == 0 {
    } else if r.len() == 0 {
    } else {
        let l1 = l.drop_first();
        let r1 = r.drop_first();
        assert forall|x: usize| l.contains(x) <==> (x == l[0] || l1.contains(x)) by {
            if l.contains(x) && x != l[0] {
                let k = choose|k: int| 0 <= k < l.len() && l[k] == x;
                assert(l1[k - 1] == x);
            }
            if l1.contains(x) {
                let k = choose|k: int| 0 <= k < l1.len() && l1[k] == x;
                assert(l[k + 1] == x);
            }
        }
        assert forall|x: usize| r.contains(x) <==> (x == r[0] || r1.contains(x)) by {
            if r.contains(x) && x != r[0] {
                let k = choose|k: int| 0 <= k < r.len() && r[k] == x;
                assert(r1[k - 1] == x);
            }
            if r1.contains(x) {
                let k = choose|k: int| 0 <= k < r1.len() && r1[k] == x;
                assert(r[k + 1] == x);
            }
        }
        assert(strictly_sorted(l1)) by {
            assert forall|i: int, j: int| 0 <= i < j < l1.len() implies l1[i] < l1[j] by {
                assert(l1[i] == l[i + 1] && l1[j] == l[j + 1]);
            }
        }
        assert(sorted(r1)) by {
            assert forall|i: int, j: int| 0 <= i < j < r1.len() implies r1[i] <= r1[j] by {
                assert(r1[i] == r[i + 1] && r1[j] == r[j + 1]);
            }
        }
        if l[0] < r[0] {
            lemma_filter_of_sorted(l1, r);
            let f1 = sorted_filter_seq(l1, r);
            assert(f == seq![l[0]] + f1);
            assert forall|x: usize| r.contains(x) implies r[0] <= x by {
                let k = choose|k: int| 0 <= k < r.len() && r[k] == x;
                assert(r[0] <= r[k]);
            }
            assert forall|x: usize| f1.contains(x) implies l[0] < x by {
                assert(l1.contains(x));
                let k = choose|k: int| 0 <= k < l1.len() && l1[k] == x;
                assert(l[0] < l[k + 1]);
            }
            assert forall|i: int, j: int| 0 <= i < j < f.len() implies f[i] < f[j] by {
                if i == 0 {
                    assert(f1.contains(f1[j - 1]));
                } else {
                    assert(f[i] == f1[i - 1] && f[j] == f1[j - 1]);
                }
            }
            assert forall|x: usize| f.contains(x) <==> (l.contains(x) && !r.contains(x)) by {
                lemma_cons_contains(l[0], f1, x);
                if x == l[0] {
                    assert(!r.contains(x));
                }
            }
        } else if l[0] > r[0] {
            lemma_filter_of_sorted(l, r1);
            assert forall|x: usize| l.contains(x) implies l[0] <= x by {
                let k = choose|k: int| 0 <= k < l.len() && l[k] == x;
                if k > 0 {
                    assert(l[0] < l[k]);
                }
            }
        } else {
            lemma_filter_of_sorted(l1, r);
            assert forall|x: usize| l1.contains(x) implies l[0] < x by {
                let k = choose|k: int| 0 <= k < l1.len() && l1[k] == x;
                assert(l[0] < l[k + 1]);
            }
        }
    }
}

/// The union of two strictly sorted sequences is strictly sorted and holds
/// exactly the items of either.
pub proof fn lemma_union_of_sorted(a: Seq<usize>, b: Seq<usize>)
    requires
        strictly_sorted(a),
        strictly_sorted(b),
    ensures
        strictly_sorted(union_seq(a, b)),
        forall|x: usize| union_seq(a, b).contains(x) <==> (a.contains(x) || b.contains(x)),
{
    lemma_strict_is_sorted(a);
    lemma_strict_is_sorted(b);
    lemma_merge_of_sorted(a, b);
    lemma_dedup_of_sorted(merge_seq(a, b));
}

/// A strictly sorted sequence is sorted.
pub proof fn lemma_strict_is_sorted(s: Seq<usize>)
    requires
        strictly_sorted(s),
    ensures
        sorted(s),
{
}

/// Two strictly sorted sequences that hold the same items are equal.
pub proof fn lemma_strictly_sorted_unique(s: Seq<usize>, t: Seq<usize>)
    requires
        strictly_sorted(s),
        strictly_sorted(t),
        forall|x: usize| s.contains(x) <==> t.contains(x),
    ensures
        s == t,
    decreases s.len(),
{
    if s.len() == 0 {
        if t.len() > 0 {
            assert(t.contains(t[0]));
        }
        assert(s =~= t);
    } else {
        assert(s.contains(s[0]));
        assert(t.len() > 0);
        assert(t.contains(t[0]));
        let ks = choose|k: int| 0 <= k < s.len() && s[k] == t[0];
        let kt = choose|k: int| 0 <= k < t.len() && t[k] == s[0];
        if ks > 0 {
            assert(s[0] < s[ks]);
        }
        if kt > 0 {
            assert(t[0] < t[kt]);
        }
        assert(s[0] == t[0]);
        let s1 = s.drop_first();
        let t1 = t.drop_first();
        assert forall|x: usize| s1.contains(x) <==> t1.contains(x) by {
            if s1.contains(x) {
                let k = choose|k: int| 0 <= k < s1.len() && s1[k] == x;
                assert(s[k + 1] == x);
                assert(s[0] < s[k + 1]);
                assert(t.contains(x));
                let k2 = choose|k2: int| 0 <= k2 < t.len() && t[k2] == x;
                assert(k2 != 0);
                assert(t1[k2 - 1] == x);
            }
            if t1.contains(x) {
                let k = choose|k: int| 0 <= k < t1.len() && t1[k] == x;
                assert(t[k + 1] == x);
                assert(t[0] < t[k + 1]);
                assert(s.contains(x));
                let k2 = choose|k2: int| 0 <= k2 < s.len() && s[k2] == x;
                assert(k2 != 0);
                assert(s1[k2 - 1] == x);
            }
        }
        assert(strictly_sorted(s1)) by {
            assert forall|i: int, j: int| 0 <= i < j < s1.len() implies s1[i] < s1[j] by {
                assert(s1[i] == s[i + 1] && s1[j] == s[j + 1]);
            }
        }
        assert(strictly_sorted(t1)) by {
            assert forall|i: int, j: int| 0 <= i < j < t1.len() implies t1[i] < t1[j] by {
                assert(t1[i] == t[i + 1] && t1[j] == t[j + 1]);
            }
        }
        lemma_strictly_sorted_unique(s1, t1);
        assert(s =~= seq![s[0]] + s1);
        assert(t =~= seq![t[0]] + t1);
    }
}

/// A strictly sorted sequence holds as many items as the set of its items.
pub proof fn lemma_strictly_sorted_len(s: Seq<usize>)
    requires
        strictly_sorted(s),
    ensures
        s.to_set().len() == s.len(),
{
    assert(s.no_duplicates()) by {
        assert forall|i: int, j: int| 0 <= i < s.len() && 0 <= j < s.len() && i != j implies s[i]
            != s[j] by {
            if i < j {
                assert(s[i] < s[j]);
            } else {
                assert(s[j] < s[i]);
            }
        }
    }
    s.unique_seq_to_set();
}

} // verus!
