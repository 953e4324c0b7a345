//! Deduplicating and sorted filtering for sequences of string slices.
//!
//! The generic iterators state their results over the specifications that
//! vstd gives to `PartialEq` and `Ord`, which `str` lacks. Here the strings
//! are compared by their characters: two strings are equal when they hold the
//! same characters, and they are ordered lexicographically by code point,
//! which is the order of `str` (lexicographic by UTF-8 bytes).

use vstd::prelude::*;
use vstd::string::StrSliceExecFns;
use crate::order::Rank;

verus! {

/// The lexicographic comparison of `a` with `b`, character by character by
/// code point; a proper prefix comes first.
pub open spec fn text_rank(a: Seq<char>, b: Seq<char>) -> Rank
    decreases a.len(),
{
    if a.len() == 0 {
        if b.len() == 0 {
            Rank::Equal
        } else {
            Rank::Less
        }
    } else if b.len() == 0 {
        Rank::Greater
    } else if (a[0] as u32) < (b[0] as u32) {
        Rank::Less
    } else if (a[0] as u32) > (b[0] as u32) {
        Rank::Greater
    } else {
        text_rank(a.drop_first(), b.drop_first())
    }
}

/// Whether `a` and `b` hold the same characters.
pub fn same_text(a: &str, b: &str) -> (r: bool)
    ensures
        r == (a@ == b@),
{
    let n = a.unicode_len();
    if n != b.unicode_len() {
        return false;
    }
    let mut i: usize = 0;
    while i < n
        invariant
            i <= n,
            n == a@.len(),
            n == b@.len(),
            forall|k: int| 0 <= k < i ==> a@[k] == b@[k],
        decreases n - i,
    {
        if a.get_char(i) != b.get_char(i) {
            return false;
        }
        i = i + 1;
    }
    assert(a@ =~= b@);
    true
}

/// Compares `a` with `b` lexicographically by code point.
pub fn compare_texts(a: &str, b: &str) -> (r: Rank)
    ensures
        r == text_rank(a@, b@),
{
    let n = a.unicode_len();
    let m = b.unicode_len();
    let mut i: usize = 0;
    assert(a@.skip(0) =~= a@ && b@.skip(0) =~= b@);
    while i < n && i < m
        invariant
            i <= n,
            i <= m,
            n == a@.len(),
            m == b@.len(),
            text_rank(a@, b@) == text_rank(a@.skip(i as int), b@.skip(i as int)),
        decreases n - i,
    {
        let c = a.get_char(i);
        let d = b.get_char(i);
        assert(a@.skip(i as int)[0] == c && b@.skip(i as int)[0] == d);
        assert(a@.skip(i as int).drop_first() =~= a@.skip(i as int + 1));
        assert(b@.skip(i as int).drop_first() =~= b@.skip(i as int + 1));
        if (c as u32) < (d as u32) {
            return Rank::Less;
        }
        if (c as u32) > (d as u32) {
            return Rank::Greater;
        }
        i = i + 1;
    }
    if i == n && i == m {
        assert(a@.skip(i as int) =~= Seq::<char>::empty());
        assert(b@.skip(i as int) =~= Seq::<char>::empty());
        Rank::Equal
    } else if i == n {
        assert(a@.skip(i as int) =~= Seq::<char>::empty());
        Rank::Less
    } else {
        assert(b@.skip(i as int) =~= Seq::<char>::empty());
        Rank::Greater
    }
}

/// What remains of `rest` behind `head` once every string with the same
/// characters as the head of its group is dropped.
pub open spec fn dedup_texts_from<'a>(head: &'a str, rest: Seq<&'a str>) -> Seq<&'a str>
    decreases rest.len(),
{
    if rest.len() == 0 {
        seq![head]
    } else if head@ == rest[0]@ {
        dedup_texts_from(head, rest.drop_first())
    } else {
        seq![head] + dedup_texts_from(rest[0], rest.drop_first())
    }
}

/// The first string of each group of consecutive strings with the same characters.
pub open spec fn dedup_texts_seq<'a>(s: Seq<&'a str>) -> Seq<&'a str> {
    if s.len() == 0 {
        Seq::empty()
    } else {
        dedup_texts_from(s[0], s.drop_first())
    }
}

/// The first string of each group of consecutive equal strings of `items`.
pub fn dedup_texts<'a>(items: &[&'a str]) -> (r: Vec<&'a str>)
    ensures
        r@ == dedup_texts_seq(items@),
{
    let mut out: Vec<&'a str> = Vec::new();
    if items.len() == 0 {
        return out;
    }
    let mut head: &'a str = items[0];
    let mut i: usize = 1;
    assert(items@.skip(1) =~= items@.drop_first());
    while i < items.len()
        invariant
            1 <= i <= items@.len(),
            dedup_texts_seq(items@) == out@ + dedup_texts_from(head, items@.skip(i as int)),
        decreases items@.len() - i,
    {
        let item = items[i];
        let ghost rest = items@.skip(i as int);
        assert(rest[0] == item);
        assert(rest.drop_first() =~= items@.skip(i as int + 1));
        if !same_text(head, item) {
            let ghost before = out@;
            out.push(head);
            assert(before + (seq![head] + dedup_texts_from(item, rest.drop_first())) =~= out@
                + dedup_texts_from(item, rest.drop_first()));
            head = item;
        }
        i = i + 1;
    }
    assert(items@.skip(i as int) =~= Seq::<&'a str>::empty());
    out.push(head);
    out
}

/// The strings of `left` that the sorted filter keeps against `right`, with
/// strings compared by [`text_rank`]: a smaller left head is kept, a greater
/// one makes the right side advance, and an equal one is dropped while the
/// right head stays.
pub open spec fn sorted_filter_texts_seq<'a>(left: Seq<&'a str>, right: Seq<&'a str>) -> Seq<&'a str>
    decreases left.len() + right.len(),
{
    if left.len() == 0 {
        Seq::empty()
    } else if right.len() == 0 {
        left
    } else {
        match text_rank(left[0]@, right[0]@) {
            Rank::Less => seq![left[0]] + sorted_filter_texts_seq(left.drop_first(), right),
            Rank::Greater => sorted_filter_texts_seq(left, right.drop_first()),
            Rank::Equal => sorted_filter_texts_seq(left.drop_first(), right),
        }
    }
}

/// The strings of the sorted sequence `left` that the sorted sequence `right`
/// does not hold.
pub fn sorted_filter_texts<'a>(left: &[&'a str], right: &[&'a str]) -> (r: Vec<&'a str>)
    ensures
        r@ == sorted_filter_texts_seq(left@, right@),
{
    let mut out: Vec<&'a str> = Vec::new();
    let mut i: usize = 0;
    let mut j: usize = 0;
    assert(left@.skip(0) =~= left@);
    assert(right@.skip(0) =~= right@);
    while i < left.len()
        invariant
            i <= left@.len(),
            j <= right@.len(),
            sorted_filter_texts_seq(left@, right@) == out@ + sorted_filter_texts_seq(
                left@.skip(i as int),
                right@.skip(j as int),
            ),
        decreases (left@.len() - i) + (right@.len() - j),
    {
        let ghost l = left@.skip(i as int);
        let ghost r = right@.skip(j as int);
        let item = left[i];
        assert(l[0] == item);
        assert(l.drop_first() =~= left@.skip(i as int + 1));
        if j >= right.len() {
            assert(r.len() == 0);
            assert(l =~= seq![item] + l.drop_first());
            let ghost before = out@;
            out.push(item);
            assert(before + l =~= out@ + l.drop_first());
            assert(l.drop_first() == sorted_filter_texts_seq(l.drop_first(), r));
            i = i + 1;
        } else {
            assert(r[0] == right[j as int]);
            assert(r.drop_first() =~= right@.skip(j as int + 1));
            match compare_texts(item, right[j]) {
                Rank::Less => {
                    let ghost before = out@;
                    out.push(item);
                    assert(before + (seq![item] + sorted_filter_texts_seq(l.drop_first(), r)) =~= out@
                        + sorted_filter_texts_seq(l.drop_first(), r));
                    i = i + 1;
                },
                Rank::Greater => {
                    j = j + 1;
                },
                Rank::Equal => {
                    i = i + 1;
                },
            }
        }
    }
    assert(left@.skip(i as int) =~= Seq::<&'a str>::empty());
    assert(out@ + Seq::<&'a str>::empty() =~= out@);
    out
}

/// Whether no string of `s` has the same characters as the string right after it.
pub open spec fn texts_without_equal_neighbours<'a>(s: Seq<&'a str>) -> bool {
    forall|i: int| 0 <= i < s.len() - 1 ==> (#[trigger] s[i])@ != s[i + 1]@
}

/// A group's output starts with its head, holds only the head and strings of
/// `rest`, and has no two neighbours with the same characters.
proof fn lemma_dedup_texts_from_shape<'a>(head: &'a str, rest: Seq<&'a str>)
    ensures
        dedup_texts_from(head, rest).len() > 0,
        dedup_texts_from(head, rest)[0] == head,
        texts_without_equal_neighbours(dedup_texts_from(head, rest)),
        forall|k: int| 0 <= k < dedup_texts_from(head, rest).len() ==> #[trigger] dedup_texts_from(head, rest)[k]
            == head || rest.contains(dedup_texts_from(head, rest)[k]),
    decreases rest.len(),
{
    let d = dedup_texts_from(head, rest);
    if rest.len() == 0 {
    } else if head@ == rest[0]@ {
        lemma_dedup_texts_from_shape(head, rest.drop_first());
        assert forall|k: int| 0 <= k < d.len() implies #[trigger] d[k] == head || rest.contains(d[k]) by {
            if d[k] != head {
                let j = choose|j: int| 0 <= j < rest.drop_first().len() && rest.drop_first()[j] == d[k];
                assert(rest[j + 1] == d[k]);
            }
        }
    } else {
        let t = dedup_texts_from(rest[0], rest.drop_first());
        lemma_dedup_texts_from_shape(rest[0], rest.drop_first());
        assert(d == seq![head] + t);
        assert forall|i: int| 0 <= i < d.len() - 1 implies (#[trigger] d[i])@ != d[i + 1]@ by {
            if i > 0 {
                assert(d[i] == t[i - 1] && d[i + 1] == t[i]);
            }
        }
        assert forall|k: int| 0 <= k < d.len() implies #[trigger] d[k] == head || rest.contains(d[k]) by {
            if k > 0 {
                assert(d[k] == t[k - 1]);
                if t[k - 1] == rest[0] {
                    assert(rest[0] == d[k]);
                } else {
                    let j = choose|j: int| 0 <= j < rest.drop_first().len() && rest.drop_first()[j] == t[k - 1];
                    assert(rest[j + 1] == d[k]);
                }
            }
        }
    }
}

/// Deduplicating leaves no two neighbours with the same characters.
pub proof fn law_dedup_texts_no_equal_neighbours<'a>(s: Seq<&'a str>)
    ensures
        texts_without_equal_neighbours(dedup_texts_seq(s)),
{
    if s.len() > 0 {
        lemma_dedup_texts_from_shape(s[0], s.drop_first());
    }
}

/// Deduplicating keeps the first string, is empty exactly for the empty
/// sequence, and yields only strings of the sequence.
pub proof fn law_dedup_texts_keeps_items<'a>(s: Seq<&'a str>)
    ensures
        dedup_texts_seq(s).len() == 0 <==> s.len() == 0,
        s.len() > 0 ==> dedup_texts_seq(s)[0] == s[0],
        forall|k: int| 0 <= k < dedup_texts_seq(s).len() ==> s.contains(#[trigger] dedup_texts_seq(s)[k]),
{
    if s.len() > 0 {
        lemma_dedup_texts_from_shape(s[0], s.drop_first());
        let d = dedup_texts_seq(s);
        assert forall|k: int| 0 <= k < d.len() implies s.contains(#[trigger] d[k]) by {
            if d[k] == s[0] {
                assert(s[0] == d[k]);
            } else {
                let j = choose|j: int| 0 <= j < s.drop_first().len() && s.drop_first()[j] == d[k];
                assert(s[j + 1] == d[k]);
            }
        }
    }
}

/// A sequence without equal neighbours is its own deduplication.
proof fn lemma_dedup_texts_from_distinct<'a>(head: &'a str, rest: Seq<&'a str>)
    requires
        texts_without_equal_neighbours(seq![head] + rest),
    ensures
        dedup_texts_from(head, rest) == seq![head] + rest,
    decreases rest.len(),
{
    let s = seq![head] + rest;
    if rest.len() > 0 {
        assert(s[0] == head && s[1] == rest[0]);
        let t = seq![rest[0]] + rest.drop_first();
        assert(t =~= rest);
        assert forall|i: int| 0 <= i < t.len() - 1 implies (#[trigger] t[i])@ != t[i + 1]@ by {
            assert(t[i] == s[i + 1] && t[i + 1] == s[i + 2]);
        }
        lemma_dedup_texts_from_distinct(rest[0], rest.drop_first());
        assert(dedup_texts_from(head, rest) =~= seq![head] + rest);
    } else {
        assert(dedup_texts_from(head, rest) =~= seq![head] + rest);
    }
}

/// Deduplicating twice changes nothing beyond deduplicating once.
pub proof fn law_dedup_texts_idempotent<'a>(s: Seq<&'a str>)
    ensures
        dedup_texts_seq(dedup_texts_seq(s)) == dedup_texts_seq(s),
{
    let d = dedup_texts_seq(s);
    law_dedup_texts_no_equal_neighbours(s);
    if d.len() > 0 {
        assert(d =~= seq![d[0]] + d.drop_first());
        lemma_dedup_texts_from_distinct(d[0], d.drop_first());
    }
}

/// Distinct characters have distinct code points.
proof fn lemma_code_point_injective(c: char, d: char)
    ensures
        (c as u32) == (d as u32) ==> c == d,
{
}

/// The comparison is `Equal` exactly for equal character sequences, and
/// `Less` one way exactly when `Greater` the other way.
pub proof fn lemma_text_rank_basics(a: Seq<char>, b: Seq<char>)
    ensures
        text_rank(a, b) == Rank::Equal <==> a == b,
        text_rank(a, b) == Rank::Less <==> text_rank(b, a) == Rank::Greater,
    decreases a.len(),
{
    if a.len() > 0 && b.len() > 0 {
        lemma_text_rank_basics(a.drop_first(), b.drop_first());
        assert(a =~= seq![a[0]] + a.drop_first());
        assert(b =~= seq![b[0]] + b.drop_first());
        if a == b {
            assert(a.drop_first() == b.drop_first());
        }
        if text_rank(a, b) == Rank::Equal {
            assert((a[0] as u32) == (b[0] as u32));
            lemma_code_point_injective(a[0], b[0]);
            assert(a =~= b);
        }
    } else if a.len() == 0 && b.len() == 0 {
        assert(a =~= b);
    }
}

/// The comparison is transitive: `<=` chains give `<=`, and a chain of `<=`
/// with one `<` in it gives `<`.
pub proof fn lemma_text_rank_trans(a: Seq<char>, b: Seq<char>, c: Seq<char>)
    ensures
        text_rank(a, b) != Rank::Greater && text_rank(b, c) != Rank::Greater ==> text_rank(a, c) != Rank::Greater,
        text_rank(a, b) == Rank::Less && text_rank(b, c) != Rank::Greater ==> text_rank(a, c) == Rank::Less,
        text_rank(a, b) != Rank::Greater && text_rank(b, c) == Rank::Less ==> text_rank(a, c) == Rank::Less,
    decreases a.len(),
{
    if a.len() > 0 && b.len() > 0 && c.len() > 0 {
        lemma_text_rank_trans(a.drop_first(), b.drop_first(), c.drop_first());
    }
}

/// Whether `s` is sorted by characters: no string is greater than a later one.
pub open spec fn sorted_texts<'a>(s: Seq<&'a str>) -> bool {
    forall|i: int, j: int| 0 <= i < j < s.len() ==> text_rank((#[trigger] s[i])@, (#[trigger] s[j])@) != Rank::Greater
}

/// Whether no string of `r` has the characters of `x`.
pub open spec fn text_missing_from<'a>(x: &'a str, r: Seq<&'a str>) -> bool {
    forall|k: int| 0 <= k < r.len() ==> (#[trigger] r[k])@ != x@
}

/// The strings of `l` whose characters no string of `r` holds, in the order
/// of `l`, repetitions kept.
pub open spec fn texts_missing<'a>(l: Seq<&'a str>, r: Seq<&'a str>) -> Seq<&'a str>
    decreases l.len(),
{
    if l.len() == 0 {
        Seq::empty()
    } else if text_missing_from(l[0], r) {
        seq![l[0]] + texts_missing(l.drop_first(), r)
    } else {
        texts_missing(l.drop_first(), r)
    }
}

/// Against an empty side, every string is missing.
proof fn lemma_texts_missing_from_empty<'a>(l: Seq<&'a str>, r: Seq<&'a str>)
    requires
        r.len() == 0,
    ensures
        texts_missing(l, r) == l,
    decreases l.len(),
{
    if l.len() > 0 {
        lemma_texts_missing_from_empty(l.drop_first(), r);
        assert(l =~= seq![l[0]] + l.drop_first());
    }
}

/// A string of `r` whose characters no string of `l` holds does not change what `l` lacks.
proof fn lemma_texts_missing_drop_right<'a>(l: Seq<&'a str>, r: Seq<&'a str>)
    requires
        r.len() > 0,
        forall|i: int| 0 <= i < l.len() ==> (#[trigger] l[i])@ != r[0]@,
    ensures
        texts_missing(l, r) == texts_missing(l, r.drop_first()),
    decreases l.len(),
{
    if l.len() > 0 {
        let x = l[0];
        assert(text_missing_from(x, r) <==> text_missing_from(x, r.drop_first())) by {
            if text_missing_from(x, r.drop_first()) {
                assert forall|k: int| 0 <= k < r.len() implies (#[trigger] r[k])@ != x@ by {
                    if k > 0 {
                        assert(r[k] == r.drop_first()[k - 1]);
                    }
                }
            }
            if text_missing_from(x, r) {
                assert forall|k: int| 0 <= k < r.drop_first().len() implies (#[trigger] r.drop_first()[k])@ != x@ by {
                    assert(r.drop_first()[k] == r[k + 1]);
                }
            }
        }
        assert forall|i: int| 0 <= i < l.drop_first().len() implies (#[trigger] l.drop_first()[i])@ != r[0]@ by {
            assert(l.drop_first()[i] == l[i + 1]);
        }
        lemma_texts_missing_drop_right(l.drop_first(), r);
    }
}

/// A sorted sequence without its first string is sorted.
proof fn lemma_sorted_texts_rest<'a>(s: Seq<&'a str>)
    requires
        sorted_texts(s),
        s.len() > 0,
    ensures
        sorted_texts(s.drop_first()),
{
    assert forall|i: int, j: int| 0 <= i < j < s.drop_first().len() implies text_rank(
        (#[trigger] s.drop_first()[i])@,
        (#[trigger] s.drop_first()[j])@,
    ) != Rank::Greater by {
        assert(s.drop_first()[i] == s[i + 1] && s.drop_first()[j] == s[j + 1]);
    }
}

/// For sorted sides, the sorted filter keeps exactly the strings of the left
/// side whose characters no string of the right side holds, in order and
/// with their repetitions.
pub proof fn law_sorted_filter_texts_keeps_missing<'a>(l: Seq<&'a str>, r: Seq<&'a str>)
    requires
        sorted_texts(l),
        sorted_texts(r),
    ensures
        sorted_filter_texts_seq(l, r) == texts_missing(l, r),
    decreases l.len() + r.len(),
{
    if l.len() == 0 {
    } else if r.len() == 0 {
        lemma_texts_missing_from_empty(l, r);
    } else {
        let x = l[0];
        let y = r[0];
        lemma_text_rank_basics(x@, y@);
        match text_rank(x@, y@) {
            Rank::Less => {
                assert forall|k: int| 0 <= k < r.len() implies (#[trigger] r[k])@ != x@ by {
                    if k > 0 {
                        assert(text_rank(r[0]@, r[k]@) != Rank::Greater);
                    }
                    lemma_text_rank_trans(x@, y@, r[k]@);
                    lemma_text_rank_basics(x@, r[k]@);
                }
                lemma_sorted_texts_rest(l);
                law_sorted_filter_texts_keeps_missing(l.drop_first(), r);
            },
            Rank::Greater => {
                assert forall|i: int| 0 <= i < l.len() implies (#[trigger] l[i])@ != y@ by {
                    if i > 0 {
                        assert(text_rank(l[0]@, l[i]@) != Rank::Greater);
                    }
                    lemma_text_rank_basics(x@, x@);
                    lemma_text_rank_trans(y@, x@, l[i]@);
                    lemma_text_rank_basics(y@, l[i]@);
                }
                lemma_texts_missing_drop_right(l, r);
                lemma_sorted_texts_rest(r);
                law_sorted_filter_texts_keeps_missing(l, r.drop_first());
            },
            Rank::Equal => {
                assert(!text_missing_from(x, r)) by {
                    assert(r[0]@ == x@);
                }
                lemma_sorted_texts_rest(l);
                law_sorted_filter_texts_keeps_missing(l.drop_first(), r);
            },
        }
    }
}

/// Against an empty right side the sorted filter keeps every string.
pub proof fn law_sorted_filter_texts_empty_right<'a>(l: Seq<&'a str>)
    ensures
        sorted_filter_texts_seq(l, Seq::empty()) == l,
{
}

} // verus!
