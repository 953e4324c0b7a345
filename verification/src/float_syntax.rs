//! The syntax of floating-point numerals, as `str::parse::<f64>` accepts them.
//!
//! The documentation of `f64::from_str` gives the grammar, with letters
//! matched without regard to case and no white space allowed anywhere:
//!
//! ```text
//! Float  ::= Sign? ( 'inf' | 'infinity' | 'nan' | Number )
//! Number ::= ( Digit+ | Digit+ '.' Digit* | Digit* '.' Digit+ ) Exp?
//! Exp    ::= 'e' Sign? Digit+
//! Sign   ::= [+-]
//! Digit  ::= [0-9]
//! ```

use vstd::prelude::*;
use crate::text::{char_lowers_to, chars_equal_ignoring_case, equal_ignoring_case, lowers_to};

verus! {

/// Whether `c` is an ASCII digit.
pub open spec fn is_digit(c: char) -> bool {
    48 <= (c as u32) <= 57
}

/// Whether `c` is a sign, `+` or `-`.
pub open spec fn is_sign(c: char) -> bool {
    c == '+' || c == '-'
}

/// Whether every character of `s` is a digit.
pub open spec fn all_digits(s: Seq<char>) -> bool {
    forall|k: int| 0 <= k < s.len() ==> is_digit(#[trigger] s[k])
}

/// The position of the first `.` in `s` at or after `pos`, or the length of `s`.
pub open spec fn find_dot(s: Seq<char>, pos: int) -> int
    decreases s.len() - pos,
{
    if pos < 0 || pos >= s.len() {
        s.len() as int
    } else if s[pos] == '.' {
        pos
    } else {
        find_dot(s, pos + 1)
    }
}

/// The position of the first `e` or `E` in `s` at or after `pos`, or the length of `s`.
pub open spec fn find_exp(s: Seq<char>, pos: int) -> int
    decreases s.len() - pos,
{
    if pos < 0 || pos >= s.len() {
        s.len() as int
    } else if lowers_to(s[pos], 'e') {
        pos
    } else {
        find_exp(s, pos + 1)
    }
}

/// `Digit+ | Digit+ '.' Digit* | Digit* '.' Digit+`: digits with at most one
/// point, and at least one digit.
pub open spec fn is_mantissa(s: Seq<char>) -> bool {
    let d = find_dot(s, 0);
    if d >= s.len() {
        s.len() >= 1 && all_digits(s)
    } else {
        s.len() >= 2 && all_digits(s.take(d)) && all_digits(s.skip(d + 1))
    }
}

/// `'e' Sign? Digit+`.
pub open spec fn is_exponent(s: Seq<char>) -> bool {
    &&& s.len() >= 2
    &&& lowers_to(s[0], 'e')
    &&& if is_sign(s[1]) {
        s.len() >= 3 && all_digits(s.skip(2))
    } else {
        all_digits(s.skip(1))
    }
}

/// `Number`: a mantissa, followed by an exponent where it has an `e`.
pub open spec fn is_number(s: Seq<char>) -> bool {
    let e = find_exp(s, 0);
    is_mantissa(s.take(e)) && (e >= s.len() || is_exponent(s.skip(e)))
}

/// The characters of `inf`, `infinity` and `nan`.
pub open spec fn inf_word() -> Seq<char> {
    seq!['i', 'n', 'f']
}

pub open spec fn infinity_word() -> Seq<char> {
    seq!['i', 'n', 'f', 'i', 'n', 'i', 't', 'y']
}

pub open spec fn nan_word() -> Seq<char> {
    seq!['n', 'a', 'n']
}

/// Whether `s` is a floating-point numeral that `str::parse::<f64>` accepts.
pub open spec fn float_literal(s: Seq<char>) -> bool {
    let t = if s.len() > 0 && is_sign(s[0]) { s.drop_first() } else { s };
    ||| equal_ignoring_case(t, inf_word())
    ||| equal_ignoring_case(t, infinity_word())
    ||| equal_ignoring_case(t, nan_word())
    ||| is_number(t)
}

/// Whether `s[from..to]` holds only digits.
fn digits_between(s: &[char], from: usize, to: usize) -> (r: bool)
    requires
        from <= to <= s@.len(),
    ensures
        r == all_digits(s@.subrange(from as int, to as int)),
{
    let mut i = from;
    while i < to
        invariant
            from <= i <= to <= s@.len(),
            forall|k: int| from <= k < i ==> is_digit(#[trigger] s@[k]),
        decreases to - i,
    {
        let u = s[i] as u32;
        if !(48 <= u && u <= 57) {
            assert(s@.subrange(from as int, to as int)[i - from] == s@[i as int]);
            return false;
        }
        i = i + 1;
    }
    assert forall|k: int| 0 <= k < s@.subrange(from as int, to as int).len() implies is_digit(
        #[trigger] s@.subrange(from as int, to as int)[k],
    ) by {
        assert(s@.subrange(from as int, to as int)[k] == s@[from + k]);
    }
    true
}

/// Whether `s` is a floating-point numeral that `str::parse::<f64>` accepts.
pub fn is_float_literal(s: &[char]) -> (r: bool)
    ensures
        r == float_literal(s@),
{
    let start: usize = if s.len() > 0 && (s[0] == '+' || s[0] == '-') { 1 } else { 0 };
    let ghost t = if s@.len() > 0 && is_sign(s@[0]) { s@.drop_first() } else { s@ };
    assert(t =~= s@.skip(start as int));
    let mut rest: Vec<char> = Vec::new();
    let mut i = start;
    while i < s.len()
        invariant
            start <= i <= s@.len(),
            rest@ == s@.subrange(start as int, i as int),
        decreases s@.len() - i,
    {
        rest.push(s[i]);
        assert(rest@ =~= s@.subrange(start as int, i as int + 1));
        i = i + 1;
    }
    assert(rest@ =~= t);
    let inf = vec!['i', 'n', 'f'];
    let infinity = vec!['i', 'n', 'f', 'i', 'n', 'i', 't', 'y'];
    let nan = vec!['n', 'a', 'n'];
    assert(inf@ =~= inf_word());
    assert(infinity@ =~= infinity_word());
    assert(nan@ =~= nan_word());
    if chars_equal_ignoring_case(rest.as_slice(), inf.as_slice())
        || chars_equal_ignoring_case(rest.as_slice(), infinity.as_slice())
        || chars_equal_ignoring_case(rest.as_slice(), nan.as_slice()) {
        return true;
    }
    is_number_text(rest.as_slice())
}

/// Whether `s` is a `Number` of the grammar.
fn is_number_text(s: &[char]) -> (r: bool)
    ensures
        r == is_number(s@),
{
    let mut e: usize = 0;
    while e < s.len() && !char_lowers_to(s[e], 'e')
        invariant
            e <= s@.len(),
            find_exp(s@, 0) == find_exp(s@, e as int),
        decreases s@.len() - e,
    {
        e = e + 1;
    }
    assert(find_exp(s@, e as int) == e as int);
    let mut d: usize = 0;
    while d < e && s[d] != '.'
        invariant
            d <= e <= s@.len(),
            forall|k: int| 0 <= k < d ==> s@[k] != '.',
        decreases e - d,
    {
        d = d + 1;
    }
    let ghost m = s@.take(e as int);
    proof {
        lemma_find_dot(m, d as int);
    }
    let mantissa_ok = if d >= e {
        assert(m.subrange(0, e as int) =~= m);
        e >= 1 && digits_between(s, 0, e)
    } else {
        assert(m.take(d as int) =~= s@.subrange(0, d as int));
        assert(m.skip(d as int + 1) =~= s@.subrange(d as int + 1, e as int));
        e >= 2 && digits_between(s, 0, d) && digits_between(s, d + 1, e)
    };
    assert(m =~= s@.subrange(0, e as int));
    if !mantissa_ok {
        return false;
    }
    if e >= s.len() {
        return true;
    }
    let ghost x = s@.skip(e as int);
    if s.len() - e < 2 {
        return false;
    }
    assert(x[0] == s@[e as int] && x[1] == s@[e + 1]);
    if s[e + 1] == '+' || s[e + 1] == '-' {
        assert(x.skip(2) =~= s@.subrange(e + 2, s@.len() as int));
        s.len() - e >= 3 && digits_between(s, e + 2, s.len())
    } else {
        assert(x.skip(1) =~= s@.subrange(e + 1, s@.len() as int));
        digits_between(s, e + 1, s.len())
    }
}

/// The first point of `m` is at `d` where no point comes before `d` and `d`
/// holds one or is the end.
proof fn lemma_find_dot(m: Seq<char>, d: int)
    requires
        0 <= d <= m.len(),
        forall|k: int| 0 <= k < d ==> m[k] != '.',
        d < m.len() ==> m[d] == '.',
    ensures
        find_dot(m, 0) == d,
{
    lemma_find_dot_from(m, 0, d);
}

proof fn lemma_find_dot_from(m: Seq<char>, pos: int, d: int)
    requires
        0 <= pos <= d <= m.len(),
        forall|k: int| pos <= k < d ==> m[k] != '.',
        d < m.len() ==> m[d] == '.',
    ensures
        find_dot(m, pos) == d,
    decreases d - pos,
{
    if pos < d {
        lemma_find_dot_from(m, pos + 1, d);
    }
}

/// No character of `s` from `pos` on is `e` or `E`, up to the first one at `e`.
proof fn lemma_find_exp_from(s: Seq<char>, pos: int, e: int)
    requires
        0 <= pos <= e <= s.len(),
        forall|k: int| pos <= k < e ==> !lowers_to(#[trigger] s[k], 'e'),
        e < s.len() ==> lowers_to(s[e], 'e'),
    ensures
        find_exp(s, pos) == e,
    decreases e - pos,
{
    if pos < e {
        lemma_find_exp_from(s, pos + 1, e);
    }
}

/// An optional sign: nothing, `+` or `-`.
pub open spec fn optional_sign(sign: Seq<char>) -> bool {
    sign.len() == 0 || (sign.len() == 1 && is_sign(sign[0]))
}

/// The mantissa `a '.' b`, made of digits and one point, is read as such.
proof fn lemma_point_mantissa(a: Seq<char>, b: Seq<char>)
    requires
        all_digits(a),
        all_digits(b),
        a.len() + b.len() >= 1,
    ensures
        is_mantissa(a + seq!['.'] + b),
        forall|k: int| 0 <= k < (a + seq!['.'] + b).len() ==> !lowers_to(#[trigger] (a + seq!['.'] + b)[k], 'e'),
        !is_sign((a + seq!['.'] + b)[0]),
{
    let m = a + seq!['.'] + b;
    assert forall|k: int| 0 <= k < a.len() implies #[trigger] m[k] != '.' by {
        assert(m[k] == a[k] && is_digit(a[k]));
    }
    lemma_find_dot(m, a.len() as int);
    assert(m.take(a.len() as int) =~= a);
    assert(m.skip(a.len() as int + 1) =~= b);
    assert forall|k: int| 0 <= k < m.len() implies !lowers_to(#[trigger] m[k], 'e') by {
        if k < a.len() {
            assert(m[k] == a[k] && is_digit(a[k]));
        } else if k > a.len() {
            assert(m[k] == b[k - a.len() - 1] && is_digit(b[k - a.len() - 1]));
        }
    }
    if a.len() > 0 {
        assert(m[0] == a[0] && is_digit(a[0]));
    }
}

/// A signed or unsigned numeral with a point, `Digit* '.' Digit*` with at
/// least one digit, is accepted, whatever the number of digits on either side.
pub proof fn law_float_literal_point_numeral(sign: Seq<char>, a: Seq<char>, b: Seq<char>)
    requires
        optional_sign(sign),
        all_digits(a),
        all_digits(b),
        a.len() + b.len() >= 1,
    ensures
        float_literal(sign + a + seq!['.'] + b),
{
    let m = a + seq!['.'] + b;
    let s = sign + a + seq!['.'] + b;
    lemma_point_mantissa(a, b);
    lemma_find_exp_from(m, 0, m.len() as int);
    assert(m.take(m.len() as int) =~= m);
    assert(is_number(m));
    if sign.len() == 1 {
        assert(s.drop_first() =~= m);
    } else {
        assert(s =~= m);
    }
}

/// A signed or unsigned run of one or more digits is accepted.
pub proof fn law_float_literal_integer(sign: Seq<char>, a: Seq<char>)
    requires
        optional_sign(sign),
        all_digits(a),
        a.len() >= 1,
    ensures
        float_literal(sign + a),
{
    let s = sign + a;
    assert forall|k: int| 0 <= k < a.len() implies !lowers_to(#[trigger] a[k], 'e') && a[k] != '.' by {
        assert(is_digit(a[k]));
    }
    lemma_find_exp_from(a, 0, a.len() as int);
    lemma_find_dot(a, a.len() as int);
    assert(a.take(a.len() as int) =~= a);
    assert(is_number(a));
    assert(is_digit(a[0]));
    if sign.len() == 1 {
        assert(s.drop_first() =~= a);
    } else {
        assert(s =~= a);
    }
}

/// A numeral with a point and an exponent, `a '.' b` then `e` or `E`, an
/// optional sign and one or more digits, is accepted.
pub proof fn law_float_literal_exponent(sign: Seq<char>, a: Seq<char>, b: Seq<char>, x: char, exp_sign: Seq<char>, c: Seq<char>)
    requires
        optional_sign(sign),
        all_digits(a),
        all_digits(b),
        a.len() + b.len() >= 1,
        lowers_to(x, 'e'),
        optional_sign(exp_sign),
        all_digits(c),
        c.len() >= 1,
    ensures
        float_literal(sign + a + seq!['.'] + b + seq![x] + exp_sign + c),
{
    let m = a + seq!['.'] + b;
    let t = m + seq![x] + exp_sign + c;
    let s = sign + a + seq!['.'] + b + seq![x] + exp_sign + c;
    lemma_point_mantissa(a, b);
    assert forall|k: int| 0 <= k < m.len() implies !lowers_to(#[trigger] t[k], 'e') by {
        assert(t[k] == m[k]);
    }
    assert(t[m.len() as int] == x);
    lemma_find_exp_from(t, 0, m.len() as int);
    assert(t.take(m.len() as int) =~= m);
    let x_part = t.skip(m.len() as int);
    assert(x_part =~= seq![x] + exp_sign + c);
    if exp_sign.len() == 1 {
        assert(x_part.skip(2) =~= c);
    } else {
        assert(x_part.skip(1) =~= c);
        assert(is_digit(c[0]));
        assert(x_part[1] == c[0]);
    }
    assert(is_exponent(x_part));
    assert(is_number(t));
    assert(t[0] == m[0]);
    if sign.len() == 1 {
        assert(s.drop_first() =~= t);
    } else {
        assert(s =~= t);
    }
}

/// Digits with two points are no numeral.
pub proof fn law_float_literal_rejects_two_points(a: Seq<char>, b: Seq<char>, c: Seq<char>)
    requires
        all_digits(a),
        all_digits(b),
        all_digits(c),
    ensures
        !float_literal(a + seq!['.'] + b + seq!['.'] + c),
{
    let s = a + seq!['.'] + b + seq!['.'] + c;
    let m = a + seq!['.'] + b;
    assert forall|k: int| 0 <= k < a.len() implies #[trigger] s[k] != '.' by {
        assert(s[k] == a[k] && is_digit(a[k]));
    }
    assert forall|k: int| 0 <= k < s.len() implies !lowers_to(#[trigger] s[k], 'e') by {
        if k < a.len() {
            assert(s[k] == a[k] && is_digit(a[k]));
        } else if a.len() < k < m.len() {
            assert(s[k] == b[k - a.len() - 1] && is_digit(b[k - a.len() - 1]));
        } else if k > m.len() {
            assert(s[k] == c[k - m.len() - 1] && is_digit(c[k - m.len() - 1]));
        }
    }
    lemma_find_exp_from(s, 0, s.len() as int);
    assert(s.take(s.len() as int) =~= s);
    lemma_find_dot(s, a.len() as int);
    let rest = s.skip(a.len() as int + 1);
    assert(rest[b.len() as int] == '.');
    assert(!is_digit(rest[b.len() as int]));
    assert(!is_number(s));
    let first = s[0];
    if a.len() > 0 {
        assert(first == a[0] && is_digit(a[0]));
    } else {
        assert(first == '.');
    }
    assert(!is_sign(first));
    assert(!lowers_to(first, 'i') && !lowers_to(first, 'n'));
    assert(!equal_ignoring_case(s, inf_word()));
    assert(!equal_ignoring_case(s, infinity_word()));
    assert(!equal_ignoring_case(s, nan_word()));
}

} // verus!
