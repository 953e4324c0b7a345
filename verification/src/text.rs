//! Decimal numerals and strings built from characters.

use vstd::prelude::*;
use vstd::string::StrSliceExecFns;

verus! {

/// The character of the decimal digit `d`.
pub open spec fn digit_char(d: nat) -> char {
    if d == 0 { '0' }
    else if d == 1 { '1' }
    else if d == 2 { '2' }
    else if d == 3 { '3' }
    else if d == 4 { '4' }
    else if d == 5 { '5' }
    else if d == 6 { '6' }
    else if d == 7 { '7' }
    else if d == 8 { '8' }
    else { '9' }
}

/// The decimal numeral of `n`, without leading zeros (`"0"` for zero).
pub open spec fn decimal(n: nat) -> Seq<char>
    decreases n,
{
    if n < 10 {
        seq![digit_char(n)]
    } else {
        decimal(n / 10).push(digit_char(n % 10))
    }
}

/// `s` preceded by as many `'0'` as it takes to reach `width` characters.
pub open spec fn zero_padded(s: Seq<char>, width: nat) -> Seq<char> {
    if s.len() >= width {
        s
    } else {
        Seq::new((width - s.len()) as nat, |i: int| '0') + s
    }
}

/// The character of the decimal digit `d`.
pub fn digit(d: usize) -> (r: char)
    requires
        d < 10,
    ensures
        r == digit_char(d as nat),
{
    if d == 0 { '0' }
    else if d == 1 { '1' }
    else if d == 2 { '2' }
    else if d == 3 { '3' }
    else if d == 4 { '4' }
    else if d == 5 { '5' }
    else if d == 6 { '6' }
    else if d == 7 { '7' }
    else if d == 8 { '8' }
    else { '9' }
}

/// Appends the decimal numeral of `n` to `out`.
pub fn push_decimal(out: &mut Vec<char>, n: usize)
    ensures
        final(out)@ == old(out)@ + decimal(n as nat),
    decreases n,
{
    if n >= 10 {
        push_decimal(out, n / 10);
    }
    out.push(digit(n % 10));
    assert(old(out)@ + decimal(n as nat) =~= final(out)@) by {
        if n >= 10 {
            assert(decimal(n as nat) == decimal((n / 10) as nat).push(digit_char((n % 10) as nat)));
        }
    }
}

/// Appends the characters of `text` to `out`.
pub fn push_text(out: &mut Vec<char>, text: &str)
    ensures
        final(out)@ == old(out)@ + text@,
{
    let n = text.unicode_len();
    let mut i: usize = 0;
    while i < n
        invariant
            i <= n,
            n == text@.len(),
            out@ == old(out)@ + text@.take(i as int),
        decreases n - i,
    {
        out.push(text.get_char(i));
        assert(text@.take(i as int + 1) =~= text@.take(i as int).push(text@[i as int]));
        i = i + 1;
    }
    assert(text@.take(n as int) =~= text@);
}

/// Appends `c` to `s` (`String::push`).
#[verifier::external_body]
pub(crate) fn push_char(s: &mut String, c: char)
    ensures
        final(s)@ == old(s)@.push(c),
{
    s.push(c);
}

/// The string of the characters `chars`.
pub fn string_of(chars: &[char]) -> (r: String)
    ensures
        r@ == chars@,
{
    let mut s = String::new();
    let mut i: usize = 0;
    while i < chars.len()
        invariant
            i <= chars@.len(),
            s@ == chars@.take(i as int),
        decreases chars@.len() - i,
    {
        push_char(&mut s, chars[i]);
        assert(chars@.take(i as int + 1) =~= chars@.take(i as int).push(chars@[i as int]));
        i = i + 1;
    }
    assert(chars@.take(chars@.len() as int) =~= chars@);
    s
}

/// Whether `c` is white space in the sense of `char::is_whitespace`: a
/// character with the Unicode `White_Space` property.
pub open spec fn is_whitespace(c: char) -> bool {
    let u = c as u32;
    ||| 0x09 <= u <= 0x0D
    ||| u == 0x20
    ||| u == 0x85
    ||| u == 0xA0
    ||| u == 0x1680
    ||| 0x2000 <= u <= 0x200A
    ||| u == 0x2028
    ||| u == 0x2029
    ||| u == 0x202F
    ||| u == 0x205F
    ||| u == 0x3000
}

/// Whether `c` is white space (`char::is_whitespace`).
pub fn char_is_whitespace(c: char) -> (r: bool)
    ensures
        r == is_whitespace(c),
{
    let u = c as u32;
    (0x09 <= u && u <= 0x0D) || u == 0x20 || u == 0x85 || u == 0xA0 || u == 0x1680 || (0x2000 <= u
        && u <= 0x200A) || u == 0x2028 || u == 0x2029 || u == 0x202F || u == 0x205F || u == 0x3000
}

/// `s` without its leading white space.
pub open spec fn trim_start(s: Seq<char>) -> Seq<char>
    decreases s.len(),
{
    if s.len() > 0 && is_whitespace(s[0]) {
        trim_start(s.drop_first())
    } else {
        s
    }
}

/// `s` without its trailing white space.
pub open spec fn trim_end(s: Seq<char>) -> Seq<char>
    decreases s.len(),
{
    if s.len() > 0 && is_whitespace(s.last()) {
        trim_end(s.drop_last())
    } else {
        s
    }
}

/// `s` without leading and trailing white space (`str::trim`).
pub open spec fn trim(s: Seq<char>) -> Seq<char> {
    trim_end(trim_start(s))
}

/// `s` without leading and trailing white space.
pub fn trimmed(s: &[char]) -> (r: Vec<char>)
    ensures
        r@ == trim(s@),
{
    let mut start: usize = 0;
    assert(s@.skip(0) =~= s@);
    while start < s.len() && char_is_whitespace(s[start])
        invariant
            start <= s@.len(),
            trim_start(s@) == trim_start(s@.skip(start as int)),
        decreases s@.len() - start,
    {
        assert(s@.skip(start as int).drop_first() =~= s@.skip(start as int + 1));
        start = start + 1;
    }
    let ghost head = s@.skip(start as int);
    assert(trim_start(s@) == head);
    let mut end: usize = s.len();
    while end > start && char_is_whitespace(s[end - 1])
        invariant
            start <= end <= s@.len(),
            trim_end(head) == trim_end(s@.subrange(start as int, end as int)),
        decreases end,
    {
        assert(s@.subrange(start as int, end as int).drop_last() =~= s@.subrange(start as int, end as int - 1));
        end = end - 1;
    }
    assert(head =~= s@.subrange(start as int, s@.len() as int));
    let mut out: Vec<char> = Vec::new();
    let mut i: usize = start;
    while i < end
        invariant
            start <= i <= end <= s@.len(),
            out@ == s@.subrange(start as int, i as int),
        decreases end - i,
    {
        out.push(s[i]);
        assert(out@ =~= s@.subrange(start as int, i as int + 1));
        i = i + 1;
    }
    out
}

/// The items of `s` from `from` to `to`, copied.
pub fn copy_range(s: &[char], from: usize, to: usize) -> (r: Vec<char>)
    requires
        from <= to <= s@.len(),
    ensures
        r@ == s@.subrange(from as int, to as int),
{
    let mut out: Vec<char> = Vec::new();
    let mut i: usize = from;
    while i < to
        invariant
            from <= i <= to <= s@.len(),
            out@ == s@.subrange(from as int, i as int),
        decreases to - i,
    {
        out.push(s[i]);
        assert(out@ =~= s@.subrange(from as int, i as int + 1));
        i = i + 1;
    }
    out
}

/// The position of the first `sep` in `s` at or after `pos`, or the length of `s`.
pub open spec fn find_from(s: Seq<char>, sep: char, pos: int) -> int
    decreases s.len() - pos,
{
    if pos >= s.len() {
        s.len() as int
    } else if s[pos] == sep {
        pos
    } else {
        find_from(s, sep, pos + 1)
    }
}

/// The pieces of `s` from `pos` on between the occurrences of `sep`.
pub open spec fn split_from(s: Seq<char>, sep: char, pos: int) -> Seq<Seq<char>>
    decreases s.len() - pos,
{
    let e = find_from(s, sep, pos);
    if pos > s.len() || e >= s.len() || e < pos {
        seq![s.subrange(pos, s.len() as int)]
    } else {
        seq![s.subrange(pos, e)] + split_from(s, sep, e + 1)
    }
}

/// The pieces of `s` between the occurrences of `sep` (`str::split` with a character).
pub open spec fn split_char(s: Seq<char>, sep: char) -> Seq<Seq<char>> {
    split_from(s, sep, 0)
}

/// The search for `sep` from `pos` finds it at or after `pos`, or reaches the end.
pub proof fn lemma_find_from(s: Seq<char>, sep: char, pos: int)
    requires
        0 <= pos <= s.len(),
    ensures
        pos <= find_from(s, sep, pos) <= s.len(),
        find_from(s, sep, pos) < s.len() ==> s[find_from(s, sep, pos)] == sep,
        forall|k: int| pos <= k < find_from(s, sep, pos) ==> s[k] != sep,
    decreases s.len() - pos,
{
    if pos < s.len() && s[pos] != sep {
        lemma_find_from(s, sep, pos + 1);
    }
}

/// Where no `sep` lies between `a` and `b`, the search from `a` ends where the one from `b` does.
pub proof fn lemma_find_skip(s: Seq<char>, sep: char, a: int, b: int)
    requires
        0 <= a <= b <= s.len(),
        forall|k: int| a <= k < b ==> s[k] != sep,
    ensures
        find_from(s, sep, a) == find_from(s, sep, b),
    decreases b - a,
{
    if a < b {
        lemma_find_skip(s, sep, a + 1, b);
    }
}

/// The pieces of `s` between the occurrences of `sep`, copied.
pub fn split_on(s: &[char], sep: char) -> (r: Vec<Vec<char>>)
    ensures
        r@.len() == split_char(s@, sep).len(),
        forall|k: int| 0 <= k < r@.len() ==> #[trigger] r@[k]@ == split_char(s@, sep)[k],
{
    let mut pieces: Vec<Vec<char>> = Vec::new();
    let mut start: usize = 0;
    let mut i: usize = 0;
    let ghost mut done: Seq<Seq<char>> = Seq::empty();
    while i < s.len()
        invariant
            start <= i <= s@.len(),
            forall|k: int| start <= k < i ==> s@[k] != sep,
            pieces@.len() == done.len(),
            forall|k: int| 0 <= k < pieces@.len() ==> #[trigger] pieces@[k]@ == done[k],
            done + split_from(s@, sep, start as int) == split_char(s@, sep),
        decreases s@.len() - i,
    {
        if s[i] == sep {
            proof {
                lemma_find_skip(s@, sep, start as int, i as int);
                lemma_find_from(s@, sep, start as int);
            }
            let piece = copy_range(s, start, i);
            proof {
                assert(split_from(s@, sep, start as int) == seq![s@.subrange(start as int, i as int)] + split_from(s@, sep, i as int + 1));
                done = done.push(piece@);
                assert(done + split_from(s@, sep, i as int + 1) =~= split_char(s@, sep));
            }
            pieces.push(piece);
            start = i + 1;
        }
        i = i + 1;
    }
    proof {
        lemma_find_skip(s@, sep, start as int, s@.len() as int);
    }
    let piece = copy_range(s, start, s.len());
    proof {
        assert(split_from(s@, sep, start as int) == seq![s@.subrange(start as int, s@.len() as int)]);
        done = done.push(piece@);
        assert(done =~= split_char(s@, sep));
    }
    pieces.push(piece);
    pieces
}

/// The first position at or after `pos` that does not hold white space, or the length of `s`.
pub open spec fn skip_ws(s: Seq<char>, pos: int) -> int
    decreases s.len() - pos,
{
    if pos >= s.len() {
        s.len() as int
    } else if is_whitespace(s[pos]) {
        skip_ws(s, pos + 1)
    } else {
        pos
    }
}

/// The first position at or after `pos` that holds white space, or the length of `s`.
pub open spec fn word_end(s: Seq<char>, pos: int) -> int
    decreases s.len() - pos,
{
    if pos >= s.len() {
        s.len() as int
    } else if is_whitespace(s[pos]) {
        pos
    } else {
        word_end(s, pos + 1)
    }
}

/// The words of `s` from `pos` on: the maximal runs of characters that are not white space.
pub open spec fn words_from(s: Seq<char>, pos: int) -> Seq<Seq<char>>
    decreases s.len() - pos,
{
    let p = skip_ws(s, pos);
    let q = word_end(s, p);
    if pos < 0 || p >= s.len() || p < pos || q <= p || q > s.len() {
        Seq::empty()
    } else {
        seq![s.subrange(p, q)] + words_from(s, q)
    }
}

/// The words of `s` (`str::split_whitespace`).
pub open spec fn split_whitespace(s: Seq<char>) -> Seq<Seq<char>> {
    words_from(s, 0)
}

proof fn lemma_word_end(s: Seq<char>, pos: int)
    requires
        0 <= pos <= s.len(),
    ensures
        pos <= word_end(s, pos) <= s.len(),
        pos < s.len() && !is_whitespace(s[pos]) ==> pos < word_end(s, pos),
    decreases s.len() - pos,
{
    if pos < s.len() && !is_whitespace(s[pos]) {
        lemma_word_end(s, pos + 1);
    }
}

/// The words of `s`, copied.
pub fn words(s: &[char]) -> (r: Vec<Vec<char>>)
    ensures
        r@.len() == split_whitespace(s@).len(),
        forall|k: int| 0 <= k < r@.len() ==> #[trigger] r@[k]@ == split_whitespace(s@)[k],
{
    let mut out: Vec<Vec<char>> = Vec::new();
    let ghost mut done: Seq<Seq<char>> = Seq::empty();
    let mut pos: usize = 0;
    while pos < s.len()
        invariant
            pos <= s@.len(),
            out@.len() == done.len(),
            forall|k: int| 0 <= k < out@.len() ==> #[trigger] out@[k]@ == done[k],
            done + words_from(s@, pos as int) == split_whitespace(s@),
        decreases s@.len() - pos,
    {
        let mut p = pos;
        while p < s.len() && char_is_whitespace(s[p])
            invariant
                pos <= p <= s@.len(),
                skip_ws(s@, pos as int) == skip_ws(s@, p as int),
            decreases s@.len() - p,
        {
            p = p + 1;
        }
        if p >= s.len() {
            proof {
                assert(words_from(s@, pos as int) =~= Seq::<Seq<char>>::empty());
                assert(done + words_from(s@, p as int) =~= done);
                assert(words_from(s@, p as int) =~= Seq::<Seq<char>>::empty());
            }
            pos = p;
        } else {
            let mut q = p;
            while q < s.len() && !char_is_whitespace(s[q])
                invariant
                    p <= q <= s@.len(),
                    word_end(s@, p as int) == word_end(s@, q as int),
                decreases s@.len() - q,
            {
                q = q + 1;
            }
            proof {
                lemma_word_end(s@, p as int);
            }
            let word = copy_range(s, p, q);
            proof {
                assert(words_from(s@, pos as int) == seq![s@.subrange(p as int, q as int)] + words_from(s@, q as int));
                done = done.push(word@);
                assert(done + words_from(s@, q as int) =~= split_whitespace(s@));
            }
            out.push(word);
            pos = q;
        }
    }
    proof {
        assert(words_from(s@, pos as int) =~= Seq::<Seq<char>>::empty());
        assert(done =~= split_whitespace(s@));
    }
    out
}

/// Why a numeral does not denote a `usize`, as `str::parse::<usize>` reports it.
#[derive(Debug, PartialEq, Eq, Structural, Clone, Copy)]
pub enum IntError {
    /// The text is empty.
    Empty,
    /// The text holds a character that is not a digit where a digit belongs.
    InvalidDigit,
    /// The number is too large for a `usize`.
    PosOverflow,
}

/// The value of the digit character `c`, if it is one of `'0'..='9'`.
pub open spec fn digit_value(c: char) -> Option<nat> {
    let u = c as u32;
    if 0x30 <= u <= 0x39 { Some((u - 0x30) as nat) } else { None }
}

/// Reading the digits of `ds` after the value `acc`, from left to right: the
/// first character that is not a digit is an invalid digit, and the first step
/// whose value exceeds `usize::MAX` overflows.
pub open spec fn read_digits(ds: Seq<char>, acc: nat) -> Result<nat, IntError>
    decreases ds.len(),
{
    if ds.len() == 0 {
        Ok(acc)
    } else {
        match digit_value(ds[0]) {
            None => Err(IntError::InvalidDigit),
            Some(d) => {
                let a = acc * 10 + d;
                if a > usize::MAX {
                    Err(IntError::PosOverflow)
                } else {
                    read_digits(ds.drop_first(), a)
                }
            },
        }
    }
}

/// What `str::parse::<usize>` gives for `s`: empty text is an error, a single
/// leading `+` is allowed, and a lone sign is an invalid digit.
pub open spec fn parse_usize_spec(s: Seq<char>) -> Result<usize, IntError> {
    if s.len() == 0 {
        Err(IntError::Empty)
    } else if s.len() == 1 && (s[0] == '+' || s[0] == '-') {
        Err(IntError::InvalidDigit)
    } else {
        let ds = if s[0] == '+' { s.drop_first() } else { s };
        match read_digits(ds, 0) {
            Ok(v) => Ok(v as usize),
            Err(e) => Err(e),
        }
    }
}

/// Parses `s` as a `usize` (`str::parse::<usize>`).
pub fn parse_usize(s: &[char]) -> (r: Result<usize, IntError>)
    ensures
        r == parse_usize_spec(s@),
{
    if s.len() == 0 {
        return Err(IntError::Empty);
    }
    if s.len() == 1 && (s[0] == '+' || s[0] == '-') {
        return Err(IntError::InvalidDigit);
    }
    let start: usize = if s[0] == '+' { 1 } else { 0 };
    let ghost ds = if s@[0] == '+' { s@.drop_first() } else { s@ };
    assert(ds =~= s@.skip(start as int));
    assert(parse_usize_spec(s@) == match read_digits(ds, 0) {
        Ok(v) => Ok::<usize, IntError>(v as usize),
        Err(e) => Err(e),
    });
    let mut acc: usize = 0;
    let mut i: usize = start;
    while i < s.len()
        invariant
            start <= i <= s@.len(),
            read_digits(ds, 0) == read_digits(s@.skip(i as int), acc as nat),
            ds == s@.skip(start as int),
            parse_usize_spec(s@) == match read_digits(ds, 0) {
                Ok(v) => Ok::<usize, IntError>(v as usize),
                Err(e) => Err(e),
            },
        decreases s@.len() - i,
    {
        let u = s[i] as u32;
        assert(s@.skip(i as int)[0] == s@[i as int]);
        assert(s@.skip(i as int).drop_first() =~= s@.skip(i as int + 1));
        if u < 0x30 || u > 0x39 {
            return Err(IntError::InvalidDigit);
        }
        let d = (u - 0x30) as usize;
        if acc > (usize::MAX - d) / 10 {
            assert(acc * 10 + d > usize::MAX) by (nonlinear_arith)
                requires
                    acc > (usize::MAX - d) / 10,
                    d <= 9,
            ;
            return Err(IntError::PosOverflow);
        }
        assert(acc * 10 + d <= usize::MAX) by (nonlinear_arith)
            requires
                acc <= (usize::MAX - d) / 10,
                d <= 9,
        ;
        acc = acc * 10 + d;
        i = i + 1;
    }
    assert(s@.skip(i as int) =~= Seq::<char>::empty());
    Ok(acc)
}

/// The text of the line from `pos` up to `end`, the position of its newline or
/// the end of `s`; a `'\r'` right before a newline is not part of it.
pub open spec fn line_text(s: Seq<char>, pos: int, end: int) -> Seq<char> {
    let raw = s.subrange(pos, end);
    if end < s.len() && raw.len() > 0 && raw.last() == '\r' {
        raw.drop_last()
    } else {
        raw
    }
}

/// The lines of `s` from `pos` on, as `BufRead::lines` yields them, each with
/// its number (counting from `number`); lines that hold only white space are
/// left out.
pub open spec fn nonblank_lines_from(s: Seq<char>, pos: int, number: nat) -> Seq<(nat, Seq<char>)>
    decreases s.len() - pos,
{
    let end = find_from(s, '\n', pos);
    if pos < 0 || pos >= s.len() || end < pos || end > s.len() {
        Seq::empty()
    } else {
        let line = line_text(s, pos, end);
        let rest = if end < s.len() {
            nonblank_lines_from(s, end + 1, number + 1)
        } else {
            Seq::empty()
        };
        if trim(line).len() == 0 {
            rest
        } else {
            seq![(number, line)] + rest
        }
    }
}

/// The lines of `s` that hold more than white space, numbered from 1 among all lines.
pub open spec fn nonblank_lines(s: Seq<char>) -> Seq<(nat, Seq<char>)> {
    nonblank_lines_from(s, 0, 1)
}

/// The numbered lines `lines`, with their texts as character sequences.
pub open spec fn lines_view(lines: Seq<(usize, Vec<char>)>) -> Seq<(nat, Seq<char>)> {
    lines.map_values(|l: (usize, Vec<char>)| (l.0 as nat, l.1@))
}

/// The lines of `s` that hold more than white space, with their numbers.
pub fn numbered_nonblank_lines(s: &[char]) -> (r: Vec<(usize, Vec<char>)>)
    requires
        s@.len() < usize::MAX,
    ensures
        lines_view(r@) == nonblank_lines(s@),
        forall|k: int| 0 <= k < r@.len() ==> (#[trigger] r@[k]).0 <= s@.len(),
{
    let mut out: Vec<(usize, Vec<char>)> = Vec::new();
    let ghost mut done: Seq<(nat, Seq<char>)> = Seq::empty();
    let mut pos: usize = 0;
    let mut number: usize = 1;
    while pos < s.len()
        invariant
            s@.len() < usize::MAX,
            pos <= s@.len(),
            1 <= number <= pos + 1,
            out@.len() == done.len(),
            forall|k: int| 0 <= k < out@.len() ==> (#[trigger] out@[k]).0 == done[k].0 && out@[k].1@ == done[k].1,
            forall|k: int| 0 <= k < out@.len() ==> (#[trigger] out@[k]).0 <= s@.len(),
            done + nonblank_lines_from(s@, pos as int, number as nat) == nonblank_lines(s@),
        decreases s@.len() - pos,
    {
        let mut end = pos;
        while end < s.len() && s[end] != '\n'
            invariant
                pos <= end <= s@.len(),
                find_from(s@, '\n', pos as int) == find_from(s@, '\n', end as int),
            decreases s@.len() - end,
        {
            end = end + 1;
        }
        proof {
            lemma_find_from(s@, '\n', end as int);
        }
        let text_end = if end < s.len() && end > pos && s[end - 1] == '\r' { end - 1 } else { end };
        let line = copy_range(s, pos, text_end);
        proof {
            assert(line@ =~= line_text(s@, pos as int, end as int));
        }
        let blank = trimmed(line.as_slice()).len() == 0;
        let ghost rest = nonblank_lines_from(s@, end as int + 1, number as nat + 1);
        if !blank {
            proof {
                done = done.push((number as nat, line@));
                assert(done + rest =~= nonblank_lines(s@));
            }
            out.push((number, line));
        } else {
            proof {
                assert(done + rest =~= nonblank_lines(s@));
            }
        }
        if end >= s.len() {
            proof {
                assert(rest =~= Seq::<(nat, Seq<char>)>::empty());
                assert(done =~= nonblank_lines(s@));
                assert(lines_view(out@) =~= done);
            }
            return out;
        }
        pos = end + 1;
        number = number + 1;
    }
    proof {
        assert(nonblank_lines_from(s@, pos as int, number as nat) =~= Seq::<(nat, Seq<char>)>::empty());
        assert(done =~= nonblank_lines(s@));
        assert(lines_view(out@) =~= done);
    }
    out
}

/// The position of the first `c` in `s` at or after `from`, or the length of `s`.
pub fn find_char(s: &[char], c: char, from: usize) -> (r: usize)
    requires
        from <= s@.len(),
    ensures
        r == find_from(s@, c, from as int),
        from <= r <= s@.len(),
{
    let mut i = from;
    while i < s.len() && s[i] != c
        invariant
            from <= i <= s@.len(),
            find_from(s@, c, from as int) == find_from(s@, c, i as int),
        decreases s@.len() - i,
    {
        i = i + 1;
    }
    i
}

/// Whether `a` and `b` hold the same characters.
pub fn chars_equal(a: &[char], b: &[char]) -> (r: bool)
    ensures
        r == (a@ == b@),
{
    if a.len() != b.len() {
        return false;
    }
    let mut i: usize = 0;
    while i < a.len()
        invariant
            a@.len() == b@.len(),
            i <= a@.len(),
            forall|k: int| 0 <= k < i ==> a@[k] == b@[k],
        decreases a@.len() - i,
    {
        if a[i] != b[i] {
            return false;
        }
        i = i + 1;
    }
    assert(a@ =~= b@);
    true
}

/// Whether `c` is `l` or, where `l` is a lower-case ASCII letter, its upper-case form.
pub open spec fn lowers_to(c: char, l: char) -> bool {
    if 65 <= (c as u32) <= 90 {
        (c as u32) + 32 == (l as u32)
    } else {
        c == l
    }
}

/// Whether `c` is `l` up to ASCII case.
pub fn char_lowers_to(c: char, l: char) -> (r: bool)
    ensures
        r == lowers_to(c, l),
{
    let u = c as u32;
    if 65 <= u && u <= 90 {
        u + 32 == l as u32
    } else {
        c == l
    }
}

/// Whether `s` spells `w` up to ASCII case.
pub open spec fn equal_ignoring_case(s: Seq<char>, w: Seq<char>) -> bool {
    s.len() == w.len() && forall|k: int| 0 <= k < s.len() ==> lowers_to(#[trigger] s[k], w[k])
}

/// Whether `s` spells `w` up to ASCII case.
pub fn chars_equal_ignoring_case(s: &[char], w: &[char]) -> (r: bool)
    ensures
        r == equal_ignoring_case(s@, w@),
{
    if s.len() != w.len() {
        return false;
    }
    let mut i: usize = 0;
    while i < s.len()
        invariant
            s@.len() == w@.len(),
            i <= s@.len(),
            forall|k: int| 0 <= k < i ==> lowers_to(#[trigger] s@[k], w@[k]),
        decreases s@.len() - i,
    {
        if !char_lowers_to(s[i], w[i]) {
            return false;
        }
        i = i + 1;
    }
    true
}

} // verus!
