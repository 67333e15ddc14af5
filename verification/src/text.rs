//! Character-level helpers on strings: conversion between `String` and
//! character vectors, decimal rendering of integers, trimming.

use vstd::prelude::*;

verus! {

// ---------------------------------------------------------------------------
// Unicode character classes (std's `char` methods)
// ---------------------------------------------------------------------------

/// Whether `c` has the Unicode `White_Space` property (PropList.txt), which
/// `char::is_whitespace` reports: U+0009..U+000D, U+0020, U+0085, U+00A0,
/// U+1680, U+2000..U+200A, U+2028, U+2029, U+202F, U+205F and U+3000.
pub open spec fn unicode_white_space(c: char) -> bool {
    let n = c as int;
    ||| 0x09 <= n <= 0x0d
    ||| n == 0x20
    ||| n == 0x85
    ||| n == 0xa0
    ||| n == 0x1680
    ||| 0x2000 <= n <= 0x200a
    ||| n == 0x2028
    ||| n == 0x2029
    ||| n == 0x202f
    ||| n == 0x205f
    ||| n == 0x3000
}

/// ASCII digits and letters.
pub open spec fn ascii_alphanumeric(c: char) -> bool {
    ('0' <= c && c <= '9') || ('A' <= c && c <= 'Z') || ('a' <= c && c <= 'z')
}

/// Whether a character beyond ASCII is alphabetic or numeric in the sense of
/// Unicode (the `Alphabetic` property, or the categories Nd, Nl, No), as
/// `char::is_alphanumeric` reports it.
pub uninterp spec fn non_ascii_alphanumeric(c: char) -> bool;

/// Whether `c` is alphabetic or numeric in the sense of Unicode, as
/// `char::is_alphanumeric` reports it: among ASCII characters, exactly the
/// digits and the letters.
pub open spec fn unicode_alphanumeric(c: char) -> bool {
    if (c as int) < 0x80 {
        ascii_alphanumeric(c)
    } else {
        non_ascii_alphanumeric(c)
    }
}

/// `char::is_whitespace`: whether `c` has the Unicode `White_Space` property
/// (`unicode_white_space`, the table std consults).
#[verifier::external_body]
pub(crate) fn is_whitespace(c: char) -> (res: bool)
    ensures
        res == unicode_white_space(c),
{
    c.is_whitespace()
}

/// `char::is_alphanumeric`: among ASCII characters the result is true exactly
/// for digits and letters; beyond ASCII it is `non_ascii_alphanumeric(c)`, a
/// name for the Unicode table lookup that std performs.
#[verifier::external_body]
pub(crate) fn is_alphanumeric(c: char) -> (res: bool)
    ensures
        res == if (c as int) < 0x80 {
            ascii_alphanumeric(c)
        } else {
            non_ascii_alphanumeric(c)
        },
{
    c.is_alphanumeric()
}

/// Number of bytes of the UTF-8 encoding of `c` (the table of `char::len_utf8`).
pub open spec fn utf8_len(c: char) -> nat {
    if (c as int) < 0x80 {
        1
    } else if (c as int) < 0x800 {
        2
    } else if (c as int) < 0x10000 {
        3
    } else {
        4
    }
}

/// Number of bytes of the UTF-8 encoding of `c`.
pub fn char_utf8_len(c: char) -> (n: usize)
    ensures
        n == utf8_len(c),
{
    let code = c as u32;
    if code < 0x80 {
        1
    } else if code < 0x800 {
        2
    } else if code < 0x10000 {
        3
    } else {
        4
    }
}

// ---------------------------------------------------------------------------
// Strings as character sequences
// ---------------------------------------------------------------------------

/// Appends one character to a string (`String::push`).
#[verifier::external_body]
pub(crate) fn push_char(s: &mut String, c: char)
    ensures
        final(s)@ == old(s)@.push(c),
{
    s.push(c);
}

/// The characters of a string, in order.
pub fn chars_of(s: &str) -> (res: Vec<char>)
    ensures
        res@ == s@,
{
    let mut res: Vec<char> = Vec::new();
    for c in it: s.chars()
        invariant
            it.seq() == s@,
            res@ == s@.take(it.index() as int),
    {
        res.push(c);
    }
    res
}

/// The string made of the characters of `v`, in order.
pub fn string_from_chars(v: &Vec<char>) -> (res: String)
    ensures
        res@ == v@,
{
    let mut res = String::new();
    let n = v.len();
    for i in 0..n
        invariant
            n == v@.len(),
            res@ == v@.take(i as int),
    {
        push_char(&mut res, v[i]);
        assert(v@.take(i + 1) == v@.take(i as int).push(v@[i as int]));
    }
    assert(v@.take(n as int) == v@);
    res
}

/// A copy of `s` as an owned string.
pub fn owned(s: &str) -> (res: String)
    ensures
        res@ == s@,
{
    s.to_owned()
}

/// `a` followed by `b`.
pub fn concat(a: &str, b: &str) -> (res: String)
    ensures
        res@ == a@ + b@,
{
    let mut res = a.to_owned();
    res.append(b);
    res
}

/// Whether two strings hold the same characters.
pub fn same_text(a: &str, b: &str) -> (res: bool)
    ensures
        res == (a@ == b@),
{
    let x = a.to_owned();
    let y = b.to_owned();
    x == y
}

// ---------------------------------------------------------------------------
// Decimal rendering
// ---------------------------------------------------------------------------

/// The ASCII digit for `d` (meaningful for `0 <= d < 10`).
pub open spec fn digit_char(d: nat) -> char {
    (d + 48) as char
}

/// Decimal notation of `n`, without sign or leading zeros ("0" for zero).
pub open spec fn decimal(n: nat) -> Seq<char>
    decreases n,
{
    if n < 10 {
        seq![digit_char(n)]
    } else {
        decimal(n / 10).push(digit_char(n % 10))
    }
}

/// The number that the decimal digits `s` denote.
pub open spec fn digits_value(s: Seq<char>) -> int
    decreases s.len(),
{
    if s.len() == 0 {
        0
    } else {
        digits_value(s.drop_last()) * 10 + ((s.last() as int) - 48)
    }
}

/// The decimal notation of `n` is made of digits '0'..'9', starts with a digit
/// other than '0' unless `n` is 0, and denotes `n`.
pub proof fn law_decimal_denotes(n: nat)
    ensures
        forall|i: int| 0 <= i < decimal(n).len() ==> '0' <= #[trigger] decimal(n)[i] <= '9',
        decimal(n).len() >= 1,
        n > 0 ==> decimal(n)[0] != '0',
        n == 0 ==> decimal(n) == seq!['0'],
        digits_value(decimal(n)) == n,
    decreases n,
{
    if n >= 10 {
        law_decimal_denotes(n / 10);
        let d = decimal(n);
        let p = decimal(n / 10);
        assert(d == p.push(digit_char(n % 10)));
        assert(d.drop_last() =~= p);
        assert forall|i: int| 0 <= i < d.len() implies '0' <= #[trigger] d[i] <= '9' by {
            if i < p.len() {
                assert(d[i] == p[i]);
            }
        }
        assert(d[0] == p[0]);
        assert(d.last() == digit_char(n % 10));
        assert((digit_char(n % 10) as int) == n % 10 + 48);
        assert(digits_value(d) == digits_value(p) * 10 + (n % 10));
        assert((n / 10) * 10 + n % 10 == n);
    } else {
        let d = decimal(n);
        assert(d.drop_last() =~= Seq::<char>::empty());
        assert(digits_value(Seq::<char>::empty()) == 0);
        assert((digit_char(n) as int) == n + 48);
    }
}

/// `s` left-padded with '0' up to `width` characters (unchanged when already as wide).
pub open spec fn zero_padded(s: Seq<char>, width: nat) -> Seq<char> {
    if s.len() >= width {
        s
    } else {
        Seq::new((width - s.len()) as nat, |i: int| '0') + s
    }
}

fn digit(d: u64) -> (c: char)
    requires
        d < 10,
    ensures
        c == digit_char(d as nat),
{
    let b: u8 = d as u8;
    (b + 48u8) as char
}

/// Decimal notation of `n` (what `n.to_string()` gives for an unsigned integer).
pub fn decimal_string(n: u64) -> (res: String)
    ensures
        res@ == decimal(n as nat),
{
    let mut digits: Vec<char> = Vec::new();
    let mut m: u64 = n;
    while m >= 10
        invariant
            decimal(n as nat) == decimal(m as nat) + digits@,
        decreases m,
    {
        let d = digit(m % 10);
        let ghost old_digits = digits@;
        digits.insert(0, d);
        assert(decimal(m as nat) == decimal((m / 10) as nat).push(d));
        assert(decimal(m as nat) + old_digits == decimal((m / 10) as nat) + digits@);
        m = m / 10;
    }
    let ghost old_digits = digits@;
    digits.insert(0, digit(m));
    assert(decimal(m as nat) + old_digits == digits@);
    string_from_chars(&digits)
}

/// Decimal notation of `n`, left-padded with zeros to `width` characters
/// (what `format!("{:0width$}", n)` gives for an unsigned integer).
pub fn padded_decimal(n: u64, width: usize) -> (res: String)
    ensures
        res@ == zero_padded(decimal(n as nat), width as nat),
{
    let digits = decimal_string(n);
    let len = digits.as_str().unicode_len();
    if len >= width {
        digits
    } else {
        let mut res = String::new();
        let pad = width - len;
        for i in 0..pad
            invariant
                res@ == Seq::new(i as nat, |k: int| '0'),
        {
            push_char(&mut res, '0');
            assert(res@ == Seq::new((i + 1) as nat, |k: int| '0'));
        }
        res.append(digits.as_str());
        res
    }
}

// ---------------------------------------------------------------------------
// Trimming
// ---------------------------------------------------------------------------

/// Which characters a trim removes.
#[derive(Clone, Copy, Debug, PartialEq, Eq)]
pub enum Strip {
    /// The dash '-' only (`trim_matches('-')`).
    Dash,
    /// Unicode white space (`str::trim`).
    Whitespace,
    /// '.' and ' ', which Windows drops at the end of a file name.
    DotSpace,
}

/// Whether `c` is removed by a trim of kind `which`.
pub open spec fn stripped(which: Strip, c: char) -> bool {
    match which {
        Strip::Dash => c == '-',
        Strip::Whitespace => unicode_white_space(c),
        Strip::DotSpace => c == '.' || c == ' ',
    }
}

/// `s` without its leading characters of kind `which`.
pub open spec fn trim_start(s: Seq<char>, which: Strip) -> Seq<char>
    decreases s.len(),
{
    if s.len() > 0 && stripped(which, s[0]) {
        trim_start(s.drop_first(), which)
    } else {
        s
    }
}

/// `s` without its trailing characters of kind `which`.
pub open spec fn trim_end(s: Seq<char>, which: Strip) -> Seq<char>
    decreases s.len(),
{
    if s.len() > 0 && stripped(which, s.last()) {
        trim_end(s.drop_last(), which)
    } else {
        s
    }
}

/// `s` without its leading and trailing characters of kind `which`.
pub open spec fn trim(s: Seq<char>, which: Strip) -> Seq<char> {
    trim_end(trim_start(s, which), which)
}

fn is_stripped(which: Strip, c: char) -> (res: bool)
    ensures
        res == stripped(which, c),
{
    match which {
        Strip::Dash => c == '-',
        Strip::Whitespace => is_whitespace(c),
        Strip::DotSpace => c == '.' || c == ' ',
    }
}

/// Copy of `v[from..to]`.
pub fn slice_chars(v: &Vec<char>, from: usize, to: usize) -> (res: Vec<char>)
    requires
        from <= to <= v@.len(),
    ensures
        res@ == v@.subrange(from as int, to as int),
{
    let mut res: Vec<char> = Vec::new();
    let mut k = from;
    while k < to
        invariant
            from <= k <= to <= v@.len(),
            res@ == v@.subrange(from as int, k as int),
        decreases to - k,
    {
        res.push(v[k]);
        assert(v@.subrange(from as int, k + 1) == v@.subrange(from as int, k as int).push(
            v@[k as int],
        ));
        k += 1;
    }
    res
}

/// `v` without its leading and trailing characters of kind `which`.
pub fn trim_chars(v: &Vec<char>, which: Strip) -> (res: Vec<char>)
    ensures
        res@ == trim(v@, which),
{
    let n = v.len();
    let mut i: usize = 0;
    assert(v@.subrange(0, n as int) == v@);
    while i < n && is_stripped(which, v[i])
        invariant
            i <= n == v@.len(),
            trim_start(v@, which) == trim_start(v@.subrange(i as int, n as int), which),
        decreases n - i,
    {
        assert(v@.subrange(i as int, n as int).drop_first() == v@.subrange(i + 1, n as int));
        i += 1;
    }
    let mut j: usize = n;
    while j > i && is_stripped(which, v[j - 1])
        invariant
            i <= j <= n == v@.len(),
            trim_start(v@, which) == v@.subrange(i as int, n as int),
            trim_end(v@.subrange(i as int, n as int), which) == trim_end(
                v@.subrange(i as int, j as int),
                which,
            ),
        decreases j,
    {
        assert(v@.subrange(i as int, j as int).drop_last() == v@.subrange(i as int, j - 1));
        j -= 1;
    }
    slice_chars(v, i, j)
}

/// A trim at the start leaves a suffix that does not start with a trimmed character.
pub proof fn lemma_trim_start_suffix(s: Seq<char>, which: Strip)
    ensures
        trim_start(s, which).len() <= s.len(),
        trim_start(s, which) == s.subrange(
            s.len() - trim_start(s, which).len(),
            s.len() as int,
        ),
        trim_start(s, which).len() > 0 ==> !stripped(which, trim_start(s, which)[0]),
    decreases s.len(),
{
    if s.len() > 0 && stripped(which, s[0]) {
        lemma_trim_start_suffix(s.drop_first(), which);
        let r = trim_start(s.drop_first(), which);
        assert(s.drop_first().subrange(
            s.drop_first().len() - r.len(),
            s.drop_first().len() as int,
        ) == s.subrange(s.len() - r.len(), s.len() as int));
    } else {
        assert(s.subrange(0, s.len() as int) == s);
    }
}

/// A trim at the end leaves a prefix that does not end with a trimmed character.
pub proof fn lemma_trim_end_prefix(s: Seq<char>, which: Strip)
    ensures
        trim_end(s, which).len() <= s.len(),
        trim_end(s, which) == s.subrange(0, trim_end(s, which).len() as int),
        trim_end(s, which).len() > 0 ==> !stripped(which, trim_end(s, which).last()),
    decreases s.len(),
{
    if s.len() > 0 && stripped(which, s.last()) {
        lemma_trim_end_prefix(s.drop_last(), which);
        let r = trim_end(s.drop_last(), which);
        assert(s.drop_last().subrange(0, r.len() as int) == s.subrange(0, r.len() as int));
    } else {
        assert(s.subrange(0, s.len() as int) == s);
    }
}

/// A trim on both sides leaves a piece of the text, with no trimmed character
/// at either end.
pub proof fn lemma_trim_piece(s: Seq<char>, which: Strip) -> (start: int)
    ensures
        0 <= start <= start + trim(s, which).len() <= s.len(),
        trim(s, which) == s.subrange(start, start + trim(s, which).len()),
        trim(s, which).len() > 0 ==> !stripped(which, trim(s, which)[0]) && !stripped(
            which,
            trim(s, which).last(),
        ),
{
    let a = trim_start(s, which);
    lemma_trim_start_suffix(s, which);
    lemma_trim_end_prefix(a, which);
    let r = trim(s, which);
    let start = s.len() - a.len();
    assert(r == s.subrange(start, start + r.len())) by {
        assert(a.subrange(0, r.len() as int) == s.subrange(start, start + r.len()));
    }
    if r.len() > 0 {
        assert(r[0] == a[0]);
    }
    start
}

} // verus!
