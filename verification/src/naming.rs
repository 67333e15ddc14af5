//! Names of the files the exporter writes: subject slugs, `.eml` stems,
//! attachment names and flattened folder names.

use vstd::prelude::*;
use crate::runner::{texts, contains_text};
use crate::text::{
    unicode_alphanumeric, utf8_len, decimal, zero_padded, trim, Strip, is_alphanumeric,
    char_utf8_len, chars_of, string_from_chars, trim_chars, push_char, padded_decimal,
    decimal_string, slice_chars, lemma_trim_piece, trim_end, lemma_trim_end_prefix, stripped,
};

verus! {

// ---------------------------------------------------------------------------
// sanitize_filename
// ---------------------------------------------------------------------------

/// Characters that `sanitize_filename` removes on every platform.
pub open spec fn illegal_in_name(c: char) -> bool {
    c == '/' || c == '?' || c == '<' || c == '>' || c == '\\' || c == ':' || c == '*' || c == '|'
        || c == '"'
}

/// Control characters that `sanitize_filename` removes (U+0000..U+001F, U+0080..U+009F).
pub open spec fn control_char(c: char) -> bool {
    (c as int) <= 0x1f || (0x80 <= (c as int) && (c as int) <= 0x9f)
}

/// The characters of `s` that `sanitize_filename` keeps: all but the illegal
/// and the control ones, in order.
pub open spec fn kept_chars(s: Seq<char>) -> Seq<char>
    decreases s.len(),
{
    if s.len() == 0 {
        Seq::empty()
    } else if illegal_in_name(s.last()) || control_char(s.last()) {
        kept_chars(s.drop_last())
    } else {
        kept_chars(s.drop_last()).push(s.last())
    }
}

/// `s` is made of dots only (and is not empty): a name `sanitize_filename`
/// treats as reserved.
pub open spec fn only_dots(s: Seq<char>) -> bool {
    s.len() > 0 && forall|i: int| 0 <= i < s.len() ==> #[trigger] s[i] == '.'
}

/// `c` in ASCII lower case.
pub open spec fn ascii_lower(c: char) -> char {
    if 'A' <= c && c <= 'Z' {
        ((c as int) + 32) as char
    } else {
        c
    }
}

/// The first three characters of `s` (at least three), in ASCII lower case.
pub open spec fn lower3(s: Seq<char>) -> Seq<char> {
    seq![ascii_lower(s[0]), ascii_lower(s[1]), ascii_lower(s[2])]
}

/// `s` is a Windows device name, with or without an extension, in any case:
/// what the pattern `^(con|prn|aux|nul|com[0-9]|lpt[0-9])(\..*)?$` of
/// `sanitize_filename` matches, case-insensitively.
pub open spec fn device_name(s: Seq<char>) -> bool {
    ||| (s.len() >= 3 && (lower3(s) == "con"@ || lower3(s) == "prn"@ || lower3(s) == "aux"@
        || lower3(s) == "nul"@) && (s.len() == 3 || s[3] == '.'))
    ||| (s.len() >= 4 && (lower3(s) == "com"@ || lower3(s) == "lpt"@) && '0' <= s[3] && s[3]
        <= '9' && (s.len() == 4 || s[4] == '.'))
}

/// `s`, or the empty text when `s` is made of dots only.
pub open spec fn without_dot_name(s: Seq<char>) -> Seq<char> {
    if only_dots(s) {
        Seq::empty()
    } else {
        s
    }
}

/// Longest number of bytes of a sanitized name.
pub open spec fn name_max_bytes() -> nat {
    255
}

/// What `sanitize_filename::sanitize` gives outside Windows: the illegal and
/// control characters removed, a name made of dots only blanked, the rest cut
/// to 255 bytes at a character boundary.
pub open spec fn sanitized_unix(input: Seq<char>) -> Seq<char> {
    take_bytes(without_dot_name(kept_chars(input)), name_max_bytes())
}

/// What `sanitize_filename::sanitize` gives on Windows: as outside Windows, but
/// before the cut a device name is also blanked and trailing dots and spaces
/// are stripped.
pub open spec fn sanitized_windows(input: Seq<char>) -> Seq<char> {
    let w = without_dot_name(kept_chars(input));
    let d = if device_name(w) {
        Seq::<char>::empty()
    } else {
        w
    };
    take_bytes(trim_end(d, Strip::DotSpace), name_max_bytes())
}

/// `out` is what `sanitize_filename::sanitize(input)` gives on one of the two
/// kinds of platform: outside Windows or on Windows.
pub open spec fn sanitize_outcome(input: Seq<char>, out: Seq<char>) -> bool {
    out == sanitized_unix(input) || out == sanitized_windows(input)
}

/// `sanitize_filename::sanitize`. The crate removes the characters
/// `/ ? < > \\ : * | "` and the control characters U+0000..U+001F and
/// U+0080..U+009F, replaces a name made only of dots by the empty string, and
/// truncates to 255 bytes at a character boundary; on Windows it also blanks
/// the device names (`con`, `prn`, `aux`, `nul`, `com0`..`com9`,
/// `lpt0`..`lpt9`, with or without an extension, in any case) and strips
/// trailing dots and spaces. Which of the two rule sets applies is fixed when
/// the crate is compiled for its target, so the contract says that the result
/// is one of the two exact outcomes (`sanitized_unix`, `sanitized_windows`);
/// it leaves open which one, where they differ.
#[verifier::external_body]
pub(crate) fn sanitize(name: &str) -> (res: String)
    ensures
        sanitize_outcome(name@, res@),
{
    sanitize_filename::sanitize(name)
}

/// Where the two rule sets agree the result is determined: a cleaned name that
/// is not a device name and does not end with '.' or ' ' is sanitized alike on
/// every platform.
pub proof fn law_platforms_agree(input: Seq<char>)
    requires
        !device_name(without_dot_name(kept_chars(input))),
        without_dot_name(kept_chars(input)).len() > 0 ==> without_dot_name(kept_chars(input)).last()
            != '.' && without_dot_name(kept_chars(input)).last() != ' ',
    ensures
        sanitized_unix(input) == sanitized_windows(input),
{
}

/// Name of the directory of an account inside the output directory: the email
/// address, sanitized.
pub fn account_dir_name(email: &str) -> (res: String)
    ensures
        sanitize_outcome(email@, res@),
{
    sanitize(email)
}

/// The characters kept by sanitizing are characters of the input, neither
/// illegal nor control characters, and there are no more of them than of the
/// input's.
pub proof fn lemma_kept_chars(s: Seq<char>)
    ensures
        kept_chars(s).len() <= s.len(),
        forall|i: int|
            0 <= i < kept_chars(s).len() ==> {
                &&& s.contains(#[trigger] kept_chars(s)[i])
                &&& !illegal_in_name(kept_chars(s)[i])
                &&& !control_char(kept_chars(s)[i])
            },
    decreases s.len(),
{
    if s.len() > 0 {
        let init = s.drop_last();
        lemma_kept_chars(init);
        let k = kept_chars(s);
        let ki = kept_chars(init);
        assert forall|i: int| 0 <= i < k.len() implies {
            &&& s.contains(#[trigger] k[i])
            &&& !illegal_in_name(k[i])
            &&& !control_char(k[i])
        } by {
            if i < ki.len() {
                assert(k[i] == ki[i]);
                let j = choose|j: int| 0 <= j < init.len() && init[j] == ki[i];
                assert(s[j] == init[j]);
            } else {
                assert(k[i] == s[s.len() - 1]);
            }
        }
    }
}

/// A sanitized name is a prefix of the input cleaned of its illegal and
/// control characters, is at most 255 bytes long, and is neither "." nor "..".
pub proof fn lemma_outcome_prefix(input: Seq<char>, out: Seq<char>)
    requires
        sanitize_outcome(input, out),
    ensures
        out.len() <= kept_chars(input).len(),
        out == kept_chars(input).take(out.len() as int),
        utf8_bytes(out) <= name_max_bytes(),
        out != seq!['.'],
        out != seq!['.', '.'],
{
    let kept = kept_chars(input);
    let w = without_dot_name(kept);
    assert(w.len() <= kept.len() && w == kept.take(w.len() as int)) by {
        if only_dots(kept) {
            assert(w =~= kept.take(0));
        } else {
            assert(kept.take(kept.len() as int) =~= kept);
        }
    }
    // The text that is cut at 255 bytes, and the facts that keep it from
    // being "." or "..".
    let x = if out == sanitized_unix(input) {
        w
    } else {
        let d = if device_name(w) {
            Seq::<char>::empty()
        } else {
            w
        };
        lemma_trim_end_prefix(d, Strip::DotSpace);
        assert(d.len() <= w.len() && d == w.take(d.len() as int)) by {
            if device_name(w) {
                assert(d =~= w.take(0));
            } else {
                assert(w.take(w.len() as int) =~= w);
            }
        }
        trim_end(d, Strip::DotSpace)
    };
    assert(x.len() <= kept.len() && x == kept.take(x.len() as int)) by {
        if out != sanitized_unix(input) {
            let d = if device_name(w) {
                Seq::<char>::empty()
            } else {
                w
            };
            assert(x == d.take(x.len() as int));
            assert(x =~= kept.take(x.len() as int));
        }
    }
    assert(out == take_bytes(x, name_max_bytes()));
    lemma_take_bytes_prefix(x, name_max_bytes());
    assert(out =~= kept.take(out.len() as int));
    lemma_take_bytes_short(x, name_max_bytes());
    let one = seq!['.'];
    let two = seq!['.', '.'];
    assert(one.drop_first() =~= Seq::<char>::empty());
    assert(two.drop_first() =~= one);
    assert(utf8_bytes(Seq::<char>::empty()) == 0);
    assert(utf8_bytes(one) == 1);
    assert(utf8_bytes(two) == 2);
    if out == one || out == two {
        assert(out == x);
        if out == sanitized_unix(input) {
            assert(only_dots(out));
            assert(only_dots(kept) || w =~= kept);
            if !only_dots(kept) {
                assert(only_dots(kept));
            }
        } else {
            let d = if device_name(w) {
                Seq::<char>::empty()
            } else {
                w
            };
            lemma_trim_end_prefix(d, Strip::DotSpace);
            assert(!stripped(Strip::DotSpace, x.last()));
        }
    }
}

/// A cut at `max` bytes that drops something keeps more than `max - 4` bytes.
proof fn lemma_take_bytes_short(s: Seq<char>, max: nat)
    ensures
        take_bytes(s, max) != s ==> utf8_bytes(take_bytes(s, max)) + 4 > max,
    decreases s.len(),
{
    if s.len() > 0 {
        if utf8_len(s[0]) <= max {
            let rest = s.drop_first();
            let m = (max - utf8_len(s[0])) as nat;
            lemma_take_bytes_short(rest, m);
            let r = take_bytes(s, max);
            let rr = take_bytes(rest, m);
            assert(r.drop_first() =~= rr);
            if r != s {
                assert(rr != rest) by {
                    if rr == rest {
                        assert(r =~= s);
                    }
                }
            }
        } else {
            assert(take_bytes(s, max) =~= Seq::<char>::empty());
            assert(utf8_bytes(Seq::<char>::empty()) == 0);
        }
    }
}

/// Every character of a sanitized name is a character of the input that is
/// neither illegal nor a control character.
pub proof fn lemma_outcome_chars(input: Seq<char>, out: Seq<char>)
    requires
        sanitize_outcome(input, out),
    ensures
        out.len() <= input.len(),
        forall|i: int|
            0 <= i < out.len() ==> {
                &&& input.contains(#[trigger] out[i])
                &&& !illegal_in_name(out[i])
                &&& !control_char(out[i])
            },
        out != seq!['.'],
        out != seq!['.', '.'],
{
    lemma_kept_chars(input);
    lemma_outcome_prefix(input, out);
    let kept = kept_chars(input);
    assert forall|i: int| 0 <= i < out.len() implies {
        &&& input.contains(#[trigger] out[i])
        &&& !illegal_in_name(out[i])
        &&& !control_char(out[i])
    } by {
        assert(out[i] == kept[i]);
    }
}

// ---------------------------------------------------------------------------
// Slugs
// ---------------------------------------------------------------------------

/// Longest number of UTF-8 bytes of a subject slug inside a file stem.
pub const SUBJECT_SLUG_MAX: usize = 60;

/// Replaces each run of non-alphanumeric characters of `s` by a single '-'
/// (`prev_dash`: whether the text produced so far ends with such a '-').
pub open spec fn collapse(s: Seq<char>, prev_dash: bool) -> Seq<char>
    decreases s.len(),
{
    if s.len() == 0 {
        Seq::empty()
    } else if unicode_alphanumeric(s[0]) {
        seq![s[0]] + collapse(s.drop_first(), false)
    } else if !prev_dash {
        seq!['-'] + collapse(s.drop_first(), true)
    } else {
        collapse(s.drop_first(), true)
    }
}

/// Longest prefix of `s` whose UTF-8 encoding fits in `max` bytes.
pub open spec fn take_bytes(s: Seq<char>, max: nat) -> Seq<char>
    decreases s.len(),
{
    if s.len() == 0 {
        s
    } else if utf8_len(s[0]) <= max {
        seq![s[0]] + take_bytes(s.drop_first(), (max - utf8_len(s[0])) as nat)
    } else {
        Seq::empty()
    }
}

/// The slug used when nothing of the subject is left.
pub open spec fn slug_fallback() -> Seq<char> {
    "sans-objet"@
}

/// Slug of an already sanitized text: runs of non-alphanumeric characters
/// become one '-', dashes are trimmed, the text is cut to `max` UTF-8 bytes and
/// trimmed again; an empty result becomes `slug_fallback()`.
pub open spec fn slug_text(s: Seq<char>, max: nat) -> Seq<char> {
    let r = trim(take_bytes(trim(collapse(s, false), Strip::Dash), max), Strip::Dash);
    if r.len() == 0 {
        slug_fallback()
    } else {
        r
    }
}

/// `slug` is a possible slug of `input`: the slug of some outcome of sanitizing it.
pub open spec fn slug_of(input: Seq<char>, max: nat, slug: Seq<char>) -> bool {
    exists|s: Seq<char>| sanitize_outcome(input, s) && slug == slug_text(s, max)
}

fn collapse_chars(v: &Vec<char>) -> (res: Vec<char>)
    ensures
        res@ == collapse(v@, false),
{
    let mut out: Vec<char> = Vec::new();
    let mut prev_dash = false;
    let n = v.len();
    assert(v@.skip(0) == v@);
    for i in 0..n
        invariant
            n == v@.len(),
            collapse(v@, false) == out@ + collapse(v@.skip(i as int), prev_dash),
    {
        let ch = v[i];
        let ghost rest = v@.skip(i as int);
        assert(rest.drop_first() == v@.skip(i + 1));
        assert(rest[0] == ch);
        let ghost before = out@;
        if is_alphanumeric(ch) {
            out.push(ch);
            prev_dash = false;
            assert(before + collapse(rest, !prev_dash && false) == before + (seq![ch] + collapse(
                v@.skip(i + 1),
                false,
            ))) by {
                assert(unicode_alphanumeric(rest[0]));
            }
            assert(before + (seq![ch] + collapse(v@.skip(i + 1), false)) == out@ + collapse(
                v@.skip(i + 1),
                false,
            ));
        } else if !prev_dash {
            out.push('-');
            prev_dash = true;
            assert(before + (seq!['-'] + collapse(v@.skip(i + 1), true)) == out@ + collapse(
                v@.skip(i + 1),
                true,
            ));
        }
    }
    assert(v@.skip(n as int) == Seq::<char>::empty());
    assert(out@ + Seq::<char>::empty() == out@);
    out
}

fn take_bytes_chars(v: &Vec<char>, max: usize) -> (res: Vec<char>)
    ensures
        res@ == take_bytes(v@, max as nat),
{
    let n = v.len();
    let mut i: usize = 0;
    let mut budget: usize = max;
    assert(v@.skip(0) == v@);
    assert(v@.take(0) + v@ == v@);
    while i < n && char_utf8_len(v[i]) <= budget
        invariant
            i <= n == v@.len(),
            take_bytes(v@, max as nat) == v@.take(i as int) + take_bytes(
                v@.skip(i as int),
                budget as nat,
            ),
        decreases n - i,
    {
        let ghost rest = v@.skip(i as int);
        assert(rest.drop_first() == v@.skip(i + 1));
        assert(rest[0] == v@[i as int]);
        let w = char_utf8_len(v[i]);
        assert(v@.take(i as int) + (seq![v@[i as int]] + take_bytes(
            v@.skip(i + 1),
            (budget - w) as nat,
        )) == v@.take(i + 1) + take_bytes(v@.skip(i + 1), (budget - w) as nat));
        budget = budget - w;
        i = i + 1;
    }
    if i < n {
        assert(v@.skip(i as int)[0] == v@[i as int]);
    } else {
        assert(v@.skip(i as int) == Seq::<char>::empty());
    }
    assert(v@.take(i as int) + Seq::<char>::empty() == v@.take(i as int));
    assert(v@.take(i as int) == v@.subrange(0, i as int));
    slice_chars(v, 0, i)
}

/// Slug of an already sanitized text (see `slug_text`).
pub fn slug_from_sanitized(sanitized: &str, max: usize) -> (res: String)
    ensures
        res@ == slug_text(sanitized@, max as nat),
{
    let chars = chars_of(sanitized);
    let collapsed = collapse_chars(&chars);
    let trimmed = trim_chars(&collapsed, Strip::Dash);
    let cut = take_bytes_chars(&trimmed, max);
    let result = trim_chars(&cut, Strip::Dash);
    if result.len() == 0 {
        "sans-objet".to_owned()
    } else {
        string_from_chars(&result)
    }
}

/// Slugifies arbitrary text into a file-name fragment that is safe on every file
/// system: the text is sanitized, each run of non-alphanumeric characters becomes
/// one '-', surrounding dashes are removed, and the result is cut to `max` bytes
/// (never inside a character); an empty result becomes "sans-objet".
pub fn slugify(input: &str, max: usize) -> (res: String)
    ensures
        slug_of(input@, max as nat, res@),
{
    let sanitized = sanitize(input);
    let res = slug_from_sanitized(sanitized.as_str(), max);
    assert(sanitize_outcome(input@, sanitized@) && res@ == slug_text(sanitized@, max as nat));
    res
}

/// Number of bytes of the UTF-8 encoding of `s`.
pub open spec fn utf8_bytes(s: Seq<char>) -> nat
    decreases s.len(),
{
    if s.len() == 0 {
        0
    } else {
        utf8_len(s[0]) + utf8_bytes(s.drop_first())
    }
}

/// Every character is alphanumeric or '-', and no two neighbours are both
/// non-alphanumeric.
pub open spec fn slug_chars(r: Seq<char>) -> bool {
    &&& forall|i: int| 0 <= i < r.len() ==> unicode_alphanumeric(#[trigger] r[i]) || r[i] == '-'
    &&& forall|i: int|
        0 <= i < r.len() - 1 ==> unicode_alphanumeric(#[trigger] r[i]) || unicode_alphanumeric(
            r[i + 1],
        )
}

/// The shape of a slug: not empty, no '-' at either end, only alphanumeric
/// characters and single dashes, at most `max` bytes.
pub open spec fn slug_shape(r: Seq<char>, max: nat) -> bool {
    &&& r.len() > 0
    &&& r[0] != '-'
    &&& r.last() != '-'
    &&& slug_chars(r)
    &&& forall|i: int| 0 <= i < r.len() - 1 ==> !(#[trigger] r[i] == '-' && r[i + 1] == '-')
    &&& utf8_bytes(r) <= max
}

proof fn lemma_collapse_chars(s: Seq<char>, pd: bool)
    ensures
        slug_chars(collapse(s, pd)),
        pd && collapse(s, pd).len() > 0 ==> unicode_alphanumeric(collapse(s, pd)[0]),
    decreases s.len(),
{
    if s.len() > 0 {
        let rest = s.drop_first();
        let c = collapse(s, pd);
        if unicode_alphanumeric(s[0]) {
            lemma_collapse_chars(rest, false);
            let r = collapse(rest, false);
            assert forall|i: int| 0 <= i < c.len() implies unicode_alphanumeric(#[trigger] c[i])
                || c[i] == '-' by {
                if i > 0 {
                    assert(c[i] == r[i - 1]);
                }
            }
            assert forall|i: int| 0 <= i < c.len() - 1 implies unicode_alphanumeric(#[trigger] c[i])
                || unicode_alphanumeric(c[i + 1]) by {
                if i > 0 {
                    assert(c[i] == r[i - 1] && c[i + 1] == r[i]);
                }
            }
        } else if !pd {
            lemma_collapse_chars(rest, true);
            let r = collapse(rest, true);
            assert forall|i: int| 0 <= i < c.len() implies unicode_alphanumeric(#[trigger] c[i])
                || c[i] == '-' by {
                if i > 0 {
                    assert(c[i] == r[i - 1]);
                }
            }
            assert forall|i: int| 0 <= i < c.len() - 1 implies unicode_alphanumeric(#[trigger] c[i])
                || unicode_alphanumeric(c[i + 1]) by {
                if i > 0 {
                    assert(c[i] == r[i - 1] && c[i + 1] == r[i]);
                } else {
                    assert(c[1] == r[0]);
                }
            }
        } else {
            lemma_collapse_chars(rest, true);
        }
    }
}

proof fn lemma_slug_chars_sub(r: Seq<char>, i: int, j: int)
    requires
        slug_chars(r),
        0 <= i <= j <= r.len(),
    ensures
        slug_chars(r.subrange(i, j)),
{
    let t = r.subrange(i, j);
    assert forall|k: int| 0 <= k < t.len() implies unicode_alphanumeric(#[trigger] t[k]) || t[k]
        == '-' by {
        assert(t[k] == r[i + k]);
    }
    assert forall|k: int| 0 <= k < t.len() - 1 implies unicode_alphanumeric(#[trigger] t[k])
        || unicode_alphanumeric(t[k + 1]) by {
        assert(t[k] == r[i + k] && t[k + 1] == r[i + k + 1]);
    }
}

proof fn lemma_take_bytes_prefix(s: Seq<char>, max: nat)
    ensures
        take_bytes(s, max).len() <= s.len(),
        take_bytes(s, max) == s.subrange(0, take_bytes(s, max).len() as int),
        utf8_bytes(take_bytes(s, max)) <= max,
    decreases s.len(),
{
    if s.len() > 0 && utf8_len(s[0]) <= max {
        let rest = s.drop_first();
        let m = (max - utf8_len(s[0])) as nat;
        lemma_take_bytes_prefix(rest, m);
        let r = take_bytes(s, max);
        let rr = take_bytes(rest, m);
        assert(r == seq![s[0]] + rr);
        assert(r.drop_first() == rr);
        assert(r[0] == s[0]);
        assert(r == s.subrange(0, r.len() as int));
    } else if s.len() > 0 {
        assert(take_bytes(s, max) == s.subrange(0, 0));
    }
}

proof fn lemma_bytes_piece(s: Seq<char>, i: int, j: int)
    requires
        0 <= i <= j <= s.len(),
    ensures
        utf8_bytes(s.subrange(i, j)) <= utf8_bytes(s),
    decreases s.len(),
{
    if s.len() > 0 {
        let rest = s.drop_first();
        if i > 0 {
            lemma_bytes_piece(rest, i - 1, j - 1);
            assert(rest.subrange(i - 1, j - 1) == s.subrange(i, j));
        } else if j > 0 {
            lemma_bytes_piece(rest, 0, j - 1);
            let p = s.subrange(0, j);
            assert(p[0] == s[0]);
            assert(p.drop_first() == rest.subrange(0, j - 1));
        }
    }
}

/// A slug is "sans-objet" or has the shape of a slug: not empty, no dash at
/// either end, only alphanumeric characters and single dashes, at most `max`
/// bytes.
pub proof fn law_slug_shape(s: Seq<char>, max: nat)
    ensures
        slug_text(s, max) == slug_fallback() || slug_shape(slug_text(s, max), max),
{
    let c = collapse(s, false);
    lemma_collapse_chars(s, false);
    let t1 = trim(c, Strip::Dash);
    let i1 = lemma_trim_piece(c, Strip::Dash);
    lemma_slug_chars_sub(c, i1, i1 + t1.len());
    let t2 = take_bytes(t1, max);
    lemma_take_bytes_prefix(t1, max);
    lemma_slug_chars_sub(t1, 0, t2.len() as int);
    let r = trim(t2, Strip::Dash);
    let i2 = lemma_trim_piece(t2, Strip::Dash);
    lemma_slug_chars_sub(t2, i2, i2 + r.len());
    lemma_bytes_piece(t2, i2, i2 + r.len());
}

/// A slug is never empty.
pub proof fn law_slug_not_empty(s: Seq<char>, max: nat)
    ensures
        slug_text(s, max).len() > 0,
{
    reveal_strlit("sans-objet");
}

/// Where the platforms agree, the slug is determined: it is the slug of the
/// sanitized subject.
pub proof fn law_slug_exact(input: Seq<char>, max: nat, slug: Seq<char>)
    requires
        slug_of(input, max, slug),
        sanitized_unix(input) == sanitized_windows(input),
    ensures
        slug == slug_text(sanitized_unix(input), max),
{
}

/// Every character of `collapse(s, pd)` is '-' or a character of `s`.
proof fn lemma_collapse_from(s: Seq<char>, pd: bool)
    ensures
        forall|i: int|
            0 <= i < collapse(s, pd).len() ==> #[trigger] collapse(s, pd)[i] == '-' || s.contains(
                collapse(s, pd)[i],
            ),
    decreases s.len(),
{
    if s.len() > 0 {
        let rest = s.drop_first();
        let nd = !unicode_alphanumeric(s[0]);
        lemma_collapse_from(rest, nd);
        let c = collapse(s, pd);
        let r = collapse(rest, nd);
        assert forall|i: int| 0 <= i < c.len() implies #[trigger] c[i] == '-' || s.contains(c[i]) by {
            let k: int = if unicode_alphanumeric(s[0]) || !pd {
                i - 1
            } else {
                i
            };
            if unicode_alphanumeric(s[0]) && i == 0 {
                assert(c[0] == s[0]);
            } else if !unicode_alphanumeric(s[0]) && !pd && i == 0 {
                assert(c[0] == '-');
            } else {
                assert(c[i] == r[k]);
                if r[k] != '-' {
                    assert(rest.contains(r[k]));
                    let j = choose|j: int| 0 <= j < rest.len() && rest[j] == r[k];
                    assert(s[j + 1] == rest[j]);
                }
            }
        }
    }
}

/// A slug is safe in a file name on every system: whatever the outcome of
/// sanitizing the subject, it holds no character that `sanitize_filename`
/// removes (`/ ? < > \ : * | "` and the control characters).
pub proof fn law_slug_safe(input: Seq<char>, max: nat, slug: Seq<char>)
    requires
        slug_of(input, max, slug),
    ensures
        forall|i: int|
            0 <= i < slug.len() ==> !illegal_in_name(#[trigger] slug[i]) && !control_char(slug[i]),
{
    let s = choose|s: Seq<char>| sanitize_outcome(input, s) && slug == slug_text(s, max);
    lemma_outcome_chars(input, s);
    let c = collapse(s, false);
    lemma_collapse_from(s, false);
    let t1 = trim(c, Strip::Dash);
    let i1 = lemma_trim_piece(c, Strip::Dash);
    let t2 = take_bytes(t1, max);
    lemma_take_bytes_prefix(t1, max);
    let r = trim(t2, Strip::Dash);
    let i2 = lemma_trim_piece(t2, Strip::Dash);
    reveal_strlit("sans-objet");
    if r.len() == 0 {
        assert(slug == "sans-objet"@);
        assert(slug[0] == 's');
        assert forall|i: int| 0 <= i < slug.len() implies !illegal_in_name(#[trigger] slug[i])
            && !control_char(slug[i]) by {
            assert(slug[i] == "sans-objet"@[i]);
        }
    } else {
        assert(slug == r);
        assert forall|i: int| 0 <= i < slug.len() implies !illegal_in_name(#[trigger] slug[i])
            && !control_char(slug[i]) by {
            assert(r[i] == t2[i2 + i]);
            assert(t2[i2 + i] == t1[i2 + i]);
            assert(t1[i2 + i] == c[i1 + i2 + i]);
            if c[i1 + i2 + i] != '-' {
                let j = choose|j: int| 0 <= j < s.len() && s[j] == c[i1 + i2 + i];
                assert(input.contains(s[j]));
            }
        }
    }
}

/// A text with no character that sanitizing removes keeps all its characters.
proof fn lemma_kept_all(r: Seq<char>)
    requires
        forall|i: int| 0 <= i < r.len() ==> !illegal_in_name(#[trigger] r[i]) && !control_char(r[i]),
    ensures
        kept_chars(r) == r,
    decreases r.len(),
{
    if r.len() > 0 {
        let init = r.drop_last();
        assert forall|i: int| 0 <= i < init.len() implies !illegal_in_name(#[trigger] init[i])
            && !control_char(init[i]) by {
            assert(init[i] == r[i]);
        }
        lemma_kept_all(init);
        assert(r.last() == r[r.len() - 1]);
        assert(init.push(r.last()) =~= r);
    }
}

/// A text that fits in `max` bytes is not cut.
proof fn lemma_take_bytes_all(s: Seq<char>, max: nat)
    requires
        utf8_bytes(s) <= max,
    ensures
        take_bytes(s, max) == s,
    decreases s.len(),
{
    if s.len() > 0 {
        lemma_take_bytes_all(s.drop_first(), (max - utf8_len(s[0])) as nat);
        assert(seq![s[0]] + s.drop_first() =~= s);
    }
}

/// The UTF-8 size of `c` followed by `x`.
proof fn lemma_bytes_cons(c: char, x: Seq<char>)
    ensures
        utf8_bytes(seq![c] + x) == utf8_len(c) + utf8_bytes(x),
{
    let y = seq![c] + x;
    assert(y[0] == c);
    assert(y.drop_first() =~= x);
}

/// Collapsing runs never makes a text longer in bytes.
proof fn lemma_collapse_bytes(s: Seq<char>, pd: bool)
    ensures
        utf8_bytes(collapse(s, pd)) <= utf8_bytes(s),
    decreases s.len(),
{
    if s.len() > 0 {
        let rest = s.drop_first();
        if unicode_alphanumeric(s[0]) {
            lemma_collapse_bytes(rest, false);
            lemma_bytes_cons(s[0], collapse(rest, false));
        } else if !pd {
            lemma_collapse_bytes(rest, true);
            lemma_bytes_cons('-', collapse(rest, true));
        } else {
            lemma_collapse_bytes(rest, true);
        }
    }
}

/// A text of alphanumeric characters and single dashes (starting with an
/// alphanumeric character after a dash) is left as it is by collapsing.
proof fn lemma_collapse_fixed(r: Seq<char>, pd: bool)
    requires
        slug_chars(r),
        pd && r.len() > 0 ==> unicode_alphanumeric(r[0]),
    ensures
        collapse(r, pd) == r,
    decreases r.len(),
{
    if r.len() > 0 {
        let rest = r.drop_first();
        lemma_slug_chars_sub(r, 1, r.len() as int);
        assert(r.subrange(1, r.len() as int) =~= rest);
        if unicode_alphanumeric(r[0]) {
            lemma_collapse_fixed(rest, false);
        } else {
            if rest.len() > 0 {
                assert(rest[0] == r[1]);
            }
            lemma_collapse_fixed(rest, true);
        }
        assert(seq![r[0]] + rest =~= r);
    }
}

/// A slug-shaped text, safe and within 255 bytes, is its own slug.
proof fn lemma_shaped_fixed(r: Seq<char>, max: nat)
    requires
        slug_shape(r, max),
        forall|i: int| 0 <= i < r.len() ==> !illegal_in_name(#[trigger] r[i]) && !control_char(r[i]),
        utf8_bytes(r) <= name_max_bytes(),
    ensures
        sanitized_unix(r) == r,
        slug_text(sanitized_unix(r), max) == r,
{
    lemma_kept_all(r);
    assert(!only_dots(r)) by {
        assert(r[0] != '.');
    }
    lemma_take_bytes_all(r, name_max_bytes());
    lemma_collapse_fixed(r, false);
    assert(trim(r, Strip::Dash) == r);
    lemma_take_bytes_all(r, max);
}

/// Slugifying a slug gives it back, outside Windows: the slug of a subject
/// (sanitized by the rules outside Windows), slugified again to the same
/// length of at least 10 bytes, is the same slug.
pub proof fn law_slug_idempotent(input: Seq<char>, max: nat)
    requires
        max >= 10,
    ensures
        slug_text(sanitized_unix(slug_text(sanitized_unix(input), max)), max) == slug_text(
            sanitized_unix(input),
            max,
        ),
{
    let s = sanitized_unix(input);
    let r = slug_text(s, max);
    law_slug_shape(s, max);
    if r == slug_fallback() {
        reveal_strlit("sans-objet");
        let f = slug_fallback();
        assert(f =~= seq!['s', 'a', 'n', 's', '-', 'o', 'b', 'j', 'e', 't']);
        assert forall|i: int| 0 <= i < f.len() implies (unicode_alphanumeric(#[trigger] f[i]) || f[i] == '-')
            && !illegal_in_name(f[i]) && !control_char(f[i]) && (f[i] == '-' ==> 0 < i < f.len() - 1
            && unicode_alphanumeric(f[i - 1]) && unicode_alphanumeric(f[i + 1])) by {
            if i == 4 {
                assert(f[3] == 's' && f[5] == 'o');
            }
        }
        assert(slug_chars(f));
        assert(utf8_bytes(f) == 10) by {
            reveal_with_fuel(utf8_bytes, 11);
        }
        lemma_shaped_fixed(f, max);
    } else {
        assert(sanitize_outcome(input, s) && r == slug_text(s, max));
        law_slug_safe(input, max, r);
        // Within 255 bytes: each step takes a piece of the text before it.
        let c = collapse(s, false);
        lemma_collapse_bytes(s, false);
        let t1 = trim(c, Strip::Dash);
        let i1 = lemma_trim_piece(c, Strip::Dash);
        lemma_bytes_piece(c, i1, i1 + t1.len());
        let t2 = take_bytes(t1, max);
        lemma_take_bytes_prefix(t1, max);
        lemma_bytes_piece(t1, 0, t2.len() as int);
        let i2 = lemma_trim_piece(t2, Strip::Dash);
        lemma_bytes_piece(t2, i2, i2 + r.len());
        lemma_take_bytes_prefix(without_dot_name(kept_chars(input)), name_max_bytes());
        lemma_shaped_fixed(r, max);
    }
}

// ---------------------------------------------------------------------------
// File stems and dates
// ---------------------------------------------------------------------------

/// `0001_2023-05-01_Subject-slug`: the sequence number padded to four digits,
/// the date and the slug, separated by '_'.
pub open spec fn stem_text(seq: nat, date: Seq<char>, slug: Seq<char>) -> Seq<char> {
    zero_padded(decimal(seq), 4) + seq!['_'] + date + seq!['_'] + slug
}

/// A file stem starts with the sequence number in decimal, left-padded with
/// '0' to at least four digits (never cut), then '_', the date, '_' and the
/// slug: for every number, the characters before the first '_' are
/// `width - digits` zeros followed by the digits, `width` being four or the
/// number of digits when there are more.
pub proof fn law_stem_layout(seq: nat, date: Seq<char>, slug: Seq<char>)
    ensures
        ({
            let st = stem_text(seq, date, slug);
            let d = decimal(seq);
            let w: int = if d.len() >= 4 {
                d.len() as int
            } else {
                4
            };
            &&& st.len() == w + 1 + date.len() + 1 + slug.len()
            &&& forall|i: int| 0 <= i < w - d.len() ==> #[trigger] st[i] == '0'
            &&& st.subrange(w - d.len(), w) == d
            &&& st[w] == '_'
            &&& st.subrange(w + 1, w + 1 + date.len()) == date
            &&& st[w + 1 + date.len()] == '_'
            &&& st.subrange(w + 2 + date.len(), st.len() as int) == slug
        }),
{
    let d = decimal(seq);
    let st = stem_text(seq, date, slug);
    let z = zero_padded(d, 4);
    let w: int = if d.len() >= 4 {
        d.len() as int
    } else {
        4
    };
    assert(z.len() == w);
    assert(st =~= z + seq!['_'] + date + seq!['_'] + slug);
    assert forall|i: int| 0 <= i < w - d.len() implies #[trigger] st[i] == '0' by {
        assert(st[i] == z[i]);
    }
    assert(st.subrange(w - d.len(), w) =~= d) by {
        assert forall|i: int| 0 <= i < d.len() implies st.subrange(w - d.len(), w)[i] == d[i] by {
            assert(st[w - d.len() + i] == z[w - d.len() + i]);
        }
    }
    assert(st.subrange(w + 1, w + 1 + date.len()) =~= date);
    assert(st.subrange(w + 2 + date.len(), st.len() as int) =~= slug);
}

/// Builds a safe file name stem: `0001_2023-05-01_Subject-slug`, the subject being
/// slugified to at most `SUBJECT_SLUG_MAX` bytes.
pub fn file_stem(seq: u32, date: &str, subject: &str) -> (res: String)
    ensures
        exists|slug: Seq<char>|
            slug_of(subject@, SUBJECT_SLUG_MAX as nat, slug) && res@ == stem_text(
                seq as nat,
                date@,
                slug,
            ),
{
    let slug = slugify(subject, SUBJECT_SLUG_MAX);
    let mut res = padded_decimal(seq as u64, 4);
    push_char(&mut res, '_');
    res.append(date);
    push_char(&mut res, '_');
    res.append(slug.as_str());
    assert(slug_of(subject@, SUBJECT_SLUG_MAX as nat, slug@));
    res
}

/// `YYYY-MM-DD` with zero padding (the year to four digits, month and day to two).
pub open spec fn date_text(year: nat, month: nat, day: nat) -> Seq<char> {
    zero_padded(decimal(year), 4) + seq!['-'] + zero_padded(decimal(month), 2) + seq!['-']
        + zero_padded(decimal(day), 2)
}

/// The date written in file names and the index when a mail has no usable date.
pub open spec fn unknown_date() -> Seq<char> {
    "0000-00-00"@
}

/// Renders a date as `YYYY-MM-DD`, or "0000-00-00" when there is none.
pub fn date_string(date: Option<(u16, u8, u8)>) -> (res: String)
    ensures
        res@ == match date {
            Some((y, m, d)) => date_text(y as nat, m as nat, d as nat),
            None => unknown_date(),
        },
{
    match date {
        Some((y, m, d)) => {
            let mut res = padded_decimal(y as u64, 4);
            push_char(&mut res, '-');
            let mm = padded_decimal(m as u64, 2);
            res.append(mm.as_str());
            push_char(&mut res, '-');
            let dd = padded_decimal(d as u64, 2);
            res.append(dd.as_str());
            res
        },
        None => "0000-00-00".to_owned(),
    }
}

// ---------------------------------------------------------------------------
// Attachment names
// ---------------------------------------------------------------------------

/// `attachment_<n>`, the name given to the attachment of position `index`
/// (counted from zero) when it has no usable name of its own.
pub open spec fn default_attachment_name(index: nat) -> Seq<char> {
    "attachment_"@ + decimal(index + 1)
}

/// `attachment_<index + 1>`.
pub fn default_attachment_string(index: usize) -> (res: String)
    requires
        index < usize::MAX,
    ensures
        res@ == default_attachment_name(index as nat),
{
    let mut res = "attachment_".to_owned();
    let n = decimal_string((index + 1) as u64);
    res.append(n.as_str());
    res
}

/// The name under which an attachment is first tried: its own name, sanitized,
/// or `attachment_<index + 1>` when nothing but white space is left of it.
pub open spec fn attachment_base(sanitized: Seq<char>, index: nat) -> Seq<char> {
    if trim(sanitized, Strip::Whitespace).len() == 0 {
        default_attachment_name(index)
    } else {
        sanitized
    }
}

/// Safe base name of an attachment: the sanitized `raw_name`, or
/// `attachment_<index + 1>` when that is blank.
pub fn attachment_base_name(raw_name: &str, index: usize) -> (res: String)
    requires
        index < usize::MAX,
    ensures
        exists|s: Seq<char>|
            sanitize_outcome(raw_name@, s) && res@ == attachment_base(s, index as nat),
        !res@.contains('/'),
        res@ != seq!['.', '.'],
{
    let safe = sanitize(raw_name);
    let chars = chars_of(safe.as_str());
    let trimmed = trim_chars(&chars, Strip::Whitespace);
    if trimmed.len() == 0 {
        let res = default_attachment_string(index);
        proof {
            reveal_strlit("attachment_");
            lemma_decimal_digits((index + 1) as nat);
            assert(res@[0] == 'a');
            assert(!res@.contains('/'));
            assert(sanitize_outcome(raw_name@, safe@) && res@ == attachment_base(safe@, index as nat));
        }
        res
    } else {
        proof {
            lemma_outcome_chars(raw_name@, safe@);
            if safe@.contains('/') {
                let k = choose|k: int| 0 <= k < safe@.len() && safe@[k] == '/';
                assert(!illegal_in_name(safe@[k]));
            }
            assert(sanitize_outcome(raw_name@, safe@) && safe@ == attachment_base(safe@, index as nat));
        }
        safe
    }
}

/// Every character of `decimal(n)` is an ASCII digit.
pub proof fn lemma_decimal_digits(n: nat)
    ensures
        forall|i: int| 0 <= i < decimal(n).len() ==> '0' <= #[trigger] decimal(n)[i] <= '9',
        decimal(n).len() >= 1,
    decreases n,
{
    if n >= 10 {
        lemma_decimal_digits(n / 10);
    }
}

/// Position of the last '.' of `s`, or -1 when there is none.
pub open spec fn last_dot(s: Seq<char>) -> int
    decreases s.len(),
{
    if s.len() == 0 {
        -1
    } else if s.last() == '.' {
        s.len() - 1
    } else {
        last_dot(s.drop_last())
    }
}

/// The name tried for an attachment when `name` is already taken: the number
/// `index + 1` is inserted before the extension. As for a file name split by
/// `Path::file_stem` and `Path::extension`, the extension is what follows the
/// last '.', unless that '.' is the first character.
pub open spec fn collision_text(name: Seq<char>, index: nat) -> Seq<char> {
    let p = last_dot(name);
    if p <= 0 {
        name + seq!['_'] + decimal(index + 1)
    } else {
        name.take(p) + seq!['_'] + decimal(index + 1) + seq!['.'] + name.skip(p + 1)
    }
}

fn find_last_dot(v: &Vec<char>) -> (res: Option<usize>)
    ensures
        match res {
            None => last_dot(v@) == -1,
            Some(k) => k < v@.len() && last_dot(v@) == k,
        },
{
    let mut j: usize = v.len();
    assert(v@.take(j as int) == v@);
    while j > 0 && v[j - 1] != '.'
        invariant
            j <= v@.len(),
            last_dot(v@) == last_dot(v@.take(j as int)),
        decreases j,
    {
        assert(v@.take(j as int).drop_last() == v@.take(j - 1));
        j -= 1;
    }
    if j == 0 {
        None
    } else {
        assert(v@.take(j as int).last() == v@[j - 1]);
        Some(j - 1)
    }
}

/// Name for an attachment whose base name `name` is already taken in its folder:
/// `<stem>_<index + 1>.<ext>`, or `<name>_<index + 1>` without extension.
pub fn attachment_collision_name(name: &str, index: usize) -> (res: String)
    requires
        index < usize::MAX,
        !name@.contains('/'),
        name@ != seq!['.', '.'],
    ensures
        res@ == collision_text(name@, index as nat),
{
    let chars = chars_of(name);
    let number = decimal_string((index + 1) as u64);
    let found = find_last_dot(&chars);
    match found {
        Some(pu) if pu > 0 => {
            let len = chars.len();
            assert(pu < len);
            let stem = slice_chars(&chars, 0, pu);
            let ext = slice_chars(&chars, pu + 1, len);
            let mut res = string_from_chars(&stem);
            push_char(&mut res, '_');
            res.append(number.as_str());
            push_char(&mut res, '.');
            let e = string_from_chars(&ext);
            res.append(e.as_str());
            assert(chars@.subrange(0, pu as int) == chars@.take(pu as int));
            assert(chars@.subrange(pu + 1, chars@.len() as int) == chars@.skip(pu + 1));
            res
        },
        _ => {
            let mut res = name.to_owned();
            push_char(&mut res, '_');
            res.append(number.as_str());
            res
        },
    }
}

/// A name tried after a collision keeps out '/' and is never "..".
proof fn lemma_collision_safe(name: Seq<char>, index: nat)
    requires
        !name.contains('/'),
    ensures
        !collision_text(name, index).contains('/'),
        collision_text(name, index) != seq!['.', '.'],
{
    let d = decimal(index + 1);
    lemma_decimal_digits(index + 1);
    let p = last_dot(name);
    lemma_last_dot_bound(name);
    let a = if p <= 0 {
        name
    } else {
        name.take(p)
    };
    let b = if p <= 0 {
        Seq::<char>::empty()
    } else {
        seq!['.'] + name.skip(p + 1)
    };
    let ct = collision_text(name, index);
    assert(ct =~= a + seq!['_'] + d + b);
    assert forall|k: int| 0 <= k < ct.len() implies ct[k] != '/' by {
        if k < a.len() {
            assert(ct[k] == a[k]);
            if p > 0 {
                assert(a[k] == name[k]);
            }
            assert(name.contains(a[k]) || a[k] != '/');
        } else if k == a.len() {
            assert(ct[k] == '_');
        } else if k < a.len() + 1 + d.len() {
            assert(ct[k] == d[k - a.len() - 1]);
        } else {
            let j = k - a.len() - 1 - d.len();
            assert(ct[k] == b[j]);
            if j > 0 {
                assert(b[j] == name[p + j]);
            }
        }
    }
    assert(ct[a.len() as int] == '_');
}

/// Length of the longest text of `names` (0 when there is none).
pub open spec fn longest(names: Seq<Seq<char>>) -> nat
    decreases names.len(),
{
    if names.len() == 0 {
        0
    } else if names.last().len() > longest(names.drop_last()) {
        names.last().len()
    } else {
        longest(names.drop_last())
    }
}

proof fn lemma_longest(names: Seq<Seq<char>>)
    ensures
        forall|i: int| 0 <= i < names.len() ==> (#[trigger] names[i]).len() <= longest(names),
    decreases names.len(),
{
    if names.len() > 0 {
        lemma_longest(names.drop_last());
        assert forall|i: int| 0 <= i < names.len() implies (#[trigger] names[i]).len() <= longest(
            names,
        ) by {
            if i < names.len() - 1 {
                assert(names[i] == names.drop_last()[i]);
            }
        }
    }
}

/// The first of `c`, its collision name, the collision name of that, and so on,
/// that is not in `taken`, looking at most `fuel` names further.
pub open spec fn free_candidate(c: Seq<char>, index: nat, taken: Seq<Seq<char>>, fuel: nat) -> Seq<
    char,
>
    decreases fuel,
{
    if fuel == 0 || !taken.contains(c) {
        c
    } else {
        free_candidate(collision_text(c, index), index, taken, (fuel - 1) as nat)
    }
}

/// The name an attachment gets when the names `taken` are already used: its
/// base name if free, else the first free name in the chain of collision names
/// (each longer than the one before, so one longer than every taken name is
/// free).
pub open spec fn free_name(base: Seq<char>, index: nat, taken: Seq<Seq<char>>) -> Seq<char> {
    free_candidate(base, index, taken, longest(taken) + 1)
}

/// A safe name for the attachment of position `index` named `raw_name` that is
/// none of the names `taken` (the files already in its directory): its
/// sanitized name (or `attachment_<index + 1>`) when that is free, else the
/// first free name of the chain `<stem>_<index + 1>.<ext>`,
/// `<stem>_<index + 1>_<index + 1>.<ext>`, ...
pub fn free_attachment_name(raw_name: &str, index: usize, taken: &Vec<String>) -> (res: String)
    requires
        index < usize::MAX,
    ensures
        exists|s: Seq<char>|
            sanitize_outcome(raw_name@, s) && res@ == free_name(
                attachment_base(s, index as nat),
                index as nat,
                texts(taken@),
            ),
        !texts(taken@).contains(res@),
        !res@.contains('/'),
        res@ != seq!['.', '.'],
{
    let mut cand = attachment_base_name(raw_name, index);
    let ghost s = choose|s: Seq<char>|
        sanitize_outcome(raw_name@, s) && cand@ == attachment_base(s, index as nat);
    let ghost base = cand@;
    let ghost t = texts(taken@);
    let ghost fuel: nat = longest(t) + 1;
    let ghost mut k: nat = 0;
    proof {
        lemma_longest(t);
    }
    while contains_text(taken, cand.as_str())
        invariant
            index < usize::MAX,
            t == texts(taken@),
            fuel == longest(t) + 1,
            forall|i: int| 0 <= i < t.len() ==> (#[trigger] t[i]).len() <= longest(t),
            k <= fuel,
            k <= cand@.len(),
            free_name(base, index as nat, t) == free_candidate(cand@, index as nat, t, (fuel - k) as nat),
            !cand@.contains('/'),
            cand@ != seq!['.', '.'],
        decreases fuel - k,
    {
        proof {
            let i = choose|i: int| 0 <= i < t.len() && t[i] == cand@;
            assert(cand@.len() <= longest(t));
            law_collision_name_differs(cand@, index as nat);
            lemma_collision_safe(cand@, index as nat);
        }
        let next = attachment_collision_name(cand.as_str(), index);
        cand = next;
        proof {
            k = k + 1;
        }
    }
    proof {
        assert(free_candidate(cand@, index as nat, t, (fuel - k) as nat) == cand@);
        if k == fuel {
            if t.contains(cand@) {
                let i = choose|i: int| 0 <= i < t.len() && t[i] == cand@;
                assert(cand@.len() <= longest(t));
            }
        }
    }
    cand
}

// ---------------------------------------------------------------------------
// Folder names
// ---------------------------------------------------------------------------

/// Which characters separate the pieces of a text.
#[derive(Clone, Copy, Debug, PartialEq, Eq)]
pub enum Sep {
    /// '/' and '.', the level separators of IMAP folder names.
    FolderLevel,
    /// ',', between the folders of a list typed by the user.
    Comma,
}

/// Whether `c` is a separator of kind `sep`.
pub open spec fn is_sep(sep: Sep, c: char) -> bool {
    match sep {
        Sep::FolderLevel => c == '/' || c == '.',
        Sep::Comma => c == ',',
    }
}

/// The pieces of `s` between separators of kind `sep`, in order, empty pieces
/// included (what `str::split` gives: one more piece than separators).
pub open spec fn split_by(s: Seq<char>, sep: Sep) -> Seq<Seq<char>>
    decreases s.len(),
{
    if s.len() == 0 {
        seq![Seq::empty()]
    } else {
        let init = split_by(s.drop_last(), sep);
        if is_sep(sep, s.last()) {
            init.push(Seq::empty())
        } else {
            init.update(init.len() - 1, init.last().push(s.last()))
        }
    }
}

/// The pieces of a folder name between its level separators.
pub open spec fn split_segments(s: Seq<char>) -> Seq<Seq<char>> {
    split_by(s, Sep::FolderLevel)
}

/// The non-empty texts of `parts`, in order.
pub open spec fn nonempty_parts(parts: Seq<Seq<char>>) -> Seq<Seq<char>>
    decreases parts.len(),
{
    if parts.len() == 0 {
        Seq::empty()
    } else if parts.last().len() == 0 {
        nonempty_parts(parts.drop_last())
    } else {
        nonempty_parts(parts.drop_last()).push(parts.last())
    }
}

/// `parts` joined with '.'.
pub open spec fn join_dots(parts: Seq<Seq<char>>) -> Seq<char>
    decreases parts.len(),
{
    if parts.len() == 0 {
        Seq::empty()
    } else if parts.len() == 1 {
        parts[0]
    } else {
        join_dots(parts.drop_last()) + seq!['.'] + parts.last()
    }
}

/// `outs` is a possible list of results of sanitizing, one by one, the trimmed
/// pieces of the folder name `folder`.
pub open spec fn sanitized_segments(folder: Seq<char>, outs: Seq<Seq<char>>) -> bool {
    let segs = split_segments(folder);
    &&& outs.len() == segs.len()
    &&& forall|i: int|
        0 <= i < segs.len() ==> sanitize_outcome(
            trim(#[trigger] segs[i], Strip::Whitespace),
            outs[i],
        )
}

/// Splitting gives at least one piece.
pub proof fn lemma_split_len(s: Seq<char>, sep: Sep)
    ensures
        split_by(s, sep).len() >= 1,
    decreases s.len(),
{
    if s.len() > 0 {
        lemma_split_len(s.drop_last(), sep);
    }
}

fn is_separator(sep: Sep, c: char) -> (res: bool)
    ensures
        res == is_sep(sep, c),
{
    match sep {
        Sep::FolderLevel => c == '/' || c == '.',
        Sep::Comma => c == ',',
    }
}

/// The pieces of `v` between separators of kind `sep` (see `split_by`).
pub fn split_chars(v: &Vec<char>, sep: Sep) -> (res: Vec<Vec<char>>)
    ensures
        res@.map_values(|p: Vec<char>| p@) == split_by(v@, sep),
{
    let mut done: Vec<Vec<char>> = Vec::new();
    let mut cur: Vec<char> = Vec::new();
    let n = v.len();
    for i in 0..n
        invariant
            n == v@.len(),
            done@.map_values(|p: Vec<char>| p@).push(cur@) == split_by(v@.take(i as int), sep),
    {
        proof {
            assert(v@.take(i + 1).drop_last() == v@.take(i as int));
            assert(v@.take(i + 1).last() == v@[i as int]);
            lemma_split_len(v@.take(i as int), sep);
        }
        let ghost before = done@.map_values(|p: Vec<char>| p@).push(cur@);
        let c = v[i];
        if is_separator(sep, c) {
            let finished = cur;
            done.push(finished);
            cur = Vec::new();
            assert(done@.map_values(|p: Vec<char>| p@) == before);
            assert(done@.map_values(|p: Vec<char>| p@).push(cur@) == before.push(Seq::empty()));
        } else {
            cur.push(c);
            assert(done@.map_values(|p: Vec<char>| p@).push(cur@) == before.update(
                before.len() - 1,
                before.last().push(c),
            ));
        }
    }
    assert(v@.take(n as int) == v@);
    let ghost before = done@.map_values(|p: Vec<char>| p@);
    done.push(cur);
    assert(done@.map_values(|p: Vec<char>| p@) == before.push(cur@));
    done
}

/// The texts of `parts` joined with '.' (see `join_dots`).
pub fn join_with_dots(parts: &Vec<String>) -> (res: String)
    ensures
        res@ == join_dots(parts@.map_values(|p: String| p@)),
{
    let mut res = String::new();
    let n = parts.len();
    let ghost all = parts@.map_values(|p: String| p@);
    for i in 0..n
        invariant
            n == parts@.len(),
            all == parts@.map_values(|p: String| p@),
            res@ == join_dots(all.take(i as int)),
    {
        proof {
            assert(all.take(i + 1).drop_last() == all.take(i as int));
            assert(all.take(i + 1).last() == parts@[i as int]@);
        }
        if i > 0 {
            push_char(&mut res, '.');
        } else {
            assert(all.take(1)[0] == parts@[0]@);
        }
        res.append(parts[i].as_str());
    }
    assert(all.take(n as int) == all);
    res
}

/// Flattens a nested IMAP folder name (`Archives/2022`) into one safe path
/// segment: the name is split at '/' and '.', each piece is trimmed and
/// sanitized, empty pieces are dropped and the rest are joined with '.'.
pub fn sanitize_folder(folder: &str) -> (res: String)
    ensures
        exists|outs: Seq<Seq<char>>|
            sanitized_segments(folder@, outs) && res@ == join_dots(nonempty_parts(outs)),
{
    let chars = chars_of(folder);
    let segs = split_chars(&chars, Sep::FolderLevel);
    let ghost segs_v = segs@.map_values(|p: Vec<char>| p@);
    let mut parts: Vec<String> = Vec::new();
    let ghost mut outs: Seq<Seq<char>> = Seq::empty();
    let n = segs.len();
    for i in 0..n
        invariant
            n == segs@.len(),
            segs_v == segs@.map_values(|p: Vec<char>| p@),
            segs_v == split_segments(folder@),
            outs.len() == i,
            forall|k: int|
                0 <= k < i ==> sanitize_outcome(
                    trim(#[trigger] segs_v[k], Strip::Whitespace),
                    outs[k],
                ),
            parts@.map_values(|p: String| p@) == nonempty_parts(outs),
    {
        let trimmed = trim_chars(&segs[i], Strip::Whitespace);
        let t = string_from_chars(&trimmed);
        let safe = sanitize(t.as_str());
        let ghost before = parts@.map_values(|p: String| p@);
        let ghost prev = outs;
        proof {
            outs = outs.push(safe@);
            assert(outs.drop_last() == prev);
            assert(segs_v[i as int] == segs@[i as int]@);
        }
        if safe.as_str().unicode_len() > 0 {
            parts.push(safe);
            assert(parts@.map_values(|p: String| p@) == before.push(outs.last()));
        }
    }
    let res = join_with_dots(&parts);
    assert(sanitized_segments(folder@, outs));
    res
}

/// A flattened folder name is one path segment that cannot climb: no
/// character that `sanitize_filename` removes (so no '/' nor '\\'), no '.' at
/// either end, never two '.' in a row (so never "." nor "..").
pub open spec fn flat_folder_name(r: Seq<char>) -> bool {
    &&& forall|k: int| 0 <= k < r.len() ==> !illegal_in_name(#[trigger] r[k]) && !control_char(r[k])
    &&& r.len() > 0 ==> r[0] != '.' && r.last() != '.'
    &&& forall|k: int| 0 <= k < r.len() - 1 ==> !(#[trigger] r[k] == '.' && r[k + 1] == '.')
}

/// No character of `p` is '.' or one that `sanitize_filename` removes.
pub open spec fn no_level_sep(p: Seq<char>) -> bool {
    forall|k: int|
        0 <= k < p.len() ==> #[trigger] p[k] != '.' && !illegal_in_name(p[k]) && !control_char(p[k])
}

proof fn lemma_split_pieces(s: Seq<char>, sep: Sep)
    ensures
        forall|i: int, k: int|
            0 <= i < split_by(s, sep).len() && 0 <= k < split_by(s, sep)[i].len() ==> !is_sep(
                sep,
                #[trigger] split_by(s, sep)[i][k],
            ),
    decreases s.len(),
{
    if s.len() > 0 {
        lemma_split_pieces(s.drop_last(), sep);
        lemma_split_len(s.drop_last(), sep);
        let init = split_by(s.drop_last(), sep);
        let r = split_by(s, sep);
        assert forall|i: int, k: int| 0 <= i < r.len() && 0 <= k < r[i].len() implies !is_sep(
            sep,
            #[trigger] r[i][k],
        ) by {
            if !is_sep(sep, s.last()) && i == init.len() - 1 {
                if k < init.last().len() {
                    assert(r[i][k] == init[i][k]);
                }
            } else if i < init.len() {
                assert(r[i] == init[i]);
            }
        }
    }
}

proof fn lemma_join_flat(parts: Seq<Seq<char>>)
    requires
        forall|i: int| 0 <= i < parts.len() ==> (#[trigger] parts[i]).len() > 0 && no_level_sep(
            parts[i],
        ),
    ensures
        flat_folder_name(join_dots(parts)),
        parts.len() > 0 ==> join_dots(parts).len() > 0,
    decreases parts.len(),
{
    if parts.len() == 1 {
        assert(join_dots(parts) == parts[0]);
    } else if parts.len() > 1 {
        let init = parts.drop_last();
        assert forall|i: int| 0 <= i < init.len() implies (#[trigger] init[i]).len() > 0
            && no_level_sep(init[i]) by {
            assert(init[i] == parts[i]);
        }
        lemma_join_flat(init);
        let a = join_dots(init);
        let l = parts.last();
        assert(no_level_sep(l) && l.len() > 0) by {
            assert(l == parts[parts.len() - 1]);
        }
        let j = join_dots(parts);
        assert(j == a + seq!['.'] + l);
        assert forall|k: int| 0 <= k < j.len() implies !illegal_in_name(#[trigger] j[k])
            && !control_char(j[k]) by {
            if k < a.len() {
                assert(j[k] == a[k]);
            } else if k > a.len() {
                assert(j[k] == l[k - a.len() - 1]);
            }
        }
        assert(j[0] == a[0]);
        assert(j.last() == l.last());
        assert forall|k: int| 0 <= k < j.len() - 1 implies !(#[trigger] j[k] == '.' && j[k + 1]
            == '.') by {
            if k < a.len() - 1 {
                assert(j[k] == a[k] && j[k + 1] == a[k + 1]);
            } else if k == a.len() - 1 {
                assert(j[k] == a.last());
            } else if k == a.len() {
                assert(j[k + 1] == l[0]);
            } else {
                assert(j[k] == l[k - a.len() - 1]);
            }
        }
    }
}

proof fn lemma_nonempty_parts(outs: Seq<Seq<char>>)
    ensures
        forall|i: int|
            0 <= i < nonempty_parts(outs).len() ==> (#[trigger] nonempty_parts(outs)[i]).len() > 0
                && exists|j: int| 0 <= j < outs.len() && outs[j] == nonempty_parts(outs)[i],
    decreases outs.len(),
{
    if outs.len() > 0 {
        lemma_nonempty_parts(outs.drop_last());
        let p = nonempty_parts(outs);
        let q = nonempty_parts(outs.drop_last());
        assert forall|i: int| 0 <= i < p.len() implies (#[trigger] p[i]).len() > 0 && exists|j: int|
            0 <= j < outs.len() && outs[j] == p[i] by {
            if i < q.len() {
                assert(p[i] == q[i]);
                let j = choose|j: int| 0 <= j < outs.drop_last().len() && outs.drop_last()[j] == q[i];
                assert(outs[j] == q[i]);
            } else {
                assert(outs[outs.len() - 1] == p[i]);
            }
        }
    }
}

/// A flattened folder name is a single safe path segment: whatever the
/// outcomes of sanitizing its pieces, it holds no '/', no '.' at either end and
/// never two '.' in a row.
pub proof fn law_folder_flat(folder: Seq<char>, outs: Seq<Seq<char>>)
    requires
        sanitized_segments(folder, outs),
    ensures
        flat_folder_name(join_dots(nonempty_parts(outs))),
{
    let segs = split_segments(folder);
    lemma_split_pieces(folder, Sep::FolderLevel);
    assert forall|j: int| 0 <= j < outs.len() implies no_level_sep(#[trigger] outs[j]) by {
        let t = trim(segs[j], Strip::Whitespace);
        let st = lemma_trim_piece(segs[j], Strip::Whitespace);
        assert(sanitize_outcome(t, outs[j]));
        lemma_outcome_chars(t, outs[j]);
        assert forall|k: int| 0 <= k < outs[j].len() implies #[trigger] outs[j][k] != '.'
            && !illegal_in_name(outs[j][k]) && !control_char(outs[j][k]) by {
            assert(t.contains(outs[j][k]));
            let m = choose|m: int| 0 <= m < t.len() && t[m] == outs[j][k];
            assert(t[m] == segs[j][st + m]);
            assert(!is_sep(Sep::FolderLevel, segs[j][st + m]));
        }
    }
    let parts = nonempty_parts(outs);
    lemma_nonempty_parts(outs);
    assert forall|i: int| 0 <= i < parts.len() implies (#[trigger] parts[i]).len() > 0
        && no_level_sep(parts[i]) by {
        let j = choose|j: int| 0 <= j < outs.len() && outs[j] == parts[i];
        assert(no_level_sep(outs[j]));
    }
    lemma_join_flat(parts);
}

/// `s` with each '/' replaced by '.'.
pub open spec fn slashes_as_dots(s: Seq<char>) -> Seq<char> {
    s.map_values(|c: char| if c == '/' { '.' } else { c })
}

proof fn lemma_split_slashes_as_dots(s: Seq<char>)
    ensures
        split_segments(slashes_as_dots(s)) == split_segments(s),
    decreases s.len(),
{
    if s.len() > 0 {
        lemma_split_slashes_as_dots(s.drop_last());
        assert(slashes_as_dots(s).drop_last() =~= slashes_as_dots(s.drop_last()));
        assert(slashes_as_dots(s).last() == if s.last() == '/' { '.' } else { s.last() });
    } else {
        assert(slashes_as_dots(s) =~= s);
    }
}

/// '/' and '.' separate the levels of a folder name alike: the name with its
/// '/' written as '.' has the same possible flattened names.
pub proof fn law_folder_separators_alike(folder: Seq<char>, outs: Seq<Seq<char>>)
    ensures
        sanitized_segments(slashes_as_dots(folder), outs) == sanitized_segments(folder, outs),
{
    lemma_split_slashes_as_dots(folder);
}

/// The name tried after a collision differs from the name that collided: it
/// is longer.
pub proof fn law_collision_name_differs(name: Seq<char>, index: nat)
    ensures
        collision_text(name, index).len() > name.len(),
        collision_text(name, index) != name,
{
    crate::naming::lemma_decimal_digits(index + 1);
    let p = last_dot(name);
    lemma_last_dot_bound(name);
    if p > 0 {
        assert(name.take(p).len() + name.skip(p + 1).len() + 1 == name.len());
    }
}

proof fn lemma_last_dot_bound(s: Seq<char>)
    ensures
        -1 <= last_dot(s) < s.len(),
        last_dot(s) >= 0 ==> s[last_dot(s)] == '.',
    decreases s.len(),
{
    if s.len() > 0 && s.last() != '.' {
        lemma_last_dot_bound(s.drop_last());
    }
}

} // verus!
