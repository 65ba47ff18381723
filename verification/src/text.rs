//! Characters and strings: display widths, character classes, and the small
//! string operations the formatter is built from.

use vstd::prelude::*;

verus! {

// ---------------------------------------------------------------------------
// Display widths (unicode-width) and character classes (std)
// ---------------------------------------------------------------------------

/// What `unicode_width::UnicodeWidthChar::width` returns for a character.
pub uninterp spec fn unicode_char_width(c: char) -> Option<usize>;

/// What `unicode_width::UnicodeWidthStr::width` returns for a string.
pub uninterp spec fn unicode_str_width(s: Seq<char>) -> usize;

/// What `char::is_alphanumeric` returns (Unicode `Alphabetic` or `Numeric`).
pub uninterp spec fn unicode_is_alphanumeric(c: char) -> bool;

/// Calls `unicode_width::UnicodeWidthChar::width`. The result is the name
/// `unicode_char_width`; beyond that the crate's source fixes the result for
/// the control and ASCII ranges: no width below U+0020 and in U+007F..U+009F,
/// one column for U+0020..U+007E, and some width from U+00A0 on.
#[verifier::external_body]
pub(crate) fn char_width(c: char) -> (r: Option<usize>)
    ensures
        r == unicode_char_width(c),
        (c as u32) < 0x20 ==> r is None,
        0x20 <= (c as u32) < 0x7f ==> r == Some(1usize),
        0x7f <= (c as u32) < 0xa0 ==> r is None,
        0xa0 <= (c as u32) ==> r is Some,
{
    unicode_width::UnicodeWidthChar::width(c)
}

/// Every character is printable ASCII (U+0020..U+007E).
pub open spec fn printable_ascii(s: Seq<char>) -> bool {
    forall|i: int| 0 <= i < s.len() ==> 0x20 <= (#[trigger] s[i]) as u32 <= 0x7e
}

/// Calls `unicode_width::UnicodeWidthStr::width`; its result is named
/// `unicode_str_width`. The crate's source (`lookup::str_width`, a fold over
/// the characters) adds one column for each printable ASCII character, so a
/// string made only of them (the empty string too) is as wide as it is long;
/// other strings are not sums of character widths in general, and nothing
/// more is stated of them.
#[verifier::external_body]
pub(crate) fn str_width(s: &str) -> (r: usize)
    ensures
        r == unicode_str_width(s@),
        printable_ascii(s@) ==> r == s@.len(),
{
    unicode_width::UnicodeWidthStr::width(s)
}

/// Calls `char::is_alphanumeric`; its result is named `unicode_is_alphanumeric`.
/// std documents it as the `Alphabetic` or `Numeric` property, which among
/// ASCII characters holds exactly for letters and digits.
#[verifier::external_body]
pub(crate) fn is_alphanumeric(c: char) -> (r: bool)
    ensures
        r == unicode_is_alphanumeric(c),
        (c as u32) < 0x80 ==> (r <==> (('0' <= c && c <= '9') || ('a' <= c && c <= 'z') || ('A'
            <= c && c <= 'Z'))),
{
    c.is_alphanumeric()
}

/// Whether `c` is alphanumeric: an ASCII letter or digit, or beyond ASCII
/// what `char::is_alphanumeric` says.
pub open spec fn alphanumeric(c: char) -> bool {
    if (c as u32) < 0x80 {
        ('0' <= c && c <= '9') || ('a' <= c && c <= 'z') || ('A' <= c && c <= 'Z')
    } else {
        unicode_is_alphanumeric(c)
    }
}

/// The Unicode `White_Space` property (PropList.txt).
pub open spec fn is_white_space(c: char) -> bool {
    let u = c as u32;
    ||| 0x09 <= u <= 0x0d
    ||| u == 0x20
    ||| u == 0x85
    ||| u == 0xa0
    ||| u == 0x1680
    ||| 0x2000 <= u <= 0x200a
    ||| u == 0x2028
    ||| u == 0x2029
    ||| u == 0x202f
    ||| u == 0x205f
    ||| u == 0x3000
}

/// Whether `c` has the Unicode `White_Space` property (what
/// `char::is_whitespace` tests).
pub fn is_whitespace(c: char) -> (r: bool)
    ensures
        r == is_white_space(c),
{
    let u = c as u32;
    (0x09 <= u && u <= 0x0d) || u == 0x20 || u == 0x85 || u == 0xa0 || u == 0x1680 || (0x2000
        <= u && u <= 0x200a) || u == 0x2028 || u == 0x2029 || u == 0x202f || u == 0x205f || u
        == 0x3000
}

/// Calls `String::push`, which appends one character.
#[verifier::external_body]
pub(crate) fn push_char(s: &mut String, c: char)
    ensures
        final(s)@ == old(s)@.push(c),
{
    s.push(c)
}

/// Columns a character takes: its width, or 0 where it has none (one for
/// printable ASCII, none for control characters).
pub open spec fn char_cols(c: char) -> nat {
    let u = c as u32;
    if 0x20 <= u < 0x7f {
        1
    } else if u < 0xa0 {
        0
    } else {
        match unicode_char_width(c) {
            Some(w) => w as nat,
            None => 0,
        }
    }
}

/// Columns a string takes as unicode-width counts them: one per character
/// for printable ASCII.
pub open spec fn str_cols(s: Seq<char>) -> nat {
    if printable_ascii(s) {
        s.len()
    } else {
        unicode_str_width(s) as nat
    }
}

/// `UnicodeWidthChar::width(c).unwrap_or(0)`.
pub fn char_columns(c: char) -> (r: usize)
    ensures
        r == char_cols(c),
{
    match char_width(c) {
        Some(w) => w,
        None => 0,
    }
}

// ---------------------------------------------------------------------------
// Sequences of characters
// ---------------------------------------------------------------------------

/// `n` copies of `c`.
pub open spec fn repeat_char(c: char, n: nat) -> Seq<char> {
    Seq::new(n, |i: int| c)
}

/// `s` without trailing spaces.
pub open spec fn trim_end_spaces(s: Seq<char>) -> Seq<char>
    decreases s.len(),
{
    if s.len() > 0 && s.last() == ' ' {
        trim_end_spaces(s.drop_last())
    } else {
        s
    }
}

/// Whether `c` is `'\n'` or `'\r'`.
pub open spec fn is_newline(c: char) -> bool {
    c == '\n' || c == '\r'
}

/// `s` without trailing `'\n'` and `'\r'` characters.
pub open spec fn trim_end_newlines(s: Seq<char>) -> Seq<char>
    decreases s.len(),
{
    if s.len() > 0 && is_newline(s.last()) {
        trim_end_newlines(s.drop_last())
    } else {
        s
    }
}

/// Trimming line breaks keeps a prefix of the text, removes only `'\n'`
/// and `'\r'` characters, and leaves none at the end; trimming again
/// changes nothing.
pub proof fn lemma_trim_end_newlines(s: Seq<char>)
    ensures
        trim_end_newlines(s).len() <= s.len(),
        s.take(trim_end_newlines(s).len() as int) == trim_end_newlines(s),
        forall|k: int| trim_end_newlines(s).len() <= k < s.len() ==> is_newline(#[trigger] s[k]),
        trim_end_newlines(s).len() == 0 || !is_newline(trim_end_newlines(s).last()),
        trim_end_newlines(trim_end_newlines(s)) == trim_end_newlines(s),
    decreases s.len(),
{
    if s.len() > 0 && is_newline(s.last()) {
        lemma_trim_end_newlines(s.drop_last());
        let t = trim_end_newlines(s.drop_last());
        assert(s.take(t.len() as int) =~= s.drop_last().take(t.len() as int));
        assert forall|k: int| t.len() <= k < s.len() implies is_newline(#[trigger] s[k]) by {
            if k < s.len() - 1 {
                assert(s[k] == s.drop_last()[k]);
            }
        }
    } else {
        assert(s.take(s.len() as int) =~= s);
    }
}

/// `s` without leading whitespace.
pub open spec fn trim_start_ws(s: Seq<char>) -> Seq<char>
    decreases s.len(),
{
    if s.len() > 0 && is_white_space(s[0]) {
        trim_start_ws(s.drop_first())
    } else {
        s
    }
}

/// The pieces joined with `sep` between consecutive pieces.
pub open spec fn join(pieces: Seq<Seq<char>>, sep: Seq<char>) -> Seq<char>
    decreases pieces.len(),
{
    if pieces.len() == 0 {
        Seq::empty()
    } else if pieces.len() == 1 {
        pieces[0]
    } else {
        join(pieces.drop_last(), sep) + sep + pieces.last()
    }
}

/// The pieces one after another.
pub open spec fn concat(pieces: Seq<Seq<char>>) -> Seq<char>
    decreases pieces.len(),
{
    if pieces.len() == 0 {
        Seq::empty()
    } else {
        concat(pieces.drop_last()) + pieces.last()
    }
}

/// The decimal digits of `n`, without leading zeros (`"0"` for zero).
pub open spec fn decimal(n: nat) -> Seq<char>
    decreases n,
{
    if n < 10 {
        seq![digit_char(n)]
    } else {
        decimal(n / 10).push(digit_char(n % 10))
    }
}

/// The ASCII digit for `d < 10`.
pub open spec fn digit_char(d: nat) -> char {
    if d == 0 { '0' }
    else if d == 1 { '1' }
    else if d == 2 { '2' }
    else if d == 3 { '3' }
    else if d == 4 { '4' }
    else if d == 5 { '5' }
    else if d == 6 { '6' }
    else if d == 7 { '7' }
    else if d == 8 { '8' }
    else { '9' }
}

/// An ASCII decimal digit.
pub open spec fn is_digit(c: char) -> bool {
    '0' <= c && c <= '9'
}

// ---------------------------------------------------------------------------
// Executable string operations
// ---------------------------------------------------------------------------

/// A copy of a string slice.
pub fn to_string(s: &str) -> (r: String)
    ensures
        r@ == s@,
{
    String::from_str(s)
}

/// Appends `t` to `s`.
pub fn push_str(s: &mut String, t: &str)
    ensures
        final(s)@ == old(s)@ + t@,
{
    s.append(t)
}

/// `n` copies of `c`.
pub fn repeat(c: char, n: usize) -> (r: String)
    ensures
        r@ == repeat_char(c, n as nat),
{
    let mut r = String::new();
    let mut i: usize = 0;
    while i < n
        invariant
            i <= n,
            r@ == repeat_char(c, i as nat),
        decreases n - i,
    {
        push_char(&mut r, c);
        i = i + 1;
        assert(r@ =~= repeat_char(c, i as nat));
    }
    r
}

/// The characters of a string slice, in order.
pub fn chars_of(s: &str) -> (out: Vec<char>)
    ensures
        out@ == s@,
{
    let mut out: Vec<char> = Vec::new();
    for c in it: s.chars()
        invariant
            out@ == it.seq().take(it.index() as int),
            it.seq() == s@,
    {
        out.push(c);
    }
    out
}

/// Whether `s` is empty.
pub fn is_empty(s: &str) -> (r: bool)
    ensures
        r == (s@.len() == 0),
{
    s.unicode_len() == 0
}

/// The first `n` characters of `cs` as a string.
pub fn from_char_prefix(cs: &Vec<char>, n: usize) -> (r: String)
    requires
        n <= cs@.len(),
    ensures
        r@ == cs@.take(n as int),
{
    let mut r = String::new();
    let mut i: usize = 0;
    while i < n
        invariant
            i <= n <= cs@.len(),
            r@ == cs@.take(i as int),
        decreases n - i,
    {
        push_char(&mut r, cs[i]);
        i = i + 1;
        assert(r@ =~= cs@.take(i as int));
    }
    r
}

/// Whether `c` is dropped from the end: a space, or with `newlines` a
/// `'\n'` or `'\r'`.
fn trims(c: char, newlines: bool) -> (r: bool)
    ensures
        r == if newlines { is_newline(c) } else { c == ' ' },
{
    if newlines {
        c == '\n' || c == '\r'
    } else {
        c == ' '
    }
}

/// Length of `cs` once its trailing spaces (or, with `newlines`, its
/// trailing `'\n'`/`'\r'` characters) are dropped.
fn trimmed_len(cs: &Vec<char>, newlines: bool) -> (r: usize)
    ensures
        r <= cs@.len(),
        newlines ==> cs@.take(r as int) == trim_end_newlines(cs@),
        !newlines ==> cs@.take(r as int) == trim_end_spaces(cs@),
{
    let mut n = cs.len();
    proof {
        assert(cs@.take(n as int) =~= cs@);
    }
    while n > 0 && trims(cs[n - 1], newlines)
        invariant
            n <= cs@.len(),
            newlines ==> trim_end_newlines(cs@.take(n as int)) == trim_end_newlines(cs@),
            !newlines ==> trim_end_spaces(cs@.take(n as int)) == trim_end_spaces(cs@),
        decreases n,
    {
        proof {
            let t = cs@.take(n as int);
            assert(t.drop_last() =~= cs@.take(n - 1));
        }
        n = n - 1;
    }
    n
}

/// `value.trim_end_matches(['\n', '\r'])`.
pub fn trim_trailing_newlines(value: &str) -> (r: String)
    ensures
        r@ == trim_end_newlines(value@),
{
    let cs = chars_of(value);
    let n = trimmed_len(&cs, true);
    from_char_prefix(&cs, n)
}

/// The string without trailing spaces (`while s.ends_with(' ') { s.pop(); }`).
pub fn trim_trailing_spaces(s: &str) -> (r: String)
    ensures
        r@ == trim_end_spaces(s@),
{
    let cs = chars_of(s);
    let n = trimmed_len(&cs, false);
    from_char_prefix(&cs, n)
}

/// The views of the strings, in order.
pub open spec fn strings_view(v: Seq<String>) -> Seq<Seq<char>> {
    v.map_values(|s: String| s@)
}

/// The strings joined with `sep` between consecutive ones.
pub fn join_with(pieces: &Vec<String>, sep: &str) -> (r: String)
    ensures
        r@ == join(strings_view(pieces@), sep@),
{
    let ghost ps = strings_view(pieces@);
    if pieces.len() == 0 {
        return String::new();
    }
    let mut out = pieces[0].clone();
    let mut i: usize = 1;
    assert(ps.take(1) =~= seq![ps[0]]);
    while i < pieces.len()
        invariant
            1 <= i <= pieces@.len(),
            ps == strings_view(pieces@),
            out@ == join(ps.take(i as int), sep@),
        decreases pieces@.len() - i,
    {
        proof {
            assert(ps.take(i + 1).drop_last() =~= ps.take(i as int));
        }
        push_str(&mut out, sep);
        push_str(&mut out, pieces[i].as_str());
        i = i + 1;
        assert(out@ =~= join(ps.take(i as int), sep@));
    }
    assert(ps.take(pieces@.len() as int) =~= ps);
    out
}

} // verus!
