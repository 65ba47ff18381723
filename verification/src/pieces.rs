//! Small renderings that do not recurse into the tree: code blocks, links,
//! references, line splitting, prefixed blocks and ordered list markers.

use vstd::prelude::*;
use crate::node::{Tree, ReferenceKind};
use crate::text::{
    chars_of, decimal, digit_char, is_digit, is_white_space, is_whitespace, push_char, push_str,
    to_string, trim_end_newlines, trim_start_ws, trim_trailing_newlines,
};

verus! {

/// Three backticks.
pub open spec fn fence() -> Seq<char> {
    seq!['`', '`', '`']
}

/// `Some(s@)` for `Some(s)`.
pub open spec fn opt_view(o: Option<&str>) -> Option<Seq<char>> {
    match o {
        Some(s) => Some(s@),
        None => None,
    }
}

/// A fenced code block: the opening fence with the language and the meta
/// string, the code without trailing line breaks, and the closing fence.
pub open spec fn code_block(lang: Option<Seq<char>>, meta: Option<Seq<char>>, value: Seq<char>) -> Seq<char> {
    let opening = fence() + match lang {
        Some(l) => l,
        None => Seq::empty(),
    } + match meta {
        Some(m) => seq![' '] + m,
        None => Seq::empty(),
    };
    opening + seq!['\n'] + trim_end_newlines(value) + seq!['\n'] + fence()
}

fn push_fence(out: &mut String)
    ensures
        final(out)@ == old(out)@ + fence(),
{
    push_char(out, '`');
    push_char(out, '`');
    push_char(out, '`');
    assert(final(out)@ =~= old(out)@ + fence());
}

/// Renders a fenced code block.
pub fn render_code_block(lang: Option<&str>, meta: Option<&str>, value: &str) -> (r: String)
    ensures
        r@ == code_block(opt_view(lang), opt_view(meta), value@),
{
    let mut opening = String::new();
    push_fence(&mut opening);
    if let Some(lang) = lang {
        push_str(&mut opening, lang);
    }
    if let Some(meta) = meta {
        push_char(&mut opening, ' ');
        push_str(&mut opening, meta);
    }
    let mut out = opening;
    push_char(&mut out, '\n');
    push_str(&mut out, trim_trailing_newlines(value).as_str());
    push_char(&mut out, '\n');
    push_fence(&mut out);
    proof {
        let l = match opt_view(lang) {
            Some(l) => l,
            None => Seq::<char>::empty(),
        };
        let m = match opt_view(meta) {
            Some(m) => seq![' '] + m,
            None => Seq::<char>::empty(),
        };
        assert(out@ =~= code_block(opt_view(lang), opt_view(meta), value@));
    }
    out
}

/// `" \"title\""` for a title, nothing without one.
pub open spec fn title_suffix(title: Option<Seq<char>>) -> Seq<char> {
    match title {
        Some(t) => seq![' ', '"'] + t + seq!['"'],
        None => Seq::empty(),
    }
}

/// The view of an optional owned string.
pub open spec fn opt_string_view(o: Option<String>) -> Option<Seq<char>> {
    match o {
        Some(s) => Some(s@),
        None => None,
    }
}

/// A link or image: the label, then the destination and title in brackets.
pub open spec fn resource(label: Seq<char>, url: Seq<char>, title: Option<Seq<char>>) -> Seq<char> {
    label + seq!['('] + url + title_suffix(title) + seq![')']
}

pub(crate) fn push_title(out: &mut String, title: &Option<String>)
    ensures
        final(out)@ == old(out)@ + title_suffix(opt_string_view(*title)),
{
    if let Some(title) = title {
        push_char(out, ' ');
        push_char(out, '"');
        push_str(out, title.as_str());
        push_char(out, '"');
        assert(final(out)@ =~= old(out)@ + title_suffix(opt_string_view(Some(*title))));
    } else {
        assert(final(out)@ =~= old(out)@ + title_suffix(None));
    }
}

/// Renders a link or an image: `label(url "title")`.
pub fn render_resource(label: &str, url: &str, title: &Option<String>) -> (r: String)
    ensures
        r@ == resource(label@, url@, opt_string_view(*title)),
{
    let mut output = to_string(label);
    push_char(&mut output, '(');
    push_str(&mut output, url);
    push_title(&mut output, title);
    push_char(&mut output, ')');
    assert(output@ =~= resource(label@, url@, opt_string_view(*title)));
    output
}

/// A reference: the label alone, with `[]`, or with the identifier.
pub open spec fn reference(label: Seq<char>, identifier: Seq<char>, kind: ReferenceKind) -> Seq<char> {
    match kind {
        ReferenceKind::Shortcut => label,
        ReferenceKind::Collapsed => label + seq!['[', ']'],
        ReferenceKind::Full => label + seq!['['] + identifier + seq![']'],
    }
}

/// Renders a link or image reference.
pub fn render_reference(label: &str, identifier: &str, reference_kind: ReferenceKind) -> (r: String)
    ensures
        r@ == reference(label@, identifier@, reference_kind),
{
    let mut output = to_string(label);
    match reference_kind {
        ReferenceKind::Shortcut => {},
        ReferenceKind::Collapsed => {
            push_char(&mut output, '[');
            push_char(&mut output, ']');
        },
        ReferenceKind::Full => {
            push_char(&mut output, '[');
            push_str(&mut output, identifier);
            push_char(&mut output, ']');
        },
    }
    assert(output@ =~= reference(label@, identifier@, reference_kind));
    output
}

// ---------------------------------------------------------------------------
// Lines
// ---------------------------------------------------------------------------

/// The index of the first `'\n'` at or after `i`, or the length.
pub open spec fn line_end(s: Seq<char>, i: int) -> int
    decreases s.len() - i,
{
    if i < 0 || i >= s.len() || s[i] == '\n' {
        i
    } else {
        line_end(s, i + 1)
    }
}

pub proof fn lemma_line_end(s: Seq<char>, i: int)
    requires
        0 <= i <= s.len(),
    ensures
        i <= line_end(s, i) <= s.len(),
        forall|k: int| i <= k < line_end(s, i) ==> s[k] != '\n',
        line_end(s, i) < s.len() ==> s[line_end(s, i)] == '\n',
    decreases s.len() - i,
{
    if i < s.len() && s[i] != '\n' {
        lemma_line_end(s, i + 1);
    }
}

/// The lines of `s[i..]` as `str::lines` yields them: split at `'\n'`, a
/// `'\r'` before a `'\n'` dropped, no empty line after a final `'\n'`.
pub open spec fn lines_from(s: Seq<char>, i: int) -> Seq<Seq<char>>
    decreases s.len() - i,
{
    if i < 0 || i >= s.len() {
        Seq::empty()
    } else {
        let e = line_end(s, i);
        proof {
            lemma_line_end(s, i);
        }
        let seg = s.subrange(i, e);
        if e < s.len() {
            let l = if seg.len() > 0 && seg.last() == '\r' {
                seg.drop_last()
            } else {
                seg
            };
            seq![l] + lines_from(s, e + 1)
        } else {
            seq![seg]
        }
    }
}

/// The lines of `s`.
pub open spec fn lines_of(s: Seq<char>) -> Seq<Seq<char>> {
    lines_from(s, 0)
}

/// `s[from..to]` as a string.
fn substring(cs: &Vec<char>, from: usize, to: usize) -> (r: String)
    requires
        from <= to <= cs@.len(),
    ensures
        r@ == cs@.subrange(from as int, to as int),
{
    let mut r = String::new();
    let mut i = from;
    while i < to
        invariant
            from <= i <= to <= cs@.len(),
            r@ == cs@.subrange(from as int, i as int),
        decreases to - i,
    {
        push_char(&mut r, cs[i]);
        i = i + 1;
        assert(r@ =~= cs@.subrange(from as int, i as int));
    }
    r
}

/// The lines of a string, as `str::lines` yields them.
pub fn split_lines(s: &str) -> (r: Vec<String>)
    ensures
        r@.map_values(|l: String| l@) == lines_of(s@),
{
    let cs = chars_of(s);
    let mut out: Vec<String> = Vec::new();
    let mut i: usize = 0;
    while i < cs.len()
        invariant
            i <= cs@.len(),
            cs@ == s@,
            lines_of(s@) == out@.map_values(|l: String| l@) + lines_from(s@, i as int),
        decreases cs@.len() - i,
    {
        proof {
            lemma_line_end(s@, i as int);
        }
        let mut e = i;
        while e < cs.len() && cs[e] != '\n'
            invariant
                i <= e <= cs@.len(),
                cs@ == s@,
                line_end(s@, i as int) == line_end(s@, e as int),
            decreases cs@.len() - e,
        {
            e = e + 1;
        }
        let ghost before = out@.map_values(|l: String| l@);
        if e < cs.len() {
            let end = if e > i && cs[e - 1] == '\r' {
                e - 1
            } else {
                e
            };
            let line = substring(&cs, i, end);
            proof {
                let seg = s@.subrange(i as int, e as int);
                if e > i && cs@[e - 1] == '\r' {
                    assert(seg.drop_last() =~= s@.subrange(i as int, end as int));
                }
            }
            out.push(line);
            assert(out@.map_values(|l: String| l@) =~= before.push(line@));
            i = e + 1;
        } else {
            let line = substring(&cs, i, e);
            out.push(line);
            assert(out@.map_values(|l: String| l@) =~= before.push(line@));
            i = e;
        }
    }
    out
}

/// The lines after the first, each after a newline and, when not empty,
/// after the continuation prefix; for the first `n` lines.
pub open spec fn prefixed_rest(ls: Seq<Seq<char>>, cont: Seq<char>, n: int) -> Seq<char>
    decreases n,
{
    if n <= 1 || n > ls.len() {
        Seq::empty()
    } else {
        prefixed_rest(ls, cont, n - 1) + seq!['\n'] + if ls[n - 1].len() == 0 {
            Seq::empty()
        } else {
            cont + ls[n - 1]
        }
    }
}

/// A block whose first line starts with `first` and whose other non-empty
/// lines start with `cont`; empty lines stay empty (the first keeps its
/// prefix).
pub open spec fn prefixed(block: Seq<char>, first: Seq<char>, cont: Seq<char>) -> Seq<char> {
    let ls = lines_of(block);
    if ls.len() == 0 {
        Seq::empty()
    } else {
        (if ls[0].len() > 0 {
            first + ls[0]
        } else {
            first
        }) + prefixed_rest(ls, cont, ls.len() as int)
    }
}

/// Prefixes the lines of a block.
pub fn render_prefixed_block(block: &str, first_prefix: &str, continuation_prefix: &str) -> (r: String)
    ensures
        r@ == prefixed(block@, first_prefix@, continuation_prefix@),
{
    let lines = split_lines(block);
    let ghost ls = lines@.map_values(|l: String| l@);
    if lines.len() == 0 {
        return String::new();
    }
    let mut output = to_string(first_prefix);
    assert(ls[0] == lines@[0]@);
    if lines[0].unicode_len() > 0 {
        push_str(&mut output, lines[0].as_str());
    }
    let mut i: usize = 1;
    assert(output@ =~= (if ls[0].len() > 0 {
        first_prefix@ + ls[0]
    } else {
        first_prefix@
    }) + prefixed_rest(ls, continuation_prefix@, 1));
    while i < lines.len()
        invariant
            1 <= i <= lines@.len(),
            ls == lines@.map_values(|l: String| l@),
            output@ == (if ls[0].len() > 0 {
                first_prefix@ + ls[0]
            } else {
                first_prefix@
            }) + prefixed_rest(ls, continuation_prefix@, i as int),
        decreases lines@.len() - i,
    {
        let ghost before = output@;
        assert(ls[i as int] == lines@[i as int]@);
        push_char(&mut output, '\n');
        if lines[i].unicode_len() > 0 {
            push_str(&mut output, continuation_prefix);
            push_str(&mut output, lines[i].as_str());
        }
        i = i + 1;
        assert(output@ =~= (if ls[0].len() > 0 {
            first_prefix@ + ls[0]
        } else {
            first_prefix@
        }) + prefixed_rest(ls, continuation_prefix@, i as int));
    }
    output
}

// ---------------------------------------------------------------------------
// Ordered list markers
// ---------------------------------------------------------------------------

/// The ASCII digit for `d < 10`.
fn digit(d: u64) -> (c: char)
    requires
        d < 10,
    ensures
        c == digit_char(d as nat),
{
    if d == 0 { '0' }
    else if d == 1 { '1' }
    else if d == 2 { '2' }
    else if d == 3 { '3' }
    else if d == 4 { '4' }
    else if d == 5 { '5' }
    else if d == 6 { '6' }
    else if d == 7 { '7' }
    else if d == 8 { '8' }
    else { '9' }
}

/// The decimal digits of `n`.
pub fn decimal_string(n: u64) -> (r: String)
    ensures
        r@ == decimal(n as nat),
    decreases n,
{
    if n < 10 {
        let mut r = String::new();
        push_char(&mut r, digit(n));
        assert(r@ =~= seq![digit_char(n as nat)]);
        r
    } else {
        let mut r = decimal_string(n / 10);
        push_char(&mut r, digit(n % 10));
        r
    }
}

/// The leading ASCII digits of `s`.
pub open spec fn digit_prefix_len(s: Seq<char>, i: int) -> int
    decreases s.len() - i,
{
    if 0 <= i < s.len() && is_digit(s[i]) {
        digit_prefix_len(s, i + 1)
    } else {
        i
    }
}

/// The marker of an ordered list item: the number and delimiter the item
/// has in the source, or `fallback` followed by `.`.
pub open spec fn ordered_marker(node: Tree, fallback: nat, input: Seq<char>) -> Seq<char> {
    let fb = decimal(fallback) + seq!['.'];
    match node {
        Tree::ListItem { start_line, .. } => match start_line {
            Some(line) => {
                let ls = lines_of(input);
                let idx = if line >= 1 {
                    line - 1
                } else {
                    0
                };
                if idx < ls.len() {
                    let t = trim_start_ws(ls[idx]);
                    let d = digit_prefix_len(t, 0);
                    if 0 < d < t.len() && (t[d] == '.' || t[d] == ')') {
                        t.take(d + 1)
                    } else {
                        fb
                    }
                } else {
                    fb
                }
            },
            None => fb,
        },
        _ => fb,
    }
}

proof fn lemma_trim_start_ws_skip(s: Seq<char>, i: int)
    requires
        0 <= i <= s.len(),
        forall|k: int| 0 <= k < i ==> is_white_space(#[trigger] s[k]),
    ensures
        trim_start_ws(s) == trim_start_ws(s.skip(i)),
    decreases i,
{
    if i > 0 {
        assert(s.drop_first().skip(i - 1) =~= s.skip(i));
        lemma_trim_start_ws_skip(s.drop_first(), i - 1);
    } else {
        assert(s.skip(0) =~= s);
    }
}

/// The marker for an ordered list item.
pub fn ordered_list_marker(node: &Tree, fallback: u32, input: &str) -> (r: String)
    ensures
        r@ == ordered_marker(*node, fallback as nat, input@),
{
    let mut fb = decimal_string(fallback as u64);
    push_char(&mut fb, '.');
    let line = match node {
        Tree::ListItem { start_line, .. } => match start_line {
            Some(line) => *line,
            None => return fb,
        },
        _ => return fb,
    };
    let lines = split_lines(input);
    let idx = line.saturating_sub(1);
    if idx >= lines.len() {
        return fb;
    }
    let chars = chars_of(lines[idx].as_str());
    let ghost ls = lines@.map_values(|l: String| l@);
    assert(chars@ == ls[idx as int]);
    let mut start: usize = 0;
    while start < chars.len() && is_whitespace(chars[start])
        invariant
            start <= chars@.len(),
            forall|k: int| 0 <= k < start ==> is_white_space(#[trigger] chars@[k]),
        decreases chars@.len() - start,
    {
        start = start + 1;
    }
    proof {
        lemma_trim_start_ws_skip(chars@, start as int);
        assert(trim_start_ws(chars@.skip(start as int)) == chars@.skip(start as int));
    }
    let ghost t = chars@.skip(start as int);
    let mut end = start;
    while end < chars.len() && '0' <= chars[end] && chars[end] <= '9'
        invariant
            start <= end <= chars@.len(),
            t == chars@.skip(start as int),
            digit_prefix_len(t, 0) == digit_prefix_len(t, end - start),
        decreases chars@.len() - end,
    {
        end = end + 1;
    }
    if end > start && end < chars.len() && (chars[end] == '.' || chars[end] == ')') {
        let marker = substring(&chars, start, end + 1);
        assert(marker@ =~= t.take(end - start + 1));
        marker
    } else {
        fb
    }
}

} // verus!
