//! Wrapping plain words: for printable ASCII words separated by single
//! spaces, none longer than the room a line leaves after its prefix, every
//! line break takes the place of exactly one space and no word is split.

use vstd::prelude::*;
use crate::normalize::{
    collapse_run, has_newline, last_visible, lemma_run_end, normalize_from, normalized,
    run_end, visible_unit,
};
use crate::text::{is_white_space, join, printable_ascii, str_cols, trim_end_spaces};
use crate::units::BreakableUnit;
use crate::wrap::{
    all_breakpoints, append_unit, append_units, build, build_from, chosen_break, collect_from,
    collect_units, current_prefix, empty_line, flush_into, last_allowed, lemma_build_wf,
    lemma_push_unit_wf, lemma_split_rest_smaller, line_wf, push_unit, raw_part, raw_parts, raw_units,
    render_parts, scan_units, split_from, split_parts, wrap_from, wrap_lines, BreakView,
    Collected, FragmentView, PartView, WrapView, MAX_LINE_WIDTH,
};

verus! {

/// `s[i..j]` holds no space.
pub open spec fn space_free(s: Seq<char>, i: int, j: int) -> bool {
    forall|k: int| i <= k < j ==> s[k] != ' '
}

/// No second space follows a space at `i`.
pub open spec fn single_space_at(s: Seq<char>, i: int) -> bool {
    s[i] == ' ' ==> s[i + 1] != ' '
}

/// Printable ASCII words separated by single spaces, with no space at
/// either end, none longer than `room` characters.
pub open spec fn plain_words(s: Seq<char>, room: int) -> bool {
    &&& s.len() > 0
    &&& printable_ascii(s)
    &&& s[0] != ' '
    &&& s.last() != ' '
    &&& forall|i: int| 0 <= i < s.len() - 1 ==> #[trigger] single_space_at(s, i)
    &&& forall|i: int, j: int|
        0 <= i <= j <= s.len() && #[trigger] space_free(s, i, j) ==> j - i <= room
}

/// The units that print the characters of `s`.
pub open spec fn char_units(s: Seq<char>) -> Seq<BreakableUnit> {
    Seq::new(s.len(), |i: int| visible_unit(s[i]))
}

// ---------------------------------------------------------------------------
// Normalising plain words
// ---------------------------------------------------------------------------

/// A printable ASCII character other than the space is not whitespace.
proof fn lemma_printable_not_white(c: char)
    requires
        c != ' ',
        0x20 <= c as u32 <= 0x7e,
    ensures
        !is_white_space(c),
{
    if c as u32 == 0x20 {
        vstd::utf8::char_u32_cast(c, 0x20);
        vstd::utf8::char_u32_cast(' ', 0x20);
    }
}

proof fn lemma_last_visible_chars(s: Seq<char>)
    requires
        s.len() > 0,
    ensures
        last_visible(char_units(s)) == Some(s.last()),
{
    assert(char_units(s).last() == visible_unit(s.last()));
}

proof fn lemma_normalize_words_from(s: Seq<char>, i: int, room: int)
    requires
        plain_words(s, room),
        0 <= i <= s.len(),
        i < s.len() ==> s[i] != ' ',
    ensures
        normalize_from(s, i, char_units(s.take(i)), None, None) == char_units(s),
    decreases s.len() - i,
{
    if i == s.len() {
        assert(s.take(i) =~= s);
    } else {
        let c = s[i];
        lemma_printable_not_white(c);
        assert(char_units(s.take(i)).push(visible_unit(c)) =~= char_units(s.take(i + 1)));
        assert(normalize_from(s, i, char_units(s.take(i)), None, None) == normalize_from(
            s,
            i + 1,
            char_units(s.take(i + 1)),
            None,
            None,
        ));
        if i + 1 < s.len() && s[i + 1] == ' ' {
            let j = i + 1;
            assert(j + 1 < s.len());
            assert(single_space_at(s, j));
            assert(s[j + 1] != ' ');
            lemma_printable_not_white(s[j + 1]);
            assert(is_white_space(s[j]));
            assert(run_end(s, j + 1) == j + 1);
            assert(run_end(s, j) == j + 1);
            let acc = char_units(s.take(j));
            lemma_last_visible_chars(s.take(j));
            assert(!has_newline(s, j, j + 1)) by {
                if has_newline(s, j, j + 1) {
                    let k = choose|k: int| j <= k < j + 1 && #[trigger] crate::text::is_newline(s[k]);
                    assert(k == j);
                }
            }
            assert(crate::text::char_cols(s[i]) == 1);
            assert(acc.last() == visible_unit(s[i]));
            assert(collapse_run(acc, s, j, j + 1, None, None) == acc.push(visible_unit(' ')));
            assert(acc.push(visible_unit(' ')) =~= char_units(s.take(j + 1)));
            lemma_run_end(s, j);
            assert(normalize_from(s, j, acc, None, None) == normalize_from(
                s,
                j + 1,
                char_units(s.take(j + 1)),
                None,
                None,
            ));
            lemma_normalize_words_from(s, j + 1, room);
        } else {
            lemma_normalize_words_from(s, i + 1, room);
        }
    }
}

/// Normalising plain words gives one visible unit per character.
pub proof fn lemma_normalize_words(s: Seq<char>, room: int)
    requires
        plain_words(s, room),
    ensures
        normalized(s, None, None) == char_units(s),
{
    assert(char_units(s.take(0)) =~= Seq::<BreakableUnit>::empty());
    lemma_normalize_words_from(s, 0, room);
}

// ---------------------------------------------------------------------------
// Lines of plain characters
// ---------------------------------------------------------------------------

/// The index of the last space in `cur[..m]`, or -1.
pub open spec fn last_space(cur: Seq<char>, m: int) -> int
    decreases m,
{
    if m <= 0 {
        -1
    } else if cur[m - 1] == ' ' {
        m - 1
    } else {
        last_space(cur, m - 1)
    }
}

proof fn lemma_last_space(cur: Seq<char>, m: int)
    requires
        0 <= m <= cur.len(),
    ensures
        -1 <= last_space(cur, m) < m,
        last_space(cur, m) >= 0 ==> cur[last_space(cur, m)] == ' ',
        forall|k: int| last_space(cur, m) < k < m ==> cur[k] != ' ',
    decreases m,
{
    if m > 0 {
        lemma_last_space(cur, m - 1);
    }
}

/// The units of printable characters print those characters.
proof fn lemma_raw_char_units(x: Seq<char>)
    ensures
        raw_units(char_units(x)) == x,
    decreases x.len(),
{
    if x.len() > 0 {
        assert(char_units(x).drop_last() =~= char_units(x.drop_last()));
        lemma_raw_char_units(x.drop_last());
        assert(char_units(x).last() == visible_unit(x.last()));
        assert(x =~= x.drop_last().push(x.last()));
    } else {
        assert(char_units(x) =~= Seq::<BreakableUnit>::empty());
    }
}

/// The text of a line made of one part of character units.
proof fn lemma_render_chars(x: Seq<char>)
    ensures
        raw_parts(seq![PartView::Breakable(char_units(x))]) == x,
        render_parts(seq![PartView::Breakable(char_units(x))]) == trim_end_spaces(x),
{
    let ps = seq![PartView::Breakable(char_units(x))];
    assert(ps.drop_last() =~= Seq::<PartView>::empty());
    lemma_raw_char_units(x);
    assert(raw_parts(ps.drop_last()) =~= Seq::<char>::empty());
    assert(ps.last() == PartView::Breakable(char_units(x)));
    assert(raw_parts(ps) == raw_parts(ps.drop_last()) + raw_part(ps.last()));
    assert(raw_parts(ps) =~= x);
}

/// Trimming a text that does not end in a space changes nothing.
proof fn lemma_trim_no_trailing(x: Seq<char>)
    requires
        x.len() > 0,
        x.last() != ' ',
    ensures
        trim_end_spaces(x) == x,
{
}

/// Counting printable characters adds one column each and remembers no
/// preferred break.
proof fn lemma_scan_chars(acc: crate::wrap::LineView, x: Seq<char>, m: int)
    requires
        0 <= m <= x.len(),
        printable_ascii(x),
        acc.width + x.len() <= usize::MAX,
    ensures
        scan_units(acc, 0, char_units(x), m).width == acc.width + m,
        scan_units(acc, 0, char_units(x), m).preferred == acc.preferred,
    decreases m,
{
    if m > 0 {
        lemma_scan_chars(acc, x, m - 1);
        assert(char_units(x)[m - 1] == visible_unit(x[m - 1]));
        assert(0x20 <= x[m - 1] as u32 <= 0x7e);
    }
}

/// A line built from one part of printable characters.
proof fn lemma_build_chars(x: Seq<char>)
    requires
        0 < x.len() <= MAX_LINE_WIDTH,
        printable_ascii(x),
    ensures
        build(seq![PartView::Breakable(char_units(x))]).parts == seq![PartView::Breakable(char_units(x))],
        build(seq![PartView::Breakable(char_units(x))]).width == x.len(),
        build(seq![PartView::Breakable(char_units(x))]).preferred is None,
        line_wf(build(seq![PartView::Breakable(char_units(x))])),
{
    let ps = seq![PartView::Breakable(char_units(x))];
    lemma_scan_chars(empty_line(), x, x.len() as int);
    assert(build_from(ps, 0) == empty_line());
    assert(empty_line().parts.push(ps[0]) =~= ps);
    lemma_build_wf(ps);
}

/// Adding a printable character to a line of printable characters.
proof fn lemma_push_char(line: crate::wrap::LineView, x: Seq<char>, c: char)
    requires
        line.parts.len() == 0 || line.parts == seq![PartView::Breakable(char_units(x))],
        line.parts.len() == 0 ==> x.len() == 0,
        0x20 <= c as u32 <= 0x7e,
        line.width < usize::MAX,
    ensures
        push_unit(line, visible_unit(c)).parts == seq![PartView::Breakable(char_units(x.push(c)))],
        push_unit(line, visible_unit(c)).width == line.width + 1,
        push_unit(line, visible_unit(c)).preferred == line.preferred,
{
    assert(char_units(x).push(visible_unit(c)) =~= char_units(x.push(c)));
    if line.parts.len() == 0 {
        assert(char_units(x) =~= Seq::<BreakableUnit>::empty());
        assert(line.parts.push(PartView::Breakable(seq![visible_unit(c)])) =~= seq![
            PartView::Breakable(char_units(x.push(c))),
        ]);
    } else {
        assert(line.parts.update(0, PartView::Breakable(char_units(x).push(visible_unit(c))))
            =~= seq![PartView::Breakable(char_units(x.push(c)))]);
    }
}

/// The breakpoints of a line of printable characters: after each space.
proof fn lemma_collect_chars(x: Seq<char>, m: int)
    requires
        0 <= m <= x.len(),
        printable_ascii(x),
    ensures
        ({
            let c = collect_units(Collected { bps: Seq::empty(), width: 0 }, 0, char_units(x), m);
            &&& (c.bps.len() > 0) == (last_space(x, m) >= 0)
            &&& c.bps.len() > 0 ==> c.bps.last().part_index == 0 && c.bps.last().unit_index
                == last_space(x, m) + 1
        }),
    decreases m,
{
    if m > 0 {
        lemma_collect_chars(x, m - 1);
        assert(char_units(x)[m - 1] == visible_unit(x[m - 1]));
        assert(0x20 <= x[m - 1] as u32 <= 0x7e);
        if x[m - 1] != ' ' {
            assert(visible_unit(x[m - 1]) != BreakableUnit::Visible(' '));
        }
    }
}

/// A printable ASCII character never has to stay off the start of a line.
proof fn lemma_printable_allowed_start(c: char)
    requires
        0x20 <= c as u32 <= 0x7e,
    ensures
        !crate::units::forbidden_line_start(c),
{
    if crate::units::forbidden_line_start(c) {
        vstd::utf8::char_u32_cast(c, c as u32);
    }
}

/// The break chosen on a line of printable characters is right after its
/// last space, and there is none without a space.
proof fn lemma_chosen_chars(line: crate::wrap::LineView, x: Seq<char>, c: char)
    requires
        line.parts == seq![PartView::Breakable(char_units(x))],
        line.preferred is None,
        printable_ascii(x),
        0x20 <= c as u32 <= 0x7e,
    ensures
        last_space(x, x.len() as int) < 0 ==> chosen_break(line, visible_unit(c)) is None,
        last_space(x, x.len() as int) >= 0 ==> (chosen_break(line, visible_unit(c)) matches Some(
            bp,
        ) && bp.part_index == 0 && bp.unit_index == last_space(x, x.len() as int) + 1),
{
    let ps = line.parts;
    let us = char_units(x);
    let empty = Collected { bps: Seq::empty(), width: 0 };
    assert(collect_from(ps, 0) == empty);
    assert(collect_from(ps, 1) == collect_units(empty, 0, us, us.len() as int));
    let bps = all_breakpoints(ps);
    lemma_collect_chars(x, x.len() as int);
    lemma_last_space(x, x.len() as int);
    if bps.len() > 0 {
        let bp = bps[bps.len() - 1];
        let j = bp.unit_index;
        lemma_printable_allowed_start(c);
        if j < us.len() {
            assert(us[j] == visible_unit(x[j]));
            lemma_printable_allowed_start(x[j]);
            assert(crate::wrap::first_visible_in(us, j) == Some(x[j]));
        } else {
            assert(crate::wrap::first_visible_in(us, j) is None);
            assert(crate::wrap::first_visible_from(ps, bp, 1) is None);
        }
        assert(crate::wrap::allowed(ps, bp, visible_unit(c)));
        assert(last_allowed(ps, bps, bps.len() as int, visible_unit(c)) == Some(bp));
    }
}

/// Splitting a line of one part right after unit `k`.
proof fn lemma_split_one(us: Seq<BreakableUnit>, bp: BreakView)
    requires
        bp.part_index == 0,
        1 <= bp.unit_index <= us.len(),
    ensures
        split_parts(seq![PartView::Breakable(us)], bp).0 == seq![PartView::Breakable(us.take(bp.unit_index))],
        bp.unit_index < us.len() ==> split_parts(seq![PartView::Breakable(us)], bp).1 == seq![
            PartView::Breakable(us.skip(bp.unit_index)),
        ],
        bp.unit_index == us.len() ==> split_parts(seq![PartView::Breakable(us)], bp).1.len() == 0,
{
    let ps = seq![PartView::Breakable(us)];
    assert(split_from(ps, bp, 0) == (Seq::<PartView>::empty(), Seq::<PartView>::empty()));
    assert(Seq::<PartView>::empty().push(PartView::Breakable(us.take(bp.unit_index))) =~= seq![
        PartView::Breakable(us.take(bp.unit_index)),
    ]);
    assert(Seq::<PartView>::empty().push(PartView::Breakable(us.skip(bp.unit_index))) =~= seq![
        PartView::Breakable(us.skip(bp.unit_index)),
    ]);
}

// ---------------------------------------------------------------------------
// Wrapping plain words
// ---------------------------------------------------------------------------

/// Each printed line is the first prefix (for the first line) or the
/// continuation prefix followed by its text.
pub open spec fn printed_words(
    lines: Seq<Seq<char>>,
    contents: Seq<Seq<char>>,
    first: Seq<char>,
    cont: Seq<char>,
) -> bool {
    &&& lines.len() == contents.len()
    &&& forall|k: int|
        0 <= k < lines.len() ==> #[trigger] lines[k] == (if k == 0 {
            first
        } else {
            cont
        }) + contents[k]
}

/// The state after the first `n` characters of plain words: the printed
/// lines, joined by spaces, then a space and the line being built, make
/// those characters (a space that a break took the place of may still be
/// owed by the next character).
pub open spec fn words_inv(
    st: WrapView,
    contents: Seq<Seq<char>>,
    first: Seq<char>,
    cont: Seq<char>,
    s: Seq<char>,
    n: int,
    room: int,
) -> bool {
    let cur = raw_parts(st.line.parts);
    let consumed = s.take(n);
    let text = join(contents, seq![' ']);
    &&& 0 <= n <= s.len()
    &&& printed_words(st.lines, contents, first, cont)
    &&& st.on_continuation == (contents.len() > 0)
    &&& line_wf(st.line)
    &&& st.line.preferred is None
    &&& (st.line.parts.len() == 0 || (st.line.parts == seq![PartView::Breakable(char_units(cur))]
        && cur.len() > 0))
    &&& st.line.width == cur.len()
    &&& cur.len() <= room
    &&& (cur.len() > 0 ==> cur[0] != ' ')
    &&& {
        ||| (contents.len() == 0 && consumed == cur)
        ||| (contents.len() > 0 && consumed == text + seq![' '] + cur)
        ||| (contents.len() > 0 && cur.len() == 0 && consumed == text && (n < s.len() ==> s[n]
            == ' '))
    }
}

proof fn lemma_join_push(contents: Seq<Seq<char>>, x: Seq<char>)
    ensures
        contents.len() == 0 ==> join(contents.push(x), seq![' ']) == x,
        contents.len() > 0 ==> join(contents.push(x), seq![' ']) == join(contents, seq![' '])
            + seq![' '] + x,
{
    assert(contents.push(x).drop_last() =~= contents);
}

proof fn lemma_printed_push(
    lines: Seq<Seq<char>>,
    contents: Seq<Seq<char>>,
    first: Seq<char>,
    cont: Seq<char>,
    prefix: Seq<char>,
    x: Seq<char>,
)
    requires
        printed_words(lines, contents, first, cont),
        prefix == (if contents.len() == 0 {
            first
        } else {
            cont
        }),
    ensures
        printed_words(lines.push(prefix + x), contents.push(x), first, cont),
{
    let l2 = lines.push(prefix + x);
    let c2 = contents.push(x);
    assert forall|k: int| 0 <= k < l2.len() implies #[trigger] l2[k] == (if k == 0 {
        first
    } else {
        cont
    }) + c2[k] by {
        if k < lines.len() {
            assert(l2[k] == lines[k]);
            assert(c2[k] == contents[k]);
        }
    }
}

/// The line being built is the last characters read.
proof fn lemma_cur_in_text(s: Seq<char>, n: int, head: Seq<char>, cur: Seq<char>)
    requires
        0 <= n <= s.len(),
        s.take(n) == head + cur,
    ensures
        forall|k: int| 0 <= k < cur.len() ==> cur[k] == #[trigger] s[n - cur.len() + k],
        cur.len() <= n,
{
    assert((head + cur).len() == n);
    assert forall|k: int| 0 <= k < cur.len() implies cur[k] == #[trigger] s[n - cur.len() + k] by {
        assert((head + cur)[head.len() + k] == cur[k]);
        assert(s.take(n)[head.len() + k] == s[head.len() + k]);
    }
}

/// What a step of plain-word wrapping starts from.
pub open spec fn step_pre(
    st: WrapView,
    contents: Seq<Seq<char>>,
    first: Seq<char>,
    cont: Seq<char>,
    s: Seq<char>,
    n: int,
    room: int,
) -> bool {
    &&& plain_words(s, room)
    &&& str_cols(first) == str_cols(cont)
    &&& room == MAX_LINE_WIDTH - str_cols(first)
    &&& words_inv(st, contents, first, cont, s, n, room)
    &&& n < s.len()
}

/// Facts shared by the cases of a step: where the line sits in the text.
proof fn lemma_step_facts(
    st: WrapView,
    contents: Seq<Seq<char>>,
    first: Seq<char>,
    cont: Seq<char>,
    s: Seq<char>,
    n: int,
    room: int,
)
    requires
        step_pre(st, contents, first, cont, s, n, room),
    ensures
        0x20 <= s[n] as u32 <= 0x7e,
        str_cols(current_prefix(st, first, cont)) == str_cols(first),
        s.take(n + 1) == s.take(n).push(s[n]),
        1 <= room,
        forall|k: int|
            0 <= k < raw_parts(st.line.parts).len() ==> raw_parts(st.line.parts)[k]
                == #[trigger] s[n - raw_parts(st.line.parts).len() + k],
        raw_parts(st.line.parts).len() <= n,
        st.line.parts.len() == 0 ==> raw_parts(st.line.parts).len() == 0,
        printable_ascii(raw_parts(st.line.parts)),
{
    let cur = raw_parts(st.line.parts);
    let text = join(contents, seq![' ']);
    assert(s.take(n + 1) =~= s.take(n).push(s[n]));
    assert(space_free(s, 0, 1));
    if contents.len() == 0 {
        lemma_cur_in_text(s, n, Seq::empty(), cur);
        assert(s.take(n) =~= Seq::<char>::empty() + cur);
    } else if s.take(n) == text + seq![' '] + cur {
        lemma_cur_in_text(s, n, text + seq![' '], cur);
    } else {
        assert(cur.len() == 0);
    }
    if st.line.parts.len() == 0 {
        assert(cur =~= Seq::<char>::empty());
    }
    assert forall|k: int| 0 <= k < cur.len() implies 0x20 <= (#[trigger] cur[k]) as u32 <= 0x7e by {
        assert(cur[k] == s[n - cur.len() + k]);
    }
}

/// A space at the start of a line is dropped: a break took its place.
proof fn lemma_words_drop(
    st: WrapView,
    contents: Seq<Seq<char>>,
    first: Seq<char>,
    cont: Seq<char>,
    s: Seq<char>,
    n: int,
    room: int,
)
    requires
        step_pre(st, contents, first, cont, s, n, room),
        st.line.width == 0,
        s[n] == ' ',
    ensures
        words_inv(st, contents, first, cont, s, n + 1, room),
{
    lemma_step_facts(st, contents, first, cont, s, n, room);
    let cur = raw_parts(st.line.parts);
    let text = join(contents, seq![' ']);
    let consumed = s.take(n);
    assert(cur.len() == 0);
    if contents.len() == 0 {
        assert(consumed.len() == 0);
        assert(false);
    } else if consumed == text + seq![' '] + cur {
        assert(consumed.last() == ' ');
        assert(single_space_at(s, n - 1));
        assert(false);
    }
    assert(s.take(n + 1) =~= text + seq![' '] + cur);
}

/// A character that fits joins the line.
proof fn lemma_words_push(
    st: WrapView,
    contents: Seq<Seq<char>>,
    first: Seq<char>,
    cont: Seq<char>,
    s: Seq<char>,
    n: int,
    room: int,
)
    requires
        step_pre(st, contents, first, cont, s, n, room),
        !(st.line.width == 0 && s[n] == ' '),
        crate::wrap::fits(current_prefix(st, first, cont), st.line.width, 1) || st.line.width
            == 0,
    ensures
        words_inv(
            WrapView { line: push_unit(st.line, visible_unit(s[n])), ..st },
            contents,
            first,
            cont,
            s,
            n + 1,
            room,
        ),
{
    lemma_step_facts(st, contents, first, cont, s, n, room);
    let c = s[n];
    let u = visible_unit(c);
    let cur = raw_parts(st.line.parts);
    let text = join(contents, seq![' ']);
    let consumed = s.take(n);
    lemma_push_unit_wf(st.line, u);
    lemma_push_char(st.line, cur, c);
    let cur2 = cur.push(c);
    lemma_render_chars(cur2);
    if contents.len() == 0 {
        assert(s.take(n + 1) =~= cur2);
    } else if consumed == text + seq![' '] + cur {
        assert(s.take(n + 1) =~= text + seq![' '] + cur2);
    } else {
        assert(false);
    }
}

/// The state after a line is broken after its last space.
pub open spec fn split_state(st: WrapView, first: Seq<char>, cont: Seq<char>, bp: BreakView) -> WrapView {
    let (left, rest) = split_parts(st.line.parts, bp);
    let flushed = flush_into(st.lines, build(left), current_prefix(st, first, cont));
    WrapView { lines: flushed.0, line: build(rest), on_continuation: true }
}

/// Breaking a full line after its last space prints the text before it.
proof fn lemma_words_split(
    st: WrapView,
    contents: Seq<Seq<char>>,
    first: Seq<char>,
    cont: Seq<char>,
    s: Seq<char>,
    n: int,
    room: int,
    bp: BreakView,
) -> (c1: Seq<Seq<char>>)
    requires
        step_pre(st, contents, first, cont, s, n, room),
        st.line.width > 0,
        st.line.parts == seq![PartView::Breakable(char_units(raw_parts(st.line.parts)))],
        bp.part_index == 0,
        bp.unit_index == last_space(raw_parts(st.line.parts), raw_parts(st.line.parts).len() as int) + 1,
        bp.unit_index >= 1,
    ensures
        words_inv(split_state(st, first, cont, bp), c1, first, cont, s, n, room),
        crate::wrap::parts_size(split_state(st, first, cont, bp).line.parts)
            < crate::wrap::parts_size(st.line.parts),
{
    lemma_step_facts(st, contents, first, cont, s, n, room);
    let prefix = current_prefix(st, first, cont);
    let cur = raw_parts(st.line.parts);
    let text = join(contents, seq![' ']);
    let consumed = s.take(n);
    lemma_render_chars(cur);
    lemma_last_space(cur, cur.len() as int);
    let ls = bp.unit_index - 1;
    let us = char_units(cur);
    lemma_split_one(us, bp);
    let (left, rest) = split_parts(st.line.parts, bp);
    let head = cur.take(ls + 1);
    let tail = cur.skip(ls + 1);
    assert(us.take(ls + 1) =~= char_units(head));
    assert(us.skip(ls + 1) =~= char_units(tail));
    assert(cur =~= head + tail);
    assert(ls >= 1);
    assert(single_space_at(s, n - cur.len() + ls - 1));
    assert(cur[ls - 1] == s[n - cur.len() + (ls - 1)]);
    assert(cur[ls] == s[n - cur.len() + ls]);
    assert(cur[ls - 1] != ' ');
    assert(printable_ascii(head));
    assert(printable_ascii(tail));
    let content = cur.take(ls);
    assert(head.drop_last() =~= content);
    assert(trim_end_spaces(head) == trim_end_spaces(content));
    lemma_trim_no_trailing(content);
    lemma_build_chars(head);
    lemma_render_chars(head);
    let lline = build(left);
    assert(render_parts(lline.parts) == content);
    lemma_printed_push(st.lines, contents, first, cont, prefix, content);
    let c1 = contents.push(content);
    lemma_join_push(contents, content);
    let rline = build(rest);
    lemma_split_rest_smaller(st.line.parts, bp);
    if tail.len() > 0 {
        lemma_build_chars(tail);
        lemma_render_chars(tail);
        assert(single_space_at(s, n - cur.len() + ls));
        assert(tail[0] == cur[ls + 1]);
    } else {
        assert(rest.len() == 0);
        assert(build_from(rest, 0) == empty_line());
        assert(tail =~= Seq::<char>::empty());
        assert(raw_parts(rline.parts) =~= tail);
        lemma_build_wf(rest);
    }
    assert(raw_parts(rline.parts) == tail);
    if contents.len() == 0 {
        assert(consumed =~= content + seq![' '] + tail);
    } else {
        assert(consumed == text + seq![' '] + cur);
        assert(consumed =~= text + seq![' '] + content + seq![' '] + tail);
    }
    c1
}

/// A full line of one word is printed whole when a space arrives.
proof fn lemma_words_flush(
    st: WrapView,
    contents: Seq<Seq<char>>,
    first: Seq<char>,
    cont: Seq<char>,
    s: Seq<char>,
    n: int,
    room: int,
) -> (c1: Seq<Seq<char>>)
    requires
        step_pre(st, contents, first, cont, s, n, room),
        st.line.width > 0,
        !crate::wrap::fits(current_prefix(st, first, cont), st.line.width, 1),
        last_space(raw_parts(st.line.parts), raw_parts(st.line.parts).len() as int) < 0,
    ensures
        s[n] == ' ',
        render_parts(st.line.parts).len() > 0,
        ({
            let (lines, line) = flush_into(st.lines, st.line, current_prefix(st, first, cont));
            words_inv(WrapView { lines, line, on_continuation: true }, c1, first, cont, s, n, room)
        }),
        0 < crate::wrap::parts_size(st.line.parts),
{
    lemma_step_facts(st, contents, first, cont, s, n, room);
    let prefix = current_prefix(st, first, cont);
    let cur = raw_parts(st.line.parts);
    let text = join(contents, seq![' ']);
    lemma_render_chars(cur);
    lemma_last_space(cur, cur.len() as int);
    if s[n] != ' ' {
        assert forall|k: int| n - cur.len() <= k < n + 1 implies s[k] != ' ' by {
            if k < n {
                assert(cur[k - (n - cur.len())] == s[n - cur.len() + (k - (n - cur.len()))]);
            }
        }
        assert(space_free(s, n - cur.len(), n + 1));
        assert(false);
    }
    assert(cur.last() != ' ');
    lemma_trim_no_trailing(cur);
    lemma_printed_push(st.lines, contents, first, cont, prefix, cur);
    let c1 = contents.push(cur);
    lemma_join_push(contents, cur);
    crate::wrap::lemma_text_has_size(st.line.parts);
    assert(raw_parts(empty_line().parts) =~= Seq::<char>::empty());
    c1
}

/// Adding the character `s[n]` keeps the invariant.
proof fn lemma_words_step(
    st: WrapView,
    contents: Seq<Seq<char>>,
    first: Seq<char>,
    cont: Seq<char>,
    s: Seq<char>,
    n: int,
    room: int,
) -> (r: Seq<Seq<char>>)
    requires
        step_pre(st, contents, first, cont, s, n, room),
    ensures
        words_inv(append_unit(st, first, cont, visible_unit(s[n])), r, first, cont, s, n + 1, room),
    decreases crate::wrap::parts_size(st.line.parts),
{
    lemma_step_facts(st, contents, first, cont, s, n, room);
    let c = s[n];
    let u = visible_unit(c);
    let prefix = current_prefix(st, first, cont);
    let cur = raw_parts(st.line.parts);
    assert(crate::units::unit_cols(u) == 1);
    if st.line.width == 0 && c == ' ' {
        lemma_words_drop(st, contents, first, cont, s, n, room);
        contents
    } else if crate::wrap::fits(prefix, st.line.width, 1) || st.line.width == 0 {
        lemma_words_push(st, contents, first, cont, s, n, room);
        contents
    } else {
        lemma_chosen_chars(st.line, cur, c);
        lemma_last_space(cur, cur.len() as int);
        let ls = last_space(cur, cur.len() as int);
        if ls >= 0 {
            let bp = chosen_break(st.line, u)->0;
            let c1 = lemma_words_split(st, contents, first, cont, s, n, room, bp);
            lemma_words_step(split_state(st, first, cont, bp), c1, first, cont, s, n, room)
        } else {
            let c1 = lemma_words_flush(st, contents, first, cont, s, n, room);
            let (lines, line) = flush_into(st.lines, st.line, prefix);
            let next = WrapView { lines, line, on_continuation: true };
            crate::wrap_laws::lemma_trim_len(raw_parts(st.line.parts));
            assert(crate::wrap::parts_size(next.line.parts) == 0);
            lemma_words_step(next, c1, first, cont, s, n, room)
        }
    }
}

proof fn lemma_words_units(
    first: Seq<char>,
    cont: Seq<char>,
    s: Seq<char>,
    n: int,
    room: int,
) -> (r: Seq<Seq<char>>)
    requires
        plain_words(s, room),
        str_cols(first) == str_cols(cont),
        room == MAX_LINE_WIDTH - str_cols(first),
        0 <= n <= s.len(),
    ensures
        words_inv(
            append_units(
                WrapView { lines: Seq::empty(), line: empty_line(), on_continuation: false },
                first,
                cont,
                char_units(s),
                n,
            ),
            r,
            first,
            cont,
            s,
            n,
            room,
        ),
    decreases n,
{
    let init = WrapView { lines: Seq::empty(), line: empty_line(), on_continuation: false };
    if n == 0 {
        assert(s.take(0) =~= Seq::<char>::empty());
        assert(raw_parts(empty_line().parts) =~= Seq::<char>::empty());
        let e: Seq<Seq<char>> = Seq::empty();
        assert(space_free(s, 0, 1));
        assert(append_units(init, first, cont, char_units(s), 0) == init);
        assert(printed_words(init.lines, e, first, cont));
        assert(line_wf(init.line));
        assert(words_inv(init, e, first, cont, s, 0, room));
        e
    } else {
        let c1 = lemma_words_units(first, cont, s, n - 1, room);
        let st = append_units(init, first, cont, char_units(s), n - 1);
        assert(char_units(s)[n - 1] == visible_unit(s[n - 1]));
        assert(append_units(init, first, cont, char_units(s), n) == append_unit(
            st,
            first,
            cont,
            visible_unit(s[n - 1]),
        ));
        lemma_words_step(st, c1, first, cont, s, n - 1, room)
    }
}

/// Wrapping plain words breaks only at spaces: for printable ASCII words
/// separated by single spaces, with prefixes of one display width and no word
/// longer than the room a line leaves after its prefix, each printed line is
/// its prefix (the first prefix for the first line) followed by its text,
/// and those texts joined by single spaces give back the words — every line
/// break takes the place of exactly one space, and no word is split.
pub proof fn lemma_wrap_plain_words(s: Seq<char>, first: Seq<char>, cont: Seq<char>)
    requires
        str_cols(first) == str_cols(cont),
        plain_words(s, MAX_LINE_WIDTH - str_cols(first)),
    ensures
        exists|contents: Seq<Seq<char>>|
            printed_words(
                wrap_lines(seq![FragmentView::Text(normalized(s, None, None))], first, cont),
                contents,
                first,
                cont,
            ) && join(contents, seq![' ']) == s,
{
    let room = MAX_LINE_WIDTH - str_cols(first);
    lemma_normalize_words(s, room);
    let us = char_units(s);
    let fs = seq![FragmentView::Text(us)];
    let init = WrapView { lines: Seq::empty(), line: empty_line(), on_continuation: false };
    assert(wrap_from(fs, first, cont, 0) == init);
    let c1 = lemma_words_units(first, cont, s, s.len() as int, room);
    let st = wrap_from(fs, first, cont, 1);
    assert(st == append_units(init, first, cont, us, us.len() as int));
    assert(s.take(s.len() as int) =~= s);
    let cur = raw_parts(st.line.parts);
    let text = join(c1, seq![' ']);
    let prefix = current_prefix(st, first, cont);
    lemma_render_chars(cur);
    if cur.len() > 0 {
        if c1.len() == 0 {
            assert(cur == s);
        } else if s == text + seq![' '] + cur {
            assert(s.last() == cur.last());
        } else {
            assert(false);
        }
        lemma_trim_no_trailing(cur);
        lemma_printed_push(st.lines, c1, first, cont, prefix, cur);
        lemma_join_push(c1, cur);
        let r = c1.push(cur);
        assert(printed_words(wrap_lines(fs, first, cont), r, first, cont) && join(r, seq![' '])
            == s);
    } else {
        if c1.len() == 0 {
            assert(false);
        } else if s == text + seq![' '] + cur {
            assert(s.last() == ' ');
            assert(false);
        }
        assert(printed_words(wrap_lines(fs, first, cont), c1, first, cont) && join(c1, seq![' '])
            == s);
    }
}

} // verus!
