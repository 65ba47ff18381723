//! How wide wrapped lines get: with a continuation prefix no wider than the
//! first one, every printed line fits in 80 columns with its prefix, unless
//! it holds a single piece of text (one character or one inline element)
//! besides spaces and zero-width characters.

use vstd::prelude::*;
use crate::text::{trim_end_spaces, str_cols};
use crate::units::{unit_cols, BreakableUnit};
use crate::wrap::{
    append_atomic, append_unit, append_units, build, build_from, chosen_break, current_prefix,
    empty_line, fits, flush_into, lemma_build_wf, lemma_chosen_break_valid,
    lemma_push_atomic_wf, lemma_push_unit_wf, lemma_split_rest_smaller, lemma_text_has_size,
    line_wf, part_is_empty, part_units, push_atomic, push_unit, raw_part, raw_parts, raw_units,
    render_parts, sat_add, scan_units, split_from, split_parts, break_in_range, wrap_from, wrap_lines,
    add_part, BreakView, FragmentView, LineView, PartView, WrapView, MAX_LINE_WIDTH,
};

verus! {

// ---------------------------------------------------------------------------
// Measures of a line
// ---------------------------------------------------------------------------

/// A unit that prints a character other than a space and takes columns.
pub open spec fn solid_unit(u: BreakableUnit) -> bool {
    u matches BreakableUnit::Visible(c) && c != ' ' && unit_cols(u) > 0
}

/// Inline text that prints a character other than a space and takes columns.
pub open spec fn solid_text(t: Seq<char>) -> bool {
    str_cols(t) > 0 && exists|i: int| 0 <= i < t.len() && t[i] != ' '
}

/// A unit's columns (`columns`), or whether it is solid (one or zero).
pub open spec fn unit_measure(columns: bool, u: BreakableUnit) -> nat {
    if columns {
        unit_cols(u)
    } else if solid_unit(u) {
        1
    } else {
        0
    }
}

/// An inline element's columns (`columns`), or whether it is solid.
pub open spec fn text_measure(columns: bool, t: Seq<char>) -> nat {
    if columns {
        str_cols(t)
    } else if solid_text(t) {
        1
    } else {
        0
    }
}

pub open spec fn units_measure(columns: bool, us: Seq<BreakableUnit>) -> nat
    decreases us.len(),
{
    if us.len() == 0 {
        0
    } else {
        units_measure(columns, us.drop_last()) + unit_measure(columns, us.last())
    }
}

pub open spec fn part_measure(columns: bool, p: PartView) -> nat {
    match p {
        PartView::Breakable(us) => units_measure(columns, us),
        PartView::Atomic(t) => text_measure(columns, t),
    }
}

pub open spec fn parts_measure(columns: bool, ps: Seq<PartView>) -> nat
    decreases ps.len(),
{
    if ps.len() == 0 {
        0
    } else {
        parts_measure(columns, ps.drop_last()) + part_measure(columns, ps.last())
    }
}

/// The columns the pieces of a line take.
pub open spec fn parts_cols(ps: Seq<PartView>) -> nat {
    parts_measure(true, ps)
}

/// The number of solid pieces of a line.
pub open spec fn solid_pieces(ps: Seq<PartView>) -> nat {
    parts_measure(false, ps)
}

/// A line is within the width when its prefix and pieces take at most 80
/// columns, or when it holds at most one solid piece.
pub open spec fn within_width(prefix: Seq<char>, ps: Seq<PartView>) -> bool {
    str_cols(prefix) + parts_cols(ps) <= MAX_LINE_WIDTH || solid_pieces(ps) <= 1
}

/// `n`, at most `usize::MAX`.
pub open spec fn capped(n: nat) -> nat {
    if n > usize::MAX {
        usize::MAX as nat
    } else {
        n
    }
}

/// Each printed line is a prefix and the text of some pieces, within the
/// width: the continuation prefix, or for the first line the first prefix.
pub open spec fn printed_within(
    lines: Seq<Seq<char>>,
    pss: Seq<Seq<PartView>>,
    first: Seq<char>,
    cont: Seq<char>,
) -> bool {
    &&& lines.len() == pss.len()
    &&& forall|k: int|
        0 <= k < lines.len() ==> {
            ||| (lines[k] == cont + render_parts(#[trigger] pss[k]) && within_width(cont, pss[k]))
            ||| (k == 0 && lines[k] == first + render_parts(pss[k]) && within_width(first, pss[k]))
        }
}

// ---------------------------------------------------------------------------
// Arithmetic of the measures
// ---------------------------------------------------------------------------

proof fn lemma_sat_add_capped(x: nat, y: nat)
    ensures
        sat_add(capped(x), y) == capped(x + y),
{
}

proof fn lemma_units_measure_push(c: bool, us: Seq<BreakableUnit>, u: BreakableUnit)
    ensures
        units_measure(c, us.push(u)) == units_measure(c, us) + unit_measure(c, u),
{
    assert(us.push(u).drop_last() =~= us);
}

proof fn lemma_parts_measure_push(c: bool, ps: Seq<PartView>, p: PartView)
    ensures
        parts_measure(c, ps.push(p)) == parts_measure(c, ps) + part_measure(c, p),
{
    assert(ps.push(p).drop_last() =~= ps);
}

proof fn lemma_units_measure_split(c: bool, us: Seq<BreakableUnit>, k: int)
    requires
        0 <= k <= us.len(),
    ensures
        units_measure(c, us.take(k)) + units_measure(c, us.skip(k)) == units_measure(c, us),
    decreases us.len() - k,
{
    if k == us.len() {
        assert(us.take(k) =~= us);
        assert(us.skip(k) =~= Seq::<BreakableUnit>::empty());
    } else {
        lemma_units_measure_split(c, us.drop_last(), k);
        assert(us.drop_last().take(k) =~= us.take(k));
        assert(us.skip(k).drop_last() =~= us.drop_last().skip(k));
        assert(us.skip(k).last() == us.last());
    }
}

/// A solid piece takes columns.
proof fn lemma_solid_le_cols(ps: Seq<PartView>)
    ensures
        solid_pieces(ps) <= parts_cols(ps),
    decreases ps.len(),
{
    if ps.len() > 0 {
        lemma_solid_le_cols(ps.drop_last());
        if let PartView::Breakable(us) = ps.last() {
            lemma_units_solid_le_cols(us);
        }
    }
}

proof fn lemma_units_solid_le_cols(us: Seq<BreakableUnit>)
    ensures
        units_measure(false, us) <= units_measure(true, us),
    decreases us.len(),
{
    if us.len() > 0 {
        lemma_units_solid_le_cols(us.drop_last());
    }
}

proof fn lemma_split_from_measure(c: bool, ps: Seq<PartView>, bp: BreakView, n: int)
    requires
        0 <= n <= ps.len(),
        break_in_range(ps, bp),
    ensures
        parts_measure(c, split_from(ps, bp, n).0) + parts_measure(c, split_from(ps, bp, n).1)
            == parts_measure(c, ps.take(n)),
        n <= bp.part_index ==> split_from(ps, bp, n).1.len() == 0,
    decreases n,
{
    if n > 0 {
        lemma_split_from_measure(c, ps, bp, n - 1);
        let acc = split_from(ps, bp, n - 1);
        let p = ps[n - 1];
        assert(ps.take(n) =~= ps.take(n - 1).push(p));
        lemma_parts_measure_push(c, ps.take(n - 1), p);
        lemma_parts_measure_push(c, acc.0, p);
        lemma_parts_measure_push(c, acc.1, p);
        if n - 1 == bp.part_index && p is Breakable {
            let us = part_units(p);
            let head = us.take(bp.unit_index);
            let tail = us.skip(bp.unit_index);
            lemma_units_measure_split(c, us, bp.unit_index);
            lemma_parts_measure_push(c, acc.0, PartView::Breakable(head));
            lemma_parts_measure_push(c, acc.1, PartView::Breakable(tail));
        }
    } else {
        assert(ps.take(0) =~= Seq::<PartView>::empty());
    }
}

/// The pieces before and after a breakpoint measure what the line does.
proof fn lemma_split_measure(c: bool, ps: Seq<PartView>, bp: BreakView)
    requires
        break_in_range(ps, bp),
    ensures
        parts_measure(c, split_parts(ps, bp).0) + parts_measure(c, split_parts(ps, bp).1)
            == parts_measure(c, ps),
{
    lemma_split_from_measure(c, ps, bp, ps.len() as int);
    assert(ps.take(ps.len() as int) =~= ps);
}

proof fn lemma_scan_units_width(acc: LineView, pi: int, us: Seq<BreakableUnit>, n: int, x: nat)
    requires
        0 <= n <= us.len(),
        acc.width == capped(x),
    ensures
        scan_units(acc, pi, us, n).width == capped(x + units_measure(true, us.take(n))),
    decreases n,
{
    if n == 0 {
        assert(us.take(0) =~= Seq::<BreakableUnit>::empty());
    } else {
        lemma_scan_units_width(acc, pi, us, n - 1, x);
        assert(us.take(n) =~= us.take(n - 1).push(us[n - 1]));
        lemma_units_measure_push(true, us.take(n - 1), us[n - 1]);
        lemma_sat_add_capped(x + units_measure(true, us.take(n - 1)), unit_cols(us[n - 1]));
    }
}

/// Building a line drops only empty parts: its columns are at most those of
/// the parts, it has their solid pieces, and its width is its columns.
proof fn lemma_build_from_measure(ps: Seq<PartView>, n: int)
    requires
        0 <= n <= ps.len(),
    ensures
        parts_cols(build_from(ps, n).parts) <= parts_cols(ps.take(n)),
        solid_pieces(build_from(ps, n).parts) == solid_pieces(ps.take(n)),
        build_from(ps, n).width == capped(parts_cols(build_from(ps, n).parts)),
    decreases n,
{
    if n == 0 {
        assert(ps.take(0) =~= Seq::<PartView>::empty());
    } else {
        lemma_build_from_measure(ps, n - 1);
        let acc = build_from(ps, n - 1);
        let p = ps[n - 1];
        assert(ps.take(n) =~= ps.take(n - 1).push(p));
        lemma_parts_measure_push(true, ps.take(n - 1), p);
        lemma_parts_measure_push(false, ps.take(n - 1), p);
        if part_is_empty(p) {
            if let PartView::Breakable(us) = p {
                assert(units_measure(false, us) == 0);
            }
        } else {
            lemma_parts_measure_push(true, acc.parts, p);
            lemma_parts_measure_push(false, acc.parts, p);
            match p {
                PartView::Breakable(us) => {
                    lemma_scan_units_width(acc, acc.parts.len() as int, us, us.len() as int, parts_cols(acc.parts));
                    assert(us.take(us.len() as int) =~= us);
                },
                PartView::Atomic(t) => {
                    lemma_sat_add_capped(parts_cols(acc.parts), str_cols(t));
                },
            }
            assert(add_part(acc, p).parts == acc.parts.push(p));
        }
    }
}

proof fn lemma_build_measure(ps: Seq<PartView>)
    ensures
        parts_cols(build(ps).parts) <= parts_cols(ps),
        solid_pieces(build(ps).parts) == solid_pieces(ps),
        build(ps).width == capped(parts_cols(build(ps).parts)),
{
    lemma_build_from_measure(ps, ps.len() as int);
    assert(ps.take(ps.len() as int) =~= ps);
}

/// Adding a unit adds its measure.
proof fn lemma_push_unit_measure(c: bool, line: LineView, u: BreakableUnit)
    ensures
        parts_measure(c, push_unit(line, u).parts) == parts_measure(c, line.parts) + unit_measure(c, u),
        push_unit(line, u).width == sat_add(line.width, unit_cols(u)),
{
    let n = line.parts.len();
    if n > 0 && line.parts[n - 1] is Breakable {
        let us = part_units(line.parts[n - 1]);
        let ps2 = line.parts.update(n - 1, PartView::Breakable(us.push(u)));
        assert(ps2.drop_last() =~= line.parts.drop_last());
        lemma_units_measure_push(c, us, u);
        assert(ps2.last() == PartView::Breakable(us.push(u)));
        assert(part_measure(c, line.parts.last()) == units_measure(c, us));
        assert(parts_measure(c, ps2) == parts_measure(c, ps2.drop_last()) + part_measure(c, ps2.last()));
        assert(push_unit(line, u).parts == ps2);
    } else {
        lemma_parts_measure_push(c, line.parts, PartView::Breakable(seq![u]));
        assert(seq![u].drop_last() =~= Seq::<BreakableUnit>::empty());
        assert(units_measure(c, seq![u]) == units_measure(c, Seq::<BreakableUnit>::empty()) + unit_measure(c, u));
        assert(push_unit(line, u).parts == line.parts.push(PartView::Breakable(seq![u])));
    }
}

// ---------------------------------------------------------------------------
// Blank lines
// ---------------------------------------------------------------------------

proof fn lemma_trim_empty_all_spaces(s: Seq<char>)
    requires
        trim_end_spaces(s).len() == 0,
    ensures
        forall|k: int| 0 <= k < s.len() ==> s[k] == ' ',
    decreases s.len(),
{
    if s.len() > 0 {
        lemma_trim_empty_all_spaces(s.drop_last());
        assert forall|k: int| 0 <= k < s.len() implies s[k] == ' ' by {
            if k < s.len() - 1 {
                assert(s[k] == s.drop_last()[k]);
            }
        }
    }
}

proof fn lemma_blank_units(us: Seq<BreakableUnit>)
    requires
        forall|k: int| 0 <= k < raw_units(us).len() ==> raw_units(us)[k] == ' ',
    ensures
        units_measure(false, us) == 0,
    decreases us.len(),
{
    if us.len() > 0 {
        let head = raw_units(us.drop_last());
        let last = match us.last() {
            BreakableUnit::Visible(c) => seq![c],
            _ => Seq::<char>::empty(),
        };
        assert(raw_units(us) == head + last);
        assert forall|k: int| 0 <= k < head.len() implies head[k] == ' ' by {
            assert(raw_units(us)[k] == head[k]);
        }
        lemma_blank_units(us.drop_last());
        if let BreakableUnit::Visible(c) = us.last() {
            assert(raw_units(us)[head.len() as int] == c);
        }
    }
}

proof fn lemma_blank_parts(ps: Seq<PartView>)
    requires
        forall|k: int| 0 <= k < raw_parts(ps).len() ==> raw_parts(ps)[k] == ' ',
    ensures
        solid_pieces(ps) == 0,
    decreases ps.len(),
{
    if ps.len() > 0 {
        let head = raw_parts(ps.drop_last());
        let last = raw_part(ps.last());
        assert(raw_parts(ps) == head + last);
        assert forall|k: int| 0 <= k < head.len() implies head[k] == ' ' by {
            assert(raw_parts(ps)[k] == head[k]);
        }
        assert forall|k: int| 0 <= k < last.len() implies last[k] == ' ' by {
            assert(raw_parts(ps)[head.len() + k] == last[k]);
        }
        lemma_blank_parts(ps.drop_last());
        match ps.last() {
            PartView::Breakable(us) => lemma_blank_units(us),
            PartView::Atomic(t) => {
                assert(!solid_text(t));
            },
        }
    }
}

/// A line that prints nothing but spaces holds no solid piece.
proof fn lemma_blank_line_not_solid(ps: Seq<PartView>)
    requires
        render_parts(ps).len() == 0,
    ensures
        solid_pieces(ps) == 0,
{
    lemma_trim_empty_all_spaces(raw_parts(ps));
    lemma_blank_parts(ps);
}

// ---------------------------------------------------------------------------
// The invariant of wrapping
// ---------------------------------------------------------------------------

/// The printed lines are within the width, the line being built is within
/// the width after the current prefix, and its width counts its columns.
pub open spec fn width_inv(
    st: WrapView,
    pss: Seq<Seq<PartView>>,
    first: Seq<char>,
    cont: Seq<char>,
) -> bool {
    &&& printed_within(st.lines, pss, first, cont)
    &&& (st.lines.len() > 0 ==> st.on_continuation)
    &&& line_wf(st.line)
    &&& st.line.width == capped(parts_cols(st.line.parts))
    &&& within_width(current_prefix(st, first, cont), st.line.parts)
}

/// Printing a line within the width after the current prefix keeps the
/// printed lines within the width.
proof fn lemma_print_within(
    st: WrapView,
    pss: Seq<Seq<PartView>>,
    first: Seq<char>,
    cont: Seq<char>,
    line: LineView,
) -> (r: Seq<Seq<PartView>>)
    requires
        printed_within(st.lines, pss, first, cont),
        st.lines.len() > 0 ==> st.on_continuation,
        within_width(current_prefix(st, first, cont), line.parts),
    ensures
        printed_within(flush_into(st.lines, line, current_prefix(st, first, cont)).0, r, first, cont),
        render_parts(line.parts).len() > 0 ==> flush_into(
            st.lines,
            line,
            current_prefix(st, first, cont),
        ).1 == empty_line(),
        render_parts(line.parts).len() == 0 ==> flush_into(
            st.lines,
            line,
            current_prefix(st, first, cont),
        ) == (st.lines, line),
{
    let prefix = current_prefix(st, first, cont);
    let content = render_parts(line.parts);
    if content.len() == 0 {
        pss
    } else {
        let r = pss.push(line.parts);
        let lines = st.lines.push(prefix + content);
        assert forall|k: int| 0 <= k < lines.len() implies {
            ||| (lines[k] == cont + render_parts(#[trigger] r[k]) && within_width(cont, r[k]))
            ||| (k == 0 && lines[k] == first + render_parts(r[k]) && within_width(first, r[k]))
        } by {
            if k < st.lines.len() {
                assert(r[k] == pss[k]);
                assert(lines[k] == st.lines[k]);
            }
        }
        r
    }
}

/// A line within the width after one prefix is within it after a narrower
/// one.
proof fn lemma_within_narrower(wide: Seq<char>, narrow: Seq<char>, ps: Seq<PartView>)
    requires
        within_width(wide, ps),
        str_cols(narrow) <= str_cols(wide),
    ensures
        within_width(narrow, ps),
{
}

/// Adding a unit keeps the invariant.
proof fn lemma_append_unit_width(
    st: WrapView,
    pss: Seq<Seq<PartView>>,
    first: Seq<char>,
    cont: Seq<char>,
    u: BreakableUnit,
) -> (r: Seq<Seq<PartView>>)
    requires
        width_inv(st, pss, first, cont),
        str_cols(cont) <= str_cols(first),
    ensures
        width_inv(append_unit(st, first, cont, u), r, first, cont),
    decreases crate::wrap::parts_size(st.line.parts),
{
    let prefix = current_prefix(st, first, cont);
    lemma_within_narrower(prefix, cont, st.line.parts);
    if u == BreakableUnit::ForcedBreak {
        if st.line.width > 0 {
            let r = lemma_print_within(st, pss, first, cont, st.line);
            assert(parts_cols(empty_line().parts) == 0);
            assert(solid_pieces(empty_line().parts) == 0);
            r
        } else {
            pss
        }
    } else if st.line.width == 0 && (u == BreakableUnit::Visible(' ') || u is SoftBreak) {
        pss
    } else if fits(prefix, st.line.width, unit_cols(u)) || st.line.width == 0 {
        lemma_push_unit_wf(st.line, u);
        lemma_push_unit_measure(true, st.line, u);
        lemma_push_unit_measure(false, st.line, u);
        lemma_sat_add_capped(parts_cols(st.line.parts), unit_cols(u));
        lemma_solid_le_cols(st.line.parts);
        pss
    } else {
        lemma_chosen_break_valid(st.line, u);
        match chosen_break(st.line, u) {
            Some(bp) => {
                let (left, rest) = split_parts(st.line.parts, bp);
                let lline = build(left);
                let rline = build(rest);
                lemma_split_measure(true, st.line.parts, bp);
                lemma_split_measure(false, st.line.parts, bp);
                lemma_build_measure(left);
                lemma_build_measure(rest);
                lemma_build_wf(rest);
                lemma_split_rest_smaller(st.line.parts, bp);
                let p1 = lemma_print_within(st, pss, first, cont, lline);
                let flushed = flush_into(st.lines, lline, prefix);
                let next = WrapView { lines: flushed.0, line: rline, on_continuation: true };
                lemma_within_narrower(prefix, cont, rline.parts);
                assert(width_inv(next, p1, first, cont));
                lemma_append_unit_width(next, p1, first, cont, u)
            },
            None => {
                if render_parts(st.line.parts).len() == 0 {
                    lemma_push_unit_wf(st.line, u);
                    lemma_push_unit_measure(true, st.line, u);
                    lemma_push_unit_measure(false, st.line, u);
                    lemma_sat_add_capped(parts_cols(st.line.parts), unit_cols(u));
                    lemma_blank_line_not_solid(st.line.parts);
                    pss
                } else {
                    let p1 = lemma_print_within(st, pss, first, cont, st.line);
                    let (lines, line) = flush_into(st.lines, st.line, prefix);
                    let next = WrapView { lines, line, on_continuation: true };
                    assert(parts_cols(empty_line().parts) == 0);
                    assert(solid_pieces(empty_line().parts) == 0);
                    lemma_text_has_size(st.line.parts);
                    crate::wrap_laws::lemma_trim_len(raw_parts(st.line.parts));
                    lemma_append_unit_width(next, p1, first, cont, u)
                }
            },
        }
    }
}

/// Adding an inline element keeps the invariant.
proof fn lemma_append_atomic_width(
    st: WrapView,
    pss: Seq<Seq<PartView>>,
    first: Seq<char>,
    cont: Seq<char>,
    t: Seq<char>,
) -> (r: Seq<Seq<PartView>>)
    requires
        width_inv(st, pss, first, cont),
        str_cols(cont) <= str_cols(first),
    ensures
        width_inv(append_atomic(st, first, cont, t), r, first, cont),
{
    let prefix = current_prefix(st, first, cont);
    let w = str_cols(t);
    let flushes = st.line.width > 0 && !fits(prefix, st.line.width, w);
    lemma_within_narrower(prefix, cont, st.line.parts);
    let p1 = if flushes {
        lemma_print_within(st, pss, first, cont, st.line)
    } else {
        pss
    };
    let st2 = if flushes {
        let (lines, line) = flush_into(st.lines, st.line, prefix);
        WrapView { lines, line, on_continuation: true }
    } else {
        st
    };
    if flushes {
        if render_parts(st.line.parts).len() == 0 {
            lemma_blank_line_not_solid(st.line.parts);
        } else {
            assert(parts_cols(empty_line().parts) == 0);
            assert(solid_pieces(empty_line().parts) == 0);
        }
        assert(solid_pieces(st2.line.parts) == 0);
    }
    if st.line.width == 0 {
        lemma_solid_le_cols(st.line.parts);
    }
    lemma_push_atomic_wf(st2.line, t);
    lemma_parts_measure_push(true, st2.line.parts, PartView::Atomic(t));
    lemma_parts_measure_push(false, st2.line.parts, PartView::Atomic(t));
    lemma_sat_add_capped(parts_cols(st2.line.parts), w);
    p1
}

proof fn lemma_append_units_width(
    st: WrapView,
    pss: Seq<Seq<PartView>>,
    first: Seq<char>,
    cont: Seq<char>,
    us: Seq<BreakableUnit>,
    n: int,
) -> (r: Seq<Seq<PartView>>)
    requires
        width_inv(st, pss, first, cont),
        str_cols(cont) <= str_cols(first),
        0 <= n <= us.len(),
    ensures
        width_inv(append_units(st, first, cont, us, n), r, first, cont),
    decreases n,
{
    if n == 0 {
        pss
    } else {
        let p1 = lemma_append_units_width(st, pss, first, cont, us, n - 1);
        lemma_append_unit_width(append_units(st, first, cont, us, n - 1), p1, first, cont, us[n - 1])
    }
}

proof fn lemma_wrap_from_width(
    fs: Seq<FragmentView>,
    first: Seq<char>,
    cont: Seq<char>,
    n: int,
) -> (r: Seq<Seq<PartView>>)
    requires
        str_cols(cont) <= str_cols(first),
        0 <= n <= fs.len(),
    ensures
        width_inv(wrap_from(fs, first, cont, n), r, first, cont),
    decreases n,
{
    if n == 0 {
        assert(parts_cols(empty_line().parts) == 0);
        assert(solid_pieces(empty_line().parts) == 0);
        Seq::empty()
    } else {
        let p1 = lemma_wrap_from_width(fs, first, cont, n - 1);
        let st = wrap_from(fs, first, cont, n - 1);
        match fs[n - 1] {
            FragmentView::Text(us) => lemma_append_units_width(st, p1, first, cont, us, us.len() as int),
            FragmentView::Atomic(t) => lemma_append_atomic_width(st, p1, first, cont, t),
        }
    }
}

/// Wrapping keeps lines within 80 columns: when the continuation prefix is
/// no wider than the first one, every printed line is a prefix and the text
/// of some pieces that, with the prefix, take at most 80 columns, unless the
/// line holds a single solid piece (a character other than a space, or an
/// inline element, that takes columns).
pub proof fn lemma_wrap_within_width(fs: Seq<FragmentView>, first: Seq<char>, cont: Seq<char>)
    requires
        str_cols(cont) <= str_cols(first),
    ensures
        exists|pss: Seq<Seq<PartView>>| printed_within(wrap_lines(fs, first, cont), pss, first, cont),
{
    let p1 = lemma_wrap_from_width(fs, first, cont, fs.len() as int);
    let st = wrap_from(fs, first, cont, fs.len() as int);
    let r = lemma_print_within(st, p1, first, cont, st.line);
    assert(printed_within(wrap_lines(fs, first, cont), r, first, cont));
}

} // verus!
