//! What wrapping keeps: every printed line is a prefix followed by text that
//! does not end in a space, and the printed text is the paragraph's text with
//! only spaces added or removed.

use vstd::prelude::*;
use crate::text::{concat, trim_end_spaces};
use crate::units::{forbidden_line_start, BreakableUnit};
use crate::wrap::{
    append_atomic, append_unit, append_units, build, chosen_break,
    current_prefix, empty_line, flush_into, lemma_build_wf, lemma_chosen_break_valid,
    lemma_push_atomic_wf, lemma_push_unit_wf, line_wf, part_units, push_atomic, push_unit,
    raw_part, raw_parts, raw_units, render_parts, split_from, split_parts,
    break_in_range, wrap_from, wrap_lines, FragmentView, LineView, PartView, WrapView,
};

verus! {

/// The characters of `s` other than spaces.
pub open spec fn no_spaces(s: Seq<char>) -> Seq<char>
    decreases s.len(),
{
    if s.len() == 0 {
        Seq::empty()
    } else {
        no_spaces(s.drop_last()) + if s.last() == ' ' {
            Seq::empty()
        } else {
            seq![s.last()]
        }
    }
}

/// The text a fragment prints when nothing is wrapped.
pub open spec fn fragment_text(f: FragmentView) -> Seq<char> {
    match f {
        FragmentView::Text(us) => raw_units(us),
        FragmentView::Atomic(t) => t,
    }
}

/// The text of the first `n` fragments.
pub open spec fn fragments_text(fs: Seq<FragmentView>, n: int) -> Seq<char>
    decreases n,
{
    if n <= 0 || n > fs.len() {
        Seq::empty()
    } else {
        fragments_text(fs, n - 1) + fragment_text(fs[n - 1])
    }
}

/// Line `k` is `contents[k]` after the continuation prefix, or after the
/// first prefix when it is the first line; the text is not empty and does
/// not end with a space.
pub open spec fn printed_as(
    lines: Seq<Seq<char>>,
    contents: Seq<Seq<char>>,
    first: Seq<char>,
    cont: Seq<char>,
) -> bool {
    &&& lines.len() == contents.len()
    &&& forall|k: int|
        0 <= k < lines.len() ==> {
            &&& (#[trigger] contents[k]).len() > 0
            &&& contents[k].last() != ' '
            &&& (lines[k] == cont + contents[k] || (k == 0 && lines[k] == first + contents[k]))
        }
}

pub proof fn lemma_no_spaces_concat(a: Seq<char>, b: Seq<char>)
    ensures
        no_spaces(a + b) == no_spaces(a) + no_spaces(b),
    decreases b.len(),
{
    if b.len() == 0 {
        assert(a + b =~= a);
        assert(no_spaces(a) + no_spaces(b) =~= no_spaces(a));
    } else {
        lemma_no_spaces_concat(a, b.drop_last());
        assert((a + b).drop_last() =~= a + b.drop_last());
        assert(no_spaces(a + b) =~= no_spaces(a) + no_spaces(b));
    }
}

proof fn lemma_no_spaces_trim(s: Seq<char>)
    ensures
        no_spaces(trim_end_spaces(s)) == no_spaces(s),
        trim_end_spaces(s).len() > 0 ==> trim_end_spaces(s).last() != ' ',
    decreases s.len(),
{
    if s.len() > 0 && s.last() == ' ' {
        lemma_no_spaces_trim(s.drop_last());
    }
}

proof fn lemma_concat_push(pieces: Seq<Seq<char>>, p: Seq<char>)
    ensures
        concat(pieces.push(p)) == concat(pieces) + p,
{
    assert(pieces.push(p).drop_last() =~= pieces);
}

proof fn lemma_raw_parts_push(ps: Seq<PartView>, p: PartView)
    ensures
        raw_parts(ps.push(p)) == raw_parts(ps) + raw_part(p),
{
    assert(ps.push(p).drop_last() =~= ps);
}

/// The character a unit prints, if any.
pub open spec fn unit_text(u: BreakableUnit) -> Seq<char> {
    match u {
        BreakableUnit::Visible(c) => seq![c],
        _ => Seq::empty(),
    }
}

proof fn lemma_raw_unit(u: BreakableUnit)
    ensures
        raw_units(seq![u]) == unit_text(u),
        u == BreakableUnit::Visible(' ') || !(u is Visible) ==> no_spaces(unit_text(u))
            == Seq::<char>::empty(),
{
    assert(seq![u].drop_last() =~= Seq::<BreakableUnit>::empty());
    assert(raw_units(seq![u]) =~= raw_units(Seq::<BreakableUnit>::empty()) + unit_text(u));
    let sp = seq![' '];
    assert(sp.len() == 1);
    assert(sp.last() == ' ');
    assert(sp.drop_last() =~= Seq::<char>::empty());
    assert(no_spaces(sp.drop_last()) =~= Seq::<char>::empty());
    assert(no_spaces(sp) =~= Seq::<char>::empty());
}

proof fn lemma_raw_units_push(us: Seq<BreakableUnit>, u: BreakableUnit)
    ensures
        raw_units(us.push(u)) == raw_units(us) + raw_units(seq![u]),
{
    assert(us.push(u).drop_last() =~= us);
    lemma_raw_unit(u);
}

proof fn lemma_raw_units_split(us: Seq<BreakableUnit>, k: int)
    requires
        0 <= k <= us.len(),
    ensures
        raw_units(us.take(k)) + raw_units(us.skip(k)) == raw_units(us),
    decreases us.len() - k,
{
    if k == us.len() {
        assert(us.take(k) =~= us);
        assert(us.skip(k) =~= Seq::<BreakableUnit>::empty());
        assert(raw_units(us) + raw_units(Seq::<BreakableUnit>::empty()) =~= raw_units(us));
    } else {
        lemma_raw_units_split(us.drop_last(), k);
        assert(us.drop_last().take(k) =~= us.take(k));
        assert(us.skip(k).drop_last() =~= us.drop_last().skip(k));
        assert(us.skip(k).last() == us.last());
    }
}

/// Adding a unit adds its printed character (if any).
pub proof fn lemma_push_unit_raw(line: LineView, u: BreakableUnit)
    ensures
        raw_parts(push_unit(line, u).parts) == raw_parts(line.parts) + raw_units(seq![u]),
{
    let n = line.parts.len();
    if n > 0 && line.parts[n - 1] is Breakable {
        let us = part_units(line.parts[n - 1]);
        let ps2 = line.parts.update(n - 1, PartView::Breakable(us.push(u)));
        assert(ps2.drop_last() =~= line.parts.drop_last());
        lemma_raw_units_push(us, u);
        assert(raw_parts(ps2) =~= raw_parts(line.parts) + raw_units(seq![u]));
    } else {
        lemma_raw_parts_push(line.parts, PartView::Breakable(seq![u]));
    }
}

proof fn lemma_build_from_raw(ps: Seq<PartView>, n: int)
    requires
        0 <= n <= ps.len(),
    ensures
        raw_parts(crate::wrap::build_from(ps, n).parts) == raw_parts(ps.take(n)),
    decreases n,
{
    if n > 0 {
        lemma_build_from_raw(ps, n - 1);
        let acc = crate::wrap::build_from(ps, n - 1);
        let p = ps[n - 1];
        crate::wrap::lemma_add_part_parts(acc, p);
        assert(ps.take(n) =~= ps.take(n - 1).push(p));
        lemma_raw_parts_push(ps.take(n - 1), p);
        lemma_raw_parts_push(acc.parts, p);
        if crate::wrap::part_is_empty(p) {
            if let PartView::Breakable(us) = p {
                assert(raw_units(us) =~= Seq::<char>::empty());
            }
            assert(raw_parts(ps.take(n)) =~= raw_parts(ps.take(n - 1)));
        }
    } else {
        assert(ps.take(0) =~= Seq::<PartView>::empty());
    }
}

/// Building a line keeps its text.
pub proof fn lemma_build_raw(ps: Seq<PartView>)
    ensures
        raw_parts(build(ps).parts) == raw_parts(ps),
{
    lemma_build_from_raw(ps, ps.len() as int);
    assert(ps.take(ps.len() as int) =~= ps);
}

proof fn lemma_split_from_raw(ps: Seq<PartView>, bp: crate::wrap::BreakView, n: int)
    requires
        0 <= n <= ps.len(),
        break_in_range(ps, bp),
    ensures
        raw_parts(split_from(ps, bp, n).0) + raw_parts(split_from(ps, bp, n).1) == raw_parts(
            ps.take(n),
        ),
        n <= bp.part_index ==> split_from(ps, bp, n).1.len() == 0,
    decreases n,
{
    if n > 0 {
        lemma_split_from_raw(ps, bp, n - 1);
        let acc = split_from(ps, bp, n - 1);
        let p = ps[n - 1];
        assert(ps.take(n) =~= ps.take(n - 1).push(p));
        lemma_raw_parts_push(ps.take(n - 1), p);
        lemma_raw_parts_push(acc.0, p);
        lemma_raw_parts_push(acc.1, p);
        if n - 1 < bp.part_index {
            assert(acc.1 =~= Seq::<PartView>::empty());
            assert(raw_parts(acc.1) =~= Seq::<char>::empty());
            assert(raw_parts(acc.0.push(p)) + raw_parts(acc.1) =~= raw_parts(acc.0) + raw_part(p));
            assert(raw_parts(acc.0) + raw_parts(acc.1) =~= raw_parts(acc.0));
        } else if n - 1 == bp.part_index && p is Breakable {
            let us = part_units(p);
            let head = us.take(bp.unit_index);
            let tail = us.skip(bp.unit_index);
            lemma_raw_units_split(us, bp.unit_index);
            lemma_raw_parts_push(acc.0, PartView::Breakable(head));
            lemma_raw_parts_push(acc.1, PartView::Breakable(tail));
            assert(acc.1 =~= Seq::<PartView>::empty());
            assert(raw_parts(acc.1) =~= Seq::<char>::empty());
            if head.len() == 0 {
                assert(raw_units(head) =~= Seq::<char>::empty());
            }
            if tail.len() == 0 {
                assert(raw_units(tail) =~= Seq::<char>::empty());
            }
            assert(raw_parts(split_from(ps, bp, n).0) + raw_parts(split_from(ps, bp, n).1)
                =~= raw_parts(acc.0) + raw_units(head) + raw_units(tail));
        } else {
            assert(raw_parts(split_from(ps, bp, n).0) + raw_parts(split_from(ps, bp, n).1)
                =~= raw_parts(acc.0) + raw_parts(acc.1) + raw_part(p));
        }
    } else {
        assert(ps.take(0) =~= Seq::<PartView>::empty());
        assert(raw_parts(Seq::<PartView>::empty()) + raw_parts(Seq::<PartView>::empty())
            =~= raw_parts(Seq::<PartView>::empty()));
    }
}

/// Splitting a line at a breakpoint that stays within its part keeps the
/// line's text: the text before the break followed by the text after it.
pub proof fn lemma_split_raw(ps: Seq<PartView>, bp: crate::wrap::BreakView)
    requires
        break_in_range(ps, bp),
    ensures
        raw_parts(build(split_parts(ps, bp).0).parts) + raw_parts(
            build(split_parts(ps, bp).1).parts,
        ) == raw_parts(ps),
{
    lemma_split_from_raw(ps, bp, ps.len() as int);
    assert(ps.take(ps.len() as int) =~= ps);
    lemma_build_raw(split_parts(ps, bp).0);
    lemma_build_raw(split_parts(ps, bp).1);
}

/// The invariant of wrapping: the printed lines have the right shape, and
/// their text followed by the line being built is the text added so far,
/// spaces aside.
pub open spec fn wrap_inv(
    st: WrapView,
    contents: Seq<Seq<char>>,
    first: Seq<char>,
    cont: Seq<char>,
    text: Seq<char>,
) -> bool {
    &&& printed_as(st.lines, contents, first, cont)
    &&& (st.lines.len() > 0 ==> st.on_continuation)
    &&& line_wf(st.line)
    &&& no_spaces(concat(contents)) + no_spaces(raw_parts(st.line.parts)) == no_spaces(text)
}

proof fn lemma_flush_inv(
    st: WrapView,
    contents: Seq<Seq<char>>,
    first: Seq<char>,
    cont: Seq<char>,
    text: Seq<char>,
) -> (r: Seq<Seq<char>>)
    requires
        wrap_inv(st, contents, first, cont, text),
    ensures
        ({
            let (lines, line) = flush_into(st.lines, st.line, current_prefix(st, first, cont));
            wrap_inv(WrapView { lines, line, on_continuation: true }, r, first, cont, text)
        }),
{
    let prefix = current_prefix(st, first, cont);
    let content = render_parts(st.line.parts);
    lemma_no_spaces_trim(raw_parts(st.line.parts));
    if content.len() == 0 {
        contents
    } else {
        let r = contents.push(content);
        let lines = st.lines.push(prefix + content);
        assert forall|k: int| 0 <= k < lines.len() implies {
            &&& (#[trigger] r[k]).len() > 0
            &&& r[k].last() != ' '
            &&& (lines[k] == cont + r[k] || (k == 0 && lines[k] == first + r[k]))
        } by {
            if k < st.lines.len() {
                assert(r[k] == contents[k]);
                assert(lines[k] == st.lines[k]);
            }
        }
        lemma_concat_push(contents, content);
        lemma_no_spaces_concat(concat(contents), content);
        assert(raw_parts(empty_line().parts) =~= Seq::<char>::empty());
        assert(no_spaces(Seq::<char>::empty()) =~= Seq::<char>::empty());
        assert(no_spaces(concat(r)) + no_spaces(raw_parts(empty_line().parts)) =~= no_spaces(
            concat(r),
        ));
        r
    }
}

pub(crate) proof fn lemma_trim_len(s: Seq<char>)
    ensures
        trim_end_spaces(s).len() <= s.len(),
    decreases s.len(),
{
    if s.len() > 0 && s.last() == ' ' {
        lemma_trim_len(s.drop_last());
    }
}

/// What a flush leaves on the line prints nothing but spaces.
proof fn lemma_flush_leaves_blank(lines: Seq<Seq<char>>, line: LineView, prefix: Seq<char>)
    ensures
        no_spaces(raw_parts(flush_into(lines, line, prefix).1.parts)) == Seq::<char>::empty(),
{
    lemma_no_spaces_trim(raw_parts(line.parts));
    if render_parts(line.parts).len() > 0 {
        assert(raw_parts(empty_line().parts) =~= Seq::<char>::empty());
    } else {
        assert(no_spaces(trim_end_spaces(raw_parts(line.parts))) =~= Seq::<char>::empty());
    }
}

/// Adding a unit keeps the invariant, with the unit's character added to the
/// text.
pub proof fn lemma_append_unit_inv(
    st: WrapView,
    contents: Seq<Seq<char>>,
    first: Seq<char>,
    cont: Seq<char>,
    text: Seq<char>,
    u: BreakableUnit,
) -> (r: Seq<Seq<char>>)
    requires
        wrap_inv(st, contents, first, cont, text),
    ensures
        wrap_inv(append_unit(st, first, cont, u), r, first, cont, text + raw_units(seq![u])),
    decreases crate::wrap::parts_size(st.line.parts),
{
    let text2 = text + raw_units(seq![u]);
    let raw_u = raw_units(seq![u]);
    lemma_raw_unit(u);
    lemma_no_spaces_concat(text, raw_u);
    let prefix = current_prefix(st, first, cont);
    if u == BreakableUnit::ForcedBreak {
        assert(raw_u =~= Seq::<char>::empty());
        assert(text2 =~= text);
        if st.line.width > 0 {
            lemma_flush_inv(st, contents, first, cont, text)
        } else {
            contents
        }
    } else if st.line.width == 0 && (u == BreakableUnit::Visible(' ') || u is SoftBreak) {
        assert(no_spaces(raw_u) =~= Seq::<char>::empty());
        assert(no_spaces(text2) =~= no_spaces(text));
        contents
    } else if crate::wrap::fits(prefix, st.line.width, crate::units::unit_cols(u))
        || st.line.width == 0 {
        lemma_push_unit_wf(st.line, u);
        lemma_push_unit_raw(st.line, u);
        lemma_no_spaces_concat(raw_parts(st.line.parts), raw_u);
        assert(no_spaces(concat(contents)) + no_spaces(raw_parts(push_unit(st.line, u).parts))
            =~= no_spaces(text2));
        contents
    } else {
        lemma_chosen_break_valid(st.line, u);
        match chosen_break(st.line, u) {
            Some(bp) => {
                let (left, rest) = split_parts(st.line.parts, bp);
                let lline = build(left);
                let rline = build(rest);
                lemma_split_raw(st.line.parts, bp);
                lemma_build_wf(left);
                lemma_build_wf(rest);
                crate::wrap::lemma_split_rest_smaller(st.line.parts, bp);
                let mid = WrapView { line: lline, ..st };
                let text_mid = concat(contents) + raw_parts(lline.parts);
                lemma_no_spaces_concat(concat(contents), raw_parts(lline.parts));
                lemma_no_spaces_concat(raw_parts(lline.parts), raw_parts(rline.parts));
                let c1 = lemma_flush_inv(mid, contents, first, cont, text_mid);
                let flushed = flush_into(st.lines, lline, prefix);
                lemma_flush_leaves_blank(st.lines, lline, prefix);
                assert(no_spaces(concat(c1)) + no_spaces(raw_parts(flushed.1.parts)) == no_spaces(
                    text_mid,
                ));
                assert(no_spaces(concat(c1)) + no_spaces(raw_parts(flushed.1.parts)) =~= no_spaces(
                    concat(c1),
                ));
                let next = WrapView { lines: flushed.0, line: rline, on_continuation: true };
                assert(no_spaces(concat(c1)) + no_spaces(raw_parts(rline.parts)) =~= no_spaces(
                    text,
                ));
                lemma_append_unit_inv(next, c1, first, cont, text, u)
            },
            None => {
                if render_parts(st.line.parts).len() == 0 {
                    lemma_push_unit_wf(st.line, u);
                    lemma_push_unit_raw(st.line, u);
                    lemma_no_spaces_concat(raw_parts(st.line.parts), raw_u);
                    assert(no_spaces(concat(contents)) + no_spaces(
                        raw_parts(push_unit(st.line, u).parts),
                    ) =~= no_spaces(text2));
                    contents
                } else {
                    let c1 = lemma_flush_inv(st, contents, first, cont, text);
                    let (lines, line) = flush_into(st.lines, st.line, prefix);
                    let next = WrapView { lines, line, on_continuation: true };
                    crate::wrap::lemma_text_has_size(st.line.parts);
                    lemma_trim_len(raw_parts(st.line.parts));
                    lemma_append_unit_inv(next, c1, first, cont, text, u)
                }
            },
        }
    }
}


/// Adding an atomic fragment keeps the invariant, with its text added.
pub proof fn lemma_append_atomic_inv(
    st: WrapView,
    contents: Seq<Seq<char>>,
    first: Seq<char>,
    cont: Seq<char>,
    text: Seq<char>,
    t: Seq<char>,
) -> (r: Seq<Seq<char>>)
    requires
        wrap_inv(st, contents, first, cont, text),
    ensures
        wrap_inv(append_atomic(st, first, cont, t), r, first, cont, text + t),
{
    let prefix = current_prefix(st, first, cont);
    let flushes = st.line.width > 0 && !crate::wrap::fits(
        prefix,
        st.line.width,
        crate::text::str_cols(t),
    );
    let c1 = if flushes {
        lemma_flush_inv(st, contents, first, cont, text)
    } else {
        contents
    };
    let st2 = if flushes {
        let (lines, line) = flush_into(st.lines, st.line, prefix);
        WrapView { lines, line, on_continuation: true }
    } else {
        st
    };
    assert(wrap_inv(st2, c1, first, cont, text));
    lemma_push_atomic_wf(st2.line, t);
    lemma_raw_parts_push(st2.line.parts, PartView::Atomic(t));
    lemma_no_spaces_concat(raw_parts(st2.line.parts), t);
    lemma_no_spaces_concat(text, t);
    assert(no_spaces(concat(c1)) + no_spaces(raw_parts(push_atomic(st2.line, t).parts)) =~= no_spaces(
        text + t,
    ));
    c1
}

proof fn lemma_append_units_inv(
    st: WrapView,
    contents: Seq<Seq<char>>,
    first: Seq<char>,
    cont: Seq<char>,
    text: Seq<char>,
    us: Seq<BreakableUnit>,
    n: int,
) -> (r: Seq<Seq<char>>)
    requires
        wrap_inv(st, contents, first, cont, text),
        0 <= n <= us.len(),
    ensures
        wrap_inv(append_units(st, first, cont, us, n), r, first, cont, text + raw_units(us.take(n))),
    decreases n,
{
    if n == 0 {
        assert(us.take(0) =~= Seq::<BreakableUnit>::empty());
        assert(text + raw_units(us.take(0)) =~= text);
        contents
    } else {
        let c1 = lemma_append_units_inv(st, contents, first, cont, text, us, n - 1);
        let mid = append_units(st, first, cont, us, n - 1);
        let r = lemma_append_unit_inv(mid, c1, first, cont, text + raw_units(us.take(n - 1)), us[n - 1]);
        assert(us.take(n) =~= us.take(n - 1).push(us[n - 1]));
        lemma_raw_units_push(us.take(n - 1), us[n - 1]);
        assert(text + raw_units(us.take(n - 1)) + raw_units(seq![us[n - 1]]) =~= text + raw_units(
            us.take(n),
        ));
        r
    }
}

proof fn lemma_wrap_from_inv(fs: Seq<FragmentView>, first: Seq<char>, cont: Seq<char>, n: int) -> (r: Seq<Seq<char>>)
    requires
        0 <= n <= fs.len(),
    ensures
        wrap_inv(wrap_from(fs, first, cont, n), r, first, cont, fragments_text(fs, n)),
    decreases n,
{
    if n == 0 {
        let st = wrap_from(fs, first, cont, 0);
        let empty: Seq<Seq<char>> = Seq::empty();
        assert(raw_parts(empty_line().parts) =~= Seq::<char>::empty());
        assert(no_spaces(Seq::<char>::empty()) =~= Seq::<char>::empty());
        assert(concat(empty) =~= Seq::<char>::empty());
        assert(no_spaces(concat(empty)) + no_spaces(raw_parts(st.line.parts)) =~= no_spaces(
            fragments_text(fs, 0),
        ));
        empty
    } else {
        let c1 = lemma_wrap_from_inv(fs, first, cont, n - 1);
        let st = wrap_from(fs, first, cont, n - 1);
        let text = fragments_text(fs, n - 1);
        match fs[n - 1] {
            FragmentView::Text(us) => {
                let r = lemma_append_units_inv(st, c1, first, cont, text, us, us.len() as int);
                assert(us.take(us.len() as int) =~= us);
                r
            },
            FragmentView::Atomic(t) => lemma_append_atomic_inv(st, c1, first, cont, text, t),
        }
    }
}

/// Wrapping keeps the text: every printed line is the continuation prefix
/// (or, for the first line, the first prefix) followed by text that is not
/// empty and does not end with a space, and the printed text, spaces aside,
/// is the text of the fragments.
pub proof fn lemma_wrap_keeps_text(fs: Seq<FragmentView>, first: Seq<char>, cont: Seq<char>)
    ensures
        exists|contents: Seq<Seq<char>>|
            printed_as(wrap_lines(fs, first, cont), contents, first, cont) && no_spaces(
                concat(contents),
            ) == no_spaces(fragments_text(fs, fs.len() as int)),
{
    let c1 = lemma_wrap_from_inv(fs, first, cont, fs.len() as int);
    let st = wrap_from(fs, first, cont, fs.len() as int);
    let r = lemma_flush_inv(st, c1, first, cont, fragments_text(fs, fs.len() as int));
    let (lines, line) = flush_into(st.lines, st.line, current_prefix(st, first, cont));
    lemma_flush_leaves_blank(st.lines, st.line, current_prefix(st, first, cont));
    assert(no_spaces(concat(r)) + no_spaces(raw_parts(line.parts)) =~= no_spaces(concat(r)));
    assert(printed_as(wrap_lines(fs, first, cont), r, first, cont));
}

proof fn lemma_last_allowed_allowed(
    ps: Seq<PartView>,
    bps: Seq<crate::wrap::BreakView>,
    n: int,
    incoming: BreakableUnit,
)
    ensures
        crate::wrap::last_allowed(ps, bps, n, incoming) matches Some(bp) ==> crate::wrap::allowed(
            ps,
            bp,
            incoming,
        ),
    decreases n,
{
    if 0 < n <= bps.len() && !crate::wrap::allowed(ps, bps[n - 1], incoming) {
        lemma_last_allowed_allowed(ps, bps, n - 1, incoming);
    }
}

/// A line is never broken before closing punctuation: where a break is
/// chosen, the first character printed after it is not one that must stay
/// off the start of a line, and when nothing printed follows it, neither is
/// the unit that does not fit.
pub proof fn lemma_break_avoids_closing_punctuation(line: LineView, incoming: BreakableUnit)
    ensures
        chosen_break(line, incoming) matches Some(bp) ==> match crate::wrap::first_visible_after(
            line.parts,
            bp,
        ) {
            Some(c) => !forbidden_line_start(c),
            None => !(incoming matches BreakableUnit::Visible(c) && forbidden_line_start(c)),
        },
{
    let bps = crate::wrap::all_breakpoints(line.parts);
    lemma_last_allowed_allowed(line.parts, bps, bps.len() as int, incoming);
}

} // verus!
