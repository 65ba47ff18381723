//! Greedy wrapping of paragraph text at 80 columns.
//!
//! A paragraph is a sequence of fragments: breakable text (units) and atomic
//! pieces (rendered inline code, links, emphasis, ...) that are never split.
//! Units are added to the current line while the line, with its prefix, fits
//! in 80 columns. When the next unit does not fit, the line is broken at the
//! best breakpoint (a recent preferred soft break, else the last space, wide
//! character or soft break that does not leave closing punctuation at the
//! start of the next line), or flushed whole.

use vstd::prelude::*;
use crate::text::{
    char_cols, join, join_with, push_char, push_str, str_width, strings_view, to_string,
    trim_end_spaces, trim_trailing_spaces, str_cols,
};
use crate::units::{
    breakable_unit_width, breaks_after, can_break_after_unit, forbidden_line_start,
    is_forbidden_line_start_punctuation, unit_cols, BreakableUnit,
};

verus! {

/// Lines are wrapped to this many columns, prefix included.
pub const MAX_LINE_WIDTH: usize = 80;

/// A preferred soft break is taken when at most this many columns follow it.
pub const PREFERRED_SOFT_BREAK_SLACK: usize = 2;

/// A piece of paragraph content.
pub enum InlineFragment {
    /// Text that may be broken between units.
    BreakableText(Vec<BreakableUnit>),
    /// Rendered inline markup that is kept whole.
    Atomic(String),
}

/// A piece of the line being built.
pub enum LinePart {
    Breakable(Vec<BreakableUnit>),
    Atomic(String),
}

/// A place where the current line may be broken: after unit `unit_index - 1`
/// of part `part_index`, where the line is `width` columns wide.
#[derive(Clone, Copy)]
pub struct BreakPoint {
    pub part_index: usize,
    pub unit_index: usize,
    pub width: usize,
}

/// The line being built and the latest breakpoints of each kind.
pub struct LineState {
    pub parts: Vec<LinePart>,
    pub width: usize,
    pub last_preferred_break: Option<BreakPoint>,
    pub last_space_break: Option<BreakPoint>,
    pub last_char_break: Option<BreakPoint>,
}

// ---------------------------------------------------------------------------
// Mathematical model
// ---------------------------------------------------------------------------

pub enum FragmentView {
    Text(Seq<BreakableUnit>),
    Atomic(Seq<char>),
}

pub enum PartView {
    Breakable(Seq<BreakableUnit>),
    Atomic(Seq<char>),
}

pub struct BreakView {
    pub part_index: int,
    pub unit_index: int,
    pub width: nat,
}

pub struct LineView {
    pub parts: Seq<PartView>,
    pub width: nat,
    pub preferred: Option<BreakView>,
    pub space: Option<BreakView>,
    pub character: Option<BreakView>,
}

/// The lines printed so far, the line being built, and whether the
/// continuation prefix is in use (it is after the first line is printed).
pub struct WrapView {
    pub lines: Seq<Seq<char>>,
    pub line: LineView,
    pub on_continuation: bool,
}

impl View for InlineFragment {
    type V = FragmentView;

    open spec fn view(&self) -> FragmentView {
        match self {
            InlineFragment::BreakableText(us) => FragmentView::Text(us@),
            InlineFragment::Atomic(t) => FragmentView::Atomic(t@),
        }
    }
}

impl View for LinePart {
    type V = PartView;

    open spec fn view(&self) -> PartView {
        match self {
            LinePart::Breakable(us) => PartView::Breakable(us@),
            LinePart::Atomic(t) => PartView::Atomic(t@),
        }
    }
}

impl View for BreakPoint {
    type V = BreakView;

    open spec fn view(&self) -> BreakView {
        BreakView {
            part_index: self.part_index as int,
            unit_index: self.unit_index as int,
            width: self.width as nat,
        }
    }
}

pub open spec fn opt_break_view(b: Option<BreakPoint>) -> Option<BreakView> {
    match b {
        Some(p) => Some(p@),
        None => None,
    }
}

pub open spec fn parts_view(ps: Seq<LinePart>) -> Seq<PartView> {
    ps.map_values(|p: LinePart| p@)
}

pub open spec fn fragments_view(fs: Seq<InlineFragment>) -> Seq<FragmentView> {
    fs.map_values(|f: InlineFragment| f@)
}

impl View for LineState {
    type V = LineView;

    open spec fn view(&self) -> LineView {
        LineView {
            parts: parts_view(self.parts@),
            width: self.width as nat,
            preferred: opt_break_view(self.last_preferred_break),
            space: opt_break_view(self.last_space_break),
            character: opt_break_view(self.last_char_break),
        }
    }
}

/// `a + b`, at most `usize::MAX`.
pub open spec fn sat_add(a: nat, b: nat) -> nat {
    if a + b > usize::MAX {
        usize::MAX as nat
    } else {
        a + b
    }
}

pub open spec fn empty_line() -> LineView {
    LineView {
        parts: Seq::empty(),
        width: 0,
        preferred: None,
        space: None,
        character: None,
    }
}

/// The units of a part (none for an atomic part).
pub open spec fn part_units(p: PartView) -> Seq<BreakableUnit> {
    match p {
        PartView::Breakable(us) => us,
        PartView::Atomic(_) => Seq::empty(),
    }
}

pub open spec fn part_is_empty(p: PartView) -> bool {
    match p {
        PartView::Breakable(us) => us.len() == 0,
        PartView::Atomic(t) => t.len() == 0,
    }
}

/// The line after its unit `k` of part `pi`, the unit `u`, is counted as
/// taking `w` columns: the width grows by `w`, and a breakpoint of the unit's
/// kind is remembered after it.
pub open spec fn count_unit(acc: LineView, pi: int, k: int, u: BreakableUnit, w: nat) -> LineView {
    let width = sat_add(acc.width, w);
    let bp = BreakView { part_index: pi, unit_index: k + 1, width };
    LineView {
        parts: acc.parts,
        width,
        preferred: if u == (BreakableUnit::SoftBreak { preferred: true }) {
            Some(bp)
        } else {
            acc.preferred
        },
        space: if u == BreakableUnit::Visible(' ') {
            Some(bp)
        } else {
            acc.space
        },
        character: if breaks_after(u) {
            Some(bp)
        } else {
            acc.character
        },
    }
}

/// The line after its unit `k` of part `pi`, the unit `u`, is counted with
/// its own width.
pub open spec fn scan_unit(acc: LineView, pi: int, k: int, u: BreakableUnit) -> LineView {
    count_unit(acc, pi, k, u, unit_cols(u))
}

/// The line after the first `n` units of part `pi` are counted.
pub open spec fn scan_units(acc: LineView, pi: int, us: Seq<BreakableUnit>, n: int) -> LineView
    decreases n,
{
    if n <= 0 || n > us.len() {
        acc
    } else {
        scan_unit(scan_units(acc, pi, us, n - 1), pi, n - 1, us[n - 1])
    }
}

/// The line with part `p` added (empty parts are dropped).
pub open spec fn add_part(acc: LineView, p: PartView) -> LineView {
    if part_is_empty(p) {
        acc
    } else {
        let pi = acc.parts.len() as int;
        let counted = match p {
            PartView::Breakable(us) => scan_units(acc, pi, us, us.len() as int),
            PartView::Atomic(t) => LineView {
                width: sat_add(acc.width, str_cols(t)),
                ..acc
            },
        };
        LineView { parts: acc.parts.push(p), ..counted }
    }
}

/// A line built from the first `n` of the given parts.
pub open spec fn build_from(ps: Seq<PartView>, n: int) -> LineView
    decreases n,
{
    if n <= 0 || n > ps.len() {
        empty_line()
    } else {
        add_part(build_from(ps, n - 1), ps[n - 1])
    }
}

/// A line built from the given parts.
pub open spec fn build(ps: Seq<PartView>) -> LineView {
    build_from(ps, ps.len() as int)
}

/// The line with one more unit at its end, counted as taking `w` columns
/// (the unit joins the last part when that part is breakable).
pub open spec fn push_unit_width(line: LineView, u: BreakableUnit, w: nat) -> LineView {
    let n = line.parts.len();
    let parts = if n > 0 && line.parts[n - 1] is Breakable {
        line.parts.update(n - 1, PartView::Breakable(part_units(line.parts[n - 1]).push(u)))
    } else {
        line.parts.push(PartView::Breakable(seq![u]))
    };
    let pi = parts.len() - 1;
    count_unit(LineView { parts, ..line }, pi, part_units(parts[pi]).len() - 1, u, w)
}

/// The line with one more unit at its end, taking its own width.
pub open spec fn push_unit(line: LineView, u: BreakableUnit) -> LineView {
    push_unit_width(line, u, unit_cols(u))
}

/// The line with an atomic part at its end.
pub open spec fn push_atomic(line: LineView, t: Seq<char>) -> LineView {
    LineView {
        parts: line.parts.push(PartView::Atomic(t)),
        width: sat_add(line.width, str_cols(t)),
        ..line
    }
}

/// The printed characters of the units.
pub open spec fn raw_units(us: Seq<BreakableUnit>) -> Seq<char>
    decreases us.len(),
{
    if us.len() == 0 {
        Seq::empty()
    } else {
        raw_units(us.drop_last()) + match us.last() {
            BreakableUnit::Visible(c) => seq![c],
            _ => Seq::empty(),
        }
    }
}

pub open spec fn raw_part(p: PartView) -> Seq<char> {
    match p {
        PartView::Breakable(us) => raw_units(us),
        PartView::Atomic(t) => t,
    }
}

/// The printed characters of the parts.
pub open spec fn raw_parts(ps: Seq<PartView>) -> Seq<char>
    decreases ps.len(),
{
    if ps.len() == 0 {
        Seq::empty()
    } else {
        raw_parts(ps.drop_last()) + raw_part(ps.last())
    }
}

/// The text of a line: its printed characters without trailing spaces.
pub open spec fn render_parts(ps: Seq<PartView>) -> Seq<char> {
    trim_end_spaces(raw_parts(ps))
}

/// Prints the line with its prefix, unless it has no text; a printed line is
/// cleared.
pub open spec fn flush_into(lines: Seq<Seq<char>>, line: LineView, prefix: Seq<char>) -> (
    Seq<Seq<char>>,
    LineView,
) {
    let content = render_parts(line.parts);
    if content.len() == 0 {
        (lines, line)
    } else {
        (lines.push(prefix + content), empty_line())
    }
}

/// One step of splitting parts at a breakpoint.
pub open spec fn split_step(
    acc: (Seq<PartView>, Seq<PartView>),
    index: int,
    p: PartView,
    bp: BreakView,
) -> (Seq<PartView>, Seq<PartView>) {
    if index < bp.part_index {
        (acc.0.push(p), acc.1)
    } else if index == bp.part_index && p is Breakable {
        let us = part_units(p);
        let head = us.take(bp.unit_index);
        let tail = us.skip(bp.unit_index);
        (
            if head.len() > 0 {
                acc.0.push(PartView::Breakable(head))
            } else {
                acc.0
            },
            if tail.len() > 0 {
                acc.1.push(PartView::Breakable(tail))
            } else {
                acc.1
            },
        )
    } else {
        (acc.0, acc.1.push(p))
    }
}

/// The parts before and after a breakpoint, for the first `n` parts.
pub open spec fn split_from(ps: Seq<PartView>, bp: BreakView, n: int) -> (
    Seq<PartView>,
    Seq<PartView>,
)
    decreases n,
{
    if n <= 0 || n > ps.len() {
        (Seq::empty(), Seq::empty())
    } else {
        split_step(split_from(ps, bp, n - 1), n - 1, ps[n - 1], bp)
    }
}

/// The parts before and after a breakpoint.
pub open spec fn split_parts(ps: Seq<PartView>, bp: BreakView) -> (Seq<PartView>, Seq<PartView>) {
    split_from(ps, bp, ps.len() as int)
}

/// Breakpoints found so far and the width reached.
pub struct Collected {
    pub bps: Seq<BreakView>,
    pub width: nat,
}

pub open spec fn collect_unit(acc: Collected, pi: int, k: int, u: BreakableUnit) -> Collected {
    let width = sat_add(acc.width, unit_cols(u));
    Collected {
        bps: if u == BreakableUnit::Visible(' ') || breaks_after(u) {
            acc.bps.push(BreakView { part_index: pi, unit_index: k + 1, width })
        } else {
            acc.bps
        },
        width,
    }
}

pub open spec fn collect_units(acc: Collected, pi: int, us: Seq<BreakableUnit>, n: int) -> Collected
    decreases n,
{
    if n <= 0 || n > us.len() {
        acc
    } else {
        collect_unit(collect_units(acc, pi, us, n - 1), pi, n - 1, us[n - 1])
    }
}

pub open spec fn collect_part(acc: Collected, pi: int, p: PartView) -> Collected {
    match p {
        PartView::Breakable(us) => collect_units(acc, pi, us, us.len() as int),
        PartView::Atomic(t) => Collected {
            bps: acc.bps,
            width: sat_add(acc.width, str_cols(t)),
        },
    }
}

pub open spec fn collect_from(ps: Seq<PartView>, n: int) -> Collected
    decreases n,
{
    if n <= 0 || n > ps.len() {
        Collected { bps: Seq::empty(), width: 0 }
    } else {
        collect_part(collect_from(ps, n - 1), n - 1, ps[n - 1])
    }
}

/// Every place after a space, a wide character or a soft break, in order.
pub open spec fn all_breakpoints(ps: Seq<PartView>) -> Seq<BreakView> {
    collect_from(ps, ps.len() as int).bps
}

/// The first printed unit of `us[start..]`.
pub open spec fn first_visible_in(us: Seq<BreakableUnit>, start: int) -> Option<char>
    decreases us.len() - start,
{
    if start < 0 || start >= us.len() {
        None
    } else {
        match us[start] {
            BreakableUnit::Visible(c) => Some(c),
            _ => first_visible_in(us, start + 1),
        }
    }
}

/// The first printed character after the breakpoint, searching parts from `j`.
pub open spec fn first_visible_from(ps: Seq<PartView>, bp: BreakView, j: int) -> Option<char>
    decreases ps.len() - j,
{
    if j < 0 || j >= ps.len() {
        None
    } else {
        let found = match ps[j] {
            PartView::Breakable(us) => first_visible_in(
                us,
                if j == bp.part_index {
                    bp.unit_index
                } else {
                    0
                },
            ),
            PartView::Atomic(t) => if t.len() > 0 {
                Some(t[0])
            } else {
                None
            },
        };
        if found is Some {
            found
        } else {
            first_visible_from(ps, bp, j + 1)
        }
    }
}

/// The first printed character after the breakpoint.
pub open spec fn first_visible_after(ps: Seq<PartView>, bp: BreakView) -> Option<char> {
    if bp.part_index < 0 {
        first_visible_from(ps, bp, 0)
    } else {
        first_visible_from(ps, bp, bp.part_index)
    }
}

/// Breaking here does not start the next line with closing punctuation.
pub open spec fn allowed(ps: Seq<PartView>, bp: BreakView, incoming: BreakableUnit) -> bool {
    match first_visible_after(ps, bp) {
        Some(c) => !forbidden_line_start(c),
        None => !(incoming matches BreakableUnit::Visible(c) && forbidden_line_start(c)),
    }
}

/// The last allowed breakpoint among the first `n`.
pub open spec fn last_allowed(
    ps: Seq<PartView>,
    bps: Seq<BreakView>,
    n: int,
    incoming: BreakableUnit,
) -> Option<BreakView>
    decreases n,
{
    if n <= 0 || n > bps.len() {
        None
    } else if allowed(ps, bps[n - 1], incoming) {
        Some(bps[n - 1])
    } else {
        last_allowed(ps, bps, n - 1, incoming)
    }
}

/// `a - b`, at least 0.
pub open spec fn sat_sub(a: nat, b: nat) -> nat {
    if a >= b {
        (a - b) as nat
    } else {
        0
    }
}

/// Where to break a line that the incoming unit does not fit on: the last
/// preferred soft break when at most two columns follow it, else the last
/// allowed breakpoint.
pub open spec fn chosen_break(line: LineView, incoming: BreakableUnit) -> Option<BreakView> {
    if line.preferred is Some && sat_sub(line.width, line.preferred->0.width)
        <= PREFERRED_SOFT_BREAK_SLACK && allowed(line.parts, line.preferred->0, incoming) {
        line.preferred
    } else {
        let bps = all_breakpoints(line.parts);
        last_allowed(line.parts, bps, bps.len() as int, incoming)
    }
}

/// Units and non-empty atomic parts of a line.
pub open spec fn parts_size(ps: Seq<PartView>) -> nat
    decreases ps.len(),
{
    if ps.len() == 0 {
        0
    } else {
        parts_size(ps.drop_last()) + match ps.last() {
            PartView::Breakable(us) => us.len(),
            PartView::Atomic(t) => if t.len() > 0 {
                1nat
            } else {
                0nat
            },
        }
    }
}

pub open spec fn current_prefix(st: WrapView, first: Seq<char>, cont: Seq<char>) -> Seq<char> {
    if st.on_continuation {
        cont
    } else {
        first
    }
}

/// The line fits in 80 columns with its prefix and `w` more columns.
pub open spec fn fits(prefix: Seq<char>, width: nat, w: nat) -> bool {
    str_cols(prefix) + width + w <= MAX_LINE_WIDTH
}

/// Adds one unit to the paragraph.
///
/// A forced break prints the line (if it is not empty); spaces and soft
/// breaks at the start of a line are dropped; a unit that fits, or that
/// starts a line, is added. Otherwise the line is broken at the chosen
/// breakpoint and the unit is added to what follows it; without a
/// breakpoint the whole line is printed first. A line whose text is blank
/// is never printed: the unit joins it.
pub open spec fn append_unit(st: WrapView, first: Seq<char>, cont: Seq<char>, u: BreakableUnit) -> WrapView
    decreases parts_size(st.line.parts),
{
    let prefix = current_prefix(st, first, cont);
    if u == BreakableUnit::ForcedBreak {
        if st.line.width > 0 {
            let (lines, line) = flush_into(st.lines, st.line, prefix);
            WrapView { lines, line, on_continuation: true }
        } else {
            st
        }
    } else if st.line.width == 0 && (u == BreakableUnit::Visible(' ') || u is SoftBreak) {
        st
    } else if fits(prefix, st.line.width, unit_cols(u)) || st.line.width == 0 {
        WrapView { line: push_unit(st.line, u), ..st }
    } else {
        match chosen_break(st.line, u) {
            Some(bp) => {
                let (left, rest) = split_parts(st.line.parts, bp);
                let (lines, _) = flush_into(st.lines, build(left), prefix);
                let next = WrapView { lines, line: build(rest), on_continuation: true };
                if parts_size(build(rest).parts) < parts_size(st.line.parts) {
                    append_unit(next, first, cont, u)
                } else {
                    next
                }
            },
            None => {
                if render_parts(st.line.parts).len() == 0 {
                    WrapView { lines: st.lines, line: push_unit(st.line, u), on_continuation: true }
                } else {
                    let (lines, line) = flush_into(st.lines, st.line, prefix);
                    let next = WrapView { lines, line, on_continuation: true };
                    if 0 < parts_size(st.line.parts) {
                        append_unit(next, first, cont, u)
                    } else {
                        next
                    }
                }
            },
        }
    }
}

/// Adds an atomic fragment: the line is printed first when it has text and
/// the fragment does not fit after it.
pub open spec fn append_atomic(st: WrapView, first: Seq<char>, cont: Seq<char>, t: Seq<char>) -> WrapView {
    let prefix = current_prefix(st, first, cont);
    let st2 = if st.line.width > 0 && !fits(prefix, st.line.width, str_cols(t)) {
        let (lines, line) = flush_into(st.lines, st.line, prefix);
        WrapView { lines, line, on_continuation: true }
    } else {
        st
    };
    WrapView { line: push_atomic(st2.line, t), ..st2 }
}

/// Adds the first `n` units.
pub open spec fn append_units(
    st: WrapView,
    first: Seq<char>,
    cont: Seq<char>,
    us: Seq<BreakableUnit>,
    n: int,
) -> WrapView
    decreases n,
{
    if n <= 0 || n > us.len() {
        st
    } else {
        append_unit(append_units(st, first, cont, us, n - 1), first, cont, us[n - 1])
    }
}

pub open spec fn append_fragment(st: WrapView, first: Seq<char>, cont: Seq<char>, f: FragmentView) -> WrapView {
    match f {
        FragmentView::Text(us) => append_units(st, first, cont, us, us.len() as int),
        FragmentView::Atomic(t) => append_atomic(st, first, cont, t),
    }
}

/// The state after the first `n` fragments.
pub open spec fn wrap_from(fs: Seq<FragmentView>, first: Seq<char>, cont: Seq<char>, n: int) -> WrapView
    decreases n,
{
    if n <= 0 || n > fs.len() {
        WrapView { lines: Seq::empty(), line: empty_line(), on_continuation: false }
    } else {
        append_fragment(wrap_from(fs, first, cont, n - 1), first, cont, fs[n - 1])
    }
}

/// The printed lines of a paragraph.
pub open spec fn wrap_lines(fs: Seq<FragmentView>, first: Seq<char>, cont: Seq<char>) -> Seq<Seq<char>> {
    let st = wrap_from(fs, first, cont, fs.len() as int);
    flush_into(st.lines, st.line, current_prefix(st, first, cont)).0
}

/// A paragraph wrapped to 80 columns: its lines joined by newlines.
pub open spec fn wrapped(fs: Seq<FragmentView>, first: Seq<char>, cont: Seq<char>) -> Seq<char> {
    join(wrap_lines(fs, first, cont), seq!['\n'])
}


// ---------------------------------------------------------------------------
// Well-formed lines
// ---------------------------------------------------------------------------

/// The breakpoint lies inside a breakable part, after at least one unit.
pub open spec fn valid_break(ps: Seq<PartView>, bp: BreakView) -> bool {
    &&& 0 <= bp.part_index < ps.len()
    &&& ps[bp.part_index] is Breakable
    &&& 1 <= bp.unit_index <= part_units(ps[bp.part_index]).len()
}

/// The breakpoint does not point past the units of its part, when that part
/// is a breakable part of the line (any other breakpoint is accepted).
pub open spec fn break_in_range(ps: Seq<PartView>, bp: BreakView) -> bool {
    &&& 0 <= bp.part_index
    &&& 0 <= bp.unit_index
    &&& (bp.part_index < ps.len() && ps[bp.part_index] is Breakable) ==> bp.unit_index <= part_units(
        ps[bp.part_index],
    ).len()
}

pub open spec fn valid_opt_break(ps: Seq<PartView>, b: Option<BreakView>) -> bool {
    b matches Some(bp) ==> valid_break(ps, bp)
}

/// Every remembered breakpoint of the line is valid.
pub open spec fn line_wf(l: LineView) -> bool {
    &&& valid_opt_break(l.parts, l.preferred)
    &&& valid_opt_break(l.parts, l.space)
    &&& valid_opt_break(l.parts, l.character)
}

/// A remembered breakpoint is kept, or points into part `pi` after at most
/// `n` units.
pub open spec fn kept_or_in(old: Option<BreakView>, new: Option<BreakView>, pi: int, n: int) -> bool {
    new == old || (new matches Some(bp) && bp.part_index == pi && 1 <= bp.unit_index <= n)
}

pub proof fn lemma_scan_units(acc: LineView, pi: int, us: Seq<BreakableUnit>, n: int)
    requires
        0 <= n <= us.len(),
    ensures
        scan_units(acc, pi, us, n).parts == acc.parts,
        kept_or_in(acc.preferred, scan_units(acc, pi, us, n).preferred, pi, n),
        kept_or_in(acc.space, scan_units(acc, pi, us, n).space, pi, n),
        kept_or_in(acc.character, scan_units(acc, pi, us, n).character, pi, n),
    decreases n,
{
    if n > 0 {
        lemma_scan_units(acc, pi, us, n - 1);
    }
}

proof fn lemma_valid_break_push(ps: Seq<PartView>, p: PartView, b: Option<BreakView>)
    requires
        valid_opt_break(ps, b),
    ensures
        valid_opt_break(ps.push(p), b),
{
    if let Some(bp) = b {
        assert(ps.push(p)[bp.part_index] == ps[bp.part_index]);
    }
}

proof fn lemma_add_part_wf(acc: LineView, p: PartView)
    requires
        line_wf(acc),
    ensures
        line_wf(add_part(acc, p)),
        add_part(acc, p).parts == (if part_is_empty(p) {
            acc.parts
        } else {
            acc.parts.push(p)
        }),
{
    if !part_is_empty(p) {
        let pi = acc.parts.len() as int;
        let ps2 = acc.parts.push(p);
        lemma_valid_break_push(acc.parts, p, acc.preferred);
        lemma_valid_break_push(acc.parts, p, acc.space);
        lemma_valid_break_push(acc.parts, p, acc.character);
        if let PartView::Breakable(us) = p {
            lemma_scan_units(acc, pi, us, us.len() as int);
            assert(ps2[pi] == p);
        }
    }
}

pub proof fn lemma_build_from_wf(ps: Seq<PartView>, n: int)
    ensures
        line_wf(build_from(ps, n)),
    decreases n,
{
    if 0 < n <= ps.len() {
        lemma_build_from_wf(ps, n - 1);
        lemma_add_part_wf(build_from(ps, n - 1), ps[n - 1]);
    }
}

/// A line built from parts remembers only valid breakpoints.
pub proof fn lemma_build_wf(ps: Seq<PartView>)
    ensures
        line_wf(build(ps)),
{
    lemma_build_from_wf(ps, ps.len() as int);
}

/// Adding a unit keeps the remembered breakpoints valid.
pub proof fn lemma_push_unit_wf(line: LineView, u: BreakableUnit)
    requires
        line_wf(line),
    ensures
        line_wf(push_unit(line, u)),
{
    lemma_push_unit_width_wf(line, u, unit_cols(u));
}

/// Adding a unit of any width keeps the remembered breakpoints valid.
pub proof fn lemma_push_unit_width_wf(line: LineView, u: BreakableUnit, w: nat)
    requires
        line_wf(line),
    ensures
        line_wf(push_unit_width(line, u, w)),
{
    let n = line.parts.len();
    if n > 0 && line.parts[n - 1] is Breakable {
        let ps2 = line.parts.update(n - 1, PartView::Breakable(part_units(line.parts[n - 1]).push(u)));
        assert forall|b: Option<BreakView>| valid_opt_break(line.parts, b) implies valid_opt_break(ps2, b) by {
            if let Some(bp) = b {
                if bp.part_index != n - 1 {
                    assert(ps2[bp.part_index] == line.parts[bp.part_index]);
                }
            }
        }
    } else {
        lemma_valid_break_push(line.parts, PartView::Breakable(seq![u]), line.preferred);
        lemma_valid_break_push(line.parts, PartView::Breakable(seq![u]), line.space);
        lemma_valid_break_push(line.parts, PartView::Breakable(seq![u]), line.character);
    }
}

/// Adding an atomic part keeps the remembered breakpoints valid.
pub proof fn lemma_push_atomic_wf(line: LineView, t: Seq<char>)
    requires
        line_wf(line),
    ensures
        line_wf(push_atomic(line, t)),
{
    lemma_valid_break_push(line.parts, PartView::Atomic(t), line.preferred);
    lemma_valid_break_push(line.parts, PartView::Atomic(t), line.space);
    lemma_valid_break_push(line.parts, PartView::Atomic(t), line.character);
}

// ---------------------------------------------------------------------------
// Executable line state
// ---------------------------------------------------------------------------

/// An empty line.
pub fn new_line_state() -> (r: LineState)
    ensures
        r@ == empty_line(),
{
    let r = LineState {
        parts: Vec::new(),
        width: 0,
        last_preferred_break: None,
        last_space_break: None,
        last_char_break: None,
    };
    assert(r@.parts =~= Seq::<PartView>::empty());
    r
}

/// Whether a part has no units or no text.
pub fn line_part_is_empty(part: &LinePart) -> (r: bool)
    ensures
        r == part_is_empty(part@),
{
    match part {
        LinePart::Breakable(units) => units.len() == 0,
        LinePart::Atomic(text) => text.unicode_len() == 0,
    }
}

/// Number of units of a breakable part (0 for an atomic part).
pub fn breakable_part_len(part: &LinePart) -> (r: usize)
    ensures
        r == part_units(part@).len(),
{
    match part {
        LinePart::Breakable(units) => units.len(),
        LinePart::Atomic(_) => 0,
    }
}

/// A copy of the units.
pub fn copy_units(us: &[BreakableUnit]) -> (r: Vec<BreakableUnit>)
    ensures
        r@ == us@,
{
    let mut r: Vec<BreakableUnit> = Vec::new();
    let mut i: usize = 0;
    while i < us.len()
        invariant
            i <= us@.len(),
            r@ == us@.take(i as int),
        decreases us@.len() - i,
    {
        r.push(us[i]);
        i = i + 1;
        assert(r@ =~= us@.take(i as int));
    }
    assert(us@.take(us@.len() as int) =~= us@);
    r
}

/// A copy of a part.
pub fn copy_part(part: &LinePart) -> (r: LinePart)
    ensures
        r@ == part@,
{
    match part {
        LinePart::Breakable(units) => LinePart::Breakable(copy_units(units.as_slice())),
        LinePart::Atomic(text) => LinePart::Atomic(text.clone()),
    }
}

/// Adds a unit of the given width at the end of the line and remembers it as
/// a breakpoint of its kind.
pub fn push_breakable_unit(line: &mut LineState, unit: BreakableUnit, char_width: usize)
    ensures
        final(line)@ == push_unit_width(old(line)@, unit, char_width as nat),
{
    let ghost old_parts = line@.parts;
    let last = line.parts.pop();
    match last {
        Some(LinePart::Breakable(units)) => {
            let mut units = units;
            units.push(unit);
            line.parts.push(LinePart::Breakable(units));
            proof {
                let n = old_parts.len();
                assert(line@.parts =~= old_parts.update(
                    n - 1,
                    PartView::Breakable(part_units(old_parts[n - 1]).push(unit)),
                ));
            }
        },
        Some(LinePart::Atomic(text)) => {
            line.parts.push(LinePart::Atomic(text));
            let mut fresh: Vec<BreakableUnit> = Vec::new();
            fresh.push(unit);
            line.parts.push(LinePart::Breakable(fresh));
            proof {
                assert(fresh@ =~= seq![unit]);
                assert(line@.parts =~= old_parts.push(PartView::Breakable(seq![unit])));
            }
        },
        None => {
            let mut fresh: Vec<BreakableUnit> = Vec::new();
            fresh.push(unit);
            line.parts.push(LinePart::Breakable(fresh));
            proof {
                assert(fresh@ =~= seq![unit]);
                assert(line@.parts =~= old_parts.push(PartView::Breakable(seq![unit])));
            }
        },
    }
    line.width = line.width.saturating_add(char_width);
    let part_index = line.parts.len() - 1;
    let unit_index = breakable_part_len(&line.parts[part_index]);
    let bp = BreakPoint { part_index, unit_index, width: line.width };
    if unit == (BreakableUnit::SoftBreak { preferred: true }) {
        line.last_preferred_break = Some(bp);
    }
    if can_break_after_unit(unit) {
        line.last_char_break = Some(bp);
    }
    if unit == BreakableUnit::Visible(' ') {
        line.last_space_break = Some(bp);
    }
}

/// Adds a character of the given width at the end of the line.
pub fn push_breakable_char(line: &mut LineState, ch: char, char_width: usize)
    ensures
        final(line)@ == push_unit_width(old(line)@, BreakableUnit::Visible(ch), char_width as nat),
{
    push_breakable_unit(line, BreakableUnit::Visible(ch), char_width)
}

/// Whether `left` comes before `right` on a line.
pub fn breakpoint_precedes(left: BreakPoint, right: BreakPoint) -> (r: bool)
    ensures
        r == (left.part_index < right.part_index || (left.part_index == right.part_index
            && left.unit_index < right.unit_index)),
{
    left.part_index < right.part_index || (left.part_index == right.part_index && left.unit_index
        < right.unit_index)
}


/// A line made of the given parts, with its width and breakpoints computed;
/// empty parts are dropped.
pub fn build_line_state(parts: Vec<LinePart>) -> (r: LineState)
    ensures
        r@ == build(parts_view(parts@)),
        line_wf(r@),
{
    let ghost ps = parts_view(parts@);
    let mut line = new_line_state();
    let mut i: usize = 0;
    while i < parts.len()
        invariant
            i <= parts@.len(),
            ps == parts_view(parts@),
            line@ == build_from(ps, i as int),
        decreases parts@.len() - i,
    {
        let part = &parts[i];
        let ghost acc = line@;
        assert(ps[i as int] == part@);
        if !line_part_is_empty(part) {
            let part_index = line.parts.len();
            match part {
                LinePart::Breakable(units) => {
                    let mut k: usize = 0;
                    while k < units.len()
                        invariant
                            k <= units@.len(),
                            part_index == acc.parts.len(),
                            line@ == scan_units(acc, part_index as int, units@, k as int),
                        decreases units@.len() - k,
                    {
                        let unit = units[k];
                        line.width = line.width.saturating_add(breakable_unit_width(unit));
                        let bp = BreakPoint { part_index, unit_index: k + 1, width: line.width };
                        if unit == (BreakableUnit::SoftBreak { preferred: true }) {
                            line.last_preferred_break = Some(bp);
                        }
                        if can_break_after_unit(unit) {
                            line.last_char_break = Some(bp);
                        }
                        if unit == BreakableUnit::Visible(' ') {
                            line.last_space_break = Some(bp);
                        }
                        k = k + 1;
                    }
                    proof {
                        lemma_scan_units(acc, part_index as int, units@, units@.len() as int);
                    }
                },
                LinePart::Atomic(text) => {
                    line.width = line.width.saturating_add(str_width(text.as_str()));
                },
            }
            line.parts.push(copy_part(part));
            assert(line@.parts =~= acc.parts.push(part@));
        }
        i = i + 1;
    }
    proof {
        lemma_build_wf(ps);
    }
    line
}

/// Appends the printed characters of the units.
fn push_raw_units(out: &mut String, units: &Vec<BreakableUnit>)
    ensures
        final(out)@ == old(out)@ + raw_units(units@),
{
    let mut k: usize = 0;
    while k < units.len()
        invariant
            k <= units@.len(),
            out@ == old(out)@ + raw_units(units@.take(k as int)),
        decreases units@.len() - k,
    {
        proof {
            assert(units@.take(k + 1).drop_last() =~= units@.take(k as int));
        }
        match units[k] {
            BreakableUnit::Visible(c) => {
                push_char(out, c);
            },
            _ => {},
        }
        k = k + 1;
        assert(out@ =~= old(out)@ + raw_units(units@.take(k as int)));
    }
    assert(units@.take(units@.len() as int) =~= units@);
}

/// The text of a line: its printed characters without trailing spaces.
pub fn render_line_parts(parts: &[LinePart]) -> (r: String)
    ensures
        r@ == render_parts(parts_view(parts@)),
{
    let ghost ps = parts_view(parts@);
    let mut content = String::new();
    let mut i: usize = 0;
    while i < parts.len()
        invariant
            i <= parts@.len(),
            ps == parts_view(parts@),
            content@ == raw_parts(ps.take(i as int)),
        decreases parts@.len() - i,
    {
        proof {
            assert(ps.take(i + 1).drop_last() =~= ps.take(i as int));
            assert(ps[i as int] == parts@[i as int]@);
        }
        match &parts[i] {
            LinePart::Breakable(units) => push_raw_units(&mut content, units),
            LinePart::Atomic(text) => push_str(&mut content, text.as_str()),
        }
        i = i + 1;
    }
    assert(ps.take(parts@.len() as int) =~= ps);
    trim_trailing_spaces(content.as_str())
}

/// Prints the line with its prefix and clears it, unless it has no text.
pub fn flush_line(lines: &mut Vec<String>, line: &mut LineState, prefix: &str)
    ensures
        (strings_view(final(lines)@), final(line)@) == flush_into(
            strings_view(old(lines)@),
            old(line)@,
            prefix@,
        ),
{
    let content = render_line_parts(line.parts.as_slice());
    if content.unicode_len() == 0 {
        return;
    }
    let mut out = to_string(prefix);
    push_str(&mut out, content.as_str());
    lines.push(out);
    *line = new_line_state();
    assert(strings_view(lines@) =~= strings_view(old(lines)@).push(prefix@ + content@));
}


/// A copy of `us[from..to]`.
fn copy_range(us: &Vec<BreakableUnit>, from: usize, to: usize) -> (r: Vec<BreakableUnit>)
    requires
        from <= to <= us@.len(),
    ensures
        r@ == us@.subrange(from as int, to as int),
{
    let mut r: Vec<BreakableUnit> = Vec::new();
    let mut i: usize = from;
    while i < to
        invariant
            from <= i <= to <= us@.len(),
            r@ == us@.subrange(from as int, i as int),
        decreases to - i,
    {
        r.push(us[i]);
        i = i + 1;
        assert(r@ =~= us@.subrange(from as int, i as int));
    }
    r
}

/// Splits the line at a breakpoint: the line keeps what comes before it and
/// what follows it is returned as a new line.
pub fn split_line_at_breakpoint(line: &mut LineState, breakpoint: BreakPoint) -> (r: LineState)
    requires
        break_in_range(old(line)@.parts, breakpoint@),
    ensures
        final(line)@ == build(split_parts(old(line)@.parts, breakpoint@).0),
        r@ == build(split_parts(old(line)@.parts, breakpoint@).1),
        line_wf(final(line)@),
        line_wf(r@),
{
    let ghost ps = line@.parts;
    let mut left_parts: Vec<LinePart> = Vec::new();
    let mut remainder_parts: Vec<LinePart> = Vec::new();
    let mut index: usize = 0;
    while index < line.parts.len()
        invariant
            index <= line.parts@.len(),
            ps == line@.parts,
            break_in_range(ps, breakpoint@),
            (parts_view(left_parts@), parts_view(remainder_parts@)) == split_from(
                ps,
                breakpoint@,
                index as int,
            ),
        decreases line.parts@.len() - index,
    {
        let part = &line.parts[index];
        let ghost acc = (parts_view(left_parts@), parts_view(remainder_parts@));
        assert(ps[index as int] == part@);
        if index < breakpoint.part_index {
            left_parts.push(copy_part(part));
            assert(parts_view(left_parts@) =~= acc.0.push(part@));
        } else {
            match part {
                LinePart::Breakable(units) => {
                    if index == breakpoint.part_index {
                        let head = copy_range(units, 0, breakpoint.unit_index);
                        let tail = copy_range(units, breakpoint.unit_index, units.len());
                        assert(head@ =~= units@.take(breakpoint.unit_index as int));
                        assert(tail@ =~= units@.skip(breakpoint.unit_index as int));
                        if head.len() > 0 {
                            left_parts.push(LinePart::Breakable(head));
                            assert(parts_view(left_parts@) =~= acc.0.push(
                                PartView::Breakable(head@),
                            ));
                        }
                        if tail.len() > 0 {
                            remainder_parts.push(LinePart::Breakable(tail));
                            assert(parts_view(remainder_parts@) =~= acc.1.push(
                                PartView::Breakable(tail@),
                            ));
                        }
                    } else {
                        remainder_parts.push(copy_part(part));
                        assert(parts_view(remainder_parts@) =~= acc.1.push(part@));
                    }
                },
                LinePart::Atomic(_) => {
                    remainder_parts.push(copy_part(part));
                    assert(parts_view(remainder_parts@) =~= acc.1.push(part@));
                },
            }
        }
        index = index + 1;
    }
    let remainder = build_line_state(remainder_parts);
    *line = build_line_state(left_parts);
    remainder
}

/// Views of breakpoints.
pub open spec fn breaks_view(bs: Seq<BreakPoint>) -> Seq<BreakView> {
    bs.map_values(|b: BreakPoint| b@)
}

/// Every place where the line may be broken: after a space, a wide
/// character or a soft break.
pub fn collect_breakpoints(line: &LineState) -> (r: Vec<BreakPoint>)
    ensures
        breaks_view(r@) == all_breakpoints(line@.parts),
{
    let ghost ps = line@.parts;
    let mut breakpoints: Vec<BreakPoint> = Vec::new();
    let mut width: usize = 0;
    let mut part_index: usize = 0;
    assert(breaks_view(breakpoints@) =~= Seq::<BreakView>::empty());
    while part_index < line.parts.len()
        invariant
            part_index <= line.parts@.len(),
            ps == line@.parts,
            (Collected { bps: breaks_view(breakpoints@), width: width as nat }) == collect_from(
                ps,
                part_index as int,
            ),
        decreases line.parts@.len() - part_index,
    {
        let ghost acc = collect_from(ps, part_index as int);
        assert(ps[part_index as int] == line.parts@[part_index as int]@);
        match &line.parts[part_index] {
            LinePart::Breakable(units) => {
                let mut unit_index: usize = 0;
                while unit_index < units.len()
                    invariant
                        unit_index <= units@.len(),
                        part_index < line.parts@.len(),
                        (Collected { bps: breaks_view(breakpoints@), width: width as nat })
                            == collect_units(acc, part_index as int, units@, unit_index as int),
                    decreases units@.len() - unit_index,
                {
                    let unit = units[unit_index];
                    width = width.saturating_add(breakable_unit_width(unit));
                    if unit == BreakableUnit::Visible(' ') || can_break_after_unit(unit) {
                        let ghost before = breaks_view(breakpoints@);
                        breakpoints.push(
                            BreakPoint { part_index, unit_index: unit_index + 1, width },
                        );
                        assert(breaks_view(breakpoints@) =~= before.push(
                            BreakView {
                                part_index: part_index as int,
                                unit_index: unit_index + 1,
                                width: width as nat,
                            },
                        ));
                    }
                    unit_index = unit_index + 1;
                }
            },
            LinePart::Atomic(text) => {
                width = width.saturating_add(str_width(text.as_str()));
            },
        }
        part_index = part_index + 1;
    }
    breakpoints
}

/// The first printed unit of `units[start..]`.
fn first_visible_unit(units: &Vec<BreakableUnit>, start: usize) -> (r: Option<char>)
    requires
        start <= units@.len(),
    ensures
        r == first_visible_in(units@, start as int),
{
    let mut k = start;
    while k < units.len()
        invariant
            start <= k <= units@.len(),
            first_visible_in(units@, start as int) == first_visible_in(units@, k as int),
        decreases units@.len() - k,
    {
        if let BreakableUnit::Visible(c) = units[k] {
            return Some(c);
        }
        k = k + 1;
    }
    None
}

/// The first printed character after a breakpoint, if any.
pub fn first_visible_char_after_breakpoint(line: &LineState, breakpoint: BreakPoint) -> (r: Option<char>)
    requires
        break_in_range(line@.parts, breakpoint@),
    ensures
        r == first_visible_after(line@.parts, breakpoint@),
{
    let ghost ps = line@.parts;
    if breakpoint.part_index >= line.parts.len() {
        return None;
    }
    let mut part_index = breakpoint.part_index;
    while part_index < line.parts.len()
        invariant
            breakpoint.part_index <= part_index <= line.parts@.len(),
            ps == line@.parts,
            break_in_range(ps, breakpoint@),
            first_visible_after(ps, breakpoint@) == first_visible_from(ps, breakpoint@, part_index as int),
        decreases line.parts@.len() - part_index,
    {
        assert(ps[part_index as int] == line.parts@[part_index as int]@);
        match &line.parts[part_index] {
            LinePart::Breakable(units) => {
                let start = if part_index == breakpoint.part_index {
                    breakpoint.unit_index
                } else {
                    0
                };
                let found = first_visible_unit(units, start);
                if found.is_some() {
                    return found;
                }
            },
            LinePart::Atomic(text) => {
                if text.unicode_len() > 0 {
                    return Some(text.as_str().get_char(0));
                }
            },
        }
        part_index = part_index + 1;
    }
    None
}

/// Whether breaking here keeps closing punctuation off the start of the next
/// line (the incoming unit counts when nothing printed follows the break).
pub fn breakpoint_is_allowed(line: &LineState, breakpoint: BreakPoint, incoming_unit: BreakableUnit) -> (r: bool)
    requires
        break_in_range(line@.parts, breakpoint@),
    ensures
        r == allowed(line@.parts, breakpoint@, incoming_unit),
{
    match first_visible_char_after_breakpoint(line, breakpoint) {
        Some(ch) => !is_forbidden_line_start_punctuation(ch),
        None => match incoming_unit {
            BreakableUnit::Visible(ch) => !is_forbidden_line_start_punctuation(ch),
            _ => true,
        },
    }
}


/// The breakpoints found in the first `n` parts are valid and lie in them.
pub proof fn lemma_collect_from_valid(ps: Seq<PartView>, n: int)
    requires
        0 <= n <= ps.len(),
    ensures
        forall|k: int|
            0 <= k < collect_from(ps, n).bps.len() ==> valid_break(ps, #[trigger] collect_from(ps, n).bps[k])
                && collect_from(ps, n).bps[k].part_index < n,
    decreases n,
{
    if n > 0 {
        lemma_collect_from_valid(ps, n - 1);
        let acc = collect_from(ps, n - 1);
        if let PartView::Breakable(us) = ps[n - 1] {
            lemma_collect_units_valid(acc, ps, n - 1, us, us.len() as int);
        }
    }
}

proof fn lemma_collect_units_valid(acc: Collected, ps: Seq<PartView>, pi: int, us: Seq<BreakableUnit>, m: int)
    requires
        0 <= pi < ps.len(),
        ps[pi] == PartView::Breakable(us),
        0 <= m <= us.len(),
        forall|k: int| 0 <= k < acc.bps.len() ==> valid_break(ps, #[trigger] acc.bps[k]) && acc.bps[k].part_index < pi,
    ensures
        forall|k: int|
            0 <= k < collect_units(acc, pi, us, m).bps.len() ==> valid_break(ps, #[trigger] collect_units(acc, pi, us, m).bps[k])
                && collect_units(acc, pi, us, m).bps[k].part_index <= pi,
    decreases m,
{
    if m > 0 {
        lemma_collect_units_valid(acc, ps, pi, us, m - 1);
        let prev = collect_units(acc, pi, us, m - 1);
        let next = collect_units(acc, pi, us, m);
        assert(next == collect_unit(prev, pi, m - 1, us[m - 1]));
        assert forall|k: int| 0 <= k < next.bps.len() implies valid_break(ps, #[trigger] next.bps[k])
            && next.bps[k].part_index <= pi by {
            if k < prev.bps.len() {
                assert(next.bps[k] == prev.bps[k]);
            }
        }
    }
}

/// The last allowed breakpoint is one of them.
pub proof fn lemma_last_allowed_member(ps: Seq<PartView>, bps: Seq<BreakView>, n: int, incoming: BreakableUnit)
    ensures
        last_allowed(ps, bps, n, incoming) matches Some(bp) ==> exists|k: int| 0 <= k < bps.len() && bps[k] == bp,
    decreases n,
{
    if 0 < n <= bps.len() && !allowed(ps, bps[n - 1], incoming) {
        lemma_last_allowed_member(ps, bps, n - 1, incoming);
    }
}

/// The chosen breakpoint of a well-formed line is valid.
pub proof fn lemma_chosen_break_valid(line: LineView, incoming: BreakableUnit)
    requires
        line_wf(line),
    ensures
        valid_opt_break(line.parts, chosen_break(line, incoming)),
{
    let bps = all_breakpoints(line.parts);
    lemma_collect_from_valid(line.parts, line.parts.len() as int);
    lemma_last_allowed_member(line.parts, bps, bps.len() as int, incoming);
}

/// Where to break a line that the incoming unit does not fit on.
pub fn choose_breakpoint(line: &LineState, incoming_unit: BreakableUnit) -> (r: Option<BreakPoint>)
    requires
        line@.preferred is Some && sat_sub(line@.width, line@.preferred->0.width)
            <= PREFERRED_SOFT_BREAK_SLACK ==> break_in_range(line@.parts, line@.preferred->0),
    ensures
        opt_break_view(r) == chosen_break(line@, incoming_unit),
        line_wf(line@) ==> valid_opt_break(line@.parts, opt_break_view(r)),
{
    proof {
        if line_wf(line@) {
            lemma_chosen_break_valid(line@, incoming_unit);
        }
    }
    if let Some(preferred) = line.last_preferred_break {
        if line.width.saturating_sub(preferred.width) <= PREFERRED_SOFT_BREAK_SLACK
            && breakpoint_is_allowed(line, preferred, incoming_unit) {
            return Some(preferred);
        }
    }
    let breakpoints = collect_breakpoints(line);
    let ghost bps = breaks_view(breakpoints@);
    proof {
        lemma_collect_from_valid(line@.parts, line@.parts.len() as int);
    }
    let mut n = breakpoints.len();
    while n > 0
        invariant
            n <= breakpoints@.len(),
            bps == breaks_view(breakpoints@),
            bps == all_breakpoints(line@.parts),
            forall|k: int| 0 <= k < bps.len() ==> valid_break(line@.parts, #[trigger] bps[k]),
            chosen_break(line@, incoming_unit) == last_allowed(
                line@.parts,
                bps,
                n as int,
                incoming_unit,
            ),
        decreases n,
    {
        let bp = breakpoints[n - 1];
        assert(bps[n - 1] == bp@);
        if breakpoint_is_allowed(line, bp, incoming_unit) {
            return Some(bp);
        }
        n = n - 1;
    }
    None
}


// ---------------------------------------------------------------------------
// Sizes: breaking a line makes progress
// ---------------------------------------------------------------------------

pub open spec fn part_size(p: PartView) -> nat {
    match p {
        PartView::Breakable(us) => us.len(),
        PartView::Atomic(t) => if t.len() > 0 {
            1nat
        } else {
            0nat
        },
    }
}

proof fn lemma_parts_size_push(ps: Seq<PartView>, p: PartView)
    ensures
        parts_size(ps.push(p)) == parts_size(ps) + part_size(p),
{
    assert(ps.push(p).drop_last() =~= ps);
}

proof fn lemma_build_from_size(ps: Seq<PartView>, n: int)
    requires
        0 <= n <= ps.len(),
    ensures
        parts_size(build_from(ps, n).parts) == parts_size(ps.take(n)),
    decreases n,
{
    if n > 0 {
        lemma_build_from_size(ps, n - 1);
        let acc = build_from(ps, n - 1);
        lemma_add_part_parts(acc, ps[n - 1]);
        assert(ps.take(n) =~= ps.take(n - 1).push(ps[n - 1]));
        lemma_parts_size_push(ps.take(n - 1), ps[n - 1]);
        if !part_is_empty(ps[n - 1]) {
            lemma_parts_size_push(acc.parts, ps[n - 1]);
        }
    } else {
        assert(ps.take(0) =~= Seq::<PartView>::empty());
    }
}

pub proof fn lemma_add_part_parts(acc: LineView, p: PartView)
    ensures
        add_part(acc, p).parts == (if part_is_empty(p) {
            acc.parts
        } else {
            acc.parts.push(p)
        }),
{
    if !part_is_empty(p) {
        if let PartView::Breakable(us) = p {
            lemma_scan_units(acc, acc.parts.len() as int, us, us.len() as int);
        }
    }
}

/// Building a line keeps its units.
pub proof fn lemma_build_size(ps: Seq<PartView>)
    ensures
        parts_size(build(ps).parts) == parts_size(ps),
{
    lemma_build_from_size(ps, ps.len() as int);
    assert(ps.take(ps.len() as int) =~= ps);
}

proof fn lemma_split_from_size(ps: Seq<PartView>, bp: BreakView, n: int)
    requires
        0 <= n <= ps.len(),
        valid_break(ps, bp),
    ensures
        parts_size(split_from(ps, bp, n).0) + parts_size(split_from(ps, bp, n).1) == parts_size(
            ps.take(n),
        ),
        n > bp.part_index ==> parts_size(split_from(ps, bp, n).0) >= 1,
    decreases n,
{
    if n > 0 {
        lemma_split_from_size(ps, bp, n - 1);
        let acc = split_from(ps, bp, n - 1);
        let p = ps[n - 1];
        assert(ps.take(n) =~= ps.take(n - 1).push(p));
        lemma_parts_size_push(ps.take(n - 1), p);
        lemma_parts_size_push(acc.0, p);
        lemma_parts_size_push(acc.1, p);
        if n - 1 == bp.part_index && p is Breakable {
            let us = part_units(p);
            let head = us.take(bp.unit_index);
            let tail = us.skip(bp.unit_index);
            lemma_parts_size_push(acc.0, PartView::Breakable(head));
            lemma_parts_size_push(acc.1, PartView::Breakable(tail));
        }
    } else {
        assert(ps.take(0) =~= Seq::<PartView>::empty());
    }
}

/// What follows a valid breakpoint is smaller than the line.
pub proof fn lemma_split_rest_smaller(ps: Seq<PartView>, bp: BreakView)
    requires
        valid_break(ps, bp),
    ensures
        parts_size(build(split_parts(ps, bp).1).parts) < parts_size(ps),
{
    lemma_split_from_size(ps, bp, ps.len() as int);
    assert(ps.take(ps.len() as int) =~= ps);
    lemma_build_size(split_parts(ps, bp).1);
}

/// A line with text has units or atomic text.
pub proof fn lemma_text_has_size(ps: Seq<PartView>)
    ensures
        raw_parts(ps).len() > 0 ==> parts_size(ps) > 0,
    decreases ps.len(),
{
    if ps.len() > 0 {
        lemma_text_has_size(ps.drop_last());
        if let PartView::Breakable(us) = ps.last() {
            lemma_raw_units_len(us);
        }
    }
}

proof fn lemma_raw_units_len(us: Seq<BreakableUnit>)
    ensures
        raw_units(us).len() <= us.len(),
    decreases us.len(),
{
    if us.len() > 0 {
        lemma_raw_units_len(us.drop_last());
    }
}

proof fn lemma_trim_end_spaces_len(s: Seq<char>)
    ensures
        trim_end_spaces(s).len() <= s.len(),
    decreases s.len(),
{
    if s.len() > 0 && s.last() == ' ' {
        lemma_trim_end_spaces_len(s.drop_last());
    }
}

// ---------------------------------------------------------------------------
// Wrapping
// ---------------------------------------------------------------------------

/// `prefix_width + width + extra <= MAX_LINE_WIDTH`, without overflow.
fn fits_in_line(prefix_width: usize, width: usize, extra: usize) -> (r: bool)
    ensures
        r == (prefix_width + width + extra <= MAX_LINE_WIDTH),
{
    prefix_width <= MAX_LINE_WIDTH && width <= MAX_LINE_WIDTH - prefix_width && extra
        <= MAX_LINE_WIDTH - prefix_width - width
}

pub open spec fn wrap_view(lines: Seq<String>, line: LineView, on_continuation: bool) -> WrapView {
    WrapView { lines: strings_view(lines), line, on_continuation }
}

/// Adds one breakable unit to the paragraph (see `append_unit`).
fn append_breakable_unit(
    lines: &mut Vec<String>,
    line: &mut LineState,
    on_continuation: &mut bool,
    first_prefix: &str,
    continuation_prefix: &str,
    unit: BreakableUnit,
)
    requires
        line_wf(old(line)@),
    ensures
        line_wf(final(line)@),
        wrap_view(final(lines)@, final(line)@, *final(on_continuation)) == append_unit(
            wrap_view(old(lines)@, old(line)@, *old(on_continuation)),
            first_prefix@,
            continuation_prefix@,
            unit,
        ),
    decreases parts_size(old(line)@.parts),
{
    let ghost st = wrap_view(lines@, line@, *on_continuation);
    let prefix = if *on_continuation {
        continuation_prefix
    } else {
        first_prefix
    };
    if unit == BreakableUnit::ForcedBreak {
        if line.width > 0 {
            flush_line(lines, line, prefix);
            *on_continuation = true;
        }
        return;
    }
    let soft = match unit {
        BreakableUnit::SoftBreak { .. } => true,
        _ => false,
    };
    if line.width == 0 && (unit == BreakableUnit::Visible(' ') || soft) {
        return;
    }
    let char_width = breakable_unit_width(unit);
    let prefix_width = str_width(prefix);
    if fits_in_line(prefix_width, line.width, char_width) || line.width == 0 {
        proof {
            lemma_push_unit_wf(line@, unit);
        }
        push_breakable_unit(line, unit, char_width);
        return;
    }
    if let Some(breakpoint) = choose_breakpoint(line, unit) {
        proof {
            lemma_split_rest_smaller(line@.parts, breakpoint@);
        }
        let remainder = split_line_at_breakpoint(line, breakpoint);
        flush_line(lines, line, prefix);
        *on_continuation = true;
        *line = remainder;
        append_breakable_unit(lines, line, on_continuation, first_prefix, continuation_prefix, unit);
        return;
    }
    let before = lines.len();
    let ghost full = line@;
    let ghost lines_before = strings_view(lines@);
    proof {
        lemma_text_has_size(line@.parts);
        lemma_trim_end_spaces_len(raw_parts(line@.parts));
    }
    flush_line(lines, line, prefix);
    *on_continuation = true;
    assert(strings_view(lines@).len() == lines@.len());
    assert(lines_before.len() == before);
    if lines.len() == before {
        assert(render_parts(full.parts).len() == 0);
        // Nothing was printed: the line holds only spaces, and the unit joins it.
        proof {
            lemma_push_unit_wf(line@, unit);
        }
        push_breakable_unit(line, unit, char_width);
    } else {
        assert(render_parts(full.parts).len() > 0);
        assert(parts_size(full.parts) > 0);
        assert(line@ == empty_line());
        assert(parts_size(line@.parts) == 0);
        append_breakable_unit(lines, line, on_continuation, first_prefix, continuation_prefix, unit);
    }
}

/// Adds an atomic fragment to the paragraph (see `append_atomic`).
fn append_atomic_fragment(
    lines: &mut Vec<String>,
    line: &mut LineState,
    on_continuation: &mut bool,
    first_prefix: &str,
    continuation_prefix: &str,
    text: &str,
)
    requires
        line_wf(old(line)@),
    ensures
        line_wf(final(line)@),
        wrap_view(final(lines)@, final(line)@, *final(on_continuation)) == append_atomic(
            wrap_view(old(lines)@, old(line)@, *old(on_continuation)),
            first_prefix@,
            continuation_prefix@,
            text@,
        ),
{
    let prefix = if *on_continuation {
        continuation_prefix
    } else {
        first_prefix
    };
    let text_width = str_width(text);
    let prefix_width = str_width(prefix);
    if line.width > 0 && !fits_in_line(prefix_width, line.width, text_width) {
        flush_line(lines, line, prefix);
        *on_continuation = true;
    }
    proof {
        lemma_push_atomic_wf(line@, text@);
    }
    let ghost before = line@;
    line.parts.push(LinePart::Atomic(to_string(text)));
    line.width = line.width.saturating_add(text_width);
    assert(line@.parts =~= before.parts.push(PartView::Atomic(text@)));
}

/// Wraps a paragraph to 80 columns: the first line starts with
/// `first_prefix` and the others with `continuation_prefix`.
pub fn wrap_fragments(
    fragments: &[InlineFragment],
    first_prefix: &str,
    continuation_prefix: &str,
) -> (r: String)
    ensures
        r@ == wrapped(fragments_view(fragments@), first_prefix@, continuation_prefix@),
{
    let ghost fs = fragments_view(fragments@);
    let mut lines: Vec<String> = Vec::new();
    let mut line = new_line_state();
    let mut on_continuation = false;
    let mut i: usize = 0;
    assert(strings_view(lines@) =~= Seq::<Seq<char>>::empty());
    while i < fragments.len()
        invariant
            i <= fragments@.len(),
            fs == fragments_view(fragments@),
            line_wf(line@),
            wrap_view(lines@, line@, on_continuation) == wrap_from(
                fs,
                first_prefix@,
                continuation_prefix@,
                i as int,
            ),
        decreases fragments@.len() - i,
    {
        assert(fs[i as int] == fragments@[i as int]@);
        match &fragments[i] {
            InlineFragment::BreakableText(units) => {
                let ghost start = wrap_view(lines@, line@, on_continuation);
                let mut k: usize = 0;
                while k < units.len()
                    invariant
                        k <= units@.len(),
                        line_wf(line@),
                        wrap_view(lines@, line@, on_continuation) == append_units(
                            start,
                            first_prefix@,
                            continuation_prefix@,
                            units@,
                            k as int,
                        ),
                    decreases units@.len() - k,
                {
                    append_breakable_unit(
                        &mut lines,
                        &mut line,
                        &mut on_continuation,
                        first_prefix,
                        continuation_prefix,
                        units[k],
                    );
                    k = k + 1;
                }
            },
            InlineFragment::Atomic(text) => {
                append_atomic_fragment(
                    &mut lines,
                    &mut line,
                    &mut on_continuation,
                    first_prefix,
                    continuation_prefix,
                    text.as_str(),
                );
            },
        }
        i = i + 1;
    }
    let prefix = if on_continuation {
        continuation_prefix
    } else {
        first_prefix
    };
    flush_line(&mut lines, &mut line, prefix);
    let sep = "\n";
    proof {
        reveal_strlit("\n");
        assert(sep@ =~= seq!['\n']);
    }
    join_with(&lines, sep)
}

} // verus!
