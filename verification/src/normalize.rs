//! Turning the text of a paragraph into breakable units: every run of
//! whitespace collapses into a single space, a soft break or a forced break.

use vstd::prelude::*;
use crate::text::{chars_of, is_newline, is_white_space, is_whitespace};
use crate::units::{
    forces_source_break, prefers_source_break, preserves_soft_break_space,
    should_force_cjk_source_break, should_prefer_cjk_source_break,
    should_preserve_soft_break_space, BreakableUnit,
};

verus! {

/// The last printed character among the units, if any.
pub open spec fn last_visible(us: Seq<BreakableUnit>) -> Option<char>
    decreases us.len(),
{
    if us.len() == 0 {
        None
    } else {
        match us.last() {
            BreakableUnit::Visible(c) => Some(c),
            _ => last_visible(us.drop_last()),
        }
    }
}

/// The unit that prints `c`.
pub open spec fn visible_unit(c: char) -> BreakableUnit {
    BreakableUnit::Visible(c)
}

/// The end of the whitespace run that starts at `i`.
pub open spec fn run_end(cs: Seq<char>, i: int) -> int
    decreases cs.len() - i,
{
    if 0 <= i < cs.len() && is_white_space(cs[i]) {
        run_end(cs, i + 1)
    } else {
        i
    }
}

/// Whether `cs[i..end]` holds a `'\n'` or `'\r'`.
pub open spec fn has_newline(cs: Seq<char>, i: int, end: int) -> bool {
    exists|k: int| i <= k < end && #[trigger] is_newline(cs[k])
}

/// Whether the last unit is a soft break.
pub open spec fn ends_with_soft_break(us: Seq<BreakableUnit>) -> bool {
    us.len() > 0 && us.last() is SoftBreak
}

/// The units after the whitespace run `cs[i..end]` is collapsed onto `acc`.
pub open spec fn collapse_run(
    acc: Seq<BreakableUnit>,
    cs: Seq<char>,
    i: int,
    end: int,
    previous_context: Option<char>,
    next_context: Option<char>,
) -> Seq<BreakableUnit> {
    let in_text = last_visible(acc);
    let previous = if in_text is Some { in_text } else { previous_context };
    let next = if end < cs.len() { Some(cs[end]) } else { next_context };
    let newline = has_newline(cs, i, end);
    if previous is Some && next is Some {
        let p = previous->0;
        let n = next->0;
        if newline && forces_source_break(p) {
            if acc.len() > 0 && acc.last() == BreakableUnit::ForcedBreak {
                acc
            } else {
                acc.push(BreakableUnit::ForcedBreak)
            }
        } else if newline && prefers_source_break(p, n, in_text is Some) {
            if ends_with_soft_break(acc) {
                acc
            } else {
                acc.push(BreakableUnit::SoftBreak { preferred: true })
            }
        } else if preserves_soft_break_space(previous, next) {
            if acc.len() > 0 && acc.last() == BreakableUnit::Visible(' ') {
                acc
            } else {
                acc.push(BreakableUnit::Visible(' '))
            }
        } else if ends_with_soft_break(acc) {
            acc
        } else {
            acc.push(BreakableUnit::SoftBreak { preferred: false })
        }
    } else {
        acc
    }
}

/// A whitespace run ends at the first character after it that is not
/// whitespace, or at the end of the text.
pub proof fn lemma_run_end(cs: Seq<char>, i: int)
    requires
        0 <= i <= cs.len(),
    ensures
        i <= run_end(cs, i) <= cs.len(),
        0 <= i < cs.len() && is_white_space(cs[i]) ==> run_end(cs, i) > i,
        forall|k: int| i <= k < run_end(cs, i) ==> is_white_space(#[trigger] cs[k]),
        run_end(cs, i) < cs.len() ==> !is_white_space(cs[run_end(cs, i)]),
    decreases cs.len() - i,
{
    if i < cs.len() && is_white_space(cs[i]) {
        lemma_run_end(cs, i + 1);
    }
}

/// The units of `cs[i..]`, appended to `acc`.
pub open spec fn normalize_from(
    cs: Seq<char>,
    i: int,
    acc: Seq<BreakableUnit>,
    previous_context: Option<char>,
    next_context: Option<char>,
) -> Seq<BreakableUnit>
    decreases cs.len() - i,
{
    if i < 0 || i >= cs.len() {
        acc
    } else if is_white_space(cs[i]) {
        let end = run_end(cs, i);
        proof {
            lemma_run_end(cs, i);
        }
        normalize_from(
            cs,
            end,
            collapse_run(acc, cs, i, end, previous_context, next_context),
            previous_context,
            next_context,
        )
    } else {
        normalize_from(
            cs,
            i + 1,
            acc.push(visible_unit(cs[i])),
            previous_context,
            next_context,
        )
    }
}

/// The breakable units of a text whose neighbours print `previous_context`
/// and `next_context` next to it.
pub open spec fn normalized(
    text: Seq<char>,
    previous_context: Option<char>,
    next_context: Option<char>,
) -> Seq<BreakableUnit> {
    normalize_from(text, 0, Seq::empty(), previous_context, next_context)
}

fn last_visible_unit(us: &Vec<BreakableUnit>) -> (r: Option<char>)
    ensures
        r == last_visible(us@),
{
    let mut n = us.len();
    proof {
        assert(us@.take(n as int) =~= us@);
    }
    while n > 0
        invariant
            n <= us@.len(),
            last_visible(us@.take(n as int)) == last_visible(us@),
        decreases n,
    {
        proof {
            assert(us@.take(n as int).drop_last() =~= us@.take(n - 1));
        }
        match us[n - 1] {
            BreakableUnit::Visible(c) => {
                return Some(c);
            },
            _ => {},
        }
        n = n - 1;
    }
    None
}

/// Collapses the whitespace of `text` into breakable units.
///
/// Each run of whitespace becomes at most one unit, and only when there is
/// printed text on both sides (in this text or in its neighbours): a forced
/// break after full-width sentence punctuation on a source line break, a
/// preferred soft break at a Chinese phrase boundary on a source line break,
/// a space unless both sides are wide word characters, and otherwise a soft
/// break. Every other character becomes a visible unit.
pub fn normalize_breakable_text(
    text: &str,
    previous_context: Option<char>,
    next_context: Option<char>,
) -> (r: Vec<BreakableUnit>)
    ensures
        r@ == normalized(text@, previous_context, next_context),
{
    let chars = chars_of(text);
    let mut normalized: Vec<BreakableUnit> = Vec::new();
    let mut index: usize = 0;
    while index < chars.len()
        invariant
            index <= chars@.len(),
            chars@ == text@,
            normalize_from(chars@, 0, Seq::empty(), previous_context, next_context)
                == normalize_from(chars@, index as int, normalized@, previous_context, next_context),
        decreases chars@.len() - index,
    {
        let ch = chars[index];
        if is_whitespace(ch) {
            // Find the end of the whitespace run and whether it holds a line break.
            let mut end = index;
            let mut contains_newline = false;
            proof {
                lemma_run_end(chars@, index as int);
            }
            while end < chars.len() && is_whitespace(chars[end])
                invariant
                    index <= end <= chars@.len(),
                    run_end(chars@, index as int) == run_end(chars@, end as int),
                    contains_newline == has_newline(chars@, index as int, end as int),
                decreases chars@.len() - end,
            {
                let c = chars[end];
                let is_nl = c == '\n' || c == '\r';
                proof {
                    if is_nl {
                        assert(is_newline(chars@[end as int]));
                    }
                    if !contains_newline && !is_nl {
                        assert forall|k: int| index <= k < end + 1 implies !is_newline(
                            #[trigger] chars@[k],
                        ) by {
                            if k < end {
                                assert(!has_newline(chars@, index as int, end as int));
                            }
                        }
                    }
                }
                contains_newline = contains_newline || is_nl;
                end = end + 1;
            }
            let previous_in_text = last_visible_unit(&normalized);
            let previous = match previous_in_text {
                Some(c) => Some(c),
                None => previous_context,
            };
            let next = if end < chars.len() {
                Some(chars[end])
            } else {
                next_context
            };
            if previous.is_some() && next.is_some() {
                let p = previous.unwrap();
                let n = next.unwrap();
                let len = normalized.len();
                if contains_newline && should_force_cjk_source_break(p, n) {
                    if !(len > 0 && normalized[len - 1] == BreakableUnit::ForcedBreak) {
                        normalized.push(BreakableUnit::ForcedBreak);
                    }
                } else if contains_newline && should_prefer_cjk_source_break(
                    p,
                    n,
                    previous_in_text.is_some(),
                ) {
                    let soft = len > 0 && match normalized[len - 1] {
                        BreakableUnit::SoftBreak { .. } => true,
                        _ => false,
                    };
                    if !soft {
                        normalized.push(BreakableUnit::SoftBreak { preferred: true });
                    }
                } else if should_preserve_soft_break_space(previous, next) {
                    if !(len > 0 && normalized[len - 1] == BreakableUnit::Visible(' ')) {
                        normalized.push(BreakableUnit::Visible(' '));
                    }
                } else {
                    let soft = len > 0 && match normalized[len - 1] {
                        BreakableUnit::SoftBreak { .. } => true,
                        _ => false,
                    };
                    if !soft {
                        normalized.push(BreakableUnit::SoftBreak { preferred: false });
                    }
                }
            }
            index = end;
        } else {
            normalized.push(BreakableUnit::Visible(ch));
            index = index + 1;
        }
    }
    normalized
}

/// The printed characters of the units that are not whitespace.
pub open spec fn solid_units(us: Seq<BreakableUnit>) -> Seq<char>
    decreases us.len(),
{
    if us.len() == 0 {
        Seq::empty()
    } else {
        solid_units(us.drop_last()) + match us.last() {
            BreakableUnit::Visible(c) => if is_white_space(c) {
                Seq::empty()
            } else {
                seq![c]
            },
            _ => Seq::empty(),
        }
    }
}

/// The characters of `cs[i..]` that are not whitespace.
pub open spec fn solid_from(cs: Seq<char>, i: int) -> Seq<char>
    decreases cs.len() - i,
{
    if i < 0 || i >= cs.len() {
        Seq::empty()
    } else {
        (if is_white_space(cs[i]) {
            Seq::empty()
        } else {
            seq![cs[i]]
        }) + solid_from(cs, i + 1)
    }
}

/// Every unit printed as a character is either a space or not whitespace.
pub open spec fn whitespace_is_spaces(us: Seq<BreakableUnit>) -> bool {
    forall|k: int|
        0 <= k < us.len() ==> match #[trigger] us[k] {
            BreakableUnit::Visible(c) => c == ' ' || !is_white_space(c),
            _ => true,
        }
}

proof fn lemma_solid_from_skips_run(cs: Seq<char>, i: int, end: int)
    requires
        0 <= i <= end <= cs.len(),
        forall|k: int| i <= k < end ==> is_white_space(#[trigger] cs[k]),
    ensures
        solid_from(cs, i) == solid_from(cs, end),
    decreases end - i,
{
    if i < end {
        lemma_solid_from_skips_run(cs, i + 1, end);
        assert(solid_from(cs, i) =~= solid_from(cs, i + 1));
    }
}

proof fn lemma_collapse_run_adds_no_text(
    acc: Seq<BreakableUnit>,
    cs: Seq<char>,
    i: int,
    end: int,
    previous_context: Option<char>,
    next_context: Option<char>,
)
    ensures
        solid_units(collapse_run(acc, cs, i, end, previous_context, next_context))
            == solid_units(acc),
        whitespace_is_spaces(acc) ==> whitespace_is_spaces(
            collapse_run(acc, cs, i, end, previous_context, next_context),
        ),
{
    let r = collapse_run(acc, cs, i, end, previous_context, next_context);
    if r.len() > acc.len() {
        lemma_solid_units_push(acc, r.last());
        assert(acc.push(r.last()) == r);
    }
}

proof fn lemma_solid_units_push(acc: Seq<BreakableUnit>, u: BreakableUnit)
    ensures
        solid_units(acc.push(u)) == solid_units(acc) + match u {
            BreakableUnit::Visible(c) => if is_white_space(c) {
                Seq::empty()
            } else {
                seq![c]
            },
            _ => Seq::empty(),
        },
        whitespace_is_spaces(acc) && (u matches BreakableUnit::Visible(c) ==> c == ' '
            || !is_white_space(c)) ==> whitespace_is_spaces(acc.push(u)),
{
    assert(acc.push(u).drop_last() =~= acc);
    if whitespace_is_spaces(acc) && (u matches BreakableUnit::Visible(c) ==> c == ' '
        || !is_white_space(c)) {
        assert forall|k: int| 0 <= k < acc.push(u).len() implies match #[trigger] acc.push(u)[k] {
            BreakableUnit::Visible(c) => c == ' ' || !is_white_space(c),
            _ => true,
        } by {
            if k < acc.len() {
                assert(acc.push(u)[k] == acc[k]);
            }
        }
    }
}

proof fn lemma_visible_step(cs: Seq<char>, i: int, acc: Seq<BreakableUnit>)
    requires
        0 <= i < cs.len(),
        !is_white_space(cs[i]),
    ensures
        solid_units(acc.push(visible_unit(cs[i]))) + solid_from(cs, i + 1)
            == solid_units(acc) + solid_from(cs, i),
        whitespace_is_spaces(acc) ==> whitespace_is_spaces(
            acc.push(visible_unit(cs[i])),
        ),
{
    lemma_solid_units_push(acc, visible_unit(cs[i]));
    assert(solid_from(cs, i) == seq![cs[i]] + solid_from(cs, i + 1));
    assert(solid_units(acc) + solid_from(cs, i) =~= solid_units(
        acc.push(visible_unit(cs[i])),
    ) + solid_from(cs, i + 1));
}

#[verifier::spinoff_prover]
proof fn lemma_normalize_from_text(
    cs: Seq<char>,
    i: int,
    acc: Seq<BreakableUnit>,
    previous_context: Option<char>,
    next_context: Option<char>,
)
    requires
        0 <= i <= cs.len(),
    ensures
        solid_units(normalize_from(cs, i, acc, previous_context, next_context)) == solid_units(
            acc,
        ) + solid_from(cs, i),
        whitespace_is_spaces(acc) ==> whitespace_is_spaces(
            normalize_from(cs, i, acc, previous_context, next_context),
        ),
    decreases cs.len() - i,
{
    if i < cs.len() {
        if is_white_space(cs[i]) {
            let end = run_end(cs, i);
            lemma_run_end(cs, i);
            let acc2 = collapse_run(acc, cs, i, end, previous_context, next_context);
            lemma_collapse_run_adds_no_text(acc, cs, i, end, previous_context, next_context);
            lemma_normalize_from_text(cs, end, acc2, previous_context, next_context);
            lemma_solid_from_skips_run(cs, i, end);
            assert(normalize_from(cs, i, acc, previous_context, next_context) == normalize_from(
                cs,
                end,
                acc2,
                previous_context,
                next_context,
            ));
        } else {
            let acc2 = acc.push(visible_unit(cs[i]));
            lemma_visible_step(cs, i, acc);
            lemma_normalize_from_text(cs, i + 1, acc2, previous_context, next_context);
            assert(normalize_from(cs, i, acc, previous_context, next_context) == normalize_from(
                cs,
                i + 1,
                acc2,
                previous_context,
                next_context,
            ));
        }
    } else {
        assert(solid_units(acc) + solid_from(cs, i) =~= solid_units(acc));
    }
}

/// Normalizing keeps the text: the non-whitespace characters of the units are
/// those of the text, in order, and the only whitespace printed is a space.
pub proof fn lemma_normalize_keeps_text(
    text: Seq<char>,
    previous_context: Option<char>,
    next_context: Option<char>,
)
    ensures
        solid_units(normalized(text, previous_context, next_context)) == solid_from(text, 0),
        whitespace_is_spaces(normalized(text, previous_context, next_context)),
{
    lemma_normalize_from_text(text, 0, Seq::empty(), previous_context, next_context);
    assert(solid_units(Seq::<BreakableUnit>::empty()) + solid_from(text, 0) =~= solid_from(text, 0));
}

} // verus!
