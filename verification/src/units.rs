//! The units that breakable text is made of, and the character classes that
//! decide where a paragraph may be broken.

use vstd::prelude::*;
use crate::text::{char_cols, char_columns, is_alphanumeric, is_white_space, is_whitespace, alphanumeric};

verus! {

/// One unit of breakable paragraph text.
#[derive(Clone, Copy, PartialEq, Eq, Structural, Debug)]
pub enum BreakableUnit {
    /// A character that is printed.
    Visible(char),
    /// A line break that must be kept.
    ForcedBreak,
    /// A place where the source had a line break and the output may break
    /// without printing anything.
    SoftBreak { preferred: bool },
}

/// Columns a unit takes on a line.
pub open spec fn unit_cols(u: BreakableUnit) -> nat {
    match u {
        BreakableUnit::Visible(c) => char_cols(c),
        _ => 0,
    }
}

/// Columns a unit takes on a line.
pub fn breakable_unit_width(unit: BreakableUnit) -> (r: usize)
    ensures
        r == unit_cols(unit),
{
    match unit {
        BreakableUnit::Visible(c) => char_columns(c),
        BreakableUnit::ForcedBreak => 0,
        BreakableUnit::SoftBreak { .. } => 0,
    }
}

/// A line may be broken right after this unit.
pub open spec fn breaks_after(u: BreakableUnit) -> bool {
    match u {
        BreakableUnit::SoftBreak { .. } => true,
        BreakableUnit::Visible(c) => !is_white_space(c) && char_cols(c) > 1,
        BreakableUnit::ForcedBreak => false,
    }
}

/// A line may be broken right after this unit: after a soft break, or after
/// a wide character that is not whitespace.
pub fn can_break_after_unit(unit: BreakableUnit) -> (r: bool)
    ensures
        r == breaks_after(unit),
{
    match unit {
        BreakableUnit::SoftBreak { .. } => true,
        BreakableUnit::Visible(c) => !is_whitespace(c) && char_columns(c) > 1,
        BreakableUnit::ForcedBreak => false,
    }
}

/// A character of the CJK Unified Ideographs blocks and their extensions.
pub open spec fn chinese_char(c: char) -> bool {
    let u = c as u32;
    ||| 0x3400 <= u <= 0x4dbf
    ||| 0x4e00 <= u <= 0x9fff
    ||| 0xf900 <= u <= 0xfaff
    ||| 0x20000 <= u <= 0x2a6df
    ||| 0x2a700 <= u <= 0x2b73f
    ||| 0x2b740 <= u <= 0x2b81f
    ||| 0x2b820 <= u <= 0x2ceaf
    ||| 0x2ceb0 <= u <= 0x2ebef
    ||| 0x30000 <= u <= 0x3134f
    ||| 0x31350 <= u <= 0x323af
}

/// Whether `ch` is a Chinese (CJK unified ideograph) character.
pub fn is_chinese_character(ch: char) -> (r: bool)
    ensures
        r == chinese_char(ch),
{
    let u = ch as u32;
    (0x3400 <= u && u <= 0x4dbf) || (0x4e00 <= u && u <= 0x9fff) || (0xf900 <= u && u <= 0xfaff)
        || (0x20000 <= u && u <= 0x2a6df) || (0x2a700 <= u && u <= 0x2b73f) || (0x2b740 <= u
        && u <= 0x2b81f) || (0x2b820 <= u && u <= 0x2ceaf) || (0x2ceb0 <= u && u <= 0x2ebef)
        || (0x30000 <= u && u <= 0x3134f) || (0x31350 <= u && u <= 0x323af)
}

/// An alphanumeric character that is not Chinese.
pub open spec fn non_chinese_word_char(c: char) -> bool {
    !chinese_char(c) && alphanumeric(c)
}

/// Whether `ch` is alphanumeric and not a Chinese character.
pub fn is_non_chinese_word_char(ch: char) -> (r: bool)
    ensures
        r == non_chinese_word_char(ch),
{
    !is_chinese_character(ch) && is_alphanumeric(ch)
}

/// A wide alphanumeric character.
pub open spec fn cjk_word_char(c: char) -> bool {
    char_cols(c) > 1 && alphanumeric(c)
}

/// Whether `ch` is wider than one column and alphanumeric.
pub fn is_cjk_word_char(ch: char) -> (r: bool)
    ensures
        r == cjk_word_char(ch),
{
    char_columns(ch) > 1 && is_alphanumeric(ch)
}

/// A collapsed run of whitespace between `previous` and `next` is printed as
/// a space unless both neighbours are wide word characters.
pub open spec fn preserves_soft_break_space(previous: Option<char>, next: Option<char>) -> bool {
    match (previous, next) {
        (Some(p), Some(n)) => !(cjk_word_char(p) && cjk_word_char(n)),
        _ => false,
    }
}

/// Whether whitespace between `previous` and `next` is kept as a space.
pub fn should_preserve_soft_break_space(previous: Option<char>, next: Option<char>) -> (r: bool)
    ensures
        r == preserves_soft_break_space(previous, next),
{
    match (previous, next) {
        (Some(p), Some(n)) => !(is_cjk_word_char(p) && is_cjk_word_char(n)),
        _ => false,
    }
}

/// Full-width sentence punctuation after which a source line break is kept.
pub open spec fn forces_source_break(previous: char) -> bool {
    previous == '：' || previous == '；' || previous == '。' || previous == '！' || previous == '？'
}

/// Whether a source line break after `previous` must be kept.
pub fn should_force_cjk_source_break(previous: char, next: char) -> (r: bool)
    ensures
        r == forces_source_break(previous),
{
    previous == '：' || previous == '；' || previous == '。' || previous == '！' || previous == '？'
}

/// A source line break that goes from a non-Chinese word character of the same
/// text into Chinese text.
pub open spec fn enters_chinese_text(previous: char, next: char, same_text: bool) -> bool {
    same_text && non_chinese_word_char(previous) && chinese_char(next)
}

/// Whether a source line break leads from a non-Chinese word character of the
/// same text node into Chinese text.
pub fn source_break_enters_chinese_text(
    previous: char,
    next: char,
    previous_is_in_same_text_node: bool,
) -> (r: bool)
    ensures
        r == enters_chinese_text(previous, next, previous_is_in_same_text_node),
{
    previous_is_in_same_text_node && is_non_chinese_word_char(previous) && is_chinese_character(
        next,
    )
}

/// Source line breaks that fall on natural Chinese phrase boundaries are
/// preferred places to break.
pub open spec fn prefers_source_break(previous: char, next: char, same_text: bool) -> bool {
    ||| enters_chinese_text(previous, next, same_text)
    ||| previous == '的' || previous == '地' || previous == '得'
    ||| next == '来' || next == '去' || next == '并' || next == '再' || next == '将'
}

/// Whether a source line break between `previous` and `next` is a preferred
/// place to break.
pub fn should_prefer_cjk_source_break(
    previous: char,
    next: char,
    previous_is_in_same_text_node: bool,
) -> (r: bool)
    ensures
        r == prefers_source_break(previous, next, previous_is_in_same_text_node),
{
    source_break_enters_chinese_text(previous, next, previous_is_in_same_text_node) || (previous
        == '的' || previous == '地' || previous == '得') || (next == '来' || next == '去' || next
        == '并' || next == '再' || next == '将')
}

/// Closing punctuation that must not start a line.
pub open spec fn forbidden_line_start(c: char) -> bool {
    ||| c == '，' || c == '。' || c == '、' || c == '；' || c == '：' || c == '！' || c == '？'
    ||| c == '）' || c == '］' || c == '｝' || c == '】' || c == '〉' || c == '》' || c == '」'
    ||| c == '』' || c == '”' || c == '’'
}

/// Whether `ch` is punctuation that must not start a line.
pub fn is_forbidden_line_start_punctuation(ch: char) -> (r: bool)
    ensures
        r == forbidden_line_start(ch),
{
    ch == '，' || ch == '。' || ch == '、' || ch == '；' || ch == '：' || ch == '！' || ch == '？'
        || ch == '）' || ch == '］' || ch == '｝' || ch == '】' || ch == '〉' || ch == '》' || ch
        == '」' || ch == '』' || ch == '”' || ch == '’'
}

} // verus!
