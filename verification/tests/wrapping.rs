use thefmt::normalize::normalize_breakable_text;
use thefmt::units::BreakableUnit::{self, ForcedBreak, SoftBreak, Visible};
use thefmt::units::{
    breakable_unit_width, can_break_after_unit, is_chinese_character, is_cjk_word_char,
    is_forbidden_line_start_punctuation, is_non_chinese_word_char,
    should_force_cjk_source_break, should_prefer_cjk_source_break,
    should_preserve_soft_break_space, source_break_enters_chinese_text,
};
use thefmt::wrap::{
    breakable_part_len, breakpoint_is_allowed, breakpoint_precedes, build_line_state,
    choose_breakpoint, collect_breakpoints, first_visible_char_after_breakpoint, flush_line,
    line_part_is_empty, new_line_state, push_breakable_char, push_breakable_unit,
    render_line_parts, split_line_at_breakpoint, wrap_fragments, BreakPoint, InlineFragment,
    LinePart, LineState,
};
use thefmt::text::char_columns;

fn line_of(text: &str) -> LineState {
    let mut line = new_line_state();
    for ch in text.chars() {
        push_breakable_char(&mut line, ch, char_columns(ch));
    }
    line
}

fn visible(text: &str) -> Vec<BreakableUnit> {
    text.chars().map(Visible).collect()
}

#[test]
fn collapses_whitespace_between_words() {
    let units = normalize_breakable_text("  a \n\t b  ", None, None);
    assert_eq!(units, vec![Visible('a'), Visible(' '), Visible('b')]);
    let units = normalize_breakable_text(" a ", Some('x'), Some('y'));
    assert_eq!(units, vec![Visible(' '), Visible('a'), Visible(' ')]);
}

#[test]
fn joins_chinese_lines_with_a_soft_break() {
    let units = normalize_breakable_text("中\n文", None, None);
    assert_eq!(units, vec![Visible('中'), SoftBreak { preferred: false }, Visible('文')]);
}

#[test]
fn keeps_sentence_breaks_in_chinese() {
    let units = normalize_breakable_text("好。\n下", None, None);
    assert_eq!(units, vec![Visible('好'), Visible('。'), ForcedBreak, Visible('下')]);
}

#[test]
fn prefers_source_breaks_entering_chinese() {
    let units = normalize_breakable_text("abc\n中", None, None);
    assert_eq!(
        units,
        vec![Visible('a'), Visible('b'), Visible('c'), SoftBreak { preferred: true }, Visible('中')]
    );
    let units = normalize_breakable_text("的\n事", None, None);
    assert_eq!(units, vec![Visible('的'), SoftBreak { preferred: true }, Visible('事')]);
}

#[test]
fn classifies_characters() {
    assert!(is_chinese_character('中'));
    assert!(!is_chinese_character('a'));
    assert!(!is_chinese_character('。'));
    assert!(is_non_chinese_word_char('a'));
    assert!(is_non_chinese_word_char('7'));
    assert!(!is_non_chinese_word_char('中'));
    assert!(!is_non_chinese_word_char('-'));
    assert!(is_cjk_word_char('中'));
    assert!(!is_cjk_word_char('。'));
    assert!(!is_cjk_word_char('a'));
    assert!(is_forbidden_line_start_punctuation('，'));
    assert!(!is_forbidden_line_start_punctuation(','));
}

#[test]
fn decides_source_breaks() {
    assert!(should_preserve_soft_break_space(Some('a'), Some('中')));
    assert!(!should_preserve_soft_break_space(Some('中'), Some('文')));
    assert!(!should_preserve_soft_break_space(None, Some('a')));
    assert!(should_force_cjk_source_break('：', 'a'));
    assert!(!should_force_cjk_source_break('，', 'a'));
    assert!(source_break_enters_chinese_text('a', '中', true));
    assert!(!source_break_enters_chinese_text('a', '中', false));
    assert!(should_prefer_cjk_source_break('中', '来', false));
    assert!(!should_prefer_cjk_source_break('中', '文', true));
}

#[test]
fn measures_units() {
    assert_eq!(breakable_unit_width(Visible('中')), 2);
    assert_eq!(breakable_unit_width(Visible('a')), 1);
    assert_eq!(breakable_unit_width(SoftBreak { preferred: true }), 0);
    assert_eq!(breakable_unit_width(ForcedBreak), 0);
    assert!(can_break_after_unit(Visible('中')));
    assert!(can_break_after_unit(SoftBreak { preferred: false }));
    assert!(!can_break_after_unit(Visible('a')));
    assert!(!can_break_after_unit(Visible('\u{3000}')));
}

#[test]
fn tracks_breakpoints_while_pushing() {
    let mut line = line_of("ab c");
    assert_eq!(line.width, 4);
    assert_eq!(line.parts.len(), 1);
    assert_eq!(breakable_part_len(&line.parts[0]), 4);
    let space = line.last_space_break.unwrap();
    assert_eq!((space.part_index, space.unit_index, space.width), (0, 3, 3));
    assert!(line.last_char_break.is_none());
    push_breakable_unit(&mut line, SoftBreak { preferred: true }, 0);
    let preferred = line.last_preferred_break.unwrap();
    assert_eq!((preferred.part_index, preferred.unit_index, preferred.width), (0, 5, 4));
    let all = collect_breakpoints(&line);
    assert_eq!(all.len(), 2);
}

#[test]
fn splits_a_line_at_a_breakpoint() {
    let mut line = line_of("ab cd");
    let breakpoint = choose_breakpoint(&line, Visible('e')).unwrap();
    assert_eq!((breakpoint.part_index, breakpoint.unit_index), (0, 3));
    assert_eq!(first_visible_char_after_breakpoint(&line, breakpoint), Some('c'));
    assert!(breakpoint_is_allowed(&line, breakpoint, Visible('e')));
    let rest = split_line_at_breakpoint(&mut line, breakpoint);
    assert_eq!(render_line_parts(&line.parts), "ab");
    assert_eq!(render_line_parts(&rest.parts), "cd");
    assert_eq!(rest.width, 2);
    let mut lines = Vec::new();
    flush_line(&mut lines, &mut line, "> ");
    assert_eq!(lines, vec!["> ab".to_string()]);
    assert_eq!(line.width, 0);
    assert!(line.parts.is_empty());
}

#[test]
fn refuses_breaks_before_closing_punctuation() {
    let line = line_of("中文");
    let breakpoint = choose_breakpoint(&line, Visible('，'));
    let last = breakpoint.unwrap();
    assert_eq!(last.unit_index, 1);
    let end = BreakPoint { part_index: 0, unit_index: 2, width: 4 };
    assert!(!breakpoint_is_allowed(&line, end, Visible('，')));
    assert!(breakpoint_is_allowed(&line, end, Visible('好')));
}

#[test]
fn orders_breakpoints() {
    let a = BreakPoint { part_index: 0, unit_index: 5, width: 5 };
    let b = BreakPoint { part_index: 1, unit_index: 1, width: 7 };
    assert!(breakpoint_precedes(a, b));
    assert!(!breakpoint_precedes(b, a));
    assert!(!breakpoint_precedes(a, a));
}

#[test]
fn rebuilds_line_state_from_parts() {
    let line = build_line_state(vec![
        LinePart::Breakable(vec![]),
        LinePart::Atomic("`x`".to_string()),
        LinePart::Breakable(visible(" y")),
    ]);
    assert_eq!(line.parts.len(), 2);
    assert_eq!(line.width, 5);
    assert!(line_part_is_empty(&LinePart::Atomic(String::new())));
    assert!(!line_part_is_empty(&line.parts[0]));
    assert_eq!(render_line_parts(&line.parts), "`x` y");
}

#[test]
fn wraps_words_at_eighty_columns() {
    let text = vec!["word"; 20].join(" ");
    let units = normalize_breakable_text(&text, None, None);
    let out = wrap_fragments(&[InlineFragment::BreakableText(units)], "", "");
    let first = vec!["word"; 16].join(" ");
    let second = vec!["word"; 4].join(" ");
    assert_eq!(out, format!("{first}\n{second}"));
}

#[test]
fn wraps_chinese_under_a_list_marker() {
    let text = "说明若选择回退到上一交易日快照，则服务必须提前部署并长期稳定运行，才能在前一交易日下午完成固化。";
    let units = normalize_breakable_text(text, None, None);
    let out = wrap_fragments(&[InlineFragment::BreakableText(units)], "  - ", "    ");
    assert_eq!(
        out,
        "  - 说明若选择回退到上一交易日快照，则服务必须提前部署并长期稳定运行，才能在前一\n    交易日下午完成固化。"
    );
}

#[test]
fn keeps_atomic_fragments_whole() {
    let long = "`".to_string() + &"x".repeat(90) + "`";
    let fragments = vec![
        InlineFragment::BreakableText(visible("see ")),
        InlineFragment::Atomic(long.clone()),
        InlineFragment::BreakableText(visible(" end")),
    ];
    let out = wrap_fragments(&fragments, "", "");
    assert_eq!(out, format!("see\n{long}\nend"));
}

#[test]
fn wrapping_keeps_the_text() {
    let text = "Some text, and code block below, with newline after code block and a few more words to wrap";
    let units = normalize_breakable_text(text, None, None);
    let out = wrap_fragments(&[InlineFragment::BreakableText(units)], "> ", "> ");
    let without_prefixes: String = out.lines().map(|l| l.trim_start_matches("> ")).collect();
    let expected: String = text.chars().filter(|c| *c != ' ').collect();
    let got: String = without_prefixes.chars().filter(|c| *c != ' ').collect();
    assert_eq!(got, expected);
    assert!(out.lines().all(|l| l.starts_with("> ") && !l.ends_with(' ')));
}

#[test]
fn wrapped_lines_stay_within_eighty_columns() {
    let text = "这是一个很长的段落，用来检查换行之后每一行的宽度都不超过八十列。It mixes English words \
                and 中文字符 so that both spaces and wide characters offer places to break, \
                again and again, until the paragraph ends.";
    let units = normalize_breakable_text(text, None, None);
    let out = wrap_fragments(&[InlineFragment::BreakableText(units)], "  - ", "    ");
    assert!(out.lines().count() > 2);
    for line in out.lines() {
        assert!(thefmt::tables::cell_display_width(line) <= 80, "{line}");
    }
}

#[test]
fn a_single_wide_piece_may_exceed_the_width() {
    let long = "x".repeat(100);
    let out = wrap_fragments(&[InlineFragment::Atomic(long.clone())], "", "");
    assert_eq!(out, long);
}

#[test]
fn normalizing_keeps_the_visible_characters() {
    let text = " 第一行\n第二行  and\tmore\r\nwords ";
    let units = normalize_breakable_text(text, None, None);
    let printed: String = units
        .iter()
        .filter_map(|u| match u {
            Visible(c) if *c != ' ' => Some(*c),
            _ => None,
        })
        .collect();
    let expected: String = text.chars().filter(|c| !c.is_whitespace()).collect();
    assert_eq!(printed, expected);
    assert!(units.iter().all(|u| !matches!(u, Visible(c) if c.is_whitespace() && *c != ' ')));
}

#[test]
fn pushes_a_unit_with_the_width_it_is_given() {
    let mut line = new_line_state();
    push_breakable_unit(&mut line, Visible('a'), 7);
    push_breakable_char(&mut line, ' ', 3);
    assert_eq!(line.width, 10);
    let space = line.last_space_break.unwrap();
    assert_eq!((space.part_index, space.unit_index, space.width), (0, 2, 10));
}

#[test]
fn splits_at_the_start_of_a_part_and_at_an_atomic_part() {
    let parts = || {
        vec![
            LinePart::Breakable(visible("ab")),
            LinePart::Atomic("`x`".to_string()),
            LinePart::Breakable(visible("cd")),
        ]
    };
    let mut line = build_line_state(parts());
    let rest = split_line_at_breakpoint(&mut line, BreakPoint { part_index: 0, unit_index: 0, width: 0 });
    assert!(line.parts.is_empty());
    assert_eq!(render_line_parts(&rest.parts), "ab`x`cd");
    let mut line = build_line_state(parts());
    let rest = split_line_at_breakpoint(&mut line, BreakPoint { part_index: 1, unit_index: 0, width: 2 });
    assert_eq!(render_line_parts(&line.parts), "ab");
    assert_eq!(render_line_parts(&rest.parts), "`x`cd");
    let mut line = build_line_state(parts());
    let rest = split_line_at_breakpoint(&mut line, BreakPoint { part_index: 3, unit_index: 9, width: 0 });
    assert_eq!(render_line_parts(&line.parts), "ab`x`cd");
    assert!(rest.parts.is_empty());
}

#[test]
fn finds_the_first_visible_character_after_any_breakpoint() {
    let line = build_line_state(vec![
        LinePart::Breakable(vec![Visible('a'), SoftBreak { preferred: false }]),
        LinePart::Atomic("`x`".to_string()),
    ]);
    let at = |part_index, unit_index| BreakPoint { part_index, unit_index, width: 0 };
    assert_eq!(first_visible_char_after_breakpoint(&line, at(0, 1)), Some('`'));
    assert_eq!(first_visible_char_after_breakpoint(&line, at(0, 0)), Some('a'));
    assert_eq!(first_visible_char_after_breakpoint(&line, at(1, 0)), Some('`'));
    assert_eq!(first_visible_char_after_breakpoint(&line, at(2, 0)), None);
    assert!(breakpoint_is_allowed(&line, at(2, 0), Visible('a')));
    assert!(!breakpoint_is_allowed(&line, at(2, 0), Visible('。')));
}

#[test]
fn plain_words_break_only_at_spaces() {
    let words: Vec<String> = (0..40).map(|i| "w".repeat(1 + (i * 7) % 13)).collect();
    let text = words.join(" ");
    let units = normalize_breakable_text(&text, None, None);
    let out = wrap_fragments(&[InlineFragment::BreakableText(units)], "- ", "  ");
    let lines: Vec<&str> = out.split('\n').collect();
    assert!(lines.len() > 2);
    assert!(lines[0].starts_with("- "));
    assert!(lines[1..].iter().all(|l| l.starts_with("  ")));
    let texts: Vec<&str> = lines.iter().map(|l| &l[2..]).collect();
    assert_eq!(texts.join(" "), text);
    assert!(lines.iter().all(|l| l.len() <= 80));
}
