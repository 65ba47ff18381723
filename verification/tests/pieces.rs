use thefmt::node::{AlignKind, Tree, ReferenceKind};
use thefmt::pieces::{
    decimal_string, ordered_list_marker, render_code_block, render_prefixed_block,
    render_reference, render_resource, split_lines,
};
use thefmt::tables::{
    cell_display_width, layout_table, pad_cell, render_separator_cell, render_table_row,
};
use thefmt::text::{char_columns, trim_trailing_newlines, trim_trailing_spaces};

#[test]
fn trims_trailing_line_breaks() {
    assert_eq!(trim_trailing_newlines("a\nb\r\n\n"), "a\nb");
    assert_eq!(trim_trailing_newlines("\n\r"), "");
    assert_eq!(trim_trailing_newlines("keep  "), "keep  ");
    let once = trim_trailing_newlines("x\r\n");
    assert_eq!(trim_trailing_newlines(&once), once);
}

#[test]
fn trims_trailing_spaces() {
    assert_eq!(trim_trailing_spaces("ab  "), "ab");
    assert_eq!(trim_trailing_spaces(" a b"), " a b");
}

#[test]
fn renders_code_block_with_language_and_meta() {
    assert_eq!(
        render_code_block(Some("rust"), Some("title=x"), "fn main() {}\n\n"),
        "```rust title=x\nfn main() {}\n```"
    );
    assert_eq!(render_code_block(None, None, "x"), "```\nx\n```");
    assert_eq!(render_code_block(None, Some("m"), ""), "``` m\n\n```");
}

#[test]
fn renders_resources() {
    assert_eq!(
        render_resource("[a]", "https://a.b", &Some("T".to_string())),
        "[a](https://a.b \"T\")"
    );
    assert_eq!(render_resource("![i]", "p.png", &None), "![i](p.png)");
}

#[test]
fn renders_each_reference_kind() {
    assert_eq!(render_reference("[a]", "id", ReferenceKind::Shortcut), "[a]");
    assert_eq!(render_reference("[a]", "id", ReferenceKind::Collapsed), "[a][]");
    assert_eq!(render_reference("[a]", "id", ReferenceKind::Full), "[a][id]");
}

#[test]
fn splits_lines_like_str_lines() {
    assert_eq!(split_lines("a\nb\r\n\nc"), vec!["a", "b", "", "c"]);
    assert_eq!(split_lines("a\n"), vec!["a"]);
    assert!(split_lines("").is_empty());
}

#[test]
fn prefixes_block_lines() {
    assert_eq!(render_prefixed_block("a\n\nb", "> ", "> "), "> a\n\n> b");
    assert_eq!(render_prefixed_block("\nx", "- ", "  "), "- \n  x");
    assert_eq!(render_prefixed_block("", "- ", "  "), "");
}

#[test]
fn writes_decimal_numbers() {
    assert_eq!(decimal_string(0), "0");
    assert_eq!(decimal_string(1234567890), "1234567890");
}

#[test]
fn ordered_marker_reads_the_source_line() {
    let item = |line: Option<usize>| Tree::ListItem {
        children: vec![],
        checked: None,
        spread: false,
        start_line: line,
    };
    let input = "intro\n   12) twelve\n4. four\nplain";
    assert_eq!(ordered_list_marker(&item(Some(2)), 5, input), "12)");
    assert_eq!(ordered_list_marker(&item(Some(3)), 5, input), "4.");
    assert_eq!(ordered_list_marker(&item(Some(4)), 5, input), "5.");
    assert_eq!(ordered_list_marker(&item(Some(9)), 5, input), "5.");
    assert_eq!(ordered_list_marker(&item(None), 7, input), "7.");
}

#[test]
fn measures_display_width() {
    assert_eq!(cell_display_width("abc"), 3);
    assert_eq!(cell_display_width("中文"), 4);
    assert_eq!(char_columns('中'), 2);
    assert_eq!(char_columns('a'), 1);
    assert_eq!(char_columns('\u{7}'), 0);
}

#[test]
fn pads_cells_to_width() {
    assert_eq!(pad_cell("ab", 4), "ab  ");
    assert_eq!(pad_cell("中", 4), "中  ");
    assert_eq!(pad_cell("long", 2), "long");
}

#[test]
fn renders_padded_rows() {
    let cells = vec!["a".to_string(), "bb".to_string()];
    assert_eq!(render_table_row(&cells, &[3, 3, 4]), "| a   | bb  |      |");
}

#[test]
fn renders_separator_cells() {
    assert_eq!(render_separator_cell(5, AlignKind::Left), ":----");
    assert_eq!(render_separator_cell(5, AlignKind::Right), "----:");
    assert_eq!(render_separator_cell(5, AlignKind::Center), ":---:");
    assert_eq!(render_separator_cell(5, AlignKind::Unaligned), "-----");
    assert_eq!(render_separator_cell(1, AlignKind::Left), ":--");
    assert_eq!(render_separator_cell(1, AlignKind::Center), ":-:");
    assert_eq!(render_separator_cell(1, AlignKind::Unaligned), "---");
}

#[test]
fn lays_out_tables() {
    let rows = vec![
        vec!["名前".to_string(), "x".to_string()],
        vec!["a".to_string()],
    ];
    assert_eq!(
        layout_table(&rows, &vec![AlignKind::Center]),
        "| 名前 | x   |\n| :--: | --- |\n| a    |     |"
    );
    assert_eq!(layout_table(&vec![], &vec![]), "");
}

#[test]
fn table_rows_line_up() {
    let rows = vec![
        vec!["name".to_string(), "x".to_string(), "long value".to_string()],
        vec!["a".to_string()],
        vec!["bb".to_string(), "yyyyy".to_string()],
    ];
    let out = layout_table(&rows, &vec![AlignKind::Right, AlignKind::Center]);
    let lens: Vec<usize> = out.lines().map(|l| l.len()).collect();
    assert_eq!(lens.len(), 4);
    assert!(lens.iter().all(|l| *l == lens[0]));
    assert_eq!(lens[0], 4 + (4 + 5 + 10) + 3 * 2);
}
