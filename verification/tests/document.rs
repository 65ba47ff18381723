use thefmt::node::{AlignKind, Tree, ReferenceKind};
use thefmt::render::{format_document, is_numbered, render_node};

fn text(s: &str) -> Tree {
    Tree::Text { value: s.to_string() }
}

fn code(s: &str) -> Tree {
    Tree::InlineCode { value: s.to_string() }
}

fn para(children: Vec<Tree>) -> Tree {
    Tree::Paragraph { children }
}

fn item(children: Vec<Tree>, checked: Option<bool>, spread: bool, line: usize) -> Tree {
    Tree::ListItem { children, checked, spread, start_line: Some(line) }
}

fn bullets(children: Vec<Tree>) -> Tree {
    Tree::List { children, ordered: false, start: None, spread: false }
}

fn numbered_list(children: Vec<Tree>, spread: bool) -> Tree {
    Tree::List { children, ordered: true, start: Some(1), spread }
}

fn yaml_block() -> Tree {
    Tree::Code {
        lang: Some("yaml".to_string()),
        meta: None,
        value: "---\nfoo: bar".to_string(),
    }
}

fn root(children: Vec<Tree>) -> Tree {
    Tree::Root { children }
}

const LIST_SOURCE: &str = "**Files:**
* Modify: `crates/daec_config/src/lib.rs`
* Modify: `crates/daec_core/src/lib.rs`
* Modify: `crates/daec_infra/src/client/mod.rs`
* Modify: `bin/daec_cli/src/main.rs`
* [ ] 新增公开策略枚举，例如 `PrevTradeDaySnapshotPolicy`，至少包含：
  * `Disable`
  * `UsePrevTradeDayBeforeOpenAndClosure`
* [ ] 在 `ClientConfig` 中增加策略字段，并补充注释：
  * 说明这是初始化时必须显式指定的行为策略。
  * 说明若选择回退到上一交易日快照，则服务必须提前部署并长期稳定运行，才能在前一交易日下午完成固化。
  * 说明若策略开启而 `db_path` 为 `None`，初始化必须返回 `Error`。
* [ ] 在 `DataApiEcClient::new` 的注释里补充同样的行为约束，避免调用方误用。
* [ ] 在 `LowClientOptions` 中透传该策略，并在 `LowClient::new` 内做参数校验：
  * `Disable` 允许 `db_path=None`
  * `UsePrevTradeDayBeforeOpenAndClosure` 禁止 `db_path=None`
* [ ] 在 CLI 示例配置里显式填写该策略，避免编译报错，也让示例体现新配置项。
* [ ] 在初始化成功处补日志：
  * 当前策略值
  * `db_path` 是否启用
  * 是否允许 prev-trade-day 回退

---

1. Some text, and code block below, with newline after code block

   ```yaml
   ---
   foo: bar
   ```

   1. Another
   2. List

1. Some text, and code block below, with newline after code block

   1. Another
   2. List


   ```yaml
   ---
   foo: bar
   ```

   1. Another
   2. List
";

const LIST_FORMATTED: &str = "**Files:**

- Modify: `crates/daec_config/src/lib.rs`
- Modify: `crates/daec_core/src/lib.rs`
- Modify: `crates/daec_infra/src/client/mod.rs`
- Modify: `bin/daec_cli/src/main.rs`
- [ ] 新增公开策略枚举，例如 `PrevTradeDaySnapshotPolicy`，至少包含：
  - `Disable`
  - `UsePrevTradeDayBeforeOpenAndClosure`
- [ ] 在 `ClientConfig` 中增加策略字段，并补充注释：
  - 说明这是初始化时必须显式指定的行为策略。
  - 说明若选择回退到上一交易日快照，则服务必须提前部署并长期稳定运行，才能在前一
    交易日下午完成固化。
  - 说明若策略开启而 `db_path` 为 `None`，初始化必须返回 `Error`。
- [ ] 在 `DataApiEcClient::new` 的注释里补充同样的行为约束，避免调用方误用。
- [ ] 在 `LowClientOptions` 中透传该策略，并在 `LowClient::new` 内做参数校验：
  - `Disable` 允许 `db_path=None`
  - `UsePrevTradeDayBeforeOpenAndClosure` 禁止 `db_path=None`
- [ ] 在 CLI 示例配置里显式填写该策略，避免编译报错，也让示例体现新配置项。
- [ ] 在初始化成功处补日志：
  - 当前策略值
  - `db_path` 是否启用
  - 是否允许 prev-trade-day 回退

--------------------------------------------------------------------------------

1. Some text, and code block below, with newline after code block

   ```yaml
   ---
   foo: bar
   ```

   1. Another
   2. List

1. Some text, and code block below, with newline after code block
   1. Another
   2. List

   ```yaml
   ---
   foo: bar
   ```

   1. Another
   2. List
";

fn list_document() -> Tree {
    let modify = |path: &str, line: usize| {
        item(vec![para(vec![text("Modify: "), code(path)])], None, false, line)
    };
    let plain = |children: Vec<Tree>, line: usize| item(vec![para(children)], None, false, line);
    let task = |children: Vec<Tree>, nested: Option<Tree>, line: usize| {
        let mut blocks = vec![para(children)];
        if let Some(list) = nested {
            blocks.push(list);
        }
        item(blocks, Some(false), false, line)
    };
    let some_text = || para(vec![text("Some text, and code block below, with newline after code block")]);
    let another = |first: usize| {
        numbered_list(
            vec![
                item(vec![para(vec![text("Another")])], None, false, first),
                item(vec![para(vec![text("List")])], None, false, first + 1),
            ],
            false,
        )
    };
    root(vec![
        para(vec![Tree::Strong { children: vec![text("Files:")] }]),
        bullets(vec![
            modify("crates/daec_config/src/lib.rs", 2),
            modify("crates/daec_core/src/lib.rs", 3),
            modify("crates/daec_infra/src/client/mod.rs", 4),
            modify("bin/daec_cli/src/main.rs", 5),
            task(
                vec![text("新增公开策略枚举，例如 "), code("PrevTradeDaySnapshotPolicy"), text("，至少包含：")],
                Some(bullets(vec![
                    plain(vec![code("Disable")], 7),
                    plain(vec![code("UsePrevTradeDayBeforeOpenAndClosure")], 8),
                ])),
                6,
            ),
            task(
                vec![text("在 "), code("ClientConfig"), text(" 中增加策略字段，并补充注释：")],
                Some(bullets(vec![
                    plain(vec![text("说明这是初始化时必须显式指定的行为策略。")], 10),
                    plain(
                        vec![text("说明若选择回退到上一交易日快照，则服务必须提前部署并长期稳定运行，才能在前一交易日下午完成固化。")],
                        11,
                    ),
                    plain(
                        vec![
                            text("说明若策略开启而 "),
                            code("db_path"),
                            text(" 为 "),
                            code("None"),
                            text("，初始化必须返回 "),
                            code("Error"),
                            text("。"),
                        ],
                        12,
                    ),
                ])),
                9,
            ),
            task(
                vec![text("在 "), code("DataApiEcClient::new"), text(" 的注释里补充同样的行为约束，避免调用方误用。")],
                None,
                13,
            ),
            task(
                vec![
                    text("在 "),
                    code("LowClientOptions"),
                    text(" 中透传该策略，并在 "),
                    code("LowClient::new"),
                    text(" 内做参数校验："),
                ],
                Some(bullets(vec![
                    plain(vec![code("Disable"), text(" 允许 "), code("db_path=None")], 15),
                    plain(
                        vec![code("UsePrevTradeDayBeforeOpenAndClosure"), text(" 禁止 "), code("db_path=None")],
                        16,
                    ),
                ])),
                14,
            ),
            task(vec![text("在 CLI 示例配置里显式填写该策略，避免编译报错，也让示例体现新配置项。")], None, 17),
            task(
                vec![text("在初始化成功处补日志：")],
                Some(bullets(vec![
                    plain(vec![text("当前策略值")], 19),
                    plain(vec![code("db_path"), text(" 是否启用")], 20),
                    plain(vec![text("是否允许 prev-trade-day 回退")], 21),
                ])),
                18,
            ),
        ]),
        Tree::ThematicBreak,
        numbered_list(
            vec![
                item(vec![some_text(), yaml_block(), another(32)], None, true, 25),
                item(vec![some_text(), another(37), yaml_block(), another(46)], None, true, 35),
            ],
            true,
        ),
    ])
}

#[test]
fn formats_list_document() {
    let formatted = format_document(&list_document(), LIST_SOURCE);
    assert_eq!(formatted, LIST_FORMATTED);
}

#[test]
fn formats_heading() {
    let doc = root(vec![Tree::Heading { depth: 1, children: vec![text("Hi")] }]);
    assert_eq!(format_document(&doc, "# Hi"), "# Hi\n");
}

#[test]
fn empty_document_stays_empty() {
    assert_eq!(format_document(&root(vec![]), ""), "");
}

#[test]
fn formatted_document_ends_with_newline() {
    let doc = root(vec![para(vec![text("one")]), para(vec![text("two")])]);
    let out = format_document(&doc, "one\n\ntwo");
    assert_eq!(out, "one\n\ntwo\n");
    assert!(out.ends_with('\n'));
}

#[test]
fn document_already_ending_with_newline_gets_no_second_one() {
    let doc = root(vec![Tree::Html { value: "<br>\n".to_string() }]);
    assert_eq!(format_document(&doc, "<br>\n"), "<br>\n");
}

#[test]
fn consecutive_definitions_are_compact() {
    let def = |id: &str, url: &str, title: Option<&str>| Tree::Definition {
        identifier: id.to_string(),
        url: url.to_string(),
        title: title.map(|t| t.to_string()),
    };
    let doc = root(vec![
        para(vec![text("See")]),
        def("1", "https://git-scm.com/", None),
        def("2", "https://semver.org/", Some("SemVer")),
    ]);
    assert_eq!(
        format_document(&doc, ""),
        "See\n\n[1]: https://git-scm.com/\n[2]: https://semver.org/ \"SemVer\"\n"
    );
}

#[test]
fn thematic_break_after_list_expands() {
    let doc = root(vec![
        para(vec![text("a")]),
        Tree::ThematicBreak,
        bullets(vec![item(vec![para(vec![text("x")])], None, false, 3)]),
        Tree::ThematicBreak,
    ]);
    let expected = format!("a\n\n---\n\n- x\n\n{}\n", "-".repeat(80));
    assert_eq!(format_document(&doc, ""), expected);
}

#[test]
fn blockquote_quotes_each_block() {
    let doc = root(vec![Tree::Blockquote {
        children: vec![para(vec![text("first")]), para(vec![text("second")])],
    }]);
    assert_eq!(format_document(&doc, ""), "> first\n>\n> second\n");
}

#[test]
fn ordered_markers_follow_the_source() {
    let source = "3) three\n7) seven\n";
    let doc = root(vec![Tree::List {
        children: vec![
            item(vec![para(vec![text("three")])], None, false, 1),
            item(vec![para(vec![text("seven")])], None, false, 2),
        ],
        ordered: true,
        start: Some(3),
        spread: false,
    }]);
    assert_eq!(format_document(&doc, source), "3) three\n7) seven\n");
}

#[test]
fn ordered_markers_fall_back_to_counting() {
    let doc = root(vec![Tree::List {
        children: vec![
            Tree::ListItem { children: vec![para(vec![text("a")])], checked: None, spread: false, start_line: None },
            Tree::ListItem { children: vec![para(vec![text("b")])], checked: None, spread: false, start_line: None },
        ],
        ordered: true,
        start: Some(9),
        spread: false,
    }]);
    assert_eq!(format_document(&doc, ""), "9. a\n10. b\n");
}

#[test]
fn task_items_keep_their_checkbox() {
    let doc = root(vec![bullets(vec![
        item(vec![para(vec![text("done")])], Some(true), false, 1),
        item(vec![para(vec![text("open")])], Some(false), false, 2),
    ])]);
    assert_eq!(format_document(&doc, ""), "- [x] done\n- [ ] open\n");
}

#[test]
fn empty_list_item_is_its_marker() {
    let doc = root(vec![bullets(vec![item(vec![], None, false, 1)])]);
    assert_eq!(format_document(&doc, ""), "-\n");
}

#[test]
fn formats_table() {
    let cell = |s: &str| Tree::TableCell { children: vec![text(s)] };
    let doc = root(vec![Tree::Table {
        align: vec![AlignKind::Left, AlignKind::Unaligned],
        children: vec![
            Tree::TableRow { children: vec![cell("a"), cell("b")] },
            Tree::TableRow { children: vec![cell("ccc"), cell("dddd")] },
        ],
    }]);
    assert_eq!(
        format_document(&doc, ""),
        "| a   | b    |\n| :-- | ---- |\n| ccc | dddd |\n"
    );
}

#[test]
fn paragraph_with_hard_break_keeps_its_lines() {
    let doc = root(vec![para(vec![text("one"), Tree::Break, text("two")])]);
    assert_eq!(format_document(&doc, ""), "one\\\ntwo\n");
}

#[test]
fn renders_inline_markup() {
    let link = Tree::Link {
        children: vec![text("docs")],
        url: "https://example.com".to_string(),
        title: Some("Docs".to_string()),
    };
    let image = Tree::ImageReference {
        alt: "logo".to_string(),
        identifier: "logo".to_string(),
        reference_kind: ReferenceKind::Collapsed,
    };
    let reference = Tree::LinkReference {
        children: vec![text("spec")],
        identifier: "8".to_string(),
        reference_kind: ReferenceKind::Full,
    };
    let p = para(vec![
        Tree::Emphasis { children: vec![text("a")] },
        text(" "),
        Tree::Delete { children: vec![text("b")] },
        text(" "),
        link,
        text(" "),
        image,
        text(" "),
        reference,
        text(" "),
        Tree::InlineMath { value: "x".to_string() },
        text(" "),
        Tree::FootnoteReference { identifier: "n".to_string() },
    ]);
    assert_eq!(
        render_node(&p, ""),
        "*a* ~~b~~ [docs](https://example.com \"Docs\") ![logo][] [spec][8] $x$ [^n]"
    );
}

#[test]
fn renders_blocks_with_fences() {
    let math = Tree::Math { value: "a + b\n\n".to_string() };
    assert_eq!(render_node(&math, ""), "$$\na + b\n$$");
    let yaml = Tree::Yaml { value: "title: x\n".to_string() };
    assert_eq!(render_node(&yaml, ""), "---\ntitle: x\n---");
    let toml = Tree::Toml { value: "title = 1\r\n".to_string() };
    assert_eq!(render_node(&toml, ""), "+++\ntitle = 1\n+++");
    let footnote = Tree::FootnoteDefinition {
        identifier: "n".to_string(),
        children: vec![para(vec![text("note")])],
    };
    assert_eq!(render_node(&footnote, ""), "[^n]: note");
}

#[test]
fn renders_table_row_alone() {
    let row = Tree::TableRow {
        children: vec![
            Tree::TableCell { children: vec![text("a")] },
            Tree::TableCell { children: vec![text("bc")] },
        ],
    };
    assert_eq!(render_node(&row, ""), "| a | bc |");
}

#[test]
fn formatting_adds_only_a_final_newline() {
    let doc = root(vec![para(vec![text("a")]), Tree::ThematicBreak]);
    let rendered = render_node(&doc, "");
    let formatted = format_document(&doc, "");
    assert_eq!(rendered, "a\n\n---");
    assert_eq!(formatted, format!("{rendered}\n"));
}

#[test]
fn checks_list_numbering_fits() {
    let list = |start: u32, n: usize| Tree::List {
        children: (0..n).map(|i| item(vec![para(vec![text("x")])], None, false, i + 1)).collect(),
        ordered: true,
        start: Some(start),
        spread: false,
    };
    assert!(is_numbered(&root(vec![list(u32::MAX, 1)])));
    assert!(!is_numbered(&root(vec![list(u32::MAX, 2)])));
    assert!(is_numbered(&root(vec![list(u32::MAX - 1, 2)])));
    let nested = root(vec![Tree::Blockquote { children: vec![list(u32::MAX, 3)] }]);
    assert!(!is_numbered(&nested));
}
