use thefmt::format_markdown;

const LIST_BEFORE: &str = r#"**Files:**
* Modify: `crates/daec_config/src/lib.rs`
* Modify: `crates/daec_core/src/lib.rs`
* Modify: `crates/daec_infra/src/client/mod.rs`
* Modify: `bin/daec_cli/src/main.rs`
* [ ] 新增公开策略枚举，例如 `PrevTradeDaySnapshotPolicy`，至少包含：
  * `Disable`
  * `UsePrevTradeDayBeforeOpenAndClosure`
* [ ] 在 `ClientConfig` 中增加策略字段，并补充注释：
  * 说明这是初始化时必须显式指定的行为策略。
  * 说明若选择回退到上一交易日快照，则服务必须提前部署并长期稳定运行，才能在前一交易日下午完成固化。
  * 说明若策略开启而 `db_path` 为 `None`，初始化必须返回 `Error`。
* [ ] 在 `DataApiEcClient::new` 的注释里补充同样的行为约束，避免调用方误用。
* [ ] 在 `LowClientOptions` 中透传该策略，并在 `LowClient::new` 内做参数校验：
  * `Disable` 允许 `db_path=None`
  * `UsePrevTradeDayBeforeOpenAndClosure` 禁止 `db_path=None`
* [ ] 在 CLI 示例配置里显式填写该策略，避免编译报错，也让示例体现新配置项。
* [ ] 在初始化成功处补日志：
  * 当前策略值
  * `db_path` 是否启用
  * 是否允许 prev-trade-day 回退

---

1. Some text, and code block below, with newline after code block

   ```yaml
   ---
   foo: bar
   ```

   1. Another
   2. List

1. Some text, and code block below, with newline after code block

   1. Another
   2. List


   ```yaml
   ---
   foo: bar
   ```

   1. Another
   2. List
"#;

const LIST_AFTER: &str = r#"**Files:**

- Modify: `crates/daec_config/src/lib.rs`
- Modify: `crates/daec_core/src/lib.rs`
- Modify: `crates/daec_infra/src/client/mod.rs`
- Modify: `bin/daec_cli/src/main.rs`
- [ ] 新增公开策略枚举，例如 `PrevTradeDaySnapshotPolicy`，至少包含：
  - `Disable`
  - `UsePrevTradeDayBeforeOpenAndClosure`
- [ ] 在 `ClientConfig` 中增加策略字段，并补充注释：
  - 说明这是初始化时必须显式指定的行为策略。
  - 说明若选择回退到上一交易日快照，则服务必须提前部署并长期稳定运行，才能在前一
    交易日下午完成固化。
  - 说明若策略开启而 `db_path` 为 `None`，初始化必须返回 `Error`。
- [ ] 在 `DataApiEcClient::new` 的注释里补充同样的行为约束，避免调用方误用。
- [ ] 在 `LowClientOptions` 中透传该策略，并在 `LowClient::new` 内做参数校验：
  - `Disable` 允许 `db_path=None`
  - `UsePrevTradeDayBeforeOpenAndClosure` 禁止 `db_path=None`
- [ ] 在 CLI 示例配置里显式填写该策略，避免编译报错，也让示例体现新配置项。
- [ ] 在初始化成功处补日志：
  - 当前策略值
  - `db_path` 是否启用
  - 是否允许 prev-trade-day 回退

--------------------------------------------------------------------------------

1. Some text, and code block below, with newline after code block

   ```yaml
   ---
   foo: bar
   ```

   1. Another
   2. List

1. Some text, and code block below, with newline after code block
   1. Another
   2. List

   ```yaml
   ---
   foo: bar
   ```

   1. Another
   2. List
"#;

// The expected output is the part of the list testcase's `after.md` that its
// `before.md` formats to (its first 47 lines); the rest of that file belongs
// to no input.
#[test]
fn formats_each_testcase() {
    let testcases = [("0003-list-in-markdown-document", LIST_BEFORE, LIST_AFTER)];
    for (testcase, before, after) in testcases {
        let formatted = format_markdown(before).unwrap();

        assert_eq!(formatted, after, "testcase: {}", testcase);
    }
}

#[test]
fn formats_a_heading_from_text() {
    assert_eq!(format_markdown("# Hi").unwrap(), "# Hi\n");
}

#[test]
fn formats_an_empty_text() {
    assert_eq!(format_markdown("").unwrap(), "");
}

#[test]
fn keeps_source_list_numbers_and_definitions() {
    let input = "3) three\n4) four\n\n[a]: https://a.example\n[b]: https://b.example \"B\"\n";
    assert_eq!(
        format_markdown(input).unwrap(),
        "3) three\n4) four\n\n[a]: https://a.example\n[b]: https://b.example \"B\"\n"
    );
}

#[test]
fn rewraps_a_long_paragraph() {
    let words = vec!["word"; 20].join(" ");
    let expected = format!("{}\n{}\n", vec!["word"; 16].join(" "), vec!["word"; 4].join(" "));
    assert_eq!(format_markdown(&words).unwrap(), expected);
}
