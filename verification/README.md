# thefmt

A markdown formatter whose rendering is proved correct with Verus. `thefmt
file.md` parses the file as GitHub-flavoured markdown and rewrites it in place:
paragraphs are re-wrapped to 80 columns where they can be broken (with line-breaking rules for Chinese
text), lists use `-` or their own numbers, tables get padded columns, and a
thematic break after a list is drawn across the full width.

## Layout

- `src/` — the verified library. Every executable function has a contract
  over a mathematical model of the text it produces.
  - `node.rs` — the markdown tree (`Tree`).
  - `text.rs` — display widths and character classes (through `unicode-width`
    and std), and string helpers.
  - `units.rs`, `normalize.rs` — turning paragraph text into breakable units.
  - `wrap.rs` — the line breaker; `wrap_laws.rs` proves that it keeps the
    text, and `width_laws.rs` that, when the continuation prefix is no wider
    than the first one, every printed line fits in 80 columns with its prefix
    unless it holds a single piece of text (a character or an inline element)
    wider than the room left; `word_laws.rs` that plain ASCII words are
    broken only at spaces, each break taking the place of one space.
  - `pieces.rs`, `tables.rs` — code blocks, links, prefixed blocks, list
    markers and tables; `table_laws.rs` proves that the rows of a table of
    ASCII cells line up.
  - `render.rs` — rendering a whole tree, and `format_document`.
  - `parse.rs` — parsing with the `markdown` crate into the library's tree,
    and `format_markdown`.
- `app/` — the command-line program: reading and writing the file.
- `tests/` — tests of the library on concrete documents.
