//! Rendering a markdown tree back to markdown text.

use vstd::prelude::*;
use crate::node::{AlignKind, Tree};
use crate::normalize::{normalize_breakable_text, normalized};
use crate::pieces::{
    code_block, opt_string_view, opt_view, ordered_list_marker, ordered_marker, prefixed,
    push_title, reference, render_code_block, render_prefixed_block, render_reference,
    render_resource, resource, title_suffix,
};
use crate::tables::{layout_table, rows_view, table_layout};
use crate::text::{
    chars_of, is_empty, is_white_space, is_whitespace, join, join_with, push_char, push_str,
    repeat, repeat_char, strings_view, to_string, trim_end_newlines, trim_trailing_newlines,
};
use crate::wrap::{
    fragments_view, sat_add, wrap_fragments, wrapped, FragmentView, InlineFragment, MAX_LINE_WIDTH,
};

verus! {

pub open spec fn sep_blank_line() -> Seq<char> {
    seq!['\n', '\n']
}

pub open spec fn quote_prefix() -> Seq<char> {
    seq!['>', ' ']
}

/// The first printed character of `s` that is not whitespace.
pub open spec fn first_solid(s: Seq<char>, i: int) -> Option<char>
    decreases s.len() - i,
{
    if i < 0 || i >= s.len() {
        None
    } else if !is_white_space(s[i]) {
        Some(s[i])
    } else {
        first_solid(s, i + 1)
    }
}

/// The last character of `s[..n]` that is not whitespace.
pub open spec fn last_solid(s: Seq<char>, n: int) -> Option<char>
    decreases n,
{
    if n <= 0 || n > s.len() {
        None
    } else if !is_white_space(s[n - 1]) {
        Some(s[n - 1])
    } else {
        last_solid(s, n - 1)
    }
}

/// Code and math blocks.
pub open spec fn code_like(n: Tree) -> bool {
    n is Code || n is Math
}

/// A blank line separates two blocks of a list item when either is code
/// like, or, in a spread item, between paragraphs and between a paragraph
/// and a bullet list.
pub open spec fn blank_between_item_blocks(previous: Tree, current: Tree, spread: bool) -> bool {
    ||| code_like(previous) || code_like(current)
    ||| spread && match (previous, current) {
        (Tree::Paragraph { .. }, Tree::Paragraph { .. }) => true,
        (Tree::Paragraph { .. }, Tree::List { ordered, .. }) => !ordered,
        (Tree::List { ordered, .. }, Tree::Paragraph { .. }) => !ordered,
        _ => false,
    }
}

/// A thematic break right after a list is drawn across the whole width.
pub open spec fn expands_break(s: Seq<Tree>, index: int) -> bool {
    index >= 1 && index - 1 < s.len() && s[index - 1] is List
}

/// Consecutive definitions are not separated by a blank line.
pub open spec fn compact_blocks(previous: Tree, current: Tree) -> bool {
    previous is Definition && current is Definition
}

/// A paragraph holds a hard line break.
pub open spec fn has_break(s: Seq<Tree>) -> bool {
    exists|i: int| 0 <= i < s.len() && #[trigger] s[i] is Break
}

/// The marker prefix of a list item's first line: the base prefix, the
/// marker, a space, and the task checkbox.
pub open spec fn first_item_prefix(base: Seq<char>, marker: Seq<char>, checked: Option<bool>) -> Seq<char> {
    base + marker + seq![' '] + match checked {
        Some(true) => seq!['[', 'x', ']', ' '],
        Some(false) => seq!['[', ' ', ']', ' '],
        None => Seq::empty(),
    }
}

/// The length in bytes of the UTF-8 encoding of `s`, as `str::len` gives it.
pub open spec fn byte_len(s: Seq<char>) -> nat {
    (vstd::utf8::encode_utf8(s).len() as usize) as nat
}

/// The number of an ordered list's first item.
pub open spec fn first_number(start: Option<u32>) -> nat {
    match start {
        Some(n) => n as nat,
        None => 1,
    }
}

/// The numbers of `len` items counted from `start` all fit in a `u32`.
pub open spec fn numbers_fit(len: nat, start: Option<u32>) -> bool {
    len == 0 || first_number(start) + len - 1 <= u32::MAX
}

/// Every ordered list in the tree numbers its items within `u32` (item
/// numbers are computed as `u32`, and a larger one overflows).
pub open spec fn numbered(n: Tree) -> bool
    decreases n, 0int,
{
    match n {
        Tree::List { children, ordered, start, .. } => (!ordered || numbers_fit(
            children@.len(),
            start,
        )) && numbered_from(children@, children@.len() as int),
        Tree::Root { children } => numbered_from(children@, children@.len() as int),
        Tree::Blockquote { children } => numbered_from(children@, children@.len() as int),
        Tree::FootnoteDefinition { children, .. } => numbered_from(children@, children@.len() as int),
        Tree::MdxJsxFlowElement { children } => numbered_from(children@, children@.len() as int),
        Tree::Delete { children } => numbered_from(children@, children@.len() as int),
        Tree::Emphasis { children } => numbered_from(children@, children@.len() as int),
        Tree::MdxJsxTextElement { children } => numbered_from(children@, children@.len() as int),
        Tree::Link { children, .. } => numbered_from(children@, children@.len() as int),
        Tree::LinkReference { children, .. } => numbered_from(children@, children@.len() as int),
        Tree::Strong { children } => numbered_from(children@, children@.len() as int),
        Tree::Heading { children, .. } => numbered_from(children@, children@.len() as int),
        Tree::Table { children, .. } => numbered_from(children@, children@.len() as int),
        Tree::TableRow { children } => numbered_from(children@, children@.len() as int),
        Tree::TableCell { children } => numbered_from(children@, children@.len() as int),
        Tree::ListItem { children, .. } => numbered_from(children@, children@.len() as int),
        Tree::Paragraph { children } => numbered_from(children@, children@.len() as int),
        _ => true,
    }
}

/// The first `m` nodes of `s` are [`numbered`].
pub open spec fn numbered_from(s: Seq<Tree>, m: int) -> bool
    decreases s, m,
{
    if m <= 0 || m > s.len() {
        true
    } else {
        numbered_from(s, m - 1) && numbered(s[m - 1])
    }
}

/// Every node of `s` is [`numbered`].
pub open spec fn numbered_all(s: Seq<Tree>) -> bool {
    numbered_from(s, s.len() as int)
}

/// Each node of a [`numbered_all`] sequence is [`numbered`].
pub proof fn lemma_numbered_at(s: Seq<Tree>, i: int)
    requires
        numbered_all(s),
        0 <= i < s.len(),
    ensures
        numbered(s[i]),
{
    lemma_numbered_from_at(s, s.len() as int, i);
}

proof fn lemma_numbered_from_at(s: Seq<Tree>, m: int, i: int)
    requires
        numbered_from(s, m),
        0 <= i < m <= s.len(),
    ensures
        numbered(s[i]),
    decreases m,
{
    if i < m - 1 {
        lemma_numbered_from_at(s, m - 1, i);
    }
}

/// Whether every ordered list in the tree numbers its items within `u32`.
pub fn is_numbered(node: &Tree) -> (r: bool)
    ensures
        r == numbered(*node),
    decreases node, 0int,
{
    match node {
        Tree::List { children, ordered, start, .. } => {
            let fits = if *ordered && children.len() > 0 {
                let first: u32 = match start {
                    Some(n) => *n,
                    None => 1,
                };
                (children.len() - 1) as u64 <= (u32::MAX - first) as u64
            } else {
                true
            };
            fits && all_numbered(children)
        },
        Tree::Root { children } => all_numbered(children),
        Tree::Blockquote { children } => all_numbered(children),
        Tree::FootnoteDefinition { children, .. } => all_numbered(children),
        Tree::MdxJsxFlowElement { children } => all_numbered(children),
        Tree::Delete { children } => all_numbered(children),
        Tree::Emphasis { children } => all_numbered(children),
        Tree::MdxJsxTextElement { children } => all_numbered(children),
        Tree::Link { children, .. } => all_numbered(children),
        Tree::LinkReference { children, .. } => all_numbered(children),
        Tree::Strong { children } => all_numbered(children),
        Tree::Heading { children, .. } => all_numbered(children),
        Tree::Table { children, .. } => all_numbered(children),
        Tree::TableRow { children } => all_numbered(children),
        Tree::TableCell { children } => all_numbered(children),
        Tree::ListItem { children, .. } => all_numbered(children),
        Tree::Paragraph { children } => all_numbered(children),
        _ => true,
    }
}

/// Whether every node of `children` is [`numbered`].
fn all_numbered(children: &Vec<Tree>) -> (r: bool)
    ensures
        r == numbered_from(children@, children@.len() as int),
    decreases children@, 1int,
{
    let mut i: usize = 0;
    while i < children.len()
        invariant
            i <= children@.len(),
            numbered_from(children@, i as int),
        decreases children@.len() - i,
    {
        if !is_numbered(&children[i]) {
            proof {
                lemma_numbered_from_stops(children@, i as int + 1, children@.len() as int);
            }
            return false;
        }
        i = i + 1;
    }
    true
}

/// A prefix that is not [`numbered_from`] stays so when extended.
proof fn lemma_numbered_from_stops(s: Seq<Tree>, m: int, n: int)
    requires
        0 < m <= n <= s.len(),
        !numbered_from(s, m),
    ensures
        !numbered_from(s, n),
    decreases n - m,
{
    if m < n {
        lemma_numbered_from_stops(s, m, n - 1);
    }
}

/// The marker of list item `index`.
pub open spec fn list_marker(s: Seq<Tree>, index: int, ordered: bool, start: Option<u32>, input: Seq<char>) -> Seq<char> {
    if ordered {
        ordered_marker(
            s[index],
            first_number(start) + index as nat,
            input,
        )
    } else {
        seq!['-']
    }
}

/// The text of a node.
pub open spec fn node_text(n: Tree, input: Seq<char>) -> Seq<char>
    decreases n, 0int, 0int,
{
    match n {
        Tree::Root { children } => root_blocks(children@, input),
        Tree::Blockquote { children } => blockquote(children@, input),
        Tree::FootnoteDefinition { identifier, children } => seq!['[', '^'] + identifier@ + seq![
            ']',
            ':',
            ' ',
        ] + blocks(children@, input),
        Tree::MdxJsxFlowElement { children } => blocks(children@, input),
        Tree::List { children, ordered, start, spread } => list(
            children@,
            ordered,
            start,
            spread,
            Seq::empty(),
            input,
        ),
        Tree::MdxjsEsm { value } => value@,
        Tree::Toml { value } => seq!['+', '+', '+', '\n'] + trim_end_newlines(value@) + seq![
            '\n',
            '+',
            '+',
            '+',
        ],
        Tree::Yaml { value } => seq!['-', '-', '-', '\n'] + trim_end_newlines(value@) + seq![
            '\n',
            '-',
            '-',
            '-',
        ],
        Tree::Break => seq!['\\', '\n'],
        Tree::InlineCode { value } => seq!['`'] + value@ + seq!['`'],
        Tree::InlineMath { value } => seq!['$'] + value@ + seq!['$'],
        Tree::Delete { children } => seq!['~', '~'] + inlines(children@, input) + seq!['~', '~'],
        Tree::Emphasis { children } => seq!['*'] + inlines(children@, input) + seq!['*'],
        Tree::MdxTextExpression { value } => seq!['{'] + value@ + seq!['}'],
        Tree::FootnoteReference { identifier } => seq!['[', '^'] + identifier@ + seq![']'],
        Tree::Html { value } => value@,
        Tree::Image { alt, url, title } => resource(
            seq!['!', '['] + alt@ + seq![']'],
            url@,
            opt_string_view(title),
        ),
        Tree::ImageReference { alt, identifier, reference_kind } => reference(
            seq!['!', '['] + alt@ + seq![']'],
            identifier@,
            reference_kind,
        ),
        Tree::MdxJsxTextElement { children } => inlines(children@, input),
        Tree::Link { children, url, title } => resource(
            seq!['['] + inlines(children@, input) + seq![']'],
            url@,
            opt_string_view(title),
        ),
        Tree::LinkReference { children, identifier, reference_kind } => reference(
            seq!['['] + inlines(children@, input) + seq![']'],
            identifier@,
            reference_kind,
        ),
        Tree::Strong { children } => seq!['*', '*'] + inlines(children@, input) + seq!['*', '*'],
        Tree::Text { value } => value@,
        Tree::Code { lang, meta, value } => code_block(opt_string_view(lang), opt_string_view(meta), value@),
        Tree::Math { value } => seq!['$', '$', '\n'] + trim_end_newlines(value@) + seq![
            '\n',
            '$',
            '$',
        ],
        Tree::MdxFlowExpression { value } => seq!['{'] + value@ + seq!['}'],
        Tree::Heading { depth, children } => repeat_char('#', depth as nat) + seq![' '] + inlines(
            children@,
            input,
        ),
        Tree::Table { align, children } => table(children@, align@, input),
        Tree::ThematicBreak => seq!['-', '-', '-'],
        Tree::TableRow { children } => unpadded_row(children@, input),
        Tree::TableCell { children } => inlines(children@, input),
        Tree::ListItem { children, .. } => blocks(children@, input),
        Tree::Definition { identifier, url, title } => seq!['['] + identifier@ + seq![']', ':', ' ']
            + url@ + title_suffix(opt_string_view(title)),
        Tree::Paragraph { children } => inlines(children@, input),
    }
}

/// The texts of the nodes one after another.
pub open spec fn inlines(s: Seq<Tree>, input: Seq<char>) -> Seq<char>
    decreases s, 0int, s.len() + 1,
{
    inlines_from(s, s.len() as int, input)
}

pub open spec fn inlines_from(s: Seq<Tree>, m: int, input: Seq<char>) -> Seq<char>
    decreases s, 0int, m,
{
    if m <= 0 || m > s.len() {
        Seq::empty()
    } else {
        inlines_from(s, m - 1, input) + node_text(s[m - 1], input)
    }
}

/// The non-empty texts of the first `m` nodes.
pub open spec fn block_texts(s: Seq<Tree>, m: int, input: Seq<char>) -> Seq<Seq<char>>
    decreases s, 0int, m,
{
    if m <= 0 || m > s.len() {
        Seq::empty()
    } else {
        let t = node_text(s[m - 1], input);
        if t.len() == 0 {
            block_texts(s, m - 1, input)
        } else {
            block_texts(s, m - 1, input).push(t)
        }
    }
}

/// Blocks separated by blank lines.
pub open spec fn blocks(s: Seq<Tree>, input: Seq<char>) -> Seq<char>
    decreases s, 0int, s.len() + 1,
{
    join(block_texts(s, s.len() as int, input), sep_blank_line())
}

/// The top-level blocks of the first `m` children, and the last one printed.
pub open spec fn root_from(s: Seq<Tree>, m: int, input: Seq<char>) -> (Seq<char>, Option<Tree>)
    decreases s, 0int, m,
{
    if m <= 0 || m > s.len() {
        (Seq::empty(), None)
    } else {
        let (out, previous) = root_from(s, m - 1, input);
        let child = s[m - 1];
        let block = match child {
            Tree::Paragraph { children } => wrapped_paragraph(
                children@,
                Seq::empty(),
                Seq::empty(),
                input,
            ),
            Tree::ThematicBreak => if expands_break(s, m - 1) {
                repeat_char('-', MAX_LINE_WIDTH as nat)
            } else {
                node_text(child, input)
            },
            _ => node_text(child, input),
        };
        if block.len() == 0 {
            (out, previous)
        } else {
            let sep = match previous {
                Some(p) => if compact_blocks(p, child) {
                    seq!['\n']
                } else {
                    sep_blank_line()
                },
                None => Seq::empty(),
            };
            (out + sep + block, Some(child))
        }
    }
}

/// The document's top-level blocks: paragraphs are wrapped, a thematic break
/// after a list is drawn across the width, blocks are separated by a blank
/// line (definitions by a newline).
pub open spec fn root_blocks(s: Seq<Tree>, input: Seq<char>) -> Seq<char>
    decreases s, 0int, s.len() + 1,
{
    root_from(s, s.len() as int, input).0
}

/// The non-empty quoted blocks of the first `m` children.
pub open spec fn quote_texts(s: Seq<Tree>, m: int, input: Seq<char>) -> Seq<Seq<char>>
    decreases s, 0int, m,
{
    if m <= 0 || m > s.len() {
        Seq::empty()
    } else {
        let t = match s[m - 1] {
            Tree::Paragraph { children } => wrapped_paragraph(
                children@,
                quote_prefix(),
                quote_prefix(),
                input,
            ),
            _ => prefixed(node_text(s[m - 1], input), quote_prefix(), quote_prefix()),
        };
        if t.len() == 0 {
            quote_texts(s, m - 1, input)
        } else {
            quote_texts(s, m - 1, input).push(t)
        }
    }
}

/// A blockquote: every block quoted with `> `, blocks separated by `>`.
pub open spec fn blockquote(s: Seq<Tree>, input: Seq<char>) -> Seq<char>
    decreases s, 0int, s.len() + 1,
{
    join(quote_texts(s, s.len() as int, input), seq!['\n', '>', '\n'])
}

/// The first `m` items of a list.
pub open spec fn list_from(
    s: Seq<Tree>,
    m: int,
    ordered: bool,
    start: Option<u32>,
    spread: bool,
    base: Seq<char>,
    input: Seq<char>,
) -> Seq<char>
    decreases s, 0int, m,
{
    if m <= 0 || m > s.len() {
        Seq::empty()
    } else {
        let sep = if m - 1 > 0 {
            if spread {
                seq!['\n', '\n']
            } else {
                seq!['\n']
            }
        } else {
            Seq::empty()
        };
        list_from(s, m - 1, ordered, start, spread, base, input) + sep + list_item(
            s[m - 1],
            list_marker(s, m - 1, ordered, start, input),
            base,
            input,
        )
    }
}

/// A list: its items, one per line (with a blank line between items of a
/// spread list).
pub open spec fn list(
    s: Seq<Tree>,
    ordered: bool,
    start: Option<u32>,
    spread: bool,
    base: Seq<char>,
    input: Seq<char>,
) -> Seq<char>
    decreases s, 0int, s.len() + 1,
{
    list_from(s, s.len() as int, ordered, start, spread, base, input)
}

/// One block of a list item.
pub open spec fn item_block(
    child: Tree,
    index: int,
    first: Seq<char>,
    first_cont: Seq<char>,
    following: Seq<char>,
    input: Seq<char>,
) -> Seq<char>
    decreases child, 1int, 0int,
{
    match child {
        Tree::Paragraph { children } => if index == 0 {
            wrapped_paragraph(children@, first, first_cont, input)
        } else {
            wrapped_paragraph(children@, following, following, input)
        },
        Tree::List { children, ordered, start, spread } => list(
            children@,
            ordered,
            start,
            spread,
            following,
            input,
        ),
        _ => if index == 0 {
            prefixed(node_text(child, input), first, following)
        } else {
            prefixed(node_text(child, input), following, following)
        },
    }
}

/// The first `m` blocks of a list item.
pub open spec fn item_from(
    s: Seq<Tree>,
    m: int,
    spread: bool,
    first: Seq<char>,
    first_cont: Seq<char>,
    following: Seq<char>,
    input: Seq<char>,
) -> Seq<char>
    decreases s, 0int, m,
{
    if m <= 0 || m > s.len() {
        Seq::empty()
    } else {
        let sep = if m - 1 > 0 {
            if blank_between_item_blocks(s[m - 2], s[m - 1], spread) {
                seq!['\n', '\n']
            } else {
                seq!['\n']
            }
        } else {
            Seq::empty()
        };
        item_from(s, m - 1, spread, first, first_cont, following, input) + sep + item_block(
            s[m - 1],
            m - 1,
            first,
            first_cont,
            following,
            input,
        )
    }
}

/// A list item: its first block after the marker, the other blocks indented
/// under it; an item without content is its marker.
pub open spec fn list_item(node: Tree, marker: Seq<char>, base: Seq<char>, input: Seq<char>) -> Seq<char>
    decreases node, 1int, 0int,
{
    match node {
        Tree::ListItem { children, checked, spread, .. } => {
            let first = first_item_prefix(base, marker, checked);
            let first_cont = repeat_char(' ', byte_len(first));
            let following = base + repeat_char(' ', sat_add(byte_len(marker), 1));
            let out = item_from(
                children@,
                children@.len() as int,
                spread,
                first,
                first_cont,
                following,
                input,
            );
            if out.len() == 0 {
                marker
            } else {
                out
            }
        },
        _ => base + marker + seq![' '] + node_text(node, input),
    }
}

/// The last character before child `j` that its neighbours print, other
/// than whitespace.
pub open spec fn previous_visible(s: Seq<Tree>, j: int, input: Seq<char>) -> Option<char>
    decreases s, 1int, j,
{
    if j <= 0 || j > s.len() {
        None
    } else {
        let t = node_text(s[j - 1], input);
        let found = last_solid(t, t.len() as int);
        if found is Some {
            found
        } else {
            previous_visible(s, j - 1, input)
        }
    }
}

/// The first character from child `j` on that is printed, other than
/// whitespace.
pub open spec fn next_visible(s: Seq<Tree>, j: int, input: Seq<char>) -> Option<char>
    decreases s, 1int, s.len() - j,
{
    if j < 0 || j >= s.len() {
        None
    } else {
        let found = first_solid(node_text(s[j], input), 0);
        if found is Some {
            found
        } else {
            next_visible(s, j + 1, input)
        }
    }
}

/// The fragments of the first `m` children of a paragraph: text becomes
/// breakable units (with the neighbours' characters as context), other
/// nodes are kept whole; empty fragments are dropped.
pub open spec fn fragments_from(s: Seq<Tree>, m: int, input: Seq<char>) -> Seq<FragmentView>
    decreases s, 2int, m,
{
    if m <= 0 || m > s.len() {
        Seq::empty()
    } else {
        let rest = fragments_from(s, m - 1, input);
        match s[m - 1] {
            Tree::Text { value } => {
                let us = normalized(
                    value@,
                    previous_visible(s, m - 1, input),
                    next_visible(s, m, input),
                );
                if us.len() == 0 {
                    rest
                } else {
                    rest.push(FragmentView::Text(us))
                }
            },
            _ => {
                let t = node_text(s[m - 1], input);
                if t.len() == 0 {
                    rest
                } else {
                    rest.push(FragmentView::Atomic(t))
                }
            },
        }
    }
}

/// A paragraph: wrapped to 80 columns, or, when it holds a hard break,
/// printed as is with its lines prefixed.
pub open spec fn wrapped_paragraph(s: Seq<Tree>, first: Seq<char>, cont: Seq<char>, input: Seq<char>) -> Seq<char>
    decreases s, 3int, 0int,
{
    if has_break(s) {
        prefixed(inlines(s, input), first, cont)
    } else {
        wrapped(fragments_from(s, s.len() as int, input), first, cont)
    }
}

/// The rendered cells of the first `m` children of a row.
pub open spec fn row_cells(s: Seq<Tree>, m: int, input: Seq<char>) -> Seq<Seq<char>>
    decreases s, 0int, m,
{
    if m <= 0 || m > s.len() {
        Seq::empty()
    } else {
        row_cells(s, m - 1, input).push(
            match s[m - 1] {
                Tree::TableCell { children } => inlines(children@, input),
                _ => node_text(s[m - 1], input),
            },
        )
    }
}

/// The rows (lists of rendered cells) among the first `m` children.
pub open spec fn table_rows(s: Seq<Tree>, m: int, input: Seq<char>) -> Seq<Seq<Seq<char>>>
    decreases s, 0int, m,
{
    if m <= 0 || m > s.len() {
        Seq::empty()
    } else {
        match s[m - 1] {
            Tree::TableRow { children } => table_rows(s, m - 1, input).push(
                row_cells(children@, children@.len() as int, input),
            ),
            _ => table_rows(s, m - 1, input),
        }
    }
}

/// A table with padded columns.
pub open spec fn table(s: Seq<Tree>, align: Seq<AlignKind>, input: Seq<char>) -> Seq<char>
    decreases s, 0int, s.len() + 1,
{
    table_layout(table_rows(s, s.len() as int, input), align)
}

/// The texts of the first `m` nodes.
pub open spec fn node_texts(s: Seq<Tree>, m: int, input: Seq<char>) -> Seq<Seq<char>>
    decreases s, 0int, m,
{
    if m <= 0 || m > s.len() {
        Seq::empty()
    } else {
        node_texts(s, m - 1, input).push(node_text(s[m - 1], input))
    }
}

/// A table row on its own: `| a | b |` without padding.
pub open spec fn unpadded_row(s: Seq<Tree>, input: Seq<char>) -> Seq<char>
    decreases s, 0int, s.len() + 1,
{
    seq!['|', ' '] + join(node_texts(s, s.len() as int, input), seq![' ', '|', ' ']) + seq![' ', '|']
}

// ---------------------------------------------------------------------------
// Executable rendering
// ---------------------------------------------------------------------------

/// `left`, then `body`, then `right`.
fn enclose(left: &str, body: &str, right: &str) -> (r: String)
    ensures
        r@ == left@ + body@ + right@,
{
    let mut out = to_string(left);
    push_str(&mut out, body);
    push_str(&mut out, right);
    out
}

/// The first character of `s` that is not whitespace.
fn first_solid_char(s: &str) -> (r: Option<char>)
    ensures
        r == first_solid(s@, 0),
{
    let cs = chars_of(s);
    let mut i: usize = 0;
    while i < cs.len()
        invariant
            i <= cs@.len(),
            cs@ == s@,
            first_solid(s@, 0) == first_solid(s@, i as int),
        decreases cs@.len() - i,
    {
        if !is_whitespace(cs[i]) {
            return Some(cs[i]);
        }
        i = i + 1;
    }
    None
}

/// The last character of `s` that is not whitespace.
fn last_solid_char(s: &str) -> (r: Option<char>)
    ensures
        r == last_solid(s@, s@.len() as int),
{
    let cs = chars_of(s);
    let mut n: usize = cs.len();
    while n > 0
        invariant
            n <= cs@.len(),
            cs@ == s@,
            last_solid(s@, s@.len() as int) == last_solid(s@, n as int),
        decreases n,
    {
        if !is_whitespace(cs[n - 1]) {
            return Some(cs[n - 1]);
        }
        n = n - 1;
    }
    None
}

/// The view of an optional owned string as an optional string slice.
fn as_deref(o: &Option<String>) -> (r: Option<&str>)
    ensures
        opt_view(r) == opt_string_view(*o),
{
    match o {
        Some(s) => Some(s.as_str()),
        None => None,
    }
}

/// Renders a node.
pub fn render_node(node: &Tree, input: &str) -> (r: String)
    requires
        numbered(*node),
    ensures
        r@ == node_text(*node, input@),
    decreases node, 0int, 0int,
{
    match node {
        Tree::Root { children } => render_root_blocks(children, input),
        Tree::Blockquote { children } => render_blockquote(children, input),
        Tree::FootnoteDefinition { identifier, children } => {
            let body = render_blocks(children, input);
            let r = enclose("[^", identifier.as_str(), "]: ");
            let mut out = r;
            push_str(&mut out, body.as_str());
            proof {
                reveal_strlit("[^");
                reveal_strlit("]: ");
            }
            assert(out@ =~= node_text(*node, input@));
            out
        },
        Tree::MdxJsxFlowElement { children } => render_blocks(children, input),
        Tree::List { children, ordered, start, spread } => {
            let base = String::new();
            render_list(children, *ordered, *start, *spread, base.as_str(), input)
        },
        Tree::MdxjsEsm { value } => value.clone(),
        Tree::Toml { value } => {
            let r = enclose("+++\n", trim_trailing_newlines(value.as_str()).as_str(), "\n+++");
            proof {
                reveal_strlit("+++\n");
                reveal_strlit("\n+++");
            }
            assert(r@ =~= node_text(*node, input@));
            r
        },
        Tree::Yaml { value } => {
            let r = enclose("---\n", trim_trailing_newlines(value.as_str()).as_str(), "\n---");
            proof {
                reveal_strlit("---\n");
                reveal_strlit("\n---");
            }
            assert(r@ =~= node_text(*node, input@));
            r
        },
        Tree::Break => {
            let r = to_string("\\\n");
            proof {
                reveal_strlit("\\\n");
            }
            assert(r@ =~= node_text(*node, input@));
            r
        },
        Tree::InlineCode { value } => {
            let r = enclose("`", value.as_str(), "`");
            proof {
                reveal_strlit("`");
            }
            assert(r@ =~= node_text(*node, input@));
            r
        },
        Tree::InlineMath { value } => {
            let r = enclose("$", value.as_str(), "$");
            proof {
                reveal_strlit("$");
            }
            assert(r@ =~= node_text(*node, input@));
            r
        },
        Tree::Delete { children } => {
            let inner = render_inlines(children, input);
            let r = enclose("~~", inner.as_str(), "~~");
            proof {
                reveal_strlit("~~");
            }
            assert(r@ =~= node_text(*node, input@));
            r
        },
        Tree::Emphasis { children } => {
            let inner = render_inlines(children, input);
            let r = enclose("*", inner.as_str(), "*");
            proof {
                reveal_strlit("*");
            }
            assert(r@ =~= node_text(*node, input@));
            r
        },
        Tree::MdxTextExpression { value } => {
            let r = enclose("{", value.as_str(), "}");
            proof {
                reveal_strlit("{");
                reveal_strlit("}");
            }
            assert(r@ =~= node_text(*node, input@));
            r
        },
        Tree::FootnoteReference { identifier } => {
            let r = enclose("[^", identifier.as_str(), "]");
            proof {
                reveal_strlit("[^");
                reveal_strlit("]");
            }
            assert(r@ =~= node_text(*node, input@));
            r
        },
        Tree::Html { value } => value.clone(),
        Tree::Image { alt, url, title } => {
            let label = enclose("![", alt.as_str(), "]");
            proof {
                reveal_strlit("![");
                reveal_strlit("]");
            }
            assert(label@ =~= seq!['!', '['] + alt@ + seq![']']);
            render_resource(label.as_str(), url.as_str(), title)
        },
        Tree::ImageReference { alt, identifier, reference_kind } => {
            let label = enclose("![", alt.as_str(), "]");
            proof {
                reveal_strlit("![");
                reveal_strlit("]");
            }
            assert(label@ =~= seq!['!', '['] + alt@ + seq![']']);
            render_reference(label.as_str(), identifier.as_str(), *reference_kind)
        },
        Tree::MdxJsxTextElement { children } => render_inlines(children, input),
        Tree::Link { children, url, title } => {
            let inner = render_inlines(children, input);
            let label = enclose("[", inner.as_str(), "]");
            proof {
                reveal_strlit("[");
                reveal_strlit("]");
            }
            assert(label@ =~= seq!['['] + inner@ + seq![']']);
            render_resource(label.as_str(), url.as_str(), title)
        },
        Tree::LinkReference { children, identifier, reference_kind } => {
            let inner = render_inlines(children, input);
            let label = enclose("[", inner.as_str(), "]");
            proof {
                reveal_strlit("[");
                reveal_strlit("]");
            }
            assert(label@ =~= seq!['['] + inner@ + seq![']']);
            render_reference(label.as_str(), identifier.as_str(), *reference_kind)
        },
        Tree::Strong { children } => {
            let inner = render_inlines(children, input);
            let r = enclose("**", inner.as_str(), "**");
            proof {
                reveal_strlit("**");
            }
            assert(r@ =~= node_text(*node, input@));
            r
        },
        Tree::Text { value } => value.clone(),
        Tree::Code { lang, meta, value } => render_code_block(
            as_deref(lang),
            as_deref(meta),
            value.as_str(),
        ),
        Tree::Math { value } => {
            let r = enclose("$$\n", trim_trailing_newlines(value.as_str()).as_str(), "\n$$");
            proof {
                reveal_strlit("$$\n");
                reveal_strlit("\n$$");
            }
            assert(r@ =~= node_text(*node, input@));
            r
        },
        Tree::MdxFlowExpression { value } => {
            let r = enclose("{", value.as_str(), "}");
            proof {
                reveal_strlit("{");
                reveal_strlit("}");
            }
            assert(r@ =~= node_text(*node, input@));
            r
        },
        Tree::Heading { depth, children } => {
            let mut out = repeat('#', *depth as usize);
            push_char(&mut out, ' ');
            push_str(&mut out, render_inlines(children, input).as_str());
            assert(out@ =~= node_text(*node, input@));
            out
        },
        Tree::Table { align, children } => render_table(children, align, input),
        Tree::ThematicBreak => {
            let r = repeat('-', 3);
            assert(r@ =~= node_text(*node, input@));
            r
        },
        Tree::TableRow { children } => render_unpadded_table_row(children, input),
        Tree::TableCell { children } => render_inlines(children, input),
        Tree::ListItem { children, .. } => render_blocks(children, input),
        Tree::Definition { identifier, url, title } => {
            let mut out = enclose("[", identifier.as_str(), "]: ");
            push_str(&mut out, url.as_str());
            push_title(&mut out, title);
            proof {
                reveal_strlit("[");
                reveal_strlit("]: ");
            }
            assert(out@ =~= node_text(*node, input@));
            out
        },
        Tree::Paragraph { children } => render_inlines(children, input),
    }
}

/// Renders inline nodes one after another.
pub fn render_inlines(children: &Vec<Tree>, input: &str) -> (r: String)
    requires
        numbered_all(children@),
    ensures
        r@ == inlines(children@, input@),
    decreases children@, 0int, 1int,
{
    let mut out = String::new();
    let mut i: usize = 0;
    while i < children.len()
        invariant
            i <= children@.len(),
            numbered_all(children@),
            out@ == inlines_from(children@, i as int, input@),
        decreases children@.len() - i,
    {
        proof {
            lemma_numbered_at(children@, i as int);
        }
        let t = render_node(&children[i], input);
        push_str(&mut out, t.as_str());
        i = i + 1;
    }
    out
}

/// Renders blocks separated by blank lines, leaving out empty ones.
pub fn render_blocks(children: &Vec<Tree>, input: &str) -> (r: String)
    requires
        numbered_all(children@),
    ensures
        r@ == blocks(children@, input@),
    decreases children@, 0int, 1int,
{
    let mut parts: Vec<String> = Vec::new();
    let mut i: usize = 0;
    while i < children.len()
        invariant
            i <= children@.len(),
            numbered_all(children@),
            strings_view(parts@) == block_texts(children@, i as int, input@),
        decreases children@.len() - i,
    {
        proof {
            lemma_numbered_at(children@, i as int);
        }
        let t = render_node(&children[i], input);
        if !is_empty(t.as_str()) {
            let ghost before = strings_view(parts@);
            parts.push(t);
            assert(strings_view(parts@) =~= before.push(t@));
        }
        i = i + 1;
    }
    let sep = "\n\n";
    proof {
        reveal_strlit("\n\n");
        assert(sep@ =~= sep_blank_line());
    }
    let r = join_with(&parts, sep);
    assert(r@ =~= blocks(children@, input@));
    r
}

/// A thematic break right after a list is drawn across the whole width.
pub fn thematic_break_should_expand(children: &Vec<Tree>, index: usize) -> (r: bool)
    ensures
        r == expands_break(children@, index as int),
{
    if index == 0 || index - 1 >= children.len() {
        return false;
    }
    match &children[index - 1] {
        Tree::List { .. } => true,
        _ => false,
    }
}

/// Consecutive definitions stay on consecutive lines.
pub fn should_compact_root_blocks(previous: &Tree, current: &Tree) -> (r: bool)
    ensures
        r == compact_blocks(*previous, *current),
{
    let p = match previous {
        Tree::Definition { .. } => true,
        _ => false,
    };
    let c = match current {
        Tree::Definition { .. } => true,
        _ => false,
    };
    p && c
}

/// Renders the top-level blocks of a document.
pub fn render_root_blocks(children: &Vec<Tree>, input: &str) -> (r: String)
    requires
        numbered_all(children@),
    ensures
        r@ == root_blocks(children@, input@),
    decreases children@, 0int, 1int,
{
    let mut output = String::new();
    let mut previous: Option<usize> = None;
    let mut index: usize = 0;
    while index < children.len()
        invariant
            index <= children@.len(),
            numbered_all(children@),
            output@ == root_from(children@, index as int, input@).0,
            match root_from(children@, index as int, input@).1 {
                Some(p) => previous is Some && previous->0 < index && children@[previous->0 as int]
                    == p,
                None => previous is None,
            },
        decreases children@.len() - index,
    {
        let child = &children[index];
        proof {
            lemma_numbered_at(children@, index as int);
        }
        let block = match child {
            Tree::Paragraph { children: inner } => {
                let empty = String::new();
                render_wrapped_paragraph(inner, empty.as_str(), empty.as_str(), input)
            },
            Tree::ThematicBreak => {
                if thematic_break_should_expand(children, index) {
                    repeat('-', MAX_LINE_WIDTH)
                } else {
                    render_node(child, input)
                }
            },
            _ => render_node(child, input),
        };
        if !is_empty(block.as_str()) {
            if let Some(p) = previous {
                push_char(&mut output, '\n');
                if !should_compact_root_blocks(&children[p], child) {
                    push_char(&mut output, '\n');
                }
            }
            push_str(&mut output, block.as_str());
            previous = Some(index);
        }
        index = index + 1;
        assert(output@ =~= root_from(children@, index as int, input@).0);
    }
    output
}

/// `> ` as a string.
fn quote_marker() -> (r: String)
    ensures
        r@ == quote_prefix(),
{
    let mut q = String::new();
    push_char(&mut q, '>');
    push_char(&mut q, ' ');
    assert(q@ =~= quote_prefix());
    q
}

/// Renders the blocks of a blockquote.
pub fn render_blockquote(children: &Vec<Tree>, input: &str) -> (r: String)
    requires
        numbered_all(children@),
    ensures
        r@ == blockquote(children@, input@),
    decreases children@, 0int, 1int,
{
    let q = quote_marker();
    let mut parts: Vec<String> = Vec::new();
    let mut i: usize = 0;
    while i < children.len()
        invariant
            i <= children@.len(),
            numbered_all(children@),
            q@ == quote_prefix(),
            strings_view(parts@) == quote_texts(children@, i as int, input@),
        decreases children@.len() - i,
    {
        proof {
            lemma_numbered_at(children@, i as int);
        }
        let t = match &children[i] {
            Tree::Paragraph { children: inner } => render_wrapped_paragraph(
                inner,
                q.as_str(),
                q.as_str(),
                input,
            ),
            child => render_prefixed_block(
                render_node(child, input).as_str(),
                q.as_str(),
                q.as_str(),
            ),
        };
        if !is_empty(t.as_str()) {
            let ghost before = strings_view(parts@);
            parts.push(t);
            assert(strings_view(parts@) =~= before.push(t@));
        }
        i = i + 1;
    }
    let sep = "\n>\n";
    proof {
        reveal_strlit("\n>\n");
        assert(sep@ =~= seq!['\n', '>', '\n']);
    }
    let r = join_with(&parts, sep);
    assert(r@ =~= blockquote(children@, input@));
    r
}

/// Renders the items of a list, each line of which starts with
/// `base_prefix`.
pub fn render_list(
    children: &Vec<Tree>,
    ordered: bool,
    start: Option<u32>,
    spread: bool,
    base_prefix: &str,
    input: &str,
) -> (r: String)
    requires
        numbered_all(children@),
        ordered ==> numbers_fit(children@.len(), start),
    ensures
        r@ == list(children@, ordered, start, spread, base_prefix@, input@),
    decreases children@, 0int, 1int,
{
    let first: u32 = match start {
        Some(n) => n,
        None => 1,
    };
    let mut output = String::new();
    let mut index: usize = 0;
    while index < children.len()
        invariant
            index <= children@.len(),
            numbered_all(children@),
            ordered ==> numbers_fit(children@.len(), start),
            first as nat == first_number(start),
            output@ == list_from(children@, index as int, ordered, start, spread, base_prefix@, input@),
        decreases children@.len() - index,
    {
        let ghost before = output@;
        if index > 0 {
            push_char(&mut output, '\n');
            if spread {
                push_char(&mut output, '\n');
            }
        }
        let marker = if ordered {
            ordered_list_marker(&children[index], first + index as u32, input)
        } else {
            let mut m = String::new();
            push_char(&mut m, '-');
            assert(m@ =~= seq!['-']);
            m
        };
        assert(marker@ == list_marker(children@, index as int, ordered, start, input@));
        proof {
            lemma_numbered_at(children@, index as int);
        }
        let item = render_list_item(&children[index], marker.as_str(), base_prefix, input);
        push_str(&mut output, item.as_str());
        index = index + 1;
        assert(output@ =~= list_from(
            children@,
            index as int,
            ordered,
            start,
            spread,
            base_prefix@,
            input@,
        ));
    }
    output
}

/// Code and math blocks.
pub fn is_code_like_block(node: &Tree) -> (r: bool)
    ensures
        r == code_like(*node),
{
    match node {
        Tree::Code { .. } => true,
        Tree::Math { .. } => true,
        _ => false,
    }
}

/// A blank line goes between two blocks when either is code like.
pub fn should_insert_blank_line_between_blocks(previous: &Tree, current: &Tree) -> (r: bool)
    ensures
        r == (code_like(*previous) || code_like(*current)),
{
    is_code_like_block(previous) || is_code_like_block(current)
}

/// Whether a blank line goes between two blocks of a list item.
pub fn should_insert_blank_line_between_list_item_blocks(
    previous: &Tree,
    current: &Tree,
    spread: bool,
) -> (r: bool)
    ensures
        r == blank_between_item_blocks(*previous, *current, spread),
{
    if should_insert_blank_line_between_blocks(previous, current) {
        return true;
    }
    if !spread {
        return false;
    }
    match (previous, current) {
        (Tree::Paragraph { .. }, Tree::Paragraph { .. }) => true,
        (Tree::Paragraph { .. }, Tree::List { ordered, .. }) => !*ordered,
        (Tree::List { ordered, .. }, Tree::Paragraph { .. }) => !*ordered,
        _ => false,
    }
}

/// Renders the blocks of a list item: the first after `first_prefix`
/// (continued under `first_continuation`), the others indented by
/// `following`.
pub fn render_list_item_blocks(
    children: &Vec<Tree>,
    spread: bool,
    first_prefix: &str,
    first_continuation: &str,
    following: &str,
    input: &str,
) -> (r: String)
    requires
        numbered_all(children@),
    ensures
        r@ == item_from(
            children@,
            children@.len() as int,
            spread,
            first_prefix@,
            first_continuation@,
            following@,
            input@,
        ),
    decreases children@, 0int, 1int,
{
    let mut output = String::new();
    let mut index: usize = 0;
    while index < children.len()
        invariant
            index <= children@.len(),
            numbered_all(children@),
            output@ == item_from(
                children@,
                index as int,
                spread,
                first_prefix@,
                first_continuation@,
                following@,
                input@,
            ),
        decreases children@.len() - index,
    {
        if index > 0 {
            push_char(&mut output, '\n');
            if should_insert_blank_line_between_list_item_blocks(
                &children[index - 1],
                &children[index],
                spread,
            ) {
                push_char(&mut output, '\n');
            }
        }
        proof {
            lemma_numbered_at(children@, index as int);
        }
        let rendered = match &children[index] {
            Tree::Paragraph { children: inner } => {
                if index == 0 {
                    render_wrapped_paragraph(inner, first_prefix, first_continuation, input)
                } else {
                    render_wrapped_paragraph(inner, following, following, input)
                }
            },
            Tree::List { children: inner, ordered, start, spread: inner_spread } => {
                render_list(inner, *ordered, *start, *inner_spread, following, input)
            },
            child => {
                let text = render_node(child, input);
                if index == 0 {
                    render_prefixed_block(text.as_str(), first_prefix, following)
                } else {
                    render_prefixed_block(text.as_str(), following, following)
                }
            },
        };
        assert(rendered@ == item_block(
            children@[index as int],
            index as int,
            first_prefix@,
            first_continuation@,
            following@,
            input@,
        ));
        push_str(&mut output, rendered.as_str());
        index = index + 1;
        assert(output@ =~= item_from(
            children@,
            index as int,
            spread,
            first_prefix@,
            first_continuation@,
            following@,
            input@,
        ));
    }
    output
}

/// Renders a list item after its marker.
pub fn render_list_item(node: &Tree, marker: &str, base_prefix: &str, input: &str) -> (r: String)
    requires
        numbered(*node),
    ensures
        r@ == list_item(*node, marker@, base_prefix@, input@),
    decreases node, 1int, 0int,
{
    match node {
        Tree::ListItem { children, checked, spread, .. } => {
            let mut following = to_string(base_prefix);
            push_str(&mut following, repeat(' ', marker.len().saturating_add(1)).as_str());
            let mut first_prefix = to_string(base_prefix);
            push_str(&mut first_prefix, marker);
            push_char(&mut first_prefix, ' ');
            match checked {
                Some(true) => {
                    push_char(&mut first_prefix, '[');
                    push_char(&mut first_prefix, 'x');
                    push_char(&mut first_prefix, ']');
                    push_char(&mut first_prefix, ' ');
                },
                Some(false) => {
                    push_char(&mut first_prefix, '[');
                    push_char(&mut first_prefix, ' ');
                    push_char(&mut first_prefix, ']');
                    push_char(&mut first_prefix, ' ');
                },
                None => {},
            }
            assert(first_prefix@ =~= first_item_prefix(base_prefix@, marker@, *checked));
            let first_continuation = repeat(' ', first_prefix.as_str().len());
            assert(following@ =~= base_prefix@ + repeat_char(' ', sat_add(byte_len(marker@), 1)));
            let output = render_list_item_blocks(
                children,
                *spread,
                first_prefix.as_str(),
                first_continuation.as_str(),
                following.as_str(),
                input,
            );
            if is_empty(output.as_str()) {
                return to_string(marker);
            }
            output
        },
        _ => {
            let mut out = to_string(base_prefix);
            push_str(&mut out, marker);
            push_char(&mut out, ' ');
            push_str(&mut out, render_node(node, input).as_str());
            assert(out@ =~= list_item(*node, marker@, base_prefix@, input@));
            out
        },
    }
}

/// The last character a node prints, other than whitespace.
pub fn last_visible_char(node: &Tree, input: &str) -> (r: Option<char>)
    requires
        numbered(*node),
    ensures
        r == last_solid(node_text(*node, input@), node_text(*node, input@).len() as int),
    decreases node, 0int, 1int,
{
    let t = render_node(node, input);
    last_solid_char(t.as_str())
}

/// The first character a node prints, other than whitespace.
pub fn first_visible_char(node: &Tree, input: &str) -> (r: Option<char>)
    requires
        numbered(*node),
    ensures
        r == first_solid(node_text(*node, input@), 0),
    decreases node, 0int, 1int,
{
    let t = render_node(node, input);
    first_solid_char(t.as_str())
}

/// The last visible character printed before child `index`.
pub fn previous_visible_char(children: &Vec<Tree>, index: usize, input: &str) -> (r: Option<char>)
    requires
        index <= children@.len(),
        numbered_all(children@),
    ensures
        r == previous_visible(children@, index as int, input@),
    decreases children@, 1int, 0int,
{
    let mut j: usize = index;
    while j > 0
        invariant
            j <= index <= children@.len(),
            numbered_all(children@),
            previous_visible(children@, index as int, input@) == previous_visible(
                children@,
                j as int,
                input@,
            ),
        decreases j,
    {
        proof {
            lemma_numbered_at(children@, j - 1);
        }
        let found = last_visible_char(&children[j - 1], input);
        if found.is_some() {
            return found;
        }
        j = j - 1;
    }
    None
}

/// The first visible character printed after child `index`.
pub fn next_visible_char(children: &Vec<Tree>, index: usize, input: &str) -> (r: Option<char>)
    requires
        index < children@.len(),
        numbered_all(children@),
    ensures
        r == next_visible(children@, index + 1, input@),
    decreases children@, 1int, 0int,
{
    let n = children.len();
    let mut j: usize = index + 1;
    while j < n
        invariant
            index < j <= children@.len(),
            n == children@.len(),
            numbered_all(children@),
            next_visible(children@, index + 1, input@) == next_visible(children@, j as int, input@),
        decreases children@.len() - j,
    {
        proof {
            lemma_numbered_at(children@, j as int);
        }
        let found = first_visible_char(&children[j], input);
        if found.is_some() {
            return found;
        }
        j = j + 1;
    }
    None
}

/// Splits a paragraph's children into breakable text and atomic pieces.
pub fn render_inline_fragments(children: &Vec<Tree>, input: &str) -> (r: Vec<InlineFragment>)
    requires
        numbered_all(children@),
    ensures
        fragments_view(r@) == fragments_from(children@, children@.len() as int, input@),
    decreases children@, 2int, 0int,
{
    let mut out: Vec<InlineFragment> = Vec::new();
    let mut i: usize = 0;
    while i < children.len()
        invariant
            i <= children@.len(),
            numbered_all(children@),
            fragments_view(out@) == fragments_from(children@, i as int, input@),
        decreases children@.len() - i,
    {
        let ghost before = fragments_view(out@);
        proof {
            lemma_numbered_at(children@, i as int);
        }
        match &children[i] {
            Tree::Text { value } => {
                let previous = previous_visible_char(children, i, input);
                let next = next_visible_char(children, i, input);
                let units = normalize_breakable_text(value.as_str(), previous, next);
                if units.len() > 0 {
                    let f = InlineFragment::BreakableText(units);
                    out.push(f);
                    assert(fragments_view(out@) =~= before.push(f@));
                }
            },
            child => {
                let rendered = render_node(child, input);
                if !is_empty(rendered.as_str()) {
                    let f = InlineFragment::Atomic(rendered);
                    out.push(f);
                    assert(fragments_view(out@) =~= before.push(f@));
                }
            },
        }
        i = i + 1;
    }
    out
}

/// Whether the children hold a hard line break.
fn has_hard_break(children: &Vec<Tree>) -> (r: bool)
    ensures
        r == has_break(children@),
{
    let mut i: usize = 0;
    while i < children.len()
        invariant
            i <= children@.len(),
            forall|k: int| 0 <= k < i ==> !(#[trigger] children@[k] is Break),
        decreases children@.len() - i,
    {
        if let Tree::Break = &children[i] {
            return true;
        }
        i = i + 1;
    }
    false
}

/// Renders a paragraph wrapped to 80 columns, its first line after
/// `first_prefix` and the others after `continuation_prefix`; a paragraph
/// with a hard break keeps its lines.
pub fn render_wrapped_paragraph(
    children: &Vec<Tree>,
    first_prefix: &str,
    continuation_prefix: &str,
    input: &str,
) -> (r: String)
    requires
        numbered_all(children@),
    ensures
        r@ == wrapped_paragraph(children@, first_prefix@, continuation_prefix@, input@),
    decreases children@, 3int, 0int,
{
    if has_hard_break(children) {
        let inner = render_inlines(children, input);
        return render_prefixed_block(inner.as_str(), first_prefix, continuation_prefix);
    }
    let fragments = render_inline_fragments(children, input);
    wrap_fragments(fragments.as_slice(), first_prefix, continuation_prefix)
}

/// Renders the cells of a table row.
pub fn render_table_cells(children: &Vec<Tree>, input: &str) -> (r: Vec<String>)
    requires
        numbered_all(children@),
    ensures
        strings_view(r@) == row_cells(children@, children@.len() as int, input@),
    decreases children@, 0int, 1int,
{
    let mut out: Vec<String> = Vec::new();
    let mut i: usize = 0;
    while i < children.len()
        invariant
            i <= children@.len(),
            numbered_all(children@),
            strings_view(out@) == row_cells(children@, i as int, input@),
        decreases children@.len() - i,
    {
        proof {
            lemma_numbered_at(children@, i as int);
        }
        let cell = match &children[i] {
            Tree::TableCell { children: inner } => render_inlines(inner, input),
            child => render_node(child, input),
        };
        let ghost before = strings_view(out@);
        out.push(cell);
        assert(strings_view(out@) =~= before.push(cell@));
        i = i + 1;
    }
    out
}

/// Renders a table with its columns padded to a common width.
pub fn render_table(children: &Vec<Tree>, align: &Vec<AlignKind>, input: &str) -> (r: String)
    requires
        numbered_all(children@),
    ensures
        r@ == table(children@, align@, input@),
    decreases children@, 0int, 1int,
{
    let mut rows: Vec<Vec<String>> = Vec::new();
    let mut i: usize = 0;
    while i < children.len()
        invariant
            i <= children@.len(),
            numbered_all(children@),
            rows_view(rows@) == table_rows(children@, i as int, input@),
        decreases children@.len() - i,
    {
        proof {
            lemma_numbered_at(children@, i as int);
        }
        if let Tree::TableRow { children: cells } = &children[i] {
            let row = render_table_cells(cells, input);
            let ghost before = rows_view(rows@);
            rows.push(row);
            assert(rows_view(rows@) =~= before.push(strings_view(row@)));
        }
        i = i + 1;
    }
    layout_table(&rows, align)
}

/// Renders a table row outside a table: its cells between pipes.
pub fn render_unpadded_table_row(children: &Vec<Tree>, input: &str) -> (r: String)
    requires
        numbered_all(children@),
    ensures
        r@ == unpadded_row(children@, input@),
    decreases children@, 0int, 1int,
{
    let mut cells: Vec<String> = Vec::new();
    let mut i: usize = 0;
    while i < children.len()
        invariant
            i <= children@.len(),
            numbered_all(children@),
            strings_view(cells@) == node_texts(children@, i as int, input@),
        decreases children@.len() - i,
    {
        proof {
            lemma_numbered_at(children@, i as int);
        }
        let cell = render_node(&children[i], input);
        let ghost before = strings_view(cells@);
        cells.push(cell);
        assert(strings_view(cells@) =~= before.push(cell@));
        i = i + 1;
    }
    let sep = " | ";
    proof {
        reveal_strlit(" | ");
        assert(sep@ =~= seq![' ', '|', ' ']);
    }
    let joined = join_with(&cells, sep);
    let r = enclose("| ", joined.as_str(), " |");
    proof {
        reveal_strlit("| ");
        reveal_strlit(" |");
    }
    assert(r@ =~= unpadded_row(children@, input@));
    r
}

// ---------------------------------------------------------------------------
// Documents
// ---------------------------------------------------------------------------

/// A formatted document: the rendered tree, with a final newline added when
/// it is not empty and does not end with one.
pub open spec fn formatted(root: Tree, input: Seq<char>) -> Seq<char> {
    let out = node_text(root, input);
    if out.len() > 0 && out.last() != '\n' {
        out.push('\n')
    } else {
        out
    }
}

/// Formats a parsed markdown document; `input` is the source it was parsed
/// from, whose lines give ordered list items the numbers they were written
/// with.
pub fn format_document(root: &Tree, input: &str) -> (r: String)
    requires
        numbered(*root),
    ensures
        r@ == formatted(*root, input@),
{
    let mut output = render_node(root, input);
    let cs = chars_of(output.as_str());
    if cs.len() > 0 && cs[cs.len() - 1] != '\n' {
        push_char(&mut output, '\n');
    }
    output
}

/// A formatted document is empty or ends with a newline.
pub proof fn lemma_formatted_ends_with_newline(root: Tree, input: Seq<char>)
    ensures
        formatted(root, input).len() == 0 || formatted(root, input).last() == '\n',
{
}

/// Formatting adds at most a final newline to the rendered tree: the
/// rendered text is a prefix of the document, and what follows it is empty
/// or a single newline.
pub proof fn lemma_formatted_extends_rendering(root: Tree, input: Seq<char>)
    ensures
        formatted(root, input).take(node_text(root, input).len() as int) == node_text(root, input),
        formatted(root, input).len() == node_text(root, input).len()
            || formatted(root, input) == node_text(root, input).push('\n'),
{
    assert(formatted(root, input).take(node_text(root, input).len() as int) =~= node_text(root, input));
}

} // verus!
