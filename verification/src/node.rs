//! The markdown syntax tree the formatter renders: one variant per kind of
//! mdast node, holding the fields that rendering reads.

use vstd::prelude::*;

verus! {

/// How a reference names its definition.
#[derive(Clone, Copy, PartialEq, Eq, Structural, Debug)]
pub enum ReferenceKind {
    /// `[text]`
    Shortcut,
    /// `[text][]`
    Collapsed,
    /// `[text][identifier]`
    Full,
}

/// The alignment of a table column.
#[derive(Clone, Copy, PartialEq, Eq, Structural, Debug)]
pub enum AlignKind {
    Left,
    Right,
    Center,
    /// No alignment given.
    Unaligned,
}

/// A markdown node.
pub enum Tree {
    Root { children: Vec<Tree> },
    Blockquote { children: Vec<Tree> },
    FootnoteDefinition { identifier: String, children: Vec<Tree> },
    MdxJsxFlowElement { children: Vec<Tree> },
    List { children: Vec<Tree>, ordered: bool, start: Option<u32>, spread: bool },
    MdxjsEsm { value: String },
    Toml { value: String },
    Yaml { value: String },
    Break,
    InlineCode { value: String },
    InlineMath { value: String },
    Delete { children: Vec<Tree> },
    Emphasis { children: Vec<Tree> },
    MdxTextExpression { value: String },
    FootnoteReference { identifier: String },
    Html { value: String },
    Image { alt: String, url: String, title: Option<String> },
    ImageReference { alt: String, identifier: String, reference_kind: ReferenceKind },
    MdxJsxTextElement { children: Vec<Tree> },
    Link { children: Vec<Tree>, url: String, title: Option<String> },
    LinkReference { children: Vec<Tree>, identifier: String, reference_kind: ReferenceKind },
    Strong { children: Vec<Tree> },
    Text { value: String },
    Code { lang: Option<String>, meta: Option<String>, value: String },
    Math { value: String },
    MdxFlowExpression { value: String },
    Heading { depth: u8, children: Vec<Tree> },
    Table { align: Vec<AlignKind>, children: Vec<Tree> },
    ThematicBreak,
    TableRow { children: Vec<Tree> },
    TableCell { children: Vec<Tree> },
    /// `start_line` is the 1-based source line where the item starts.
    ListItem { children: Vec<Tree>, checked: Option<bool>, spread: bool, start_line: Option<usize> },
    Definition { identifier: String, url: String, title: Option<String> },
    Paragraph { children: Vec<Tree> },
}

} // verus!
