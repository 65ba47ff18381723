//! Reading markdown: the `markdown` crate parses the text (GitHub-flavoured
//! options), its tree is copied node for node into the library's tree, and
//! the tree is formatted.

use vstd::prelude::*;
use markdown::mdast;
use crate::node::{AlignKind, ReferenceKind, Tree};
use crate::render::{format_document, formatted, is_numbered, numbered};

verus! {

/// The tree type of the `markdown` crate, carried through opaque.
#[verifier::external_type_specification]
#[verifier::external_body]
pub struct ExMdastNode(markdown::mdast::Node);

/// The library's copy of what `markdown::to_mdast` returns for a text with
/// GitHub-flavoured options: the tree, or the text of the parse error.
pub uninterp spec fn gfm_tree(input: Seq<char>) -> Result<Tree, Seq<char>>;

/// Calls `markdown::to_mdast(input, &ParseOptions::gfm())` and copies the
/// tree it returns into the library's tree (the error message into its
/// text). The result is named `gfm_tree`: the parse depends on the text
/// alone.
#[verifier::external_body]
fn parse_gfm(input: &str) -> (r: Result<Tree, String>)
    ensures
        match r {
            Ok(t) => gfm_tree(input@) == Ok::<Tree, Seq<char>>(t),
            Err(e) => gfm_tree(input@) == Err::<Tree, Seq<char>>(e@),
        },
{
    match markdown::to_mdast(input, &markdown::ParseOptions::gfm()) {
        Ok(tree) => Ok(copy_node(&tree)),
        Err(message) => Err(message.to_string()),
    }
}

/// Copies mdast nodes into the library's tree, one for one.
#[verifier::external_body]
fn copy_all(nodes: &Vec<markdown::mdast::Node>) -> Vec<Tree> {
    nodes.iter().map(copy_node).collect()
}

/// Copies an mdast node (containers here, the rest below).
#[verifier::external_body]
fn copy_node(node: &markdown::mdast::Node) -> Tree {
    match node {
        mdast::Node::Root(n) => Tree::Root { children: copy_all(&n.children) },
        mdast::Node::Blockquote(n) => Tree::Blockquote { children: copy_all(&n.children) },
        mdast::Node::FootnoteDefinition(n) => Tree::FootnoteDefinition {
            identifier: n.identifier.clone(),
            children: copy_all(&n.children),
        },
        mdast::Node::MdxJsxFlowElement(n) => Tree::MdxJsxFlowElement { children: copy_all(&n.children) },
        mdast::Node::TableRow(n) => Tree::TableRow { children: copy_all(&n.children) },
        mdast::Node::TableCell(n) => Tree::TableCell { children: copy_all(&n.children) },
        _ => copy_list_node(node),
    }
}

/// Copies lists and list items.
#[verifier::external_body]
fn copy_list_node(node: &markdown::mdast::Node) -> Tree {
    match node {
        mdast::Node::List(n) => Tree::List {
            children: copy_all(&n.children),
            ordered: n.ordered,
            start: n.start,
            spread: n.spread,
        },
        mdast::Node::ListItem(n) => Tree::ListItem {
            children: copy_all(&n.children),
            checked: n.checked,
            spread: n.spread,
            start_line: n.position.as_ref().map(|p| p.start.line),
        },
        _ => copy_table_node(node),
    }
}

/// Copies tables.
#[verifier::external_body]
fn copy_table_node(node: &markdown::mdast::Node) -> Tree {
    match node {
        mdast::Node::Table(n) => Tree::Table {
            align: n.align.iter().map(|a| match a {
                mdast::AlignKind::Left => AlignKind::Left,
                mdast::AlignKind::Right => AlignKind::Right,
                mdast::AlignKind::Center => AlignKind::Center,
                mdast::AlignKind::None => AlignKind::Unaligned,
            }).collect(),
            children: copy_all(&n.children),
        },
        _ => copy_text_block(node),
    }
}

/// Copies leaf blocks.
#[verifier::external_body]
fn copy_text_block(node: &markdown::mdast::Node) -> Tree {
    match node {
        mdast::Node::Paragraph(n) => Tree::Paragraph { children: copy_all(&n.children) },
        mdast::Node::Heading(n) => Tree::Heading { depth: n.depth, children: copy_all(&n.children) },
        mdast::Node::ThematicBreak(_) => Tree::ThematicBreak,
        mdast::Node::Code(n) => Tree::Code {
            lang: n.lang.clone(),
            meta: n.meta.clone(),
            value: n.value.clone(),
        },
        mdast::Node::Math(n) => Tree::Math { value: n.value.clone() },
        _ => copy_literal_block(node),
    }
}

/// Copies definitions, HTML, front matter and MDX blocks.
#[verifier::external_body]
fn copy_literal_block(node: &markdown::mdast::Node) -> Tree {
    match node {
        mdast::Node::Definition(n) => Tree::Definition {
            identifier: n.identifier.clone(),
            url: n.url.clone(),
            title: n.title.clone(),
        },
        mdast::Node::Html(n) => Tree::Html { value: n.value.clone() },
        mdast::Node::Toml(n) => Tree::Toml { value: n.value.clone() },
        mdast::Node::Yaml(n) => Tree::Yaml { value: n.value.clone() },
        mdast::Node::MdxjsEsm(n) => Tree::MdxjsEsm { value: n.value.clone() },
        mdast::Node::MdxFlowExpression(n) => Tree::MdxFlowExpression { value: n.value.clone() },
        _ => copy_phrasing(node),
    }
}

/// Copies text and inline markup with children.
#[verifier::external_body]
fn copy_phrasing(node: &markdown::mdast::Node) -> Tree {
    match node {
        mdast::Node::Text(n) => Tree::Text { value: n.value.clone() },
        mdast::Node::Emphasis(n) => Tree::Emphasis { children: copy_all(&n.children) },
        mdast::Node::Strong(n) => Tree::Strong { children: copy_all(&n.children) },
        mdast::Node::Delete(n) => Tree::Delete { children: copy_all(&n.children) },
        mdast::Node::MdxJsxTextElement(n) => Tree::MdxJsxTextElement { children: copy_all(&n.children) },
        mdast::Node::Break(_) => Tree::Break,
        _ => copy_inline_literal(node),
    }
}

/// Copies inline code, math, expressions and footnote references.
#[verifier::external_body]
fn copy_inline_literal(node: &markdown::mdast::Node) -> Tree {
    match node {
        mdast::Node::InlineCode(n) => Tree::InlineCode { value: n.value.clone() },
        mdast::Node::InlineMath(n) => Tree::InlineMath { value: n.value.clone() },
        mdast::Node::MdxTextExpression(n) => Tree::MdxTextExpression { value: n.value.clone() },
        mdast::Node::FootnoteReference(n) => Tree::FootnoteReference { identifier: n.identifier.clone() },
        _ => copy_resource(node),
    }
}

/// Copies links, images and references.
#[verifier::external_body]
fn copy_resource(node: &markdown::mdast::Node) -> Tree {
    match node {
        mdast::Node::Link(n) => Tree::Link {
            children: copy_all(&n.children),
            url: n.url.clone(),
            title: n.title.clone(),
        },
        mdast::Node::Image(n) => Tree::Image { alt: n.alt.clone(), url: n.url.clone(), title: n.title.clone() },
        _ => copy_reference(node),
    }
}

/// Copies link references.
#[verifier::external_body]
fn copy_reference(node: &markdown::mdast::Node) -> Tree {
    let kind = |k: &mdast::ReferenceKind| match k {
        mdast::ReferenceKind::Shortcut => ReferenceKind::Shortcut,
        mdast::ReferenceKind::Collapsed => ReferenceKind::Collapsed,
        mdast::ReferenceKind::Full => ReferenceKind::Full,
    };
    match node {
        mdast::Node::LinkReference(n) => Tree::LinkReference {
            children: copy_all(&n.children),
            identifier: n.identifier.clone(),
            reference_kind: kind(&n.reference_kind),
        },
        _ => copy_image_reference(node),
    }
}

/// Copies image references, the last kind of node.
#[verifier::external_body]
fn copy_image_reference(node: &markdown::mdast::Node) -> Tree {
    let kind = |k: &mdast::ReferenceKind| match k {
        mdast::ReferenceKind::Shortcut => ReferenceKind::Shortcut,
        mdast::ReferenceKind::Collapsed => ReferenceKind::Collapsed,
        mdast::ReferenceKind::Full => ReferenceKind::Full,
    };
    match node {
        mdast::Node::ImageReference(n) => Tree::ImageReference {
            alt: n.alt.clone(),
            identifier: n.identifier.clone(),
            reference_kind: kind(&n.reference_kind),
        },
        // Every other kind of node is copied by the functions above.
        _ => Tree::Break,
    }
}

/// Why a markdown text could not be formatted.
#[derive(Debug)]
pub enum FormatError {
    /// The parser refused the text; its message.
    Parse(String),
    /// An ordered list numbers an item beyond `u32`.
    ListNumberOverflow,
}

/// Formats a markdown text: parses it with GitHub-flavoured options and
/// renders the tree back, ending with a newline unless it is empty.
pub fn format_markdown(input: &str) -> (r: Result<String, FormatError>)
    ensures
        match gfm_tree(input@) {
            Ok(root) => if numbered(root) {
                r matches Ok(s) && s@ == formatted(root, input@)
            } else {
                r matches Err(FormatError::ListNumberOverflow)
            },
            Err(e) => r matches Err(FormatError::Parse(m)) && m@ == e,
        },
{
    match parse_gfm(input) {
        Ok(root) => {
            if is_numbered(&root) {
                Ok(format_document(&root, input))
            } else {
                Err(FormatError::ListNumberOverflow)
            }
        },
        Err(message) => Err(FormatError::Parse(message)),
    }
}

} // verus!
