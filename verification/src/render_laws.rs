//! What renderings look like: headings show their depth, images are links
//! marked with `!`, quoted blocks stay quoted and list items keep their
//! blocks indented under the marker.

use vstd::prelude::*;
use crate::node::Tree;
use crate::pieces::{lemma_line_end, line_end, lines_from, lines_of, prefixed, prefixed_rest};
use crate::render::{
    blockquote, byte_len, first_item_prefix, fragments_from, has_break, item_block, item_from,
    list_item, node_text, quote_prefix, quote_texts, wrapped_paragraph,
};
use crate::text::{concat, join, repeat_char};
use crate::wrap::{sat_add, wrap_lines};
use crate::wrap_laws::{fragments_text, lemma_wrap_keeps_text, no_spaces, printed_as};

verus! {

/// A heading of depth `d` is `d` hashes, a space, and its inline text (what
/// a paragraph of the same children shows).
pub proof fn lemma_heading_marks_depth(depth: u8, children: Vec<Tree>, input: Seq<char>)
    ensures
        ({
            let t = node_text(Tree::Heading { depth, children }, input);
            let body = node_text(Tree::Paragraph { children }, input);
            &&& t.len() == depth + 1 + body.len()
            &&& forall|i: int| 0 <= i < depth ==> t[i] == '#'
            &&& t[depth as int] == ' '
            &&& t.skip(depth + 1) == body
        }),
{
    let t = node_text(Tree::Heading { depth, children }, input);
    let body = node_text(Tree::Paragraph { children }, input);
    assert(t.skip(depth + 1) =~= body);
}

/// An image is the link with the same text, destination and title, marked
/// with a leading `!`.
pub proof fn lemma_image_is_marked_link(
    alt: String,
    url: String,
    title: Option<String>,
    children: Vec<Tree>,
    input: Seq<char>,
)
    requires
        node_text(Tree::Paragraph { children }, input) == alt@,
    ensures
        node_text(Tree::Image { alt, url, title }, input) == seq!['!'] + node_text(
            Tree::Link { children, url, title },
            input,
        ),
        node_text(Tree::Link { children, url, title }, input)[0] == '[',
{
    assert(node_text(Tree::Image { alt, url, title }, input) =~= seq!['!'] + node_text(
        Tree::Link { children, url, title },
        input,
    ));
}

/// An image reference is the link reference with the same text, identifier
/// and kind, marked with a leading `!`.
pub proof fn lemma_image_reference_is_marked_link(
    alt: String,
    identifier: String,
    reference_kind: crate::node::ReferenceKind,
    children: Vec<Tree>,
    input: Seq<char>,
)
    requires
        node_text(Tree::Paragraph { children }, input) == alt@,
    ensures
        node_text(Tree::ImageReference { alt, identifier, reference_kind }, input) == seq!['!']
            + node_text(Tree::LinkReference { children, identifier, reference_kind }, input),
        node_text(Tree::LinkReference { children, identifier, reference_kind }, input)[0] == '[',
{
    assert(node_text(Tree::ImageReference { alt, identifier, reference_kind }, input) =~= seq![
        '!',
    ] + node_text(Tree::LinkReference { children, identifier, reference_kind }, input));
}


/// `t` holds no newline: it is one line.
pub open spec fn single_line(t: Seq<char>) -> bool {
    forall|j: int| 0 <= j < t.len() ==> t[j] != '\n'
}

/// A line of `t` starts at `k`.
pub open spec fn line_start(t: Seq<char>, k: int) -> bool {
    0 <= k <= t.len() && (k == 0 || t[k - 1] == '\n')
}

/// The line of `t` that starts at `k` is empty, the bare marker `>`, or
/// starts with `> `.
pub open spec fn quoted_at(t: Seq<char>, k: int) -> bool {
    ||| k == t.len()
    ||| t[k] == '\n'
    ||| t[k] == '>' && (k + 1 == t.len() || t[k + 1] == '\n' || t[k + 1] == ' ')
}

/// Every line of `t` is empty, the bare marker `>`, or starts with `> `.
pub open spec fn quoted_lines(t: Seq<char>) -> bool {
    forall|k: int| #[trigger] line_start(t, k) ==> quoted_at(t, k)
}

proof fn lemma_empty_quoted()
    ensures
        quoted_lines(Seq::<char>::empty()),
{
}

proof fn lemma_marker_quoted()
    ensures
        quoted_lines(seq!['>']),
{
    let t = seq!['>'];
    assert forall|k: int| #[trigger] line_start(t, k) implies quoted_at(t, k) by {
    }
}

proof fn lemma_quoted_newline(a: Seq<char>, b: Seq<char>)
    requires
        quoted_lines(a),
        quoted_lines(b),
    ensures
        quoted_lines(a + seq!['\n'] + b),
{
    let t = a + seq!['\n'] + b;
    assert forall|k: int| #[trigger] line_start(t, k) implies quoted_at(t, k) by {
        if k < a.len() {
            if k > 0 {
                assert(t[k - 1] == a[k - 1]);
            }
            assert(line_start(a, k));
            assert(quoted_at(a, k));
            assert(t[k] == a[k]);
            if k + 1 < a.len() {
                assert(t[k + 1] == a[k + 1]);
            } else {
                assert(t[k + 1] == '\n');
            }
        } else if k == a.len() {
            assert(t[k] == '\n');
        } else {
            let j = k - a.len() - 1;
            if j > 0 {
                assert(t[k - 1] == b[j - 1]);
            }
            assert(line_start(b, j));
            assert(quoted_at(b, j));
            if j < b.len() {
                assert(t[k] == b[j]);
            }
            if j + 1 < b.len() {
                assert(t[k + 1] == b[j + 1]);
            }
        }
    }
}

proof fn lemma_join_quoted(pieces: Seq<Seq<char>>, sep: Seq<char>)
    requires
        sep == seq!['\n'] || sep == seq!['\n', '>', '\n'],
        forall|i: int| 0 <= i < pieces.len() ==> quoted_lines(#[trigger] pieces[i]),
    ensures
        quoted_lines(join(pieces, sep)),
    decreases pieces.len(),
{
    if pieces.len() == 0 {
        lemma_empty_quoted();
    } else if pieces.len() == 1 {
        assert(quoted_lines(pieces[0]));
    } else {
        let rest = pieces.drop_last();
        assert forall|i: int| 0 <= i < rest.len() implies quoted_lines(#[trigger] rest[i]) by {
            assert(rest[i] == pieces[i]);
        }
        lemma_join_quoted(rest, sep);
        let a = join(rest, sep);
        let last = pieces[pieces.len() - 1];
        assert(quoted_lines(last));
        if sep == seq!['\n'] {
            lemma_quoted_newline(a, last);
        } else {
            lemma_marker_quoted();
            lemma_quoted_newline(a, seq!['>']);
            lemma_quoted_newline(a + seq!['\n'] + seq!['>'], last);
            assert(a + sep + last =~= a + seq!['\n'] + seq!['>'] + seq!['\n'] + last);
        }
    }
}

proof fn lemma_lines_from_single(s: Seq<char>, i: int)
    ensures
        forall|k: int|
            0 <= k < lines_from(s, i).len() ==> single_line(#[trigger] lines_from(s, i)[k]),
    decreases s.len() - i,
{
    if 0 <= i < s.len() {
        let e = line_end(s, i);
        lemma_line_end(s, i);
        let seg = s.subrange(i, e);
        assert(single_line(seg)) by {
            assert forall|j: int| 0 <= j < seg.len() implies seg[j] != '\n' by {
                assert(seg[j] == s[i + j]);
            }
        }
        if e < s.len() {
            lemma_lines_from_single(s, e + 1);
            let l = if seg.len() > 0 && seg.last() == '\r' {
                seg.drop_last()
            } else {
                seg
            };
            assert(single_line(l)) by {
                assert forall|j: int| 0 <= j < l.len() implies l[j] != '\n' by {
                    assert(l[j] == seg[j]);
                }
            }
            let ls = lines_from(s, i);
            assert(ls == seq![l] + lines_from(s, e + 1));
            assert forall|k: int| 0 <= k < ls.len() implies single_line(#[trigger] ls[k]) by {
                if k > 0 {
                    assert(ls[k] == lines_from(s, e + 1)[k - 1]);
                }
            }
        }
    }
}

proof fn lemma_single_no_spaces(s: Seq<char>)
    ensures
        single_line(no_spaces(s)) <==> single_line(s),
    decreases s.len(),
{
    if s.len() > 0 {
        let d = s.drop_last();
        lemma_single_no_spaces(d);
        let nd = no_spaces(d);
        let ns = no_spaces(s);
        if single_line(ns) {
            assert(single_line(nd)) by {
                assert forall|j: int| 0 <= j < nd.len() implies nd[j] != '\n' by {
                    assert(ns[j] == nd[j]);
                }
            }
            assert forall|j: int| 0 <= j < s.len() implies s[j] != '\n' by {
                if j < d.len() {
                    assert(s[j] == d[j]);
                } else if s.last() != ' ' {
                    assert(ns[ns.len() - 1] == s.last());
                }
            }
        }
        if single_line(s) {
            assert(single_line(d)) by {
                assert forall|j: int| 0 <= j < d.len() implies d[j] != '\n' by {
                    assert(s[j] == d[j]);
                }
            }
            assert forall|j: int| 0 <= j < ns.len() implies ns[j] != '\n' by {
                if j < nd.len() {
                    assert(ns[j] == nd[j]);
                } else {
                    assert(ns[j] == s.last());
                }
            }
        }
    }
}

proof fn lemma_single_concat(pieces: Seq<Seq<char>>)
    requires
        single_line(concat(pieces)),
    ensures
        forall|k: int| 0 <= k < pieces.len() ==> single_line(#[trigger] pieces[k]),
    decreases pieces.len(),
{
    if pieces.len() > 0 {
        let rest = pieces.drop_last();
        let c = concat(pieces);
        let cr = concat(rest);
        let last = pieces[pieces.len() - 1];
        assert(single_line(cr)) by {
            assert forall|j: int| 0 <= j < cr.len() implies cr[j] != '\n' by {
                assert(c[j] == cr[j]);
            }
        }
        assert(single_line(last)) by {
            assert forall|j: int| 0 <= j < last.len() implies last[j] != '\n' by {
                assert(c[cr.len() + j] == last[j]);
            }
        }
        lemma_single_concat(rest);
        assert forall|k: int| 0 <= k < pieces.len() implies single_line(#[trigger] pieces[k]) by {
            if k < rest.len() {
                assert(pieces[k] == rest[k]);
            }
        }
    }
}

/// A block whose printed lines are all its own, so that a prefix put before
/// each of them reaches all of them: a paragraph with a hard break, or one
/// none of whose inline pieces prints a line break; any other block.
pub open spec fn keeps_own_lines(child: Tree, input: Seq<char>) -> bool {
    match child {
        Tree::Paragraph { children } => has_break(children@) || single_line(
            fragments_text(
                fragments_from(children@, children@.len() as int, input),
                fragments_from(children@, children@.len() as int, input).len() as int,
            ),
        ),
        _ => true,
    }
}

proof fn lemma_indented_quoted(t: Seq<char>)
    requires
        indented_lines(t, quote_prefix()),
    ensures
        quoted_lines(t),
{
    let q = quote_prefix();
    assert forall|k: int| #[trigger] line_start(t, k) implies quoted_at(t, k) by {
        assert(indented_at(t, q, k));
        if k < t.len() && t[k] != '\n' {
            assert(t[k] == t.subrange(k, k + 2)[0]);
            assert(t[k + 1] == t.subrange(k, k + 2)[1]);
        }
    }
}

proof fn lemma_quote_texts_quoted(s: Seq<Tree>, m: int, input: Seq<char>)
    requires
        forall|j: int| 0 <= j < s.len() ==> keeps_own_lines(#[trigger] s[j], input),
    ensures
        forall|i: int|
            0 <= i < quote_texts(s, m, input).len() ==> quoted_lines(
                #[trigger] quote_texts(s, m, input)[i],
            ),
    decreases m,
{
    if 0 < m <= s.len() {
        lemma_quote_texts_quoted(s, m - 1, input);
        let child = s[m - 1];
        assert(keeps_own_lines(child, input));
        let q = quote_prefix();
        assert(single_line(q));
        match child {
            Tree::Paragraph { children } => {
                lemma_paragraph_indented(children@, q, input);
                lemma_indented_quoted(wrapped_paragraph(children@, q, q, input));
            },
            _ => {
                lemma_prefixed_indented(node_text(child, input), q);
                lemma_indented_quoted(prefixed(node_text(child, input), q, q));
            },
        }
        let prev = quote_texts(s, m - 1, input);
        let cur = quote_texts(s, m, input);
        assert forall|i: int| 0 <= i < cur.len() implies quoted_lines(#[trigger] cur[i]) by {
            if i < prev.len() {
                assert(cur[i] == prev[i]);
            }
        }
    }
}

/// A blockquote stays quoted: every line it prints is empty, the bare
/// separator `>`, or starts with `> `, whatever kind of block it holds (a
/// paragraph as long as its lines are its own, see `keeps_own_lines`).
pub proof fn lemma_blockquote_stays_quoted(children: Vec<Tree>, input: Seq<char>)
    requires
        forall|j: int| 0 <= j < children@.len() ==> keeps_own_lines(#[trigger] children@[j], input),
    ensures
        quoted_lines(node_text(Tree::Blockquote { children }, input)),
{
    let s = children@;
    lemma_quote_texts_quoted(s, s.len() as int, input);
    lemma_join_quoted(quote_texts(s, s.len() as int, input), seq!['\n', '>', '\n']);
    assert(node_text(Tree::Blockquote { children }, input) == blockquote(s, input));
}


/// Every non-empty line of `t` starts with `p`.
pub open spec fn indented_lines(t: Seq<char>, p: Seq<char>) -> bool {
    forall|k: int| #[trigger] line_start(t, k) ==> indented_at(t, p, k)
}

/// The line of `t` that starts at `k` is empty or starts with `p`.
pub open spec fn indented_at(t: Seq<char>, p: Seq<char>, k: int) -> bool {
    ||| k == t.len()
    ||| t[k] == '\n'
    ||| k + p.len() <= t.len() && t.subrange(k, k + p.len()) == p
}

proof fn lemma_single_indented(p: Seq<char>, x: Seq<char>)
    requires
        single_line(p),
        single_line(x),
    ensures
        indented_lines(p + x, p),
{
    let t = p + x;
    assert forall|k: int| #[trigger] line_start(t, k) implies indented_at(t, p, k) by {
        if k > 0 {
            if k - 1 < p.len() {
                assert(t[k - 1] == p[k - 1]);
            } else {
                assert(t[k - 1] == x[k - 1 - p.len()]);
            }
        } else {
            assert(t.subrange(0, p.len() as int) =~= p);
        }
    }
}

proof fn lemma_indented_newline(a: Seq<char>, b: Seq<char>, p: Seq<char>)
    requires
        indented_lines(a, p),
        indented_lines(b, p),
    ensures
        indented_lines(a + seq!['\n'] + b, p),
{
    let t = a + seq!['\n'] + b;
    assert forall|k: int| #[trigger] line_start(t, k) implies indented_at(t, p, k) by {
        if k < a.len() {
            if k > 0 {
                assert(t[k - 1] == a[k - 1]);
            }
            assert(line_start(a, k));
            assert(indented_at(a, p, k));
            assert(t[k] == a[k]);
            if k + p.len() <= a.len() {
                assert(t.subrange(k, k + p.len()) =~= a.subrange(k, k + p.len()));
            }
        } else if k == a.len() {
            assert(t[k] == '\n');
        } else {
            let j = k - a.len() - 1;
            if j > 0 {
                assert(t[k - 1] == b[j - 1]);
            }
            assert(line_start(b, j));
            assert(indented_at(b, p, j));
            if j < b.len() {
                assert(t[k] == b[j]);
            }
            if j + p.len() <= b.len() {
                assert(t.subrange(k, k + p.len()) =~= b.subrange(j, j + p.len()));
            }
        }
    }
}

proof fn lemma_join_indented(pieces: Seq<Seq<char>>, p: Seq<char>)
    requires
        forall|i: int| 0 <= i < pieces.len() ==> indented_lines(#[trigger] pieces[i], p),
    ensures
        indented_lines(join(pieces, seq!['\n']), p),
    decreases pieces.len(),
{
    if pieces.len() == 1 {
        assert(indented_lines(pieces[0], p));
    } else if pieces.len() > 1 {
        let rest = pieces.drop_last();
        assert forall|i: int| 0 <= i < rest.len() implies indented_lines(#[trigger] rest[i], p) by {
            assert(rest[i] == pieces[i]);
        }
        lemma_join_indented(rest, p);
        let last = pieces[pieces.len() - 1];
        assert(indented_lines(last, p));
        lemma_indented_newline(join(rest, seq!['\n']), last, p);
    }
}

proof fn lemma_prefixed_indented(block: Seq<char>, p: Seq<char>)
    requires
        single_line(p),
    ensures
        indented_lines(prefixed(block, p, p), p),
{
    let t = prefixed(block, p, p);
    lemma_prefixed_shape(block, p, p);
    assert(line_start(t, 0) ==> indented_at(t, p, 0));
}

proof fn lemma_paragraph_indented(s: Seq<Tree>, p: Seq<char>, input: Seq<char>)
    requires
        single_line(p),
        has_break(s) || single_line(
            fragments_text(
                fragments_from(s, s.len() as int, input),
                fragments_from(s, s.len() as int, input).len() as int,
            ),
        ),
    ensures
        indented_lines(wrapped_paragraph(s, p, p, input), p),
{
    if has_break(s) {
        lemma_prefixed_indented(crate::render::inlines(s, input), p);
    } else {
        let fs = fragments_from(s, s.len() as int, input);
        lemma_wrap_keeps_text(fs, p, p);
        let lines = wrap_lines(fs, p, p);
        let contents = choose|contents: Seq<Seq<char>>|
            printed_as(lines, contents, p, p) && no_spaces(concat(contents)) == no_spaces(
                fragments_text(fs, fs.len() as int),
            );
        lemma_single_no_spaces(fragments_text(fs, fs.len() as int));
        lemma_single_no_spaces(concat(contents));
        lemma_single_concat(contents);
        assert forall|k: int| 0 <= k < lines.len() implies indented_lines(#[trigger] lines[k], p) by {
            assert(single_line(contents[k]));
            assert(lines[k] == p + contents[k]);
            lemma_single_indented(p, contents[k]);
        }
        lemma_join_indented(lines, p);
    }
}

/// Every line of `t` after the first is empty or starts with `p`.
pub open spec fn indented_rest(t: Seq<char>, p: Seq<char>) -> bool {
    forall|k: int| #[trigger] line_start(t, k) && k > 0 ==> indented_at(t, p, k)
}

proof fn lemma_head_rest(f: Seq<char>, x: Seq<char>, p: Seq<char>)
    requires
        single_line(f),
        single_line(x),
    ensures
        indented_rest(f + x, p),
        (f + x).subrange(0, f.len() as int) == f,
{
    let t = f + x;
    assert(t.subrange(0, f.len() as int) =~= f);
    assert forall|k: int| #[trigger] line_start(t, k) && k > 0 implies indented_at(t, p, k) by {
        if k - 1 < f.len() {
            assert(t[k - 1] == f[k - 1]);
        } else {
            assert(t[k - 1] == x[k - 1 - f.len()]);
        }
    }
}

proof fn lemma_rest_newline(a: Seq<char>, b: Seq<char>, p: Seq<char>)
    requires
        indented_rest(a, p),
        indented_lines(b, p),
    ensures
        indented_rest(a + seq!['\n'] + b, p),
        (a + seq!['\n'] + b).subrange(0, a.len() as int) == a,
{
    let t = a + seq!['\n'] + b;
    assert(t.subrange(0, a.len() as int) =~= a);
    assert forall|k: int| #[trigger] line_start(t, k) && k > 0 implies indented_at(t, p, k) by {
        if k < a.len() {
            assert(t[k - 1] == a[k - 1]);
            assert(line_start(a, k));
            assert(indented_at(a, p, k));
            assert(t[k] == a[k]);
            if k + p.len() <= a.len() {
                assert(t.subrange(k, k + p.len()) =~= a.subrange(k, k + p.len()));
            }
        } else if k == a.len() {
            assert(t[k] == '\n');
        } else {
            let j = k - a.len() - 1;
            if j > 0 {
                assert(t[k - 1] == b[j - 1]);
            }
            assert(line_start(b, j));
            assert(indented_at(b, p, j));
            if j < b.len() {
                assert(t[k] == b[j]);
            }
            if j + p.len() <= b.len() {
                assert(t.subrange(k, k + p.len()) =~= b.subrange(j, j + p.len()));
            }
        }
    }
}

proof fn lemma_join_rest(pieces: Seq<Seq<char>>, p: Seq<char>)
    requires
        pieces.len() > 0,
        indented_rest(pieces[0], p),
        forall|i: int| 0 < i < pieces.len() ==> indented_lines(#[trigger] pieces[i], p),
    ensures
        indented_rest(join(pieces, seq!['\n']), p),
    decreases pieces.len(),
{
    if pieces.len() > 1 {
        let rest = pieces.drop_last();
        assert(rest[0] == pieces[0]);
        assert forall|i: int| 0 < i < rest.len() implies indented_lines(#[trigger] rest[i], p) by {
            assert(rest[i] == pieces[i]);
        }
        lemma_join_rest(rest, p);
        let a = join(rest, seq!['\n']);
        let last = pieces[pieces.len() - 1];
        assert(indented_lines(last, p));
        lemma_rest_newline(a, last, p);
    }
}

proof fn lemma_prefixed_rest_after(ls: Seq<Seq<char>>, head: Seq<char>, p: Seq<char>, n: int)
    requires
        single_line(p),
        indented_rest(head, p),
        forall|k: int| 0 <= k < ls.len() ==> single_line(#[trigger] ls[k]),
    ensures
        indented_rest(head + prefixed_rest(ls, p, n), p),
        (head + prefixed_rest(ls, p, n)).subrange(0, head.len() as int) == head,
    decreases n,
{
    if n <= 1 || n > ls.len() {
        assert(head + prefixed_rest(ls, p, n) =~= head);
        assert(head.subrange(0, head.len() as int) =~= head);
    } else {
        lemma_prefixed_rest_after(ls, head, p, n - 1);
        let l = ls[n - 1];
        let x = if l.len() == 0 {
            Seq::<char>::empty()
        } else {
            p + l
        };
        if l.len() > 0 {
            lemma_single_indented(p, l);
        }
        let a = head + prefixed_rest(ls, p, n - 1);
        lemma_rest_newline(a, x, p);
        assert(head + prefixed_rest(ls, p, n) =~= a + seq!['\n'] + x);
        assert((a + seq!['\n'] + x).subrange(0, head.len() as int) =~= a.subrange(
            0,
            head.len() as int,
        ));
    }
}

proof fn lemma_prefixed_shape(block: Seq<char>, f: Seq<char>, p: Seq<char>)
    requires
        single_line(f),
        single_line(p),
    ensures
        indented_rest(prefixed(block, f, p), p),
        prefixed(block, f, p).len() > 0 ==> f.is_prefix_of(prefixed(block, f, p)),
{
    let ls = lines_of(block);
    lemma_lines_from_single(block, 0);
    if ls.len() > 0 {
        let head = if ls[0].len() > 0 {
            f + ls[0]
        } else {
            f
        };
        lemma_head_rest(f, ls[0], p);
        if ls[0].len() == 0 {
            assert(f + ls[0] =~= f);
        }
        lemma_prefixed_rest_after(ls, head, p, ls.len() as int);
        let t = prefixed(block, f, p);
        assert(t.subrange(0, f.len() as int) =~= head.subrange(0, f.len() as int));
    }
}

proof fn lemma_paragraph_rest(s: Seq<Tree>, f: Seq<char>, p: Seq<char>, input: Seq<char>)
    requires
        single_line(f),
        single_line(p),
        has_break(s) || single_line(
            fragments_text(
                fragments_from(s, s.len() as int, input),
                fragments_from(s, s.len() as int, input).len() as int,
            ),
        ),
    ensures
        indented_rest(wrapped_paragraph(s, f, p, input), p),
{
    if has_break(s) {
        lemma_prefixed_shape(crate::render::inlines(s, input), f, p);
    } else {
        let fs = fragments_from(s, s.len() as int, input);
        lemma_wrap_keeps_text(fs, f, p);
        let lines = wrap_lines(fs, f, p);
        let contents = choose|contents: Seq<Seq<char>>|
            printed_as(lines, contents, f, p) && no_spaces(concat(contents)) == no_spaces(
                fragments_text(fs, fs.len() as int),
            );
        lemma_single_no_spaces(fragments_text(fs, fs.len() as int));
        lemma_single_no_spaces(concat(contents));
        lemma_single_concat(contents);
        if lines.len() > 0 {
            assert(single_line(contents[0]));
            if lines[0] == p + contents[0] {
                lemma_head_rest(p, contents[0], p);
            } else {
                lemma_head_rest(f, contents[0], p);
            }
            assert forall|k: int| 0 < k < lines.len() implies indented_lines(
                #[trigger] lines[k],
                p,
            ) by {
                assert(single_line(contents[k]));
                assert(lines[k] == p + contents[k]);
                lemma_single_indented(p, contents[k]);
            }
            lemma_join_rest(lines, p);
        }
    }
}

proof fn lemma_item_from_prefix(
    s: Seq<Tree>,
    m1: int,
    m2: int,
    spread: bool,
    first: Seq<char>,
    first_cont: Seq<char>,
    following: Seq<char>,
    input: Seq<char>,
)
    requires
        0 <= m1 <= m2 <= s.len(),
    ensures
        item_from(s, m1, spread, first, first_cont, following, input).len() <= item_from(
            s,
            m2,
            spread,
            first,
            first_cont,
            following,
            input,
        ).len(),
        item_from(s, m2, spread, first, first_cont, following, input).subrange(
            0,
            item_from(s, m1, spread, first, first_cont, following, input).len() as int,
        ) == item_from(s, m1, spread, first, first_cont, following, input),
    decreases m2 - m1,
{
    let a = item_from(s, m1, spread, first, first_cont, following, input);
    let c = item_from(s, m2, spread, first, first_cont, following, input);
    if m1 == m2 {
        assert(c.subrange(0, a.len() as int) =~= a);
    } else {
        lemma_item_from_prefix(s, m1, m2 - 1, spread, first, first_cont, following, input);
        let b = item_from(s, m2 - 1, spread, first, first_cont, following, input);
        assert(c.subrange(0, b.len() as int) =~= b);
        assert(c.subrange(0, a.len() as int) =~= b.subrange(0, a.len() as int));
    }
}

/// The blocks of a list item stay inside it: each block after the first
/// starts on a line of its own, right after a newline, and every non-empty
/// line it prints starts with the item's indentation, the base prefix
/// followed by as many spaces as the marker is long plus one. This holds of
/// every block but a nested list (which indents its own items), a paragraph
/// as long as its lines are its own (see `keeps_own_lines`), and a base
/// prefix of one line.
pub proof fn lemma_later_item_blocks_indented(
    children: Vec<Tree>,
    checked: Option<bool>,
    spread: bool,
    start_line: Option<usize>,
    marker: Seq<char>,
    base: Seq<char>,
    input: Seq<char>,
    j: int,
)
    requires
        0 < j < children@.len(),
        !(children@[j] is List),
        keeps_own_lines(children@[j], input),
        single_line(base),
    ensures
        ({
            let out = list_item(
                Tree::ListItem { children, checked, spread, start_line },
                marker,
                base,
                input,
            );
            let first = first_item_prefix(base, marker, checked);
            let first_cont = repeat_char(' ', byte_len(first));
            let following = base + repeat_char(' ', sat_add(byte_len(marker), 1));
            let block = item_block(children@[j], j, first, first_cont, following, input);
            &&& indented_lines(block, following)
            &&& block.len() > 0 ==> exists|at: int|
                0 < at <= out.len() && out[at - 1] == '\n' && block.is_prefix_of(
                    #[trigger] out.skip(at),
                )
        }),
{
    let s = children@;
    let first = first_item_prefix(base, marker, checked);
    let first_cont = repeat_char(' ', byte_len(first));
    let following = base + repeat_char(' ', sat_add(byte_len(marker), 1));
    let spaces = repeat_char(' ', sat_add(byte_len(marker), 1));
    assert(single_line(following)) by {
        assert forall|i: int| 0 <= i < following.len() implies following[i] != '\n' by {
            if i >= base.len() {
                assert(following[i] == spaces[i - base.len()]);
            }
        }
    }
    let child = s[j];
    let block = item_block(child, j, first, first_cont, following, input);
    match child {
        Tree::Paragraph { children: inner } => {
            lemma_paragraph_indented(inner@, following, input);
        },
        _ => {
            lemma_prefixed_indented(node_text(child, input), following);
        },
    }
    let out = list_item(Tree::ListItem { children, checked, spread, start_line }, marker, base, input);
    if block.len() > 0 {
        let before = item_from(s, j, spread, first, first_cont, following, input);
        let upto = item_from(s, j + 1, spread, first, first_cont, following, input);
        let sep = if blank_between(s, j, spread) {
            seq!['\n', '\n']
        } else {
            seq!['\n']
        };
        assert(upto == before + sep + block);
        let full = item_from(s, s.len() as int, spread, first, first_cont, following, input);
        lemma_item_from_prefix(s, j + 1, s.len() as int, spread, first, first_cont, following, input);
        assert(out == full);
        let at: int = (before.len() + sep.len()) as int;
        assert(full[at - 1] == upto[at - 1]);
        assert(full.skip(at).subrange(0, block.len() as int) =~= upto.subrange(at, at + block.len()));
        assert(upto.subrange(at, at + block.len()) =~= block);
        assert(block.is_prefix_of(full.skip(at)));
    }
}

spec fn blank_between(s: Seq<Tree>, j: int, spread: bool) -> bool {
    crate::render::blank_between_item_blocks(s[j - 1], s[j], spread)
}


/// The first block of a list item opens the item: the item's text starts
/// with it, a block other than a paragraph starts with the marker prefix
/// (the base prefix, the marker, a space and the task box), and every later
/// non-empty line of it is indented, a paragraph's by as many spaces as the
/// marker prefix is long, any other block's by the item's indentation. This
/// holds of every first block but a nested list, a paragraph as long as its
/// lines are its own (see `keeps_own_lines`), and a base prefix and marker
/// of one line.
pub proof fn lemma_first_item_block_opens_item(
    children: Vec<Tree>,
    checked: Option<bool>,
    spread: bool,
    start_line: Option<usize>,
    marker: Seq<char>,
    base: Seq<char>,
    input: Seq<char>,
)
    requires
        0 < children@.len(),
        !(children@[0] is List),
        keeps_own_lines(children@[0], input),
        single_line(base),
        single_line(marker),
    ensures
        ({
            let out = list_item(
                Tree::ListItem { children, checked, spread, start_line },
                marker,
                base,
                input,
            );
            let first = first_item_prefix(base, marker, checked);
            let first_cont = repeat_char(' ', byte_len(first));
            let following = base + repeat_char(' ', sat_add(byte_len(marker), 1));
            let block = item_block(children@[0], 0, first, first_cont, following, input);
            &&& block.is_prefix_of(out)
            &&& children@[0] is Paragraph ==> indented_rest(block, first_cont)
            &&& !(children@[0] is Paragraph) ==> indented_rest(block, following)
            &&& !(children@[0] is Paragraph) && block.len() > 0 ==> first.is_prefix_of(block)
        }),
{
    let s = children@;
    let first = first_item_prefix(base, marker, checked);
    let first_cont = repeat_char(' ', byte_len(first));
    let following = base + repeat_char(' ', sat_add(byte_len(marker), 1));
    let spaces = repeat_char(' ', sat_add(byte_len(marker), 1));
    assert(single_line(following)) by {
        assert forall|i: int| 0 <= i < following.len() implies following[i] != '\n' by {
            if i >= base.len() {
                assert(following[i] == spaces[i - base.len()]);
            }
        }
    }
    assert(single_line(first_cont));
    let box_ = match checked {
        Some(true) => seq!['[', 'x', ']', ' '],
        Some(false) => seq!['[', ' ', ']', ' '],
        None => Seq::<char>::empty(),
    };
    assert(first == base + marker + seq![' '] + box_);
    assert(single_line(first)) by {
        assert forall|i: int| 0 <= i < first.len() implies first[i] != '\n' by {
            if i < base.len() {
                assert(first[i] == base[i]);
            } else if i < base.len() + marker.len() {
                assert(first[i] == marker[i - base.len()]);
            } else if i == base.len() + marker.len() {
                assert(first[i] == ' ');
            } else {
                assert(first[i] == box_[i - base.len() - marker.len() - 1]);
            }
        }
    }
    let child = s[0];
    let block = item_block(child, 0, first, first_cont, following, input);
    match child {
        Tree::Paragraph { children: inner } => {
            lemma_paragraph_rest(inner@, first, first_cont, input);
        },
        _ => {
            lemma_prefixed_shape(node_text(child, input), first, following);
        },
    }
    let out = list_item(Tree::ListItem { children, checked, spread, start_line }, marker, base, input);
    let one = item_from(s, 1, spread, first, first_cont, following, input);
    assert(item_from(s, 0, spread, first, first_cont, following, input) == Seq::<char>::empty());
    assert(one =~= block);
    let full = item_from(s, s.len() as int, spread, first, first_cont, following, input);
    lemma_item_from_prefix(s, 1, s.len() as int, spread, first, first_cont, following, input);
    if block.len() > 0 {
        assert(out == full);
        assert(block.is_prefix_of(out));
    } else {
        assert(block.is_prefix_of(out));
    }
}

} // verus!
