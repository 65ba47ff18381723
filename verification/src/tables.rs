//! Tables: columns padded to the widest cell (at least three columns wide)
//! under a separator row that shows each column's alignment.

use vstd::prelude::*;
use crate::node::AlignKind;
use crate::text::{
    join, join_with, push_char, push_str, repeat, repeat_char, str_width, strings_view,
    str_cols,
};

verus! {

/// Columns a cell takes.
pub open spec fn cell_cols(cell: Seq<char>) -> nat {
    str_cols(cell)
}

/// The display width of a cell.
pub fn cell_display_width(cell: &str) -> (r: usize)
    ensures
        r == cell_cols(cell@),
{
    str_width(cell)
}

/// The cell followed by spaces up to `width` columns.
pub open spec fn padded(cell: Seq<char>, width: nat) -> Seq<char> {
    cell + repeat_char(' ', if width >= cell_cols(cell) {
        (width - cell_cols(cell)) as nat
    } else {
        0
    })
}

/// Pads a cell with spaces to `width` columns.
pub fn pad_cell(cell: &str, width: usize) -> (r: String)
    ensures
        r@ == padded(cell@, width as nat),
{
    let padding = width.saturating_sub(cell_display_width(cell));
    let mut out = crate::text::to_string(cell);
    push_str(&mut out, repeat(' ', padding).as_str());
    out
}

/// `s`, or the empty string past the end of `cells`.
pub open spec fn cell_at(cells: Seq<Seq<char>>, i: int) -> Seq<char> {
    if 0 <= i < cells.len() {
        cells[i]
    } else {
        Seq::empty()
    }
}

/// The padded cells of a row, for the first `n` columns.
pub open spec fn padded_cells(cells: Seq<Seq<char>>, widths: Seq<usize>, n: int) -> Seq<Seq<char>>
    decreases n,
{
    if n <= 0 || n > widths.len() {
        Seq::empty()
    } else {
        padded_cells(cells, widths, n - 1).push(padded(cell_at(cells, n - 1), widths[n - 1] as nat))
    }
}

/// `| a | b |` with every cell padded to its column's width (missing cells
/// are empty).
pub open spec fn table_row(cells: Seq<Seq<char>>, widths: Seq<usize>) -> Seq<char> {
    seq!['|', ' '] + join(padded_cells(cells, widths, widths.len() as int), seq![' ', '|', ' '])
        + seq![' ', '|']
}

/// Joins strings with `" | "`.
fn join_cells(cells: &Vec<String>) -> (r: String)
    ensures
        r@ == join(strings_view(cells@), seq![' ', '|', ' ']),
{
    let sep = " | ";
    proof {
        reveal_strlit(" | ");
        assert(sep@ =~= seq![' ', '|', ' ']);
    }
    join_with(cells, sep)
}

/// Renders a row of cells padded to the column widths.
pub fn render_table_row(cells: &[String], widths: &[usize]) -> (r: String)
    ensures
        r@ == table_row(strings_view(cells@), widths@),
{
    let ghost cs = strings_view(cells@);
    let mut padded_cells_v: Vec<String> = Vec::new();
    let mut i: usize = 0;
    while i < widths.len()
        invariant
            i <= widths@.len(),
            cs == strings_view(cells@),
            strings_view(padded_cells_v@) == padded_cells(cs, widths@, i as int),
        decreases widths@.len() - i,
    {
        let cell = if i < cells.len() {
            cells[i].clone()
        } else {
            String::new()
        };
        assert(cell@ == cell_at(cs, i as int));
        let p = pad_cell(cell.as_str(), widths[i]);
        let ghost before = strings_view(padded_cells_v@);
        padded_cells_v.push(p);
        assert(strings_view(padded_cells_v@) =~= before.push(p@));
        i = i + 1;
    }
    let mut out = String::new();
    push_char(&mut out, '|');
    push_char(&mut out, ' ');
    push_str(&mut out, join_cells(&padded_cells_v).as_str());
    push_char(&mut out, ' ');
    push_char(&mut out, '|');
    assert(out@ =~= table_row(cs, widths@));
    out
}

/// `max(a, b)`.
pub open spec fn max_nat(a: nat, b: nat) -> nat {
    if a >= b {
        a
    } else {
        b
    }
}

/// The separator cell of a column: dashes with colons on the aligned sides.
pub open spec fn separator_cell(width: nat, align: AlignKind) -> Seq<char> {
    match align {
        AlignKind::Left => seq![':'] + repeat_char('-', max_nat(if width >= 1 { (width - 1) as nat } else { 0 }, 2)),
        AlignKind::Right => repeat_char('-', max_nat(if width >= 1 { (width - 1) as nat } else { 0 }, 2)) + seq![':'],
        AlignKind::Center => seq![':'] + repeat_char('-', max_nat(if width >= 2 { (width - 2) as nat } else { 0 }, 1)) + seq![':'],
        AlignKind::Unaligned => repeat_char('-', max_nat(width, 3)),
    }
}

/// Renders the separator cell of a column.
pub fn render_separator_cell(width: usize, align: AlignKind) -> (r: String)
    ensures
        r@ == separator_cell(width as nat, align),
{
    match align {
        AlignKind::Left => {
            let n = width.saturating_sub(1);
            let n = if n >= 2 { n } else { 2 };
            let mut out = String::new();
            push_char(&mut out, ':');
            push_str(&mut out, repeat('-', n).as_str());
            out
        },
        AlignKind::Right => {
            let n = width.saturating_sub(1);
            let n = if n >= 2 { n } else { 2 };
            let mut out = repeat('-', n);
            push_char(&mut out, ':');
            out
        },
        AlignKind::Center => {
            let n = width.saturating_sub(2);
            let n = if n >= 1 { n } else { 1 };
            let mut out = String::new();
            push_char(&mut out, ':');
            push_str(&mut out, repeat('-', n).as_str());
            push_char(&mut out, ':');
            out
        },
        AlignKind::Unaligned => {
            let n = if width >= 3 { width } else { 3 };
            repeat('-', n)
        },
    }
}

/// The number of columns: the length of the longest row.
pub open spec fn column_count(rows: Seq<Seq<Seq<char>>>, n: int) -> nat
    decreases n,
{
    if n <= 0 || n > rows.len() {
        0
    } else {
        max_nat(column_count(rows, n - 1), rows[n - 1].len())
    }
}

/// The widest cell of column `c` among the first `n` rows.
pub open spec fn column_width(rows: Seq<Seq<Seq<char>>>, c: int, n: int) -> nat
    decreases n,
{
    if n <= 0 || n > rows.len() {
        0
    } else if c < rows[n - 1].len() {
        max_nat(column_width(rows, c, n - 1), cell_cols(rows[n - 1][c]))
    } else {
        column_width(rows, c, n - 1)
    }
}

/// The width of each column: its widest cell, and at least 3.
pub open spec fn column_widths(rows: Seq<Seq<Seq<char>>>) -> Seq<nat> {
    Seq::new(
        column_count(rows, rows.len() as int),
        |c: int| max_nat(column_width(rows, c, rows.len() as int), 3),
    )
}

/// The alignment of column `c` (unaligned when not given).
pub open spec fn align_at(align: Seq<AlignKind>, c: int) -> AlignKind {
    if 0 <= c < align.len() {
        align[c]
    } else {
        AlignKind::Unaligned
    }
}

/// The separator cells, for the first `n` columns.
pub open spec fn separator_cells(widths: Seq<nat>, align: Seq<AlignKind>, n: int) -> Seq<Seq<char>>
    decreases n,
{
    if n <= 0 || n > widths.len() {
        Seq::empty()
    } else {
        separator_cells(widths, align, n - 1).push(separator_cell(widths[n - 1], align_at(align, n - 1)))
    }
}

/// The rows after the header, for rows `1..n`.
pub open spec fn body_rows(rows: Seq<Seq<Seq<char>>>, widths: Seq<usize>, n: int) -> Seq<char>
    decreases n,
{
    if n <= 1 || n > rows.len() {
        Seq::empty()
    } else {
        body_rows(rows, widths, n - 1) + seq!['\n'] + table_row(rows[n - 1], widths)
    }
}

/// Widths as machine integers.
pub open spec fn usize_widths(ws: Seq<nat>) -> Seq<usize> {
    ws.map_values(|w: nat| w as usize)
}

/// A table laid out from its rows of rendered cells: the header row, the
/// separator row and the other rows, each cell padded to its column.
pub open spec fn table_layout(rows: Seq<Seq<Seq<char>>>, align: Seq<AlignKind>) -> Seq<char> {
    if rows.len() == 0 {
        Seq::empty()
    } else {
        let widths = column_widths(rows);
        let ws = usize_widths(widths);
        table_row(rows[0], ws) + seq!['\n', '|', ' '] + join(
            separator_cells(widths, align, widths.len() as int),
            seq![' ', '|', ' '],
        ) + seq![' ', '|'] + body_rows(rows, ws, rows.len() as int)
    }
}


pub open spec fn rows_view(rows: Seq<Vec<String>>) -> Seq<Seq<Seq<char>>> {
    rows.map_values(|r: Vec<String>| strings_view(r@))
}

/// Lays out a table from its rows of rendered cells.
pub fn layout_table(rows: &Vec<Vec<String>>, align: &Vec<AlignKind>) -> (r: String)
    ensures
        r@ == table_layout(rows_view(rows@), align@),
{
    let ghost rv = rows_view(rows@);
    if rows.len() == 0 {
        return String::new();
    }
    // Column count.
    let mut count: usize = 0;
    let mut i: usize = 0;
    while i < rows.len()
        invariant
            i <= rows@.len(),
            rv == rows_view(rows@),
            count == column_count(rv, i as int),
        decreases rows@.len() - i,
    {
        assert(rv[i as int].len() == rows@[i as int]@.len());
        if rows[i].len() > count {
            count = rows[i].len();
        }
        i = i + 1;
    }
    let ghost widths = column_widths(rv);
    // Column widths.
    let mut ws: Vec<usize> = Vec::new();
    let mut c: usize = 0;
    while c < count
        invariant
            c <= count,
            count == column_count(rv, rv.len() as int),
            rv == rows_view(rows@),
            widths == column_widths(rv),
            ws@.len() == c,
            forall|k: int| 0 <= k < c ==> ws@[k] as nat == widths[k],
        decreases count - c,
    {
        let mut w: usize = 0;
        let mut j: usize = 0;
        while j < rows.len()
            invariant
                j <= rows@.len(),
                rv == rows_view(rows@),
                w == column_width(rv, c as int, j as int),
            decreases rows@.len() - j,
        {
            assert(rv[j as int] == strings_view(rows@[j as int]@));
            if c < rows[j].len() {
                let cw = cell_display_width(rows[j][c].as_str());
                if cw > w {
                    w = cw;
                }
            }
            j = j + 1;
        }
        let w = if w >= 3 { w } else { 3 };
        ws.push(w);
        c = c + 1;
    }
    assert(ws@ =~= usize_widths(widths));
    assert(count == widths.len());
    // Separator.
    let mut seps: Vec<String> = Vec::new();
    let mut k: usize = 0;
    while k < count
        invariant
            k <= count,
            count == widths.len(),
            ws@ == usize_widths(widths),
            ws@.len() == count,
            forall|j: int| 0 <= j < count ==> ws@[j] as nat == widths[j],
            strings_view(seps@) == separator_cells(widths, align@, k as int),
        decreases count - k,
    {
        let a = if k < align.len() {
            align[k]
        } else {
            AlignKind::Unaligned
        };
        let cell = render_separator_cell(ws[k], a);
        let ghost before = strings_view(seps@);
        seps.push(cell);
        assert(strings_view(seps@) =~= before.push(cell@));
        k = k + 1;
    }
    let mut output = render_table_row(rows[0].as_slice(), ws.as_slice());
    push_char(&mut output, '\n');
    push_char(&mut output, '|');
    push_char(&mut output, ' ');
    push_str(&mut output, join_cells(&seps).as_str());
    push_char(&mut output, ' ');
    push_char(&mut output, '|');
    let ghost head = output@;
    let mut n: usize = 1;
    while n < rows.len()
        invariant
            1 <= n <= rows@.len(),
            rv == rows_view(rows@),
            output@ == head + body_rows(rv, ws@, n as int),
        decreases rows@.len() - n,
    {
        push_char(&mut output, '\n');
        push_str(&mut output, render_table_row(rows[n].as_slice(), ws.as_slice()).as_str());
        n = n + 1;
        assert(output@ =~= head + body_rows(rv, ws@, n as int));
    }
    assert(output@ =~= table_layout(rv, align@));
    output
}

} // verus!
