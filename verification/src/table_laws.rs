//! Tables line up: for cells of printable ASCII, the header row, the
//! separator row and every other row of a laid-out table are equally long.

use vstd::prelude::*;
use crate::node::AlignKind;
use crate::tables::{
    cell_at, column_width, column_widths, max_nat, padded, padded_cells,
    separator_cell, separator_cells, table_row, usize_widths,
};
use crate::text::{join, printable_ascii};

verus! {

/// Every cell is printable ASCII, of a length a `usize` holds.
pub open spec fn ascii_rows(rows: Seq<Seq<Seq<char>>>) -> bool {
    forall|r: int, i: int|
        0 <= r < rows.len() && 0 <= i < rows[r].len() ==> printable_ascii(#[trigger] rows[r][i])
            && rows[r][i].len() <= usize::MAX
}

/// The sum of the first `n` widths.
pub open spec fn width_sum(ws: Seq<nat>, n: int) -> nat
    decreases n,
{
    if n <= 0 || n > ws.len() {
        0
    } else {
        width_sum(ws, n - 1) + ws[n - 1]
    }
}

/// The length of a row line: `| `, the cells separated by ` | `, and ` |`.
pub open spec fn row_length(ws: Seq<nat>) -> nat {
    if ws.len() == 0 {
        4
    } else {
        (4 + width_sum(ws, ws.len() as int) + 3 * (ws.len() - 1)) as nat
    }
}

/// Pieces of the given lengths, joined: their lengths and the separators.
proof fn lemma_join_len(ps: Seq<Seq<char>>, sep: Seq<char>, ws: Seq<nat>)
    requires
        ps.len() == ws.len(),
        forall|i: int| 0 <= i < ps.len() ==> (#[trigger] ps[i]).len() == ws[i],
    ensures
        ps.len() > 0 ==> join(ps, sep).len() == width_sum(ws, ws.len() as int) + sep.len() * (
        ps.len() - 1),
        ps.len() == 0 ==> join(ps, sep).len() == 0,
    decreases ps.len(),
{
    if ps.len() > 1 {
        let n = ps.len() as int;
        lemma_width_sum_drop_last(ws, n - 1);
        assert(ps.drop_last().len() == ws.drop_last().len());
        assert forall|i: int| 0 <= i < ps.drop_last().len() implies (#[trigger] ps.drop_last()[i]).len()
            == ws.drop_last()[i] by {
            assert(ps.drop_last()[i] == ps[i]);
        }
        lemma_join_len(ps.drop_last(), sep, ws.drop_last());
        assert(ps[n - 1].len() == ws[n - 1]);
        assert(sep.len() * (n - 1) == sep.len() * (n - 2) + sep.len()) by (nonlinear_arith);
    } else if ps.len() == 1 {
        assert(width_sum(ws, 0) == 0);
    }
}

proof fn lemma_width_sum_drop_last(ws: Seq<nat>, m: int)
    requires
        0 <= m < ws.len(),
    ensures
        width_sum(ws.drop_last(), m) == width_sum(ws, m),
    decreases m,
{
    if m > 0 {
        lemma_width_sum_drop_last(ws, m - 1);
    }
}

/// A column is as wide as each of its cells.
proof fn lemma_column_covers(rows: Seq<Seq<Seq<char>>>, c: int, n: int, r: int)
    requires
        ascii_rows(rows),
        0 <= r < n <= rows.len(),
        0 <= c < rows[r].len(),
    ensures
        rows[r][c].len() <= column_width(rows, c, n),
    decreases n,
{
    assert(printable_ascii(rows[r][c]));
    if r < n - 1 {
        lemma_column_covers(rows, c, n - 1, r);
    }
}

/// Columns are no wider than the longest cell.
proof fn lemma_column_bounded(rows: Seq<Seq<Seq<char>>>, c: int, n: int)
    requires
        ascii_rows(rows),
        0 <= c,
        0 <= n <= rows.len(),
    ensures
        column_width(rows, c, n) <= usize::MAX,
    decreases n,
{
    if n > 0 {
        lemma_column_bounded(rows, c, n - 1);
        if c < rows[n - 1].len() {
            assert(printable_ascii(rows[n - 1][c]));
            assert(rows[n - 1][c].len() <= usize::MAX);
            assert(crate::tables::cell_cols(rows[n - 1][c]) == rows[n - 1][c].len());
        }
    }
}

/// The padded cells of a row are each as long as their column.
proof fn lemma_padded_row(rows: Seq<Seq<Seq<char>>>, r: int, n: int)
    requires
        ascii_rows(rows),
        0 <= r < rows.len(),
        0 <= n <= column_widths(rows).len(),
    ensures
        padded_cells(rows[r], usize_widths(column_widths(rows)), n).len() == n,
        forall|i: int|
            0 <= i < n ==> (#[trigger] padded_cells(rows[r], usize_widths(column_widths(rows)), n)[i]).len()
                == column_widths(rows)[i],
    decreases n,
{
    let widths = column_widths(rows);
    let ws = usize_widths(widths);
    if n > 0 {
        lemma_padded_row(rows, r, n - 1);
        let i = n - 1;
        let cell = cell_at(rows[r], i);
        lemma_column_bounded(rows, i, rows.len() as int);
        assert(ws[i] as nat == widths[i]);
        if i < rows[r].len() {
            lemma_column_covers(rows, i, rows.len() as int, r);
            assert(printable_ascii(rows[r][i]));
        } else {
            assert(cell =~= Seq::<char>::empty());
        }
        assert(cell.len() <= widths[i]);
        assert(padded(cell, widths[i]).len() == widths[i]);
        let prev = padded_cells(rows[r], ws, n - 1);
        assert forall|k: int| 0 <= k < n implies (#[trigger] padded_cells(rows[r], ws, n)[k]).len()
            == widths[k] by {
            if k < n - 1 {
                assert(padded_cells(rows[r], ws, n)[k] == prev[k]);
            }
        }
    }
}

/// The separator cells are each as long as their column.
proof fn lemma_separator_cells(widths: Seq<nat>, align: Seq<AlignKind>, n: int)
    requires
        0 <= n <= widths.len(),
        forall|i: int| 0 <= i < widths.len() ==> #[trigger] widths[i] >= 3,
    ensures
        separator_cells(widths, align, n).len() == n,
        forall|i: int| 0 <= i < n ==> (#[trigger] separator_cells(widths, align, n)[i]).len() == widths[i],
    decreases n,
{
    if n > 0 {
        lemma_separator_cells(widths, align, n - 1);
        let w = widths[n - 1];
        assert(w >= 3);
        assert(separator_cell(w, crate::tables::align_at(align, n - 1)).len() == w);
        let prev = separator_cells(widths, align, n - 1);
        assert forall|k: int| 0 <= k < n implies (#[trigger] separator_cells(widths, align, n)[k]).len()
            == widths[k] by {
            if k < n - 1 {
                assert(separator_cells(widths, align, n)[k] == prev[k]);
            }
        }
    }
}

/// Tables line up: with cells of printable ASCII, every row of a laid-out
/// table, and its separator row, is `row_length` of the column widths long.
pub proof fn lemma_table_rows_line_up(rows: Seq<Seq<Seq<char>>>, align: Seq<AlignKind>)
    requires
        ascii_rows(rows),
    ensures
        forall|r: int|
            0 <= r < rows.len() ==> (#[trigger] table_row(rows[r], usize_widths(column_widths(rows)))).len()
                == row_length(column_widths(rows)),
        (seq!['|', ' '] + join(
            separator_cells(column_widths(rows), align, column_widths(rows).len() as int),
            seq![' ', '|', ' '],
        ) + seq![' ', '|']).len() == row_length(column_widths(rows)),
{
    let widths = column_widths(rows);
    let n = widths.len() as int;
    let sep = seq![' ', '|', ' '];
    assert forall|r: int| 0 <= r < rows.len() implies (#[trigger] table_row(
        rows[r],
        usize_widths(widths),
    )).len() == row_length(widths) by {
        lemma_padded_row(rows, r, n);
        lemma_join_len(padded_cells(rows[r], usize_widths(widths), n), sep, widths);
        assert(usize_widths(widths).len() == n);
    }
    assert forall|i: int| 0 <= i < widths.len() implies #[trigger] widths[i] >= 3 by {
        assert(widths[i] == max_nat(column_width(rows, i, rows.len() as int), 3));
    }
    lemma_separator_cells(widths, align, n);
    lemma_join_len(separator_cells(widths, align, n), sep, widths);
}

} // verus!
