//! The two directions of the text form agree: the text that a grid is written as
//! reads back as that grid.

use crate::board::{lemma_board_ext, Board};
use crate::cell::Cell;
use crate::error::{GridParseError, GridSizeError};
use crate::text::{
    all_cells, board_of, cell_of, cell_or_empty, decoded, diff_piece, diff_rendered,
    diff_row_upto, diff_upto, first_ragged, lemma_first_ragged, lines, lines_from, rendered,
    rendered_upto, row_text, symbol, text_size,
};
use vstd::prelude::*;

verus! {

/// Where the text of row `r` starts in the text of a board of size `n`.
pub open spec fn row_offset(n: int, r: int) -> int {
    r * (n + 1)
}

/// Each row takes its cells and a line break.
pub proof fn lemma_row_offset(n: int, r: int)
    requires
        0 <= n,
        0 <= r,
    ensures
        row_offset(n, 0) == 0,
        row_offset(n, r + 1) == row_offset(n, r) + n + 1,
        0 <= row_offset(n, r),
{
    assert((r + 1) * (n + 1) == r * (n + 1) + n + 1) by (nonlinear_arith);
    assert(0 <= r * (n + 1)) by (nonlinear_arith)
        requires
            0 <= r,
            0 <= n,
    ;
}

/// The character of a cell stands for that cell, and is no line break.
pub proof fn lemma_symbol(cell: Cell)
    ensures
        cell_of(symbol(cell)) == Some(cell),
        cell_or_empty(symbol(cell)) == cell,
        symbol(cell) != '\n',
{
}

/// The text of the first rows of a board: its length, and what stands at each place.
pub proof fn lemma_rendered_upto(b: Board, r: int)
    requires
        b.wf(),
        0 <= r <= b.size,
    ensures
        rendered_upto(b, r).len() == row_offset(b.size as int, r),
        forall|i: int, c: int|
            0 <= i < r && 0 <= c < b.size ==> #[trigger] rendered_upto(b, r)[row_offset(
                b.size as int,
                i,
            ) + c] == symbol(b.at(i, c)),
        forall|i: int|
            0 <= i < r ==> #[trigger] rendered_upto(b, r)[row_offset(b.size as int, i) + b.size]
                == '\n',
    decreases r,
{
    let n = b.size as int;
    if r > 0 {
        lemma_rendered_upto(b, r - 1);
        lemma_row_offset(n, r - 1);
        let before = rendered_upto(b, r - 1);
        let line = row_text(b.row(r - 1));
        let t = rendered_upto(b, r);
        assert(t == before + line + seq!['\n']);
        assert(line.len() == n);
        assert forall|i: int, c: int| 0 <= i < r && 0 <= c < b.size implies #[trigger] t[row_offset(
            n,
            i,
        ) + c] == symbol(b.at(i, c)) by {
            lemma_row_offset(n, i);
            if i < r - 1 {
                lemma_offsets_ordered(n, i + 1, r - 1);
                assert(t[row_offset(n, i) + c] == before[row_offset(n, i) + c]);
            } else {
                assert(t[row_offset(n, i) + c] == line[c]);
            }
        }
        assert forall|i: int| 0 <= i < r implies #[trigger] t[row_offset(n, i) + b.size]
            == '\n' by {
            lemma_row_offset(n, i);
            if i < r - 1 {
                lemma_offsets_ordered(n, i + 1, r - 1);
                assert(t[row_offset(n, i) + n] == before[row_offset(n, i) + n]);
            }
        }
    } else {
        lemma_row_offset(n, 0);
    }
}

/// Later rows start later.
pub proof fn lemma_offsets_ordered(n: int, i: int, j: int)
    requires
        0 <= n,
        0 <= i <= j,
    ensures
        row_offset(n, i) <= row_offset(n, j),
{
    assert(i * (n + 1) <= j * (n + 1)) by (nonlinear_arith)
        requires
            0 <= i <= j,
            0 <= n,
    ;
}

/// Scanning over characters that are no line break does not change the lines found.
pub proof fn lemma_scan(text: Seq<char>, start: int, pos: int, end: int)
    requires
        0 <= start <= pos <= end <= text.len(),
        forall|k: int| pos <= k < end ==> text[k] != '\n',
    ensures
        lines_from(text, start, pos) == lines_from(text, start, end),
    decreases end - pos,
{
    if pos < end {
        lemma_scan(text, start, pos + 1, end);
    }
}

/// The lines of the text of a board, from the start of row `r` on, are the texts
/// of the rows from `r` on. The same holds of the text without its last line break.
pub proof fn lemma_lines_of_rendered(b: Board, text: Seq<char>, r: int)
    requires
        b.wf(),
        0 <= r <= b.size,
        text == rendered(b) || text == rendered(b).drop_last(),
    ensures
        lines_from(text, row_offset(b.size as int, r), row_offset(b.size as int, r)) == Seq::new(
            (b.size - r) as nat,
            |k: int| row_text(b.row(r + k)),
        ),
    decreases b.size - r,
{
    let n = b.size as int;
    let full = rendered(b);
    let start = row_offset(n, r);
    let rest = Seq::new((n - r) as nat, |k: int| row_text(b.row(r + k)));
    lemma_rendered_upto(b, n);
    lemma_row_offset(n, r);
    lemma_offsets_ordered(n, r, n);
    if r == n {
        assert(lines_from(text, start, start) =~= rest);
    } else {
        lemma_offsets_ordered(n, r + 1, n);
        let end = start + n;
        assert forall|k: int| start <= k < end implies text[k] != '\n' by {
            assert(full[row_offset(n, r) + (k - start)] == symbol(b.at(r, k - start)));
            assert(text[k] == full[k]);
        }
        lemma_scan(text, start, start, end);
        let line = text.subrange(start, end);
        assert(line =~= row_text(b.row(r))) by {
            assert forall|c: int| 0 <= c < n implies line[c] == row_text(b.row(r))[c] by {
                assert(full[row_offset(n, r) + c] == symbol(b.at(r, c)));
                assert(text[start + c] == full[start + c]);
            }
        }
        if end < text.len() {
            assert(full[row_offset(n, r) + n] == '\n');
            assert(text[end] == full[end]);
            lemma_lines_of_rendered(b, text, r + 1);
            let tail = Seq::new((n - (r + 1)) as nat, |k: int| row_text(b.row(r + 1 + k)));
            assert(lines_from(text, start, end) == seq![line] + lines_from(text, end + 1, end + 1));
            assert(seq![line] + tail =~= rest);
        } else {
            // The text has lost its last line break, and this is the last row.
            if r < n - 1 {
                lemma_offsets_ordered(n, r + 1, n - 1);
                lemma_row_offset(n, n - 1);
            }
            assert(r == n - 1);
            assert(lines_from(text, start, end) == seq![text.subrange(start, text.len() as int)]);
            assert(seq![line] =~= rest);
        }
    }
}

/// The text of a board reads back as the board, with its last line break or
/// without it.
pub proof fn lemma_round_trip(b: Board)
    requires
        b.wf(),
    ensures
        decoded(rendered(b)) == Ok::<Board, GridParseError>(b),
        decoded(rendered(b).drop_last()) == Ok::<Board, GridParseError>(b),
{
    lemma_reads_back(b, rendered(b));
    lemma_reads_back(b, rendered(b).drop_last());
}

/// The text of a board, or that text without its last line break, reads back
/// as the board.
pub proof fn lemma_reads_back(b: Board, text: Seq<char>)
    requires
        b.wf(),
        text == rendered(b) || text == rendered(b).drop_last(),
    ensures
        decoded(text) == Ok::<Board, GridParseError>(b),
{
    let n = b.size as int;
    lemma_rendered_upto(b, n);
    lemma_row_offset(n, 0);
    lemma_row_offset(n, 1);
    lemma_offsets_ordered(n, 1, n);
    lemma_lines_of_rendered(b, text, 0);
    let ls = lines(text);
    assert(ls =~= Seq::new(n as nat, |k: int| row_text(b.row(k))));
    assert(text.len() > 0);
    lemma_first_ragged(ls, n, 0);
    assert(first_ragged(ls, n, 0) == n) by {
        if first_ragged(ls, n, 0) < n {
            let bad = first_ragged(ls, n, 0);
            assert(ls[bad] == row_text(b.row(bad)));
        }
    }
    assert(text_size(text) == Ok::<nat, GridSizeError>(n as nat));
    assert forall|i: int, j: int| 0 <= i < ls.len() && 0 <= j < ls[i].len() implies cell_of(
        #[trigger] ls[i][j],
    ) is Some by {
        assert(ls[i] == row_text(b.row(i)));
        lemma_symbol(b.at(i, j));
    }
    assert(all_cells(ls));
    let back = board_of(ls);
    assert forall|r: int| 0 <= r < back.size implies (#[trigger] back.rows[r]).len()
        == back.size by {}
    assert forall|r: int, c: int| back.has(r, c) implies back.at(r, c) == b.at(r, c) by {
        assert(ls[r] == row_text(b.row(r)));
        lemma_symbol(b.at(r, c));
    }
    lemma_board_ext(back, b);
}

/// A cell shown against itself is its plain character.
pub proof fn lemma_diff_piece_same(cell: Cell)
    ensures
        diff_piece(cell, cell) == seq![symbol(cell)],
{
    reveal_strlit("0");
    reveal_strlit("1");
    reveal_strlit(".");
    assert(diff_piece(cell, cell) =~= seq![symbol(cell)]);
}

/// A line shown against itself is its plain text.
pub proof fn lemma_diff_row_same(line: Seq<Cell>, k: int)
    requires
        0 <= k <= line.len(),
    ensures
        diff_row_upto(line, line, k) == row_text(line).take(k),
    decreases k,
{
    if k > 0 {
        lemma_diff_row_same(line, k - 1);
        lemma_diff_piece_same(line[k - 1]);
        assert(row_text(line).take(k - 1) + seq![symbol(line[k - 1])] =~= row_text(line).take(k));
    } else {
        assert(diff_row_upto(line, line, k) =~= row_text(line).take(k));
    }
}

/// The first rows of a board shown against themselves are their plain text.
pub proof fn lemma_diff_upto_same(b: Board, r: int)
    requires
        b.wf(),
        0 <= r <= b.size,
    ensures
        diff_upto(b, b, r) == rendered_upto(b, r),
    decreases r,
{
    if r > 0 {
        lemma_diff_upto_same(b, r - 1);
        lemma_diff_row_same(b.row(r - 1), b.size as int);
        assert(row_text(b.row(r - 1)).take(b.size as int) =~= row_text(b.row(r - 1)));
    }
}

/// A board shown against itself is its plain text: colours mark differences only.
pub proof fn lemma_diff_same(b: Board)
    requires
        b.wf(),
    ensures
        diff_rendered(b, b) == rendered(b),
{
    lemma_diff_upto_same(b, b.size as int);
}

} // verus!
