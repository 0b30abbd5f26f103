//! The text form of a grid: `0`, `1` and `.` for the cells, one row per line.
//!
//! A grid is written row after row, each row followed by a line break. When a
//! grid is read, the last line break may be missing.

use crate::board::{flat_index, lemma_board_ext, lemma_flat_index, Board};
use crate::cell::Cell;
use crate::error::{GridParseError, GridSizeError};
use crate::grid::Grid;
use vstd::prelude::*;
use vstd::string::StringExecFns;

verus! {

/// The cell that a character stands for, if it stands for one.
pub open spec fn cell_of(c: char) -> Option<Cell> {
    if c == '0' {
        Some(Cell::Zero)
    } else if c == '1' {
        Some(Cell::One)
    } else if c == '.' {
        Some(Cell::Empty)
    } else {
        None
    }
}

/// The cell that a character stands for; an empty cell for any other character.
pub open spec fn cell_or_empty(c: char) -> Cell {
    match cell_of(c) {
        Some(cell) => cell,
        None => Cell::Empty,
    }
}

/// The character that stands for a cell.
pub open spec fn symbol(cell: Cell) -> char {
    match cell {
        Cell::Zero => '0',
        Cell::One => '1',
        Cell::Empty => '.',
    }
}

/// The lines of `text` from `start` on, where the characters from `start` up to
/// `pos` are known to hold no line break.
pub open spec fn lines_from(text: Seq<char>, start: int, pos: int) -> Seq<Seq<char>>
    decreases text.len() - pos,
{
    if pos >= text.len() {
        if start < text.len() {
            seq![text.subrange(start, text.len() as int)]
        } else {
            Seq::empty()
        }
    } else if text[pos] == '\n' {
        seq![text.subrange(start, pos)] + lines_from(text, pos + 1, pos + 1)
    } else {
        lines_from(text, start, pos + 1)
    }
}

/// The lines of a text: what stands between its line breaks, before the first and
/// after the last. Nothing follows a line break that ends the text, and the empty
/// text has no line.
pub open spec fn lines(text: Seq<char>) -> Seq<Seq<char>> {
    lines_from(text, 0, 0)
}

/// The first line from `from` on whose length is not `n`, or the number of lines
/// if there is none.
pub open spec fn first_ragged(ls: Seq<Seq<char>>, n: int, from: int) -> int
    decreases ls.len() - from,
{
    if from >= ls.len() {
        ls.len() as int
    } else if ls[from].len() != n {
        from
    } else {
        first_ragged(ls, n, from + 1)
    }
}

/// The size of the grid that a text holds: the number of its lines, if the text is
/// not empty, the number is even, and every line has that many characters.
pub open spec fn text_size(text: Seq<char>) -> Result<nat, GridSizeError> {
    let ls = lines(text);
    let bad = first_ragged(ls, ls.len() as int, 0);
    if text.len() == 0 {
        Err(GridSizeError::EmptyGrid)
    } else if ls.len() % 2 == 1 {
        Err(GridSizeError::OddNumberSize)
    } else if bad < ls.len() {
        Err(GridSizeError::NotASquare(bad as usize))
    } else {
        Ok(ls.len())
    }
}

/// Every character of every line stands for a cell.
pub open spec fn all_cells(ls: Seq<Seq<char>>) -> bool {
    forall|i: int, j: int|
        0 <= i < ls.len() && 0 <= j < ls[i].len() ==> cell_of(#[trigger] ls[i][j]) is Some
}

/// The board whose rows are the lines `ls`.
pub open spec fn board_of(ls: Seq<Seq<char>>) -> Board {
    Board {
        size: ls.len(),
        rows: Seq::new(ls.len(), |r: int| Seq::new(ls.len(), |c: int| cell_or_empty(ls[r][c]))),
    }
}

/// The board that a text holds, or why it holds none: its size is wrong, or, the
/// size being right, some character stands for no cell.
pub open spec fn decoded(text: Seq<char>) -> Result<Board, GridParseError> {
    match text_size(text) {
        Err(e) => Err(GridParseError::BadSize(e)),
        Ok(n) => if all_cells(lines(text)) {
            Ok(board_of(lines(text)))
        } else {
            Err(GridParseError::UnexpectedCharacter)
        },
    }
}

/// The character sequences that a sequence of vectors holds.
pub open spec fn line_views(ls: Seq<Vec<char>>) -> Seq<Seq<char>> {
    Seq::new(ls.len(), |i: int| ls[i]@)
}

/// A text that is not empty has a line.
pub proof fn lemma_lines_nonempty(text: Seq<char>, start: int, pos: int)
    requires
        0 <= start <= pos <= text.len(),
        start < text.len(),
    ensures
        lines_from(text, start, pos).len() > 0,
    decreases text.len() - pos,
{
    if pos < text.len() && text[pos] != '\n' {
        lemma_lines_nonempty(text, start, pos + 1);
    }
}

/// What the first ragged line is: a line of another length than `n` with none
/// such before it, or the number of lines.
pub proof fn lemma_first_ragged(ls: Seq<Seq<char>>, n: int, from: int)
    requires
        0 <= from <= ls.len(),
    ensures
        from <= first_ragged(ls, n, from) <= ls.len(),
        first_ragged(ls, n, from) < ls.len() ==> ls[first_ragged(ls, n, from)].len() != n,
        forall|i: int| from <= i < first_ragged(ls, n, from) ==> (#[trigger] ls[i]).len() == n,
    decreases ls.len() - from,
{
    if from < ls.len() && ls[from].len() == n {
        lemma_first_ragged(ls, n, from + 1);
    }
}

/// Collects the characters of a string.
pub fn chars_of(s: &str) -> (text: Vec<char>)
    ensures
        text@ == s@,
{
    let mut text: Vec<char> = Vec::new();
    for c in it: s.chars()
        invariant
            it.seq() == s@,
            text@ == s@.take(it.index() as int),
    {
        text.push(c);
    }
    text
}

/// Splits a text into its lines.
pub fn split_lines(text: &Vec<char>) -> (ls: Vec<Vec<char>>)
    ensures
        line_views(ls@) == lines(text@),
{
    let mut ls: Vec<Vec<char>> = Vec::new();
    let mut line: Vec<char> = Vec::new();
    let mut start: usize = 0;
    let mut pos: usize = 0;
    let len = text.len();
    assert(line_views(ls@) + lines_from(text@, 0, 0) =~= lines(text@));
    while pos < len
        invariant
            len == text@.len(),
            start <= pos <= len,
            line@ == text@.subrange(start as int, pos as int),
            line_views(ls@) + lines_from(text@, start as int, pos as int) == lines(text@),
        decreases len - pos,
    {
        let c = text[pos];
        if c == '\n' {
            proof {
                let rest = lines_from(text@, pos + 1, pos + 1);
                assert(line_views(ls@.push(line)) + rest =~= line_views(ls@) + (seq![line@] + rest));
            }
            ls.push(line);
            line = Vec::new();
            start = pos + 1;
            assert(line@ =~= text@.subrange(start as int, pos + 1));
        } else {
            line.push(c);
            assert(line@ =~= text@.subrange(start as int, pos + 1));
        }
        pos += 1;
    }
    if start < len {
        proof {
            assert(line_views(ls@.push(line)) =~= line_views(ls@) + seq![line@]);
        }
        ls.push(line);
    } else {
        assert(line_views(ls@) + Seq::<Seq<char>>::empty() =~= line_views(ls@));
    }
    ls
}

/// Verifies that the grid encoded in the string is properly sized.
/// If successful, returns the size of the grid.
///
/// # Errors
///
/// Returns an error if the grid is not a square of non-nul, even size.
pub fn size_from_string(s: &str) -> (res: Result<usize, GridSizeError>)
    ensures
        match res {
            Ok(n) => text_size(s@) == Ok::<nat, GridSizeError>(n as nat),
            Err(e) => text_size(s@) == Err::<nat, GridSizeError>(e),
        },
{
    let text = chars_of(s);
    if text.len() == 0 {
        return Err(GridSizeError::EmptyGrid);
    }
    let ls = split_lines(&text);
    let size = ls.len();
    if size % 2 == 1 {
        return Err(GridSizeError::OddNumberSize);
    }
    let ghost all = lines(s@);
    let mut i: usize = 0;
    proof {
        lemma_first_ragged(all, size as int, 0);
    }
    while i < size
        invariant
            size == ls@.len(),
            size % 2 == 0,
            s@.len() > 0,
            all == lines(s@),
            all == line_views(ls@),
            i <= size,
            first_ragged(all, size as int, 0) == first_ragged(all, size as int, i as int),
        decreases size - i,
    {
        assert(all[i as int] == ls@[i as int]@);
        if ls[i].len() != size {
            assert(first_ragged(all, size as int, i as int) == i);
            return Err(GridSizeError::NotASquare(i));
        }
        i += 1;
    }
    Ok(size)
}

/// Finds the cell that a character stands for, if it stands for one.
pub fn cell_from_char(c: char) -> (res: Option<Cell>)
    ensures
        res == cell_of(c),
{
    if c == '0' {
        Some(Cell::Zero)
    } else if c == '1' {
        Some(Cell::One)
    } else if c == '.' {
        Some(Cell::Empty)
    } else {
        None
    }
}

/// The text of a line of cells: the character of each cell.
pub open spec fn row_text(line: Seq<Cell>) -> Seq<char> {
    Seq::new(line.len(), |c: int| symbol(line[c]))
}

/// The text of the rows of a board before row `r`, each followed by a line break.
pub open spec fn rendered_upto(b: Board, r: int) -> Seq<char>
    decreases r,
{
    if r <= 0 {
        Seq::empty()
    } else {
        rendered_upto(b, r - 1) + row_text(b.row(r - 1)) + seq!['\n']
    }
}

/// The text of a board: its rows from the top, each followed by a line break.
pub open spec fn rendered(b: Board) -> Seq<char> {
    rendered_upto(b, b.size as int)
}

/// The text that shows a cell against the cell of a reference grid: the plain
/// character where the two are the same; in colour where the reference was empty,
/// cyan for a zero and yellow for a one; in red where the reference held something
/// else, which never happens between a grid and its solution.
pub open spec fn diff_piece(cell: Cell, reference: Cell) -> Seq<char> {
    match cell {
        Cell::Zero => if reference == cell {
            "0"@
        } else if reference == Cell::Empty {
            "\u{1b}[36m0\u{1b}[0m"@
        } else {
            "\u{1b}[31m0\u{1b}[0m"@
        },
        Cell::One => if reference == cell {
            "1"@
        } else if reference == Cell::Empty {
            "\u{1b}[33m1\u{1b}[0m"@
        } else {
            "\u{1b}[31m1\u{1b}[0m"@
        },
        Cell::Empty => if reference == cell {
            "."@
        } else {
            "\u{1b}[31m.\u{1b}[0m"@
        },
    }
}

/// The text that shows the first `k` cells of a line against a reference line.
pub open spec fn diff_row_upto(line: Seq<Cell>, reference: Seq<Cell>, k: int) -> Seq<char>
    decreases k,
{
    if k <= 0 {
        Seq::empty()
    } else {
        diff_row_upto(line, reference, k - 1) + diff_piece(line[k - 1], reference[k - 1])
    }
}

/// The text that shows the rows of a board before row `r` against a reference
/// board, each followed by a line break.
pub open spec fn diff_upto(b: Board, reference: Board, r: int) -> Seq<char>
    decreases r,
{
    if r <= 0 {
        Seq::empty()
    } else {
        diff_upto(b, reference, r - 1) + diff_row_upto(
            b.row(r - 1),
            reference.row(r - 1),
            b.size as int,
        ) + seq!['\n']
    }
}

/// The text that shows a board against a reference board of the same size; the
/// plain text of the board if the sizes differ.
pub open spec fn diff_rendered(b: Board, reference: Board) -> Seq<char> {
    if b.size == reference.size {
        diff_upto(b, reference, b.size as int)
    } else {
        rendered(b)
    }
}

/// Gives the character that stands for a cell, as a string.
pub fn symbol_of(cell: Cell) -> (s: &'static str)
    ensures
        s@ == seq![symbol(cell)],
{
    proof {
        reveal_strlit("0");
        reveal_strlit("1");
        reveal_strlit(".");
    }
    let s = match cell {
        Cell::Zero => "0",
        Cell::One => "1",
        Cell::Empty => ".",
    };
    assert(s@ =~= seq![symbol(cell)]);
    s
}

/// Gives the text that shows a cell against the cell of a reference grid.
pub fn diff_piece_of(cell: Cell, reference: Cell) -> (s: &'static str)
    ensures
        s@ == diff_piece(cell, reference),
{
    match cell {
        Cell::Zero => if reference == cell {
            "0"
        } else if reference.is_empty() {
            "\u{1b}[36m0\u{1b}[0m"
        } else {
            "\u{1b}[31m0\u{1b}[0m"
        },
        Cell::One => if reference == cell {
            "1"
        } else if reference.is_empty() {
            "\u{1b}[33m1\u{1b}[0m"
        } else {
            "\u{1b}[31m1\u{1b}[0m"
        },
        Cell::Empty => if reference == cell {
            "."
        } else {
            "\u{1b}[31m.\u{1b}[0m"
        },
    }
}

impl Grid {
    /// Decodes a grid from its text: one line per row, `0`, `1` or `.` for each
    /// cell. The line break after the last row may be missing.
    ///
    /// # Errors
    ///
    /// Returns an error if the text is empty, if the number of its lines is odd, if
    /// a line has not as many characters as there are lines, or, failing these, if
    /// a character is none of `0`, `1`, `.` and the line break.
    pub fn from_str(s: &str) -> (res: Result<Grid, GridParseError>)
        ensures
            match res {
                Ok(grid) => decoded(s@) == Ok::<Board, GridParseError>(grid@),
                Err(e) => decoded(s@) == Err::<Board, GridParseError>(e),
            },
    {
        let size = match size_from_string(s) {
            Ok(n) => n,
            Err(e) => {
                return Err(GridParseError::from(e));
            },
        };
        let text = chars_of(s);
        let ls = split_lines(&text);
        let ghost all = lines(s@);
        let ghost n = size as int;
        proof {
            lemma_first_ragged(all, n, 0);
            lemma_lines_nonempty(s@, 0, 0);
        }
        let mut cells: Vec<Cell> = Vec::new();
        let mut r: usize = 0;
        while r < size
            invariant
                n == size,
                0 < n,
                all == lines(s@),
                all == line_views(ls@),
                all.len() == n,
                text_size(s@) == Ok::<nat, GridSizeError>(size as nat),
                forall|i: int| 0 <= i < n ==> (#[trigger] all[i]).len() == n,
                r <= size,
                cells@ =~= Seq::new(
                    (r * n) as nat,
                    |k: int| cell_or_empty(all[k / n][k % n]),
                ),
                forall|i: int, j: int|
                    0 <= i < r && 0 <= j < n ==> cell_of(#[trigger] all[i][j]) is Some,
            decreases size - r,
        {
            let mut c: usize = 0;
            assert(r * n + 0 == r * n);
            while c < size
                invariant
                    n == size,
                    0 < n,
                    all == lines(s@),
                    all == line_views(ls@),
                    all.len() == n,
                    text_size(s@) == Ok::<nat, GridSizeError>(size as nat),
                    forall|i: int| 0 <= i < n ==> (#[trigger] all[i]).len() == n,
                    r < size,
                    c <= size,
                    0 <= r * n + c,
                    cells@ =~= Seq::new(
                        (r * n + c) as nat,
                        |k: int| cell_or_empty(all[k / n][k % n]),
                    ),
                    forall|i: int, j: int|
                        0 <= i < r && 0 <= j < n ==> cell_of(#[trigger] all[i][j]) is Some,
                    forall|j: int| 0 <= j < c ==> cell_of(#[trigger] all[r as int][j]) is Some,
                decreases size - c,
            {
                assert(all[r as int] == ls@[r as int]@);
                let ch = ls[r][c];
                assert(ch == all[r as int][c as int]);
                let cell = match cell_from_char(ch) {
                    Some(cell) => cell,
                    None => {
                        assert(!all_cells(all));
                        return Err(GridParseError::UnexpectedCharacter);
                    },
                };
                proof {
                    lemma_flat_index(n, r as int, c as int);
                    assert(flat_index(n, r as int, c as int) == r * n + c);
                }
                cells.push(cell);
                c += 1;
            }
            proof {
                assert((r + 1) * n == r * n + n) by (nonlinear_arith);
            }
            r += 1;
        }
        proof {
            assert((r * n) as nat == size * size);
            assert(all_cells(all));
        }
        let grid = Grid::from_parts(cells, size);
        proof {
            let target = board_of(all);
            assert forall|i: int| 0 <= i < target.size implies (#[trigger] target.rows[i]).len()
                == target.size by {}
            assert forall|i: int, j: int| grid@.has(i, j) implies grid@.at(i, j) == target.at(
                i,
                j,
            ) by {
                lemma_flat_index(n, i, j);
            }
            lemma_board_ext(grid@, target);
        }
        Ok(grid)
    }

    /// Encodes the grid to a string: one line per row, `0`, `1` or `.` for each
    /// cell, and a line break after each row.
    pub fn to_string(&self) -> (out: String)
        ensures
            out@ == rendered(self@),
    {
        let size = self.size();
        let mut out = String::new();
        let mut r: usize = 0;
        proof {
            reveal_strlit("\n");
        }
        while r < size
            invariant
                self@.wf(),
                size == self@.size,
                r <= size,
                out@ == rendered_upto(self@, r as int),
                "\n"@ =~= seq!['\n'],
            decreases size - r,
        {
            let ghost start = out@;
            let ghost line = row_text(self@.row(r as int));
            let mut c: usize = 0;
            assert(out@ =~= start + line.take(0));
            while c < size
                invariant
                    self@.wf(),
                    size == self@.size,
                    r < size,
                    c <= size,
                    line == row_text(self@.row(r as int)),
                    out@ == start + line.take(c as int),
                decreases size - c,
            {
                let piece = symbol_of(self.get(r, c));
                out.append(piece);
                assert(out@ =~= start + line.take(c + 1));
                c += 1;
            }
            out.append("\n");
            assert(line.take(size as int) =~= line);
            r += 1;
        }
        out
    }

    /// Suitable for printing in terminals.
    ///
    /// Encodes the grid as a printable string containing ANSI escape codes.
    /// The grid is compared to a reference grid.
    /// The cells that differ from the reference will be displayed in color.
    ///
    /// If the grids have different sizes, the grid is encoded without colors.
    ///
    /// # Warning
    ///
    /// A red-colored cell signals that a `0` or a `1` from the reference grid
    /// was overwritten. (Which, if `reference` is the grid that was given
    /// and `self` is one of its solutions, should _never_ happen.)
    pub fn to_string_diff(&self, reference: &Grid) -> (out: String)
        ensures
            out@ == diff_rendered(self@, reference@),
    {
        let size = self.size();
        if reference.size() != size {
            return self.to_string();
        }
        let mut out = String::new();
        let mut r: usize = 0;
        proof {
            reveal_strlit("\n");
        }
        while r < size
            invariant
                self@.wf(),
                reference@.wf(),
                size == self@.size,
                size == reference@.size,
                r <= size,
                out@ == diff_upto(self@, reference@, r as int),
                "\n"@ =~= seq!['\n'],
            decreases size - r,
        {
            let mut c: usize = 0;
            let ghost start = out@;
            assert(out@ =~= start + diff_row_upto(
                self@.row(r as int),
                reference@.row(r as int),
                0,
            ));
            while c < size
                invariant
                    self@.wf(),
                    reference@.wf(),
                    size == self@.size,
                    size == reference@.size,
                    r < size,
                    c <= size,
                    out@ == start + diff_row_upto(
                        self@.row(r as int),
                        reference@.row(r as int),
                        c as int,
                    ),
                decreases size - c,
            {
                let ghost row_before = diff_row_upto(
                    self@.row(r as int),
                    reference@.row(r as int),
                    c as int,
                );
                let piece = diff_piece_of(self.get(r, c), reference.get(r, c));
                out.append(piece);
                assert(out@ =~= start + (row_before + piece@));
                c += 1;
            }
            out.append("\n");
            r += 1;
        }
        out
    }
}

impl core::str::FromStr for Grid {
    type Err = GridParseError;

    /// Decodes a grid from its text, as [`Grid::from_str`] does.
    fn from_str(s: &str) -> (res: Result<Grid, GridParseError>)
        ensures
            match res {
                Ok(grid) => decoded(s@) == Ok::<Board, GridParseError>(grid@),
                Err(e) => decoded(s@) == Err::<Board, GridParseError>(e),
            },
    {
        Grid::from_str(s)
    }
}

/// Displays a colored diff in ANSI terminals.
///
/// The first grid is used as a reference and the second grid will be displayed.
/// Cells in the second grid that differ from the reference will be displayed
/// in color.
///
/// If the grids have different sizes, the second grid will be displayed normally.
///
/// # Warning
///
/// A red-colored cell signals that a `0` or a `1` from the reference grid
/// was overwritten. If the first grid is the grid that was given and the second
/// is one of its solutions, this should *never* happen.
#[derive(Copy, Clone, Debug)]
pub struct ANSIGridDiff<'a>(pub &'a Grid, pub &'a Grid);

impl<'a> ANSIGridDiff<'a> {
    /// Encodes the second grid, with colors where it differs from the first.
    pub fn to_string(&self) -> (out: String)
        ensures
            out@ == diff_rendered(self.1@, self.0@),
    {
        self.1.to_string_diff(self.0)
    }
}

} // verus!
