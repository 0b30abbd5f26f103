//! The mathematical model of a grid: a square of cells addressed by row and column.

use crate::cell::Cell;
use vstd::prelude::*;

verus! {

/// A square board of cells, the value that a [`Grid`](crate::grid::Grid) stands for.
pub struct Board {
    /// The number of rows, which is also the number of columns.
    pub size: nat,
    /// The rows from top to bottom, each from left to right.
    pub rows: Seq<Seq<Cell>>,
}

/// The position of the cell `(r, c)` in the row-major sequence of a board of size `n`.
pub open spec fn flat_index(n: int, r: int, c: int) -> int {
    r * n + c
}

impl Board {
    /// The size is positive and even, and there are `size` rows of `size` cells.
    pub open spec fn wf(self) -> bool {
        &&& self.size > 0
        &&& self.size % 2 == 0
        &&& self.rows.len() == self.size
        &&& forall|r: int| 0 <= r < self.size ==> (#[trigger] self.rows[r]).len() == self.size
    }

    /// Whether `(r, c)` is a coordinate of the board.
    pub open spec fn has(self, r: int, c: int) -> bool {
        0 <= r < self.size && 0 <= c < self.size
    }

    /// The cell in row `r` and column `c`.
    pub open spec fn at(self, r: int, c: int) -> Cell {
        self.rows[r][c]
    }

    /// The board with the cell `(r, c)` replaced by `v`.
    pub open spec fn put(self, r: int, c: int, v: Cell) -> Board {
        Board { size: self.size, rows: self.rows.update(r, self.rows[r].update(c, v)) }
    }

    /// The most that a row or column may hold of either number.
    pub open spec fn half(self) -> int {
        self.size as int / 2
    }

    /// Row `r`, from left to right.
    pub open spec fn row(self, r: int) -> Seq<Cell> {
        self.rows[r]
    }

    /// Column `c`, from top to bottom.
    pub open spec fn col(self, c: int) -> Seq<Cell> {
        Seq::new(self.size, |r: int| self.rows[r][c])
    }

    /// The board of size `n` with no cell filled.
    pub open spec fn blank(n: nat) -> Board {
        Board { size: n, rows: Seq::new(n, |r: int| Seq::new(n, |c: int| Cell::Empty)) }
    }

    /// The board of size `n` whose cells are those of `cells`, row after row.
    pub open spec fn from_flat(n: nat, cells: Seq<Cell>) -> Board {
        Board {
            size: n,
            rows: Seq::new(n, |r: int| Seq::new(n, |c: int| cells[flat_index(n as int, r, c)])),
        }
    }

    /// The cells of the board, row after row.
    pub open spec fn flat(self) -> Seq<Cell> {
        Seq::new(self.size * self.size, |k: int| self.at(k / self.size as int, k % self.size as int))
    }

    /// Whether every cell holds a number.
    pub open spec fn full(self) -> bool {
        forall|r: int, c: int| self.has(r, c) ==> (#[trigger] self.at(r, c)).filled()
    }

    /// Whether `self` has the size of `other` and keeps every number that `other` holds.
    pub open spec fn extends(self, other: Board) -> bool {
        &&& self.size == other.size
        &&& forall|r: int, c: int|
            other.has(r, c) && (#[trigger] other.at(r, c)).filled() ==> self.at(r, c) == other.at(
                r,
                c,
            )
    }
}

/// A coordinate of a board of size `n` has its place in the row-major sequence,
/// and the place gives the coordinate back.
pub proof fn lemma_flat_index(n: int, r: int, c: int)
    requires
        0 <= r < n,
        0 <= c < n,
    ensures
        0 <= flat_index(n, r, c) < n * n,
        flat_index(n, r, c) / n == r,
        flat_index(n, r, c) % n == c,
{
    assert(0 <= r * n <= (n - 1) * n) by (nonlinear_arith)
        requires
            0 <= r <= n - 1,
            n > 0,
    ;
    assert((n - 1) * n + n == n * n) by (nonlinear_arith);
    vstd::arithmetic::div_mod::lemma_fundamental_div_mod_converse(r * n + c, n, r, c);
}

/// A place in the row-major sequence of a board of size `n` is that of one coordinate.
pub proof fn lemma_flat_coord(n: int, k: int)
    requires
        0 < n,
        0 <= k < n * n,
    ensures
        0 <= k / n < n,
        0 <= k % n < n,
        flat_index(n, k / n, k % n) == k,
{
    vstd::arithmetic::div_mod::lemma_fundamental_div_mod(k, n);
    vstd::arithmetic::div_mod::lemma_mod_bound(k, n);
    let q = k / n;
    assert(n * q == q * n) by (nonlinear_arith);
    assert(q < n) by (nonlinear_arith)
        requires
            q * n <= k,
            k < n * n,
            n > 0,
    ;
    assert(0 <= q) by (nonlinear_arith)
        requires
            q * n + n > k,
            k >= 0,
            n > 0,
    ;
}

/// Two well-formed boards of one size that agree on every cell are equal.
pub proof fn lemma_board_ext(a: Board, b: Board)
    requires
        a.wf(),
        b.wf(),
        a.size == b.size,
        forall|r: int, c: int| a.has(r, c) ==> a.at(r, c) == b.at(r, c),
    ensures
        a == b,
{
    assert forall|r: int| 0 <= r < a.size implies a.rows[r] == b.rows[r] by {
        assert forall|c: int| 0 <= c < a.size implies a.rows[r][c] == b.rows[r][c] by {
            assert(a.has(r, c));
            assert(a.at(r, c) == b.at(r, c));
        }
        assert(a.rows[r] =~= b.rows[r]);
    }
    assert(a.rows =~= b.rows);
}

/// Replacing a cell changes that cell and no other, and keeps the board well formed.
pub proof fn lemma_put(b: Board, r: int, c: int, v: Cell)
    requires
        b.wf(),
        b.has(r, c),
    ensures
        b.put(r, c, v).wf(),
        b.put(r, c, v).size == b.size,
        b.put(r, c, v).at(r, c) == v,
        forall|r2: int, c2: int|
            b.has(r2, c2) && (r2 != r || c2 != c) ==> #[trigger] b.put(r, c, v).at(r2, c2) == b.at(
                r2,
                c2,
            ),
{
    let p = b.put(r, c, v);
    assert forall|r2: int| 0 <= r2 < p.size implies (#[trigger] p.rows[r2]).len() == p.size by {
        assert(b.rows[r2].len() == b.size);
    }
}

/// The row-major sequence of a board determines the board, and the other way round.
pub proof fn lemma_flat_round_trip(n: nat, cells: Seq<Cell>)
    requires
        0 < n,
        cells.len() == n * n,
    ensures
        Board::from_flat(n, cells).flat() == cells,
{
    let b = Board::from_flat(n, cells);
    assert forall|k: int| 0 <= k < n * n implies b.flat()[k] == cells[k] by {
        lemma_flat_coord(n as int, k);
    }
    assert(b.flat() =~= cells);
}

} // verus!
