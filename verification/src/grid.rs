//! The grid: its storage, construction and cell access.

use crate::board::{flat_index, lemma_board_ext, lemma_flat_coord, lemma_flat_index, Board};
use crate::cell::Cell;
use crate::error::GridSizeError;
use vstd::prelude::*;

verus! {

/// A container for takuzu grid manipulation.
///
/// A grid is a square of even, positive size. Its cells may be changed freely:
/// the grid does not have to abide by the rules of the game, and
/// [`is_legal`](Grid::is_legal) tells whether it does.
#[derive(Debug, Eq, PartialEq, Hash)]
pub struct Grid {
    pub(crate) cells: Vec<Cell>,
    pub(crate) size: usize,
}

impl View for Grid {
    type V = Board;

    closed spec fn view(&self) -> Board {
        Board::from_flat(self.size as nat, self.cells@)
    }
}

impl Grid {
    #[verifier::type_invariant]
    spec fn well_sized(&self) -> bool {
        &&& self.size > 0
        &&& self.size % 2 == 0
        &&& self.cells@.len() == self.size * self.size
    }

    /// What the stored size and cells say of the board that the grid stands for.
    proof fn lemma_view(&self)
        requires
            self.well_sized(),
        ensures
            self@.wf(),
            self@.size == self.size,
            self@.flat() == self.cells@,
            forall|r: int, c: int|
                self@.has(r, c) ==> #[trigger] self@.at(r, c) == self.cells@[flat_index(
                    self.size as int,
                    r,
                    c,
                )],
    {
        crate::board::lemma_flat_round_trip(self.size as nat, self.cells@);
    }

    /// Creates a `Grid` from an owned array of `Cell`s, given row after row,
    /// and the size of the grid.
    pub fn from_parts(cells: Vec<Cell>, size: usize) -> (grid: Grid)
        requires
            size != 0,
            size % 2 == 0,
            cells@.len() == size * size,
        ensures
            grid@ == Board::from_flat(size as nat, cells@),
            grid@.wf(),
    {
        let grid = Grid { cells, size };
        proof {
            grid.lemma_view();
        }
        grid
    }

    /// Creates an new empty grid of a given size.
    ///
    /// # Errors
    ///
    /// Returns an error if the size is an odd number or 0.
    pub fn new(size: usize) -> (res: Result<Grid, GridSizeError>)
        requires
            size * size <= usize::MAX,
        ensures
            size == 0 ==> res == Err::<Grid, GridSizeError>(GridSizeError::EmptyGrid),
            size % 2 == 1 ==> res == Err::<Grid, GridSizeError>(GridSizeError::OddNumberSize),
            size != 0 && size % 2 == 0 ==> res is Ok && res->Ok_0@ == Board::blank(size as nat)
                && res->Ok_0@.wf(),
    {
        if size == 0 {
            Err(GridSizeError::EmptyGrid)
        } else if size % 2 == 1 {
            Err(GridSizeError::OddNumberSize)
        } else {
            let total: usize = size * size;
            let mut cells: Vec<Cell> = Vec::with_capacity(total);
            let mut k: usize = 0;
            while k < total
                invariant
                    k <= total,
                    cells@.len() == k,
                    forall|i: int| 0 <= i < k ==> cells@[i] == Cell::Empty,
                decreases total - k,
            {
                cells.push(Cell::Empty);
                k += 1;
            }
            let grid = Grid { cells, size };
            proof {
                grid.lemma_view();
                let blank = Board::blank(size as nat);
                assert forall|r: int, c: int| grid@.has(r, c) implies grid@.at(r, c) == blank.at(
                    r,
                    c,
                ) by {
                    lemma_flat_index(size as int, r, c);
                }
                lemma_board_ext(grid@, blank);
            }
            Ok(grid)
        }
    }

    /// Returns the number of rows/columns of the array.
    pub fn size(&self) -> (n: usize)
        ensures
            n == self@.size,
            self@.wf(),
    {
        proof {
            use_type_invariant(self);
            self.lemma_view();
        }
        self.size
    }

    /// Returns the cell in row `row` and column `col`.
    pub fn get(&self, row: usize, col: usize) -> (cell: Cell)
        requires
            self@.has(row as int, col as int),
        ensures
            cell == self@.at(row as int, col as int),
    {
        proof {
            use_type_invariant(self);
            self.lemma_view();
            lemma_flat_index(self.size as int, row as int, col as int);
            assert(0 <= row * self.size) by (nonlinear_arith);
        }
        let total = self.cells.len();
        assert(row * self.size + col < total);
        self.cells[row * self.size + col]
    }

    /// Replaces the cell in row `row` and column `col` by `cell`.
    pub fn set(&mut self, row: usize, col: usize, cell: Cell)
        requires
            old(self)@.has(row as int, col as int),
        ensures
            final(self)@ == old(self)@.put(row as int, col as int, cell),
            final(self)@.wf(),
    {
        proof {
            use_type_invariant(&*self);
            self.lemma_view();
            lemma_flat_index(self.size as int, row as int, col as int);
            assert(0 <= row * self.size) by (nonlinear_arith);
        }
        let ghost before = *self;
        let total = self.cells.len();
        assert(row * self.size + col < total);
        let k = row * self.size + col;
        self.cells[k] = cell;
        proof {
            self.lemma_view();
            let n = self.size as int;
            let target = before@.put(row as int, col as int, cell);
            crate::board::lemma_put(before@, row as int, col as int, cell);
            assert forall|r: int, c: int| self@.has(r, c) implies self@.at(r, c) == target.at(
                r,
                c,
            ) by {
                lemma_flat_index(n, r, c);
                if r != row || c != col {
                    assert(flat_index(n, r, c) != k);
                    assert(before@.has(r, c));
                }
            }
            lemma_board_ext(self@, target);
        }
    }

    /// Extracts a slice containing the entire underlying array, row after row.
    pub fn as_slice(&self) -> (cells: &[Cell])
        ensures
            cells@ == self@.flat(),
    {
        proof {
            use_type_invariant(self);
            self.lemma_view();
        }
        self.cells.as_slice()
    }

    /// Returns `true` if the grid contains no `Empty` cell.
    pub fn is_filled(&self) -> (b: bool)
        ensures
            b == self@.full(),
    {
        proof {
            use_type_invariant(self);
            self.lemma_view();
        }
        let mut k: usize = 0;
        while k < self.cells.len()
            invariant
                self.well_sized(),
                self@.wf(),
                self@.size == self.size,
                forall|r: int, c: int|
                    self@.has(r, c) ==> #[trigger] self@.at(r, c) == self.cells@[flat_index(
                        self.size as int,
                        r,
                        c,
                    )],
                k <= self.cells@.len(),
                forall|i: int| 0 <= i < k ==> (#[trigger] self.cells@[i]).filled(),
            decreases self.cells@.len() - k,
        {
            if self.cells[k].is_empty() {
                proof {
                    lemma_flat_coord(self.size as int, k as int);
                    let r = k as int / self.size as int;
                    let c = k as int % self.size as int;
                    assert(self@.has(r, c));
                    assert(!self@.at(r, c).filled());
                }
                return false;
            }
            k += 1;
        }
        proof {
            assert forall|r: int, c: int| self@.has(r, c) implies (#[trigger] self@.at(
                r,
                c,
            )).filled() by {
                lemma_flat_index(self.size as int, r, c);
            }
        }
        true
    }

    /// Returns the coordinates of the first `Empty` cell, rows from the top and
    /// each row from the left, or `None` if the grid is filled.
    pub fn next_empty(&self) -> (res: Option<(usize, usize)>)
        ensures
            res is None <==> self@.full(),
            res matches Some((row, col)) ==> {
                &&& self@.has(row as int, col as int)
                &&& self@.at(row as int, col as int) == Cell::Empty
                &&& forall|r: int, c: int|
                    self@.has(r, c) && (r < row || (r == row && c < col)) ==> (#[trigger] self@.at(
                        r,
                        c,
                    )).filled()
            },
    {
        proof {
            use_type_invariant(self);
            self.lemma_view();
        }
        let mut k: usize = 0;
        while k < self.cells.len()
            invariant
                self.well_sized(),
                self@.wf(),
                self@.size == self.size,
                forall|r: int, c: int|
                    self@.has(r, c) ==> #[trigger] self@.at(r, c) == self.cells@[flat_index(
                        self.size as int,
                        r,
                        c,
                    )],
                k <= self.cells@.len(),
                forall|i: int| 0 <= i < k ==> (#[trigger] self.cells@[i]).filled(),
            decreases self.cells@.len() - k,
        {
            if self.cells[k].is_empty() {
                let row = k / self.size;
                let col = k % self.size;
                proof {
                    let n = self.size as int;
                    lemma_flat_coord(n, k as int);
                    assert(self@.has(row as int, col as int));
                    assert(!self@.at(row as int, col as int).filled());
                    assert forall|r: int, c: int|
                        self@.has(r, c) && (r < row || (r == row && c < col)) implies (
                    #[trigger] self@.at(r, c)).filled() by {
                        lemma_flat_index(n, r, c);
                        if r < row {
                            assert(r * n + n <= row * n) by (nonlinear_arith)
                                requires
                                    r + 1 <= row,
                                    n > 0,
                            ;
                        }
                        assert(flat_index(n, r, c) < k);
                    }
                }
                return Some((row, col));
            }
            k += 1;
        }
        proof {
            assert forall|r: int, c: int| self@.has(r, c) implies (#[trigger] self@.at(
                r,
                c,
            )).filled() by {
                lemma_flat_index(self.size as int, r, c);
            }
        }
        None
    }
}

impl Clone for Grid {
    fn clone(&self) -> (copy: Grid)
        ensures
            copy@ == self@,
            copy@.wf(),
    {
        proof {
            use_type_invariant(self);
            self.lemma_view();
        }
        let cells = self.cells.clone();
        assert(cells@ =~= self.cells@);
        Grid { cells, size: self.size }
    }
}

} // verus!
