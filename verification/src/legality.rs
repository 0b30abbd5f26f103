//! Checking a grid, or the lines through one of its cells, against the rules.

use crate::cell::Cell;
use crate::grid::Grid;
use crate::rules::{count, count_upto};
use vstd::prelude::*;

verus! {

impl Grid {
    /// Counts the zeros and the ones of a row.
    pub fn row_counts(&self, row: usize) -> (n: (usize, usize))
        requires
            row < self@.size,
        ensures
            n.0 == count(self@.row(row as int), Cell::Zero),
            n.1 == count(self@.row(row as int), Cell::One),
            n.0 + n.1 <= self@.size,
    {
        let size = self.size();
        let mut zeros: usize = 0;
        let mut ones: usize = 0;
        let mut k: usize = 0;
        while k < size
            invariant
                self@.wf(),
                size == self@.size,
                row < size,
                k <= size,
                zeros == count_upto(self@.row(row as int), Cell::Zero, k as int),
                ones == count_upto(self@.row(row as int), Cell::One, k as int),
                zeros + ones <= k,
            decreases size - k,
        {
            match self.get(row, k) {
                Cell::Zero => {
                    zeros += 1;
                },
                Cell::One => {
                    ones += 1;
                },
                Cell::Empty => {},
            }
            k += 1;
        }
        (zeros, ones)
    }

    /// Counts the zeros and the ones of a column.
    pub fn col_counts(&self, col: usize) -> (n: (usize, usize))
        requires
            col < self@.size,
        ensures
            n.0 == count(self@.col(col as int), Cell::Zero),
            n.1 == count(self@.col(col as int), Cell::One),
            n.0 + n.1 <= self@.size,
    {
        let size = self.size();
        let mut zeros: usize = 0;
        let mut ones: usize = 0;
        let mut k: usize = 0;
        while k < size
            invariant
                self@.wf(),
                size == self@.size,
                col < size,
                k <= size,
                zeros == count_upto(self@.col(col as int), Cell::Zero, k as int),
                ones == count_upto(self@.col(col as int), Cell::One, k as int),
                zeros + ones <= k,
            decreases size - k,
        {
            match self.get(k, col) {
                Cell::Zero => {
                    zeros += 1;
                },
                Cell::One => {
                    ones += 1;
                },
                Cell::Empty => {},
            }
            k += 1;
        }
        (zeros, ones)
    }

    /// Tells whether row `i` is filled and row `j` is identical to it.
    pub fn rows_same(&self, i: usize, j: usize) -> (b: bool)
        requires
            i < self@.size,
            j < self@.size,
        ensures
            b == self@.same_rows(i as int, j as int),
    {
        let size = self.size();
        let mut k: usize = 0;
        while k < size
            invariant
                self@.wf(),
                size == self@.size,
                i < size,
                j < size,
                k <= size,
                forall|c: int|
                    0 <= c < k ==> (#[trigger] self@.at(i as int, c)).filled() && self@.at(
                        i as int,
                        c,
                    ) == self@.at(j as int, c),
            decreases size - k,
        {
            let cell = self.get(i, k);
            if !(cell.is_filled() && cell == self.get(j, k)) {
                return false;
            }
            k += 1;
        }
        true
    }

    /// Tells whether column `i` is filled and column `j` is identical to it.
    pub fn cols_same(&self, i: usize, j: usize) -> (b: bool)
        requires
            i < self@.size,
            j < self@.size,
        ensures
            b == self@.same_cols(i as int, j as int),
    {
        let size = self.size();
        let mut k: usize = 0;
        while k < size
            invariant
                self@.wf(),
                size == self@.size,
                i < size,
                j < size,
                k <= size,
                forall|r: int|
                    0 <= r < k ==> (#[trigger] self@.at(r, i as int)).filled() && self@.at(
                        r,
                        i as int,
                    ) == self@.at(r, j as int),
            decreases size - k,
        {
            let cell = self.get(k, i);
            if !(cell.is_filled() && cell == self.get(k, j)) {
                return false;
            }
            k += 1;
        }
        true
    }

    /// Verifies that the grid abides by rule 1.
    ///
    /// Rule 1: no more than two of either number adjacent to each other
    /// (both vertically and horizontally).
    pub fn check_rule1(&self) -> (ok: bool)
        ensures
            ok == self@.rule1(),
    {
        let size = self.size();
        let mut i: usize = 0;
        while i < size
            invariant
                self@.wf(),
                size == self@.size,
                i <= size,
                forall|r: int, c: int|
                    0 <= r < i && 0 <= c && c + 2 < size ==> !#[trigger] self@.row_run(r, c),
            decreases size - i,
        {
            let mut j: usize = 0;
            while j < size - 2
                invariant
                    self@.wf(),
                    size == self@.size,
                    i < size,
                    forall|c: int| 0 <= c < j ==> !#[trigger] self@.row_run(i as int, c),
                decreases size - j,
            {
                let cell = self.get(i, j);
                if cell.is_filled() && cell == self.get(i, j + 1) && cell == self.get(i, j + 2) {
                    assert(self@.row_run(i as int, j as int));
                    return false;
                }
                j += 1;
            }
            i += 1;
        }
        let mut i: usize = 0;
        while i < size - 2
            invariant
                self@.wf(),
                size == self@.size,
                forall|r: int, c: int|
                    0 <= r < size && 0 <= c && c + 2 < size ==> !#[trigger] self@.row_run(r, c),
                forall|r: int, c: int|
                    0 <= r < i && r + 2 < size && 0 <= c < size ==> !#[trigger] self@.col_run(r, c),
            decreases size - i,
        {
            let mut j: usize = 0;
            while j < size
                invariant
                    self@.wf(),
                    size == self@.size,
                    i + 2 < size,
                    j <= size,
                    forall|c: int| 0 <= c < j ==> !#[trigger] self@.col_run(i as int, c),
                decreases size - j,
            {
                let cell = self.get(i, j);
                if cell.is_filled() && cell == self.get(i + 1, j) && cell == self.get(i + 2, j) {
                    assert(self@.col_run(i as int, j as int));
                    return false;
                }
                j += 1;
            }
            i += 1;
        }
        true
    }

    /// Verifies that the grid abides by rule 2.
    ///
    /// Rule 2: each row and each column should contain an equal number of 0s and 1s.
    pub fn check_rule2(&self) -> (ok: bool)
        ensures
            ok == self@.rule2(),
    {
        let size = self.size();
        let nmax = size / 2;
        let mut i: usize = 0;
        while i < size
            invariant
                self@.wf(),
                size == self@.size,
                nmax == self@.half(),
                i <= size,
                forall|r: int| 0 <= r < i ==> #[trigger] self@.row_balanced(r),
            decreases size - i,
        {
            let n = self.row_counts(i);
            if n.0 > nmax || n.1 > nmax {
                assert(!self@.row_balanced(i as int));
                return false;
            }
            i += 1;
        }
        let mut i: usize = 0;
        while i < size
            invariant
                self@.wf(),
                size == self@.size,
                nmax == self@.half(),
                i <= size,
                forall|r: int| 0 <= r < size ==> #[trigger] self@.row_balanced(r),
                forall|c: int| 0 <= c < i ==> #[trigger] self@.col_balanced(c),
            decreases size - i,
        {
            let n = self.col_counts(i);
            if n.0 > nmax || n.1 > nmax {
                assert(!self@.col_balanced(i as int));
                return false;
            }
            i += 1;
        }
        true
    }

    /// Verifies that the grid abides by rule 3.
    ///
    /// Rule 3: no two rows and no two columns can be the same.
    pub fn check_rule3(&self) -> (ok: bool)
        ensures
            ok == self@.rule3(),
    {
        let size = self.size();
        let mut i: usize = 0;
        while i < size - 1
            invariant
                self@.wf(),
                size == self@.size,
                forall|a: int, b: int| 0 <= a < i && a < b < size ==> !#[trigger] self@.same_rows(a, b),
                forall|a: int, b: int| 0 <= a < i && a < b < size ==> !#[trigger] self@.same_cols(a, b),
            decreases size - i,
        {
            let mut j: usize = i + 1;
            while j < size
                invariant
                    self@.wf(),
                    size == self@.size,
                    i + 1 <= j <= size,
                    forall|b: int| i < b < j ==> !#[trigger] self@.same_rows(i as int, b),
                    forall|b: int| i < b < j ==> !#[trigger] self@.same_cols(i as int, b),
                decreases size - j,
            {
                if self.rows_same(i, j) {
                    return false;
                }
                if self.cols_same(i, j) {
                    return false;
                }
                j += 1;
            }
            i += 1;
        }
        true
    }

    /// Verifies that the grid does not currently violate any of the rules.
    ///
    /// Returns `true` if the grid is legal.
    pub fn is_legal(&self) -> (ok: bool)
        ensures
            ok == self@.legal(),
    {
        self.check_rule1() && self.check_rule2() && self.check_rule3()
    }

    /// Verifies that the cell with the given coordinates abides by rule 1.
    ///
    /// Rule 1: no more than two of either number adjacent to each other
    /// (both vertically and horizontally).
    pub fn check_cell_rule1(&self, row: usize, col: usize) -> (ok: bool)
        requires
            self@.has(row as int, col as int),
        ensures
            ok == self@.cell_rule1(row as int, col as int),
    {
        let size = self.size();
        let mut i: usize = if row >= 2 {
            row - 2
        } else {
            0
        };
        while i <= row && i + 2 < size
            invariant
                self@.wf(),
                size == self@.size,
                row < size,
                col < size,
                row - 2 <= i,
                forall|k: int|
                    0 <= k < i && k + 2 < size && k <= row <= k + 2 ==> !#[trigger] self@.col_run(
                        k,
                        col as int,
                    ),
            decreases size - i,
        {
            let cell = self.get(i, col);
            if cell.is_filled() && cell == self.get(i + 1, col) && cell == self.get(i + 2, col) {
                assert(self@.col_run(i as int, col as int));
                return false;
            }
            i += 1;
        }
        let mut j: usize = if col >= 2 {
            col - 2
        } else {
            0
        };
        while j <= col && j + 2 < size
            invariant
                self@.wf(),
                size == self@.size,
                row < size,
                col < size,
                col - 2 <= j,
                forall|k: int|
                    0 <= k && k + 2 < size && k <= row <= k + 2 ==> !#[trigger] self@.col_run(
                        k,
                        col as int,
                    ),
                forall|k: int|
                    0 <= k < j && k + 2 < size && k <= col <= k + 2 ==> !#[trigger] self@.row_run(
                        row as int,
                        k,
                    ),
            decreases size - j,
        {
            let cell = self.get(row, j);
            if cell.is_filled() && cell == self.get(row, j + 1) && cell == self.get(row, j + 2) {
                assert(self@.row_run(row as int, j as int));
                return false;
            }
            j += 1;
        }
        true
    }

    /// Verifies that the cell with the given coordinates abides by rule 2.
    ///
    /// Rule 2: each row and each column should contain an equal number of 0s and 1s.
    pub fn check_cell_rule2(&self, row: usize, col: usize) -> (ok: bool)
        requires
            self@.has(row as int, col as int),
        ensures
            ok == self@.cell_rule2(row as int, col as int),
    {
        let nmax = self.size() / 2;
        let in_row = self.row_counts(row);
        let in_col = self.col_counts(col);
        in_row.0 <= nmax && in_row.1 <= nmax && in_col.0 <= nmax && in_col.1 <= nmax
    }

    /// Verifies that the cell with the given coordinates abides by rule 3.
    ///
    /// Rule 3: no two rows and no two columns can be the same.
    pub fn check_cell_rule3(&self, row: usize, col: usize) -> (ok: bool)
        requires
            self@.has(row as int, col as int),
        ensures
            ok == self@.cell_rule3(row as int, col as int),
    {
        let size = self.size();
        let cell = self.get(row, col);
        let mut rows_abide = true;
        let mut i: usize = 0;
        while i < size
            invariant
                self@.wf(),
                size == self@.size,
                row < size,
                col < size,
                i <= size,
                cell == self@.at(row as int, col as int),
                rows_abide == forall|k: int|
                    0 <= k < i && k != row ==> !#[trigger] self@.same_rows(row as int, k),
            decreases size - i,
        {
            if i != row && self.get(i, col) == cell {
                if self.rows_same(row, i) {
                    rows_abide = false;
                }
            } else if i != row {
                assert(!self@.same_rows(row as int, i as int)) by {
                    assert(self@.at(row as int, col as int) != self@.at(i as int, col as int));
                }
            }
            i += 1;
        }
        let mut cols_abide = true;
        let mut j: usize = 0;
        while j < size
            invariant
                self@.wf(),
                size == self@.size,
                row < size,
                col < size,
                j <= size,
                cell == self@.at(row as int, col as int),
                cols_abide == forall|k: int|
                    0 <= k < j && k != col ==> !#[trigger] self@.same_cols(col as int, k),
            decreases size - j,
        {
            if j != col && self.get(row, j) == cell {
                if self.cols_same(col, j) {
                    cols_abide = false;
                }
            } else if j != col {
                assert(!self@.same_cols(col as int, j as int)) by {
                    assert(self@.at(row as int, col as int) != self@.at(row as int, j as int));
                }
            }
            j += 1;
        }
        rows_abide && cols_abide
    }

    /// Verifies that a certain cell does not violate any of the rules.
    ///
    /// Returns `true` if the value is legal.
    pub fn is_cell_legal(&self, row: usize, col: usize) -> (ok: bool)
        requires
            self@.has(row as int, col as int),
        ensures
            ok == self@.cell_legal(row as int, col as int),
    {
        self.get(row, col).is_empty() || (self.check_cell_rule1(row, col) && self.check_cell_rule2(
            row,
            col,
        ) && self.check_cell_rule3(row, col))
    }
}

} // verus!
