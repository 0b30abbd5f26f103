//! The deductions of rule 2: a line that holds half its size of one number
//! takes the other number in its empty cells.

use crate::board::Board;
use crate::cell::Cell;
use crate::deduce::lemma_refines_order;
use crate::rules::{count, count_upto, lemma_count_bounds, lemma_count_total};
use vstd::prelude::*;

verus! {

/// The number that rule 2 puts in the empty cells of a line with `zeros` zeros and
/// `ones` ones, where a line may hold `half` of each: the other number, once one
/// number has reached `half` and the other has not.
pub open spec fn quota_fill(half: int, zeros: int, ones: int) -> Option<Cell> {
    if zeros == half && ones != half {
        Some(Cell::One)
    } else if ones == half && zeros != half {
        Some(Cell::Zero)
    } else {
        None
    }
}

/// The cell `x`, or `v` where `x` is empty.
pub open spec fn or_else(x: Cell, v: Cell) -> Cell {
    if x == Cell::Empty {
        v
    } else {
        x
    }
}

impl Board {
    /// The board with `v` in the empty cells of row `r`.
    pub open spec fn with_row_filled(self, r: int, v: Cell) -> Board {
        Board {
            size: self.size,
            rows: self.rows.update(
                r,
                Seq::new(self.size, |c: int| or_else(self.rows[r][c], v)),
            ),
        }
    }

    /// The board with `v` in the empty cells of column `c`.
    pub open spec fn with_col_filled(self, c: int, v: Cell) -> Board {
        Board {
            size: self.size,
            rows: Seq::new(
                self.size,
                |r: int| self.rows[r].update(c, or_else(self.rows[r][c], v)),
            ),
        }
    }

    /// The number that rule 2 puts in the empty cells of row `r`, if any.
    pub open spec fn row_quota(self, r: int) -> Option<Cell> {
        quota_fill(self.half(), count(self.row(r), Cell::Zero), count(self.row(r), Cell::One))
    }

    /// The number that rule 2 puts in the empty cells of column `c`, if any.
    pub open spec fn col_quota(self, c: int) -> Option<Cell> {
        quota_fill(self.half(), count(self.col(c), Cell::Zero), count(self.col(c), Cell::One))
    }

    /// One step of rule 2: row `i` is filled, then column `i`. What goes into the
    /// column is decided by the numbers that it held before the row was filled.
    pub open spec fn rule2_step(self, i: int) -> Board {
        let first = match self.row_quota(i) {
            Some(v) => self.with_row_filled(i, v),
            None => self,
        };
        match self.col_quota(i) {
            Some(v) => first.with_col_filled(i, v),
            None => first,
        }
    }

    /// The steps of rule 2 for the rows and columns before `i`.
    pub open spec fn rule2_upto(self, i: int) -> Board
        decreases i,
    {
        if i <= 0 {
            self
        } else {
            self.rule2_upto(i - 1).rule2_step(i - 1)
        }
    }

    /// The board after one pass of rule 2: every row and column that holds half
    /// the size of one number, and less of the other, has its empty cells set to the
    /// other number.
    pub open spec fn after_rule2(self) -> Board {
        self.rule2_upto(self.size as int)
    }
}

/// What filling the empty cells of a row does to each cell.
pub proof fn lemma_with_row_filled(b: Board, r: int, v: Cell)
    requires
        b.wf(),
        0 <= r < b.size,
    ensures
        b.with_row_filled(r, v).wf(),
        b.with_row_filled(r, v).size == b.size,
        forall|r2: int, c2: int|
            b.has(r2, c2) ==> #[trigger] b.with_row_filled(r, v).at(r2, c2) == if r2 == r {
                or_else(b.at(r2, c2), v)
            } else {
                b.at(r2, c2)
            },
{
    let p = b.with_row_filled(r, v);
    assert forall|r2: int| 0 <= r2 < p.size implies (#[trigger] p.rows[r2]).len() == p.size by {
        assert(b.rows[r2].len() == b.size);
    }
}

/// What filling the empty cells of a column does to each cell.
pub proof fn lemma_with_col_filled(b: Board, c: int, v: Cell)
    requires
        b.wf(),
        0 <= c < b.size,
    ensures
        b.with_col_filled(c, v).wf(),
        b.with_col_filled(c, v).size == b.size,
        forall|r2: int, c2: int|
            b.has(r2, c2) ==> #[trigger] b.with_col_filled(c, v).at(r2, c2) == if c2 == c {
                or_else(b.at(r2, c2), v)
            } else {
                b.at(r2, c2)
            },
{
    let p = b.with_col_filled(c, v);
    assert forall|r2: int| 0 <= r2 < p.size implies (#[trigger] p.rows[r2]).len() == p.size by {
        assert(b.rows[r2].len() == b.size);
    }
}

/// A line that keeps the numbers of another, and holds `v` where the other is empty,
/// holds more of `v`.
pub proof fn lemma_count_grows_strictly(big: Seq<Cell>, small: Seq<Cell>, v: Cell, k: int, p: int)
    requires
        v.filled(),
        0 <= p < k <= small.len(),
        small[p] == Cell::Empty,
        big[p] == v,
        forall|i: int| 0 <= i < k && (#[trigger] small[i]).filled() ==> big[i] == small[i],
    ensures
        count_upto(small, v, k) < count_upto(big, v, k),
    decreases k,
{
    if p == k - 1 {
        crate::laws::lemma_count_grows(big, small, v, k - 1);
    } else {
        lemma_count_grows_strictly(big, small, v, k - 1, p);
        assert(small[k - 1] == v ==> small[k - 1].filled());
    }
}

/// A prefix that counts a cell holds it somewhere.
pub proof fn lemma_count_witness(line: Seq<Cell>, v: Cell, k: int) -> (p: int)
    requires
        count_upto(line, v, k) > 0,
    ensures
        0 <= p < k,
        line[p] == v,
    decreases k,
{
    if line[k - 1] == v {
        k - 1
    } else {
        lemma_count_witness(line, v, k - 1)
    }
}

/// A line of an even length that rule 2 decides has an empty cell.
pub proof fn lemma_quota_has_empty(line: Seq<Cell>, half: int) -> (p: int)
    requires
        line.len() == 2 * half,
        quota_fill(half, count(line, Cell::Zero), count(line, Cell::One)) is Some,
    ensures
        0 <= p < line.len(),
        line[p] == Cell::Empty,
{
    let n = line.len() as int;
    lemma_count_total(line, n);
    lemma_count_bounds(line, Cell::Zero, n);
    lemma_count_bounds(line, Cell::One, n);
    lemma_count_bounds(line, Cell::Empty, n);
    lemma_count_witness(line, Cell::Empty, n)
}

/// In a line that holds half its length of one number, a balanced line that keeps
/// its numbers holds the other number wherever the first is empty.
pub proof fn lemma_quota_forces(big: Seq<Cell>, small: Seq<Cell>, half: int, v: Cell, p: int)
    requires
        small.len() == big.len(),
        quota_fill(half, count(small, Cell::Zero), count(small, Cell::One)) == Some(v),
        count(big, Cell::Zero) <= half,
        count(big, Cell::One) <= half,
        forall|i: int| 0 <= i < small.len() && (#[trigger] small[i]).filled() ==> big[i] == small[i],
        0 <= p < small.len(),
        small[p] == Cell::Empty,
        big[p].filled(),
    ensures
        big[p] == v,
{
    let n = small.len() as int;
    if big[p] != v {
        lemma_count_grows_strictly(big, small, v.flipped(), n, p);
    }
}

/// Filling a row that rule 2 decides loses no solution.
pub proof fn lemma_row_fill_refines(b: Board, i: int, v: Cell)
    requires
        b.wf(),
        0 <= i < b.size,
        b.row_quota(i) == Some(v),
    ensures
        b.with_row_filled(i, v).refines(b),
{
    let p = b.with_row_filled(i, v);
    lemma_with_row_filled(b, i, v);
    assert forall|s: Board| #[trigger] s.solves(b) implies s.extends(p) by {
        assert forall|r2: int, c2: int| p.has(r2, c2) && (#[trigger] p.at(r2, c2)).filled() implies s.at(
            r2,
            c2,
        ) == p.at(r2, c2) by {
            assert(b.has(r2, c2));
            if b.at(r2, c2).filled() {
                assert(s.at(r2, c2) == b.at(r2, c2));
            } else {
                assert(r2 == i);
                assert(s.row_balanced(i));
                assert forall|k: int| 0 <= k < b.size && (#[trigger] b.row(i)[k]).filled() implies s.row(
                    i,
                )[k] == b.row(i)[k] by {
                    assert(b.has(i, k) && b.at(i, k).filled());
                }
                assert(s.has(i, c2) && s.at(i, c2).filled());
                lemma_quota_forces(s.row(i), b.row(i), b.half(), v, c2);
            }
        }
    }
}

/// Filling a column that rule 2 decided on an earlier board loses no solution of
/// that board, if nothing but sound deductions came between.
pub proof fn lemma_col_fill_refines(b: Board, later: Board, i: int, v: Cell)
    requires
        b.wf(),
        later.refines(b),
        0 <= i < b.size,
        b.col_quota(i) == Some(v),
    ensures
        later.with_col_filled(i, v).refines(b),
        later.with_col_filled(i, v).extends(later),
{
    let p = later.with_col_filled(i, v);
    lemma_with_col_filled(later, i, v);
    crate::laws::lemma_extends_order(p, later, b);
    assert forall|s: Board| #[trigger] s.solves(b) implies s.extends(p) by {
        assert(s.extends(later));
        assert forall|r2: int, c2: int| p.has(r2, c2) && (#[trigger] p.at(r2, c2)).filled() implies s.at(
            r2,
            c2,
        ) == p.at(r2, c2) by {
            assert(later.has(r2, c2));
            if later.at(r2, c2).filled() {
                assert(s.at(r2, c2) == later.at(r2, c2));
            } else {
                assert(c2 == i);
                assert(b.has(r2, i));
                if b.at(r2, i).filled() {
                    assert(later.at(r2, i) == b.at(r2, i));
                }
                assert(s.col_balanced(i));
                assert forall|k: int| 0 <= k < b.size && (#[trigger] b.col(i)[k]).filled() implies s.col(
                    i,
                )[k] == b.col(i)[k] by {
                    assert(b.has(k, i) && b.at(k, i).filled());
                }
                assert(s.has(r2, i) && s.at(r2, i).filled());
                lemma_quota_forces(s.col(i), b.col(i), b.half(), v, r2);
            }
        }
    }
}

/// One step of rule 2 loses no solution.
pub proof fn lemma_rule2_step_refines(b: Board, i: int)
    requires
        b.wf(),
        0 <= i < b.size,
    ensures
        b.rule2_step(i).refines(b),
{
    let first = match b.row_quota(i) {
        Some(v) => b.with_row_filled(i, v),
        None => b,
    };
    match b.row_quota(i) {
        Some(v) => {
            lemma_row_fill_refines(b, i, v);
        },
        None => {},
    }
    match b.col_quota(i) {
        Some(v) => {
            lemma_col_fill_refines(b, first, i, v);
        },
        None => {},
    }
}

/// The steps of rule 2 for the first rows and columns lose no solution.
pub proof fn lemma_rule2_upto_refines(b: Board, i: int)
    requires
        b.wf(),
        i <= b.size,
    ensures
        b.rule2_upto(i).refines(b),
    decreases i,
{
    if i > 0 {
        lemma_rule2_upto_refines(b, i - 1);
        let prev = b.rule2_upto(i - 1);
        lemma_rule2_step_refines(prev, i - 1);
        lemma_refines_order(prev.rule2_step(i - 1), prev, b);
    }
}

/// A pass of rule 2 loses no solution: the board that it gives keeps the numbers of
/// the board it was given, and every solution of the one is a solution of the other.
pub proof fn lemma_rule2_refines(b: Board)
    requires
        b.wf(),
    ensures
        b.after_rule2().refines(b),
{
    lemma_rule2_upto_refines(b, b.size as int);
}

} // verus!
