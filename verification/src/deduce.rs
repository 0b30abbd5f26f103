//! What the rules force: the deductions of each rule as functions on boards,
//! and the proof that no deduction loses a solution.

use crate::board::{lemma_put, Board};
use crate::cell::Cell;
use vstd::prelude::*;

verus! {

impl Board {
    /// `self` is a solution of `b`: a full, legal board that keeps the numbers of `b`.
    pub open spec fn solves(self, b: Board) -> bool {
        self.wf() && self.full() && self.legal() && self.extends(b)
    }

    /// `self` keeps the numbers of `b`, and every solution of `b` keeps those of `self`:
    /// filling `b` in up to `self` has lost no solution.
    pub open spec fn refines(self, b: Board) -> bool {
        &&& self.wf()
        &&& self.extends(b)
        &&& forall|s: Board| #[trigger] s.solves(b) ==> s.extends(self)
    }
}

/// The cell of a window of three that rule 1 decides, as its offset in the window,
/// and the number that it must hold: the window has one empty cell, and its two
/// other cells hold the same number.
pub open spec fn window_fill(a: Cell, b: Cell, c: Cell) -> Option<(int, Cell)> {
    if a == Cell::Empty && b.filled() && b == c {
        Some((0int, b.flipped()))
    } else if b == Cell::Empty && a.filled() && a == c {
        Some((1int, a.flipped()))
    } else if c == Cell::Empty && a.filled() && a == b {
        Some((2int, a.flipped()))
    } else {
        None
    }
}

impl Board {
    /// The board after rule 1 has looked at the three cells of row `r` from column `c` on.
    pub open spec fn row_window_filled(self, r: int, c: int) -> Board {
        match window_fill(self.at(r, c), self.at(r, c + 1), self.at(r, c + 2)) {
            Some((k, v)) => self.put(r, c + k, v),
            None => self,
        }
    }

    /// The board after rule 1 has looked at the three cells of column `c` from row `r` on.
    pub open spec fn col_window_filled(self, r: int, c: int) -> Board {
        match window_fill(self.at(r, c), self.at(r + 1, c), self.at(r + 2, c)) {
            Some((k, v)) => self.put(r + k, c, v),
            None => self,
        }
    }

    /// One step of rule 1: the window of row `i` that starts at column `j`, then
    /// the window of column `i` that starts at row `j`.
    pub open spec fn rule1_step(self, i: int, j: int) -> Board {
        self.row_window_filled(i, j).col_window_filled(j, i)
    }

    /// The steps of rule 1 for row and column `i`, for the windows that start before `j`.
    pub open spec fn rule1_along(self, i: int, j: int) -> Board
        decreases j,
    {
        if j <= 0 {
            self
        } else {
            self.rule1_along(i, j - 1).rule1_step(i, j - 1)
        }
    }

    /// The steps of rule 1 for the rows and columns before `i`.
    pub open spec fn rule1_upto(self, i: int) -> Board
        decreases i,
    {
        if i <= 0 {
            self
        } else {
            self.rule1_upto(i - 1).rule1_along(i - 1, self.size - 2)
        }
    }

    /// The board after one pass of rule 1: every window of three cells with one
    /// empty cell and the same number in the two others has the empty cell set to the
    /// other number. The windows are taken row by row and column by column, and a
    /// cell that the pass has filled counts for the windows that follow.
    pub open spec fn after_rule1(self) -> Board {
        self.rule1_upto(self.size as int)
    }
}

/// Refining is reflexive and transitive, and a board that refines another has the
/// same solutions.
pub proof fn lemma_refines_order(a: Board, b: Board, c: Board)
    requires
        a.refines(b),
        b.refines(c),
    ensures
        a.refines(a),
        a.refines(c),
        forall|s: Board| s.solves(a) <==> s.solves(b),
{
    crate::laws::lemma_extends_order(a, b, c);
    assert forall|s: Board| #[trigger] s.solves(c) implies s.extends(a) by {
        assert(s.extends(b));
        assert(s.solves(b));
    }
    assert forall|s: Board| s.solves(a) <==> s.solves(b) by {
        if s.solves(a) {
            crate::laws::lemma_extends_order(s, a, b);
        }
    }
}

/// Every well-formed board refines itself.
pub proof fn lemma_refines_self(b: Board)
    requires
        b.wf(),
    ensures
        b.refines(b),
{
}

/// Filling an empty cell with the number that every solution holds there refines the board.
pub proof fn lemma_refine_put(b: Board, r: int, c: int, v: Cell)
    requires
        b.wf(),
        b.has(r, c),
        b.at(r, c) == Cell::Empty,
        forall|s: Board| #[trigger] s.solves(b) ==> s.at(r, c) == v,
    ensures
        b.put(r, c, v).refines(b),
{
    lemma_put(b, r, c, v);
    let p = b.put(r, c, v);
    assert forall|s: Board| #[trigger] s.solves(b) implies s.extends(p) by {
        assert forall|r2: int, c2: int| p.has(r2, c2) && (#[trigger] p.at(r2, c2)).filled() implies s.at(
            r2,
            c2,
        ) == p.at(r2, c2) by {
            if r2 != r || c2 != c {
                assert(p.at(r2, c2) == b.at(r2, c2));
                assert(b.has(r2, c2) && b.at(r2, c2).filled());
            }
        }
    }
}

/// Looking at one window of a row loses no solution.
pub proof fn lemma_row_window_refines(b: Board, r: int, c: int)
    requires
        b.wf(),
        0 <= r < b.size,
        0 <= c,
        c + 2 < b.size,
    ensures
        b.row_window_filled(r, c).refines(b),
{
    match window_fill(b.at(r, c), b.at(r, c + 1), b.at(r, c + 2)) {
        Some((k, v)) => {
            assert forall|s: Board| #[trigger] s.solves(b) implies s.at(r, c + k) == v by {
                assert(!s.row_run(r, c));
                assert(b.has(r, c) && b.has(r, c + 1) && b.has(r, c + 2));
                assert(s.has(r, c) && s.has(r, c + 1) && s.has(r, c + 2));
                assert(s.at(r, c).filled() && s.at(r, c + 1).filled() && s.at(r, c + 2).filled());
                if b.at(r, c).filled() {
                    assert(s.at(r, c) == b.at(r, c));
                }
                if b.at(r, c + 1).filled() {
                    assert(s.at(r, c + 1) == b.at(r, c + 1));
                }
                if b.at(r, c + 2).filled() {
                    assert(s.at(r, c + 2) == b.at(r, c + 2));
                }
            }
            lemma_refine_put(b, r, c + k, v);
        },
        None => {},
    }
}

/// Looking at one window of a column loses no solution.
pub proof fn lemma_col_window_refines(b: Board, r: int, c: int)
    requires
        b.wf(),
        0 <= r,
        r + 2 < b.size,
        0 <= c < b.size,
    ensures
        b.col_window_filled(r, c).refines(b),
{
    match window_fill(b.at(r, c), b.at(r + 1, c), b.at(r + 2, c)) {
        Some((k, v)) => {
            assert forall|s: Board| #[trigger] s.solves(b) implies s.at(r + k, c) == v by {
                assert(!s.col_run(r, c));
                assert(b.has(r, c) && b.has(r + 1, c) && b.has(r + 2, c));
                assert(s.has(r, c) && s.has(r + 1, c) && s.has(r + 2, c));
                assert(s.at(r, c).filled() && s.at(r + 1, c).filled() && s.at(r + 2, c).filled());
                if b.at(r, c).filled() {
                    assert(s.at(r, c) == b.at(r, c));
                }
                if b.at(r + 1, c).filled() {
                    assert(s.at(r + 1, c) == b.at(r + 1, c));
                }
                if b.at(r + 2, c).filled() {
                    assert(s.at(r + 2, c) == b.at(r + 2, c));
                }
            }
            lemma_refine_put(b, r + k, c, v);
        },
        None => {},
    }
}

/// One step of rule 1 loses no solution.
pub proof fn lemma_rule1_step_refines(b: Board, i: int, j: int)
    requires
        b.wf(),
        0 <= i < b.size,
        0 <= j,
        j + 2 < b.size,
    ensures
        b.rule1_step(i, j).refines(b),
{
    let b1 = b.row_window_filled(i, j);
    lemma_row_window_refines(b, i, j);
    lemma_col_window_refines(b1, j, i);
    lemma_refines_order(b1.col_window_filled(j, i), b1, b);
}

/// The steps of rule 1 along one row and column lose no solution.
pub proof fn lemma_rule1_along_refines(b: Board, i: int, j: int)
    requires
        b.wf(),
        0 <= i < b.size,
        j <= b.size - 2,
    ensures
        b.rule1_along(i, j).refines(b),
    decreases j,
{
    if j > 0 {
        lemma_rule1_along_refines(b, i, j - 1);
        let prev = b.rule1_along(i, j - 1);
        lemma_rule1_step_refines(prev, i, j - 1);
        lemma_refines_order(prev.rule1_step(i, j - 1), prev, b);
    }
}

/// The steps of rule 1 for the first rows and columns lose no solution.
pub proof fn lemma_rule1_upto_refines(b: Board, i: int)
    requires
        b.wf(),
        i <= b.size,
    ensures
        b.rule1_upto(i).refines(b),
    decreases i,
{
    if i > 0 {
        lemma_rule1_upto_refines(b, i - 1);
        let prev = b.rule1_upto(i - 1);
        lemma_rule1_along_refines(prev, i - 1, b.size - 2);
        lemma_refines_order(prev.rule1_along(i - 1, b.size - 2), prev, b);
    }
}

/// A pass of rule 1 loses no solution: the board that it gives keeps the numbers of
/// the board it was given, and every solution of the one is a solution of the other.
pub proof fn lemma_rule1_refines(b: Board)
    requires
        b.wf(),
    ensures
        b.after_rule1().refines(b),
{
    lemma_rule1_upto_refines(b, b.size as int);
}

} // verus!
