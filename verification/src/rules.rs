//! The three rules of the game, stated on boards.

use crate::board::Board;
use crate::cell::Cell;
use vstd::prelude::*;

verus! {

/// Three cells that hold the same number.
pub open spec fn triple(a: Cell, b: Cell, c: Cell) -> bool {
    a.filled() && a == b && a == c
}

/// How many of the first `k` cells of `line` equal `v`.
pub open spec fn count_upto(line: Seq<Cell>, v: Cell, k: int) -> int
    decreases k,
{
    if k <= 0 {
        0
    } else {
        count_upto(line, v, k - 1) + if line[k - 1] == v {
            1int
        } else {
            0int
        }
    }
}

/// How many cells of `line` equal `v`.
pub open spec fn count(line: Seq<Cell>, v: Cell) -> int {
    count_upto(line, v, line.len() as int)
}

impl Board {
    /// The three cells of row `r` that start at column `c` hold the same number.
    pub open spec fn row_run(self, r: int, c: int) -> bool {
        triple(self.at(r, c), self.at(r, c + 1), self.at(r, c + 2))
    }

    /// The three cells of column `c` that start at row `r` hold the same number.
    pub open spec fn col_run(self, r: int, c: int) -> bool {
        triple(self.at(r, c), self.at(r + 1, c), self.at(r + 2, c))
    }

    /// Rule 1: no row and no column holds three equal numbers in a row.
    pub open spec fn rule1(self) -> bool {
        &&& forall|r: int, c: int|
            0 <= r < self.size && 0 <= c && c + 2 < self.size ==> !#[trigger] self.row_run(r, c)
        &&& forall|r: int, c: int|
            0 <= r && r + 2 < self.size && 0 <= c < self.size ==> !#[trigger] self.col_run(r, c)
    }

    /// A line holds no more than half the size of either number.
    pub open spec fn balanced(self, line: Seq<Cell>) -> bool {
        count(line, Cell::Zero) <= self.half() && count(line, Cell::One) <= self.half()
    }

    /// Row `r` holds no more than half the size of either number.
    pub open spec fn row_balanced(self, r: int) -> bool {
        self.balanced(self.row(r))
    }

    /// Column `c` holds no more than half the size of either number.
    pub open spec fn col_balanced(self, c: int) -> bool {
        self.balanced(self.col(c))
    }

    /// Rule 2: no row and no column holds more than half the size of either number.
    pub open spec fn rule2(self) -> bool {
        &&& forall|r: int| 0 <= r < self.size ==> #[trigger] self.row_balanced(r)
        &&& forall|c: int| 0 <= c < self.size ==> #[trigger] self.col_balanced(c)
    }

    /// Row `i` is filled and row `j` is identical to it.
    pub open spec fn same_rows(self, i: int, j: int) -> bool {
        forall|c: int|
            0 <= c < self.size ==> (#[trigger] self.at(i, c)).filled() && self.at(i, c) == self.at(
                j,
                c,
            )
    }

    /// Column `i` is filled and column `j` is identical to it.
    pub open spec fn same_cols(self, i: int, j: int) -> bool {
        forall|r: int|
            0 <= r < self.size ==> (#[trigger] self.at(r, i)).filled() && self.at(r, i) == self.at(
                r,
                j,
            )
    }

    /// Rule 3: no two rows and no two columns are filled and identical.
    pub open spec fn rule3(self) -> bool {
        &&& forall|i: int, j: int| 0 <= i < j < self.size ==> !#[trigger] self.same_rows(i, j)
        &&& forall|i: int, j: int| 0 <= i < j < self.size ==> !#[trigger] self.same_cols(i, j)
    }

    /// The board violates none of the three rules.
    pub open spec fn legal(self) -> bool {
        self.rule1() && self.rule2() && self.rule3()
    }

    /// Rule 1 on the windows that hold the cell `(r, c)`.
    pub open spec fn cell_rule1(self, r: int, c: int) -> bool {
        &&& forall|k: int|
            0 <= k && k + 2 < self.size && k <= c <= k + 2 ==> !#[trigger] self.row_run(r, k)
        &&& forall|k: int|
            0 <= k && k + 2 < self.size && k <= r <= k + 2 ==> !#[trigger] self.col_run(k, c)
    }

    /// Rule 2 on the row and the column of the cell `(r, c)`.
    pub open spec fn cell_rule2(self, r: int, c: int) -> bool {
        self.row_balanced(r) && self.col_balanced(c)
    }

    /// Rule 3 on the row and the column of the cell `(r, c)`, each against all others.
    pub open spec fn cell_rule3(self, r: int, c: int) -> bool {
        &&& forall|i: int| 0 <= i < self.size && i != r ==> !#[trigger] self.same_rows(r, i)
        &&& forall|j: int| 0 <= j < self.size && j != c ==> !#[trigger] self.same_cols(c, j)
    }

    /// The cell `(r, c)` is empty, or no rule is violated in the lines that hold it.
    pub open spec fn cell_legal(self, r: int, c: int) -> bool {
        self.at(r, c) == Cell::Empty || (self.cell_rule1(r, c) && self.cell_rule2(r, c)
            && self.cell_rule3(r, c))
    }
}

/// The counts of a prefix lie between zero and its length.
pub proof fn lemma_count_bounds(line: Seq<Cell>, v: Cell, k: int)
    requires
        0 <= k,
    ensures
        0 <= count_upto(line, v, k) <= k,
    decreases k,
{
    if k > 0 {
        lemma_count_bounds(line, v, k - 1);
    }
}

/// Each cell of a prefix is a zero, a one or empty.
pub proof fn lemma_count_total(line: Seq<Cell>, k: int)
    requires
        0 <= k,
    ensures
        count_upto(line, Cell::Zero, k) + count_upto(line, Cell::One, k) + count_upto(
            line,
            Cell::Empty,
            k,
        ) == k,
    decreases k,
{
    if k > 0 {
        lemma_count_total(line, k - 1);
    }
}

/// Two lines that agree on their first `k` cells have the same counts there.
pub proof fn lemma_count_same(a: Seq<Cell>, b: Seq<Cell>, v: Cell, k: int)
    requires
        forall|i: int| 0 <= i < k ==> a[i] == b[i],
    ensures
        count_upto(a, v, k) == count_upto(b, v, k),
    decreases k,
{
    if k > 0 {
        lemma_count_same(a, b, v, k - 1);
    }
}

/// Being filled and identical does not depend on the order of the two rows or columns.
pub proof fn lemma_same_symmetric(b: Board, i: int, j: int)
    ensures
        b.same_rows(i, j) == b.same_rows(j, i),
        b.same_cols(i, j) == b.same_cols(j, i),
{
    if b.same_rows(i, j) {
        assert forall|c: int| 0 <= c < b.size implies (#[trigger] b.at(j, c)).filled() && b.at(
            j,
            c,
        ) == b.at(i, c) by {
            assert(b.at(i, c).filled());
        }
    }
    if b.same_rows(j, i) {
        assert forall|c: int| 0 <= c < b.size implies (#[trigger] b.at(i, c)).filled() && b.at(
            i,
            c,
        ) == b.at(j, c) by {
            assert(b.at(j, c).filled());
        }
    }
    if b.same_cols(i, j) {
        assert forall|r: int| 0 <= r < b.size implies (#[trigger] b.at(r, j)).filled() && b.at(
            r,
            j,
        ) == b.at(r, i) by {
            assert(b.at(r, i).filled());
        }
    }
    if b.same_cols(j, i) {
        assert forall|r: int| 0 <= r < b.size implies (#[trigger] b.at(r, i)).filled() && b.at(
            r,
            i,
        ) == b.at(r, j) by {
            assert(b.at(r, j).filled());
        }
    }
}

} // verus!
