//! The deductions of rule 3: a line with two empty cells that a filled line
//! would complete takes the other numbers in its empty cells.

use crate::board::Board;
use crate::cell::Cell;
use crate::deduce::lemma_refines_order;
use crate::rules::{count, count_upto, lemma_count_total, lemma_same_symmetric};
use vstd::prelude::*;

verus! {

/// The cell `x`, or the other number than `y` where `x` is empty.
pub open spec fn or_opposite(x: Cell, y: Cell) -> Cell {
    if x == Cell::Empty {
        y.flipped()
    } else {
        x
    }
}

impl Board {
    /// Row `l` is another row than `i`, it is filled, and it holds every number
    /// that row `i` holds.
    pub open spec fn row_completes(self, i: int, l: int) -> bool {
        &&& l != i
        &&& forall|c: int|
            0 <= c < self.size ==> (#[trigger] self.at(l, c)).filled() && (self.at(i, c).filled()
                ==> self.at(i, c) == self.at(l, c))
    }

    /// Column `m` is another column than `j`, it is filled, and it holds every
    /// number that column `j` holds.
    pub open spec fn col_completes(self, j: int, m: int) -> bool {
        &&& m != j
        &&& forall|r: int|
            0 <= r < self.size ==> (#[trigger] self.at(r, m)).filled() && (self.at(r, j).filled()
                ==> self.at(r, j) == self.at(r, m))
    }

    /// The first row from `from` on that completes row `i`, or the size if there is none.
    pub open spec fn first_row_completing(self, i: int, from: int) -> int
        decreases self.size - from,
    {
        if from >= self.size {
            self.size as int
        } else if self.row_completes(i, from) {
            from
        } else {
            self.first_row_completing(i, from + 1)
        }
    }

    /// The first column from `from` on that completes column `j`, or the size if
    /// there is none.
    pub open spec fn first_col_completing(self, j: int, from: int) -> int
        decreases self.size - from,
    {
        if from >= self.size {
            self.size as int
        } else if self.col_completes(j, from) {
            from
        } else {
            self.first_col_completing(j, from + 1)
        }
    }

    /// The board with, in each empty cell of row `i`, the other number than row `l`
    /// holds in that column.
    pub open spec fn with_row_opposed(self, i: int, l: int) -> Board {
        Board {
            size: self.size,
            rows: self.rows.update(
                i,
                Seq::new(self.size, |c: int| or_opposite(self.rows[i][c], self.rows[l][c])),
            ),
        }
    }

    /// The board with, in each empty cell of column `j`, the other number than
    /// column `m` holds in that row.
    pub open spec fn with_col_opposed(self, j: int, m: int) -> Board {
        Board {
            size: self.size,
            rows: Seq::new(
                self.size,
                |r: int| self.rows[r].update(j, or_opposite(self.rows[r][j], self.rows[r][m])),
            ),
        }
    }

    /// Rule 3 on row `i`: if it has two empty cells and some row completes it, its
    /// empty cells take the other numbers than the first such row holds.
    pub open spec fn rule3_row(self, i: int) -> Board {
        let l = self.first_row_completing(i, 0);
        if count(self.row(i), Cell::Empty) == 2 && l < self.size {
            self.with_row_opposed(i, l)
        } else {
            self
        }
    }

    /// Rule 3 on column `j`: if it has two empty cells and some column completes
    /// it, its empty cells take the other numbers than the first such column holds.
    pub open spec fn rule3_col(self, j: int) -> Board {
        let m = self.first_col_completing(j, 0);
        if count(self.col(j), Cell::Empty) == 2 && m < self.size {
            self.with_col_opposed(j, m)
        } else {
            self
        }
    }

    /// One step of rule 3: row `i`, then column `i`.
    pub open spec fn rule3_step(self, i: int) -> Board {
        self.rule3_row(i).rule3_col(i)
    }

    /// The steps of rule 3 for the rows and columns before `i`.
    pub open spec fn rule3_upto(self, i: int) -> Board
        decreases i,
    {
        if i <= 0 {
            self
        } else {
            self.rule3_upto(i - 1).rule3_step(i - 1)
        }
    }

    /// The board after one pass of rule 3: every row and column with exactly two
    /// empty cells that a filled row or column would complete has its empty cells set
    /// to the other numbers, since no two rows and no two columns may be the same.
    pub open spec fn after_rule3(self) -> Board {
        self.rule3_upto(self.size as int)
    }
}

/// What the first completing row is: a completing row with none before it, or the size.
pub proof fn lemma_first_row_completing(b: Board, i: int, from: int)
    requires
        0 <= from <= b.size,
    ensures
        from <= b.first_row_completing(i, from) <= b.size,
        b.first_row_completing(i, from) < b.size ==> b.row_completes(
            i,
            b.first_row_completing(i, from),
        ),
        forall|l: int| from <= l < b.first_row_completing(i, from) ==> !b.row_completes(i, l),
    decreases b.size - from,
{
    if from < b.size && !b.row_completes(i, from) {
        lemma_first_row_completing(b, i, from + 1);
    }
}

/// What the first completing column is: a completing column with none before it, or the size.
pub proof fn lemma_first_col_completing(b: Board, j: int, from: int)
    requires
        0 <= from <= b.size,
    ensures
        from <= b.first_col_completing(j, from) <= b.size,
        b.first_col_completing(j, from) < b.size ==> b.col_completes(
            j,
            b.first_col_completing(j, from),
        ),
        forall|m: int| from <= m < b.first_col_completing(j, from) ==> !b.col_completes(j, m),
    decreases b.size - from,
{
    if from < b.size && !b.col_completes(j, from) {
        lemma_first_col_completing(b, j, from + 1);
    }
}

/// What opposing a row does to each cell.
pub proof fn lemma_with_row_opposed(b: Board, i: int, l: int)
    requires
        b.wf(),
        0 <= i < b.size,
        0 <= l < b.size,
    ensures
        b.with_row_opposed(i, l).wf(),
        b.with_row_opposed(i, l).size == b.size,
        forall|r2: int, c2: int|
            b.has(r2, c2) ==> #[trigger] b.with_row_opposed(i, l).at(r2, c2) == if r2 == i {
                or_opposite(b.at(i, c2), b.at(l, c2))
            } else {
                b.at(r2, c2)
            },
{
    let p = b.with_row_opposed(i, l);
    assert forall|r2: int| 0 <= r2 < p.size implies (#[trigger] p.rows[r2]).len() == p.size by {
        assert(b.rows[r2].len() == b.size);
    }
}

/// What opposing a column does to each cell.
pub proof fn lemma_with_col_opposed(b: Board, j: int, m: int)
    requires
        b.wf(),
        0 <= j < b.size,
        0 <= m < b.size,
    ensures
        b.with_col_opposed(j, m).wf(),
        b.with_col_opposed(j, m).size == b.size,
        forall|r2: int, c2: int|
            b.has(r2, c2) ==> #[trigger] b.with_col_opposed(j, m).at(r2, c2) == if c2 == j {
                or_opposite(b.at(r2, j), b.at(r2, m))
            } else {
                b.at(r2, c2)
            },
{
    let p = b.with_col_opposed(j, m);
    assert forall|r2: int| 0 <= r2 < p.size implies (#[trigger] p.rows[r2]).len() == p.size by {
        assert(b.rows[r2].len() == b.size);
    }
}

/// A prefix that counts no cell of a kind holds none.
pub proof fn lemma_count_none(line: Seq<Cell>, v: Cell, k: int)
    requires
        0 <= k,
    ensures
        count_upto(line, v, k) == 0 <==> forall|j: int| 0 <= j < k ==> line[j] != v,
    decreases k,
{
    if k > 0 {
        lemma_count_none(line, v, k - 1);
        crate::rules::lemma_count_bounds(line, v, k - 1);
        if count_upto(line, v, k) == 0 {
            assert forall|j: int| 0 <= j < k implies line[j] != v by {
                if j < k - 1 {
                    assert(line[j] != v);
                }
            }
        }
    }
}

/// A prefix that counts one cell of a kind holds it at one place.
pub proof fn lemma_count_one(line: Seq<Cell>, v: Cell, k: int) -> (p: int)
    requires
        count_upto(line, v, k) == 1,
    ensures
        0 <= p < k,
        line[p] == v,
        forall|j: int| 0 <= j < k && j != p ==> line[j] != v,
    decreases k,
{
    if line[k - 1] == v {
        lemma_count_none(line, v, k - 1);
        k - 1
    } else {
        lemma_count_one(line, v, k - 1)
    }
}

/// A prefix that counts two cells of a kind holds them at two places.
pub proof fn lemma_count_two(line: Seq<Cell>, v: Cell, k: int) -> (pq: (int, int))
    requires
        count_upto(line, v, k) == 2,
    ensures
        0 <= pq.0 < pq.1 < k,
        line[pq.0] == v,
        line[pq.1] == v,
        forall|j: int| 0 <= j < k && j != pq.0 && j != pq.1 ==> line[j] != v,
    decreases k,
{
    if line[k - 1] == v {
        let p = lemma_count_one(line, v, k - 1);
        (p, k - 1)
    } else {
        lemma_count_two(line, v, k - 1)
    }
}

/// A line that counts two empty cells has an empty cell.
pub proof fn lemma_count_witness_of_two(line: Seq<Cell>, k: int) -> (p: int)
    requires
        count_upto(line, Cell::Empty, k) == 2,
    ensures
        0 <= p < k,
        line[p] == Cell::Empty,
{
    lemma_count_two(line, Cell::Empty, k).0
}

/// One if the cell is `v`, else zero.
pub open spec fn one_if(x: Cell, v: Cell) -> int {
    if x == v {
        1
    } else {
        0
    }
}

/// Two lines that agree but at the places `p` and `q` differ in their counts by
/// what they hold at these two places.
pub proof fn lemma_count_but_two(a: Seq<Cell>, b: Seq<Cell>, v: Cell, k: int, p: int, q: int)
    requires
        0 <= p < q < k,
        forall|j: int| 0 <= j < k && j != p && j != q ==> a[j] == b[j],
    ensures
        count_upto(a, v, k) - count_upto(b, v, k) == one_if(a[p], v) - one_if(b[p], v) + one_if(
            a[q],
            v,
        ) - one_if(b[q], v),
    decreases k,
{
    if q == k - 1 {
        lemma_count_but_one(a, b, v, k - 1, p);
    } else {
        lemma_count_but_two(a, b, v, k - 1, p, q);
    }
}

/// Two lines that agree but at the place `p` differ in their counts by what they
/// hold at this place.
pub proof fn lemma_count_but_one(a: Seq<Cell>, b: Seq<Cell>, v: Cell, k: int, p: int)
    requires
        0 <= p < k,
        forall|j: int| 0 <= j < k && j != p ==> a[j] == b[j],
    ensures
        count_upto(a, v, k) - count_upto(b, v, k) == one_if(a[p], v) - one_if(b[p], v),
    decreases k,
{
    if p == k - 1 {
        crate::rules::lemma_count_same(a, b, v, k - 1);
    } else {
        lemma_count_but_one(a, b, v, k - 1, p);
    }
}

/// A filled line of even length that holds at most half its length of each number
/// holds exactly half of zeros.
pub proof fn lemma_full_line_zeros(line: Seq<Cell>, half: int)
    requires
        line.len() == 2 * half,
        forall|j: int| 0 <= j < line.len() ==> (#[trigger] line[j]).filled(),
        count(line, Cell::Zero) <= half,
        count(line, Cell::One) <= half,
    ensures
        count(line, Cell::Zero) == half,
{
    let n = line.len() as int;
    lemma_count_total(line, n);
    lemma_count_none(line, Cell::Empty, n);
    assert forall|j: int| 0 <= j < n implies line[j] != Cell::Empty by {
        assert(line[j].filled());
    }
}

/// Two filled, balanced lines of one even length that agree but at two places,
/// and are not the same, hold different numbers at both places.
pub proof fn lemma_twins_differ(a: Seq<Cell>, b: Seq<Cell>, half: int, p: int, q: int)
    requires
        a.len() == 2 * half,
        b.len() == 2 * half,
        forall|j: int| 0 <= j < a.len() ==> (#[trigger] a[j]).filled(),
        forall|j: int| 0 <= j < b.len() ==> (#[trigger] b[j]).filled(),
        count(a, Cell::Zero) <= half,
        count(a, Cell::One) <= half,
        count(b, Cell::Zero) <= half,
        count(b, Cell::One) <= half,
        0 <= p < q < a.len(),
        forall|j: int| 0 <= j < a.len() && j != p && j != q ==> a[j] == b[j],
        a[p] != b[p] || a[q] != b[q],
    ensures
        a[p] == b[p].flipped(),
        a[q] == b[q].flipped(),
{
    lemma_full_line_zeros(a, half);
    lemma_full_line_zeros(b, half);
    lemma_count_but_two(a, b, Cell::Zero, a.len() as int, p, q);
    assert(a[p].filled() && a[q].filled() && b[p].filled() && b[q].filled());
}

/// Opposing a row with two empty cells to a row that completes it loses no solution.
pub proof fn lemma_row_oppose_refines(b: Board, i: int, l: int)
    requires
        b.wf(),
        0 <= i < b.size,
        0 <= l < b.size,
        count(b.row(i), Cell::Empty) == 2,
        b.row_completes(i, l),
    ensures
        b.with_row_opposed(i, l).refines(b),
{
    let n = b.size as int;
    let t = b.with_row_opposed(i, l);
    lemma_with_row_opposed(b, i, l);
    let (p, q) = lemma_count_two(b.row(i), Cell::Empty, n);
    assert forall|s: Board| #[trigger] s.solves(b) implies s.extends(t) by {
        let a = s.row(i);
        let o = s.row(l);
        assert forall|j: int| 0 <= j < n implies (#[trigger] a[j]).filled() by {
            assert(s.has(i, j) && s.at(i, j).filled());
        }
        assert forall|j: int| 0 <= j < n implies (#[trigger] o[j]).filled() && o[j] == b.at(
            l,
            j,
        ) by {
            assert(s.has(l, j) && s.at(l, j).filled());
            assert(b.has(l, j) && b.at(l, j).filled());
        }
        assert forall|j: int| 0 <= j < n && j != p && j != q implies a[j] == o[j] by {
            assert(b.row(i)[j] != Cell::Empty);
            assert(b.has(i, j) && b.at(i, j).filled());
            assert(b.at(l, j).filled());
        }
        assert(s.row_balanced(i) && s.row_balanced(l));
        if a[p] == o[p] && a[q] == o[q] {
            assert forall|c: int| 0 <= c < n implies (#[trigger] s.at(i, c)).filled() && s.at(
                i,
                c,
            ) == s.at(l, c) by {
                assert(a[c].filled());
                if c != p && c != q {
                    assert(a[c] == o[c]);
                }
            }
            assert(s.same_rows(i, l));
            lemma_same_symmetric(s, i, l);
            if i < l {
                assert(!s.same_rows(i, l));
            } else {
                assert(!s.same_rows(l, i));
            }
        }
        lemma_twins_differ(a, o, s.half(), p, q);
        assert forall|r2: int, c2: int| t.has(r2, c2) && (#[trigger] t.at(r2, c2)).filled() implies s.at(
            r2,
            c2,
        ) == t.at(r2, c2) by {
            assert(b.has(r2, c2));
            if b.at(r2, c2).filled() {
                assert(s.at(r2, c2) == b.at(r2, c2));
            } else {
                assert(r2 == i);
                assert(b.row(i)[c2] == Cell::Empty);
                assert(c2 == p || c2 == q);
                assert(o[c2] == b.at(l, c2));
            }
        }
    }
}

/// Opposing a column with two empty cells to a column that completes it loses no solution.
pub proof fn lemma_col_oppose_refines(b: Board, j: int, m: int)
    requires
        b.wf(),
        0 <= j < b.size,
        0 <= m < b.size,
        count(b.col(j), Cell::Empty) == 2,
        b.col_completes(j, m),
    ensures
        b.with_col_opposed(j, m).refines(b),
{
    let n = b.size as int;
    let t = b.with_col_opposed(j, m);
    lemma_with_col_opposed(b, j, m);
    let (p, q) = lemma_count_two(b.col(j), Cell::Empty, n);
    assert forall|s: Board| #[trigger] s.solves(b) implies s.extends(t) by {
        let a = s.col(j);
        let o = s.col(m);
        assert forall|k: int| 0 <= k < n implies (#[trigger] a[k]).filled() by {
            assert(s.has(k, j) && s.at(k, j).filled());
        }
        assert forall|k: int| 0 <= k < n implies (#[trigger] o[k]).filled() && o[k] == b.at(
            k,
            m,
        ) by {
            assert(s.has(k, m) && s.at(k, m).filled());
            assert(b.has(k, m) && b.at(k, m).filled());
        }
        assert forall|k: int| 0 <= k < n && k != p && k != q implies a[k] == o[k] by {
            assert(b.col(j)[k] != Cell::Empty);
            assert(b.has(k, j) && b.at(k, j).filled());
            assert(b.at(k, m).filled());
        }
        assert(s.col_balanced(j) && s.col_balanced(m));
        if a[p] == o[p] && a[q] == o[q] {
            assert forall|r: int| 0 <= r < n implies (#[trigger] s.at(r, j)).filled() && s.at(
                r,
                j,
            ) == s.at(r, m) by {
                assert(a[r].filled());
                if r != p && r != q {
                    assert(a[r] == o[r]);
                }
            }
            assert(s.same_cols(j, m));
            lemma_same_symmetric(s, j, m);
            if j < m {
                assert(!s.same_cols(j, m));
            } else {
                assert(!s.same_cols(m, j));
            }
        }
        lemma_twins_differ(a, o, s.half(), p, q);
        assert forall|r2: int, c2: int| t.has(r2, c2) && (#[trigger] t.at(r2, c2)).filled() implies s.at(
            r2,
            c2,
        ) == t.at(r2, c2) by {
            assert(b.has(r2, c2));
            if b.at(r2, c2).filled() {
                assert(s.at(r2, c2) == b.at(r2, c2));
            } else {
                assert(c2 == j);
                assert(b.col(j)[r2] == Cell::Empty);
                assert(r2 == p || r2 == q);
                assert(o[r2] == b.at(r2, m));
            }
        }
    }
}

/// Rule 3 on one row loses no solution.
pub proof fn lemma_rule3_row_refines(b: Board, i: int)
    requires
        b.wf(),
        0 <= i < b.size,
    ensures
        b.rule3_row(i).refines(b),
{
    let l = b.first_row_completing(i, 0);
    lemma_first_row_completing(b, i, 0);
    if count(b.row(i), Cell::Empty) == 2 && l < b.size {
        lemma_row_oppose_refines(b, i, l);
    }
}

/// Rule 3 on one column loses no solution.
pub proof fn lemma_rule3_col_refines(b: Board, j: int)
    requires
        b.wf(),
        0 <= j < b.size,
    ensures
        b.rule3_col(j).refines(b),
{
    let m = b.first_col_completing(j, 0);
    lemma_first_col_completing(b, j, 0);
    if count(b.col(j), Cell::Empty) == 2 && m < b.size {
        lemma_col_oppose_refines(b, j, m);
    }
}

/// The steps of rule 3 for the first rows and columns lose no solution.
pub proof fn lemma_rule3_upto_refines(b: Board, i: int)
    requires
        b.wf(),
        i <= b.size,
    ensures
        b.rule3_upto(i).refines(b),
    decreases i,
{
    if i > 0 {
        lemma_rule3_upto_refines(b, i - 1);
        let prev = b.rule3_upto(i - 1);
        lemma_rule3_row_refines(prev, i - 1);
        let mid = prev.rule3_row(i - 1);
        lemma_rule3_col_refines(mid, i - 1);
        lemma_refines_order(mid.rule3_col(i - 1), mid, prev);
        lemma_refines_order(mid.rule3_col(i - 1), prev, b);
    }
}

/// A pass of rule 3 loses no solution: the board that it gives keeps the numbers of
/// the board it was given, and every solution of the one is a solution of the other.
pub proof fn lemma_rule3_refines(b: Board)
    requires
        b.wf(),
    ensures
        b.after_rule3().refines(b),
{
    lemma_rule3_upto_refines(b, b.size as int);
}

} // verus!
