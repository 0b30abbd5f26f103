//! What holds of the rules whatever the grid: how legality behaves when cells
//! are filled in, and when the check of one cell may stand for the check of the grid.

use crate::board::{lemma_put, Board};
use crate::cell::Cell;
use crate::rules::{count_upto, lemma_count_same, lemma_same_symmetric};
use vstd::prelude::*;

verus! {

/// Every board extends itself, and extending is transitive.
pub proof fn lemma_extends_order(a: Board, b: Board, c: Board)
    requires
        a.extends(b),
        b.extends(c),
    ensures
        a.extends(a),
        a.extends(c),
{
    assert forall|r: int, k: int| c.has(r, k) && (#[trigger] c.at(r, k)).filled() implies a.at(
        r,
        k,
    ) == c.at(r, k) by {
        assert(b.at(r, k) == c.at(r, k));
        assert(b.has(r, k) && b.at(r, k).filled());
    }
}

/// Filling an empty cell gives a board that extends the old one.
pub proof fn lemma_put_extends(b: Board, r: int, c: int, v: Cell)
    requires
        b.wf(),
        b.has(r, c),
        b.at(r, c) == Cell::Empty,
    ensures
        b.put(r, c, v).extends(b),
        b.put(r, c, v).wf(),
{
    lemma_put(b, r, c, v);
}

/// A line that keeps the numbers of another holds at least as many of each number.
pub proof fn lemma_count_grows(big: Seq<Cell>, small: Seq<Cell>, v: Cell, k: int)
    requires
        v.filled(),
        0 <= k <= small.len(),
        forall|i: int| 0 <= i < k && (#[trigger] small[i]).filled() ==> big[i] == small[i],
    ensures
        count_upto(small, v, k) <= count_upto(big, v, k),
    decreases k,
{
    if k > 0 {
        lemma_count_grows(big, small, v, k - 1);
        assert(small[k - 1] == v ==> small[k - 1].filled());
    }
}

/// A board that a legal board extends is legal: filling cells in never mends a violation.
pub proof fn lemma_legal_downward(s: Board, b: Board)
    requires
        s.wf(),
        b.wf(),
        s.extends(b),
        s.legal(),
    ensures
        b.legal(),
{
    let n = b.size as int;
    assert forall|r: int, c: int| 0 <= r < n && 0 <= c && c + 2 < n implies !#[trigger] b.row_run(
        r,
        c,
    ) by {
        if b.row_run(r, c) {
            assert(b.has(r, c) && b.has(r, c + 1) && b.has(r, c + 2));
            assert(b.at(r, c).filled() && b.at(r, c + 1).filled() && b.at(r, c + 2).filled());
            assert(s.row_run(r, c));
        }
    }
    assert forall|r: int, c: int| 0 <= r && r + 2 < n && 0 <= c < n implies !#[trigger] b.col_run(
        r,
        c,
    ) by {
        if b.col_run(r, c) {
            assert(b.has(r, c) && b.has(r + 1, c) && b.has(r + 2, c));
            assert(b.at(r, c).filled() && b.at(r + 1, c).filled() && b.at(r + 2, c).filled());
            assert(s.col_run(r, c));
        }
    }
    assert forall|r: int| 0 <= r < n implies #[trigger] b.row_balanced(r) by {
        assert(s.row_balanced(r));
        assert forall|i: int| 0 <= i < n && (#[trigger] b.row(r)[i]).filled() implies s.row(r)[i]
            == b.row(r)[i] by {
            assert(b.has(r, i) && b.at(r, i).filled());
        }
        lemma_count_grows(s.row(r), b.row(r), Cell::Zero, n);
        lemma_count_grows(s.row(r), b.row(r), Cell::One, n);
    }
    assert forall|c: int| 0 <= c < n implies #[trigger] b.col_balanced(c) by {
        assert(s.col_balanced(c));
        assert forall|i: int| 0 <= i < n && (#[trigger] b.col(c)[i]).filled() implies s.col(c)[i]
            == b.col(c)[i] by {
            assert(b.has(i, c) && b.at(i, c).filled());
        }
        lemma_count_grows(s.col(c), b.col(c), Cell::Zero, n);
        lemma_count_grows(s.col(c), b.col(c), Cell::One, n);
    }
    assert forall|i: int, j: int| 0 <= i < j < n implies !#[trigger] b.same_rows(i, j) by {
        if b.same_rows(i, j) {
            assert forall|c: int| 0 <= c < n implies (#[trigger] s.at(i, c)).filled() && s.at(i, c)
                == s.at(j, c) by {
                assert(b.at(i, c).filled() && b.at(i, c) == b.at(j, c));
                assert(b.has(i, c) && b.has(j, c));
                assert(b.at(j, c).filled());
            }
            assert(s.same_rows(i, j));
        }
    }
    assert forall|i: int, j: int| 0 <= i < j < n implies !#[trigger] b.same_cols(i, j) by {
        if b.same_cols(i, j) {
            assert forall|r: int| 0 <= r < n implies (#[trigger] s.at(r, i)).filled() && s.at(r, i)
                == s.at(r, j) by {
                assert(b.at(r, i).filled() && b.at(r, i) == b.at(r, j));
                assert(b.has(r, i) && b.has(r, j));
                assert(b.at(r, j).filled());
            }
            assert(s.same_cols(i, j));
        }
    }
}

/// On a legal board the check of one cell holds for every cell.
pub proof fn lemma_legal_cells(b: Board, r: int, c: int)
    requires
        b.wf(),
        b.has(r, c),
        b.legal(),
    ensures
        b.cell_legal(r, c),
{
    assert(b.row_balanced(r) && b.col_balanced(c));
    assert forall|i: int| 0 <= i < b.size && i != r implies !#[trigger] b.same_rows(r, i) by {
        lemma_same_symmetric(b, r, i);
        if i < r {
            assert(!b.same_rows(i, r));
        }
    }
    assert forall|j: int| 0 <= j < b.size && j != c implies !#[trigger] b.same_cols(c, j) by {
        lemma_same_symmetric(b, c, j);
        if j < c {
            assert(!b.same_cols(j, c));
        }
    }
}

/// The check of one cell agrees with the check of the whole grid when that cell was
/// the only change: if a legal board has the empty cell `(r, c)` filled with a number,
/// the new board is legal exactly when the cell `(r, c)` is legal in it.
pub proof fn lemma_cell_check_agrees(b: Board, r: int, c: int, v: Cell)
    requires
        b.wf(),
        b.legal(),
        b.has(r, c),
        b.at(r, c) == Cell::Empty,
        v.filled(),
    ensures
        b.put(r, c, v).cell_legal(r, c) == b.put(r, c, v).legal(),
{
    let p = b.put(r, c, v);
    let n = b.size as int;
    lemma_put(b, r, c, v);
    if p.legal() {
        lemma_legal_cells(p, r, c);
    }
    if p.cell_legal(r, c) {
        assert(p.at(r, c) == v);
        assert forall|r2: int, c2: int| 0 <= r2 < n && 0 <= c2 && c2 + 2 < n implies !#[trigger] p.row_run(
            r2,
            c2,
        ) by {
            if r2 == r && c2 <= c <= c2 + 2 {
            } else {
                assert(!b.row_run(r2, c2));
                assert(b.has(r2, c2) && b.has(r2, c2 + 1) && b.has(r2, c2 + 2));
            }
        }
        assert forall|r2: int, c2: int| 0 <= r2 && r2 + 2 < n && 0 <= c2 < n implies !#[trigger] p.col_run(
            r2,
            c2,
        ) by {
            if c2 == c && r2 <= r <= r2 + 2 {
            } else {
                assert(!b.col_run(r2, c2));
                assert(b.has(r2, c2) && b.has(r2 + 1, c2) && b.has(r2 + 2, c2));
            }
        }
        assert forall|r2: int| 0 <= r2 < n implies #[trigger] p.row_balanced(r2) by {
            if r2 != r {
                assert(b.row_balanced(r2));
                assert(p.row(r2) == b.row(r2));
            }
        }
        assert forall|c2: int| 0 <= c2 < n implies #[trigger] p.col_balanced(c2) by {
            if c2 != c {
                assert(b.col_balanced(c2));
                assert forall|i: int| 0 <= i < n implies p.col(c2)[i] == b.col(c2)[i] by {
                    assert(b.has(i, c2));
                    assert(p.at(i, c2) == b.at(i, c2));
                }
                lemma_count_same(p.col(c2), b.col(c2), Cell::Zero, n);
                lemma_count_same(p.col(c2), b.col(c2), Cell::One, n);
            }
        }
        assert forall|i: int, j: int| 0 <= i < j < n implies !#[trigger] p.same_rows(i, j) by {
            if i == r {
                assert(!p.same_rows(r, j));
            } else if j == r {
                lemma_same_symmetric(p, r, i);
                assert(!p.same_rows(r, i));
            } else {
                assert(!b.same_rows(i, j));
                if p.same_rows(i, j) {
                    assert forall|k: int| 0 <= k < n implies (#[trigger] b.at(i, k)).filled()
                        && b.at(i, k) == b.at(j, k) by {
                        assert(b.has(i, k) && b.has(j, k));
                        assert(p.at(i, k).filled() && p.at(i, k) == p.at(j, k));
                    }
                }
            }
        }
        assert forall|i: int, j: int| 0 <= i < j < n implies !#[trigger] p.same_cols(i, j) by {
            if i == c {
                assert(!p.same_cols(c, j));
            } else if j == c {
                lemma_same_symmetric(p, c, i);
                assert(!p.same_cols(c, i));
            } else {
                assert(!b.same_cols(i, j));
                if p.same_cols(i, j) {
                    assert forall|k: int| 0 <= k < n implies (#[trigger] b.at(k, i)).filled()
                        && b.at(k, i) == b.at(k, j) by {
                        assert(b.has(k, i) && b.has(k, j));
                        assert(p.at(k, i).filled() && p.at(k, i) == p.at(k, j));
                    }
                }
            }
        }
    }
}

} // verus!
