//! When deduction has something to do: a pass changes a board exactly when the
//! board holds a window, a row or a column that the rule of the pass decides.

use crate::board::{lemma_put, Board};
use crate::cell::Cell;
use crate::deduce::{
    lemma_col_window_refines, lemma_row_window_refines, lemma_rule1_along_refines,
    lemma_rule1_step_refines, lemma_rule1_upto_refines, window_fill,
};
use crate::quota::{
    lemma_quota_has_empty, lemma_row_fill_refines, lemma_rule2_step_refines,
    lemma_rule2_upto_refines, lemma_with_col_filled, lemma_with_row_filled,
};
use crate::rules::count;
use crate::search::lemma_extends_empties;
use crate::twins::{
    lemma_count_witness_of_two, lemma_first_col_completing, lemma_first_row_completing,
    lemma_rule3_col_refines, lemma_rule3_row_refines, lemma_rule3_upto_refines,
    lemma_with_col_opposed, lemma_with_row_opposed,
};
use vstd::prelude::*;

verus! {

impl Board {
    /// Rule 1 decides a cell of the window of row `r` that starts at column `c`.
    pub open spec fn row_window_open(self, r: int, c: int) -> bool {
        window_fill(self.at(r, c), self.at(r, c + 1), self.at(r, c + 2)) is Some
    }

    /// Rule 1 decides a cell of the window of column `c` that starts at row `r`.
    pub open spec fn col_window_open(self, r: int, c: int) -> bool {
        window_fill(self.at(r, c), self.at(r + 1, c), self.at(r + 2, c)) is Some
    }

    /// Rule 1 decides a cell in the window of row `i` that starts at column `j`, or
    /// in the window of column `i` that starts at row `j`.
    pub open spec fn windows_open(self, i: int, j: int) -> bool {
        self.row_window_open(i, j) || self.col_window_open(j, i)
    }

    /// Rule 2 decides row `i` or column `i`.
    pub open spec fn quota_open(self, i: int) -> bool {
        self.row_quota(i) is Some || self.col_quota(i) is Some
    }

    /// Row `i` or column `i` has two empty cells and a line that completes it.
    pub open spec fn twin_open(self, i: int) -> bool {
        self.row_has_twin(i) || self.col_has_twin(i)
    }

    /// Some window of three cells has one empty cell and the same number in the
    /// two others.
    pub open spec fn rule1_applies(self) -> bool {
        ||| exists|r: int, c: int|
            0 <= r < self.size && 0 <= c && c + 2 < self.size && #[trigger] self.row_window_open(
                r,
                c,
            )
        ||| exists|r: int, c: int|
            0 <= r && r + 2 < self.size && 0 <= c < self.size && #[trigger] self.col_window_open(
                r,
                c,
            )
    }

    /// Some row or column holds half the size of one number and less of the other.
    pub open spec fn rule2_applies(self) -> bool {
        ||| exists|r: int| 0 <= r < self.size && (#[trigger] self.row_quota(r)) is Some
        ||| exists|c: int| 0 <= c < self.size && (#[trigger] self.col_quota(c)) is Some
    }

    /// Row `i` has two empty cells, and some row completes it.
    pub open spec fn row_has_twin(self, i: int) -> bool {
        count(self.row(i), Cell::Empty) == 2 && exists|l: int|
            0 <= l < self.size && #[trigger] self.row_completes(i, l)
    }

    /// Column `j` has two empty cells, and some column completes it.
    pub open spec fn col_has_twin(self, j: int) -> bool {
        count(self.col(j), Cell::Empty) == 2 && exists|m: int|
            0 <= m < self.size && #[trigger] self.col_completes(j, m)
    }

    /// Some row or column has two empty cells and a filled row or column that
    /// completes it.
    pub open spec fn rule3_applies(self) -> bool {
        ||| exists|i: int| 0 <= i < self.size && #[trigger] self.row_has_twin(i)
        ||| exists|j: int| 0 <= j < self.size && #[trigger] self.col_has_twin(j)
    }

    /// Some rule decides a cell of the board.
    pub open spec fn deducible(self) -> bool {
        self.rule1_applies() || self.rule2_applies() || self.rule3_applies()
    }
}

/// A board that keeps the numbers of a board that has changed has changed too.
pub proof fn lemma_change_stays(later: Board, changed: Board, b: Board)
    requires
        later.wf(),
        changed.wf(),
        b.wf(),
        later.extends(changed),
        changed.extends(b),
        changed != b,
    ensures
        later != b,
{
    lemma_extends_empties(changed, b);
    lemma_extends_empties(later, changed);
}

/// One step of rule 1 changes the board exactly when one of its two windows is
/// decided.
pub proof fn lemma_rule1_step_changes(b: Board, i: int, j: int)
    requires
        b.wf(),
        0 <= i < b.size,
        0 <= j,
        j + 2 < b.size,
    ensures
        (b.rule1_step(i, j) != b) == b.windows_open(i, j),
{
    let first = b.row_window_filled(i, j);
    lemma_row_window_refines(b, i, j);
    lemma_col_window_refines(first, j, i);
    match window_fill(b.at(i, j), b.at(i, j + 1), b.at(i, j + 2)) {
        Some((k, v)) => {
            lemma_put(b, i, j + k, v);
            assert(first.at(i, j + k) != b.at(i, j + k));
            lemma_change_stays(b.rule1_step(i, j), first, b);
        },
        None => {
            match window_fill(b.at(j, i), b.at(j + 1, i), b.at(j + 2, i)) {
                Some((k, v)) => {
                    lemma_put(b, j + k, i, v);
                    assert(b.rule1_step(i, j).at(j + k, i) != b.at(j + k, i));
                },
                None => {},
            }
        },
    }
}

/// The steps of rule 1 along one row and column change the board exactly when
/// one of their windows is decided.
pub proof fn lemma_rule1_along_changes(b: Board, i: int, j: int)
    requires
        b.wf(),
        0 <= i < b.size,
        0 <= j <= b.size - 2,
    ensures
        (b.rule1_along(i, j) != b) == exists|k: int|
            0 <= k < j && #[trigger] b.windows_open(i, k),
    decreases j,
{
    if j > 0 {
        let prev = b.rule1_along(i, j - 1);
        lemma_rule1_along_changes(b, i, j - 1);
        lemma_rule1_along_refines(b, i, j - 1);
        lemma_rule1_step_refines(prev, i, j - 1);
        if prev != b {
            lemma_change_stays(prev.rule1_step(i, j - 1), prev, b);
            let k = choose|k: int|
                0 <= k < j - 1 && #[trigger] b.windows_open(i, k);
            assert(0 <= k < j && b.windows_open(i, k));
        } else {
            lemma_rule1_step_changes(b, i, j - 1);
            if b.rule1_along(i, j) != b {
                assert(b.windows_open(i, j - 1));
            } else {
                assert forall|k: int| 0 <= k < j implies !#[trigger] b.windows_open(i, k) by {
                    if k < j - 1 {
                        assert(!b.windows_open(i, k));
                    }
                }
            }
        }
    }
}

/// The steps of rule 1 for the first rows and columns change the board exactly
/// when one of their windows is decided.
pub proof fn lemma_rule1_upto_changes(b: Board, i: int)
    requires
        b.wf(),
        0 <= i <= b.size,
    ensures
        (b.rule1_upto(i) != b) == exists|r: int, k: int|
            0 <= r < i && 0 <= k < b.size - 2 && #[trigger] b.windows_open(r, k),
    decreases i,
{
    if i > 0 {
        let prev = b.rule1_upto(i - 1);
        let last = b.size - 2;
        lemma_rule1_upto_changes(b, i - 1);
        lemma_rule1_upto_refines(b, i - 1);
        lemma_rule1_along_refines(prev, i - 1, last);
        if prev != b {
            lemma_change_stays(prev.rule1_along(i - 1, last), prev, b);
            let (r, k) = choose|r: int, k: int|
                0 <= r < i - 1 && 0 <= k < b.size - 2 && #[trigger] b.windows_open(r, k);
            assert(0 <= r < i && 0 <= k < b.size - 2 && b.windows_open(r, k));
        } else {
            lemma_rule1_along_changes(b, i - 1, last);
            if b.rule1_upto(i) != b {
                let k = choose|k: int|
                    0 <= k < last && #[trigger] b.windows_open(i - 1, k);
                assert(0 <= i - 1 < i && 0 <= k < b.size - 2 && b.windows_open(i - 1, k));
            } else {
                assert forall|r: int, k: int| 0 <= r < i && 0 <= k < b.size - 2 implies !#[trigger] b.windows_open(r, k) by {
                    if r < i - 1 {
                        assert(!b.windows_open(r, k));
                    } else {
                        assert(!b.windows_open(i - 1, k));
                    }
                }
            }
        }
    }
}

/// A pass of rule 1 changes the board exactly when some window of three cells has
/// one empty cell and the same number in the two others.
pub proof fn lemma_rule1_changes(b: Board)
    requires
        b.wf(),
    ensures
        (b.after_rule1() != b) == b.rule1_applies(),
{
    let n = b.size as int;
    lemma_rule1_upto_changes(b, n);
    if b.after_rule1() != b {
        let (r, k) = choose|r: int, k: int|
            0 <= r < n && 0 <= k < n - 2 && #[trigger] b.windows_open(r, k);
        if b.row_window_open(r, k) {
            assert(0 <= r < b.size && 0 <= k && k + 2 < b.size && b.row_window_open(r, k));
        } else {
            assert(0 <= k && k + 2 < b.size && 0 <= r < b.size && b.col_window_open(k, r));
        }
    }
    if b.rule1_applies() {
        if exists|r: int, c: int|
            0 <= r < b.size && 0 <= c && c + 2 < b.size && #[trigger] b.row_window_open(r, c) {
            let (r, c) = choose|r: int, c: int|
                0 <= r < b.size && 0 <= c && c + 2 < b.size && #[trigger] b.row_window_open(r, c);
            assert(0 <= r < n && 0 <= c < n - 2 && b.windows_open(r, c));
        } else {
            let (r, c) = choose|r: int, c: int|
                0 <= r && r + 2 < b.size && 0 <= c < b.size && #[trigger] b.col_window_open(r, c);
            assert(0 <= c < n && 0 <= r < n - 2 && b.windows_open(c, r));
        }
    }
}

/// One step of rule 2 changes the board exactly when it decides its row or its column.
pub proof fn lemma_rule2_step_changes(b: Board, i: int)
    requires
        b.wf(),
        0 <= i < b.size,
    ensures
        (b.rule2_step(i) != b) == b.quota_open(i),
{
    let first = match b.row_quota(i) {
        Some(v) => b.with_row_filled(i, v),
        None => b,
    };
    lemma_rule2_step_refines(b, i);
    match b.row_quota(i) {
        Some(v) => {
            lemma_row_fill_refines(b, i, v);
            lemma_with_row_filled(b, i, v);
            let p = lemma_quota_has_empty(b.row(i), b.half());
            assert(b.has(i, p));
            assert(first.at(i, p) != b.at(i, p));
            match b.col_quota(i) {
                Some(w) => {
                    crate::quota::lemma_col_fill_refines(b, first, i, w);
                    lemma_with_col_filled(first, i, w);
                    lemma_change_stays(b.rule2_step(i), first, b);
                },
                None => {},
            }
        },
        None => {
            match b.col_quota(i) {
                Some(w) => {
                    lemma_with_col_filled(b, i, w);
                    let p = lemma_quota_has_empty(b.col(i), b.half());
                    assert(b.has(p, i));
                    assert(b.rule2_step(i).at(p, i) != b.at(p, i));
                },
                None => {},
            }
        },
    }
}

/// The steps of rule 2 for the first rows and columns change the board exactly
/// when one of these rows and columns is decided.
pub proof fn lemma_rule2_upto_changes(b: Board, i: int)
    requires
        b.wf(),
        0 <= i <= b.size,
    ensures
        (b.rule2_upto(i) != b) == exists|k: int|
            0 <= k < i && #[trigger] b.quota_open(k),
    decreases i,
{
    if i > 0 {
        let prev = b.rule2_upto(i - 1);
        lemma_rule2_upto_changes(b, i - 1);
        lemma_rule2_upto_refines(b, i - 1);
        lemma_rule2_step_refines(prev, i - 1);
        if prev != b {
            lemma_change_stays(prev.rule2_step(i - 1), prev, b);
            let k = choose|k: int|
                0 <= k < i - 1 && #[trigger] b.quota_open(k);
            assert(0 <= k < i && b.quota_open(k));
        } else {
            lemma_rule2_step_changes(b, i - 1);
            if b.rule2_upto(i) != b {
                assert(b.quota_open(i - 1));
            } else {
                assert forall|k: int| 0 <= k < i implies !#[trigger] b.quota_open(k) by {
                    if k < i - 1 {
                        assert(!b.quota_open(k));
                    }
                }
            }
        }
    }
}

/// A pass of rule 2 changes the board exactly when some row or column holds half
/// the size of one number and less of the other.
pub proof fn lemma_rule2_changes(b: Board)
    requires
        b.wf(),
    ensures
        (b.after_rule2() != b) == b.rule2_applies(),
{
    let n = b.size as int;
    lemma_rule2_upto_changes(b, n);
    if b.after_rule2() != b {
        let k = choose|k: int|
            0 <= k < n && #[trigger] b.quota_open(k);
        if b.row_quota(k) is Some {
            assert(0 <= k < b.size && b.row_quota(k) is Some);
        } else {
            assert(0 <= k < b.size && b.col_quota(k) is Some);
        }
    }
    if b.rule2_applies() {
        if exists|r: int| 0 <= r < b.size && (#[trigger] b.row_quota(r)) is Some {
            let r = choose|r: int| 0 <= r < b.size && (#[trigger] b.row_quota(r)) is Some;
            assert(0 <= r < n && b.quota_open(r));
        } else {
            let c = choose|c: int| 0 <= c < b.size && (#[trigger] b.col_quota(c)) is Some;
            assert(0 <= c < n && b.quota_open(c));
        }
    }
}

/// Rule 3 changes a row exactly when the row has two empty cells and a row that
/// completes it.
pub proof fn lemma_rule3_row_changes(b: Board, i: int)
    requires
        b.wf(),
        0 <= i < b.size,
    ensures
        (b.rule3_row(i) != b) == b.row_has_twin(i),
{
    let n = b.size as int;
    let l = b.first_row_completing(i, 0);
    lemma_first_row_completing(b, i, 0);
    if count(b.row(i), Cell::Empty) == 2 {
        if l < n {
            assert(0 <= l < b.size && b.row_completes(i, l));
            lemma_with_row_opposed(b, i, l);
            let p = lemma_count_witness_of_two(b.row(i), n);
            assert(b.has(i, p) && b.has(l, p));
            assert(b.at(l, p).filled());
            assert(b.rule3_row(i).at(i, p) != b.at(i, p));
        } else {
            assert forall|k: int| 0 <= k < b.size implies !#[trigger] b.row_completes(i, k) by {}
        }
    }
}

/// Rule 3 changes a column exactly when the column has two empty cells and a
/// column that completes it.
pub proof fn lemma_rule3_col_changes(b: Board, j: int)
    requires
        b.wf(),
        0 <= j < b.size,
    ensures
        (b.rule3_col(j) != b) == b.col_has_twin(j),
{
    let n = b.size as int;
    let m = b.first_col_completing(j, 0);
    lemma_first_col_completing(b, j, 0);
    if count(b.col(j), Cell::Empty) == 2 {
        if m < n {
            assert(0 <= m < b.size && b.col_completes(j, m));
            lemma_with_col_opposed(b, j, m);
            let p = lemma_count_witness_of_two(b.col(j), n);
            assert(b.has(p, j) && b.has(p, m));
            assert(b.at(p, m).filled());
            assert(b.rule3_col(j).at(p, j) != b.at(p, j));
        } else {
            assert forall|k: int| 0 <= k < b.size implies !#[trigger] b.col_completes(j, k) by {}
        }
    }
}

/// One step of rule 3 changes the board exactly when its row or its column has
/// two empty cells and a line that completes it.
pub proof fn lemma_rule3_step_changes(b: Board, i: int)
    requires
        b.wf(),
        0 <= i < b.size,
    ensures
        (b.rule3_step(i) != b) == b.twin_open(i),
{
    let first = b.rule3_row(i);
    lemma_rule3_row_changes(b, i);
    lemma_rule3_row_refines(b, i);
    lemma_rule3_col_refines(first, i);
    if first != b {
        lemma_change_stays(first.rule3_col(i), first, b);
    } else {
        lemma_rule3_col_changes(b, i);
    }
}

/// The steps of rule 3 for the first rows and columns change the board exactly
/// when one of these rows and columns has two empty cells and a line that
/// completes it.
pub proof fn lemma_rule3_upto_changes(b: Board, i: int)
    requires
        b.wf(),
        0 <= i <= b.size,
    ensures
        (b.rule3_upto(i) != b) == exists|k: int|
            0 <= k < i && #[trigger] b.twin_open(k),
    decreases i,
{
    if i > 0 {
        let prev = b.rule3_upto(i - 1);
        lemma_rule3_upto_changes(b, i - 1);
        lemma_rule3_upto_refines(b, i - 1);
        lemma_rule3_upto_refines(b, i);
        if prev != b {
            assert(b.rule3_upto(i) == prev.rule3_step(i - 1));
            lemma_rule3_row_refines(prev, i - 1);
            lemma_rule3_col_refines(prev.rule3_row(i - 1), i - 1);
            crate::deduce::lemma_refines_order(
                prev.rule3_step(i - 1),
                prev.rule3_row(i - 1),
                prev,
            );
            lemma_change_stays(prev.rule3_step(i - 1), prev, b);
            let k = choose|k: int|
                0 <= k < i - 1 && #[trigger] b.twin_open(k);
            assert(0 <= k < i && b.twin_open(k));
        } else {
            lemma_rule3_step_changes(b, i - 1);
            if b.rule3_upto(i) != b {
                assert(b.twin_open(i - 1));
            } else {
                assert forall|k: int| 0 <= k < i implies !#[trigger] b.twin_open(k) by {
                    if k < i - 1 {
                        assert(!b.twin_open(k));
                    }
                }
            }
        }
    }
}

/// A pass of rule 3 changes the board exactly when some row or column has two
/// empty cells and a filled row or column that completes it.
pub proof fn lemma_rule3_changes(b: Board)
    requires
        b.wf(),
    ensures
        (b.after_rule3() != b) == b.rule3_applies(),
{
    let n = b.size as int;
    lemma_rule3_upto_changes(b, n);
    if b.after_rule3() != b {
        let k = choose|k: int| 0 <= k < n && #[trigger] b.twin_open(k);
        if b.row_has_twin(k) {
            assert(0 <= k < b.size && b.row_has_twin(k));
        } else {
            assert(0 <= k < b.size && b.col_has_twin(k));
        }
    }
    if b.rule3_applies() {
        if exists|r: int| 0 <= r < b.size && #[trigger] b.row_has_twin(r) {
            let r = choose|r: int| 0 <= r < b.size && #[trigger] b.row_has_twin(r);
            assert(0 <= r < n && b.twin_open(r));
        } else {
            let c = choose|c: int| 0 <= c < b.size && #[trigger] b.col_has_twin(c);
            assert(0 <= c < n && b.twin_open(c));
        }
    }
}

/// A round of deduction changes the board exactly when some rule decides a cell:
/// the boards that deduction leaves as they are, its fixpoints, are the boards on
/// which no rule has anything to say.
pub proof fn lemma_propagated_changes(b: Board)
    requires
        b.wf(),
    ensures
        (b.propagated() != b) == b.deducible(),
{
    lemma_rule1_changes(b);
    lemma_rule2_changes(b);
    lemma_rule3_changes(b);
}

} // verus!
