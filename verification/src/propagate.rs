//! Filling in the cells that the rules force.

use crate::board::{lemma_put, Board};
use crate::cell::Cell;
use crate::deduce::{
    lemma_col_window_refines, lemma_refines_order, lemma_refines_self, lemma_row_window_refines,
    window_fill,
};
use crate::grid::Grid;
use crate::quota::{
    lemma_col_fill_refines, lemma_quota_has_empty, lemma_row_fill_refines, lemma_with_col_filled,
    lemma_with_row_filled, or_else, quota_fill,
};
use crate::rules::{count, lemma_count_total};
use crate::twins::{
    lemma_col_oppose_refines, lemma_count_witness_of_two, lemma_first_col_completing,
    lemma_first_row_completing, lemma_row_oppose_refines, lemma_with_col_opposed,
    lemma_with_row_opposed, or_opposite,
};
use vstd::prelude::*;

verus! {

/// A board that has an empty cell of an earlier board filled differs from the earlier board.
pub proof fn lemma_fill_differs(orig: Board, cur: Board, r: int, c: int, v: Cell)
    requires
        cur.wf(),
        cur.extends(orig),
        cur.has(r, c),
        cur.at(r, c) == Cell::Empty,
        v.filled(),
    ensures
        cur.put(r, c, v) != orig,
{
    lemma_put(cur, r, c, v);
    assert(orig.has(r, c));
    if orig.at(r, c).filled() {
        assert(cur.at(r, c) == orig.at(r, c));
    }
    assert(cur.put(r, c, v).at(r, c) != orig.at(r, c));
}

/// Finds the cell of a window of three that rule 1 decides, as its offset in the
/// window, and the number that it must hold.
pub fn window_choice(a: Cell, b: Cell, c: Cell) -> (res: Option<(usize, Cell)>)
    ensures
        match res {
            Some((k, v)) => window_fill(a, b, c) == Some((k as int, v)) && k <= 2 && v.filled(),
            None => window_fill(a, b, c) is None,
        },
{
    if a.is_empty() && b.is_filled() && b == c {
        Some((0, core::ops::Not::not(b)))
    } else if b.is_empty() && a.is_filled() && a == c {
        Some((1, core::ops::Not::not(a)))
    } else if c.is_empty() && a.is_filled() && a == b {
        Some((2, core::ops::Not::not(a)))
    } else {
        None
    }
}

impl Board {
    /// The board after one round of deduction: the pass of rule 1; if that changes
    /// nothing, the pass of rule 2; if that changes nothing either, the pass of rule 3.
    pub open spec fn propagated(self) -> Board {
        if self.after_rule1() != self {
            self.after_rule1()
        } else if self.after_rule2() != self {
            self.after_rule2()
        } else {
            self.after_rule3()
        }
    }
}

/// A round of deduction loses no solution: the board that it gives keeps the numbers
/// of the board it was given, and every solution of the one is a solution of the other.
pub proof fn lemma_propagated_refines(b: Board)
    requires
        b.wf(),
    ensures
        b.propagated().refines(b),
{
    crate::deduce::lemma_rule1_refines(b);
    crate::quota::lemma_rule2_refines(b);
    crate::twins::lemma_rule3_refines(b);
}

/// Deduction is idempotent at its fixpoint: where a round of deduction changes
/// nothing, none of the three passes changes anything, and a further round gives
/// the same board again.
pub proof fn lemma_fixpoint(b: Board)
    requires
        b.propagated() == b,
    ensures
        b.after_rule1() == b,
        b.after_rule2() == b,
        b.after_rule3() == b,
        b.propagated().propagated() == b,
{
}

/// A board that holds a number where an earlier board is empty differs from it.
pub proof fn lemma_differs(orig: Board, cur: Board, r: int, c: int)
    requires
        orig.at(r, c) == Cell::Empty,
        cur.at(r, c).filled(),
    ensures
        cur != orig,
{
}

/// Finds the number that rule 2 puts in the empty cells of a line with `zeros`
/// zeros and `ones` ones, where a line may hold `half` of each.
pub fn quota_choice(half: usize, zeros: usize, ones: usize) -> (res: Option<Cell>)
    ensures
        res == quota_fill(half as int, zeros as int, ones as int),
{
    if zeros == half && ones != half {
        Some(Cell::One)
    } else if ones == half && zeros != half {
        Some(Cell::Zero)
    } else {
        None
    }
}

impl Grid {
    /// Disambiguates empty cells after rule 1.
    ///
    /// Rule 1: no more than two of either number adjacent to each other
    /// (both vertically and horizontally).
    ///
    /// Returns `true` if the grid was modified.
    pub fn apply_rule1(&mut self) -> (changed: bool)
        ensures
            final(self)@ == old(self)@.after_rule1(),
            changed == (final(self)@ != old(self)@),
            changed == old(self)@.rule1_applies(),
            final(self)@.refines(old(self)@),
    {
        let size = self.size();
        let ghost orig = self@;
        proof {
            lemma_refines_self(orig);
            crate::fixpoint::lemma_rule1_changes(orig);
        }
        let mut rule_applied = false;
        let mut i: usize = 0;
        while i < size
            invariant
                orig.wf(),
                size == orig.size,
                i <= size,
                self@ == orig.rule1_upto(i as int),
                self@.refines(orig),
                rule_applied == (self@ != orig),
            decreases size - i,
        {
            let ghost start = self@;
            let mut j: usize = 0;
            while j < size - 2
                invariant
                    orig.wf(),
                    size == orig.size,
                    i < size,
                    j <= size - 2,
                    self@ == start.rule1_along(i as int, j as int),
                    self@.refines(orig),
                    rule_applied == (self@ != orig),
                decreases size - j,
            {
                let ghost before = self@;
                let choice = window_choice(
                    self.get(i, j),
                    self.get(i, j + 1),
                    self.get(i, j + 2),
                );
                if let Some((k, v)) = choice {
                    self.set(i, j + k, v);
                    rule_applied = true;
                    proof {
                        lemma_fill_differs(orig, before, i as int, j + k, v);
                    }
                }
                proof {
                    assert(self@ == before.row_window_filled(i as int, j as int));
                    lemma_row_window_refines(before, i as int, j as int);
                    lemma_refines_order(self@, before, orig);
                }
                let ghost middle = self@;
                let choice = window_choice(
                    self.get(j, i),
                    self.get(j + 1, i),
                    self.get(j + 2, i),
                );
                if let Some((k, v)) = choice {
                    self.set(j + k, i, v);
                    rule_applied = true;
                    proof {
                        lemma_fill_differs(orig, middle, j + k, i as int, v);
                    }
                }
                proof {
                    assert(self@ == middle.col_window_filled(j as int, i as int));
                    lemma_col_window_refines(middle, j as int, i as int);
                    lemma_refines_order(self@, middle, orig);
                    assert(self@ == before.rule1_step(i as int, j as int));
                }
                j += 1;
            }
            i += 1;
        }
        rule_applied
    }

    /// Puts `value` in every empty cell of a row.
    pub fn fill_row(&mut self, row: usize, value: Cell)
        requires
            row < old(self)@.size,
        ensures
            final(self)@ == old(self)@.with_row_filled(row as int, value),
            final(self)@.wf(),
    {
        let size = self.size();
        let ghost orig = self@;
        let mut j: usize = 0;
        while j < size
            invariant
                orig.wf(),
                self@.wf(),
                size == orig.size,
                self@.size == orig.size,
                row < size,
                j <= size,
                forall|r: int, c: int|
                    orig.has(r, c) ==> #[trigger] self@.at(r, c) == if r == row && c < j {
                        or_else(orig.at(r, c), value)
                    } else {
                        orig.at(r, c)
                    },
            decreases size - j,
        {
            let ghost before = self@;
            if self.get(row, j).is_empty() {
                self.set(row, j, value);
                proof {
                    lemma_put(before, row as int, j as int, value);
                }
            }
            j += 1;
        }
        proof {
            lemma_with_row_filled(orig, row as int, value);
            crate::board::lemma_board_ext(self@, orig.with_row_filled(row as int, value));
        }
    }

    /// Puts `value` in every empty cell of a column.
    pub fn fill_col(&mut self, col: usize, value: Cell)
        requires
            col < old(self)@.size,
        ensures
            final(self)@ == old(self)@.with_col_filled(col as int, value),
            final(self)@.wf(),
    {
        let size = self.size();
        let ghost orig = self@;
        let mut j: usize = 0;
        while j < size
            invariant
                orig.wf(),
                self@.wf(),
                size == orig.size,
                self@.size == orig.size,
                col < size,
                j <= size,
                forall|r: int, c: int|
                    orig.has(r, c) ==> #[trigger] self@.at(r, c) == if c == col && r < j {
                        or_else(orig.at(r, c), value)
                    } else {
                        orig.at(r, c)
                    },
            decreases size - j,
        {
            let ghost before = self@;
            if self.get(j, col).is_empty() {
                self.set(j, col, value);
                proof {
                    lemma_put(before, j as int, col as int, value);
                }
            }
            j += 1;
        }
        proof {
            lemma_with_col_filled(orig, col as int, value);
            crate::board::lemma_board_ext(self@, orig.with_col_filled(col as int, value));
        }
    }

    /// Disambiguates empty cells after rule 2.
    ///
    /// Rule 2: each row and each column should contain an equal number of 0s and 1s.
    ///
    /// Returns `true` if the grid was modified.
    pub fn apply_rule2(&mut self) -> (changed: bool)
        ensures
            final(self)@ == old(self)@.after_rule2(),
            changed == (final(self)@ != old(self)@),
            changed == old(self)@.rule2_applies(),
            final(self)@.refines(old(self)@),
    {
        let size = self.size();
        let nmax = size / 2;
        let ghost orig = self@;
        proof {
            lemma_refines_self(orig);
            crate::fixpoint::lemma_rule2_changes(orig);
        }
        let mut rule_applied = false;
        let mut i: usize = 0;
        while i < size
            invariant
                orig.wf(),
                size == orig.size,
                nmax == orig.half(),
                i <= size,
                self@ == orig.rule2_upto(i as int),
                self@.refines(orig),
                rule_applied == (self@ != orig),
            decreases size - i,
        {
            let ghost before = self@;
            let in_row = self.row_counts(i);
            let in_col = self.col_counts(i);
            let for_row = quota_choice(nmax, in_row.0, in_row.1);
            let for_col = quota_choice(nmax, in_col.0, in_col.1);
            assert(for_row == before.row_quota(i as int));
            assert(for_col == before.col_quota(i as int));
            if let Some(v) = for_row {
                self.fill_row(i, v);
                rule_applied = true;
                proof {
                    lemma_row_fill_refines(before, i as int, v);
                    lemma_refines_order(self@, before, orig);
                    lemma_with_row_filled(before, i as int, v);
                    let p = lemma_quota_has_empty(before.row(i as int), before.half());
                    assert(before.has(i as int, p));
                    assert(before.at(i as int, p) == Cell::Empty);
                    assert(orig.has(i as int, p));
                    if orig.at(i as int, p).filled() {
                        assert(before.at(i as int, p) == orig.at(i as int, p));
                    }
                    lemma_differs(orig, self@, i as int, p);
                }
            }
            let ghost middle = self@;
            if let Some(v) = for_col {
                self.fill_col(i, v);
                rule_applied = true;
                proof {
                    lemma_refines_self(before);
                    if for_row is Some {
                        lemma_row_fill_refines(before, i as int, for_row->Some_0);
                    }
                    lemma_col_fill_refines(before, middle, i as int, v);
                    lemma_refines_order(self@, before, orig);
                    lemma_with_col_filled(middle, i as int, v);
                    let p = lemma_quota_has_empty(before.col(i as int), before.half());
                    assert(before.has(p, i as int));
                    assert(before.at(p, i as int) == Cell::Empty);
                    assert(orig.has(p, i as int));
                    if orig.at(p, i as int).filled() {
                        assert(before.at(p, i as int) == orig.at(p, i as int));
                    }
                    assert(middle.has(p, i as int));
                    lemma_differs(orig, self@, p, i as int);
                }
            }
            assert(self@ == before.rule2_step(i as int));
            i += 1;
        }
        rule_applied
    }

    /// Counts the empty cells of a row.
    pub fn row_empties(&self, row: usize) -> (n: usize)
        requires
            row < self@.size,
        ensures
            n == count(self@.row(row as int), Cell::Empty),
    {
        let size = self.size();
        let filled = self.row_counts(row);
        proof {
            lemma_count_total(self@.row(row as int), size as int);
        }
        size - filled.0 - filled.1
    }

    /// Counts the empty cells of a column.
    pub fn col_empties(&self, col: usize) -> (n: usize)
        requires
            col < self@.size,
        ensures
            n == count(self@.col(col as int), Cell::Empty),
    {
        let size = self.size();
        let filled = self.col_counts(col);
        proof {
            lemma_count_total(self@.col(col as int), size as int);
        }
        size - filled.0 - filled.1
    }

    /// Tells whether `other` is another row than `row`, is filled, and holds every
    /// number that `row` holds.
    pub fn row_completes(&self, row: usize, other: usize) -> (b: bool)
        requires
            row < self@.size,
            other < self@.size,
        ensures
            b == self@.row_completes(row as int, other as int),
    {
        if other == row {
            return false;
        }
        let size = self.size();
        let mut k: usize = 0;
        while k < size
            invariant
                self@.wf(),
                size == self@.size,
                row < size,
                other < size,
                k <= size,
                forall|c: int|
                    0 <= c < k ==> (#[trigger] self@.at(other as int, c)).filled() && (self@.at(
                        row as int,
                        c,
                    ).filled() ==> self@.at(row as int, c) == self@.at(other as int, c)),
            decreases size - k,
        {
            let theirs = self.get(other, k);
            let ours = self.get(row, k);
            if theirs.is_empty() || (ours.is_filled() && ours != theirs) {
                return false;
            }
            k += 1;
        }
        true
    }

    /// Tells whether `other` is another column than `col`, is filled, and holds
    /// every number that `col` holds.
    pub fn col_completes(&self, col: usize, other: usize) -> (b: bool)
        requires
            col < self@.size,
            other < self@.size,
        ensures
            b == self@.col_completes(col as int, other as int),
    {
        if other == col {
            return false;
        }
        let size = self.size();
        let mut k: usize = 0;
        while k < size
            invariant
                self@.wf(),
                size == self@.size,
                col < size,
                other < size,
                k <= size,
                forall|r: int|
                    0 <= r < k ==> (#[trigger] self@.at(r, other as int)).filled() && (self@.at(
                        r,
                        col as int,
                    ).filled() ==> self@.at(r, col as int) == self@.at(r, other as int)),
            decreases size - k,
        {
            let theirs = self.get(k, other);
            let ours = self.get(k, col);
            if theirs.is_empty() || (ours.is_filled() && ours != theirs) {
                return false;
            }
            k += 1;
        }
        true
    }

    /// Finds the first row that completes `row`; returns the size if there is none.
    pub fn find_row_completing(&self, row: usize) -> (found: usize)
        requires
            row < self@.size,
        ensures
            found == self@.first_row_completing(row as int, 0),
            found <= self@.size,
            found < self@.size ==> self@.row_completes(row as int, found as int),
    {
        let size = self.size();
        let mut l: usize = 0;
        proof {
            lemma_first_row_completing(self@, row as int, 0);
        }
        while l < size
            invariant
                self@.wf(),
                size == self@.size,
                row < size,
                l <= size,
                self@.first_row_completing(row as int, 0) == self@.first_row_completing(
                    row as int,
                    l as int,
                ),
            decreases size - l,
        {
            if self.row_completes(row, l) {
                return l;
            }
            l += 1;
        }
        size
    }

    /// Finds the first column that completes `col`; returns the size if there is none.
    pub fn find_col_completing(&self, col: usize) -> (found: usize)
        requires
            col < self@.size,
        ensures
            found == self@.first_col_completing(col as int, 0),
            found <= self@.size,
            found < self@.size ==> self@.col_completes(col as int, found as int),
    {
        let size = self.size();
        let mut m: usize = 0;
        proof {
            lemma_first_col_completing(self@, col as int, 0);
        }
        while m < size
            invariant
                self@.wf(),
                size == self@.size,
                col < size,
                m <= size,
                self@.first_col_completing(col as int, 0) == self@.first_col_completing(
                    col as int,
                    m as int,
                ),
            decreases size - m,
        {
            if self.col_completes(col, m) {
                return m;
            }
            m += 1;
        }
        size
    }

    /// Puts in each empty cell of `row` the other number than `other` holds in that column.
    pub fn oppose_row(&mut self, row: usize, other: usize)
        requires
            row < old(self)@.size,
            other < old(self)@.size,
            other != row,
        ensures
            final(self)@ == old(self)@.with_row_opposed(row as int, other as int),
            final(self)@.wf(),
    {
        let size = self.size();
        let ghost orig = self@;
        let mut j: usize = 0;
        while j < size
            invariant
                orig.wf(),
                self@.wf(),
                size == orig.size,
                self@.size == orig.size,
                row < size,
                other < size,
                other != row,
                j <= size,
                forall|r: int, c: int|
                    orig.has(r, c) ==> #[trigger] self@.at(r, c) == if r == row && c < j {
                        or_opposite(orig.at(r, c), orig.at(other as int, c))
                    } else {
                        orig.at(r, c)
                    },
            decreases size - j,
        {
            let ghost before = self@;
            if self.get(row, j).is_empty() {
                assert(orig.has(other as int, j as int));
                let value = core::ops::Not::not(self.get(other, j));
                self.set(row, j, value);
                proof {
                    lemma_put(before, row as int, j as int, value);
                }
            }
            j += 1;
        }
        proof {
            lemma_with_row_opposed(orig, row as int, other as int);
            crate::board::lemma_board_ext(self@, orig.with_row_opposed(row as int, other as int));
        }
    }

    /// Puts in each empty cell of `col` the other number than `other` holds in that row.
    pub fn oppose_col(&mut self, col: usize, other: usize)
        requires
            col < old(self)@.size,
            other < old(self)@.size,
            other != col,
        ensures
            final(self)@ == old(self)@.with_col_opposed(col as int, other as int),
            final(self)@.wf(),
    {
        let size = self.size();
        let ghost orig = self@;
        let mut j: usize = 0;
        while j < size
            invariant
                orig.wf(),
                self@.wf(),
                size == orig.size,
                self@.size == orig.size,
                col < size,
                other < size,
                other != col,
                j <= size,
                forall|r: int, c: int|
                    orig.has(r, c) ==> #[trigger] self@.at(r, c) == if c == col && r < j {
                        or_opposite(orig.at(r, c), orig.at(r, other as int))
                    } else {
                        orig.at(r, c)
                    },
            decreases size - j,
        {
            let ghost before = self@;
            if self.get(j, col).is_empty() {
                assert(orig.has(j as int, other as int));
                let value = core::ops::Not::not(self.get(j, other));
                self.set(j, col, value);
                proof {
                    lemma_put(before, j as int, col as int, value);
                }
            }
            j += 1;
        }
        proof {
            lemma_with_col_opposed(orig, col as int, other as int);
            crate::board::lemma_board_ext(self@, orig.with_col_opposed(col as int, other as int));
        }
    }

    /// Disambiguates empty cells after rule 3.
    ///
    /// Rule 3: no two rows and no two columns can be the same.
    ///
    /// Returns `true` if the grid was modified.
    pub fn apply_rule3(&mut self) -> (changed: bool)
        ensures
            final(self)@ == old(self)@.after_rule3(),
            changed == (final(self)@ != old(self)@),
            changed == old(self)@.rule3_applies(),
            final(self)@.refines(old(self)@),
    {
        let size = self.size();
        let ghost orig = self@;
        proof {
            lemma_refines_self(orig);
            crate::fixpoint::lemma_rule3_changes(orig);
        }
        let mut rule_applied = false;
        let mut i: usize = 0;
        while i < size
            invariant
                orig.wf(),
                size == orig.size,
                i <= size,
                self@ == orig.rule3_upto(i as int),
                self@.refines(orig),
                rule_applied == (self@ != orig),
            decreases size - i,
        {
            let ghost before = self@;
            if self.row_empties(i) == 2 {
                let l = self.find_row_completing(i);
                if l < size {
                    self.oppose_row(i, l);
                    rule_applied = true;
                    proof {
                        lemma_row_oppose_refines(before, i as int, l as int);
                        lemma_refines_order(self@, before, orig);
                        lemma_with_row_opposed(before, i as int, l as int);
                        let p = lemma_count_witness_of_two(before.row(i as int), size as int);
                        assert(before.has(i as int, p) && before.has(l as int, p));
                        assert(before.at(l as int, p).filled());
                        assert(orig.has(i as int, p));
                        if orig.at(i as int, p).filled() {
                            assert(before.at(i as int, p) == orig.at(i as int, p));
                        }
                        lemma_differs(orig, self@, i as int, p);
                    }
                }
            }
            assert(self@ == before.rule3_row(i as int));
            let ghost middle = self@;
            if self.col_empties(i) == 2 {
                let m = self.find_col_completing(i);
                if m < size {
                    self.oppose_col(i, m);
                    rule_applied = true;
                    proof {
                        lemma_col_oppose_refines(middle, i as int, m as int);
                        lemma_refines_order(self@, middle, orig);
                        lemma_with_col_opposed(middle, i as int, m as int);
                        let p = lemma_count_witness_of_two(middle.col(i as int), size as int);
                        assert(middle.has(p, i as int) && middle.has(p, m as int));
                        assert(middle.at(p, m as int).filled());
                        assert(orig.has(p, i as int));
                        if orig.at(p, i as int).filled() {
                            assert(middle.at(p, i as int) == orig.at(p, i as int));
                        }
                        lemma_differs(orig, self@, p, i as int);
                    }
                }
            }
            assert(self@ == middle.rule3_col(i as int));
            i += 1;
        }
        rule_applied
    }

    /// Skims through the grid once, filling in the blanks
    /// where the value is unambiguous according to one of the rules,
    /// then returns if the grid was modified or repeats the operation
    /// for the next rule. Each rule is applied once at the most.
    ///
    /// Returns `true` if the grid was modified.
    ///
    /// # Warning
    ///
    /// Does not guarantee the legality of the modifications.
    /// For performance reasons, deductions made from a rule are not
    /// checked for legality against the other rules. This can result in
    /// grids with no legal solution being filled illegally.
    /// Grids with one or more legal solution(s) are not affected.
    pub fn apply_rules(&mut self) -> (changed: bool)
        ensures
            final(self)@ == old(self)@.propagated(),
            changed == (final(self)@ != old(self)@),
            changed == old(self)@.deducible(),
            final(self)@.refines(old(self)@),
    {
        if self.apply_rule1() {
            return true;
        }
        if self.apply_rule2() {
            return true;
        }
        self.apply_rule3()
    }
}

} // verus!
