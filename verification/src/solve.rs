//! The solver: deduction to its fixpoint, and the search that tries both numbers
//! where deduction stops.

use crate::board::{lemma_board_ext, lemma_put, Board};
use crate::cell::Cell;
use crate::error::GridError;
use crate::grid::Grid;
use crate::laws::{lemma_extends_order, lemma_legal_cells, lemma_legal_downward};
use crate::search::{
    conflict, frontier, lemma_empties_bounds, lemma_extends_empties, lemma_frontier_dead,
    lemma_frontier_end, lemma_frontier_fork, lemma_frontier_solved, lemma_frontier_start,
    lemma_load_bounds, lemma_load_fork, lemma_settled, lists_solutions, load, settled, views,
};
use vstd::prelude::*;

verus! {

/// Filling an empty cell with a number gives a board with fewer empty cells, and
/// the board that deduction makes of it keeps every solution that holds this number there.
pub proof fn lemma_branch(parent: Board, r: int, c: int, v: Cell, kid: Board)
    requires
        parent.wf(),
        parent.has(r, c),
        parent.at(r, c) == Cell::Empty,
        v.filled(),
        kid.refines(parent.put(r, c, v)),
    ensures
        kid.wf(),
        kid.extends(parent),
        kid.at(r, c) == v,
        kid.empties() < parent.empties(),
        forall|s: Board| s.solves(parent) && s.at(r, c) == v ==> #[trigger] s.extends(kid),
{
    let tried = parent.put(r, c, v);
    lemma_put(parent, r, c, v);
    crate::laws::lemma_put_extends(parent, r, c, v);
    lemma_extends_order(kid, tried, parent);
    assert(tried.has(r, c) && tried.at(r, c).filled());
    lemma_extends_empties(tried, parent);
    lemma_extends_empties(kid, tried);
    assert forall|s: Board| s.solves(parent) && s.at(r, c) == v implies #[trigger] s.extends(
        kid,
    ) by {
        assert forall|r2: int, c2: int|
            tried.has(r2, c2) && (#[trigger] tried.at(r2, c2)).filled() implies s.at(r2, c2)
            == tried.at(r2, c2) by {
            if r2 != r || c2 != c {
                assert(parent.has(r2, c2) && parent.at(r2, c2).filled());
            }
        }
        assert(s.solves(tried));
    }
}

/// No solution keeps the numbers of a board in which some cell is not legal.
pub proof fn lemma_pruned(b: Board, r: int, c: int, s: Board)
    requires
        b.wf(),
        b.has(r, c),
        !b.cell_legal(r, c),
        s.wf(),
        s.extends(b),
    ensures
        !s.legal(),
{
    if s.legal() {
        lemma_legal_downward(s, b);
        lemma_legal_cells(b, r, c);
    }
}

impl Grid {
    /// Applies the rules until they change nothing more.
    pub fn settle(&mut self)
        ensures
            final(self)@ == settled(old(self)@),
            final(self)@.refines(old(self)@),
            final(self)@.propagated() == final(self)@,
    {
        let ghost orig = self@;
        // A grid always stands for a well-formed board; asking for its size says so.
        let _size = self.size();
        proof {
            lemma_settled(orig);
        }
        loop
            invariant_except_break
                self@.wf(),
                settled(self@) == settled(orig),
            ensures
                self@ == settled(orig),
            decreases self@.empties(),
        {
            let ghost before = self@;
            let changed = self.apply_rules();
            if !changed {
                break ;
            }
            proof {
                lemma_extends_empties(self@, before);
                lemma_empties_bounds(self@);
            }
        }
    }

    /// Solves the grid using both rules logic and a backtracking algorithm,
    /// and returns an array containing the solution(s).
    ///
    /// If no solution exists, an empty array is returned.
    ///
    /// # Errors
    ///
    /// Returns an error before any attempt at solving if
    /// the grid breaks any of the rules.
    ///
    /// Use the [`is_legal()`](Grid::is_legal) method to know if the grid will trigger an `Err`.
    pub fn solve(&self) -> (res: Result<Vec<Grid>, GridError>)
        ensures
            !self@.legal() ==> res == Err::<Vec<Grid>, GridError>(GridError::Illegal),
            self@.legal() ==> res is Ok && lists_solutions(self@, views(res->Ok_0@)),
    {
        if !self.is_legal() {
            return Err(GridError::Illegal);
        }
        let mut stack: Vec<Grid> = Vec::new();
        let mut solutions: Vec<Grid> = Vec::new();
        let mut grid = self.clone();
        grid.settle();
        proof {
            lemma_frontier_start(self@, grid@);
            assert(views(stack@.push(grid)) =~= seq![grid@]);
            assert(views(solutions@) =~= Seq::<Board>::empty());
        }
        stack.push(grid);
        while stack.len() > 0
            invariant
                frontier(self@, views(solutions@), views(stack@)),
            decreases load(views(stack@)),
        {
            let ghost open = views(stack@);
            let ghost done = views(solutions@);
            let mut grid = stack.pop().unwrap();
            let ghost parent = grid@;
            let ghost rest = open.drop_last();
            proof {
                assert(views(stack@) =~= rest);
                assert(open.last() == parent);
                assert(parent == open[open.len() - 1]);
                assert(parent.wf());
                lemma_load_bounds(rest);
                lemma_empties_bounds(parent);
            }
            match grid.next_empty() {
                Some((row, col)) => {
                    let ghost mut kids: Seq<Board> = Seq::empty();
                    grid.set(row, col, Cell::One);
                    let ghost one = grid@;
                    let one_fits = grid.is_cell_legal(row, col);
                    if one_fits {
                        let mut fork = grid.clone();
                        fork.settle();
                        proof {
                            lemma_branch(parent, row as int, col as int, Cell::One, fork@);
                            kids = kids.push(fork@);
                            assert(views(stack@.push(fork)) =~= rest + kids);
                        }
                        stack.push(fork);
                    }
                    assert(views(stack@) =~= rest + kids);
                    grid.set(row, col, Cell::Zero);
                    let ghost zero = grid@;
                    proof {
                        lemma_put(parent, row as int, col as int, Cell::One);
                        lemma_put(one, row as int, col as int, Cell::Zero);
                        lemma_put(parent, row as int, col as int, Cell::Zero);
                        lemma_board_ext(zero, parent.put(row as int, col as int, Cell::Zero));
                    }
                    let zero_fits = grid.is_cell_legal(row, col);
                    if zero_fits {
                        grid.settle();
                        proof {
                            lemma_branch(parent, row as int, col as int, Cell::Zero, grid@);
                            kids = kids.push(grid@);
                            assert(views(stack@.push(grid)) =~= rest + kids);
                        }
                        stack.push(grid);
                    }
                    proof {
                        assert(views(stack@) =~= rest + kids);
                        assert forall|j: int| 0 <= j < kids.len() implies (#[trigger] kids[j]).wf()
                            && kids[j].extends(parent) && kids[j].empties() < parent.empties() by {}
                        assert forall|j1: int, j2: int| 0 <= j1 < j2 < kids.len() implies conflict(
                            #[trigger] kids[j1],
                            #[trigger] kids[j2],
                        ) by {
                            assert(kids[j1].has(row as int, col as int));
                            assert(kids[j1].at(row as int, col as int) == Cell::One);
                            assert(kids[j2].at(row as int, col as int) == Cell::Zero);
                        }
                        assert forall|s: Board| #[trigger] s.solves(parent) implies exists|j: int|
                            0 <= j < kids.len() && s.extends(#[trigger] kids[j]) by {
                            assert(s.has(row as int, col as int));
                            assert(s.at(row as int, col as int).filled());
                            if s.at(row as int, col as int) == Cell::One {
                                if !one_fits {
                                    assert(s.extends(one)) by {
                                        assert forall|r2: int, c2: int|
                                            one.has(r2, c2) && (#[trigger] one.at(
                                                r2,
                                                c2,
                                            )).filled() implies s.at(r2, c2) == one.at(r2, c2) by {
                                            if r2 != row || c2 != col {
                                                assert(parent.has(r2, c2) && parent.at(
                                                    r2,
                                                    c2,
                                                ).filled());
                                            }
                                        }
                                    }
                                    lemma_pruned(one, row as int, col as int, s);
                                }
                                assert(s.extends(kids[0]));
                            } else {
                                if !zero_fits {
                                    assert(s.extends(zero)) by {
                                        assert forall|r2: int, c2: int|
                                            zero.has(r2, c2) && (#[trigger] zero.at(
                                                r2,
                                                c2,
                                            )).filled() implies s.at(r2, c2) == zero.at(r2, c2) by {
                                            if r2 != row || c2 != col {
                                                assert(parent.has(r2, c2) && parent.at(
                                                    r2,
                                                    c2,
                                                ).filled());
                                            }
                                        }
                                    }
                                    lemma_pruned(zero, row as int, col as int, s);
                                }
                                assert(s.extends(kids[kids.len() - 1]));
                            }
                        }
                        lemma_frontier_fork(self@, done, open, kids);
                        lemma_load_fork(open, kids);
                    }
                },
                None => {
                    if grid.is_legal() {
                        proof {
                            lemma_frontier_solved(self@, done, open);
                            assert(views(solutions@.push(grid)) =~= done.push(parent));
                            lemma_load_fork(open, Seq::<Board>::empty());
                            assert(rest + Seq::<Board>::empty() =~= rest);
                        }
                        solutions.push(grid);
                    } else {
                        proof {
                            lemma_frontier_dead(self@, done, open);
                            lemma_load_fork(open, Seq::<Board>::empty());
                            assert(rest + Seq::<Board>::empty() =~= rest);
                        }
                    }
                },
            }
            proof {
                lemma_load_bounds(views(stack@));
            }
        }
        proof {
            lemma_frontier_end(self@, views(solutions@), views(stack@));
        }
        Ok(solutions)
    }
}

} // verus!
