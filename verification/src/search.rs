//! What the search rests on: the number of empty cells as a measure, deduction
//! carried to its fixpoint, and the state of a search that has lost no solution
//! and found none twice.

use crate::board::{flat_index, lemma_board_ext, lemma_flat_coord, lemma_flat_index, Board};
use crate::cell::Cell;
use crate::deduce::lemma_refines_order;
use crate::grid::Grid;
use crate::laws::lemma_extends_order;
use crate::propagate::lemma_propagated_refines;
use crate::rules::{count, count_upto, lemma_count_bounds};
use vstd::prelude::*;

verus! {

impl Board {
    /// The number of empty cells.
    pub open spec fn empties(self) -> int {
        count(self.flat(), Cell::Empty)
    }
}

/// A line that keeps the numbers of another has no more empty cells.
pub proof fn lemma_empty_count_shrinks(big: Seq<Cell>, small: Seq<Cell>, k: int)
    requires
        0 <= k,
        forall|i: int| 0 <= i < k && (#[trigger] small[i]).filled() ==> big[i] == small[i],
    ensures
        count_upto(big, Cell::Empty, k) <= count_upto(small, Cell::Empty, k),
    decreases k,
{
    if k > 0 {
        lemma_empty_count_shrinks(big, small, k - 1);
        assert(small[k - 1].filled() ==> big[k - 1] == small[k - 1]);
    }
}

/// A line that keeps the numbers of another, and holds a number where the other
/// is empty, has fewer empty cells.
pub proof fn lemma_empty_count_shrinks_strictly(big: Seq<Cell>, small: Seq<Cell>, k: int, p: int)
    requires
        0 <= p < k,
        small[p] == Cell::Empty,
        big[p].filled(),
        forall|i: int| 0 <= i < k && (#[trigger] small[i]).filled() ==> big[i] == small[i],
    ensures
        count_upto(big, Cell::Empty, k) < count_upto(small, Cell::Empty, k),
    decreases k,
{
    if p == k - 1 {
        lemma_empty_count_shrinks(big, small, k - 1);
    } else {
        lemma_empty_count_shrinks_strictly(big, small, k - 1, p);
        assert(small[k - 1].filled() ==> big[k - 1] == small[k - 1]);
    }
}

/// A board has between none and all of its cells empty.
pub proof fn lemma_empties_bounds(b: Board)
    ensures
        0 <= b.empties() <= b.size * b.size,
{
    lemma_count_bounds(b.flat(), Cell::Empty, b.flat().len() as int);
}

/// A board that keeps the numbers of another has no more empty cells, and fewer
/// if the two differ.
pub proof fn lemma_extends_empties(later: Board, earlier: Board)
    requires
        later.wf(),
        earlier.wf(),
        later.extends(earlier),
    ensures
        later.empties() <= earlier.empties(),
        later != earlier ==> later.empties() < earlier.empties(),
{
    let n = earlier.size as int;
    let total = n * n;
    let big = later.flat();
    let small = earlier.flat();
    assert forall|i: int| 0 <= i < total && (#[trigger] small[i]).filled() implies big[i]
        == small[i] by {
        lemma_flat_coord(n, i);
        assert(earlier.has(i / n, i % n));
        assert(earlier.at(i / n, i % n).filled());
    }
    lemma_empty_count_shrinks(big, small, total);
    if later != earlier {
        if forall|r: int, c: int| earlier.has(r, c) ==> earlier.at(r, c) == later.at(r, c) {
            lemma_board_ext(earlier, later);
        }
        let (r, c) = choose|r: int, c: int|
            earlier.has(r, c) && earlier.at(r, c) != later.at(r, c);
        lemma_flat_index(n, r, c);
        let p = flat_index(n, r, c);
        if earlier.at(r, c).filled() {
            assert(later.at(r, c) == earlier.at(r, c));
        }
        assert(small[p] == earlier.at(r, c));
        assert(big[p] == later.at(r, c));
        lemma_empty_count_shrinks_strictly(big, small, total, p);
    }
}

/// The board that rounds of deduction end on: the first board, among the one
/// given, the one that a round makes of it, and so on, that a round leaves as it is.
pub open spec fn settled(b: Board) -> Board
    decreases b.empties(),
    when b.wf()
    via settled_decreases
{
    if b.propagated() == b {
        b
    } else {
        settled(b.propagated())
    }
}

#[via_fn]
proof fn settled_decreases(b: Board) {
    if b.propagated() != b {
        lemma_propagated_refines(b);
        lemma_extends_empties(b.propagated(), b);
        lemma_empties_bounds(b.propagated());
    }
}

/// Deduction carried to its end loses no solution, and a further round changes nothing.
pub proof fn lemma_settled(b: Board)
    requires
        b.wf(),
    ensures
        settled(b).refines(b),
        settled(b).propagated() == settled(b),
    decreases b.empties(),
{
    lemma_propagated_refines(b);
    if b.propagated() != b {
        let next = b.propagated();
        lemma_extends_empties(next, b);
        lemma_empties_bounds(next);
        lemma_settled(next);
        lemma_refines_order(settled(next), next, b);
    }
}

/// On a board that has a solution, deduction never puts a number that breaks a
/// rule: the board stays legal after every round and at the end, and keeps its solutions.
pub proof fn lemma_deduction_stays_legal(b: Board, s: Board)
    requires
        b.wf(),
        s.solves(b),
    ensures
        b.propagated().legal(),
        settled(b).legal(),
        s.solves(b.propagated()),
        s.solves(settled(b)),
{
    lemma_propagated_refines(b);
    lemma_settled(b);
    crate::laws::lemma_legal_downward(s, b.propagated());
    crate::laws::lemma_legal_downward(s, settled(b));
}

/// Two boards that hold different numbers in some cell.
pub open spec fn conflict(a: Board, b: Board) -> bool {
    exists|r: int, c: int|
        a.has(r, c) && (#[trigger] a.at(r, c)).filled() && b.at(r, c).filled() && a.at(r, c)
            != b.at(r, c)
}

/// Boards that keep the numbers of two boards in conflict are in conflict, in
/// either order, and no two boards in conflict are equal.
pub proof fn lemma_conflict_extends(a: Board, b: Board, a2: Board, b2: Board)
    requires
        conflict(a, b),
        a.size == b.size,
        a2.extends(a),
        b2.extends(b),
    ensures
        conflict(a2, b2),
        conflict(b2, a2),
        a2 != b2,
{
    let (r, c) = choose|r: int, c: int|
        a.has(r, c) && (#[trigger] a.at(r, c)).filled() && b.at(r, c).filled() && a.at(r, c)
            != b.at(r, c);
    assert(b.has(r, c));
    assert(a2.at(r, c) == a.at(r, c));
    assert(b2.at(r, c) == b.at(r, c));
    assert(a2.has(r, c) && a2.at(r, c).filled());
    assert(b2.has(r, c) && b2.at(r, c).filled());
}

/// The boards that a sequence of grids stands for.
pub open spec fn views(grids: Seq<Grid>) -> Seq<Board> {
    Seq::new(grids.len(), |i: int| grids[i]@)
}

/// The state of a search for the solutions of `input`, with the solutions `done`
/// and the boards `open` still to be searched: every open board keeps the numbers
/// of `input`; every board of `done` is a solution of `input`; every solution of
/// `input` is in `done` or keeps the numbers of an open board; and no two boards
/// of `done` and `open` can lead to the same solution.
pub open spec fn frontier(input: Board, done: Seq<Board>, open: Seq<Board>) -> bool {
    &&& input.wf()
    &&& forall|k: int| 0 <= k < open.len() ==> (#[trigger] open[k]).wf() && open[k].extends(input)
    &&& forall|i: int| 0 <= i < done.len() ==> (#[trigger] done[i]).solves(input)
    &&& forall|s: Board| #[trigger]
        s.solves(input) ==> done.contains(s) || exists|k: int|
            0 <= k < open.len() && s.extends(#[trigger] open[k])
    &&& forall|i: int, j: int| 0 <= i < j < done.len() ==> #[trigger] done[i] != #[trigger] done[j]
    &&& forall|i: int, k: int|
        0 <= i < done.len() && 0 <= k < open.len() ==> conflict(#[trigger] done[i], #[trigger] open[k])
    &&& forall|k1: int, k2: int|
        0 <= k1 < k2 < open.len() ==> conflict(#[trigger] open[k1], #[trigger] open[k2])
}

/// What a list of the solutions of `input` is: each of its boards is a solution,
/// every solution is in it, and none is in it twice.
pub open spec fn lists_solutions(input: Board, list: Seq<Board>) -> bool {
    &&& forall|i: int| 0 <= i < list.len() ==> (#[trigger] list[i]).solves(input)
    &&& forall|s: Board| #[trigger] s.solves(input) ==> list.contains(s)
    &&& forall|i: int, j: int| 0 <= i < j < list.len() ==> #[trigger] list[i] != #[trigger] list[j]
}

/// A full board has itself as its only solution if it is legal, and none if it is not.
pub proof fn lemma_full_solutions(input: Board, list: Seq<Board>)
    requires
        input.wf(),
        input.full(),
        lists_solutions(input, list),
    ensures
        input.legal() ==> list == seq![input],
        !input.legal() ==> list.len() == 0,
{
    assert forall|i: int| 0 <= i < list.len() implies list[i] == input && input.legal() by {
        assert(list[i].solves(input));
        lemma_full_extension(list[i], input);
    }
    if input.legal() {
        lemma_extends_order(input, input, input);
        assert(input.solves(input));
        assert(list.contains(input));
        if list.len() > 1 {
            assert(list[0] != list[1]);
        }
        assert(list =~= seq![input]);
    } else if list.len() > 0 {
        assert(list[0] == input);
    }
}

/// What a list of solutions holds does not depend on how it was found: any two
/// lists of the solutions of one board hold the same boards, namely the solutions
/// of that board, and as many.
pub proof fn lemma_solution_lists_agree(input: Board, a: Seq<Board>, b: Seq<Board>)
    requires
        lists_solutions(input, a),
        lists_solutions(input, b),
    ensures
        a.to_set() == Set::new(|s: Board| s.solves(input)),
        a.to_set() == b.to_set(),
        a.len() == b.len(),
{
    let all = Set::new(|s: Board| s.solves(input));
    assert forall|s: Board| a.to_set().contains(s) == all.contains(s) by {
        if a.contains(s) {
            let i = choose|i: int| 0 <= i < a.len() && a[i] == s;
            assert(a[i].solves(input));
        }
    }
    assert forall|s: Board| b.to_set().contains(s) == all.contains(s) by {
        if b.contains(s) {
            let i = choose|i: int| 0 <= i < b.len() && b[i] == s;
            assert(b[i].solves(input));
        }
    }
    assert(a.to_set() =~= all);
    assert(b.to_set() =~= all);
    assert(a.no_duplicates());
    assert(b.no_duplicates());
    a.unique_seq_to_set();
    b.unique_seq_to_set();
}

/// A search starts with one open board that has lost no solution of the input.
pub proof fn lemma_frontier_start(input: Board, first: Board)
    requires
        input.wf(),
        first.refines(input),
    ensures
        frontier(input, Seq::<Board>::empty(), seq![first]),
{
    let open = seq![first];
    assert forall|s: Board| #[trigger] s.solves(input) implies exists|k: int|
        0 <= k < open.len() && s.extends(#[trigger] open[k]) by {
        assert(s.extends(open[0]));
    }
}

/// A search with no open board has found every solution.
pub proof fn lemma_frontier_end(input: Board, done: Seq<Board>, open: Seq<Board>)
    requires
        frontier(input, done, open),
        open.len() == 0,
    ensures
        lists_solutions(input, done),
{
}

/// A full board has itself as its only extension.
pub proof fn lemma_full_extension(s: Board, b: Board)
    requires
        s.wf(),
        b.wf(),
        b.full(),
        s.extends(b),
    ensures
        s == b,
{
    assert forall|r: int, c: int| s.has(r, c) implies s.at(r, c) == b.at(r, c) by {
        assert(b.has(r, c) && b.at(r, c).filled());
    }
    lemma_board_ext(s, b);
}

/// The last open board may be replaced by boards that keep its numbers, are in
/// conflict with each other, and among them keep every solution that it leads to.
pub proof fn lemma_frontier_fork(input: Board, done: Seq<Board>, open: Seq<Board>, kids: Seq<Board>)
    requires
        frontier(input, done, open),
        open.len() > 0,
        forall|j: int|
            0 <= j < kids.len() ==> (#[trigger] kids[j]).wf() && kids[j].extends(open.last()),
        forall|j1: int, j2: int|
            0 <= j1 < j2 < kids.len() ==> conflict(#[trigger] kids[j1], #[trigger] kids[j2]),
        forall|s: Board| #[trigger]
            s.solves(open.last()) ==> exists|j: int|
                0 <= j < kids.len() && s.extends(#[trigger] kids[j]),
    ensures
        frontier(input, done, open.drop_last() + kids),
{
    let rest = open.drop_last();
    let next = rest + kids;
    let last = open.last();
    let m = rest.len() as int;
    assert(last == open[m]);
    assert(last.wf() && last.extends(input));
    assert forall|k: int| 0 <= k < next.len() implies (#[trigger] next[k]).wf() && next[k].extends(
        input,
    ) by {
        if k < m {
            assert(next[k] == open[k]);
        } else {
            assert(next[k] == kids[k - m]);
            lemma_extends_order(kids[k - m], last, input);
        }
    }
    assert forall|s: Board| #[trigger] s.solves(input) implies done.contains(s) || exists|k: int|
        0 <= k < next.len() && s.extends(#[trigger] next[k]) by {
        if !done.contains(s) {
            let k = choose|k: int| 0 <= k < open.len() && s.extends(#[trigger] open[k]);
            if k < m {
                assert(next[k] == open[k]);
                assert(s.extends(next[k]));
            } else {
                assert(s.solves(last));
                let j = choose|j: int| 0 <= j < kids.len() && s.extends(#[trigger] kids[j]);
                assert(next[m + j] == kids[j]);
                assert(s.extends(next[m + j]));
            }
        }
    }
    assert forall|i: int, k: int| 0 <= i < done.len() && 0 <= k < next.len() implies conflict(
        #[trigger] done[i],
        #[trigger] next[k],
    ) by {
        assert(done[i].solves(input));
        lemma_extends_order(done[i], done[i], done[i]);
        if k < m {
            assert(next[k] == open[k]);
        } else {
            assert(next[k] == kids[k - m]);
            assert(conflict(done[i], open[m]));
            lemma_conflict_extends(done[i], last, done[i], kids[k - m]);
        }
    }
    assert forall|k1: int, k2: int| 0 <= k1 < k2 < next.len() implies conflict(
        #[trigger] next[k1],
        #[trigger] next[k2],
    ) by {
        if k2 < m {
            assert(next[k1] == open[k1] && next[k2] == open[k2]);
        } else if k1 < m {
            assert(next[k1] == open[k1] && next[k2] == kids[k2 - m]);
            assert(conflict(open[k1], open[m]));
            assert(open[k1].extends(input));
            lemma_extends_order(open[k1], open[k1], open[k1]);
            lemma_conflict_extends(open[k1], last, open[k1], kids[k2 - m]);
        } else {
            assert(next[k1] == kids[k1 - m] && next[k2] == kids[k2 - m]);
        }
    }
}

/// A last open board that is full and illegal may be dropped.
pub proof fn lemma_frontier_dead(input: Board, done: Seq<Board>, open: Seq<Board>)
    requires
        frontier(input, done, open),
        open.len() > 0,
        open.last().full(),
        !open.last().legal(),
    ensures
        frontier(input, done, open.drop_last()),
{
    let last = open.last();
    assert(last == open[open.len() - 1]);
    let kids = Seq::<Board>::empty();
    assert forall|s: Board| #[trigger] s.solves(last) implies exists|j: int|
        0 <= j < kids.len() && s.extends(#[trigger] kids[j]) by {
        lemma_full_extension(s, last);
    }
    lemma_frontier_fork(input, done, open, kids);
    assert(open.drop_last() + kids =~= open.drop_last());
}

/// A last open board that is full and legal is a new solution.
pub proof fn lemma_frontier_solved(input: Board, done: Seq<Board>, open: Seq<Board>)
    requires
        frontier(input, done, open),
        open.len() > 0,
        open.last().full(),
        open.last().legal(),
    ensures
        frontier(input, done.push(open.last()), open.drop_last()),
{
    let last = open.last();
    let rest = open.drop_last();
    let more = done.push(last);
    let m = rest.len() as int;
    let d = done.len() as int;
    assert(last == open[m]);
    assert(last.wf() && last.extends(input));
    assert(more[d] == last);
    assert forall|i: int| 0 <= i < more.len() implies (#[trigger] more[i]).solves(input) by {
        if i < d {
            assert(more[i] == done[i]);
        }
    }
    assert forall|k: int| 0 <= k < rest.len() implies (#[trigger] rest[k]).wf() && rest[k].extends(
        input,
    ) by {
        assert(rest[k] == open[k]);
    }
    assert forall|s: Board| #[trigger] s.solves(input) implies more.contains(s) || exists|k: int|
        0 <= k < rest.len() && s.extends(#[trigger] rest[k]) by {
        if done.contains(s) {
            let i = choose|i: int| 0 <= i < done.len() && done[i] == s;
            assert(more[i] == s);
        } else {
            let k = choose|k: int| 0 <= k < open.len() && s.extends(#[trigger] open[k]);
            if k < m {
                assert(rest[k] == open[k]);
                assert(s.extends(rest[k]));
            } else {
                lemma_full_extension(s, last);
                assert(more[d] == s);
            }
        }
    }
    assert forall|i: int, j: int| 0 <= i < j < more.len() implies #[trigger] more[i]
        != #[trigger] more[j] by {
        assert(more[i] == done[i]);
        if j < d {
            assert(more[j] == done[j]);
        } else {
            assert(conflict(done[i], open[m]));
            lemma_extends_order(last, last, last);
            lemma_extends_order(done[i], done[i], done[i]);
            lemma_conflict_extends(done[i], last, done[i], last);
        }
    }
    assert forall|i: int, k: int| 0 <= i < more.len() && 0 <= k < rest.len() implies conflict(
        #[trigger] more[i],
        #[trigger] rest[k],
    ) by {
        assert(rest[k] == open[k]);
        if i < d {
            assert(more[i] == done[i]);
        } else {
            assert(conflict(open[k], open[m]));
            assert(open[k].extends(input));
            lemma_extends_order(last, last, last);
            lemma_extends_order(open[k], open[k], open[k]);
            lemma_conflict_extends(open[k], last, open[k], last);
        }
    }
    assert forall|k1: int, k2: int| 0 <= k1 < k2 < rest.len() implies conflict(
        #[trigger] rest[k1],
        #[trigger] rest[k2],
    ) by {
        assert(rest[k1] == open[k1] && rest[k2] == open[k2]);
    }
}

/// What an open board with `e` empty cells weighs in the search: more than two
/// boards with fewer empty cells.
pub open spec fn weight(e: int) -> int
    decreases e,
{
    if e <= 0 {
        1
    } else {
        2 * weight(e - 1) + 1
    }
}

/// More empty cells weigh more, and every board weighs something.
pub proof fn lemma_weight_grows(a: int, b: int)
    requires
        a <= b,
    ensures
        1 <= weight(a) <= weight(b),
    decreases b,
{
    if b > 0 {
        if a < b {
            lemma_weight_grows(a, b - 1);
        }
        lemma_weight_grows(b - 1, b - 1);
    }
    if a > 0 {
        lemma_weight_grows(a - 1, a - 1);
    }
}

/// What the open boards weigh together: the search goes on while this is positive,
/// and every step makes it less.
pub open spec fn load(open: Seq<Board>) -> int
    decreases open.len(),
{
    if open.len() == 0 {
        0
    } else {
        load(open.drop_last()) + weight(open.last().empties())
    }
}

/// No list of open boards weighs less than nothing.
pub proof fn lemma_load_bounds(open: Seq<Board>)
    ensures
        0 <= load(open),
    decreases open.len(),
{
    if open.len() > 0 {
        lemma_load_bounds(open.drop_last());
        lemma_weight_grows(open.last().empties(), open.last().empties());
    }
}

/// Replacing the last open board by at most two boards with fewer empty cells
/// makes the open boards weigh less.
pub proof fn lemma_load_fork(open: Seq<Board>, kids: Seq<Board>)
    requires
        open.len() > 0,
        kids.len() <= 2,
        forall|j: int| 0 <= j < kids.len() ==> (#[trigger] kids[j]).empties() < open.last().empties(),
    ensures
        load(open.drop_last() + kids) < load(open),
{
    let rest = open.drop_last();
    let e = open.last().empties();
    lemma_weight_grows(e, e);
    assert(load(open) == load(rest) + weight(e));
    if kids.len() > 0 {
        lemma_empties_bounds(kids[0]);
    }
    if kids.len() == 0 {
        assert(rest + kids =~= rest);
    } else if kids.len() == 1 {
        let next = rest + kids;
        assert(next.drop_last() =~= rest);
        assert(next.last() == kids[0]);
        assert(load(next) == load(rest) + weight(kids[0].empties()));
        lemma_weight_grows(kids[0].empties(), e - 1);
        assert(weight(e) == 2 * weight(e - 1) + 1);
    } else {
        let next = rest + kids;
        let mid = next.drop_last();
        assert(mid.drop_last() =~= rest);
        assert(mid.last() == kids[0]);
        assert(next.last() == kids[1]);
        assert(load(mid) == load(rest) + weight(kids[0].empties()));
        assert(load(next) == load(mid) + weight(kids[1].empties()));
        lemma_weight_grows(kids[0].empties(), e - 1);
        lemma_weight_grows(kids[1].empties(), e - 1);
        assert(weight(e) == 2 * weight(e - 1) + 1);
    }
}

} // verus!
