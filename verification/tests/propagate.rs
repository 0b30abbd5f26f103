use takuzu::propagate::{quota_choice, window_choice};
use takuzu::Cell::{Empty, One, Zero};
use takuzu::{Cell, Grid};

fn grid(text: &str) -> Grid {
    Grid::from_str(text).unwrap()
}

#[test]
fn window_choice_fills_the_one_empty_cell() {
    assert_eq!(window_choice(Empty, Zero, Zero), Some((0, One)));
    assert_eq!(window_choice(Zero, Empty, Zero), Some((1, One)));
    assert_eq!(window_choice(Zero, Zero, Empty), Some((2, One)));
    assert_eq!(window_choice(Empty, One, One), Some((0, Zero)));
    assert_eq!(window_choice(One, Empty, One), Some((1, Zero)));
    assert_eq!(window_choice(One, One, Empty), Some((2, Zero)));
}

#[test]
fn window_choice_leaves_other_windows() {
    assert_eq!(window_choice(Empty, Empty, Empty), None);
    assert_eq!(window_choice(Empty, Zero, One), None);
    assert_eq!(window_choice(Zero, Empty, One), None);
    assert_eq!(window_choice(One, Zero, Empty), None);
    assert_eq!(window_choice(Empty, Empty, Zero), None);
    assert_eq!(window_choice(One, Empty, Empty), None);
    assert_eq!(window_choice(Zero, Zero, Zero), None);
    assert_eq!(window_choice(One, One, Zero), None);
}

#[test]
fn quota_choice_fills_with_the_other_number() {
    assert_eq!(quota_choice(2, 2, 0), Some(Cell::One));
    assert_eq!(quota_choice(2, 2, 1), Some(Cell::One));
    assert_eq!(quota_choice(2, 0, 2), Some(Cell::Zero));
    assert_eq!(quota_choice(2, 1, 2), Some(Cell::Zero));
    assert_eq!(quota_choice(2, 2, 2), None);
    assert_eq!(quota_choice(2, 1, 1), None);
    assert_eq!(quota_choice(2, 0, 0), None);
    assert_eq!(quota_choice(3, 2, 2), None);
}

#[test]
fn rule1_fills_after_a_pair_in_a_row() {
    let mut g = grid("00..\n....\n....\n....\n");
    assert!(g.apply_rule1());
    assert_eq!(g, grid("001.\n....\n....\n....\n"));
    assert!(!g.apply_rule1());
    assert_eq!(g, grid("001.\n....\n....\n....\n"));
}

#[test]
fn rule1_fills_before_and_between() {
    let mut g = grid(".11...\n......\n0.0...\n......\n......\n......\n");
    assert!(g.apply_rule1());
    // The zero that row 0 has just got stands above an empty cell and a zero.
    assert_eq!(g, grid("0110..\n1.....\n010...\n......\n......\n......\n"));
}

#[test]
fn rule1_fills_in_columns() {
    let mut g = grid("1...\n1...\n....\n....\n");
    assert!(g.apply_rule1());
    assert_eq!(g, grid("1...\n1...\n0...\n....\n"));
    let mut g = grid("...0\n....\n...0\n....\n");
    assert!(g.apply_rule1());
    assert_eq!(g, grid("...0\n...1\n...0\n....\n"));
}

#[test]
fn rule1_uses_what_it_has_just_filled() {
    // The window at the start of row 0 gives a one in column 2, which makes a
    // pair of ones with column 3 for the window that follows.
    let mut g = grid("00.1..\n......\n......\n......\n......\n......\n");
    assert!(g.apply_rule1());
    assert_eq!(g, grid("00110.\n......\n......\n......\n......\n......\n"));
}

#[test]
fn rule1_changes_nothing_on_the_smallest_grid() {
    let mut g = grid("1.\n..\n");
    assert!(!g.apply_rule1());
    assert_eq!(g, grid("1.\n..\n"));
}

#[test]
fn rule2_fills_a_row_that_has_its_zeros() {
    let mut g = grid("0.0.\n....\n....\n....\n");
    assert!(g.apply_rule2());
    assert_eq!(g, grid("0101\n....\n....\n....\n"));
    assert!(!g.apply_rule2());
}

#[test]
fn rule2_fills_a_column_that_has_its_ones() {
    let mut g = grid("..1.\n....\n....\n..1.\n");
    assert!(g.apply_rule2());
    assert_eq!(g, grid("..1.\n..0.\n..0.\n..1.\n"));
}

#[test]
fn rule2_leaves_full_and_undecided_lines() {
    let mut g = grid("0011\n1...\n....\n....\n");
    assert!(!g.apply_rule2());
    assert_eq!(g, grid("0011\n1...\n....\n....\n"));
}

#[test]
fn rule2_decides_the_column_before_the_row_is_filled() {
    // Row 0 holds its two zeros, so its empty cell becomes a one. Column 0 held
    // its two ones before that, so its empty cells would become zeros: the cell
    // that the row has filled is no longer empty and keeps its one.
    let mut g = grid(".001\n1...\n1...\n0...\n");
    assert!(g.apply_rule2());
    assert_eq!(g.get(0, 0), Cell::One);
    assert_eq!(g, grid("1001\n1...\n1...\n0...\n"));
}

#[test]
fn rule2_fills_without_checking_the_other_rules() {
    // Filling the row makes three ones in a row: the pass does not look.
    let mut g = grid("0...0.\n0.....\n......\n......\n......\n......\n");
    g.set(0, 2, Cell::Zero);
    assert!(g.apply_rule2());
    assert_eq!(g.get(0, 1), Cell::One);
    assert_eq!(g.get(0, 3), Cell::One);
    assert_eq!(g.get(0, 5), Cell::One);
    assert_eq!(g.get(1, 0), Cell::Zero);
}

#[test]
fn rule3_opposes_a_row_to_the_row_that_completes_it() {
    let mut g = grid("0011\n0.1.\n....\n....\n");
    assert!(g.apply_rule3());
    assert_eq!(g, grid("0011\n0110\n....\n....\n"));
}

#[test]
fn rule3_opposes_a_column_to_the_column_that_completes_it() {
    let mut g = grid("00..\n0...\n11..\n1...\n");
    assert!(g.apply_rule3());
    assert_eq!(g, grid("00..\n01..\n11..\n10..\n"));
}

#[test]
fn rule3_needs_exactly_two_empty_cells() {
    let mut g = grid("0011\n0...\n....\n....\n");
    assert!(!g.apply_rule3());
    assert_eq!(g, grid("0011\n0...\n....\n....\n"));
    let mut g = grid("0011\n001.\n....\n....\n");
    assert!(!g.apply_rule3());
}

#[test]
fn rule3_needs_a_filled_line_that_agrees() {
    // Row 0 is filled but differs from row 1 in column 0.
    let mut g = grid("0011\n1.1.\n....\n....\n");
    assert!(!g.apply_rule3());
    // Row 0 agrees but is not filled.
    let mut g = grid("0.11\n0.1.\n....\n....\n");
    assert!(!g.apply_rule3());
}

#[test]
fn rule3_takes_the_first_line_that_completes() {
    // Rows 0 and 3 both complete row 1; row 0 comes first.
    let mut g = grid("001011\n0.10.1\n......\n011001\n......\n......\n");
    assert!(g.apply_rule3());
    assert_eq!(g.get(1, 1), Cell::One);
    assert_eq!(g.get(1, 4), Cell::Zero);
}

#[test]
fn apply_rules_stops_at_the_first_rule_that_changes() {
    // Rule 1 and rule 2 both apply; only rule 1 is run.
    let mut g = grid("00..\n....\n0..0\n....\n");
    assert!(g.apply_rules());
    assert_eq!(g, grid("001.\n1...\n0..0\n....\n"));
    // Now rule 1 finds nothing and rule 2 runs.
    assert!(g.apply_rules());
    assert_eq!(g, grid("0011\n1...\n0110\n1...\n"));
}

#[test]
fn apply_rules_falls_through_to_rule3() {
    let mut g = grid("01.0.1\n......\n......\n011001\n......\n......\n");
    let mut by_rule3 = g.clone();
    assert!(!g.clone().apply_rule1());
    assert!(!g.clone().apply_rule2());
    assert!(by_rule3.apply_rule3());
    assert!(g.apply_rules());
    assert_eq!(g, by_rule3);
    assert_eq!(g, grid("010011\n......\n......\n011001\n......\n......\n"));
}

#[test]
fn apply_rules_is_idempotent_at_fixpoint() {
    for text in [
        "..01\n.0..\n1...\n....\n",
        "00..\n....\n0..0\n....\n",
        "....\n....\n....\n....\n",
        "01\n10\n",
        "00.1..\n.1..0.\n1..0..\n..1..0\n0.....\n...11.\n",
    ] {
        let mut g = grid(text);
        let mut rounds = 0;
        while g.apply_rules() {
            rounds += 1;
            assert!(rounds <= 36);
        }
        let fixpoint = g.clone();
        assert!(!g.apply_rules());
        assert_eq!(g, fixpoint);
        assert_eq!(g.as_slice(), fixpoint.as_slice());
        assert!(!g.apply_rule1());
        assert!(!g.apply_rule2());
        assert!(!g.apply_rule3());
        assert_eq!(g, fixpoint);
    }
}

#[test]
fn settle_reaches_the_fixpoint() {
    let mut a = grid("00..\n....\n0..0\n....\n");
    let mut b = a.clone();
    a.settle();
    while b.apply_rules() {}
    assert_eq!(a, b);
    let again = a.clone();
    a.settle();
    assert_eq!(a, again);
}

#[test]
fn propagation_keeps_the_numbers_given() {
    let start = grid("00.1..\n.1..0.\n1..0..\n..1..0\n0.....\n...11.\n");
    let mut g = start.clone();
    g.settle();
    for r in 0..6 {
        for c in 0..6 {
            if start.get(r, c) != Cell::Empty {
                assert_eq!(g.get(r, c), start.get(r, c));
            }
        }
    }
}

#[test]
fn fill_and_oppose_touch_empty_cells_only() {
    let mut g = grid("0..1\n....\n.1..\n....\n");
    g.fill_row(0, Cell::One);
    assert_eq!(g, grid("0111\n....\n.1..\n....\n"));
    g.fill_col(1, Cell::Zero);
    assert_eq!(g, grid("0111\n.0..\n.1..\n.0..\n"));
    let mut g = grid("0011\n.1.0\n....\n....\n");
    g.oppose_row(1, 0);
    assert_eq!(g, grid("0011\n1100\n....\n....\n"));
    let mut g = grid("0.\n1.\n");
    g.oppose_col(1, 0);
    assert_eq!(g, grid("01\n10\n"));
}

#[test]
fn completing_lines_are_found_in_order() {
    let g = grid("001011\n0.10.1\n......\n011001\n......\n......\n");
    assert!(g.row_completes(1, 0));
    assert!(g.row_completes(1, 3));
    assert!(!g.row_completes(1, 1));
    assert!(!g.row_completes(1, 2));
    assert!(!g.row_completes(0, 1));
    assert_eq!(g.find_row_completing(1), 0);
    assert_eq!(g.find_row_completing(2), 0);
    assert_eq!(g.find_row_completing(0), 6);
    let g = grid("00..\n0...\n11..\n1...\n");
    assert!(g.col_completes(1, 0));
    assert!(!g.col_completes(0, 1));
    assert_eq!(g.find_col_completing(1), 0);
    assert_eq!(g.find_col_completing(0), 4);
}
