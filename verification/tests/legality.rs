use takuzu::{Cell, Grid};

fn grid(text: &str) -> Grid {
    Grid::from_str(text).unwrap()
}

#[test]
fn empty_grids_are_legal() {
    for size in [2usize, 4, 6] {
        let g = Grid::new(size).unwrap();
        assert!(g.check_rule1());
        assert!(g.check_rule2());
        assert!(g.check_rule3());
        assert!(g.is_legal());
    }
}

#[test]
fn rule1_finds_three_in_a_row() {
    let g = grid("000...\n......\n......\n......\n......\n......\n");
    assert!(!g.check_rule1());
    assert!(!g.is_legal());
    let g = grid("...111\n......\n......\n......\n......\n......\n");
    assert!(!g.check_rule1());
    let g = grid("0010..\n......\n......\n......\n......\n......\n");
    assert!(g.check_rule1());
}

#[test]
fn rule1_finds_three_in_a_column() {
    let g = grid("......\n.1....\n.1....\n.1....\n......\n......\n");
    assert!(!g.check_rule1());
    let g = grid(".....0\n......\n......\n.....0\n.....0\n.....0\n");
    assert!(!g.check_rule1());
    let g = grid(".1....\n.1....\n.0....\n.1....\n.1....\n......\n");
    assert!(g.check_rule1());
}

#[test]
fn rule1_ignores_empty_runs() {
    let g = grid("....\n....\n....\n....\n");
    assert!(g.check_rule1());
}

#[test]
fn rule2_bounds_each_number_by_half() {
    // Three zeros in a row of four, none adjacent three times.
    let g = grid("0010\n....\n....\n....\n");
    assert!(g.check_rule1());
    assert!(!g.check_rule2());
    assert!(!g.is_legal());
    // Three ones in a column of four.
    let g = grid("1...\n1...\n0...\n1...\n");
    assert!(g.check_rule1());
    assert!(!g.check_rule2());
    // Exactly half of each is fine, and so is less.
    let g = grid("0011\n0...\n1...\n1...\n");
    assert!(g.check_rule2());
}

#[test]
fn row_of_two_ones_breaks_rule2() {
    let g = grid("11\n..\n");
    assert!(g.check_rule1());
    assert!(!g.check_rule2());
    assert!(g.check_rule3());
    assert!(!g.is_legal());
}

#[test]
fn identical_filled_rows_break_rule3() {
    let g = grid("0011\n....\n0011\n....\n");
    assert!(g.check_rule1());
    assert!(g.check_rule2());
    assert!(!g.check_rule3());
    assert!(!g.is_legal());
}

#[test]
fn rule3_finds_identical_filled_columns() {
    let g = grid("0..0\n0..0\n1..1\n1..1\n");
    assert!(g.check_rule1());
    assert!(g.check_rule2());
    assert!(!g.check_rule3());
}

#[test]
fn rule3_needs_every_pair_of_cells_filled_and_equal() {
    // Rows 0 and 2 agree where both are filled, but one cell is empty.
    let g = grid("0011\n....\n001.\n....\n");
    assert!(g.check_rule3());
    // Rows 0 and 2 differ in one cell.
    let g = grid("0011\n....\n0101\n....\n");
    assert!(g.check_rule3());
    // Two empty rows are not identical rows.
    let g = grid("....\n....\n....\n....\n");
    assert!(g.check_rule3());
}

#[test]
fn row_and_column_counts() {
    let g = grid("0010\n1...\n.1..\n0..1\n");
    assert_eq!(g.row_counts(0), (3, 1));
    assert_eq!(g.row_counts(1), (0, 1));
    assert_eq!(g.col_counts(0), (2, 1));
    assert_eq!(g.col_counts(3), (1, 1));
    assert_eq!(g.row_empties(1), 3);
    assert_eq!(g.col_empties(2), 3);
    assert_eq!(g.row_empties(0), 0);
}

#[test]
fn rows_same_and_cols_same() {
    let g = grid("0011\n0011\n001.\n1100\n");
    assert!(g.rows_same(0, 1));
    assert!(g.rows_same(1, 0));
    assert!(!g.rows_same(0, 2));
    assert!(!g.rows_same(2, 0));
    assert!(!g.rows_same(0, 3));
    let g = grid("00.1\n00.1\n11.0\n11.0\n");
    assert!(g.cols_same(0, 1));
    assert!(!g.cols_same(0, 2));
    assert!(!g.cols_same(2, 2));
    assert!(!g.cols_same(0, 3));
}

#[test]
fn empty_cell_is_always_cell_legal() {
    let g = grid("000.\n....\n....\n....\n");
    assert!(!g.is_legal());
    assert!(g.is_cell_legal(0, 3));
    assert!(g.is_cell_legal(2, 2));
}

#[test]
fn cell_rule1_looks_at_every_window_through_the_cell() {
    let g = grid("000...\n......\n......\n......\n......\n......\n");
    assert!(!g.check_cell_rule1(0, 0));
    assert!(!g.check_cell_rule1(0, 1));
    assert!(!g.check_cell_rule1(0, 2));
    assert!(g.check_cell_rule1(0, 3));
    assert!(g.check_cell_rule1(0, 5));
    assert!(g.check_cell_rule1(1, 1));
    let g = grid("......\n......\n......\n....1.\n....1.\n....1.\n");
    assert!(!g.check_cell_rule1(3, 4));
    assert!(!g.check_cell_rule1(4, 4));
    assert!(!g.check_cell_rule1(5, 4));
    assert!(g.check_cell_rule1(2, 4));
    assert!(g.check_cell_rule1(5, 3));
}

#[test]
fn cell_rule1_on_the_smallest_grid() {
    let g = grid("11\n11\n");
    assert!(g.check_cell_rule1(0, 0));
    assert!(g.check_cell_rule1(1, 1));
}

#[test]
fn cell_rule2_looks_at_the_row_and_the_column() {
    let g = grid("0010\n....\n....\n....\n");
    assert!(!g.check_cell_rule2(0, 0));
    assert!(!g.check_cell_rule2(0, 2));
    assert!(g.check_cell_rule2(1, 0));
    let g = grid("1...\n1...\n0...\n1...\n");
    assert!(!g.check_cell_rule2(0, 0));
    assert!(!g.check_cell_rule2(2, 0));
    assert!(g.check_cell_rule2(0, 1));
}

#[test]
fn cell_rule3_looks_at_the_row_and_the_column() {
    let g = grid("0011\n....\n0011\n....\n");
    assert!(!g.check_cell_rule3(0, 0));
    assert!(!g.check_cell_rule3(2, 3));
    assert!(g.check_cell_rule3(1, 0));
    let g = grid("0..0\n0..0\n1..1\n1..1\n");
    assert!(!g.check_cell_rule3(0, 0));
    assert!(!g.check_cell_rule3(3, 3));
    assert!(g.check_cell_rule3(0, 1));
}

#[test]
fn is_cell_legal_finds_each_kind_of_violation() {
    assert!(!grid("000...\n......\n......\n......\n......\n......\n").is_cell_legal(0, 1));
    assert!(!grid("0010\n....\n....\n....\n").is_cell_legal(0, 3));
    assert!(!grid("0011\n....\n0011\n....\n").is_cell_legal(2, 1));
    assert!(grid("0011\n....\n0101\n....\n").is_cell_legal(2, 1));
}

/// The check of one cell and the check of the grid agree after one cell of a
/// legal grid was filled.
fn cell_check_agrees_everywhere(text: &str) {
    let g = grid(text);
    assert!(g.is_legal());
    let n = g.size();
    for r in 0..n {
        for c in 0..n {
            if g.get(r, c) != Cell::Empty {
                continue;
            }
            for v in [Cell::Zero, Cell::One] {
                let mut tried = g.clone();
                tried.set(r, c, v);
                assert_eq!(
                    tried.is_cell_legal(r, c),
                    tried.is_legal(),
                    "cell ({}, {}) of {:?}",
                    r,
                    c,
                    text
                );
            }
        }
    }
}

#[test]
fn cell_check_agrees_with_grid_check() {
    cell_check_agrees_everywhere("..01\n.0..\n1...\n....\n");
    cell_check_agrees_everywhere("....\n....\n....\n....\n");
    cell_check_agrees_everywhere("0011\n.0..\n11..\n1.0.\n");
    cell_check_agrees_everywhere("0.\n..\n");
    cell_check_agrees_everywhere("0011\n0101\n1.1.\n....\n");
    cell_check_agrees_everywhere("00.1..\n.1..0.\n1..0..\n..1..0\n0.....\n...11.\n");
    cell_check_agrees_everywhere("001101\n010011\n1.0.10\n......\n110010\n......\n");
}
