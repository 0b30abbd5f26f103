use takuzu::{Cell, Grid, GridSizeError};

fn grid(text: &str) -> Grid {
    Grid::from_str(text).unwrap()
}

#[test]
fn new_rejects_size_zero() {
    assert_eq!(Grid::new(0).unwrap_err(), GridSizeError::EmptyGrid);
}

#[test]
fn new_rejects_odd_sizes() {
    assert_eq!(Grid::new(1).unwrap_err(), GridSizeError::OddNumberSize);
    assert_eq!(Grid::new(3).unwrap_err(), GridSizeError::OddNumberSize);
    assert_eq!(Grid::new(7).unwrap_err(), GridSizeError::OddNumberSize);
}

#[test]
fn new_grid_is_empty() {
    for size in [2usize, 4, 6, 8] {
        let g = Grid::new(size).unwrap();
        assert_eq!(g.size(), size);
        assert_eq!(g.as_slice().len(), size * size);
        assert!(g.as_slice().iter().all(|c| *c == Cell::Empty));
        assert!(!g.is_filled());
        assert_eq!(g.next_empty(), Some((0, 0)));
        assert!(g.is_legal());
    }
}

#[test]
fn from_parts_keeps_cells_in_row_major_order() {
    let cells = vec![Cell::Zero, Cell::One, Cell::Empty, Cell::Zero];
    let g = Grid::from_parts(cells.clone(), 2);
    assert_eq!(g.size(), 2);
    assert_eq!(g.as_slice(), &cells[..]);
    assert_eq!(g.get(0, 0), Cell::Zero);
    assert_eq!(g.get(0, 1), Cell::One);
    assert_eq!(g.get(1, 0), Cell::Empty);
    assert_eq!(g.get(1, 1), Cell::Zero);
}

#[test]
fn set_changes_one_cell_only() {
    let mut g = Grid::new(4).unwrap();
    g.set(2, 3, Cell::One);
    for r in 0..4 {
        for c in 0..4 {
            let expected = if (r, c) == (2, 3) { Cell::One } else { Cell::Empty };
            assert_eq!(g.get(r, c), expected);
        }
    }
    assert_eq!(g.as_slice()[2 * 4 + 3], Cell::One);
    g.set(2, 3, Cell::Empty);
    assert_eq!(g, Grid::new(4).unwrap());
}

#[test]
fn is_filled_needs_every_cell() {
    assert!(grid("01\n10\n").is_filled());
    assert!(!grid("01\n1.\n").is_filled());
    assert!(!grid(".1\n10\n").is_filled());
}

#[test]
fn next_empty_scans_rows_from_the_top() {
    assert_eq!(grid("01\n10\n").next_empty(), None);
    assert_eq!(grid("01\n1.\n").next_empty(), Some((1, 1)));
    assert_eq!(grid("0.\n.0\n").next_empty(), Some((0, 1)));
    assert_eq!(grid("0011\n01.1\n.0..\n....\n").next_empty(), Some((1, 2)));
    assert_eq!(grid("0011\n0101\n1010\n110.\n").next_empty(), Some((3, 3)));
}

#[test]
fn clone_is_independent() {
    let first = grid("0.\n..\n");
    let mut copy = first.clone();
    assert_eq!(copy, first);
    copy.set(1, 1, Cell::One);
    assert_eq!(first.get(1, 1), Cell::Empty);
    assert_eq!(copy.get(1, 1), Cell::One);
    assert_ne!(copy, first);
}
