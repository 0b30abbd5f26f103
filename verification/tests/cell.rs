use takuzu::cell::Cell;

#[test]
fn empty_cell_is_empty() {
    assert!(Cell::Empty.is_empty());
    assert!(!Cell::Empty.is_filled());
}

#[test]
fn numbers_are_filled() {
    assert!(Cell::Zero.is_filled());
    assert!(Cell::One.is_filled());
    assert!(!Cell::Zero.is_empty());
    assert!(!Cell::One.is_empty());
}

#[test]
fn complement_swaps_the_numbers() {
    assert_eq!(!Cell::Zero, Cell::One);
    assert_eq!(!Cell::One, Cell::Zero);
    assert_eq!(!Cell::Empty, Cell::Empty);
}

#[test]
fn default_cell_is_empty() {
    assert_eq!(Cell::default(), Cell::Empty);
}
