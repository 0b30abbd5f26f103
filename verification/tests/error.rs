use takuzu::error::{decimal, digit_str};
use takuzu::{Grid, GridError, GridParseError, GridSizeError};

#[test]
fn digits_are_written_one_by_one() {
    let all: Vec<&str> = (0..10).map(digit_str).collect();
    assert_eq!(all, vec!["0", "1", "2", "3", "4", "5", "6", "7", "8", "9"]);
}

#[test]
fn numbers_are_written_in_decimal() {
    assert_eq!(decimal(0), "0");
    assert_eq!(decimal(7), "7");
    assert_eq!(decimal(10), "10");
    assert_eq!(decimal(42), "42");
    assert_eq!(decimal(1005), "1005");
    assert_eq!(decimal(987654321), "987654321");
    assert_eq!(decimal(usize::MAX), usize::MAX.to_string());
    for n in 0..1200usize {
        assert_eq!(decimal(n), n.to_string());
    }
}

#[test]
fn size_errors_say_what_is_wrong() {
    assert_eq!(GridSizeError::EmptyGrid.to_string(), "grid is empty");
    assert_eq!(GridSizeError::OddNumberSize.to_string(), "grid size is an odd number");
    assert_eq!(GridSizeError::NotASquare(0).to_string(), "grid is not a square (line 0)");
    assert_eq!(GridSizeError::NotASquare(12).to_string(), "grid is not a square (line 12)");
}

#[test]
fn parse_errors_say_what_is_wrong() {
    assert_eq!(GridParseError::UnexpectedCharacter.to_string(), "found unexpected character(s)");
    assert_eq!(
        GridParseError::BadSize(GridSizeError::EmptyGrid).to_string(),
        "faulty grid size: grid is empty"
    );
    assert_eq!(
        GridParseError::BadSize(GridSizeError::NotASquare(3)).to_string(),
        "faulty grid size: grid is not a square (line 3)"
    );
    assert_eq!(
        Grid::from_str("01\n1\n").unwrap_err().to_string(),
        "faulty grid size: grid is not a square (line 1)"
    );
}

#[test]
fn illegal_grid_says_so() {
    assert_eq!(GridError::Illegal.to_string(), "grid is illegal");
    assert_eq!(Grid::from_str("11\n..\n").unwrap().solve().unwrap_err().to_string(), "grid is illegal");
}
