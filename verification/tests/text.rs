use takuzu::text::{cell_from_char, chars_of, size_from_string, split_lines, ANSIGridDiff};
use takuzu::{Cell, Grid, GridParseError, GridSizeError};

#[test]
fn characters_stand_for_cells() {
    assert_eq!(cell_from_char('0'), Some(Cell::Zero));
    assert_eq!(cell_from_char('1'), Some(Cell::One));
    assert_eq!(cell_from_char('.'), Some(Cell::Empty));
    assert_eq!(cell_from_char('2'), None);
    assert_eq!(cell_from_char(' '), None);
    assert_eq!(cell_from_char('\n'), None);
    assert_eq!(cell_from_char('\r'), None);
}

#[test]
fn chars_of_gives_every_character() {
    assert_eq!(chars_of(""), Vec::<char>::new());
    assert_eq!(chars_of("01\n.é"), vec!['0', '1', '\n', '.', 'é']);
}

fn lines_of(text: &str) -> Vec<String> {
    split_lines(&chars_of(text)).into_iter().map(|l| l.into_iter().collect()).collect()
}

#[test]
fn lines_end_at_line_breaks() {
    assert_eq!(lines_of(""), Vec::<String>::new());
    assert_eq!(lines_of("ab"), vec!["ab"]);
    assert_eq!(lines_of("ab\n"), vec!["ab"]);
    assert_eq!(lines_of("ab\ncd"), vec!["ab", "cd"]);
    assert_eq!(lines_of("ab\ncd\n"), vec!["ab", "cd"]);
    assert_eq!(lines_of("\n"), vec![""]);
    assert_eq!(lines_of("\n\n"), vec!["", ""]);
    assert_eq!(lines_of("ab\n\n"), vec!["ab", ""]);
    assert_eq!(lines_of("\nab"), vec!["", "ab"]);
}

#[test]
fn lines_agree_with_std_without_carriage_returns() {
    for text in ["", "0", "01\n10", "01\n10\n", "\n", "\n\n\n", "a\n\nb\n", "..01\n.0..\n1...\n....\n"] {
        let expected: Vec<String> = text.lines().map(|l| l.to_string()).collect();
        assert_eq!(lines_of(text), expected, "{:?}", text);
    }
}

#[test]
fn size_is_the_number_of_lines() {
    assert_eq!(size_from_string("01\n10\n"), Ok(2));
    assert_eq!(size_from_string("01\n10"), Ok(2));
    assert_eq!(size_from_string("....\n....\n....\n....\n"), Ok(4));
    // The size is right whatever the characters are.
    assert_eq!(size_from_string("ab\ncd\n"), Ok(2));
}

#[test]
fn size_of_empty_text_is_an_error() {
    assert_eq!(size_from_string(""), Err(GridSizeError::EmptyGrid));
}

#[test]
fn size_of_odd_number_of_lines_is_an_error() {
    assert_eq!(size_from_string("0"), Err(GridSizeError::OddNumberSize));
    assert_eq!(size_from_string("\n"), Err(GridSizeError::OddNumberSize));
    assert_eq!(size_from_string("01\n10\n01\n"), Err(GridSizeError::OddNumberSize));
    assert_eq!(size_from_string("010\n101\n010\n"), Err(GridSizeError::OddNumberSize));
}

#[test]
fn size_of_ragged_text_names_the_first_wrong_line() {
    assert_eq!(size_from_string("0\n10\n"), Err(GridSizeError::NotASquare(0)));
    assert_eq!(size_from_string("01\n1\n"), Err(GridSizeError::NotASquare(1)));
    assert_eq!(size_from_string("01\n101\n"), Err(GridSizeError::NotASquare(1)));
    assert_eq!(size_from_string("\n\n"), Err(GridSizeError::NotASquare(0)));
    assert_eq!(
        size_from_string("0101\n0101\n010\n01\n"),
        Err(GridSizeError::NotASquare(2))
    );
    assert_eq!(size_from_string("01\n10\n\n"), Err(GridSizeError::OddNumberSize));
    assert_eq!(size_from_string("01\n10\n\n\n"), Err(GridSizeError::NotASquare(0)));
}

#[test]
fn decoding_reads_cells_row_by_row() {
    let g = Grid::from_str("01\n.0\n").unwrap();
    assert_eq!(g.size(), 2);
    assert_eq!(g.as_slice(), &[Cell::Zero, Cell::One, Cell::Empty, Cell::Zero][..]);
    let g = Grid::from_str("..01\n.0..\n1...\n....").unwrap();
    assert_eq!(g.size(), 4);
    assert_eq!(g.get(0, 2), Cell::Zero);
    assert_eq!(g.get(0, 3), Cell::One);
    assert_eq!(g.get(1, 1), Cell::Zero);
    assert_eq!(g.get(2, 0), Cell::One);
    assert_eq!(g.get(3, 3), Cell::Empty);
    assert_eq!(g.as_slice().iter().filter(|c| **c == Cell::Empty).count(), 12);
}

#[test]
fn trailing_line_break_is_optional() {
    assert_eq!(Grid::from_str("01\n10\n").unwrap(), Grid::from_str("01\n10").unwrap());
}

#[test]
fn decoding_reports_size_errors() {
    assert_eq!(
        Grid::from_str("").unwrap_err(),
        GridParseError::BadSize(GridSizeError::EmptyGrid)
    );
    assert_eq!(
        Grid::from_str("0\n").unwrap_err(),
        GridParseError::BadSize(GridSizeError::OddNumberSize)
    );
    assert_eq!(
        Grid::from_str("01\n1\n").unwrap_err(),
        GridParseError::BadSize(GridSizeError::NotASquare(1))
    );
}

#[test]
fn decoding_reports_unexpected_characters() {
    assert_eq!(Grid::from_str("01\n1x\n").unwrap_err(), GridParseError::UnexpectedCharacter);
    assert_eq!(Grid::from_str("2.\n..\n").unwrap_err(), GridParseError::UnexpectedCharacter);
    assert_eq!(Grid::from_str("0 \n..\n").unwrap_err(), GridParseError::UnexpectedCharacter);
    assert_eq!(Grid::from_str("0é\n..\n").unwrap_err(), GridParseError::UnexpectedCharacter);
}

#[test]
fn size_errors_come_before_character_errors() {
    assert_eq!(
        Grid::from_str("x\n").unwrap_err(),
        GridParseError::BadSize(GridSizeError::OddNumberSize)
    );
    assert_eq!(
        Grid::from_str("xx\ny\n").unwrap_err(),
        GridParseError::BadSize(GridSizeError::NotASquare(1))
    );
}

#[test]
fn carriage_return_is_no_line_break() {
    assert_eq!(
        Grid::from_str("01\r\n10\r\n").unwrap_err(),
        GridParseError::BadSize(GridSizeError::NotASquare(0))
    );
}

#[test]
fn size_error_converts_into_parse_error() {
    assert_eq!(
        GridParseError::from(GridSizeError::NotASquare(3)),
        GridParseError::BadSize(GridSizeError::NotASquare(3))
    );
    let e: GridParseError = GridSizeError::EmptyGrid.into();
    assert_eq!(e, GridParseError::BadSize(GridSizeError::EmptyGrid));
}

#[test]
fn encoding_writes_one_line_per_row() {
    assert_eq!(Grid::new(2).unwrap().to_string(), "..\n..\n");
    let g = Grid::from_parts(vec![Cell::Zero, Cell::One, Cell::Empty, Cell::Zero], 2);
    assert_eq!(g.to_string(), "01\n.0\n");
    assert_eq!(Grid::from_str("..01\n.0..\n1...\n....").unwrap().to_string(), "..01\n.0..\n1...\n....\n");
}

#[test]
fn decoding_what_was_encoded_gives_the_grid_back() {
    for text in ["01\n10\n", "..\n..\n", "..01\n.0..\n1...\n....\n", "001101\n010011\n1.0.10\n......\n110010\n......\n"] {
        let g = Grid::from_str(text).unwrap();
        assert_eq!(g.to_string(), text);
        assert_eq!(Grid::from_str(&g.to_string()).unwrap(), g);
    }
}

#[test]
fn diff_against_itself_has_no_colors() {
    let g = Grid::from_str("..01\n.0..\n1...\n....\n").unwrap();
    assert_eq!(g.to_string_diff(&g), g.to_string());
    assert_eq!(ANSIGridDiff(&g, &g).to_string(), "..01\n.0..\n1...\n....\n");
}

#[test]
fn diff_colors_the_cells_that_were_filled_in() {
    let reference = Grid::from_str("0.\n..\n").unwrap();
    let solution = Grid::from_str("01\n10\n").unwrap();
    let expected = "0\u{1b}[33m1\u{1b}[0m\n\u{1b}[33m1\u{1b}[0m\u{1b}[36m0\u{1b}[0m\n";
    assert_eq!(solution.to_string_diff(&reference), expected);
    assert_eq!(ANSIGridDiff(&reference, &solution).to_string(), expected);
}

#[test]
fn diff_shows_overwritten_cells_in_red() {
    let reference = Grid::from_str("01\n1.\n").unwrap();
    let other = Grid::from_str("10\n.0\n").unwrap();
    let expected = "\u{1b}[31m1\u{1b}[0m\u{1b}[31m0\u{1b}[0m\n\u{1b}[31m.\u{1b}[0m\u{1b}[36m0\u{1b}[0m\n";
    assert_eq!(other.to_string_diff(&reference), expected);
}

#[test]
fn diff_of_grids_of_different_sizes_has_no_colors() {
    let reference = Grid::new(4).unwrap();
    let other = Grid::from_str("01\n10\n").unwrap();
    assert_eq!(other.to_string_diff(&reference), "01\n10\n");
    assert_eq!(ANSIGridDiff(&reference, &other).to_string(), "01\n10\n");
    assert_eq!(ANSIGridDiff(&other, &reference).to_string(), "....\n....\n....\n....\n");
}

#[test]
fn parse_decodes_like_from_str() {
    for text in ["01\n10\n", "..01\n.0..\n1...\n....", "", "0\n", "01\n1\n", "01\n1x\n"] {
        assert_eq!(text.parse::<Grid>(), Grid::from_str(text));
    }
    let g: Grid = "0.\n.1\n".parse().unwrap();
    assert_eq!(g.as_slice(), &[Cell::Zero, Cell::Empty, Cell::Empty, Cell::One][..]);
}
