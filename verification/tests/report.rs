use takuzu::report::{is_stdin, report, show};
use takuzu::Grid;

fn grid(text: &str) -> Grid {
    Grid::from_str(text).unwrap()
}

#[test]
fn only_a_dash_names_the_standard_input() {
    assert!(is_stdin("-"));
    assert!(!is_stdin(""));
    assert!(!is_stdin("--"));
    assert!(!is_stdin("grid"));
    assert!(!is_stdin("_"));
}

#[test]
fn no_solution_is_said_in_words() {
    let given = grid("010.\n...1\n....\n...1\n");
    assert_eq!(report("grid1", &given, &vec![], false), "grid1: no solution\n");
    assert_eq!(report("grid1", &given, &vec![], true), "grid1: no solution\n");
    assert_eq!(report("-", &given, &vec![], false), "(stdin): no solution\n");
}

#[test]
fn one_solution_stands_under_the_name() {
    let given = grid("0.\n..\n");
    let solutions = given.solve().unwrap();
    assert_eq!(solutions.len(), 1);
    assert_eq!(report("small", &given, &solutions, false), "small\n01\n10\n");
    assert_eq!(report("-", &given, &solutions, false), "(stdin)\n01\n10\n");
    assert_eq!(
        report("small", &given, &solutions, true),
        "small\n0\u{1b}[33m1\u{1b}[0m\n\u{1b}[33m1\u{1b}[0m\u{1b}[36m0\u{1b}[0m\n"
    );
}

#[test]
fn several_solutions_are_numbered_from_one() {
    let given = grid("..\n..\n");
    let solutions = vec![grid("01\n10\n"), grid("10\n01\n")];
    assert_eq!(
        report("two", &given, &solutions, false),
        "two: 1\n01\n10\n\ntwo: 2\n10\n01\n"
    );
    let three = vec![grid("01\n10\n"), grid("10\n01\n"), grid("01\n10\n")];
    assert_eq!(
        report("-", &given, &three, false),
        "(stdin): 1\n01\n10\n\n(stdin): 2\n10\n01\n\n(stdin): 3\n01\n10\n"
    );
}

#[test]
fn numbers_beyond_nine_are_written_out() {
    let given = grid("..\n..\n");
    let solutions: Vec<Grid> = (0..12).map(|_| grid("01\n10\n")).collect();
    let text = report("g", &given, &solutions, false);
    assert!(text.starts_with("g: 1\n01\n10\n\ng: 2\n"));
    assert!(text.contains("\ng: 10\n01\n10\n\ng: 11\n01\n10\n\ng: 12\n01\n10\n"));
    assert!(text.ends_with("g: 12\n01\n10\n"));
}

#[test]
fn show_colors_only_when_asked() {
    let given = grid("0.\n..\n");
    let solution = grid("01\n10\n");
    assert_eq!(show(&given, &solution, false), "01\n10\n");
    assert_eq!(show(&given, &solution, true), solution.to_string_diff(&given));
}
