use takuzu::{Cell, Grid, GridError};

fn grid(text: &str) -> Grid {
    Grid::from_str(text).unwrap()
}

/// Rule 1 and rule 2 on one filled line, written once more and as plainly as possible.
fn reference_line_ok(line: &[u8]) -> bool {
    !line.windows(3).any(|w| w[0] == w[1] && w[1] == w[2])
        && line.iter().filter(|&&x| x == 0).count() * 2 == line.len()
}

/// The rules on a filled grid, given as rows of numbers.
fn reference_legal(rows: &[Vec<u8>]) -> bool {
    let n = rows.len();
    let cols: Vec<Vec<u8>> = (0..n).map(|c| (0..n).map(|r| rows[r][c]).collect()).collect();
    for lines in [rows, &cols[..]] {
        if !lines.iter().all(|line| reference_line_ok(line)) {
            return false;
        }
        for i in 0..n {
            for j in i + 1..n {
                if lines[i] == lines[j] {
                    return false;
                }
            }
        }
    }
    true
}

/// Every way of filling the empty cells in that gives a legal grid: every choice
/// of a good line for each row is tried.
fn reference_solutions(puzzle: &Grid) -> Vec<Vec<Cell>> {
    let n = puzzle.size();
    assert!(n <= 6);
    let cells = puzzle.as_slice();
    let mut choices: Vec<Vec<Vec<u8>>> = Vec::new();
    for r in 0..n {
        let mut lines = Vec::new();
        for mask in 0u32..(1u32 << n) {
            let line: Vec<u8> = (0..n).map(|c| ((mask >> c) & 1) as u8).collect();
            let fits = (0..n).all(|c| match cells[r * n + c] {
                Cell::Zero => line[c] == 0,
                Cell::One => line[c] == 1,
                Cell::Empty => true,
            });
            if fits && reference_line_ok(&line) {
                lines.push(line);
            }
        }
        choices.push(lines);
    }
    let mut found = Vec::new();
    let mut picks = vec![0usize; n];
    if choices.iter().any(|lines| lines.is_empty()) {
        return found;
    }
    loop {
        let rows: Vec<Vec<u8>> = (0..n).map(|r| choices[r][picks[r]].clone()).collect();
        if reference_legal(&rows) {
            found.push(
                rows.iter()
                    .flatten()
                    .map(|&x| if x == 1 { Cell::One } else { Cell::Zero })
                    .collect(),
            );
        }
        let mut r = 0;
        while r < n {
            picks[r] += 1;
            if picks[r] < choices[r].len() {
                break;
            }
            picks[r] = 0;
            r += 1;
        }
        if r == n {
            return found;
        }
    }
}

fn sorted(mut list: Vec<Vec<Cell>>) -> Vec<Vec<u8>> {
    let mut keys: Vec<Vec<u8>> = list
        .drain(..)
        .map(|cells| cells.iter().map(|c| if *c == Cell::One { 1 } else { 0 }).collect())
        .collect();
    keys.sort();
    keys
}

/// Checks that `solve` gives the solutions that trying everything gives, each once.
fn solves_like_reference(text: &str) -> usize {
    let puzzle = grid(text);
    let before = puzzle.clone();
    let solutions = puzzle.solve().unwrap();
    assert_eq!(puzzle, before);
    for s in &solutions {
        assert!(s.is_filled());
        assert!(s.is_legal());
        assert_eq!(s.size(), puzzle.size());
        for (given, got) in puzzle.as_slice().iter().zip(s.as_slice()) {
            if *given != Cell::Empty {
                assert_eq!(given, got);
            }
        }
    }
    let ours = sorted(solutions.iter().map(|s| s.as_slice().to_vec()).collect());
    let theirs = sorted(reference_solutions(&puzzle));
    assert_eq!(ours, theirs, "solutions of {:?}", text);
    let mut unique = ours.clone();
    unique.dedup();
    assert_eq!(unique.len(), ours.len());
    ours.len()
}

#[test]
fn four_by_four_puzzle_matches_brute_force() {
    let count = solves_like_reference("..01\n.0..\n1...\n....\n");
    assert_eq!(count, 6);
}

#[test]
fn four_by_four_puzzle_has_these_solutions() {
    let mut texts: Vec<String> = grid("..01\n.0..\n1...\n....\n")
        .solve()
        .unwrap()
        .iter()
        .map(|s| s.to_string())
        .collect();
    texts.sort();
    assert_eq!(
        texts,
        vec![
            "0101\n0011\n1010\n1100\n".to_string(),
            "0101\n0011\n1100\n1010\n".to_string(),
            "0101\n1001\n1010\n0110\n".to_string(),
            "0101\n1010\n1001\n0110\n".to_string(),
            "0101\n1010\n1100\n0011\n".to_string(),
            "1001\n0011\n1100\n0110\n".to_string(),
        ]
    );
}

#[test]
fn filled_legal_grid_is_its_own_solution() {
    let puzzle = grid("01\n10\n");
    let solutions = puzzle.solve().unwrap();
    assert_eq!(solutions.len(), 1);
    assert_eq!(solutions[0], puzzle);
}

#[test]
fn unbalanced_input_is_an_error() {
    let puzzle = grid("11\n..\n");
    assert_eq!(puzzle.solve().unwrap_err(), GridError::Illegal);
}

#[test]
fn input_with_identical_rows_is_an_error() {
    let puzzle = grid("0011\n....\n0011\n....\n");
    assert!(!puzzle.is_legal());
    assert_eq!(puzzle.solve().unwrap_err(), GridError::Illegal);
}

#[test]
fn illegal_input_is_left_untouched() {
    for text in ["000.\n....\n....\n....\n", "0010\n....\n....\n....\n", "11\n..\n"] {
        let puzzle = grid(text);
        let before = puzzle.clone();
        assert_eq!(puzzle.solve().unwrap_err(), GridError::Illegal);
        assert_eq!(puzzle, before);
        assert_eq!(puzzle.to_string(), text);
    }
}

#[test]
fn filled_grids_have_themselves_or_an_error() {
    for text in ["01\n10\n", "10\n01\n", "0011\n0101\n1100\n1010\n", "0101\n1010\n0110\n1001\n"] {
        let puzzle = grid(text);
        assert!(puzzle.is_filled());
        assert!(puzzle.is_legal(), "{:?}", text);
        let solutions = puzzle.solve().unwrap();
        assert_eq!(solutions, vec![puzzle.clone()]);
    }
    for text in ["00\n11\n", "01\n01\n", "0011\n0011\n1100\n1100\n"] {
        let puzzle = grid(text);
        assert!(puzzle.is_filled());
        assert_eq!(puzzle.solve().unwrap_err(), GridError::Illegal);
    }
}

#[test]
fn legal_grid_without_solution_gives_an_empty_list() {
    // Legal as it stands, but row 0 needs a one in column 3 and column 3 a zero
    // in row 0.
    let puzzle = grid("010.\n...1\n....\n...1\n");
    assert!(puzzle.is_legal());
    assert_eq!(puzzle.solve().unwrap(), Vec::<Grid>::new());
    assert_eq!(solves_like_reference("010.\n...1\n....\n...1\n"), 0);
}

#[test]
fn empty_grids_have_all_their_solutions() {
    assert_eq!(solves_like_reference("..\n..\n"), 2);
    assert_eq!(solves_like_reference("....\n....\n....\n....\n"), 72);
}

#[test]
fn solutions_match_brute_force_on_more_grids() {
    for text in [
        "0.\n..\n",
        ".1\n..\n",
        "0...\n....\n....\n...1\n",
        "00..\n....\n0..0\n....\n",
        "0011\n.0..\n11..\n1.0.\n",
        "1..0\n....\n.00.\n....\n",
        ".1..\n..0.\n.0..\n1...\n",
        "0101\n1010\n0110\n....\n",
        "001101\n010011\n1.0.10\n......\n110010\n......\n",
        "00.1..\n.1..0.\n1..0..\n..1..0\n0.....\n...11.\n",
    ] {
        solves_like_reference(text);
    }
}

#[test]
fn a_puzzle_with_one_solution() {
    let puzzle = grid("1..0..\n..00.1\n.00..1\n......\n00.1..\n.1..00\n");
    let solutions = puzzle.solve().unwrap();
    assert_eq!(solutions.len(), 1);
    assert_eq!(solutions[0].to_string(), "101010\n010011\n100101\n011010\n001101\n110100\n");
}

#[test]
fn solution_set_does_not_depend_on_the_symmetry_of_the_puzzle() {
    // Swapping the two numbers of a puzzle swaps them in its solutions.
    let text = "..01\n.0..\n1...\n....\n";
    let swapped: String = text
        .chars()
        .map(|c| match c {
            '0' => '1',
            '1' => '0',
            other => other,
        })
        .collect();
    let mut ours: Vec<String> = grid(text).solve().unwrap().iter().map(|s| s.to_string()).collect();
    let mut theirs: Vec<String> = grid(&swapped)
        .solve()
        .unwrap()
        .iter()
        .map(|s| {
            s.to_string()
                .chars()
                .map(|c| match c {
                    '0' => '1',
                    '1' => '0',
                    other => other,
                })
                .collect()
        })
        .collect();
    ours.sort();
    theirs.sort();
    assert_eq!(ours, theirs);
}
