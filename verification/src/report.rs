//! The report on a solved grid: what is printed for a source and its solutions.

use crate::board::Board;
use crate::error::{decimal, decimal_text};
use crate::grid::Grid;
use crate::search::views;
use crate::text::{diff_rendered, rendered};
use vstd::prelude::*;
use vstd::string::StringExecFns;

verus! {

/// The name under which a source is reported: `(stdin)` for the standard input,
/// which is named `-`, and its own name for any other.
pub open spec fn shown_name(name: Seq<char>) -> Seq<char> {
    if name == "-"@ {
        "(stdin)"@
    } else {
        name
    }
}

/// The text of a solution: against the grid that was given if colours are asked
/// for, plain if not.
pub open spec fn shown(given: Board, solution: Board, colors: bool) -> Seq<char> {
    if colors {
        diff_rendered(solution, given)
    } else {
        rendered(solution)
    }
}

/// The part of a report on several solutions that follows the first solution, up
/// to the solution before `k`: for each solution an empty line, the name and the
/// number of the solution, counted from one, and the solution.
pub open spec fn numbered_upto(
    name: Seq<char>,
    given: Board,
    solutions: Seq<Board>,
    colors: bool,
    k: int,
) -> Seq<char>
    decreases k,
{
    if k <= 1 {
        Seq::empty()
    } else {
        numbered_upto(name, given, solutions, colors, k - 1) + "\n"@ + name + ": "@ + decimal_text(
            k as nat,
        ) + "\n"@ + shown(given, solutions[k - 1], colors)
    }
}

/// The report on the solutions of a grid read from the source `name`: that there
/// is no solution; or the name and the one solution; or the solutions one after
/// the other, each under the name and its number.
pub open spec fn report_text(
    name: Seq<char>,
    given: Board,
    solutions: Seq<Board>,
    colors: bool,
) -> Seq<char> {
    let name = shown_name(name);
    if solutions.len() == 0 {
        name + ": no solution\n"@
    } else if solutions.len() == 1 {
        name + "\n"@ + shown(given, solutions[0], colors)
    } else {
        name + ": 1\n"@ + shown(given, solutions[0], colors) + numbered_upto(
            name,
            given,
            solutions,
            colors,
            solutions.len() as int,
        )
    }
}

/// Tells whether a name is that of the standard input.
pub fn is_stdin(name: &str) -> (b: bool)
    ensures
        b == (name@ == "-"@),
{
    proof {
        reveal_strlit("-");
    }
    let text = crate::text::chars_of(name);
    let b = text.len() == 1 && text[0] == '-';
    proof {
        if b {
            assert(name@ =~= "-"@);
        }
    }
    b
}

/// Encodes a solution for the report: against the grid that was given if colours
/// are asked for, plain if not.
pub fn show(given: &Grid, solution: &Grid, colors: bool) -> (out: String)
    ensures
        out@ == shown(given@, solution@, colors),
{
    if colors {
        solution.to_string_diff(given)
    } else {
        solution.to_string()
    }
}

/// Writes the report on the solutions of the grid `given`, which was read from
/// the source `name`. With `colors`, the cells that a solution has filled in are
/// shown in colour.
pub fn report(name: &str, given: &Grid, solutions: &Vec<Grid>, colors: bool) -> (out: String)
    ensures
        out@ == report_text(name@, given@, views(solutions@), colors),
{
    let ghost all = views(solutions@);
    let ghost label = shown_name(name@);
    let mut out = String::new();
    if is_stdin(name) {
        out.append("(stdin)");
    } else {
        out.append(name);
    }
    assert(out@ =~= label);
    let count = solutions.len();
    if count == 0 {
        out.append(": no solution\n");
        return out;
    }
    assert(all[0] == solutions@[0]@);
    let first = show(given, &solutions[0], colors);
    if count == 1 {
        out.append("\n");
        out.append(first.as_str());
        assert(out@ =~= label + "\n"@ + shown(given@, all[0], colors));
        return out;
    }
    out.append(": 1\n");
    out.append(first.as_str());
    let ghost head = out@;
    assert(head =~= label + ": 1\n"@ + shown(given@, all[0], colors));
    let mut i: usize = 1;
    assert(out@ =~= head + numbered_upto(label, given@, all, colors, 1));
    while i < count
        invariant
            count == solutions@.len(),
            all == views(solutions@),
            label == shown_name(name@),
            1 <= i <= count,
            out@ == head + numbered_upto(label, given@, all, colors, i as int),
        decreases count - i,
    {
        let ghost before = numbered_upto(label, given@, all, colors, i as int);
        assert(all[i as int] == solutions@[i as int]@);
        let text = show(given, &solutions[i], colors);
        let number = decimal(i + 1);
        out.append("\n");
        if is_stdin(name) {
            out.append("(stdin)");
        } else {
            out.append(name);
        }
        out.append(": ");
        out.append(number.as_str());
        out.append("\n");
        out.append(text.as_str());
        assert(out@ =~= head + (before + "\n"@ + label + ": "@ + decimal_text((i + 1) as nat)
            + "\n"@ + shown(given@, all[i as int], colors)));
        i += 1;
    }
    out
}

} // verus!
