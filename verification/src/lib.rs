//! A solver for standard 9×9 Sudoku puzzles.
//!
//! A puzzle is given as a text of 81 characters in row-major order, `'1'` to
//! `'9'` for a given digit and `'_'` for an empty cell. [`solve`] reads it,
//! checks that no row, column or box holds a digit twice, fills the empty
//! cells by depth-first search and writes the completed grid in the same form.

pub mod board;
pub mod grid;
pub mod puzzles;
pub mod report;
pub mod search;
pub mod text;

pub use crate::board::Sudoku;
pub use crate::puzzles::{EXTREME, EXTREME_SOLUTION, HARD, HARD_SOLUTION, SIMPLE, SIMPLE_SOLUTION};
pub use crate::report::SolveResult;
pub use crate::text::FormatError;

use crate::grid::{is_complete, is_solution_of, is_valid};
use crate::search::{lemma_solution_correct, lemma_unique_solution_found, solution, solvable};
use crate::text::{
    format_grid, lemma_format_of_parse, lemma_parse_of_format, lemma_parse_well_formed,
    no_solution_reason, parse_text,
};
use vstd::prelude::*;

verus! {

/// What solving a puzzle text yields: the text of the solution, or the words
/// that say why there is none.
///
/// A text that is no grid is refused with the reason of its format error. A
/// grid with a duplicate digit in some peer group and a grid without any
/// completion are both reported with the same words.
pub open spec fn solve_text(input: Seq<char>) -> Result<Seq<char>, Seq<char>> {
    match parse_text(input) {
        Err(e) => Err(e.reason()),
        Ok(g) => match solution(g) {
            Some(s) => Ok(format_grid(s)),
            None => Err(no_solution_reason()),
        },
    }
}

/// The characters of an outcome of [`solve`].
pub open spec fn outcome(res: Result<String, &'static str>) -> Result<Seq<char>, Seq<char>> {
    match res {
        Ok(text) => Ok(text@),
        Err(reason) => Err(reason@),
    }
}

/// Solving succeeds exactly on the texts of puzzles that have a solution, and
/// what it writes is then the text of a solution of that puzzle.
pub proof fn lemma_solve_text(input: Seq<char>)
    ensures
        solve_text(input) is Ok <==> (parse_text(input) matches Ok(g) && solvable(g)),
        solve_text(input) matches Ok(written) ==> (parse_text(input) matches Ok(g) && parse_text(
            written,
        ) matches Ok(s) && is_solution_of(s, g)),
{
    if parse_text(input) is Ok {
        let g = parse_text(input)->Ok_0;
        lemma_parse_well_formed(input);
        lemma_solution_correct(g);
        if solution(g) is Some {
            lemma_parse_of_format(solution(g)->0);
        }
    }
}

/// Solving the text of a complete grid without duplicates yields that text.
pub proof fn lemma_solve_text_of_solved(input: Seq<char>)
    requires
        parse_text(input) matches Ok(g) && is_complete(g) && is_valid(g),
    ensures
        solve_text(input) == Ok::<Seq<char>, Seq<char>>(input),
{
    lemma_format_of_parse(input);
}

/// Solving the text of a grid with a duplicate digit in some peer group
/// reports that there is no solution.
pub proof fn lemma_solve_text_of_duplicate(input: Seq<char>)
    requires
        parse_text(input) matches Ok(g) && !is_valid(g),
    ensures
        solve_text(input) == Err::<Seq<char>, Seq<char>>(no_solution_reason()),
{
}

/// Solving the text of a puzzle with exactly one solution yields the text of
/// that solution.
pub proof fn lemma_solve_text_of_unique(input: Seq<char>, t: Seq<Option<u8>>)
    requires
        parse_text(input) matches Ok(g) && is_solution_of(t, g) && forall|u: Seq<Option<u8>>|
            is_solution_of(u, g) ==> u == t,
    ensures
        solve_text(input) == Ok::<Seq<char>, Seq<char>>(format_grid(t)),
{
    lemma_unique_solution_found(parse_text(input)->Ok_0, t);
}

/// Solving the same text again yields the same outcome, character for
/// character.
pub proof fn lemma_solve_repeatable(
    input: &str,
    first: Result<String, &'static str>,
    second: Result<String, &'static str>,
)
    requires
        outcome(first) == solve_text(input@),
        outcome(second) == solve_text(input@),
    ensures
        outcome(first) == outcome(second),
{
}

/// Solves the puzzle written in `input` and writes the completed grid, or
/// names in words why there is none: `"Must be 9x9"`, `"Invalid char"` or
/// `"no solution"`.
pub fn solve(input: &str) -> (res: Result<String, &'static str>)
    ensures
        outcome(res) == solve_text(input@),
        res is Ok <==> (parse_text(input@) matches Ok(g) && solvable(g)),
        res matches Ok(written) ==> (parse_text(input@) matches Ok(g) && parse_text(
            written@,
        ) matches Ok(s) && is_solution_of(s, g)),
{
    proof {
        lemma_solve_text(input@);
    }
    let sudoku_in = match Sudoku::from_str(input) {
        Ok(board) => board,
        Err(reason) => {
            return Err(reason);
        },
    };
    let sudoku_solved = match sudoku_in.solve() {
        Some(board) => board,
        None => {
            return Err("no solution");
        },
    };
    Ok(sudoku_solved.to_string())
}

} // verus!
