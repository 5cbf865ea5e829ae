//! The outcome of solving as a plain record, for callers that hand it on to
//! another runtime.

use crate::solve_text;
use vstd::prelude::*;

verus! {

/// The outcome of solving one puzzle text: either the solution or the reason
/// why there is none, never both.
#[derive(Debug)]
pub struct SolveResult {
    pub error: Option<String>,
    pub solution: Option<String>,
}

impl SolveResult {
    /// The record of a solved puzzle.
    pub fn success(solved: &str) -> (res: SolveResult)
        ensures
            res.error is None,
            res.solution matches Some(text) && text@ == solved@,
    {
        SolveResult { error: None, solution: Some(solved.to_owned()) }
    }

    /// The record of a puzzle that was refused or has no solution.
    pub fn fail(err: &str) -> (res: SolveResult)
        ensures
            res.solution is None,
            res.error matches Some(text) && text@ == err@,
    {
        SolveResult { error: Some(err.to_owned()), solution: None }
    }
}

/// Solves a puzzle given in text form and reports the outcome as a record.
pub fn solve(input: &str) -> (res: SolveResult)
    ensures
        match solve_text(input@) {
            Ok(solved) => res.error is None && (res.solution matches Some(text) && text@
                == solved),
            Err(reason) => res.solution is None && (res.error matches Some(text) && text@
                == reason),
        },
{
    match crate::solve(input) {
        Ok(solved) => SolveResult::success(solved.as_str()),
        Err(err) => SolveResult::fail(err),
    }
}

} // verus!
