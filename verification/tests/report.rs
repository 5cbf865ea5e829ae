use solver::report::solve;
use solver::{SolveResult, SIMPLE, SIMPLE_SOLUTION};

#[test]
fn success_holds_the_solution_and_no_error() {
    let res = SolveResult::success("abc");
    assert_eq!(res.solution, Some("abc".to_string()));
    assert_eq!(res.error, None);
}

#[test]
fn fail_holds_the_error_and_no_solution() {
    let res = SolveResult::fail("no solution");
    assert_eq!(res.error, Some("no solution".to_string()));
    assert_eq!(res.solution, None);
}

#[test]
fn a_solved_puzzle_is_reported_with_its_solution() {
    let res = solve(SIMPLE);
    assert_eq!(res.solution, Some(SIMPLE_SOLUTION.to_string()));
    assert_eq!(res.error, None);
}

#[test]
fn a_failure_is_reported_with_its_reason() {
    let res = solve("");
    assert_eq!(res.error, Some("Must be 9x9".to_string()));
    assert_eq!(res.solution, None);
    let res = solve(&"?".repeat(81));
    assert_eq!(res.error, Some("Invalid char".to_string()));
    assert_eq!(res.solution, None);
    let res = solve(&"é".repeat(81));
    assert_eq!(res.error, Some("Invalid char".to_string()));
    assert_eq!(res.solution, None);
    let res = solve(&"1".repeat(81));
    assert_eq!(res.error, Some("no solution".to_string()));
    assert_eq!(res.solution, None);
}
