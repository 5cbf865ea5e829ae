//! The search that fills a grid: which cell is filled next, in which order
//! its candidates are tried, and which solution comes out.

use crate::grid::{
    box_group, candidates, cell_ok, col_group, digit_used, empty_count, group_cell, group_has,
    group_valid, is_complete, is_solution_of, is_valid, lemma_candidates,
    lemma_cell_in_its_groups, lemma_empty_count_fill, lemma_group_cell_injective,
    lemma_group_cell_range, lemma_groups_of_cell, place_in_box, place_in_col, place_in_row,
    row_group, well_formed,
};
use vstd::prelude::*;

verus! {

/// Cell `p` lies on the grid and is empty.
pub open spec fn is_open(g: Seq<Option<u8>>, p: int) -> bool {
    0 <= p < g.len() && g[p] is None
}

/// Cell `p` is empty and has exactly one candidate.
pub open spec fn is_forced(g: Seq<Option<u8>>, p: int) -> bool {
    is_open(g, p) && candidates(g, p).len() == 1
}

/// Some empty cell of the grid has exactly one candidate.
pub open spec fn has_forced(g: Seq<Option<u8>>) -> bool {
    exists|q: int| is_forced(g, q)
}

/// Cell `p` is the one that the search fills next.
///
/// Where some empty cell has exactly one candidate, it is the first such
/// cell, even where an empty cell before it has no candidate at all.
/// Otherwise it is the first among the empty cells with the fewest
/// candidates.
pub open spec fn selects(g: Seq<Option<u8>>, p: int) -> bool {
    &&& is_open(g, p)
    &&& if has_forced(g) {
        &&& is_forced(g, p)
        &&& forall|q: int| 0 <= q < p ==> !#[trigger] is_forced(g, q)
    } else {
        forall|q: int| #[trigger]
            is_open(g, q) ==> {
                &&& candidates(g, p).len() <= candidates(g, q).len()
                &&& q < p ==> candidates(g, p).len() < candidates(g, q).len()
            }
    }
}

/// The cell that the search fills next on a grid with an empty cell.
pub open spec fn selected_cell(g: Seq<Option<u8>>) -> int {
    choose|p: int| selects(g, p)
}

/// At most one cell is selected.
pub proof fn lemma_selects_unique(g: Seq<Option<u8>>, p: int, q: int)
    requires
        selects(g, p),
        selects(g, q),
    ensures
        p == q,
{
}

/// The selected cell of a grid is the one that `selects` holds of.
pub proof fn lemma_selected_cell(g: Seq<Option<u8>>, p: int)
    requires
        selects(g, p),
    ensures
        selected_cell(g) == p,
{
    lemma_selects_unique(g, p, selected_cell(g));
}

/// The result of the depth-first search from grid `g`.
///
/// A complete grid is its own result. Otherwise the selected cell is filled
/// with its candidates in ascending order, and the first candidate from which
/// the search succeeds gives the result; there is none when every candidate
/// fails.
pub open spec fn search(g: Seq<Option<u8>>) -> Option<Seq<Option<u8>>>
    decreases empty_count(g), 1nat, 0nat,
{
    if is_complete(g) {
        Some(g)
    } else {
        try_from(g, selected_cell(g), 0)
    }
}

/// The result of trying, on grid `g` and in the empty cell `pos`, the
/// candidates of that cell from the `k`-th on.
pub open spec fn try_from(g: Seq<Option<u8>>, pos: int, k: nat) -> Option<Seq<Option<u8>>>
    decreases empty_count(g), 0nat, candidates(g, pos).len() - k,
{
    if is_open(g, pos) && k < candidates(g, pos).len() {
        proof {
            lemma_empty_count_fill(g, pos, candidates(g, pos)[k as int]);
        }
        match search(g.update(pos, Some(candidates(g, pos)[k as int]))) {
            Some(s) => Some(s),
            None => try_from(g, pos, k + 1),
        }
    } else {
        None
    }
}

/// What solving grid `g` yields: nothing for a grid with a duplicate digit in
/// some peer group, else the result of the search.
pub open spec fn solution(g: Seq<Option<u8>>) -> Option<Seq<Option<u8>>> {
    if is_valid(g) {
        search(g)
    } else {
        None
    }
}

/// Puzzle `g` has at least one solution.
pub open spec fn solvable(g: Seq<Option<u8>>) -> bool {
    exists|t: Seq<Option<u8>>| is_solution_of(t, g)
}

/// The first cell with exactly one candidate, given that cell `q` is one.
proof fn lemma_first_forced(g: Seq<Option<u8>>, q: int) -> (p: int)
    requires
        is_forced(g, q),
    ensures
        is_forced(g, p),
        forall|r: int| 0 <= r < p ==> !#[trigger] is_forced(g, r),
    decreases q,
{
    if exists|r: int| 0 <= r < q && is_forced(g, r) {
        let r = choose|r: int| 0 <= r < q && is_forced(g, r);
        lemma_first_forced(g, r)
    } else {
        q
    }
}

/// The first among the empty cells below `n` with the fewest candidates.
proof fn lemma_first_fewest(g: Seq<Option<u8>>, n: int) -> (p: int)
    requires
        0 <= n <= g.len(),
        exists|q: int| 0 <= q < n && is_open(g, q),
    ensures
        0 <= p < n,
        is_open(g, p),
        forall|q: int|
            0 <= q < n && #[trigger] is_open(g, q) ==> {
                &&& candidates(g, p).len() <= candidates(g, q).len()
                &&& q < p ==> candidates(g, p).len() < candidates(g, q).len()
            },
    decreases n,
{
    if exists|q: int| 0 <= q < n - 1 && is_open(g, q) {
        let before = lemma_first_fewest(g, n - 1);
        if is_open(g, n - 1) && candidates(g, n - 1).len() < candidates(g, before).len() {
            n - 1
        } else {
            before
        }
    } else {
        n - 1
    }
}

/// On a grid with an empty cell the selected cell exists, and it is empty.
pub proof fn lemma_selection_exists(g: Seq<Option<u8>>)
    requires
        !is_complete(g),
    ensures
        selects(g, selected_cell(g)),
        is_open(g, selected_cell(g)),
{
    let i = choose|i: int| 0 <= i < g.len() && !(#[trigger] g[i] is Some);
    assert(is_open(g, i));
    if has_forced(g) {
        let q = choose|q: int| is_forced(g, q);
        let p = lemma_first_forced(g, q);
        assert(selects(g, p));
    } else {
        let p = lemma_first_fewest(g, g.len() as int);
        assert(selects(g, p));
    }
}

/// Putting into an empty cell a digit that is not used around it keeps the
/// grid well-formed and free of duplicates.
pub proof fn lemma_fill_keeps_valid(g: Seq<Option<u8>>, pos: int, d: u8)
    requires
        well_formed(g),
        is_valid(g),
        is_open(g, pos),
        1 <= d <= 9,
        !digit_used(g, pos, d),
    ensures
        well_formed(g.update(pos, Some(d))),
        is_valid(g.update(pos, Some(d))),
{
    let filled = g.update(pos, Some(d));
    assert forall|grp: int| 0 <= grp < 27 implies #[trigger] group_valid(filled, grp) by {
        assert(group_valid(g, grp));
        assert forall|a: int, b: int|
            #![trigger filled[group_cell(grp, a)], filled[group_cell(grp, b)]]
            0 <= a < b < 9 && filled[group_cell(grp, a)] is Some implies filled[group_cell(grp, a)]
            != filled[group_cell(grp, b)] by {
            let ca = group_cell(grp, a);
            let cb = group_cell(grp, b);
            lemma_group_cell_range(grp, a);
            lemma_group_cell_range(grp, b);
            lemma_group_cell_injective(grp, a, b);
            if ca == pos {
                lemma_groups_of_cell(grp, a);
                assert(g[group_cell(grp, b)] != Some(d));
            } else if cb == pos {
                lemma_groups_of_cell(grp, b);
                assert(g[group_cell(grp, a)] != Some(d));
            } else {
                assert(g[group_cell(grp, a)] != g[group_cell(grp, b)]);
            }
        }
    }
}

/// A solution of a puzzle holds, in each empty cell of the puzzle, one of the
/// candidates of that cell, and it is still a solution once that digit is put
/// into the puzzle.
pub proof fn lemma_solution_uses_candidate(g: Seq<Option<u8>>, t: Seq<Option<u8>>, pos: int)
    requires
        is_solution_of(t, g),
        is_open(g, pos),
    ensures
        t[pos] is Some,
        candidates(g, pos).contains(t[pos]->0),
        is_solution_of(t, g.update(pos, t[pos])),
{
    let d = t[pos]->0;
    assert(t[pos] is Some);
    assert(cell_ok(t[pos]));
    lemma_cell_in_its_groups(pos);
    assert forall|grp: int, k: int|
        0 <= grp < 27 && 0 <= k < 9 && group_cell(grp, k) == pos implies !group_has(
        g,
        grp,
        d,
    ) by {
        if group_has(g, grp, d) {
            let j = choose|j: int| 0 <= j < 9 && #[trigger] g[group_cell(grp, j)] == Some(d);
            lemma_group_cell_range(grp, j);
            assert(t[group_cell(grp, j)] == Some(d));
            assert(group_valid(t, grp));
            if j < k {
                assert(t[group_cell(grp, j)] != t[group_cell(grp, k)]);
            } else if k < j {
                assert(t[group_cell(grp, k)] != t[group_cell(grp, j)]);
            }
        }
    }
    assert(group_cell(row_group(pos), place_in_row(pos)) == pos);
    assert(group_cell(col_group(pos), place_in_col(pos)) == pos);
    assert(group_cell(box_group(pos), place_in_box(pos)) == pos);
    assert(!digit_used(g, pos, d));
    lemma_candidates(g, pos);
}

/// Whatever the search returns is a solution of the grid it started from.
pub proof fn lemma_search_sound(g: Seq<Option<u8>>)
    requires
        well_formed(g),
        is_valid(g),
    ensures
        search(g) matches Some(s) ==> is_solution_of(s, g),
    decreases empty_count(g), 1nat, 0nat,
{
    if !is_complete(g) {
        lemma_selection_exists(g);
        lemma_try_from_sound(g, selected_cell(g), 0);
    }
}

/// Whatever trying the candidates of a cell returns is a solution of the grid.
pub proof fn lemma_try_from_sound(g: Seq<Option<u8>>, pos: int, k: nat)
    requires
        well_formed(g),
        is_valid(g),
    ensures
        try_from(g, pos, k) matches Some(s) ==> is_solution_of(s, g),
    decreases empty_count(g), 0nat, candidates(g, pos).len() - k,
{
    if is_open(g, pos) && k < candidates(g, pos).len() {
        let d = candidates(g, pos)[k as int];
        let child = g.update(pos, Some(d));
        lemma_candidates(g, pos);
        lemma_fill_keeps_valid(g, pos, d);
        lemma_empty_count_fill(g, pos, d);
        lemma_search_sound(child);
        lemma_try_from_sound(g, pos, k + 1);
        if search(child) is Some {
            let s = search(child)->0;
            assert forall|i: int| 0 <= i < g.len() && (#[trigger] g[i]) is Some implies s[i]
                == g[i] by {
                assert(child[i] == g[i]);
            }
        }
    }
}

/// Trying the candidates of a cell succeeds from every index up to one whose
/// candidate leads to success.
proof fn lemma_try_from_reaches(g: Seq<Option<u8>>, pos: int, k: nat, hit: nat)
    requires
        is_open(g, pos),
        k <= hit < candidates(g, pos).len(),
        search(g.update(pos, Some(candidates(g, pos)[hit as int]))) is Some,
    ensures
        try_from(g, pos, k) is Some,
    decreases hit - k,
{
    if k < hit {
        lemma_try_from_reaches(g, pos, k + 1, hit);
    }
}

/// The search finds a solution of every puzzle that has one.
pub proof fn lemma_search_complete(g: Seq<Option<u8>>, t: Seq<Option<u8>>)
    requires
        is_solution_of(t, g),
    ensures
        search(g) is Some,
    decreases empty_count(g),
{
    if !is_complete(g) {
        lemma_selection_exists(g);
        let pos = selected_cell(g);
        lemma_solution_uses_candidate(g, t, pos);
        let d = t[pos]->0;
        let hit = choose|i: int| 0 <= i < candidates(g, pos).len() && candidates(g, pos)[i] == d;
        lemma_empty_count_fill(g, pos, d);
        lemma_search_complete(g.update(pos, Some(d)), t);
        lemma_try_from_reaches(g, pos, 0, hit as nat);
    }
}

/// A puzzle that has a solution has no duplicate digit in any peer group.
pub proof fn lemma_solvable_is_valid(g: Seq<Option<u8>>, t: Seq<Option<u8>>)
    requires
        is_solution_of(t, g),
    ensures
        is_valid(g),
{
    assert forall|grp: int| 0 <= grp < 27 implies #[trigger] group_valid(g, grp) by {
        assert(group_valid(t, grp));
        assert forall|a: int, b: int|
            #![trigger g[group_cell(grp, a)], g[group_cell(grp, b)]]
            0 <= a < b < 9 && g[group_cell(grp, a)] is Some implies g[group_cell(grp, a)]
            != g[group_cell(grp, b)] by {
            lemma_group_cell_range(grp, a);
            lemma_group_cell_range(grp, b);
            assert(t[group_cell(grp, a)] != t[group_cell(grp, b)]);
        }
    }
}

/// Solving is correct: what it yields is a solution of the puzzle, and it
/// yields one exactly when the puzzle has a solution.
pub proof fn lemma_solution_correct(g: Seq<Option<u8>>)
    requires
        well_formed(g),
    ensures
        solution(g) matches Some(s) ==> is_solution_of(s, g),
        solution(g) is Some <==> solvable(g),
{
    if is_valid(g) {
        lemma_search_sound(g);
    }
    if solvable(g) {
        let t = choose|t: Seq<Option<u8>>| is_solution_of(t, g);
        lemma_solvable_is_valid(g, t);
        lemma_search_complete(g, t);
    }
}

/// Solving a complete grid without duplicates yields that same grid.
pub proof fn lemma_solved_is_fixed(g: Seq<Option<u8>>)
    requires
        is_complete(g),
        is_valid(g),
    ensures
        solution(g) == Some(g),
{
}

/// Solving a grid with a duplicate digit in some peer group yields nothing.
pub proof fn lemma_duplicate_yields_nothing(g: Seq<Option<u8>>)
    requires
        !is_valid(g),
    ensures
        solution(g) is None,
{
}

/// Solving a puzzle with exactly one solution yields that solution.
pub proof fn lemma_unique_solution_found(g: Seq<Option<u8>>, t: Seq<Option<u8>>)
    requires
        is_solution_of(t, g),
        forall|u: Seq<Option<u8>>| is_solution_of(u, g) ==> u == t,
    ensures
        solution(g) == Some(t),
{
    lemma_solvable_is_valid(g, t);
    lemma_search_complete(g, t);
    lemma_search_sound(g);
}

} // verus!
