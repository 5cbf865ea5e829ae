//! The mathematical model of a Sudoku grid.
//!
//! A grid is a sequence of 81 cells in row-major order. A cell is `None` when
//! it is empty and `Some(d)` with `1 <= d <= 9` when it holds the digit `d`.
//! The 27 peer groups (9 rows, 9 columns, 9 boxes) are numbered `0..27` and are
//! pure functions of position: group `grp` consists of the nine cells
//! `group_cell(grp, 0)`, ..., `group_cell(grp, 8)`.

use vstd::prelude::*;
use vstd::set_lib::{lemma_int_range, lemma_len_subset, lemma_subset_equality, set_int_range};

verus! {

/// Row of the cell at linear index `i`.
pub open spec fn row_of(i: int) -> int {
    i / 9
}

/// Column of the cell at linear index `i`.
pub open spec fn col_of(i: int) -> int {
    i % 9
}

/// Box (3×3 block) of the cell at linear index `i`, numbered row-major.
pub open spec fn box_of(i: int) -> int {
    (row_of(i) / 3) * 3 + col_of(i) / 3
}

/// Number of the row group that contains cell `i`.
pub open spec fn row_group(i: int) -> int {
    row_of(i)
}

/// Number of the column group that contains cell `i`.
pub open spec fn col_group(i: int) -> int {
    9 + col_of(i)
}

/// Number of the box group that contains cell `i`.
pub open spec fn box_group(i: int) -> int {
    18 + box_of(i)
}

/// Linear index of the `k`-th cell of peer group `grp`.
///
/// Groups `0..9` are the rows, `9..18` the columns and `18..27` the boxes.
pub open spec fn group_cell(grp: int, k: int) -> int {
    if grp < 9 {
        grp * 9 + k
    } else if grp < 18 {
        k * 9 + (grp - 9)
    } else {
        (((grp - 18) / 3) * 3 + k / 3) * 9 + ((grp - 18) % 3) * 3 + k % 3
    }
}

/// Position of cell `i` inside its row group.
pub open spec fn place_in_row(i: int) -> int {
    col_of(i)
}

/// Position of cell `i` inside its column group.
pub open spec fn place_in_col(i: int) -> int {
    row_of(i)
}

/// Position of cell `i` inside its box group.
pub open spec fn place_in_box(i: int) -> int {
    (row_of(i) % 3) * 3 + col_of(i) % 3
}

/// A cell is either empty or holds a digit from 1 to 9.
pub open spec fn cell_ok(c: Option<u8>) -> bool {
    c matches Some(d) ==> 1 <= d <= 9
}

/// A grid has exactly 81 cells, each empty or a digit from 1 to 9.
pub open spec fn well_formed(g: Seq<Option<u8>>) -> bool {
    &&& g.len() == 81
    &&& forall|i: int| 0 <= i < 81 ==> cell_ok(#[trigger] g[i])
}

/// No cell of the grid is empty.
pub open spec fn is_complete(g: Seq<Option<u8>>) -> bool {
    forall|i: int| 0 <= i < g.len() ==> (#[trigger] g[i]) is Some
}

/// Digit `d` stands in some cell of peer group `grp`.
pub open spec fn group_has(g: Seq<Option<u8>>, grp: int, d: u8) -> bool {
    exists|k: int| 0 <= k < 9 && #[trigger] g[group_cell(grp, k)] == Some(d)
}

/// No digit stands in two different cells of peer group `grp`.
pub open spec fn group_valid(g: Seq<Option<u8>>, grp: int) -> bool {
    forall|a: int, b: int|
        #![trigger g[group_cell(grp, a)], g[group_cell(grp, b)]]
        0 <= a < b < 9 && g[group_cell(grp, a)] is Some
            ==> g[group_cell(grp, a)] != g[group_cell(grp, b)]
}

/// No digit appears twice in any of the 27 peer groups. Empty cells are ignored.
pub open spec fn is_valid(g: Seq<Option<u8>>) -> bool {
    forall|grp: int| 0 <= grp < 27 ==> #[trigger] group_valid(g, grp)
}

/// Digit `d` already stands in the row, the column or the box of cell `pos`.
pub open spec fn digit_used(g: Seq<Option<u8>>, pos: int, d: u8) -> bool {
    ||| group_has(g, row_group(pos), d)
    ||| group_has(g, col_group(pos), d)
    ||| group_has(g, box_group(pos), d)
}

/// The digits `1..=n` that are not used around cell `pos`, in ascending order.
pub open spec fn candidates_upto(g: Seq<Option<u8>>, pos: int, n: nat) -> Seq<u8>
    decreases n,
{
    if n == 0 {
        Seq::empty()
    } else {
        let smaller = candidates_upto(g, pos, (n - 1) as nat);
        if digit_used(g, pos, n as u8) {
            smaller
        } else {
            smaller.push(n as u8)
        }
    }
}

/// The candidate digits of cell `pos`: the digits 1 to 9 that stand nowhere in
/// its row, column or box, in ascending order.
pub open spec fn candidates(g: Seq<Option<u8>>, pos: int) -> Seq<u8> {
    candidates_upto(g, pos, 9)
}

/// Grid `s` keeps every digit that grid `g` holds.
pub open spec fn extends(s: Seq<Option<u8>>, g: Seq<Option<u8>>) -> bool {
    &&& s.len() == g.len()
    &&& forall|i: int| 0 <= i < g.len() && (#[trigger] g[i]) is Some ==> s[i] == g[i]
}

/// Grid `s` is a solution of puzzle `g`: a complete, valid grid that keeps the
/// digits given by `g`.
pub open spec fn is_solution_of(s: Seq<Option<u8>>, g: Seq<Option<u8>>) -> bool {
    &&& well_formed(s)
    &&& is_complete(s)
    &&& is_valid(s)
    &&& extends(s, g)
}

/// Digit `d` stands in exactly one cell of peer group `grp`.
pub open spec fn group_has_once(g: Seq<Option<u8>>, grp: int, d: u8) -> bool {
    exists|k: int|
        0 <= k < 9 && #[trigger] g[group_cell(grp, k)] == Some(d) && forall|j: int|
            0 <= j < 9 && j != k ==> #[trigger] g[group_cell(grp, j)] != Some(d)
}

/// Every one of the 27 peer groups holds each digit from 1 to 9 exactly once.
pub open spec fn all_groups_full(g: Seq<Option<u8>>) -> bool {
    forall|grp: int, d: u8|
        0 <= grp < 27 && 1 <= d <= 9 ==> #[trigger] group_has_once(g, grp, d)
}

/// Number of empty cells of a grid.
pub open spec fn empty_count(g: Seq<Option<u8>>) -> nat
    decreases g.len(),
{
    if g.len() == 0 {
        0
    } else {
        empty_count(g.drop_last()) + if g.last() is None {
            1nat
        } else {
            0nat
        }
    }
}

/// Row and column of the `k`-th cell of peer group `grp`.
proof fn lemma_group_cell_coordinates(grp: int, k: int)
    requires
        0 <= grp < 27,
        0 <= k < 9,
    ensures
        0 <= group_cell(grp, k) < 81,
        grp < 9 ==> row_of(group_cell(grp, k)) == grp,
        grp < 9 ==> col_of(group_cell(grp, k)) == k,
        9 <= grp < 18 ==> row_of(group_cell(grp, k)) == k,
        9 <= grp < 18 ==> col_of(group_cell(grp, k)) == grp - 9,
        18 <= grp ==> row_of(group_cell(grp, k)) == ((grp - 18) / 3) * 3 + k / 3,
        18 <= grp ==> col_of(group_cell(grp, k)) == ((grp - 18) % 3) * 3 + k % 3,
{
    let i = group_cell(grp, k);
    if grp < 9 {
        assert(i == grp * 9 + k);
        assert(i / 9 == grp && i % 9 == k);
    } else if grp < 18 {
        let c = grp - 9;
        assert(i == k * 9 + c);
        assert(i / 9 == k && i % 9 == c);
    } else {
        let r = ((grp - 18) / 3) * 3 + k / 3;
        let c = ((grp - 18) % 3) * 3 + k % 3;
        assert(0 <= r < 9 && 0 <= c < 9);
        assert(i == r * 9 + c);
        assert(i / 9 == r && i % 9 == c);
    }
}

/// Every group cell lies on the grid.
pub proof fn lemma_group_cell_range(grp: int, k: int)
    requires
        0 <= grp < 27,
        0 <= k < 9,
    ensures
        0 <= group_cell(grp, k) < 81,
{
    lemma_group_cell_coordinates(grp, k);
}

/// The nine cells of a group are pairwise different.
pub proof fn lemma_group_cell_injective(grp: int, a: int, b: int)
    requires
        0 <= grp < 27,
        0 <= a < 9,
        0 <= b < 9,
        a != b,
    ensures
        group_cell(grp, a) != group_cell(grp, b),
{
    lemma_group_cell_coordinates(grp, a);
    lemma_group_cell_coordinates(grp, b);
    if grp >= 18 {
        assert(a == (a / 3) * 3 + a % 3);
        assert(b == (b / 3) * 3 + b % 3);
    }
}

/// Every cell is a member of its row group, its column group and its box group.
pub proof fn lemma_cell_in_its_groups(i: int)
    requires
        0 <= i < 81,
    ensures
        0 <= row_group(i) < 9,
        9 <= col_group(i) < 18,
        18 <= box_group(i) < 27,
        0 <= place_in_row(i) < 9,
        0 <= place_in_col(i) < 9,
        0 <= place_in_box(i) < 9,
        group_cell(row_group(i), place_in_row(i)) == i,
        group_cell(col_group(i), place_in_col(i)) == i,
        group_cell(box_group(i), place_in_box(i)) == i,
{
    let r = i / 9;
    let c = i % 9;
    assert(0 <= r < 9 && 0 <= c < 9 && i == r * 9 + c);
    let b = (r / 3) * 3 + c / 3;
    let k = (r % 3) * 3 + c % 3;
    assert(0 <= b < 9 && 0 <= k < 9);
    assert(b / 3 == r / 3 && b % 3 == c / 3);
    assert(k / 3 == r % 3 && k % 3 == c % 3);
    assert(r == (r / 3) * 3 + r % 3);
    assert(c == (c / 3) * 3 + c % 3);
    assert(group_cell(18 + b, k) == ((b / 3) * 3 + k / 3) * 9 + (b % 3) * 3 + k % 3);
}

/// A cell belongs to no other group than its row, its column and its box.
pub proof fn lemma_groups_of_cell(grp: int, k: int)
    requires
        0 <= grp < 27,
        0 <= k < 9,
    ensures
        ({
            let i = group_cell(grp, k);
            ||| grp == row_group(i) && k == place_in_row(i)
            ||| grp == col_group(i) && k == place_in_col(i)
            ||| grp == box_group(i) && k == place_in_box(i)
        }),
{
    lemma_group_cell_coordinates(grp, k);
    if grp >= 18 {
        let i = group_cell(grp, k);
        let b = grp - 18;
        let r = (b / 3) * 3 + k / 3;
        let c = (b % 3) * 3 + k % 3;
        assert(row_of(i) == r && col_of(i) == c);
        assert(r / 3 == b / 3 && r % 3 == k / 3);
        assert(c / 3 == b % 3 && c % 3 == k % 3);
        assert(b == (b / 3) * 3 + b % 3);
        assert(k == (k / 3) * 3 + k % 3);
    }
}

/// The candidates of a cell are exactly the unused digits, each once, in
/// ascending order.
pub proof fn lemma_candidates_upto(g: Seq<Option<u8>>, pos: int, n: nat)
    requires
        n <= 9,
    ensures
        ({
            let c = candidates_upto(g, pos, n);
            &&& c.len() <= n
            &&& forall|i: int|
                0 <= i < c.len() ==> 1 <= #[trigger] c[i] <= n && !digit_used(g, pos, c[i])
            &&& forall|i: int, j: int| 0 <= i < j < c.len() ==> c[i] < c[j]
            &&& forall|d: u8| 1 <= d <= n && !digit_used(g, pos, d) ==> c.contains(d)
        }),
    decreases n,
{
    if n > 0 {
        let smaller = candidates_upto(g, pos, (n - 1) as nat);
        let c = candidates_upto(g, pos, n);
        lemma_candidates_upto(g, pos, (n - 1) as nat);
        assert forall|d: u8| 1 <= d <= n && !digit_used(g, pos, d) implies c.contains(d) by {
            if d == n {
                assert(c[c.len() - 1] == d);
            } else {
                assert(smaller.contains(d));
                let i = choose|i: int| 0 <= i < smaller.len() && smaller[i] == d;
                assert(c[i] == d);
            }
        }
    }
}

/// The candidates of a cell are the digits 1 to 9 that are not used around
/// it: each of them once, in ascending order, and nothing else.
pub proof fn lemma_candidates(g: Seq<Option<u8>>, pos: int)
    ensures
        candidates(g, pos).len() <= 9,
        forall|i: int|
            0 <= i < candidates(g, pos).len() ==> 1 <= #[trigger] candidates(g, pos)[i] <= 9
                && !digit_used(g, pos, candidates(g, pos)[i]),
        forall|i: int, j: int|
            0 <= i < j < candidates(g, pos).len() ==> candidates(g, pos)[i] < candidates(
                g,
                pos,
            )[j],
        forall|d: u8| 1 <= d <= 9 && !digit_used(g, pos, d) ==> candidates(g, pos).contains(d),
{
    lemma_candidates_upto(g, pos, 9);
}

/// In a complete grid without duplicates, a peer group holds a given digit
/// exactly once.
pub proof fn lemma_group_of_solution(s: Seq<Option<u8>>, grp: int, d: u8)
    requires
        well_formed(s),
        is_complete(s),
        is_valid(s),
        0 <= grp < 27,
        1 <= d <= 9,
    ensures
        group_has_once(s, grp, d),
{
    let digits = Seq::new(9, |k: int| s[group_cell(grp, k)]->0 as int);
    assert(group_valid(s, grp));
    assert forall|i: int, j: int|
        0 <= i < digits.len() && 0 <= j < digits.len() && i != j implies digits[i]
        != digits[j] by {
        lemma_group_cell_range(grp, i);
        lemma_group_cell_range(grp, j);
        assert(s[group_cell(grp, i)] is Some);
        assert(s[group_cell(grp, j)] is Some);
        if i < j {
            assert(s[group_cell(grp, i)] != s[group_cell(grp, j)]);
        } else {
            assert(s[group_cell(grp, j)] != s[group_cell(grp, i)]);
        }
    }
    digits.unique_seq_to_set();
    lemma_int_range(1, 10);
    assert forall|v: int| digits.to_set().contains(v) implies set_int_range(1, 10).contains(
        v,
    ) by {
        let k = choose|k: int| 0 <= k < digits.len() && digits[k] == v;
        lemma_group_cell_range(grp, k);
        assert(cell_ok(s[group_cell(grp, k)]));
        assert(s[group_cell(grp, k)] is Some);
    }
    lemma_len_subset(digits.to_set(), set_int_range(1, 10));
    lemma_subset_equality(digits.to_set(), set_int_range(1, 10));
    assert(set_int_range(1, 10).contains(d as int));
    assert(digits.contains(d as int));
    let k = choose|k: int| 0 <= k < digits.len() && digits[k] == d as int;
    lemma_group_cell_range(grp, k);
    assert(s[group_cell(grp, k)] is Some);
    assert(s[group_cell(grp, k)] == Some(d));
    assert forall|j: int| 0 <= j < 9 && j != k implies #[trigger] s[group_cell(grp, j)] != Some(
        d,
    ) by {
        assert(digits[j] != digits[k]);
    }
}

/// Every cell of a complete grid without duplicates is a digit from 1 to 9,
/// and every peer group of it holds each digit exactly once.
pub proof fn lemma_solution_groups_full(s: Seq<Option<u8>>)
    requires
        well_formed(s),
        is_complete(s),
        is_valid(s),
    ensures
        forall|i: int| 0 <= i < 81 ==> (#[trigger] s[i] matches Some(d) && 1 <= d <= 9),
        all_groups_full(s),
{
    assert forall|i: int| 0 <= i < 81 implies (#[trigger] s[i] matches Some(d) && 1 <= d <= 9) by {
        assert(cell_ok(s[i]));
    }
    assert forall|grp: int, d: u8| 0 <= grp < 27 && 1 <= d <= 9 implies #[trigger] group_has_once(
        s,
        grp,
        d,
    ) by {
        lemma_group_of_solution(s, grp, d);
    }
}

/// Filling one empty cell lowers the number of empty cells by one.
pub proof fn lemma_empty_count_fill(g: Seq<Option<u8>>, pos: int, d: u8)
    requires
        0 <= pos < g.len(),
        g[pos] is None,
    ensures
        empty_count(g.update(pos, Some(d))) + 1 == empty_count(g),
    decreases g.len(),
{
    let filled = g.update(pos, Some(d));
    if pos == g.len() - 1 {
        assert(filled.drop_last() =~= g.drop_last());
    } else {
        assert(filled.drop_last() =~= g.drop_last().update(pos, Some(d)));
        lemma_empty_count_fill(g.drop_last(), pos, d);
    }
}

} // verus!
