//! The executable board and the constraint checks on it.

use crate::grid::{
    all_groups_full, candidates, candidates_upto, cell_ok, digit_used, empty_count, group_cell,
    group_has, group_valid, is_complete, is_solution_of, is_valid, lemma_candidates,
    lemma_empty_count_fill, lemma_solution_groups_full, well_formed,
};
use crate::search::{
    is_forced, is_open, lemma_selected_cell, lemma_solution_correct, search, selected_cell,
    selects, solution, solvable, try_from,
};
use crate::text::{
    cell_of_char, char_of_cell, format_grid, is_cell_char, parse_text, FormatError,
};
use vstd::prelude::*;
use vstd::string::{is_ascii_spec_bytes, StrSliceExecFns, StringExecFns};

verus! {

/// A Sudoku board: 81 cells in row-major order, each empty or a digit 1–9.
#[derive(Debug)]
pub struct Sudoku {
    cells: Vec<Option<u8>>,
}

impl View for Sudoku {
    type V = Seq<Option<u8>>;

    closed spec fn view(&self) -> Seq<Option<u8>> {
        self.cells@
    }
}

impl Clone for Sudoku {
    fn clone(&self) -> (res: Self)
        ensures
            res@ == self@,
    {
        proof {
            use_type_invariant(self);
        }
        let cells = self.cells.clone();
        assert(cells@ =~= self@);
        Sudoku { cells }
    }
}

/// Linear index of the `k`-th cell of peer group `grp`.
pub fn group_cell_index(grp: usize, k: usize) -> (i: usize)
    requires
        grp < 27,
        k < 9,
    ensures
        i == group_cell(grp as int, k as int),
        i < 81,
{
    if grp < 9 {
        grp * 9 + k
    } else if grp < 18 {
        k * 9 + (grp - 9)
    } else {
        (((grp - 18) / 3) * 3 + k / 3) * 9 + ((grp - 18) % 3) * 3 + k % 3
    }
}

/// The one-character text of a cell.
pub fn cell_text(cell: Option<u8>) -> (text: &'static str)
    requires
        cell_ok(cell),
    ensures
        text@ == seq![char_of_cell(cell)],
{
    proof {
        reveal_strlit("_");
        reveal_strlit("1");
        reveal_strlit("2");
        reveal_strlit("3");
        reveal_strlit("4");
        reveal_strlit("5");
        reveal_strlit("6");
        reveal_strlit("7");
        reveal_strlit("8");
        reveal_strlit("9");
    }
    let text = match cell {
        None => "_",
        Some(1) => "1",
        Some(2) => "2",
        Some(3) => "3",
        Some(4) => "4",
        Some(5) => "5",
        Some(6) => "6",
        Some(7) => "7",
        Some(8) => "8",
        Some(_) => "9",
    };
    assert(text@ =~= seq![char_of_cell(cell)]);
    text
}

impl Sudoku {
    /// Every board is a well-formed grid: 81 cells, each empty or a digit 1–9.
    #[verifier::type_invariant]
    pub open spec fn wf(&self) -> bool {
        well_formed(self@)
    }

    /// Builds a board from its 81 cells in row-major order.
    pub fn new(cells: Vec<Option<u8>>) -> (board: Self)
        requires
            well_formed(cells@),
        ensures
            board@ == cells@,
    {
        Sudoku { cells }
    }

    /// Reads a board from its text form: 81 characters, `'1'`–`'9'` for a
    /// digit and `'_'` for an empty cell.
    pub fn parse(text: &str) -> (res: Result<Sudoku, FormatError>)
        ensures
            match res {
                Ok(board) => parse_text(text@) == Ok::<Seq<Option<u8>>, FormatError>(board@),
                Err(e) => parse_text(text@) == Err::<Seq<Option<u8>>, FormatError>(e),
            },
            res == Err::<Sudoku, FormatError>(FormatError::WrongLength) <==> text@.len() != 81,
            res == Err::<Sudoku, FormatError>(FormatError::InvalidCharacter) <==> text@.len()
                == 81 && exists|i: int| 0 <= i < 81 && !is_cell_char(#[trigger] text@[i]),
    {
        if !text.is_ascii() {
            // Some character is not ASCII, and so outside the alphabet.
            if text.unicode_len() != 81 {
                return Err(FormatError::WrongLength);
            }
            proof {
                let i = choose|i: int|
                    0 <= i < text@.len() && !('\0' <= #[trigger] text@[i] <= '\u{7f}');
                assert(!is_cell_char(text@[i]));
            }
            return Err(FormatError::InvalidCharacter);
        }
        // An ASCII text has one byte for each character.
        let bytes = text.as_bytes();
        proof {
            is_ascii_spec_bytes(text);
        }
        if bytes.len() != 81 {
            return Err(FormatError::WrongLength);
        }
        let mut cells: Vec<Option<u8>> = Vec::with_capacity(81);
        let mut i: usize = 0;
        while i < 81
            invariant
                i <= 81,
                text@.len() == 81,
                bytes@.len() == 81,
                forall|j: int|
                    0 <= j < 81 ==> '\0' <= #[trigger] text@[j] <= '\u{7f}' && bytes@[j]
                        == text@[j] as u8,
                cells@.len() == i,
                forall|j: int|
                    0 <= j < i ==> is_cell_char(#[trigger] text@[j]) && cells@[j] == cell_of_char(
                        text@[j],
                    ),
            decreases 81 - i,
        {
            let c = bytes[i];
            if 0x31 <= c && c <= 0x39 {
                cells.push(Some(c - 0x30));
            } else if c == 0x5f {
                cells.push(None);
            } else {
                assert(!is_cell_char(text@[i as int]));
                return Err(FormatError::InvalidCharacter);
            }
            i = i + 1;
        }
        assert(cells@ =~= Seq::new(81, |i: int| cell_of_char(text@[i])));
        Ok(Sudoku { cells })
    }

    /// Reads a board from its text form, and names the reason in words where
    /// the text is refused.
    pub fn from_str(s: &str) -> (res: Result<Sudoku, &'static str>)
        ensures
            match res {
                Ok(board) => parse_text(s@) == Ok::<Seq<Option<u8>>, FormatError>(board@),
                Err(m) => parse_text(s@) matches Err(e) && m@ == e.reason(),
            },
    {
        match Sudoku::parse(s) {
            Ok(board) => Ok(board),
            Err(e) => Err(e.message()),
        }
    }

    /// Writes the board in its text form.
    pub fn to_string(&self) -> (text: String)
        ensures
            text@ == format_grid(self@),
    {
        proof {
            use_type_invariant(self);
        }
        let mut text = String::new();
        let mut i: usize = 0;
        while i < 81
            invariant
                i <= 81,
                well_formed(self@),
                text@ == format_grid(self@).take(i as int),
            decreases 81 - i,
        {
            text.append(cell_text(self.cells[i]));
            i = i + 1;
            assert(text@ =~= format_grid(self@).take(i as int));
        }
        assert(format_grid(self@).take(81) =~= format_grid(self@));
        text
    }

    /// The cell at linear index `position`.
    pub fn get(&self, position: usize) -> (cell: Option<u8>)
        requires
            position < 81,
        ensures
            cell == self@[position as int],
    {
        proof {
            use_type_invariant(self);
        }
        self.cells[position]
    }

    /// The cell in row `row` and column `col`.
    pub fn cell(&self, row: usize, col: usize) -> (cell: Option<u8>)
        requires
            row < 9,
            col < 9,
        ensures
            cell == self@[row * 9 + col],
            cell == self@[group_cell(row as int, col as int)],
    {
        self.get(row * 9 + col)
    }

    /// The `k`-th cell of box `bx`, both counted row-major.
    pub fn box_cell(&self, bx: usize, k: usize) -> (cell: Option<u8>)
        requires
            bx < 9,
            k < 9,
        ensures
            cell == self@[group_cell(18 + bx, k as int)],
    {
        self.get(group_cell_index(18 + bx, k))
    }

    /// Whether no cell is empty.
    pub fn is_solved(&self) -> (res: bool)
        ensures
            res == is_complete(self@),
    {
        proof {
            use_type_invariant(self);
        }
        let mut i: usize = 0;
        while i < 81
            invariant
                i <= 81,
                self@.len() == 81,
                forall|j: int| 0 <= j < i ==> (#[trigger] self@[j]) is Some,
            decreases 81 - i,
        {
            if self.cells[i].is_none() {
                return false;
            }
            i = i + 1;
        }
        true
    }

    /// Whether no digit stands twice in peer group `grp`.
    pub fn group_is_valid(&self, grp: usize) -> (res: bool)
        requires
            grp < 27,
        ensures
            res == group_valid(self@, grp as int),
    {
        proof {
            use_type_invariant(self);
        }
        let mut seen: [bool; 9] = [false; 9];
        let mut k: usize = 0;
        while k < 9
            invariant
                k <= 9,
                grp < 27,
                well_formed(self@),
                forall|d: int|
                    0 <= d < 9 ==> (#[trigger] seen[d] <==> exists|a: int|
                        0 <= a < k && #[trigger] self@[group_cell(grp as int, a)] == Some(
                            (d + 1) as u8,
                        )),
                forall|a: int, b: int|
                    #![trigger self@[group_cell(grp as int, a)], self@[group_cell(grp as int, b)]]
                    0 <= a < b < k && self@[group_cell(grp as int, a)] is Some
                        ==> self@[group_cell(grp as int, a)] != self@[group_cell(grp as int, b)],
            decreases 9 - k,
        {
            let idx = group_cell_index(grp, k);
            match self.cells[idx] {
                None => {},
                Some(v) => {
                    assert(cell_ok(self@[idx as int]));
                    let slot: usize = (v - 1) as usize;
                    if seen[slot] {
                        proof {
                            let a = choose|a: int|
                                0 <= a < k && #[trigger] self@[group_cell(grp as int, a)]
                                    == Some((slot + 1) as u8);
                            assert(self@[group_cell(grp as int, a)]
                                == self@[group_cell(grp as int, k as int)]);
                        }
                        return false;
                    }
                    seen[slot] = true;
                },
            }
            k = k + 1;
        }
        true
    }

    /// Whether no digit appears twice in any row, column or box.
    pub fn is_valid(&self) -> (res: bool)
        ensures
            res == is_valid(self@),
    {
        let mut grp: usize = 0;
        while grp < 27
            invariant
                grp <= 27,
                forall|h: int| 0 <= h < grp ==> #[trigger] group_valid(self@, h),
            decreases 27 - grp,
        {
            if !self.group_is_valid(grp) {
                return false;
            }
            grp = grp + 1;
        }
        true
    }

    /// Marks in `used` the digits that stand in peer group `grp`: slot `d - 1`
    /// is set for every digit `d` found there, the other slots are kept.
    pub fn mark_group(&self, grp: usize, used: &mut [bool; 9])
        requires
            grp < 27,
        ensures
            forall|d: int|
                0 <= d < 9 ==> (#[trigger] final(used)[d] <==> old(used)[d] || group_has(
                    self@,
                    grp as int,
                    (d + 1) as u8,
                )),
    {
        proof {
            use_type_invariant(self);
        }
        let mut k: usize = 0;
        while k < 9
            invariant
                k <= 9,
                grp < 27,
                well_formed(self@),
                forall|d: int|
                    0 <= d < 9 ==> (#[trigger] used[d] <==> old(used)[d] || exists|a: int|
                        0 <= a < k && #[trigger] self@[group_cell(grp as int, a)] == Some(
                            (d + 1) as u8,
                        )),
            decreases 9 - k,
        {
            let idx = group_cell_index(grp, k);
            match self.cells[idx] {
                None => {},
                Some(v) => {
                    assert(cell_ok(self@[idx as int]));
                    used[(v - 1) as usize] = true;
                },
            }
            k = k + 1;
        }
    }

    /// The candidate digits of the cell at `position`, in ascending order.
    pub fn possible_values(&self, position: usize) -> (vals: Vec<u8>)
        requires
            position < 81,
        ensures
            vals@ == candidates(self@, position as int),
            forall|i: int, j: int| 0 <= i < j < vals@.len() ==> vals@[i] < vals@[j],
            forall|d: u8|
                vals@.contains(d) <==> 1 <= d <= 9 && !digit_used(self@, position as int, d),
    {
        proof {
            lemma_candidates(self@, position as int);
        }
        let mut used: [bool; 9] = [false; 9];
        let row: usize = position / 9;
        let col: usize = position % 9;
        self.mark_group(row, &mut used);
        self.mark_group(9 + col, &mut used);
        self.mark_group(18 + (row / 3) * 3 + col / 3, &mut used);
        assert(forall|d: int|
            0 <= d < 9 ==> (#[trigger] used[d] <==> digit_used(
                self@,
                position as int,
                (d + 1) as u8,
            )));
        let mut vals: Vec<u8> = Vec::new();
        let mut digit: u8 = 1;
        while digit <= 9
            invariant
                1 <= digit <= 10,
                vals@ == candidates_upto(self@, position as int, (digit - 1) as nat),
                forall|d: int|
                    0 <= d < 9 ==> (#[trigger] used[d] <==> digit_used(
                        self@,
                        position as int,
                        (d + 1) as u8,
                    )),
            decreases 10 - digit,
        {
            if !used[(digit - 1) as usize] {
                vals.push(digit);
            }
            digit = digit + 1;
        }
        vals
    }

    /// Picks the empty cell to fill next, and returns it with its candidates.
    ///
    /// The first empty cell with exactly one candidate wins at once. Without
    /// such a cell the choice is the first empty cell with the fewest
    /// candidates.
    pub fn find_empty_cell(&self) -> (res: (usize, Vec<u8>))
        requires
            !is_complete(self@),
        ensures
            res.0 < 81,
            selects(self@, res.0 as int),
            res.0 == selected_cell(self@),
            res.1@ == candidates(self@, res.0 as int),
    {
        proof {
            use_type_invariant(self);
            assert forall|p: int| selects(self@, p) implies p == selected_cell(self@) by {
                lemma_selected_cell(self@, p);
            }
        }
        let mut best_position: usize = 0;
        let mut best_possible: Vec<u8> = Vec::new();
        let mut best_num_possible: usize = 10;
        let mut idx: usize = 0;
        while idx < 81
            invariant
                idx <= 81,
                self@.len() == 81,
                best_num_possible <= 10,
                forall|q: int| 0 <= q < idx ==> !#[trigger] is_forced(self@, q),
                best_num_possible == 10 ==> forall|q: int|
                    0 <= q < idx ==> !#[trigger] is_open(self@, q),
                best_num_possible < 10 ==> {
                    &&& best_position < idx
                    &&& is_open(self@, best_position as int)
                    &&& best_possible@ == candidates(self@, best_position as int)
                    &&& best_num_possible == best_possible@.len()
                    &&& forall|q: int|
                        0 <= q < idx && #[trigger] is_open(self@, q) ==> {
                            &&& best_num_possible <= candidates(self@, q).len()
                            &&& q < best_position ==> best_num_possible < candidates(
                                self@,
                                q,
                            ).len()
                        }
                },
            decreases 81 - idx,
        {
            if self.cells[idx].is_none() {
                let possible_values = self.possible_values(idx);
                let num_possible = possible_values.len();
                proof {
                    lemma_candidates(self@, idx as int);
                }
                if num_possible == 1 {
                    assert(is_forced(self@, idx as int));
                    return (idx, possible_values);
                }
                if num_possible < best_num_possible {
                    best_position = idx;
                    best_possible = possible_values;
                    best_num_possible = num_possible;
                }
            }
            idx = idx + 1;
        }
        assert(best_num_possible < 10) by {
            if best_num_possible == 10 {
                assert forall|i: int| 0 <= i < self@.len() implies (#[trigger] self@[i]) is Some by {
                    assert(!is_open(self@, i));
                }
            }
        }
        (best_position, best_possible)
    }

    /// Depth-first search for a completion of the board, without the check
    /// for duplicates first.
    pub fn do_solve(&self) -> (res: Option<Sudoku>)
        ensures
            match res {
                Some(solved) => search(self@) == Some(solved@),
                None => search(self@) is None,
            },
        decreases empty_count(self@),
    {
        if self.is_solved() {
            return Some(self.clone());
        }
        let (position, possible_values) = self.find_empty_cell();
        proof {
            use_type_invariant(self);
            lemma_candidates(self@, position as int);
        }
        let mut k: usize = 0;
        while k < possible_values.len()
            invariant
                k <= possible_values.len(),
                position < 81,
                well_formed(self@),
                is_open(self@, position as int),
                possible_values@ == candidates(self@, position as int),
                forall|i: int|
                    0 <= i < possible_values@.len() ==> 1 <= #[trigger] possible_values@[i] <= 9,
                search(self@) == try_from(self@, position as int, k as nat),
            decreases possible_values.len() - k,
        {
            let v = possible_values[k];
            let mut cells = self.cells.clone();
            assert(cells@ =~= self@);
            cells[position] = Some(v);
            let next = Sudoku { cells };
            proof {
                lemma_empty_count_fill(self@, position as int, v);
            }
            if let Some(solved) = next.do_solve() {
                return Some(solved);
            }
            k = k + 1;
        }
        None
    }

    /// Solves the puzzle: returns the completed board, or `None` when some
    /// peer group holds a digit twice or no completion exists.
    pub fn solve(&self) -> (res: Option<Sudoku>)
        ensures
            match res {
                Some(solved) => solution(self@) == Some(solved@),
                None => solution(self@) is None,
            },
            res is Some <==> solvable(self@),
            res matches Some(solved) ==> is_solution_of(solved@, self@) && all_groups_full(
                solved@,
            ),
    {
        proof {
            use_type_invariant(self);
            lemma_solution_correct(self@);
        }
        if !self.is_valid() {
            return None;
        }
        let res = self.do_solve();
        proof {
            if res is Some {
                lemma_solution_groups_full(res->0@);
            }
        }
        res
    }
}

} // verus!
