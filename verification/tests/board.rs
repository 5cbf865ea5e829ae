use solver::board::group_cell_index;
use solver::{Sudoku, SIMPLE, SIMPLE_SOLUTION};

const EMPTY: &str =
    "_________________________________________________________________________________";

fn board(text: &str) -> Sudoku {
    Sudoku::parse(text).unwrap()
}

fn with_digits(digits: &[(usize, u8)]) -> Sudoku {
    let mut cells: Vec<Option<u8>> = vec![None; 81];
    for &(position, digit) in digits {
        cells[position] = Some(digit);
    }
    Sudoku::new(cells)
}

#[test]
fn group_cells_follow_the_index_arithmetic() {
    // Rows.
    assert_eq!(group_cell_index(0, 0), 0);
    assert_eq!(group_cell_index(0, 8), 8);
    assert_eq!(group_cell_index(4, 3), 39);
    assert_eq!(group_cell_index(8, 8), 80);
    // Columns.
    assert_eq!(group_cell_index(9, 0), 0);
    assert_eq!(group_cell_index(9, 8), 72);
    assert_eq!(group_cell_index(13, 4), 40);
    assert_eq!(group_cell_index(17, 8), 80);
    // Boxes.
    assert_eq!(group_cell_index(18, 0), 0);
    assert_eq!(group_cell_index(20, 3), 15);
    assert_eq!(group_cell_index(22, 4), 40);
    assert_eq!(group_cell_index(24, 5), 65);
    assert_eq!(group_cell_index(26, 8), 80);
}

#[test]
fn the_groups_are_the_rows_columns_and_boxes() {
    let rows: [[usize; 9]; 3] = [
        [0, 1, 2, 3, 4, 5, 6, 7, 8],
        [36, 37, 38, 39, 40, 41, 42, 43, 44],
        [72, 73, 74, 75, 76, 77, 78, 79, 80],
    ];
    let columns: [[usize; 9]; 3] = [
        [0, 9, 18, 27, 36, 45, 54, 63, 72],
        [4, 13, 22, 31, 40, 49, 58, 67, 76],
        [8, 17, 26, 35, 44, 53, 62, 71, 80],
    ];
    let boxes: [[usize; 9]; 3] = [
        [0, 1, 2, 9, 10, 11, 18, 19, 20],
        [30, 31, 32, 39, 40, 41, 48, 49, 50],
        [60, 61, 62, 69, 70, 71, 78, 79, 80],
    ];
    for (which, group) in [0usize, 4, 8].into_iter().enumerate() {
        for k in 0..9 {
            assert_eq!(group_cell_index(group, k), rows[which][k]);
            assert_eq!(group_cell_index(9 + group, k), columns[which][k]);
            assert_eq!(group_cell_index(18 + group, k), boxes[which][k]);
        }
    }
}

#[test]
fn every_cell_lies_in_three_groups() {
    let mut seen = [0u8; 81];
    for group in 0..27 {
        for k in 0..9 {
            seen[group_cell_index(group, k)] += 1;
        }
    }
    assert!(seen.iter().all(|&n| n == 3));
}

#[test]
fn new_keeps_the_cells() {
    let mut cells: Vec<Option<u8>> = vec![None; 81];
    cells[0] = Some(7);
    cells[80] = Some(3);
    let b = Sudoku::new(cells);
    assert_eq!(b.get(0), Some(7));
    assert_eq!(b.get(1), None);
    assert_eq!(b.get(80), Some(3));
    assert_eq!(b.to_string(), format!("7{}3", &EMPTY[..79]));
}

#[test]
fn clone_keeps_the_cells() {
    let b = board(SIMPLE);
    assert_eq!(b.clone().to_string(), SIMPLE);
}

#[test]
fn cells_are_found_by_row_and_column_and_by_box() {
    let b = board(SIMPLE);
    assert_eq!(b.cell(0, 0), Some(2));
    assert_eq!(b.cell(0, 7), Some(4));
    assert_eq!(b.cell(0, 8), None);
    assert_eq!(b.cell(1, 0), Some(1));
    assert_eq!(b.cell(8, 8), Some(9));
    assert_eq!(b.cell(4, 4), Some(7));
    // Box 0 is "289", "1__", "__5".
    assert_eq!(b.box_cell(0, 0), Some(2));
    assert_eq!(b.box_cell(0, 3), Some(1));
    assert_eq!(b.box_cell(0, 4), None);
    assert_eq!(b.box_cell(0, 8), Some(5));
    // Box 8 is "1__", "__2", "539".
    assert_eq!(b.box_cell(8, 0), Some(1));
    assert_eq!(b.box_cell(8, 5), Some(2));
    assert_eq!(b.box_cell(8, 6), Some(5));
    // Box 4 is "___", "_7_", "___".
    assert_eq!(b.box_cell(4, 4), Some(7));
    assert_eq!(b.box_cell(4, 0), None);
}

#[test]
fn is_solved_means_no_empty_cell() {
    assert!(board(SIMPLE_SOLUTION).is_solved());
    assert!(!board(SIMPLE).is_solved());
    assert!(!board(EMPTY).is_solved());
    let almost = format!("{}_", &SIMPLE_SOLUTION[..80]);
    assert!(!board(&almost).is_solved());
    let almost = format!("_{}", &SIMPLE_SOLUTION[1..]);
    assert!(!board(&almost).is_solved());
    // A complete board counts as solved also where it breaks the rules.
    assert!(board(&"1".repeat(81)).is_solved());
}

#[test]
fn is_valid_accepts_boards_without_duplicates() {
    assert!(board(EMPTY).is_valid());
    assert!(board(SIMPLE).is_valid());
    assert!(board(SIMPLE_SOLUTION).is_valid());
    // The same digit in different rows, columns and boxes.
    assert!(with_digits(&[(0, 5), (13, 5), (26, 5), (28, 5), (41, 5)]).is_valid());
}

#[test]
fn is_valid_refuses_a_duplicate_in_a_row() {
    assert!(!with_digits(&[(0, 1), (1, 1)]).is_valid());
    assert!(!with_digits(&[(0, 1), (8, 1)]).is_valid());
    assert!(!with_digits(&[(72, 9), (80, 9)]).is_valid());
    assert!(!with_digits(&[(36, 4), (44, 4)]).is_valid());
}

#[test]
fn is_valid_refuses_a_duplicate_in_a_column() {
    assert!(!with_digits(&[(0, 1), (72, 1)]).is_valid());
    assert!(!with_digits(&[(8, 3), (35, 3)]).is_valid());
    assert!(!with_digits(&[(4, 6), (76, 6)]).is_valid());
}

#[test]
fn is_valid_refuses_a_duplicate_in_a_box() {
    // Same box, but neither the same row nor the same column.
    assert!(!with_digits(&[(0, 5), (10, 5)]).is_valid());
    assert!(!with_digits(&[(60, 2), (80, 2)]).is_valid());
    assert!(!with_digits(&[(32, 7), (48, 7)]).is_valid());
}

#[test]
fn is_valid_refuses_a_complete_board_with_one_wrong_cell() {
    let wrong = format!("{}8", &SIMPLE_SOLUTION[..80]);
    assert!(!board(&wrong).is_valid());
}

#[test]
fn group_is_valid_looks_at_one_group_only() {
    let b = with_digits(&[(0, 5), (10, 5)]);
    // Only box 0 holds the 5 twice.
    for group in 0..27 {
        assert_eq!(b.group_is_valid(group), group != 18);
    }
    let b = with_digits(&[(4, 6), (76, 6)]);
    // Only column 4 holds the 6 twice.
    for group in 0..27 {
        assert_eq!(b.group_is_valid(group), group != 13);
    }
}

#[test]
fn mark_group_adds_the_digits_of_the_group() {
    let b = board(SIMPLE);
    let mut used = [false; 9];
    // Row 0 is "289____4_".
    b.mark_group(0, &mut used);
    assert_eq!(used, [false, true, false, true, false, false, false, true, true]);
    // Column 0 is 2, 1, _, 8, _, 6, 9, _, _: what was marked stays.
    b.mark_group(9, &mut used);
    assert_eq!(used, [true, true, false, true, false, true, false, true, true]);
    // Box 4 holds only the 7.
    let mut used = [false; 9];
    b.mark_group(22, &mut used);
    assert_eq!(used, [false, false, false, false, false, false, true, false, false]);
}

#[test]
fn possible_values_are_the_unused_digits_in_ascending_order() {
    let b = board(SIMPLE);
    assert_eq!(b.possible_values(3), vec![1, 5, 6, 7]);
    assert_eq!(b.possible_values(4), vec![1, 3, 5, 6]);
    assert_eq!(b.possible_values(8), vec![3, 5]);
    assert_eq!(b.possible_values(36), vec![5]);
    assert_eq!(b.possible_values(40), vec![1, 2, 3, 4, 5, 6, 8, 9]);
    let b = board(EMPTY);
    for position in 0..81 {
        assert_eq!(b.possible_values(position), vec![1, 2, 3, 4, 5, 6, 7, 8, 9]);
    }
}

#[test]
fn possible_values_may_be_none_at_all() {
    let b = board("12345678_________9_______________________________________________________________");
    assert_eq!(b.possible_values(8), Vec::<u8>::new());
}

#[test]
fn possible_values_of_a_solution_are_empty() {
    let b = board(SIMPLE_SOLUTION);
    for position in 0..81 {
        assert!(b.possible_values(position).is_empty());
    }
}

#[test]
fn find_empty_cell_takes_the_first_cell_with_one_candidate() {
    // Cells 8 and 80 both have one candidate.
    let b = board("12345678________________________________________________________________23456789_");
    assert_eq!(b.possible_values(80), vec![1]);
    assert_eq!(b.find_empty_cell(), (8, vec![9]));
    assert_eq!(board(SIMPLE).find_empty_cell(), (36, vec![5]));
}

#[test]
fn find_empty_cell_prefers_one_candidate_to_none() {
    // Cell 0 has no candidate, cell 80 has exactly one: the scan goes on
    // past cell 0 and stops at cell 80.
    let b = board("_12345678__________________9____________________________________________23456781_");
    assert_eq!(b.possible_values(0), Vec::<u8>::new());
    assert_eq!(b.find_empty_cell(), (80, vec![9]));
}

#[test]
fn find_empty_cell_reports_a_cell_without_candidates() {
    let b = board("12345678_________9_______________________________________________________________");
    assert_eq!(b.find_empty_cell(), (8, vec![]));
}

#[test]
fn find_empty_cell_takes_the_first_of_the_cells_with_the_fewest_candidates() {
    // Cells 7 and 8 both have the candidates 8 and 9.
    let b = board("1234567__________________________________________________________________________");
    assert_eq!(b.possible_values(8), vec![8, 9]);
    assert_eq!(b.find_empty_cell(), (7, vec![8, 9]));
    // Cells 0 to 3 have four candidates, cells 78 to 80 have three.
    let b = board("____12345_______________________________________________________________123456___");
    assert_eq!(b.possible_values(0), vec![6, 7, 8, 9]);
    assert_eq!(b.find_empty_cell(), (78, vec![7, 8, 9]));
    // On an empty board every cell has nine candidates.
    assert_eq!(board(EMPTY).find_empty_cell(), (0, vec![1, 2, 3, 4, 5, 6, 7, 8, 9]));
}

#[test]
fn find_empty_cell_on_the_sample_puzzles() {
    assert_eq!(board(solver::HARD).find_empty_cell(), (77, vec![6]));
    assert_eq!(board(solver::EXTREME).find_empty_cell(), (17, vec![4, 9]));
}
