use sudoku::board::{Cell, SudokuBoard};
use sudoku::parse::PuzzleError;

const FULL_9: &str = "1 2 3 4 5 6 7 8 9;4 5 6 7 8 9 1 2 3;7 8 9 1 2 3 4 5 6;\
2 3 4 5 6 7 8 9 1;5 6 7 8 9 1 2 3 4;8 9 1 2 3 4 5 6 7;\
3 4 5 6 7 8 9 1 2;6 7 8 9 1 2 3 4 5;9 1 2 3 4 5 6 7 8";

fn values(b: &SudokuBoard) -> Vec<i32> {
    let mut out = Vec::new();
    for i in 0..b.cell_count() {
        out.push(b.value_at(i));
    }
    out
}

#[test]
fn construct_full_board() {
    let b = SudokuBoard::new(FULL_9).expect("well-formed puzzle");
    assert_eq!(b.cell_count(), 81);
    assert_eq!(b.square_size(), 3);
    assert_eq!(b.side(), 9);
    assert_eq!(b.value_at(0), 1);
    assert_eq!(b.value_at(80), 8);
}

#[test]
fn cell_coordinates() {
    let b = SudokuBoard::new(FULL_9).expect("well-formed puzzle");
    let c = b.cell_at(0);
    assert_eq!((c.row, c.col, c.square), (0, 0, 0));
    let c = b.cell_at(8);
    assert_eq!((c.row, c.col, c.square), (0, 8, 2));
    let c = b.cell_at(40);
    assert_eq!((c.row, c.col, c.square), (4, 4, 4));
    let c = b.cell_at(80);
    assert_eq!((c.row, c.col, c.square), (8, 8, 8));
}

#[test]
fn cell_new_holds_fields() {
    let c = Cell::new(5, 1, 2, 0);
    assert_eq!(c.value, 5);
    assert_eq!(c.row, 1);
    assert_eq!(c.col, 2);
    assert_eq!(c.square, 0);
}

#[test]
fn set_value_changes_one_cell() {
    let mut b = SudokuBoard::new("0 2 3 4;3 4 1 2;2 1 4 3;4 3 2 1").expect("well-formed puzzle");
    let before = values(&b);
    b.set_value(0, 1);
    assert_eq!(b.value_at(0), 1);
    for i in 1..16 {
        assert_eq!(b.value_at(i), before[i]);
    }
}

#[test]
fn group_queries_list_nonzero_values() {
    let b = SudokuBoard::new("1 0 2 3;0 0 0 0;0 4 0 0;0 0 0 2").expect("well-formed puzzle");
    let c = b.cell_at(0);
    assert_eq!(b.get_all_values_in_row(&c), vec![1, 2, 3]);
    assert_eq!(b.get_all_values_in_col(&c), vec![1]);
    assert_eq!(b.get_all_values_in_square(&c), vec![1]);
    let c = b.cell_at(15);
    assert_eq!(b.get_all_values_in_row(&c), vec![2]);
    assert_eq!(b.get_all_values_in_col(&c), vec![3, 2]);
    assert_eq!(b.get_all_values_in_square(&c), vec![2]);
}

#[test]
fn malformed_token_rejected() {
    assert_eq!(SudokuBoard::new("1 x 0 0;0 0 0 0;0 0 0 0;0 0 0 0").err(), Some(PuzzleError::InvalidPuzzle));
}

#[test]
fn value_out_of_range_rejected() {
    assert_eq!(SudokuBoard::new("5 0 0 0;0 0 0 0;0 0 0 0;0 0 0 0").err(), Some(PuzzleError::InvalidPuzzle));
}

#[test]
fn wrong_row_length_rejected() {
    assert_eq!(SudokuBoard::new("1 0 0 0;0 0 0;0 0 0 0;0 0 0 0").err(), Some(PuzzleError::InvalidPuzzle));
}

#[test]
fn non_square_row_count_rejected() {
    assert_eq!(SudokuBoard::new("0 0;0 0").err(), Some(PuzzleError::InvalidPuzzle));
}

#[test]
fn empty_text_rejected() {
    assert_eq!(SudokuBoard::new("").err(), Some(PuzzleError::InvalidPuzzle));
}

#[test]
fn duplicate_in_row_rejected() {
    assert_eq!(SudokuBoard::new("1 1 0 0;0 0 0 0;0 0 0 0;0 0 0 0").err(), Some(PuzzleError::InconsistentPuzzle));
}

#[test]
fn duplicate_in_column_rejected() {
    assert_eq!(SudokuBoard::new("1 0 0 0;0 0 0 0;1 0 0 0;0 0 0 0").err(), Some(PuzzleError::InconsistentPuzzle));
}

#[test]
fn duplicate_in_square_rejected() {
    assert_eq!(SudokuBoard::new("1 0 0 0;0 1 0 0;0 0 0 0;0 0 0 0").err(), Some(PuzzleError::InconsistentPuzzle));
}

#[test]
fn leading_zeros_accepted() {
    let b = SudokuBoard::new("01 0 2 3;0 0 0 0;0 4 0 0;0 0 0 02").expect("well-formed puzzle");
    assert_eq!(b.value_at(0), 1);
    assert_eq!(b.value_at(15), 2);
}

#[test]
fn one_cell_board() {
    let mut b = SudokuBoard::new("0").expect("well-formed puzzle");
    assert_eq!(b.cell_count(), 1);
    assert_eq!(b.square_size(), 1);
    assert!(b.rec_solve(0));
    assert_eq!(b.value_at(0), 1);
    assert_eq!(SudokuBoard::new("2").err(), Some(PuzzleError::InvalidPuzzle));
}
