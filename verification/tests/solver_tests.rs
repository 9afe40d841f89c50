use sudoku::board::SudokuBoard;

const FULL_9: &str = "1 2 3 4 5 6 7 8 9;4 5 6 7 8 9 1 2 3;7 8 9 1 2 3 4 5 6;\
2 3 4 5 6 7 8 9 1;5 6 7 8 9 1 2 3 4;8 9 1 2 3 4 5 6 7;\
3 4 5 6 7 8 9 1 2;6 7 8 9 1 2 3 4 5;9 1 2 3 4 5 6 7 8";

const EASY_9: &str = "0 5 0 2 0 0 0 0 0;0 0 0 0 0 6 7 9 3;4 0 7 8 0 9 0 5 6;\
3 7 0 0 6 2 4 8 5;6 9 5 0 0 0 1 2 7;8 0 4 5 7 0 0 0 0;\
0 6 0 0 8 4 0 3 1;7 8 0 0 0 0 0 4 0;1 0 9 0 0 3 5 0 8";

fn values(b: &SudokuBoard) -> Vec<i32> {
    let mut out = Vec::new();
    for i in 0..b.cell_count() {
        out.push(b.value_at(i));
    }
    out
}

fn parse_values(text: &str) -> Vec<i32> {
    text.split(';')
        .flat_map(|row| row.split(' '))
        .map(|tok| tok.parse::<i32>().unwrap())
        .collect()
}

fn assert_valid_solution(b: &SudokuBoard) {
    let n = b.side() as usize;
    let vals = values(b);
    assert_eq!(vals.len(), n * n);
    for i in 0..vals.len() {
        assert!(vals[i] >= 1 && vals[i] <= n as i32);
        let ci = b.cell_at(i);
        for j in 0..vals.len() {
            if i != j {
                let cj = b.cell_at(j);
                if ci.row == cj.row || ci.col == cj.col || ci.square == cj.square {
                    assert_ne!(vals[i], vals[j]);
                }
            }
        }
    }
}

fn assert_prefills_kept(input: &str, b: &SudokuBoard) {
    let given = parse_values(input);
    let vals = values(b);
    assert_eq!(given.len(), vals.len());
    for i in 0..given.len() {
        if given[i] != 0 {
            assert_eq!(vals[i], given[i]);
        }
    }
}

#[test]
fn full_consistent_board_solves_unchanged() {
    let mut b = SudokuBoard::new(FULL_9).expect("well-formed puzzle");
    let before = values(&b);
    assert!(b.rec_solve(0));
    assert_eq!(values(&b), before);
    assert_valid_solution(&b);
}

#[test]
fn single_blank_gets_its_unique_value() {
    let one_blank = FULL_9.replacen("1 2 3", "0 2 3", 1);
    let mut b = SudokuBoard::new(&one_blank).expect("well-formed puzzle");
    assert_eq!(b.value_at(0), 0);
    assert!(b.rec_solve(0));
    assert_eq!(b.value_at(0), 1);
    assert_valid_solution(&b);
}

#[test]
fn easy_board_solves() {
    let mut b = SudokuBoard::new(EASY_9).expect("well-formed puzzle");
    assert!(b.rec_solve(0));
    assert_valid_solution(&b);
    assert_prefills_kept(EASY_9, &b);
}

#[test]
fn four_by_four_solves() {
    let input = "0 2 3 4;3 0 1 2;2 1 0 3;4 3 2 0";
    let mut b = SudokuBoard::new(input).expect("well-formed puzzle");
    assert_eq!(b.square_size(), 2);
    assert!(b.rec_solve(0));
    assert_valid_solution(&b);
    assert_prefills_kept(input, &b);
    assert_eq!(
        values(&b),
        vec![1, 2, 3, 4, 3, 4, 1, 2, 2, 1, 4, 3, 4, 3, 2, 1]
    );
}

#[test]
fn unsolvable_board_reports_failure_and_restores() {
    let input = "0 1 2 3 4 5 6 7 8;9 0 0 0 0 0 0 0 0;0 0 0 0 0 0 0 0 0;\
0 0 0 0 0 0 0 0 0;0 0 0 0 0 0 0 0 0;0 0 0 0 0 0 0 0 0;\
0 0 0 0 0 0 0 0 0;0 0 0 0 0 0 0 0 0;0 0 0 0 0 0 0 0 0";
    let mut b = SudokuBoard::new(input).expect("well-formed puzzle");
    assert!(!b.rec_solve(0));
    assert_eq!(values(&b), parse_values(input));
}

#[test]
fn solving_twice_gives_identical_results() {
    let mut a = SudokuBoard::new(EASY_9).expect("well-formed puzzle");
    let mut b = SudokuBoard::new(EASY_9).expect("well-formed puzzle");
    assert_eq!(a.rec_solve(0), b.rec_solve(0));
    assert_eq!(values(&a), values(&b));
}

#[test]
fn empty_four_by_four_fills_in_ascending_first_order() {
    let mut b = SudokuBoard::new("0 0 0 0;0 0 0 0;0 0 0 0;0 0 0 0").expect("well-formed puzzle");
    assert!(b.rec_solve(0));
    assert_eq!(
        values(&b),
        vec![1, 2, 3, 4, 3, 4, 1, 2, 2, 1, 4, 3, 4, 3, 2, 1]
    );
}

#[test]
fn empty_nine_by_nine_solves() {
    let empty = ["0 0 0 0 0 0 0 0 0"; 9].join(";");
    let mut b = SudokuBoard::new(&empty).expect("well-formed puzzle");
    assert!(b.rec_solve(0));
    assert_valid_solution(&b);
    let row0: Vec<i32> = values(&b)[0..9].to_vec();
    assert_eq!(row0, vec![1, 2, 3, 4, 5, 6, 7, 8, 9]);
}

#[test]
fn candidates_are_ascending_legal_values() {
    let mut b =
        SudokuBoard::new("0 2 3 4;3 0 1 2;2 1 0 3;4 3 2 0").expect("well-formed puzzle");
    assert_eq!(b.calculate_cell_options(0), vec![1]);
    let mut open = SudokuBoard::new("0 0 0 0;0 0 0 0;0 0 0 0;0 0 0 0")
        .expect("well-formed puzzle");
    assert_eq!(open.calculate_cell_options(0), vec![1, 2, 3, 4]);
    let mut partial =
        SudokuBoard::new("0 0 4 0;0 2 0 0;0 0 0 0;0 0 0 0").expect("well-formed puzzle");
    assert_eq!(partial.calculate_cell_options(0), vec![1, 3]);
}
