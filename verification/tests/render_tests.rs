use sudoku::board::SudokuBoard;

const EASY_9: &str = "0 5 0 2 0 0 0 0 0;0 0 0 0 0 6 7 9 3;4 0 7 8 0 9 0 5 6;\
3 7 0 0 6 2 4 8 5;6 9 5 0 0 0 1 2 7;8 0 4 5 7 0 0 0 0;\
0 6 0 0 8 4 0 3 1;7 8 0 0 0 0 0 4 0;1 0 9 0 0 3 5 0 8";

fn board_values(b: &SudokuBoard) -> Vec<i32> {
    let mut out = Vec::new();
    for i in 0..b.cell_count() {
        out.push(b.value_at(i));
    }
    out
}

fn numbers_in_text(text: &str) -> Vec<i32> {
    let mut nums = Vec::new();
    let mut cur: Option<i32> = None;
    for ch in text.chars() {
        if ch.is_ascii_digit() {
            cur = Some(cur.unwrap_or(0) * 10 + (ch as i32 - '0' as i32));
        } else if let Some(v) = cur.take() {
            nums.push(v);
        }
    }
    if let Some(v) = cur {
        nums.push(v);
    }
    nums
}

#[test]
fn render_boxed_grid_four_by_four() {
    let b = SudokuBoard::new("1 2 3 4;3 4 1 2;2 1 4 3;4 3 2 1").expect("well-formed puzzle");
    let expected = "-----------\n\
|1 2 |3 4 |\n\
|3 4 |1 2 |\n\
-----------\n\
|2 1 |4 3 |\n\
|4 3 |2 1 |\n\
-----------\n";
    assert_eq!(b.render(), expected);
}

#[test]
fn render_blank_as_two_spaces() {
    let b = SudokuBoard::new("0 2 3 4;3 4 1 2;2 1 4 3;4 3 2 1").expect("well-formed puzzle");
    let text = b.render();
    assert_eq!(text.lines().nth(1).unwrap(), "|  2 |3 4 |");
}

#[test]
fn render_nine_by_nine_separator_width() {
    let b = SudokuBoard::new(EASY_9).expect("well-formed puzzle");
    let text = b.render();
    let first = text.lines().next().unwrap();
    assert_eq!(first.len(), 22);
    assert!(first.chars().all(|c| c == '-'));
    assert_eq!(text.lines().count(), 13);
}

#[test]
fn render_round_trips_to_values() {
    let mut b = SudokuBoard::new(EASY_9).expect("well-formed puzzle");
    assert!(b.rec_solve(0));
    let text = b.render();
    assert_eq!(numbers_in_text(&text), board_values(&b));
}
