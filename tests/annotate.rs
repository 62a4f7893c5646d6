use minesweeper::annotate;

fn run(board: &[&str]) -> Vec<String> {
    annotate(board)
}

fn strings(rows: &[&str]) -> Vec<String> {
    rows.iter().map(|r| r.to_string()).collect()
}

#[test]
fn empty_board() {
    assert_eq!(run(&[]), Vec::<String>::new());
}

#[test]
fn single_empty_row() {
    assert_eq!(run(&[""]), strings(&[""]));
}

#[test]
fn several_empty_rows_collapse_to_one() {
    assert_eq!(run(&["", "", ""]), strings(&[""]));
}

#[test]
fn single_mine() {
    assert_eq!(run(&["*"]), strings(&["*"]));
}

#[test]
fn single_blank() {
    assert_eq!(run(&[" "]), strings(&[" "]));
}

#[test]
fn mine_then_blank() {
    assert_eq!(run(&["* "]), strings(&["*1"]));
}

#[test]
fn blank_then_mine() {
    assert_eq!(run(&[" *"]), strings(&["1*"]));
}

#[test]
fn no_mines() {
    assert_eq!(run(&["   ", "   ", "   "]), strings(&["   ", "   ", "   "]));
}

#[test]
fn only_mines() {
    assert_eq!(run(&["***", "***", "***"]), strings(&["***", "***", "***"]));
}

#[test]
fn mine_surrounded_by_blanks() {
    assert_eq!(run(&["   ", " * ", "   "]), strings(&["111", "1*1", "111"]));
}

#[test]
fn blank_surrounded_by_mines() {
    assert_eq!(run(&["***", "* *", "***"]), strings(&["***", "*8*", "***"]));
}

#[test]
fn column_board() {
    assert_eq!(run(&[" ", "*", " ", "*", " "]), strings(&["1", "*", "2", "*", "1"]));
}

#[test]
fn corners_do_not_wrap() {
    assert_eq!(run(&["*  ", "   ", "  *"]), strings(&["*1 ", "121", " 1*"]));
}

#[test]
fn canonical_board() {
    let board = ["*  *  ", "  *   ", "    * ", "*     ", "  *  *", " *  * "];
    let expected = ["*22*1 ", "12*321", "1212*1", "*21222", "23*22*", "1*22*2"];
    assert_eq!(run(&board), strings(&expected));
}

#[test]
fn dimensions_are_kept() {
    let board = [" *  ", "    ", "*  *"];
    let out = run(&board);
    assert_eq!(out.len(), board.len());
    for (row, line) in board.iter().zip(out.iter()) {
        assert_eq!(line.chars().count(), row.chars().count());
    }
}

#[test]
fn mines_stay_in_place() {
    let board = ["* * ", " ** ", "*  *"];
    let out = run(&board);
    for (row, line) in board.iter().zip(out.iter()) {
        for (a, b) in row.chars().zip(line.chars()) {
            assert_eq!(a == '*', b == '*');
        }
    }
}

#[test]
fn repeated_calls_agree() {
    let board = [" * ", "*  ", "  *"];
    assert_eq!(run(&board), run(&board));
}
