use sudoku_solver::candidates::get_missing_from_pos;
use sudoku_solver::candidates::new_in_line;
use sudoku_solver::grid::Grid;

fn easy_puzzle() -> Grid {
    [
        [5, 3, 0, 0, 7, 0, 0, 0, 0],
        [6, 0, 0, 1, 9, 5, 0, 0, 0],
        [0, 9, 8, 0, 0, 0, 0, 6, 0],
        [8, 0, 0, 0, 6, 0, 0, 0, 3],
        [4, 0, 0, 8, 0, 3, 0, 0, 1],
        [7, 0, 0, 0, 2, 0, 0, 0, 6],
        [0, 6, 0, 0, 0, 0, 2, 8, 0],
        [0, 0, 0, 4, 1, 9, 0, 0, 5],
        [0, 0, 0, 0, 8, 0, 0, 7, 9],
    ]
}

#[test]
fn new_in_line_finds_present_value() {
    let line = [5, 3, 0, 0, 7, 0, 0, 0, 0];
    assert!(!new_in_line(&line, 5));
    assert!(!new_in_line(&line, 3));
    assert!(!new_in_line(&line, 7));
    assert!(!new_in_line(&line, 0));
}

#[test]
fn new_in_line_accepts_absent_value() {
    let line = [5, 3, 0, 0, 7, 0, 0, 0, 0];
    assert!(new_in_line(&line, 1));
    assert!(new_in_line(&line, 2));
    assert!(new_in_line(&line, 4));
    assert!(new_in_line(&line, 6));
    assert!(new_in_line(&line, 8));
    assert!(new_in_line(&line, 9));
}

#[test]
fn missing_values_exclude_row_column_and_block() {
    // Position 2 is row 0, column 2. The row [5,3,0,0,7,0,0,0,0] rules out
    // 5, 3 and 7; the column holds an 8; the top-left block holds 5, 3, 6,
    // 9 and 8. What remains is exactly 1, 2 and 4, in ascending order.
    let g = easy_puzzle();
    assert_eq!(get_missing_from_pos(&g, 2), vec![1, 2, 4]);
}

#[test]
fn missing_values_on_empty_grid_are_all_digits() {
    let g: Grid = [[0; 9]; 9];
    assert_eq!(get_missing_from_pos(&g, 0), vec![1, 2, 3, 4, 5, 6, 7, 8, 9]);
    assert_eq!(get_missing_from_pos(&g, 80), vec![1, 2, 3, 4, 5, 6, 7, 8, 9]);
}

#[test]
fn missing_values_in_second_row() {
    // Position 10 is row 1, column 1: the row rules out 6, 1, 9 and 5; the
    // column rules out 3, 9 and 6; the block rules out 5, 3, 6, 9 and 8.
    // What remains is exactly 2, 4 and 7, in ascending order.
    let g = easy_puzzle();
    assert_eq!(get_missing_from_pos(&g, 10), vec![2, 4, 7]);
}
