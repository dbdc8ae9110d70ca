use sudoku_solver::checker::is_solved;
use sudoku_solver::grid::Grid;
use sudoku_solver::solver::solve;

fn easy_puzzle() -> Grid {
    [
        [5, 3, 0, 0, 7, 0, 0, 0, 0],
        [6, 0, 0, 1, 9, 5, 0, 0, 0],
        [0, 9, 8, 0, 0, 0, 0, 6, 0],
        [8, 0, 0, 0, 6, 0, 0, 0, 3],
        [4, 0, 0, 8, 0, 3, 0, 0, 1],
        [7, 0, 0, 0, 2, 0, 0, 0, 6],
        [0, 6, 0, 0, 0, 0, 2, 8, 0],
        [0, 0, 0, 4, 1, 9, 0, 0, 5],
        [0, 0, 0, 0, 8, 0, 0, 7, 9],
    ]
}

fn easy_puzzle_solution() -> Grid {
    [
        [5, 3, 4, 6, 7, 8, 9, 1, 2],
        [6, 7, 2, 1, 9, 5, 3, 4, 8],
        [1, 9, 8, 3, 4, 2, 5, 6, 7],
        [8, 5, 9, 7, 6, 1, 4, 2, 3],
        [4, 2, 6, 8, 5, 3, 7, 9, 1],
        [7, 1, 3, 9, 2, 4, 8, 5, 6],
        [9, 6, 1, 5, 3, 7, 2, 8, 4],
        [2, 8, 7, 4, 1, 9, 6, 3, 5],
        [3, 4, 5, 2, 8, 6, 1, 7, 9],
    ]
}

#[test]
fn easy_puzzle_reaches_known_solution() {
    let g = easy_puzzle();
    let result = solve(0, g, 0);
    assert!(result.is_some());
    let (out, _rounds) = result.unwrap();
    assert_eq!(out, easy_puzzle_solution());
}

#[test]
fn solved_output_passes_the_checker() {
    let g = easy_puzzle();
    let (out, _rounds) = solve(0, g, 0).unwrap();
    assert!(is_solved(out));
}

#[test]
fn prefilled_cells_are_never_altered() {
    let g = easy_puzzle();
    let (out, _rounds) = solve(0, g, 0).unwrap();
    for r in 0..9 {
        for c in 0..9 {
            if g[r][c] != 0 {
                assert_eq!(out[r][c], g[r][c]);
            }
        }
    }
}

#[test]
fn already_solved_grid_returns_at_once() {
    let g = easy_puzzle_solution();
    assert_eq!(solve(0, g, 0), Some((g, 0)));
}

#[test]
fn already_solved_grid_keeps_the_round_counter() {
    let g = easy_puzzle_solution();
    assert_eq!(solve(7, g, 0), Some((g, 7)));
}

#[test]
fn forced_row_duplicate_is_unsatisfiable() {
    // Two 3s stand in row 0 and two cells are left open elsewhere: no
    // assignment to the open cells can repair the duplicated row, so the
    // search exhausts and reports failure.
    let mut g = easy_puzzle_solution();
    g[0][0] = g[0][1];
    g[8][7] = 0;
    g[8][8] = 0;
    assert_eq!(solve(0, g, 0), None);
}

#[test]
fn full_but_invalid_grid_is_unsatisfiable() {
    let mut g = easy_puzzle_solution();
    g[0][0] = g[0][1];
    assert_eq!(solve(0, g, 0), None);
}

#[test]
fn boundary_position_on_unsolved_grid_fails_immediately() {
    let g = easy_puzzle();
    assert_eq!(solve(0, g, 81), None);
}

#[test]
fn position_past_the_grid_fails_immediately() {
    let g = easy_puzzle();
    assert_eq!(solve(0, g, 82), None);
    let s = easy_puzzle_solution();
    assert_eq!(solve(0, s, 82), None);
}

#[test]
fn boundary_position_on_solved_grid_still_reports_it() {
    let g = easy_puzzle_solution();
    assert_eq!(solve(0, g, 81), Some((g, 0)));
}

#[test]
fn solving_from_a_later_position_keeps_earlier_gaps() {
    // Starting the scan past an empty cell leaves that cell empty, so no
    // branch can ever reach a solved grid.
    let mut g = easy_puzzle_solution();
    g[0][0] = 0;
    assert_eq!(solve(0, g, 1), None);
}
