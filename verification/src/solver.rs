//! The backtracking search: scans positions 0..81 in row-major order,
//! branches on the candidate digits of each empty cell, and returns the
//! first fully valid completion it reaches, with the number of rounds taken.
use vstd::prelude::*;

use crate::candidates::get_missing_from_pos;
use crate::checker::is_solved;
use crate::grid::block_seq;
use crate::grid::cell;
use crate::grid::col_seq;
use crate::grid::has_row_duplicate;
use crate::grid::is_digit_permutation;
use crate::grid::preserves_prefilled;
use crate::grid::row_seq;
use crate::grid::spec_candidate;
use crate::grid::spec_solved;
use crate::grid::Grid;
use crate::grid::Line;
use crate::grid::MATRIX_SIZE;

verus! {

/// Positions strictly before `pos` (in the linear row-major order) hold the
/// same value in `g` as in `m`.
pub open spec fn agrees_before(m: Grid, g: Grid, pos: int) -> bool {
    forall|p: int| 0 <= p < pos ==> #[trigger] cell(g, p / 9, p % 9) == cell(m, p / 9, p % 9)
}

/// `g` is a solution reachable from `m` at scan position `pos`: it is fully
/// solved, keeps every pre-filled cell of `m`, and differs from `m` only at
/// positions `pos` and later.
pub open spec fn is_extension_from(m: Grid, g: Grid, pos: int) -> bool {
    spec_solved(g) && preserves_prefilled(m, g) && agrees_before(m, g, pos)
}

/// Some solution is reachable from `m` at scan position `pos`.
pub open spec fn solvable_from(m: Grid, pos: int) -> bool {
    exists|g: Grid| is_extension_from(m, g, pos)
}

/// No solution reachable from `m` at position `pos` puts the value `w` into
/// the cell at that position.
pub open spec fn no_extension_with(m: Grid, pos: int, w: u8) -> bool {
    forall|g: Grid| #[trigger] is_extension_from(m, g, pos) ==> cell(g, pos / 9, pos % 9) != w
}

/// A solved grid that agrees with `m` on all 81 positions makes `m` itself
/// solved: every row, column and block of `m` equals the one of `g`.
pub proof fn lemma_agrees_all_solved(m: Grid, g: Grid)
    requires
        spec_solved(g),
        agrees_before(m, g, 81),
    ensures
        spec_solved(m),
{
    assert forall|r: int, c: int| 0 <= r < 9 && 0 <= c < 9 implies #[trigger] cell(m, r, c)
        == cell(g, r, c) by {
        let p: int = r * 9 + c;
        assert(0 <= p < 81);
        assert(p / 9 == r && p % 9 == c);
        assert(cell(g, p / 9, p % 9) == cell(m, p / 9, p % 9));
    }
    assert forall|r: int| 0 <= r < 9 implies is_digit_permutation(#[trigger] row_seq(m, r)) by {
        assert forall|c: int| 0 <= c < 9 implies row_seq(m, r)[c] == row_seq(g, r)[c] by {
            assert(cell(m, r, c) == cell(g, r, c));
        }
        assert(row_seq(m, r) =~= row_seq(g, r));
    }
    assert forall|c: int| 0 <= c < 9 implies is_digit_permutation(#[trigger] col_seq(m, c)) by {
        assert forall|r: int| 0 <= r < 9 implies col_seq(m, c)[r] == col_seq(g, c)[r] by {
            assert(cell(m, r, c) == cell(g, r, c));
        }
        assert(col_seq(m, c) =~= col_seq(g, c));
    }
    assert forall|br: int, bc: int| 0 <= br < 3 && 0 <= bc < 3 implies is_digit_permutation(
        #[trigger] block_seq(m, br, bc),
    ) by {
        assert forall|k: int| 0 <= k < 9 implies block_seq(m, br, bc)[k] == block_seq(
            g,
            br,
            bc,
        )[k] by {
            assert(cell(m, br * 3 + k / 3, bc * 3 + k % 3) == cell(g, br * 3 + k / 3, bc * 3 + k
                % 3));
        }
        assert(block_seq(m, br, bc) =~= block_seq(g, br, bc));
    }
}

/// The value a reachable solution puts into the empty cell at `pos` is one
/// of that cell's candidates: it is a digit, and it is absent from the
/// cell's row, column and block, since the solution keeps every filled cell
/// and holds each digit only once per line.
pub proof fn lemma_extension_value_is_candidate(m: Grid, g: Grid, pos: int)
    requires
        0 <= pos < 81,
        cell(m, pos / 9, pos % 9) == 0,
        is_extension_from(m, g, pos),
    ensures
        spec_candidate(m, pos, cell(g, pos / 9, pos % 9)),
{
    let h: int = pos / 9;
    let c: int = pos % 9;
    let v: u8 = cell(g, h, c);
    assert(0 <= h < 9 && 0 <= c < 9);
    assert(is_digit_permutation(row_seq(g, h)));
    assert(row_seq(g, h)[c] == v);
    assert(1 <= v <= 9);
    if row_seq(m, h).contains(v) {
        let c2: int = choose|i: int| 0 <= i < row_seq(m, h).len() && row_seq(m, h)[i] == v;
        assert(cell(m, h, c2) == v);
        assert(cell(g, h, c2) == v);
        assert(c2 != c);
        assert(row_seq(g, h)[c2] == v);
        assert(false);
    }
    if col_seq(m, c).contains(v) {
        let r2: int = choose|i: int| 0 <= i < col_seq(m, c).len() && col_seq(m, c)[i] == v;
        assert(cell(m, r2, c) == v);
        assert(cell(g, r2, c) == v);
        assert(r2 != h);
        assert(is_digit_permutation(col_seq(g, c)));
        assert(col_seq(g, c)[r2] == v && col_seq(g, c)[h] == v);
        assert(false);
    }
    if block_seq(m, h / 3, c / 3).contains(v) {
        let bs = block_seq(m, h / 3, c / 3);
        let k: int = choose|i: int| 0 <= i < bs.len() && bs[i] == v;
        let r2: int = (h / 3) * 3 + k / 3;
        let c2: int = (c / 3) * 3 + k % 3;
        assert(cell(m, r2, c2) == v);
        assert(cell(g, r2, c2) == v);
        let k0: int = (h % 3) * 3 + c % 3;
        assert(k0 / 3 == h % 3 && k0 % 3 == c % 3);
        assert((h / 3) * 3 + k0 / 3 == h && (c / 3) * 3 + k0 % 3 == c);
        assert(is_digit_permutation(block_seq(g, h / 3, c / 3)));
        assert(block_seq(g, h / 3, c / 3)[k0] == cell(g, h, c));
        assert(block_seq(g, h / 3, c / 3)[k] == cell(g, r2, c2));
        assert(k != k0);
        assert(false);
    }
}

/// A grid with a duplicated non-zero value in one row fails the
/// digit-permutation test for that row, so it is never solved.
pub proof fn lemma_row_duplicate_not_solved(m: Grid)
    requires
        has_row_duplicate(m),
    ensures
        !spec_solved(m),
{
    let (r, c1, c2) = choose|r: int, c1: int, c2: int|
        #![trigger cell(m, r, c1), cell(m, r, c2)]
        0 <= r < 9 && 0 <= c1 < c2 < 9 && cell(m, r, c1) != 0 && cell(m, r, c1) == cell(m, r, c2);
    if spec_solved(m) {
        assert(is_digit_permutation(row_seq(m, r)));
        assert(row_seq(m, r)[c1] == cell(m, r, c1));
        assert(row_seq(m, r)[c2] == cell(m, r, c2));
        assert(false);
    }
}

/// A duplicated row value survives any change that keeps pre-filled cells:
/// both offending cells are non-zero, so they carry over unchanged.
pub proof fn lemma_duplicate_carries(before: Grid, after: Grid)
    requires
        has_row_duplicate(before),
        preserves_prefilled(before, after),
    ensures
        has_row_duplicate(after),
{
    let (r, c1, c2) = choose|r: int, c1: int, c2: int|
        #![trigger cell(before, r, c1), cell(before, r, c2)]
        0 <= r < 9 && 0 <= c1 < c2 < 9 && cell(before, r, c1) != 0 && cell(before, r, c1) == cell(
            before,
            r,
            c2,
        );
    assert(cell(after, r, c1) == cell(before, r, c1));
    assert(cell(after, r, c2) == cell(before, r, c2));
}

/// Depth-first backtracking search from scan position `pos`. On success the
/// result carries the completed grid and the round count at the moment the
/// solved state was detected; `None` means this branch of the search space
/// was exhausted without reaching a solved grid.
#[verifier::loop_isolation(false)]
pub fn solve(round: u32, matrix: Grid, pos: u8) -> (result: Option<(Grid, u32)>)
    requires
        pos <= 81 ==> round as int + (82 - pos as int) <= u32::MAX as int,
    ensures
        result matches Some(sol) ==> spec_solved(sol.0),
        result matches Some(sol) ==> preserves_prefilled(matrix, sol.0),
        result matches Some(sol) ==> agrees_before(matrix, sol.0, pos as int),
        pos <= 81 && spec_solved(matrix) ==> result == Some((matrix, round)),
        pos as int >= 81 && !spec_solved(matrix) ==> result is None,
        has_row_duplicate(matrix) ==> result is None,
        result is Some <==> pos <= 81 && solvable_from(matrix, pos as int),
    decreases 82 - pos as int,
{
    let total_size: usize = MATRIX_SIZE * MATRIX_SIZE;
    if pos > total_size as u8 {
        return None;
    }
    if !is_solved(matrix) {
        if pos as usize == total_size {
            // At the last scan position an unsolved grid has no cell left to
            // branch on; without this guard the row index below would leave
            // the grid.
            proof {
                if solvable_from(matrix, pos as int) {
                    let g = choose|g: Grid| is_extension_from(matrix, g, pos as int);
                    lemma_agrees_all_solved(matrix, g);
                    assert(false);
                }
            }
            return None;
        }
        let h_line_number: usize = (pos / MATRIX_SIZE as u8) as usize;
        let col: usize = (pos % MATRIX_SIZE as u8) as usize;
        assert(h_line_number == pos as int / 9 && col == pos as int % 9);
        assert(h_line_number < 9 && col < 9);
        if matrix[h_line_number][col] == 0 {
            let missed_vals = get_missing_from_pos(&matrix, pos);
            let mut j: usize = 0;
            while j < missed_vals.len()
                invariant
                    j <= missed_vals@.len(),
                    forall|i: int|
                        0 <= i < j ==> no_extension_with(
                            matrix,
                            pos as int,
                            #[trigger] missed_vals@[i],
                        ),
                decreases missed_vals.len() - j,
            {
                let mut new_row: Line = matrix[h_line_number];
                new_row[col] = missed_vals[j];
                let mut new_matrix: Grid = matrix;
                new_matrix[h_line_number] = new_row;
                proof {
                    assert forall|r: int, c: int|
                        0 <= r < 9 && 0 <= c < 9 && !(r == h_line_number && c
                            == col) implies #[trigger] cell(new_matrix, r, c) == cell(
                        matrix,
                        r,
                        c,
                    ) by {}
                    assert(cell(matrix, h_line_number as int, col as int) == 0);
                    assert(preserves_prefilled(matrix, new_matrix));
                }
                match solve(round + 1, new_matrix, pos + 1) {
                    Some(sol) => {
                        proof {
                            assert forall|r: int, c: int|
                                0 <= r < 9 && 0 <= c < 9 && #[trigger] cell(matrix, r, c)
                                    != 0 implies #[trigger] cell(sol.0, r, c) == cell(
                                matrix,
                                r,
                                c,
                            ) by {
                                assert(cell(new_matrix, r, c) == cell(matrix, r, c));
                            }
                            assert forall|p: int| 0 <= p < pos as int implies #[trigger] cell(
                                sol.0,
                                p / 9,
                                p % 9,
                            ) == cell(matrix, p / 9, p % 9) by {
                                assert(cell(sol.0, p / 9, p % 9) == cell(new_matrix, p / 9, p % 9));
                                assert(!(p / 9 == h_line_number as int && p % 9 == col as int));
                            }
                            if has_row_duplicate(matrix) {
                                lemma_duplicate_carries(matrix, new_matrix);
                                assert(false);
                            }
                            assert(is_extension_from(matrix, sol.0, pos as int));
                        }
                        return Some(sol);
                    },
                    None => {
                        proof {
                            let w: u8 = missed_vals@[j as int];
                            assert forall|g: Grid|
                                #[trigger] is_extension_from(matrix, g, pos as int) implies cell(
                                g,
                                pos as int / 9,
                                pos as int % 9,
                            ) != w by {
                                if cell(g, pos as int / 9, pos as int % 9) == w {
                                    assert forall|r: int, c: int|
                                        0 <= r < 9 && 0 <= c < 9 && #[trigger] cell(
                                            new_matrix,
                                            r,
                                            c,
                                        ) != 0 implies #[trigger] cell(g, r, c) == cell(
                                        new_matrix,
                                        r,
                                        c,
                                    ) by {
                                        if r == h_line_number as int && c == col as int {
                                            assert(cell(new_matrix, r, c) == w);
                                            assert(cell(g, r, c) == w);
                                        } else {
                                            assert(cell(new_matrix, r, c) == cell(matrix, r, c));
                                        }
                                    }
                                    assert forall|p: int|
                                        0 <= p < pos as int + 1 implies #[trigger] cell(
                                        g,
                                        p / 9,
                                        p % 9,
                                    ) == cell(new_matrix, p / 9, p % 9) by {
                                        if p == pos as int {
                                            assert(cell(new_matrix, p / 9, p % 9) == w);
                                        } else {
                                            assert(cell(g, p / 9, p % 9) == cell(
                                                matrix,
                                                p / 9,
                                                p % 9,
                                            ));
                                            assert(!(p / 9 == h_line_number as int && p % 9
                                                == col as int));
                                        }
                                    }
                                    assert(is_extension_from(new_matrix, g, pos as int + 1));
                                    assert(solvable_from(new_matrix, pos as int + 1));
                                    assert(false);
                                }
                            }
                            assert(no_extension_with(matrix, pos as int, w));
                        }
                    },
                }
                j += 1;
            }
            proof {
                if solvable_from(matrix, pos as int) {
                    let g = choose|g: Grid| is_extension_from(matrix, g, pos as int);
                    let v: u8 = cell(g, pos as int / 9, pos as int % 9);
                    lemma_extension_value_is_candidate(matrix, g, pos as int);
                    assert(missed_vals@.contains(v));
                    let i: int = choose|i: int|
                        0 <= i < missed_vals@.len() && missed_vals@[i] == v;
                    assert(no_extension_with(matrix, pos as int, missed_vals@[i]));
                    assert(cell(g, pos as int / 9, pos as int % 9) != v);
                    assert(false);
                }
            }
            None
        } else {
            match solve(round + 1, matrix, pos + 1) {
                Some(sol) => {
                    proof {
                        assert(is_extension_from(matrix, sol.0, pos as int));
                    }
                    Some(sol)
                },
                None => {
                    proof {
                        if solvable_from(matrix, pos as int) {
                            let g = choose|g: Grid| is_extension_from(matrix, g, pos as int);
                            assert forall|p: int|
                                0 <= p < pos as int + 1 implies #[trigger] cell(g, p / 9, p % 9)
                                == cell(matrix, p / 9, p % 9) by {
                                if p == pos as int {
                                    assert(cell(matrix, p / 9, p % 9) != 0);
                                }
                            }
                            assert(is_extension_from(matrix, g, pos as int + 1));
                            assert(solvable_from(matrix, pos as int + 1));
                            assert(false);
                        }
                    }
                    None
                },
            }
        }
    } else {
        proof {
            if has_row_duplicate(matrix) {
                lemma_row_duplicate_not_solved(matrix);
            }
            assert(is_extension_from(matrix, matrix, pos as int));
        }
        Some((matrix, round))
    }
}

} // verus!
