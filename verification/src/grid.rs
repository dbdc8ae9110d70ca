//! The grid model: the board type, and the spec-level views of its rows,
//! columns and blocks that the contracts of the whole crate are stated over.
use vstd::prelude::*;

verus! {

/// Side length of one sub-block.
pub const ATOM_MATRIX_SIZE: usize = 3;

/// Side length of the whole grid.
pub const MATRIX_SIZE: usize = ATOM_MATRIX_SIZE * ATOM_MATRIX_SIZE;

/// One row, column or flattened block: nine cells.
pub type Line = [u8; MATRIX_SIZE];

/// The board: nine rows of nine cells, each cell 0 (empty) or a digit 1..=9.
pub type Grid = [[u8; MATRIX_SIZE]; MATRIX_SIZE];

/// The value of the cell in row `r`, column `c`.
pub open spec fn cell(m: Grid, r: int, c: int) -> u8 {
    m@[r]@[c]
}

/// Row `r` of the grid, as a sequence of nine cells.
pub open spec fn row_seq(m: Grid, r: int) -> Seq<u8> {
    m@[r]@
}

/// Column `c` of the grid, as a sequence of nine cells.
pub open spec fn col_seq(m: Grid, c: int) -> Seq<u8> {
    Seq::new(9, |j: int| m@[j]@[c])
}

/// The block in block-row `br`, block-column `bc` (each in 0..3), flattened
/// in row-major order within the block.
pub open spec fn block_seq(m: Grid, br: int, bc: int) -> Seq<u8> {
    Seq::new(9, |k: int| m@[br * 3 + k / 3]@[bc * 3 + k % 3])
}

/// A line of nine cells holds every digit 1..=9 exactly once: each cell is in
/// range and no two cells are equal.
pub open spec fn is_digit_permutation(s: Seq<u8>) -> bool {
    &&& forall|k: int| 0 <= k < 9 ==> 1 <= #[trigger] s[k] <= 9
    &&& forall|k1: int, k2: int| 0 <= k1 < k2 < 9 ==> s[k1] != s[k2]
}

/// Every row is a permutation of the digits.
pub open spec fn rows_solved(m: Grid) -> bool {
    forall|r: int| 0 <= r < 9 ==> is_digit_permutation(#[trigger] row_seq(m, r))
}

/// Every column is a permutation of the digits.
pub open spec fn cols_solved(m: Grid) -> bool {
    forall|c: int| 0 <= c < 9 ==> is_digit_permutation(#[trigger] col_seq(m, c))
}

/// Every block is a permutation of the digits.
pub open spec fn blocks_solved(m: Grid) -> bool {
    forall|br: int, bc: int|
        0 <= br < 3 && 0 <= bc < 3 ==> is_digit_permutation(#[trigger] block_seq(m, br, bc))
}

/// The grid is fully and correctly filled: all rows, columns and blocks are
/// permutations of 1..=9. A grid with any empty cell is never solved.
pub open spec fn spec_solved(m: Grid) -> bool {
    rows_solved(m) && cols_solved(m) && blocks_solved(m)
}

/// Digit `v` may be placed at linear position `pos`: it is absent from the
/// row, the column and the block that contain that position.
pub open spec fn spec_candidate(m: Grid, pos: int, v: u8) -> bool {
    &&& 1 <= v <= 9
    &&& !row_seq(m, pos / 9).contains(v)
    &&& !col_seq(m, pos % 9).contains(v)
    &&& !block_seq(m, (pos / 9) / 3, (pos % 9) / 3).contains(v)
}

/// Every cell that is filled in `before` holds the same value in `after`:
/// the search never rewrites a pre-filled cell.
pub open spec fn preserves_prefilled(before: Grid, after: Grid) -> bool {
    forall|r: int, c: int|
        0 <= r < 9 && 0 <= c < 9 && #[trigger] cell(before, r, c) != 0 ==> #[trigger] cell(
            after,
            r,
            c,
        ) == cell(before, r, c)
}

/// Some row holds the same non-zero value in two different cells, so no
/// completion of the grid can ever be solved.
pub open spec fn has_row_duplicate(m: Grid) -> bool {
    exists|r: int, c1: int, c2: int|
        #![trigger cell(m, r, c1), cell(m, r, c2)]
        0 <= r < 9 && 0 <= c1 < c2 < 9 && cell(m, r, c1) != 0 && cell(m, r, c1) == cell(m, r, c2)
}

} // verus!
