//! The validity checker: decides whether a grid is fully and correctly
//! filled, by testing every row, column and block against the
//! digit-permutation property.
use vstd::prelude::*;

use crate::grid::block_seq;
use crate::grid::blocks_solved;
use crate::grid::col_seq;
use crate::grid::cols_solved;
use crate::grid::is_digit_permutation;
use crate::grid::row_seq;
use crate::grid::rows_solved;
use crate::grid::spec_solved;
use crate::grid::Grid;
use crate::grid::Line;
use crate::grid::ATOM_MATRIX_SIZE;
use crate::grid::MATRIX_SIZE;

verus! {

/// Does this line hold every digit 1..=9 exactly once?
#[verifier::loop_isolation(false)]
pub fn is_9_sequence(line: &Line) -> (r: bool)
    ensures
        r == is_digit_permutation(line@),
{
    for k in 0..MATRIX_SIZE
        invariant
            forall|i: int| 0 <= i < k ==> 1 <= #[trigger] line@[i] <= 9,
    {
        if line[k] < 1 || line[k] > 9 {
            return false;
        }
    }
    for k1 in 0..MATRIX_SIZE
        invariant
            forall|i: int, j: int| 0 <= i < j < 9 && i < k1 ==> line@[i] != line@[j],
    {
        for k2 in (k1 + 1)..MATRIX_SIZE
            invariant
                forall|j: int| k1 < j < k2 ==> line@[k1 as int] != line@[j],
        {
            if line[k1] == line[k2] {
                return false;
            }
        }
    }
    true
}

/// Does every row pass the digit-permutation test?
#[verifier::loop_isolation(false)]
pub fn horizontally_safe(matrix: Grid) -> (r: bool)
    ensures
        r == rows_solved(matrix),
{
    for i in 0..MATRIX_SIZE
        invariant
            forall|r: int| 0 <= r < i ==> is_digit_permutation(#[trigger] row_seq(matrix, r)),
    {
        let line: Line = matrix[i];
        assert(line@ == row_seq(matrix, i as int));
        if !is_9_sequence(&line) {
            return false;
        }
    }
    true
}

/// Does every column pass the digit-permutation test?
#[verifier::loop_isolation(false)]
pub fn vertically_safe(matrix: Grid) -> (r: bool)
    ensures
        r == cols_solved(matrix),
{
    for i in 0..MATRIX_SIZE
        invariant
            forall|c: int| 0 <= c < i ==> is_digit_permutation(#[trigger] col_seq(matrix, c)),
    {
        let mut line: Line = [0; MATRIX_SIZE];
        for j in 0..MATRIX_SIZE
            invariant
                forall|k: int| 0 <= k < j ==> line@[k] == col_seq(matrix, i as int)[k],
        {
            line[j] = matrix[j][i];
        }
        assert(line@ =~= col_seq(matrix, i as int));
        if !is_9_sequence(&line) {
            return false;
        }
    }
    true
}

/// Does every block pass the digit-permutation test? Block index `i` in 0..9
/// names the block in block-row `i / 3`, block-column `i % 3`.
#[verifier::loop_isolation(false)]
pub fn squared_safe(matrix: Grid) -> (r: bool)
    ensures
        r == blocks_solved(matrix),
{
    for i in 0..MATRIX_SIZE
        invariant
            forall|n: int|
                0 <= n < i ==> is_digit_permutation(#[trigger] block_seq(matrix, n / 3, n % 3)),
    {
        let mut line: Line = [0; MATRIX_SIZE];
        for j in 0..MATRIX_SIZE
            invariant
                forall|k: int|
                    0 <= k < j ==> line@[k] == block_seq(matrix, i as int / 3, i as int % 3)[k],
        {
            line[j] = matrix[i / ATOM_MATRIX_SIZE * ATOM_MATRIX_SIZE + j / ATOM_MATRIX_SIZE][(i
                % ATOM_MATRIX_SIZE) * ATOM_MATRIX_SIZE + (j % ATOM_MATRIX_SIZE)];
        }
        assert(line@ =~= block_seq(matrix, i as int / 3, i as int % 3));
        if !is_9_sequence(&line) {
            return false;
        }
    }
    assert(blocks_solved(matrix)) by {
        assert forall|br: int, bc: int| 0 <= br < 3 && 0 <= bc < 3 implies is_digit_permutation(
            #[trigger] block_seq(matrix, br, bc),
        ) by {
            let n: int = br * 3 + bc;
            assert(0 <= n < 9);
            assert(n / 3 == br && n % 3 == bc);
            assert(is_digit_permutation(block_seq(matrix, n / 3, n % 3)));
        }
    }
    true
}

/// Is the grid fully and correctly filled? True iff every row, column and
/// block holds each digit 1..=9 exactly once; any empty cell makes it false.
pub fn is_solved(matrix: Grid) -> (r: bool)
    ensures
        r == spec_solved(matrix),
{
    horizontally_safe(matrix) && vertically_safe(matrix) && squared_safe(matrix)
}

} // verus!
