//! The candidate deducer: for an empty cell, the digits that are absent from
//! its row, its column and its block, in ascending order.
use vstd::prelude::*;

use crate::grid::block_seq;
use crate::grid::col_seq;
use crate::grid::row_seq;
use crate::grid::spec_candidate;
use crate::grid::Grid;
use crate::grid::Line;
use crate::grid::ATOM_MATRIX_SIZE;
use crate::grid::MATRIX_SIZE;

verus! {

/// Is `current_val` absent from this line?
#[verifier::loop_isolation(false)]
pub fn new_in_line(line: &Line, current_val: u8) -> (r: bool)
    ensures
        r == !line@.contains(current_val),
{
    for k in 0..MATRIX_SIZE
        invariant
            forall|i: int| 0 <= i < k ==> line@[i] != current_val,
    {
        if line[k] == current_val {
            assert(line@.contains(current_val)) by {
                assert(line@[k as int] == current_val);
            }
            return false;
        }
    }
    true
}

/// The digits that may be placed at linear position `pos`: every `v` in
/// 1..=9 absent from the row `pos / 9`, the column `pos % 9` and the block
/// containing that cell, returned in ascending order with no repeats.
#[verifier::loop_isolation(false)]
pub fn get_missing_from_pos(matrix: &Grid, pos: u8) -> (missing: Vec<u8>)
    requires
        pos < 81,
    ensures
        forall|v: u8| missing@.contains(v) <==> spec_candidate(*matrix, pos as int, v),
        forall|i: int, j: int| 0 <= i < j < missing@.len() ==> missing@[i] < missing@[j],
{
    let h_line_number: usize = (pos / MATRIX_SIZE as u8) as usize;
    let v_line_number: usize = pos as usize % MATRIX_SIZE;
    let h_div_atom_size: usize = h_line_number / ATOM_MATRIX_SIZE;
    let v_div_atom_size: usize = v_line_number / ATOM_MATRIX_SIZE;
    assert(h_line_number == pos as int / 9 && v_line_number == pos as int % 9);
    assert(h_line_number < 9 && v_line_number < 9);

    // The block containing the cell, flattened in row-major order.
    let mut q_line: Line = [0; MATRIX_SIZE];
    for i in 0..ATOM_MATRIX_SIZE
        invariant
            forall|k: int|
                0 <= k < i * 3 ==> q_line@[k] == block_seq(
                    *matrix,
                    h_div_atom_size as int,
                    v_div_atom_size as int,
                )[k],
    {
        for j in 0..ATOM_MATRIX_SIZE
            invariant
                forall|k: int|
                    0 <= k < i * 3 + j ==> q_line@[k] == block_seq(
                        *matrix,
                        h_div_atom_size as int,
                        v_div_atom_size as int,
                    )[k],
        {
            let index: usize = i * ATOM_MATRIX_SIZE + j;
            q_line[index] = matrix[h_div_atom_size * ATOM_MATRIX_SIZE + i][v_div_atom_size
                * ATOM_MATRIX_SIZE + j];
            assert((i * 3 + j) / 3 == i && (i * 3 + j) % 3 == j);
        }
    }
    assert(q_line@ =~= block_seq(*matrix, h_div_atom_size as int, v_div_atom_size as int));

    // The column containing the cell.
    let mut v_line: Line = [0; MATRIX_SIZE];
    for j in 0..MATRIX_SIZE
        invariant
            forall|k: int| 0 <= k < j ==> v_line@[k] == col_seq(*matrix, v_line_number as int)[k],
    {
        v_line[j] = matrix[j][v_line_number];
    }
    assert(v_line@ =~= col_seq(*matrix, v_line_number as int));

    // The row containing the cell.
    let h_line: Line = matrix[h_line_number];
    assert(h_line@ == row_seq(*matrix, pos as int / 9));

    let mut missing: Vec<u8> = Vec::new();
    for x in 1..(MATRIX_SIZE as u8 + 1)
        invariant
            forall|i: int|
                0 <= i < missing@.len() ==> #[trigger] missing@[i] < x && spec_candidate(
                    *matrix,
                    pos as int,
                    missing@[i],
                ),
            forall|v: u8|
                1 <= v < x && spec_candidate(*matrix, pos as int, v) ==> missing@.contains(v),
            forall|i: int, j: int| 0 <= i < j < missing@.len() ==> missing@[i] < missing@[j],
    {
        let ghost old_missing = missing@;
        if new_in_line(&h_line, x) && new_in_line(&v_line, x) && new_in_line(&q_line, x) {
            missing.push(x);
            assert forall|v: u8|
                1 <= v < x + 1 && spec_candidate(*matrix, pos as int, v) implies missing@.contains(
                v,
            ) by {
                if v == x {
                    assert(missing@[old_missing.len() as int] == x);
                } else {
                    assert(old_missing.contains(v));
                    let i = choose|i: int| 0 <= i < old_missing.len() && old_missing[i] == v;
                    assert(missing@[i] == v);
                }
            }
        } else {
            assert(!spec_candidate(*matrix, pos as int, x));
        }
    }
    assert forall|v: u8| missing@.contains(v) implies spec_candidate(
        *matrix,
        pos as int,
        v,
    ) by {
        let i = choose|i: int| 0 <= i < missing@.len() && missing@[i] == v;
        assert(missing@[i] == v);
    }
    missing
}

} // verus!
