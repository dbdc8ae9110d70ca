//! A 9x9 constraint puzzle solver: a grid of cells holding 0 (empty) or a
//! digit 1..=9 is completed by backtracking search so that every row, every
//! column and every 3x3 block holds each digit exactly once.
pub mod candidates;
pub mod checker;
pub mod grid;
pub mod solver;
