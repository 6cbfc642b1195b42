//! A 9x9 Sudoku toolkit: a legality checker, a sparse random seed generator
//! and a backtracking solver, with their behaviour proved.

pub mod board;
pub mod solver;
pub mod generator;
pub mod laws;
pub mod render;
