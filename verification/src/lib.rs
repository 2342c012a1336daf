//! A 9x9 Sudoku library: grid model, rule checking, a backtracking solver
//! with deterministic, randomized and uniqueness-proving policies, and a
//! puzzle generator that removes clues while a unique solution remains.

pub mod check;
pub mod generator;
pub mod grid;
pub mod solver;
