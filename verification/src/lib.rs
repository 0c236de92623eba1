//! Generator for randomized 9x9 Sudoku puzzles.
//!
//! The pipeline seeds the three diagonal 3x3 blocks of an empty grid
//! with random permutations of 1-9, completes the grid by backtracking
//! search, and then carves cells out until a requested number of clues
//! remains.

pub mod carver;
pub mod generate;
pub mod grid;
pub mod render;
mod rng;
pub mod seeder;
pub mod solver;
