//! The full generation pipeline: seed, complete, carve.

use vstd::prelude::*;

use crate::carver::remove_random_cells;
use crate::grid::{
    count_nonzero, is_solution_for, lemma_count_characterizes, lemma_counts_sum, valid, Grid,
};
use crate::seeder::{fill_diagonal_blocks, lemma_seeded_valid};
use crate::solver::solve_sudoku;

verus! {

/// Generates a puzzle with exactly `level` clues: a grid whose assigned
/// cells agree with some completed valid Sudoku grid. `None` is
/// returned in the one case the completion search fails, which a seeded
/// grid never produces in practice.
pub fn generate(level: usize) -> (r: Option<Grid>)
    requires
        level <= 81,
    ensures
        r matches Some(g) ==> g.wf() && count_nonzero(g@) == level && valid(g@) && exists|
            e: Seq<i32>,
        | #[trigger] is_solution_for(e, g@),
{
    let mut board = Grid::new();
    fill_diagonal_blocks(&mut board);
    proof {
        lemma_seeded_valid(board@);
    }
    let solved = solve_sudoku(&mut board);
    if !solved {
        return None;
    }
    proof {
        lemma_count_characterizes(board@);
        lemma_counts_sum(board@);
    }
    let ghost sol = board@;
    remove_random_cells(&mut board, level);
    proof {
        assert(crate::grid::extends(board@, sol));
        assert(is_solution_for(sol, board@));
        crate::grid::lemma_extends_valid(board@, sol);
    }
    Some(board)
}

} // verus!
