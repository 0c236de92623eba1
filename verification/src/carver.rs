//! Carving a puzzle out of a completed grid.
//!
//! Each round clears one cell chosen uniformly at random among the
//! cells still assigned, until exactly the requested number of clues
//! remains.

use vstd::prelude::*;

use crate::grid::{
    cell, count_nonzero, full, idx, lemma_count_characterizes, lemma_count_take_step,
    lemma_count_update, lemma_counts_sum, Grid,
};
use crate::rng::{new_rng, rand_below};

verus! {

/// Returns the coordinates of the assigned cell that `t` assigned cells
/// precede in row-major order.
fn find_nth_nonzero(board: &Grid, t: usize) -> (rc: (usize, usize))
    requires
        board.wf(),
        t < count_nonzero(board@),
    ensures
        rc.0 < 9,
        rc.1 < 9,
        cell(board@, rc.0 as int, rc.1 as int) != 0,
{
    let mut i: usize = 0;
    let mut seen: usize = 0;
    while i < 81
        invariant
            board.wf(),
            i <= 81,
            t < count_nonzero(board@),
            seen == count_nonzero(board@.take(i as int)),
            seen <= t,
        decreases 81 - i,
    {
        let row = i / 9;
        let col = i % 9;
        let v = board.get(row, col);
        proof {
            assert(idx(row as int, col as int) == i);
            lemma_count_take_step(board@, i as int);
        }
        if v != 0 {
            if seen == t {
                return (row, col);
            }
            seen += 1;
        }
        i += 1;
    }
    proof {
        assert(board@.take(81) =~= board@);
        assert(false);
    }
    (0, 0)
}

/// Clears randomly chosen cells of a fully assigned grid until exactly
/// `level` assigned cells remain: it never changes a cell to another
/// digit, clearing all 81 cells when `level` is 0 and none when it
/// is 81.
pub fn remove_random_cells(board: &mut Grid, level: usize)
    requires
        old(board).wf(),
        full(old(board)@),
        level <= 81,
    ensures
        final(board).wf(),
        count_nonzero(final(board)@) == level,
        forall|i: int|
            0 <= i < 81 && #[trigger] final(board)@[i] != 0 ==> final(board)@[i] == old(
                board,
            )@[i],
        level == 81 ==> final(board)@ == old(board)@,
        level == 0 ==> forall|i: int| 0 <= i < 81 ==> #[trigger] final(board)@[i] == 0,
{
    let ghost g0 = old(board)@;
    proof {
        lemma_count_characterizes(g0);
        lemma_counts_sum(g0);
    }
    let mut rng = new_rng();
    let mut remaining: usize = 81;
    while remaining > level
        invariant
            board.wf(),
            g0 == old(board)@,
            level <= remaining <= 81,
            count_nonzero(board@) == remaining,
            forall|i: int| 0 <= i < 81 && #[trigger] board@[i] != 0 ==> board@[i] == g0[i],
            remaining == 81 ==> board@ == g0,
        decreases remaining,
    {
        let t = rand_below(&mut rng, remaining);
        let (row, col) = find_nth_nonzero(board, t);
        proof {
            lemma_count_update(board@, idx(row as int, col as int), 0);
        }
        board.set(row, col, 0);
        remaining -= 1;
    }
    proof {
        if level == 0 {
            lemma_count_characterizes(board@);
        }
    }
}

} // verus!
