//! Backtracking completion of a partially filled grid.
//!
//! `solve_sudoku` scans cells in row-major order, tries digits in
//! ascending order, and keeps the first completed grid it reaches, so
//! its result is the lexicographically least solution of its input.

use vstd::prelude::*;

use crate::grid::{
    cell, count_zeros, extends, full, idx, is_solution_for, sees, spec_is_safe, valid, wf, Grid,
};

verus! {

/// Lexicographic order on equal-length digit sequences.
pub open spec fn lex_le(a: Seq<i32>, b: Seq<i32>) -> bool
    decreases a.len(),
{
    if a.len() == 0 {
        true
    } else if b.len() == 0 {
        false
    } else if a.first() < b.first() {
        true
    } else if a.first() > b.first() {
        false
    } else {
        lex_le(a.drop_first(), b.drop_first())
    }
}

/// `lex_le` is reflexive.
pub proof fn lemma_lex_le_refl(a: Seq<i32>)
    ensures
        lex_le(a, a),
    decreases a.len(),
{
    if a.len() > 0 {
        lemma_lex_le_refl(a.drop_first());
    }
}

/// `lex_le` is antisymmetric on equal-length sequences.
pub proof fn lemma_lex_le_antisym(a: Seq<i32>, b: Seq<i32>)
    requires
        a.len() == b.len(),
        lex_le(a, b),
        lex_le(b, a),
    ensures
        a == b,
    decreases a.len(),
{
    if a.len() == 0 {
        assert(a =~= b);
    } else {
        lemma_lex_le_antisym(a.drop_first(), b.drop_first());
        assert(a =~= seq![a.first()] + a.drop_first());
        assert(b =~= seq![b.first()] + b.drop_first());
    }
}

/// A sequence that agrees with another up to a position where it is
/// smaller comes first in the lexicographic order.
pub proof fn lemma_lex_le_at_diff(a: Seq<i32>, b: Seq<i32>, k: int)
    requires
        a.len() == b.len(),
        0 <= k < a.len(),
        forall|i: int| 0 <= i < k ==> #[trigger] a[i] == b[i],
        a[k] < b[k],
    ensures
        lex_le(a, b),
    decreases k,
{
    if k == 0 {
        assert(a.first() < b.first());
    } else {
        assert(a.first() == b.first());
        assert(forall|i: int|
            0 <= i < k - 1 ==> #[trigger] a.drop_first()[i] == b.drop_first()[i]);
        assert(a.drop_first()[k - 1] == a[k]);
        lemma_lex_le_at_diff(a.drop_first(), b.drop_first(), k - 1);
    }
}

/// Writing a digit that `spec_is_safe` accepts into an unassigned cell
/// keeps the grid well-formed and conflict-free.
pub proof fn lemma_place_safe(g: Seq<i32>, row: int, col: int, num: i32)
    requires
        wf(g),
        valid(g),
        0 <= row < 9,
        0 <= col < 9,
        1 <= num <= 9,
        spec_is_safe(g, row, col, num),
    ensures
        wf(g.update(idx(row, col), num)),
        valid(g.update(idx(row, col), num)),
{
    let g2 = g.update(idx(row, col), num);
    assert forall|r1: int, c1: int, r2: int, c2: int|
        0 <= r1 < 9 && 0 <= c1 < 9 && 0 <= r2 < 9 && 0 <= c2 < 9 && sees(
        r1,
        c1,
        r2,
        c2,
    ) && #[trigger] cell(g2, r1, c1) != 0 implies cell(g2, r1, c1) != #[trigger] cell(
        g2,
        r2,
        c2,
    ) by {
        let i1 = idx(r1, c1);
        let i2 = idx(r2, c2);
        let p = idx(row, col);
        assert(i1 == i2 ==> r1 == r2 && c1 == c2);
        if i1 == p {
            assert(r1 == row && c1 == col);
            assert(cell(g2, r1, c1) == num);
            assert(sees(row, col, r2, c2));
            assert(cell(g2, r2, c2) == cell(g, r2, c2));
            assert(cell(g, r2, c2) != num);
        } else if i2 == p {
            assert(r2 == row && c2 == col);
            assert(cell(g2, r2, c2) == num);
            assert(sees(row, col, r1, c1));
            assert(cell(g2, r1, c1) == cell(g, r1, c1));
            assert(cell(g, r1, c1) != num);
        } else {
            assert(cell(g2, r1, c1) == cell(g, r1, c1));
            assert(cell(g2, r2, c2) == cell(g, r2, c2));
        }
    }
}

/// The digit a solution holds at an unassigned cell of `g` is a digit
/// that `spec_is_safe` accepts for that cell of `g`.
pub proof fn lemma_solution_digit_safe(g: Seq<i32>, e: Seq<i32>, row: int, col: int)
    requires
        wf(g),
        is_solution_for(e, g),
        0 <= row < 9,
        0 <= col < 9,
        cell(g, row, col) == 0,
    ensures
        1 <= cell(e, row, col) <= 9,
        spec_is_safe(g, row, col, cell(e, row, col)),
{
    let d = cell(e, row, col);
    assert(0 <= idx(row, col) < 81);
    assert(d != 0);
    assert forall|r2: int, c2: int|
        0 <= r2 < 9 && 0 <= c2 < 9 && sees(row, col, r2, c2) implies #[trigger] cell(
        g,
        r2,
        c2,
    ) != d by {
        if cell(g, r2, c2) == d {
            assert(0 <= idx(r2, c2) < 81);
            assert(cell(e, r2, c2) == d);
            assert(cell(e, row, col) == 0 || cell(e, row, col) != cell(e, r2, c2));
        }
    }
}

/// Checks whether `num` can be placed at `(row, col)` without repeating
/// in that row, that column, or the surrounding 3x3 block; the target
/// cell's own current value is ignored.
pub fn is_safe(board: &Grid, row: usize, col: usize, num: i32) -> (b: bool)
    requires
        board.wf(),
        row < 9,
        col < 9,
        1 <= num <= 9,
    ensures
        b == spec_is_safe(board@, row as int, col as int, num),
{
    let mut i: usize = 0;
    while i < 9
        invariant
            board.wf(),
            row < 9,
            col < 9,
            i <= 9,
            forall|k: int|
                0 <= k < i && k != col ==> #[trigger] cell(board@, row as int, k) != num,
            forall|k: int|
                0 <= k < i && k != row ==> #[trigger] cell(board@, k, col as int) != num,
        decreases 9 - i,
    {
        if i != col && board.get(row, i) == num {
            return false;
        }
        if i != row && board.get(i, col) == num {
            return false;
        }
        i += 1;
    }
    let start_row = row - row % 3;
    let start_col = col - col % 3;
    let mut i: usize = 0;
    while i < 3
        invariant
            board.wf(),
            row < 9,
            col < 9,
            start_row == row - row % 3,
            start_col == col - col % 3,
            i <= 3,
            forall|a: int, b: int|
                0 <= a < i && 0 <= b < 3 && (start_row + a != row || start_col + b != col)
                    ==> #[trigger] cell(board@, start_row + a, start_col + b) != num,
            forall|k: int|
                0 <= k < 9 && k != col ==> #[trigger] cell(board@, row as int, k) != num,
            forall|k: int|
                0 <= k < 9 && k != row ==> #[trigger] cell(board@, k, col as int) != num,
        decreases 3 - i,
    {
        let mut j: usize = 0;
        while j < 3
            invariant
                board.wf(),
                row < 9,
                col < 9,
                start_row == row - row % 3,
                start_col == col - col % 3,
                i < 3,
                j <= 3,
                forall|a: int, b: int|
                    0 <= a < i && 0 <= b < 3 && (start_row + a != row || start_col + b != col)
                        ==> #[trigger] cell(board@, start_row + a, start_col + b) != num,
                forall|b: int|
                    0 <= b < j && (start_row + i != row || start_col + b != col)
                        ==> #[trigger] cell(board@, start_row + i, start_col + b) != num,
            decreases 3 - j,
        {
            let r2 = start_row + i;
            let c2 = start_col + j;
            if (r2 != row || c2 != col) && board.get(r2, c2) == num {
                return false;
            }
            j += 1;
        }
        i += 1;
    }
    assert forall|r2: int, c2: int|
        0 <= r2 < 9 && 0 <= c2 < 9 && sees(row as int, col as int, r2, c2) implies #[trigger] cell(
        board@,
        r2,
        c2,
    ) != num by {
        if r2 / 3 == row as int / 3 && c2 / 3 == col as int / 3 {
            assert(start_row == 3 * (row as int / 3));
            assert(start_col == 3 * (col as int / 3));
            assert(cell(board@, start_row + (r2 - start_row), start_col + (c2 - start_col))
                != num);
        }
    }
    true
}

/// Finds the first unassigned cell in row-major order, if any.
pub fn find_unassigned_location(board: &Grid, row: &mut usize, col: &mut usize) -> (found: bool)
    requires
        board.wf(),
    ensures
        found ==> *final(row) < 9 && *final(col) < 9 && cell(
            board@,
            *final(row) as int,
            *final(col) as int,
        ) == 0 && forall|i: int|
            0 <= i < idx(*final(row) as int, *final(col) as int) ==> #[trigger] board@[i] != 0,
        !found ==> full(board@) && *final(row) == *old(row) && *final(col) == *old(col),
{
    let mut r: usize = 0;
    while r < 9
        invariant
            board.wf(),
            r <= 9,
            *row == *old(row),
            *col == *old(col),
            forall|i: int| 0 <= i < r * 9 ==> #[trigger] board@[i] != 0,
        decreases 9 - r,
    {
        let mut c: usize = 0;
        while c < 9
            invariant
                board.wf(),
                r < 9,
                c <= 9,
                *row == *old(row),
                *col == *old(col),
                forall|i: int| 0 <= i < r * 9 + c ==> #[trigger] board@[i] != 0,
            decreases 9 - c,
        {
            if board.get(r, c) == 0 {
                *row = r;
                *col = c;
                return true;
            }
            c += 1;
        }
        r += 1;
    }
    false
}

/// Completes the grid by depth-first backtracking.
///
/// On success the grid is the lexicographically least completed valid
/// grid that keeps every clue of the input; on failure no such grid
/// exists and the input is restored unchanged.
pub fn solve_sudoku(board: &mut Grid) -> (solved: bool)
    requires
        old(board).wf(),
        valid(old(board)@),
    ensures
        final(board).wf(),
        valid(final(board)@),
        solved <==> exists|e: Seq<i32>| #[trigger] is_solution_for(e, old(board)@),
        solved ==> is_solution_for(final(board)@, old(board)@) && forall|e: Seq<i32>|
            #[trigger] is_solution_for(e, old(board)@) ==> lex_le(final(board)@, e),
        !solved ==> final(board)@ == old(board)@,
    decreases count_zeros(old(board)@),
{
    let ghost g0 = old(board)@;
    let mut row: usize = 0;
    let mut col: usize = 0;
    if !find_unassigned_location(board, &mut row, &mut col) {
        proof {
            assert(extends(g0, g0));
            assert(is_solution_for(g0, g0));
            assert forall|e: Seq<i32>| #[trigger] is_solution_for(e, g0) implies lex_le(
                g0,
                e,
            ) by {
                assert(e =~= g0);
                lemma_lex_le_refl(g0);
            }
        }
        return true;
    }
    let ghost pos = idx(row as int, col as int);
    let mut num: i32 = 1;
    while num <= 9
        invariant
            board.wf(),
            g0 == old(board)@,
            board@ == g0,
            valid(g0),
            row < 9,
            col < 9,
            pos == idx(row as int, col as int),
            cell(g0, row as int, col as int) == 0,
            forall|i: int| 0 <= i < pos ==> #[trigger] g0[i] != 0,
            1 <= num <= 10,
            forall|e: Seq<i32>|
                #[trigger] is_solution_for(e, g0) ==> cell(e, row as int, col as int) >= num,
        decreases 10 - num,
    {
        if is_safe(board, row, col, num) {
            proof {
                lemma_place_safe(g0, row as int, col as int, num);
                lemma_count_update_for_solver(g0, pos, num);
            }
            board.set(row, col, num);
            let ghost g1 = board@;
            let solved = solve_sudoku(board);
            if solved {
                proof {
                    assert(extends(g0, g1));
                    lemma_extends_trans(g0, g1, board@);
                    assert(is_solution_for(board@, g0));
                    assert forall|e: Seq<i32>| #[trigger] is_solution_for(e, g0) implies lex_le(
                        board@,
                        e,
                    ) by {
                        let d = cell(e, row as int, col as int);
                        assert(d >= num);
                        if d == num {
                            assert(extends(g1, e));
                            assert(is_solution_for(e, g1));
                        } else {
                            assert(board@[pos] == g1[pos]);
                            assert(forall|i: int|
                                0 <= i < pos ==> #[trigger] board@[i] == g1[i] && g1[i] == g0[i]
                                    && e[i] == g0[i]);
                            lemma_lex_le_at_diff(board@, e, pos);
                        }
                    }
                }
                return true;
            }
            board.set(row, col, 0);
            proof {
                assert(board@ =~= g0);
                assert forall|e: Seq<i32>| #[trigger] is_solution_for(e, g0) implies cell(
                    e,
                    row as int,
                    col as int,
                ) >= num + 1 by {
                    if cell(e, row as int, col as int) == num {
                        assert(extends(g1, e));
                        assert(is_solution_for(e, g1));
                    }
                }
            }
        } else {
            proof {
                assert forall|e: Seq<i32>| #[trigger] is_solution_for(e, g0) implies cell(
                    e,
                    row as int,
                    col as int,
                ) >= num + 1 by {
                    lemma_solution_digit_safe(g0, e, row as int, col as int);
                    assert(cell(e, row as int, col as int) != num);
                }
            }
        }
        num += 1;
    }
    proof {
        assert forall|e: Seq<i32>| !is_solution_for(e, g0) by {
            if is_solution_for(e, g0) {
                assert(cell(e, row as int, col as int) >= 10);
                assert(0 <= pos < 81);
                assert(e[pos] <= 9);
            }
        }
    }
    false
}

/// `extends` composes.
proof fn lemma_extends_trans(a: Seq<i32>, b: Seq<i32>, c: Seq<i32>)
    requires
        extends(a, b),
        extends(b, c),
    ensures
        extends(a, c),
{
}

/// Assigning a digit to an unassigned cell removes one unassigned cell.
proof fn lemma_count_update_for_solver(g: Seq<i32>, i: int, num: i32)
    requires
        0 <= i < g.len(),
        g[i] == 0,
        num != 0,
    ensures
        count_zeros(g.update(i, num)) == count_zeros(g) - 1,
{
    crate::grid::lemma_count_update(g, i, num);
}

/// The completion stage is deterministic: its contract pins the result
/// down as the lexicographically least solution of the input, so two
/// runs on equal inputs return equal grids.
pub proof fn lemma_completer_deterministic(g: Seq<i32>, a: Seq<i32>, b: Seq<i32>)
    requires
        is_solution_for(a, g),
        is_solution_for(b, g),
        forall|e: Seq<i32>| #[trigger] is_solution_for(e, g) ==> lex_le(a, e),
        forall|e: Seq<i32>| #[trigger] is_solution_for(e, g) ==> lex_le(b, e),
    ensures
        a == b,
{
    lemma_lex_le_antisym(a, b);
}

} // verus!
