//! The 9x9 grid and the specification vocabulary shared by all stages.
//!
//! A grid is modelled as a sequence of 81 cell values in row-major
//! order; value 0 marks an unassigned cell and 1-9 an assigned digit.

use vstd::prelude::*;

verus! {

/// A 9x9 Sudoku grid stored in row-major order.
pub struct Grid {
    cells: Vec<i32>,
}

impl View for Grid {
    type V = Seq<i32>;

    closed spec fn view(&self) -> Seq<i32> {
        self.cells@
    }
}

/// Flat index of the cell at `(row, col)`.
pub open spec fn idx(row: int, col: int) -> int {
    row * 9 + col
}

/// Value of the cell at `(row, col)`.
pub open spec fn cell(g: Seq<i32>, row: int, col: int) -> i32 {
    g[idx(row, col)]
}

/// A well-formed grid: 81 cells, each holding 0 (unassigned) or a digit 1-9.
pub open spec fn wf(g: Seq<i32>) -> bool {
    &&& g.len() == 81
    &&& forall|i: int| 0 <= i < 81 ==> 0 <= #[trigger] g[i] <= 9
}

/// Every cell holds a digit (no cell is unassigned).
pub open spec fn full(g: Seq<i32>) -> bool {
    forall|i: int| 0 <= i < 81 ==> #[trigger] g[i] != 0
}

/// Number of unassigned cells of `g`.
pub open spec fn count_zeros(g: Seq<i32>) -> nat
    decreases g.len(),
{
    if g.len() == 0 {
        0
    } else {
        count_zeros(g.drop_last()) + if g.last() == 0 { 1nat } else { 0nat }
    }
}

/// Number of assigned (non-zero) cells of `g`.
pub open spec fn count_nonzero(g: Seq<i32>) -> nat
    decreases g.len(),
{
    if g.len() == 0 {
        0
    } else {
        count_nonzero(g.drop_last()) + if g.last() == 0 { 0nat } else { 1nat }
    }
}

/// The cell at `(r2, c2)` shares the row, the column, or the 3x3 block
/// of the cell at `(r1, c1)` (a cell shares all three with itself).
pub open spec fn covers(r1: int, c1: int, r2: int, c2: int) -> bool {
    r2 == r1 || c2 == c1 || (r2 / 3 == r1 / 3 && c2 / 3 == c1 / 3)
}

/// Two distinct cells that share a row, a column, or a block.
pub open spec fn sees(r1: int, c1: int, r2: int, c2: int) -> bool {
    (r1, c1) != (r2, c2) && covers(r1, c1, r2, c2)
}

/// The Sudoku constraint: no two distinct cells of one row, column or
/// block hold the same digit (unassigned cells never conflict).
pub open spec fn valid(g: Seq<i32>) -> bool {
    forall|r1: int, c1: int, r2: int, c2: int|
        0 <= r1 < 9 && 0 <= c1 < 9 && 0 <= r2 < 9 && 0 <= c2 < 9 && sees(r1, c1, r2, c2) ==> #[trigger] cell(
            g,
            r1,
            c1,
        ) == 0 || cell(g, r1, c1) != #[trigger] cell(g, r2, c2)
}

/// No row repeats an assigned digit.
pub open spec fn rows_ok(g: Seq<i32>) -> bool {
    forall|r: int, c1: int, c2: int|
        0 <= r < 9 && 0 <= c1 < 9 && 0 <= c2 < 9 && c1 != c2 ==> #[trigger] cell(g, r, c1) == 0
            || cell(g, r, c1) != #[trigger] cell(g, r, c2)
}

/// No column repeats an assigned digit.
pub open spec fn cols_ok(g: Seq<i32>) -> bool {
    forall|c: int, r1: int, r2: int|
        0 <= c < 9 && 0 <= r1 < 9 && 0 <= r2 < 9 && r1 != r2 ==> #[trigger] cell(g, r1, c) == 0
            || cell(g, r1, c) != #[trigger] cell(g, r2, c)
}

/// No 3x3 block repeats an assigned digit.
pub open spec fn blocks_ok(g: Seq<i32>) -> bool {
    forall|r1: int, c1: int, r2: int, c2: int|
        0 <= r1 < 9 && 0 <= c1 < 9 && 0 <= r2 < 9 && 0 <= c2 < 9 && r1 / 3 == r2 / 3 && c1 / 3
            == c2 / 3 && (r1, c1) != (r2, c2) ==> #[trigger] cell(g, r1, c1) == 0 || cell(g, r1, c1)
            != #[trigger] cell(g, r2, c2)
}

/// `valid` is exactly row, column, and block uniqueness of the assigned
/// digits, taken together.
pub proof fn lemma_valid_is_row_col_block_uniqueness(g: Seq<i32>)
    ensures
        valid(g) <==> rows_ok(g) && cols_ok(g) && blocks_ok(g),
{
    if rows_ok(g) && cols_ok(g) && blocks_ok(g) {
        assert forall|r1: int, c1: int, r2: int, c2: int|
            0 <= r1 < 9 && 0 <= c1 < 9 && 0 <= r2 < 9 && 0 <= c2 < 9 && sees(r1, c1, r2, c2)
                && #[trigger] cell(g, r1, c1) != 0 implies cell(g, r1, c1) != #[trigger] cell(
            g,
            r2,
            c2,
        ) by {
            if r1 == r2 {
                assert(cell(g, r1, c1) == 0 || cell(g, r1, c1) != cell(g, r1, c2));
            } else if c1 == c2 {
                assert(cell(g, r1, c1) == 0 || cell(g, r1, c1) != cell(g, r2, c1));
            }
        }
    }
}

/// Placing `num` at `(row, col)` conflicts with no other cell of the
/// same row, column, or block; the target cell's own current value is
/// ignored.
pub open spec fn spec_is_safe(g: Seq<i32>, row: int, col: int, num: i32) -> bool {
    forall|r2: int, c2: int|
        0 <= r2 < 9 && 0 <= c2 < 9 && sees(row, col, r2, c2) ==> #[trigger] cell(g, r2, c2) != num
}

/// `e` keeps every assigned cell of `g` (and may assign more).
pub open spec fn extends(g: Seq<i32>, e: Seq<i32>) -> bool {
    &&& e.len() == g.len()
    &&& forall|i: int| 0 <= i < g.len() && g[i] != 0 ==> #[trigger] e[i] == g[i]
}

/// `e` is a completed Sudoku grid that agrees with every clue of `g`.
pub open spec fn is_solution_for(e: Seq<i32>, g: Seq<i32>) -> bool {
    wf(e) && full(e) && valid(e) && extends(g, e)
}

/// Row and column can be read back from a flat cell index.
pub proof fn lemma_idx_div_mod(r: int, c: int)
    requires
        0 <= r < 9,
        0 <= c < 9,
    ensures
        idx(r, c) / 9 == r,
        idx(r, c) % 9 == c,
        0 <= idx(r, c) < 81,
{
}

/// The two counts partition the cells.
pub proof fn lemma_counts_sum(g: Seq<i32>)
    ensures
        count_zeros(g) + count_nonzero(g) == g.len(),
    decreases g.len(),
{
    if g.len() > 0 {
        lemma_counts_sum(g.drop_last());
    }
}

/// A grid has no unassigned cell exactly when `count_zeros` is 0, and
/// no assigned cell exactly when `count_nonzero` is 0.
pub proof fn lemma_count_characterizes(g: Seq<i32>)
    ensures
        count_zeros(g) == 0 <==> (forall|i: int| 0 <= i < g.len() ==> #[trigger] g[i] != 0),
        count_nonzero(g) == 0 <==> (forall|i: int| 0 <= i < g.len() ==> #[trigger] g[i] == 0),
    decreases g.len(),
{
    if g.len() > 0 {
        lemma_count_characterizes(g.drop_last());
        assert(forall|i: int| 0 <= i < g.len() - 1 ==> g.drop_last()[i] == #[trigger] g[i]);
        assert(g.last() == g[g.len() - 1]);
    }
}

/// How one cell update changes the two counts.
pub proof fn lemma_count_update(g: Seq<i32>, i: int, v: i32)
    requires
        0 <= i < g.len(),
    ensures
        count_zeros(g.update(i, v)) == count_zeros(g) - (if g[i] == 0 {
            1int
        } else {
            0int
        }) + (if v == 0 {
            1int
        } else {
            0int
        }),
        count_nonzero(g.update(i, v)) == count_nonzero(g) - (if g[i] == 0 {
            0int
        } else {
            1int
        }) + (if v == 0 {
            0int
        } else {
            1int
        }),
    decreases g.len(),
{
    let gu = g.update(i, v);
    if i == g.len() - 1 {
        assert(gu.drop_last() =~= g.drop_last());
        assert(gu.last() == v);
    } else {
        assert(gu.drop_last() =~= g.drop_last().update(i, v));
        assert(gu.last() == g.last());
        lemma_count_update(g.drop_last(), i, v);
    }
}

/// Extending a prefix by one cell adds that cell to its count.
pub proof fn lemma_count_take_step(g: Seq<i32>, i: int)
    requires
        0 <= i < g.len(),
    ensures
        count_nonzero(g.take(i + 1)) == count_nonzero(g.take(i)) + (if g[i] == 0 {
            0int
        } else {
            1int
        }),
{
    assert(g.take(i + 1).drop_last() =~= g.take(i));
    assert(g.take(i + 1).last() == g[i]);
}

/// A grid that a completed valid grid extends is itself conflict-free.
pub proof fn lemma_extends_valid(g: Seq<i32>, e: Seq<i32>)
    requires
        g.len() == 81,
        is_solution_for(e, g),
    ensures
        valid(g),
{
    assert forall|r1: int, c1: int, r2: int, c2: int|
        0 <= r1 < 9 && 0 <= c1 < 9 && 0 <= r2 < 9 && 0 <= c2 < 9 && sees(r1, c1, r2, c2) && #[trigger] cell(
        g,
        r1,
        c1,
    ) != 0 implies cell(g, r1, c1) != #[trigger] cell(g, r2, c2) by {
        if cell(g, r1, c1) == cell(g, r2, c2) {
            assert(0 <= idx(r1, c1) < 81);
            assert(0 <= idx(r2, c2) < 81);
            assert(e[idx(r1, c1)] == g[idx(r1, c1)]);
            assert(e[idx(r2, c2)] == g[idx(r2, c2)]);
            assert(cell(e, r1, c1) == 0 || cell(e, r1, c1) != cell(e, r2, c2));
        }
    }
}

impl Grid {
    /// A well-formed grid of the right size.
    pub open spec fn wf(&self) -> bool {
        wf(self@)
    }

    /// Creates an all-unassigned grid.
    pub fn new() -> (g: Grid)
        ensures
            g.wf(),
            g@.len() == 81,
            forall|i: int| 0 <= i < 81 ==> #[trigger] g@[i] == 0,
    {
        let mut cells: Vec<i32> = Vec::new();
        let mut k: usize = 0;
        while k < 81
            invariant
                k <= 81,
                cells@.len() == k,
                forall|i: int| 0 <= i < k ==> #[trigger] cells@[i] == 0,
            decreases 81 - k,
        {
            cells.push(0);
            k += 1;
        }
        Grid { cells }
    }

    /// Reads the cell at `(row, col)`.
    pub fn get(&self, row: usize, col: usize) -> (v: i32)
        requires
            self.wf(),
            row < 9,
            col < 9,
        ensures
            v == cell(self@, row as int, col as int),
    {
        self.cells[row * 9 + col]
    }

    /// Writes `v` into the cell at `(row, col)`.
    pub fn set(&mut self, row: usize, col: usize, v: i32)
        requires
            old(self).wf(),
            row < 9,
            col < 9,
            0 <= v <= 9,
        ensures
            final(self).wf(),
            final(self)@ == old(self)@.update(idx(row as int, col as int), v),
    {
        let i: usize = row * 9 + col;
        self.cells.set(i, v);
    }
}

} // verus!
