//! Random seeding of the three diagonal 3x3 blocks.
//!
//! The three blocks with top-left corners at (0,0), (3,3) and (6,6)
//! share no row, column or block with each other, so each can be filled
//! with an independent random permutation of 1-9 without any safety
//! check, and the seeded grid is always conflict-free.

use vstd::prelude::*;

use crate::grid::{cell, idx, lemma_idx_div_mod, sees, valid, wf, Grid};
use crate::rng::{new_rng, shuffle};

verus! {

/// The digit sequence 1..9 in ascending order.
pub open spec fn digits() -> Seq<i32> {
    seq![1, 2, 3, 4, 5, 6, 7, 8, 9]
}

/// `s` is a permutation of the digits 1-9.
pub open spec fn is_digit_perm(s: Seq<i32>) -> bool {
    s.to_multiset() == digits().to_multiset()
}

/// The nine cells of the 3x3 block with top-left corner `(br, bc)`, in
/// row-major order.
pub open spec fn block_seq(g: Seq<i32>, br: int, bc: int) -> Seq<i32> {
    Seq::new(9, |k: int| cell(g, br + k / 3, bc + k % 3))
}

/// The flat cell index `i` lies in the 3x3 block with corner `(br, bc)`.
pub open spec fn in_block(i: int, br: int, bc: int) -> bool {
    br <= i / 9 < br + 3 && bc <= i % 9 < bc + 3
}

/// A permutation of the digits has nine pairwise distinct entries, each
/// between 1 and 9.
pub proof fn lemma_digit_perm_values(s: Seq<i32>)
    requires
        is_digit_perm(s),
    ensures
        s.len() == 9,
        forall|i: int| 0 <= i < 9 ==> 1 <= #[trigger] s[i] <= 9,
        forall|i: int, j: int| 0 <= i < 9 && 0 <= j < 9 && i != j ==> s[i] != s[j],
{
    broadcast use vstd::seq_lib::group_to_multiset_ensures;

    let d = digits();
    assert(d.no_duplicates());
    d.lemma_multiset_has_no_duplicates();
    assert(s.len() == s.to_multiset().len());
    assert(d.len() == d.to_multiset().len());
    assert forall|i: int| 0 <= i < 9 implies 1 <= #[trigger] s[i] <= 9 by {
        assert(s.contains(s[i]));
        assert(s.to_multiset().count(s[i]) > 0);
        assert(d.contains(s[i]));
        let k = choose|k: int| 0 <= k < d.len() && d[k] == s[i];
        assert(1 <= d[k] <= 9);
    }
    s.lemma_multiset_has_no_duplicates_conv();
}

/// Fills the 3x3 block with top-left corner `(row, col)` with a random
/// permutation of 1-9; every cell outside that block is untouched.
pub fn fill_3x3_box(board: &mut Grid, row: usize, col: usize)
    requires
        old(board).wf(),
        row < 9,
        col < 9,
        row % 3 == 0,
        col % 3 == 0,
    ensures
        final(board).wf(),
        is_digit_perm(block_seq(final(board)@, row as int, col as int)),
        forall|i: int|
            0 <= i < 81 && !in_block(i, row as int, col as int) ==> #[trigger] final(board)@[i]
                == old(board)@[i],
{
    let ghost g0 = old(board)@;
    let mut nums: Vec<i32> = Vec::new();
    let mut d: i32 = 1;
    while d <= 9
        invariant
            1 <= d <= 10,
            nums@.len() == d - 1,
            forall|i: int| 0 <= i < d - 1 ==> #[trigger] nums@[i] == i + 1,
        decreases 10 - d,
    {
        nums.push(d);
        d += 1;
    }
    proof {
        assert(nums@ =~= digits());
    }
    let mut rng = new_rng();
    shuffle(&mut rng, &mut nums);
    proof {
        lemma_digit_perm_values(nums@);
    }
    let mut k: usize = 0;
    while k < 9
        invariant
            board.wf(),
            g0 == old(board)@,
            row < 9,
            col < 9,
            row % 3 == 0,
            col % 3 == 0,
            k <= 9,
            nums@.len() == 9,
            is_digit_perm(nums@),
            forall|i: int| 0 <= i < 9 ==> 1 <= #[trigger] nums@[i] <= 9,
            forall|t: int|
                0 <= t < k ==> #[trigger] cell(board@, row + t / 3, col + t % 3) == nums@[t],
            forall|i: int|
                0 <= i < 81 && !in_block(i, row as int, col as int) ==> #[trigger] board@[i]
                    == g0[i],
        decreases 9 - k,
    {
        let r = row + k / 3;
        let c = col + k % 3;
        let ghost prev = board@;
        board.set(r, c, nums[k]);
        proof {
            lemma_idx_div_mod(r as int, c as int);
            assert(in_block(idx(r as int, c as int), row as int, col as int));
            assert forall|t: int|
                0 <= t < k + 1 implies #[trigger] cell(board@, row + t / 3, col + t % 3)
                == nums@[t] by {
                if t < k {
                    assert(idx(row + t / 3, col + t % 3) != idx(r as int, c as int));
                    assert(cell(board@, row + t / 3, col + t % 3) == cell(
                        prev,
                        row + t / 3,
                        col + t % 3,
                    ));
                }
            }
        }
        k += 1;
    }
    proof {
        assert forall|t: int| 0 <= t < 9 implies block_seq(board@, row as int, col as int)[t]
            == nums@[t] by {
            assert(cell(board@, row + t / 3, col + t % 3) == nums@[t]);
        }
        assert(block_seq(board@, row as int, col as int) =~= nums@);
    }
}

/// Fills the three diagonal 3x3 blocks, each with an independent random
/// permutation of 1-9, and touches no other cell; on an all-unassigned
/// grid, every cell outside those blocks is therefore still unassigned.
pub fn fill_diagonal_blocks(board: &mut Grid)
    requires
        old(board).wf(),
    ensures
        final(board).wf(),
        is_digit_perm(block_seq(final(board)@, 0, 0)),
        is_digit_perm(block_seq(final(board)@, 3, 3)),
        is_digit_perm(block_seq(final(board)@, 6, 6)),
        forall|i: int|
            0 <= i < 81 && !in_block(i, 0, 0) && !in_block(i, 3, 3) && !in_block(i, 6, 6)
                ==> #[trigger] final(board)@[i] == old(board)@[i],
        (forall|i: int| 0 <= i < 81 ==> #[trigger] old(board)@[i] == 0) ==> forall|i: int|
            0 <= i < 81 && !in_block(i, 0, 0) && !in_block(i, 3, 3) && !in_block(i, 6, 6)
                ==> #[trigger] final(board)@[i] == 0,
{
    fill_3x3_box(board, 0, 0);
    let ghost ga = board@;
    fill_3x3_box(board, 3, 3);
    let ghost gb = board@;
    fill_3x3_box(board, 6, 6);
    proof {
        assert forall|t: int| 0 <= t < 9 implies #[trigger] block_seq(board@, 0, 0)[t]
            == block_seq(ga, 0, 0)[t] by {
            lemma_idx_div_mod(t / 3, t % 3);
        }
        assert(block_seq(board@, 0, 0) =~= block_seq(ga, 0, 0));
        assert forall|t: int| 0 <= t < 9 implies #[trigger] block_seq(board@, 3, 3)[t]
            == block_seq(gb, 3, 3)[t] by {
            lemma_idx_div_mod(3 + t / 3, 3 + t % 3);
        }
        assert(block_seq(board@, 3, 3) =~= block_seq(gb, 3, 3));
    }
}

/// A grid whose assigned cells all lie in the three diagonal blocks,
/// each block holding a permutation of 1-9, is conflict-free: the
/// diagonal blocks share no row, column or block with each other.
pub proof fn lemma_seeded_valid(g: Seq<i32>)
    requires
        wf(g),
        is_digit_perm(block_seq(g, 0, 0)),
        is_digit_perm(block_seq(g, 3, 3)),
        is_digit_perm(block_seq(g, 6, 6)),
        forall|i: int|
            0 <= i < 81 && !in_block(i, 0, 0) && !in_block(i, 3, 3) && !in_block(i, 6, 6)
                ==> #[trigger] g[i] == 0,
    ensures
        valid(g),
{
    lemma_digit_perm_values(block_seq(g, 0, 0));
    lemma_digit_perm_values(block_seq(g, 3, 3));
    lemma_digit_perm_values(block_seq(g, 6, 6));
    assert forall|r1: int, c1: int, r2: int, c2: int|
        0 <= r1 < 9 && 0 <= c1 < 9 && 0 <= r2 < 9 && 0 <= c2 < 9 && sees(r1, c1, r2, c2)
            && #[trigger] cell(g, r1, c1) != 0 implies cell(g, r1, c1) != #[trigger] cell(
        g,
        r2,
        c2,
    ) by {
        if cell(g, r2, c2) != 0 && cell(g, r1, c1) == cell(g, r2, c2) {
            let i1 = idx(r1, c1);
            let i2 = idx(r2, c2);
            lemma_idx_div_mod(r1, c1);
            lemma_idx_div_mod(r2, c2);
            assert(g[i1] != 0 && g[i2] != 0);
            assert(in_block(i1, 0, 0) || in_block(i1, 3, 3) || in_block(i1, 6, 6));
            assert(in_block(i2, 0, 0) || in_block(i2, 3, 3) || in_block(i2, 6, 6));
            let b1: int = if in_block(i1, 0, 0) {
                0
            } else if in_block(i1, 3, 3) {
                3
            } else {
                6
            };
            let b2: int = if in_block(i2, 0, 0) {
                0
            } else if in_block(i2, 3, 3) {
                3
            } else {
                6
            };
            assert(b1 <= r1 < b1 + 3 && b1 <= c1 < b1 + 3);
            assert(b2 <= r2 < b2 + 3 && b2 <= c2 < b2 + 3);
            assert(b1 == 3 * (r1 / 3) && b1 == 3 * (c1 / 3));
            assert(b2 == 3 * (r2 / 3) && b2 == 3 * (c2 / 3));
            assert(b1 == b2);
            let k1 = (r1 - b1) * 3 + (c1 - b1);
            let k2 = (r2 - b1) * 3 + (c2 - b1);
            assert(0 <= k1 < 9 && 0 <= k2 < 9 && k1 != k2);
            assert(b1 + k1 / 3 == r1 && b1 + k1 % 3 == c1);
            assert(b1 + k2 / 3 == r2 && b1 + k2 % 3 == c2);
            assert(block_seq(g, b1, b1)[k1] == cell(g, r1, c1));
            assert(block_seq(g, b1, b1)[k2] == cell(g, r2, c2));
            if b1 == 0 {
                assert(block_seq(g, 0, 0)[k1] != block_seq(g, 0, 0)[k2]);
            } else if b1 == 3 {
                assert(block_seq(g, 3, 3)[k1] != block_seq(g, 3, 3)[k2]);
            } else {
                assert(block_seq(g, 6, 6)[k1] != block_seq(g, 6, 6)[k2]);
            }
        }
    }
}

} // verus!
