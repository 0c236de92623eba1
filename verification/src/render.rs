//! Text rendering of a grid.
//!
//! A grid renders as nine lines; each line holds its nine cells, every
//! cell followed by one space, with `_` standing for an unassigned cell.

use vstd::prelude::*;

use crate::grid::{cell, Grid};

verus! {

/// The glyph of one cell value: its decimal digit, or `_` when
/// unassigned.
pub open spec fn glyph(v: i32) -> char {
    if v == 1 {
        '1'
    } else if v == 2 {
        '2'
    } else if v == 3 {
        '3'
    } else if v == 4 {
        '4'
    } else if v == 5 {
        '5'
    } else if v == 6 {
        '6'
    } else if v == 7 {
        '7'
    } else if v == 8 {
        '8'
    } else if v == 9 {
        '9'
    } else {
        '_'
    }
}

/// The first `c` cells of row `r`, each rendered as its glyph and one
/// space.
pub open spec fn row_prefix_chars(g: Seq<i32>, r: int, c: int) -> Seq<char>
    decreases c,
{
    if c <= 0 {
        Seq::empty()
    } else {
        row_prefix_chars(g, r, c - 1) + seq![glyph(cell(g, r, c - 1)), ' ']
    }
}

/// The first `r` full rows, each closed by a newline.
pub open spec fn rows_chars(g: Seq<i32>, r: int) -> Seq<char>
    decreases r,
{
    if r <= 0 {
        Seq::empty()
    } else {
        rows_chars(g, r - 1) + row_prefix_chars(g, r - 1, 9) + seq!['\n']
    }
}

/// The full rendering of a grid.
pub open spec fn rendered(g: Seq<i32>) -> Seq<char> {
    rows_chars(g, 9)
}

/// Relies on String::push: it appends the one character to the end of
/// the string.
#[verifier::external_body]
fn push_char(s: &mut String, c: char)
    ensures
        final(s)@ == old(s)@.push(c),
{
    s.push(c)
}

/// Maps a cell value to its glyph.
fn glyph_of(v: i32) -> (c: char)
    ensures
        c == glyph(v),
{
    match v {
        1 => '1',
        2 => '2',
        3 => '3',
        4 => '4',
        5 => '5',
        6 => '6',
        7 => '7',
        8 => '8',
        9 => '9',
        _ => '_',
    }
}

/// Renders the grid as nine lines of nine space-separated tokens, with
/// `_` for an unassigned cell.
pub fn render_board(board: &Grid) -> (s: String)
    requires
        board.wf(),
    ensures
        s@ == rendered(board@),
{
    let mut s = String::new();
    let mut r: usize = 0;
    while r < 9
        invariant
            board.wf(),
            r <= 9,
            s@ == rows_chars(board@, r as int),
        decreases 9 - r,
    {
        let mut c: usize = 0;
        while c < 9
            invariant
                board.wf(),
                r < 9,
                c <= 9,
                s@ == rows_chars(board@, r as int) + row_prefix_chars(board@, r as int, c as int),
            decreases 9 - c,
        {
            push_char(&mut s, glyph_of(board.get(r, c)));
            push_char(&mut s, ' ');
            proof {
                assert(s@ =~= rows_chars(board@, r as int) + row_prefix_chars(
                    board@,
                    r as int,
                    c as int + 1,
                ));
            }
            c += 1;
        }
        push_char(&mut s, '\n');
        proof {
            assert(s@ =~= rows_chars(board@, r as int + 1));
        }
        r += 1;
    }
    s
}

} // verus!
