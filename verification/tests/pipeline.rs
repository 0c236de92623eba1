use sudoku::carver::remove_random_cells;
use sudoku::generate::generate;
use sudoku::grid::Grid;
use sudoku::render::render_board;
use sudoku::seeder::{fill_3x3_box, fill_diagonal_blocks};
use sudoku::solver::{find_unassigned_location, is_safe, solve_sudoku};

fn count_nonzero(board: &Grid) -> usize {
    let mut n = 0;
    for r in 0..9 {
        for c in 0..9 {
            if board.get(r, c) != 0 {
                n += 1;
            }
        }
    }
    n
}

fn assert_no_duplicates(board: &Grid) {
    for r in 0..9 {
        for c1 in 0..9 {
            let v = board.get(r, c1);
            if v == 0 {
                continue;
            }
            for c2 in 0..9 {
                if c1 != c2 {
                    assert_ne!(v, board.get(r, c2), "duplicate {} in row {}", v, r);
                }
            }
            for r2 in 0..9 {
                if r2 != r {
                    assert_ne!(v, board.get(r2, c1), "duplicate {} in column {}", v, c1);
                }
            }
            let (br, bc) = (r - r % 3, c1 - c1 % 3);
            for i in 0..3 {
                for j in 0..3 {
                    if (br + i, bc + j) != (r, c1) {
                        assert_ne!(v, board.get(br + i, bc + j), "duplicate {} in block", v);
                    }
                }
            }
        }
    }
}

fn solved_board() -> Grid {
    let mut board = Grid::new();
    fill_diagonal_blocks(&mut board);
    assert!(solve_sudoku(&mut board));
    board
}

#[test]
fn test_is_safe() {
    let mut board = Grid::new();
    board.set(0, 0, 5);

    assert!(is_safe(&board, 0, 1, 3));
    assert!(!is_safe(&board, 0, 1, 5));
}

#[test]
fn is_safe_ignores_the_target_cells_own_value() {
    let mut board = Grid::new();
    board.set(0, 0, 5);

    assert!(is_safe(&board, 0, 0, 5));
    assert!(is_safe(&board, 0, 0, 3));
    assert!(!is_safe(&board, 2, 2, 5));
}

#[test]
fn test_fill_3x3_box() {
    let mut board = Grid::new();
    fill_3x3_box(&mut board, 0, 0);

    for i in 0..3 {
        for j in 0..3 {
            assert!(board.get(i, j) > 0 && board.get(i, j) <= 9);
        }
    }
}

#[test]
fn test_find_unassigned_location() {
    let mut board = Grid::new();
    for r in 0..9 {
        for c in 0..9 {
            board.set(r, c, 1);
        }
    }
    let mut row = 0;
    let mut col = 0;
    board.set(8, 8, 0);

    assert!(find_unassigned_location(&board, &mut row, &mut col));
    assert_eq!(row, 8);
    assert_eq!(col, 8);
}

#[test]
fn completer_output_is_full_and_valid() {
    let board = solved_board();
    assert_eq!(count_nonzero(&board), 81);
    assert_no_duplicates(&board);
}

#[test]
fn completer_is_deterministic_on_equal_inputs() {
    let mut a = Grid::new();
    fill_diagonal_blocks(&mut a);
    let mut b = Grid::new();
    for r in 0..9 {
        for c in 0..9 {
            b.set(r, c, a.get(r, c));
        }
    }
    assert!(solve_sudoku(&mut a));
    assert!(solve_sudoku(&mut b));
    for r in 0..9 {
        for c in 0..9 {
            assert_eq!(a.get(r, c), b.get(r, c));
        }
    }
}

#[test]
fn completer_fails_and_restores_unsatisfiable_input() {
    let mut board = Grid::new();
    for c in 0..8 {
        board.set(0, c, (c + 1) as i32);
    }
    board.set(1, 6, 9);

    let mut copy = Grid::new();
    for r in 0..9 {
        for c in 0..9 {
            copy.set(r, c, board.get(r, c));
        }
    }
    assert!(!solve_sudoku(&mut board));
    for r in 0..9 {
        for c in 0..9 {
            assert_eq!(board.get(r, c), copy.get(r, c));
        }
    }
}

#[test]
fn seeder_fills_only_the_diagonal_blocks() {
    let mut board = Grid::new();
    fill_diagonal_blocks(&mut board);

    for b in [0usize, 3, 6] {
        let mut values: Vec<i32> = Vec::new();
        for i in 0..3 {
            for j in 0..3 {
                values.push(board.get(b + i, b + j));
            }
        }
        values.sort();
        assert_eq!(values, vec![1, 2, 3, 4, 5, 6, 7, 8, 9]);
    }
    for r in 0..9 {
        for c in 0..9 {
            let in_diagonal = r / 3 == c / 3;
            if !in_diagonal {
                assert_eq!(board.get(r, c), 0);
            }
        }
    }
}

#[test]
fn carver_keeps_exactly_the_requested_clues() {
    for level in [0usize, 1, 17, 30, 80, 81] {
        let mut board = solved_board();
        remove_random_cells(&mut board, level);
        assert_eq!(count_nonzero(&board), level);
    }
}

#[test]
fn carver_with_81_leaves_the_grid_unchanged() {
    let board = solved_board();
    let mut carved = Grid::new();
    for r in 0..9 {
        for c in 0..9 {
            carved.set(r, c, board.get(r, c));
        }
    }
    remove_random_cells(&mut carved, 81);
    for r in 0..9 {
        for c in 0..9 {
            assert_eq!(carved.get(r, c), board.get(r, c));
        }
    }
}

#[test]
fn carver_with_0_clears_the_grid() {
    let mut board = solved_board();
    remove_random_cells(&mut board, 0);
    for r in 0..9 {
        for c in 0..9 {
            assert_eq!(board.get(r, c), 0);
        }
    }
}

#[test]
fn carver_never_rewrites_a_kept_cell() {
    let board = solved_board();
    let mut carved = Grid::new();
    for r in 0..9 {
        for c in 0..9 {
            carved.set(r, c, board.get(r, c));
        }
    }
    remove_random_cells(&mut carved, 30);
    for r in 0..9 {
        for c in 0..9 {
            let v = carved.get(r, c);
            assert!(v == 0 || v == board.get(r, c));
        }
    }
}

#[test]
fn generate_30_clue_puzzle() {
    let board = generate(30).expect("generation succeeds on a seeded grid");
    assert_eq!(count_nonzero(&board), 30);
    assert_no_duplicates(&board);
}

#[test]
fn render_empty_grid() {
    let board = Grid::new();
    let line = "_ _ _ _ _ _ _ _ _ \n";
    assert_eq!(render_board(&board), line.repeat(9));
}

#[test]
fn render_shows_digits_and_placeholders() {
    let mut board = Grid::new();
    board.set(0, 0, 5);
    board.set(0, 8, 9);
    board.set(8, 0, 1);
    let rendered = render_board(&board);
    let lines: Vec<&str> = rendered.lines().collect();
    assert_eq!(lines.len(), 9);
    assert_eq!(lines[0], "5 _ _ _ _ _ _ _ 9 ");
    assert_eq!(lines[8], "1 _ _ _ _ _ _ _ _ ");
    for r in 1..8 {
        assert_eq!(lines[r], "_ _ _ _ _ _ _ _ _ ");
    }
}
