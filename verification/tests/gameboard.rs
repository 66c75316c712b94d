//! Tests for the sudoku board, solver, and generator.

use sudoku::Gameboard;

/// Reads the value at `[col, row]` through the public cell accessor.
fn value_at(board: &Gameboard, col: usize, row: usize) -> u8 {
    board.cells[row * 9 + col].value()
}

/// Checks that every row, column, and 3x3 box holds each of 1..=9 exactly
/// once.
fn is_valid_solution(board: &Gameboard) -> bool {
    for row in 0..9 {
        let mut seen = [false; 10];
        for col in 0..9 {
            let v = value_at(board, col, row) as usize;
            if v == 0 || v > 9 || seen[v] {
                return false;
            }
            seen[v] = true;
        }
    }
    for col in 0..9 {
        let mut seen = [false; 10];
        for row in 0..9 {
            let v = value_at(board, col, row) as usize;
            if v == 0 || v > 9 || seen[v] {
                return false;
            }
            seen[v] = true;
        }
    }
    for box_row in 0..3 {
        for box_col in 0..3 {
            let mut seen = [false; 10];
            for dr in 0..3 {
                for dc in 0..3 {
                    let v = value_at(board, box_col * 3 + dc, box_row * 3 + dr) as usize;
                    if v == 0 || v > 9 || seen[v] {
                        return false;
                    }
                    seen[v] = true;
                }
            }
        }
    }
    true
}

#[test]
fn new_board_is_empty_and_editable() {
    let board = Gameboard::new();
    for col in 0..9 {
        for row in 0..9 {
            assert_eq!(value_at(&board, col, row), 0);
            assert!(board.is_editable([col, row]));
            assert_eq!(board.char([col, row]), None);
        }
    }
}

#[test]
fn char_shows_each_digit() {
    let mut board = Gameboard::new();
    assert_eq!(board.char([4, 7]), None);
    for v in 1..=9u8 {
        board.set([4, 7], v);
        let expected = (b'0' + v) as char;
        assert_eq!(board.char([4, 7]), Some(expected));
    }
    board.set([4, 7], 0);
    assert_eq!(board.char([4, 7]), None);
}

#[test]
fn set_writes_editable_cells() {
    let mut board = Gameboard::new();
    board.set([3, 5], 8);
    assert_eq!(value_at(&board, 3, 5), 8);
    assert_eq!(board.char([3, 5]), Some('8'));
}

#[test]
fn set_ignores_non_editable_cells() {
    let mut board = Gameboard::new();
    board.set([2, 6], 4);
    board.set_editable([2, 6], false);
    assert!(!board.is_editable([2, 6]));
    board.set([2, 6], 9);
    assert_eq!(value_at(&board, 2, 6), 4);
    board.set([2, 6], 0);
    assert_eq!(value_at(&board, 2, 6), 4);
    board.set_editable([2, 6], true);
    board.set([2, 6], 9);
    assert_eq!(value_at(&board, 2, 6), 9);
}

#[test]
fn conflict_in_row() {
    let mut board = Gameboard::new();
    board.set([0, 0], 5);
    board.set([8, 0], 2);
    assert!(board.conflict(&[1, 0], 5));
    assert!(board.conflict(&[1, 0], 2));
    assert!(!board.conflict(&[1, 0], 7));
}

#[test]
fn conflict_in_column() {
    let mut board = Gameboard::new();
    board.set([4, 1], 6);
    assert!(board.conflict(&[4, 8], 6));
    assert!(!board.conflict(&[4, 8], 5));
    assert!(!board.conflict(&[5, 8], 6));
}

#[test]
fn conflict_in_box() {
    let mut board = Gameboard::new();
    board.set([0, 0], 5);
    assert!(board.conflict(&[1, 1], 5));
    assert!(!board.conflict(&[1, 1], 6));
    assert!(!board.conflict(&[3, 1], 5));
}

#[test]
fn conflict_ignores_own_cell() {
    let mut board = Gameboard::new();
    board.set([1, 0], 5);
    assert!(!board.conflict(&[1, 0], 5));
    assert!(board.conflict(&[2, 0], 5));
}

#[test]
fn solve_empty_board_yields_valid_grid() {
    let mut board = Gameboard::new();
    assert!(board.solve());
    assert!(is_valid_solution(&board));
}

#[test]
fn solve_preserves_givens() {
    let mut board = Gameboard::new();
    let givens = [(0usize, 0usize, 5u8), (4, 4, 1), (8, 8, 9), (3, 0, 7)];
    for &(col, row, v) in givens.iter() {
        board.set([col, row], v);
        board.set_editable([col, row], false);
    }
    assert!(board.solve());
    assert!(is_valid_solution(&board));
    for &(col, row, v) in givens.iter() {
        assert_eq!(value_at(&board, col, row), v);
        assert!(!board.is_editable([col, row]));
    }
}

#[test]
fn failed_solve_blanks_editable_cells() {
    let mut board = Gameboard::new();
    // The editable cell at [0, 0] sees 1..=8 in its row and 9 in its
    // column, so no completion exists.
    for col in 1..9 {
        board.set([col, 0], col as u8);
        board.set_editable([col, 0], false);
    }
    board.set([0, 1], 9);
    board.set_editable([0, 1], false);
    // A stale value in some editable cell must be cleared as well.
    board.set([4, 4], 7);
    assert!(!board.solve());
    for col in 0..9 {
        for row in 0..9 {
            if board.is_editable([col, row]) {
                assert_eq!(value_at(&board, col, row), 0);
            }
        }
    }
    // The givens are untouched.
    assert_eq!(value_at(&board, 0, 1), 9);
    assert_eq!(value_at(&board, 3, 0), 3);
}

#[test]
fn solve_is_deterministic() {
    let build = || {
        let mut board = Gameboard::new();
        for &(col, row, v) in [(0usize, 0usize, 3u8), (5, 2, 8), (7, 7, 1), (2, 6, 4)].iter() {
            board.set([col, row], v);
            board.set_editable([col, row], false);
        }
        board
    };
    let mut first = build();
    let mut second = build();
    assert!(first.solve());
    assert!(second.solve());
    for col in 0..9 {
        for row in 0..9 {
            assert_eq!(value_at(&first, col, row), value_at(&second, col, row));
        }
    }
}

#[test]
fn init_generates_a_solvable_puzzle() {
    let mut board = Gameboard::new();
    assert!(board.init());
    let mut givens = 0;
    for col in 0..9 {
        for row in 0..9 {
            if board.is_editable([col, row]) {
                assert_eq!(value_at(&board, col, row), 0);
            } else {
                let v = value_at(&board, col, row);
                assert!(1 <= v && v <= 9);
                givens += 1;
            }
        }
    }
    assert!(givens >= 1);
    // The generated puzzle is immediately solvable.
    assert!(board.solve());
    assert!(is_valid_solution(&board));
}

#[test]
fn cell_value_accessor_matches_board() {
    let mut board = Gameboard::new();
    board.set([6, 2], 3);
    assert_eq!(board.cells[2 * 9 + 6].value(), 3);
    assert_eq!(board.cells[0].value(), 0);
}
