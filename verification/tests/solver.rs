//! Tests for the constraint oracle and the backtracking solver.

use numple::{Numple, Solver};

fn board(cells: [[u32; 9]; 9]) -> Numple {
    Numple { numbers: cells }
}

/// Every cell holds 1..=9 and every row, column and 3x3 block holds
/// each digit exactly once.
fn assert_solved(n: &Numple) {
    for i in 0..9 {
        for j in 0..9 {
            let v = n.numbers[i][j];
            assert!((1..=9).contains(&v), "cell ({}, {}) holds {}", i, j, v);
        }
    }
    for d in 1..=9u32 {
        for i in 0..9 {
            assert_eq!(n.numbers[i].iter().filter(|&&v| v == d).count(), 1);
        }
        for j in 0..9 {
            assert_eq!((0..9).filter(|&i| n.numbers[i][j] == d).count(), 1);
        }
        for bi in [0, 3, 6] {
            for bj in [0, 3, 6] {
                let mut count = 0;
                for y in 0..3 {
                    for x in 0..3 {
                        if n.numbers[bi + y][bj + x] == d {
                            count += 1;
                        }
                    }
                }
                assert_eq!(count, 1);
            }
        }
    }
}

const CANONICAL: [[u32; 9]; 9] = [
    [0, 0, 5, 3, 0, 0, 0, 0, 0],
    [8, 0, 0, 0, 0, 0, 0, 2, 0],
    [0, 7, 0, 0, 1, 0, 5, 0, 0],
    [4, 0, 0, 0, 0, 5, 3, 0, 0],
    [0, 1, 0, 0, 7, 0, 0, 0, 6],
    [0, 0, 3, 2, 0, 0, 0, 8, 0],
    [0, 6, 0, 5, 0, 0, 0, 0, 9],
    [0, 0, 4, 0, 0, 0, 0, 3, 0],
    [0, 0, 0, 0, 0, 9, 7, 0, 0],
];

const SOLVED: [[u32; 9]; 9] = [
    [1, 2, 3, 4, 9, 6, 7, 8, 5],
    [4, 9, 6, 7, 8, 5, 1, 2, 3],
    [7, 8, 5, 1, 2, 3, 4, 9, 6],
    [2, 3, 1, 9, 6, 4, 8, 5, 7],
    [9, 6, 4, 8, 5, 7, 2, 3, 1],
    [8, 5, 7, 2, 3, 1, 9, 6, 4],
    [3, 1, 2, 6, 4, 9, 5, 7, 8],
    [6, 4, 9, 5, 7, 8, 3, 1, 2],
    [5, 7, 8, 3, 1, 2, 6, 4, 9],
];

#[test]
fn canonical_puzzle_solves() {
    let mut n = board(CANONICAL);
    assert!(n.solve());
    assert_solved(&n);
    for i in 0..9 {
        for j in 0..9 {
            if CANONICAL[i][j] != 0 {
                assert_eq!(n.numbers[i][j], CANONICAL[i][j]);
            }
        }
    }
    assert_eq!(n.numbers[0][2], 5);
    assert_eq!(n.numbers[0][3], 3);
}

#[test]
fn already_solved_board_is_untouched() {
    let mut n = board(SOLVED);
    assert!(n.solve());
    assert_eq!(n.numbers, SOLVED);
}

#[test]
fn single_empty_cell_gets_its_digit() {
    let mut cells = SOLVED;
    cells[4][4] = 0;
    let mut n = board(cells);
    assert!(n.solve());
    assert_eq!(n.numbers[4][4], 5);
    assert_eq!(n.numbers, SOLVED);
}

#[test]
fn duplicate_givens_fail_and_leave_board_unchanged() {
    // Row 0 holds two 1s; the one empty cell (0, 8) is left without a
    // single legal candidate, so the search fails at once.
    let mut cells = SOLVED;
    cells[0][0] = 1;
    cells[0][1] = 1;
    cells[0][8] = 0;
    cells[1][8] = 5;
    let mut n = board(cells);
    assert!(!n.solve());
    assert_eq!(n.numbers, cells);
}

#[test]
fn empty_board_solves_to_least_first_row() {
    let mut n = board([[0u32; 9]; 9]);
    assert!(n.solve());
    assert_solved(&n);
    assert_eq!(n.numbers[0], [1, 2, 3, 4, 5, 6, 7, 8, 9]);
}

#[test]
fn solving_is_deterministic() {
    let mut a = board(CANONICAL);
    let mut b = board(CANONICAL);
    assert_eq!(a.solve(), b.solve());
    assert_eq!(a.numbers, b.numbers);
}

#[test]
fn oracle_sees_row_column_and_block() {
    let mut cells = [[0u32; 9]; 9];
    cells[0][7] = 4; // row 0
    cells[6][0] = 5; // column 0
    cells[1][1] = 6; // block of (0, 0)
    let n = board(cells);
    assert!(!n.check_number(0, 0, 4));
    assert!(!n.check_number(0, 0, 5));
    assert!(!n.check_number(0, 0, 6));
    assert!(n.check_number(0, 0, 7));
    // A cell sharing no unit with any given keeps every digit available.
    for d in 1..=9 {
        assert!(n.check_number(4, 4, d));
    }
}

#[test]
fn oracle_ignores_no_cell_of_the_block() {
    let mut cells = [[0u32; 9]; 9];
    cells[8][8] = 9;
    let n = board(cells);
    assert!(!n.check_number(6, 6, 9));
    assert!(n.check_number(5, 6, 9));
}
