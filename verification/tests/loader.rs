//! Tests for building boards from grid-file text.

use numple::{LoadError, Numple, Solver};

const CANONICAL: &[u8] = b"0 0 5 3 0 0 0 0 0\n\
8 0 0 0 0 0 0 2 0\n\
0 7 0 0 1 0 5 0 0\n\
4 0 0 0 0 5 3 0 0\n\
0 1 0 0 7 0 0 0 6\n\
0 0 3 2 0 0 0 8 0\n\
0 6 0 5 0 0 0 0 9\n\
0 0 4 0 0 0 0 3 0\n\
0 0 0 0 0 9 7 0 0\n";

#[test]
fn it_works() {
    let problem = Numple::new(CANONICAL).unwrap();
    let check: [[u32; 9]; 9] = [
        [0, 0, 5, 3, 0, 0, 0, 0, 0],
        [8, 0, 0, 0, 0, 0, 0, 2, 0],
        [0, 7, 0, 0, 1, 0, 5, 0, 0],
        [4, 0, 0, 0, 0, 5, 3, 0, 0],
        [0, 1, 0, 0, 7, 0, 0, 0, 6],
        [0, 0, 3, 2, 0, 0, 0, 8, 0],
        [0, 6, 0, 5, 0, 0, 0, 0, 9],
        [0, 0, 4, 0, 0, 0, 0, 3, 0],
        [0, 0, 0, 0, 0, 9, 7, 0, 0],
    ];

    assert_eq!(check, problem.numbers);
}

#[test]
fn loaded_board_solves_end_to_end() {
    let mut problem = Numple::new(CANONICAL).unwrap();
    assert!(problem.solve());
    for i in 0..9 {
        for d in 1..=9u32 {
            assert_eq!(problem.numbers[i].iter().filter(|&&v| v == d).count(), 1);
        }
    }
}

#[test]
fn failed_parse() {
    let f = Numple::new(b"1 2 x 4\n");
    assert_eq!(f.unwrap_err(), LoadError::ParseFailure);
}

#[test]
fn rejects_value_above_nine() {
    let f = Numple::new(b"12\n");
    assert_eq!(f.unwrap_err(), LoadError::ParseFailure);
}

#[test]
fn rejects_tenth_token_in_a_row() {
    let f = Numple::new(b"1 2 3 4 5 6 7 8 9 1\n");
    assert_eq!(f.unwrap_err(), LoadError::ParseFailure);
}

#[test]
fn rejects_token_on_tenth_line() {
    let f = Numple::new(b"\n\n\n\n\n\n\n\n\n5\n");
    assert_eq!(f.unwrap_err(), LoadError::ParseFailure);
}

#[test]
fn short_lines_leave_cells_empty() {
    let problem = Numple::new(b"1\n\n2 3\n").unwrap();
    assert_eq!(problem.numbers[0][0], 1);
    assert_eq!(problem.numbers[2][0], 2);
    assert_eq!(problem.numbers[2][1], 3);
    for i in 0..9 {
        for j in 0..9 {
            if !((i == 0 && j == 0) || (i == 2 && j <= 1)) {
                assert_eq!(problem.numbers[i][j], 0);
            }
        }
    }
}

#[test]
fn empty_text_gives_empty_board() {
    let problem = Numple::new(b"").unwrap();
    assert_eq!(problem.numbers, [[0u32; 9]; 9]);
}

#[test]
fn tabs_and_crlf_separate_tokens() {
    let problem = Numple::new(b"1\t2 3\r\n4\n").unwrap();
    assert_eq!(problem.numbers[0][0], 1);
    assert_eq!(problem.numbers[0][1], 2);
    assert_eq!(problem.numbers[0][2], 3);
    assert_eq!(problem.numbers[1][0], 4);
}

#[test]
fn leading_zeros_are_part_of_one_token() {
    let problem = Numple::new(b"007 8\n").unwrap();
    assert_eq!(problem.numbers[0][0], 7);
    assert_eq!(problem.numbers[0][1], 8);
}

#[test]
fn final_token_without_newline_lands() {
    let problem = Numple::new(b"0 0 4").unwrap();
    assert_eq!(problem.numbers[0][2], 4);
}
