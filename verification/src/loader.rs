//! Turning whitespace-separated text into a board.
//!
//! The input is the byte contents of a grid file: up to nine lines,
//! each holding up to nine integers 0..=9 separated by spaces or tabs;
//! 0 denotes an empty cell, and cells that no token reaches stay 0.
//! Parsing is specified as the fold of a small step function over the
//! bytes, and the executable loader is proved to return exactly the
//! board (or the failure) that this fold yields.

use vstd::prelude::*;
use crate::grid::Numple;
use crate::rules::{empty_grid, lemma_set_cell_wf, set_cell, wf};

verus! {

/// Why a board could not be constructed from its input.
#[derive(Clone, Copy, Debug, PartialEq, Eq, Structural)]
pub enum LoadError {
    /// The input could not be read at all.
    IoFailure,
    /// A token is not a digit 0..=9, or there is no cell left for it.
    ParseFailure,
}

/// A space, tab or carriage return: separates tokens within a line.
pub open spec fn is_separator(b: u8) -> bool {
    b == 32 || b == 9 || b == 13
}

/// An ASCII decimal digit.
pub open spec fn is_digit(b: u8) -> bool {
    48 <= b <= 57
}

/// The parser's state between bytes: the board filled so far, the cell
/// (i, j) the next token will land in, and the value of the open
/// token's digits, if a token is open.
pub struct ParseState {
    pub grid: Seq<Seq<u32>>,
    pub i: int,
    pub j: int,
    pub acc: Option<u32>,
}

/// A parser state from its four parts.
pub open spec fn parser_state(grid: Seq<Seq<u32>>, i: int, j: int, acc: Option<u32>) -> ParseState {
    ParseState { grid, i, j, acc }
}

/// Before any byte: an empty board, filling from cell (0, 0).
pub open spec fn start_state() -> ParseState {
    parser_state(empty_grid(), 0, 0, None)
}

/// Close the open token, if any: its value lands in the next cell of
/// the current row. Fails when no cell is left for it.
pub open spec fn close_token(st: ParseState) -> Option<ParseState> {
    match st.acc {
        None => Some(st),
        Some(v) => if 0 <= st.i < 9 && 0 <= st.j < 9 {
            Some(parser_state(set_cell(st.grid, st.i, st.j, v), st.i, st.j + 1, None))
        } else {
            None
        },
    }
}

/// One byte of input: a newline closes the token and moves to the next
/// row; a separator closes the token; a digit extends the token, failing
/// if the value would leave 0..=9; any other byte is a parse failure.
pub open spec fn parse_step(st: ParseState, b: u8) -> Option<ParseState> {
    if b == 10 {
        match close_token(st) {
            None => None,
            Some(st2) => Some(parser_state(st2.grid, st2.i + 1, 0, None)),
        }
    } else if is_separator(b) {
        close_token(st)
    } else if is_digit(b) {
        let v = (match st.acc {
            None => 0int,
            Some(a) => a as int,
        }) * 10 + (b - 48);
        if v > 9 {
            None
        } else {
            Some(parser_state(st.grid, st.i, st.j, Some(v as u32)))
        }
    } else {
        None
    }
}

/// The state after the first n bytes of s, if no byte failed.
pub open spec fn parse_run(s: Seq<u8>, n: int) -> Option<ParseState>
    decreases n,
{
    if n <= 0 {
        Some(start_state())
    } else {
        match parse_run(s, n - 1) {
            None => None,
            Some(st) => parse_step(st, s[n - 1]),
        }
    }
}

/// The board a grid file denotes: fold over every byte, then close a
/// final unterminated token.
pub open spec fn parse_grid(s: Seq<u8>) -> Option<Seq<Seq<u32>>> {
    match parse_run(s, s.len() as int) {
        None => None,
        Some(st) => match close_token(st) {
            None => None,
            Some(st2) => Some(st2.grid),
        },
    }
}

/// Once a byte has failed, the whole input fails.
proof fn lemma_parse_run_fail(s: Seq<u8>, n: int, m: int)
    requires
        0 <= n <= m,
        parse_run(s, n) is None,
    ensures
        parse_run(s, m) is None,
    decreases m,
{
    if m > n {
        lemma_parse_run_fail(s, n, m - 1);
    }
}

/// Build the board that the given grid-file contents denote.
pub fn parse_text(text: &[u8]) -> (r: Result<Numple, LoadError>)
    ensures
        match r {
            Ok(n) => parse_grid(text@) == Some(n@) && wf(n@),
            Err(e) => parse_grid(text@) is None && e == LoadError::ParseFailure,
        },
{
    let mut board = Numple { numbers: [[0u32; 9]; 9] };
    proof {
        assert(board@ =~~= empty_grid());
    }
    let mut i: usize = 0;
    let mut j: usize = 0;
    let mut have_token: bool = false;
    let mut acc: u32 = 0;
    for k in 0..text.len()
        invariant
            i <= k,
            j <= 9,
            acc <= 9,
            wf(board@),
            parse_run(text@, k as int) == Some(
                parser_state(
                    board@,
                    i as int,
                    j as int,
                    if have_token {
                        Some(acc)
                    } else {
                        None
                    },
                ),
            ),
    {
        let b = text[k];
        if b == 10 {
            if have_token {
                if i < 9 && j < 9 {
                    proof {
                        lemma_set_cell_wf(board@, i as int, j as int, acc);
                    }
                    board.set(i, j, acc);
                    j += 1;
                    have_token = false;
                    acc = 0;
                } else {
                    proof {
                        lemma_parse_run_fail(text@, k + 1, text@.len() as int);
                    }
                    return Err(LoadError::ParseFailure);
                }
            }
            i += 1;
            j = 0;
        } else if b == 32 || b == 9 || b == 13 {
            if have_token {
                if i < 9 && j < 9 {
                    proof {
                        lemma_set_cell_wf(board@, i as int, j as int, acc);
                    }
                    board.set(i, j, acc);
                    j += 1;
                    have_token = false;
                    acc = 0;
                } else {
                    proof {
                        lemma_parse_run_fail(text@, k + 1, text@.len() as int);
                    }
                    return Err(LoadError::ParseFailure);
                }
            }
        } else if 48 <= b && b <= 57 {
            let d = (b - 48) as u32;
            let v = if have_token {
                acc * 10 + d
            } else {
                d
            };
            if v > 9 {
                proof {
                    lemma_parse_run_fail(text@, k + 1, text@.len() as int);
                }
                return Err(LoadError::ParseFailure);
            }
            acc = v;
            have_token = true;
        } else {
            proof {
                lemma_parse_run_fail(text@, k + 1, text@.len() as int);
            }
            return Err(LoadError::ParseFailure);
        }
    }
    if have_token {
        if i < 9 && j < 9 {
            proof {
                lemma_set_cell_wf(board@, i as int, j as int, acc);
            }
            board.set(i, j, acc);
        } else {
            return Err(LoadError::ParseFailure);
        }
    }
    Ok(board)
}

} // verus!
