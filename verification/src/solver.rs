//! The solver: the constraint oracle and the backtracking placer.

use vstd::prelude::*;
use crate::grid::Numple;
use crate::loader::{parse_grid, parse_text, LoadError};
use crate::rules::{
    complete, legal, lemma_set_cell_wf, next_i, next_j, no_conflicts, set_cell, solved, wf,
};
use crate::search::{lemma_search_props, search, try_digits};

verus! {

/// A board that can be completed in place by the backtracking search.
pub trait Solver: Sized {
    /// The rows of cell values the solver works on.
    spec fn grid(&self) -> Seq<Seq<u32>>;

    /// Build a board from the byte contents of a whitespace grid file.
    /// Succeeds exactly when the text parses, with the board the text
    /// denotes, cell for cell; the board is then well-formed.
    fn new(text: &[u8]) -> (r: Result<Self, LoadError>)
        ensures
            match r {
                Ok(s) => parse_grid(text@) == Some(s.grid()) && wf(s.grid()),
                Err(e) => parse_grid(text@) is None && e == LoadError::ParseFailure,
            },
    ;

    /// The constraint oracle: may digit `number` legally occupy cell
    /// (i, j) given the current board? True exactly when no cell of row
    /// i, column j, or the 3x3 block of (i, j) holds `number` already.
    fn check_number(&self, i: usize, j: usize, number: u32) -> (r: bool)
        requires
            i < 9,
            j < 9,
        ensures
            r == legal(self.grid(), i as int, j as int, number),
    ;

    /// The recursive placer: complete the board from cell (i, j) on,
    /// walking cells in row-major order and trying digits in ascending
    /// order. Returns, and leaves the board in, exactly the outcome of
    /// the `search` function on the entry board.
    fn put_number(&mut self, i: usize, j: usize) -> (r: bool)
        requires
            wf(old(self).grid()),
            i <= 9,
            j <= 8,
        ensures
            r == search(old(self).grid(), i as int, j as int).0,
            final(self).grid() == search(old(self).grid(), i as int, j as int).1,
    ;
}

impl Solver for Numple {
    open spec fn grid(&self) -> Seq<Seq<u32>> {
        self@
    }

    fn new(text: &[u8]) -> (r: Result<Self, LoadError>) {
        parse_text(text)
    }

    fn check_number(&self, i: usize, j: usize, number: u32) -> (r: bool) {
        for x in 0usize..9
            invariant
                i < 9,
                j < 9,
                forall|k: int| 0 <= k < x ==> self@[i as int][k] != number,
        {
            if number == self.numbers[i][x] {
                proof {
                    assert(self@[i as int][x as int] == number);
                }
                return false;
            }
        }

        for y in 0usize..9
            invariant
                i < 9,
                j < 9,
                forall|k: int| 0 <= k < 9 ==> self@[i as int][k] != number,
                forall|k: int| 0 <= k < y ==> self@[k][j as int] != number,
        {
            if number == self.numbers[y][j] {
                proof {
                    assert(self@[y as int][j as int] == number);
                }
                return false;
            }
        }

        let block_i: usize = (i / 3) * 3;
        let block_j: usize = (j / 3) * 3;
        assert(block_i + 2 < 9 && block_j + 2 < 9) by (nonlinear_arith)
            requires
                i < 9,
                j < 9,
                block_i == (i / 3) * 3,
                block_j == (j / 3) * 3,
        ;

        for x in 0usize..3
            invariant
                i < 9,
                j < 9,
                block_i == (i as int / 3) * 3,
                block_j == (j as int / 3) * 3,
                block_i + 2 < 9,
                block_j + 2 < 9,
                forall|k: int| 0 <= k < 9 ==> self@[i as int][k] != number,
                forall|k: int| 0 <= k < 9 ==> self@[k][j as int] != number,
                forall|a: int, b: int|
                    0 <= b < x && 0 <= a < 3
                        ==> #[trigger] self@[block_i + a][block_j + b] != number,
        {
            for y in 0usize..3
                invariant
                    i < 9,
                    j < 9,
                    x < 3,
                    block_i == (i as int / 3) * 3,
                    block_j == (j as int / 3) * 3,
                    block_i + 2 < 9,
                    block_j + 2 < 9,
                    forall|a: int, b: int|
                        0 <= b < x && 0 <= a < 3
                            ==> #[trigger] self@[block_i + a][block_j + b] != number,
                    forall|a: int|
                        0 <= a < y
                            ==> #[trigger] self@[block_i + a][block_j + x as int] != number,
            {
                if number == self.numbers[block_i + y][block_j + x] {
                    proof {
                        assert(self@[(i as int / 3) * 3 + y as int][(j as int / 3) * 3
                            + x as int] == number);
                    }
                    return false;
                }
            }
        }
        proof {
            assert forall|a: int, b: int| 0 <= a < 3 && 0 <= b < 3
                implies #[trigger] self@[(i as int / 3) * 3 + a][(j as int / 3) * 3 + b]
                    != number by {
                assert(self@[block_i + a][block_j + b] != number);
            }
        }
        true
    }

    fn put_number(&mut self, i: usize, j: usize) -> (r: bool)
        decreases 81 - (i as int) * 9 - (j as int),
    {
        if i > 8 {
            return true;
        }
        if self.numbers[i][j] != 0 {
            proof {
                assert(self@[i as int][j as int] != 0);
            }
            let r = if j == 8 {
                self.put_number(i + 1, 0)
            } else {
                self.put_number(i, j + 1)
            };
            return r;
        }
        proof {
            assert(self@[i as int][j as int] == 0);
        }
        let ghost g0 = self@;
        for num in 1u32..10
            invariant
                i < 9,
                j < 9,
                wf(g0),
                g0 == old(self)@,
                g0[i as int][j as int] == 0,
                self@ == g0,
                try_digits(g0, i as int, j as int, 1) == try_digits(g0, i as int, j as int, num),
        {
            if self.check_number(i, j, num) {
                self.set(i, j, num);
                proof {
                    lemma_set_cell_wf(g0, i as int, j as int, num);
                }
                let r = if j == 8 {
                    self.put_number(i + 1, 0)
                } else {
                    self.put_number(i, j + 1)
                };
                if r {
                    proof {
                        assert(try_digits(g0, i as int, j as int, num) == (true, self@));
                        assert(search(g0, i as int, j as int)
                            == try_digits(g0, i as int, j as int, 1u32));
                    }
                    return true;
                }
                proof {
                    // The failed branch restored the board to the one with num placed.
                    lemma_search_props(
                        set_cell(g0, i as int, j as int, num),
                        next_i(i as int, j as int),
                        next_j(j as int),
                    );
                }
            }
            self.set(i, j, 0);
            proof {
                assert(self@ =~~= g0);
            }
        }
        proof {
            assert(try_digits(g0, i as int, j as int, 10u32) == (false, g0));
            assert(search(g0, i as int, j as int) == try_digits(g0, i as int, j as int, 1u32));
        }
        false
    }
}

impl Numple {
    /// Complete the board in place. Returns whether a completion was
    /// found; on failure the board is exactly as it was. Every cell that
    /// held a digit at entry keeps it, and the outcome is a function of
    /// the entry board alone, so solving is deterministic. On success
    /// from a board free of duplicates, the board is solved: every cell
    /// holds a digit 1..=9 with no duplicate in any row, column or
    /// block.
    pub fn solve(&mut self) -> (r: bool)
        requires
            wf(old(self)@),
        ensures
            r == search(old(self)@, 0, 0).0,
            final(self)@ == search(old(self)@, 0, 0).1,
            wf(final(self)@),
            !r ==> final(self)@ == old(self)@,
            forall|a: int, b: int|
                0 <= a < 9 && 0 <= b < 9 && old(self)@[a][b] != 0
                    ==> #[trigger] final(self)@[a][b] == old(self)@[a][b],
            r ==> complete(final(self)@),
            r && no_conflicts(old(self)@) ==> solved(final(self)@),
    {
        let r = self.put_number(0, 0);
        proof {
            lemma_search_props(old(self)@, 0, 0);
            if r {
                assert forall|a: int, b: int| 0 <= a < 9 && 0 <= b < 9
                    implies 1 <= #[trigger] self@[a][b] <= 9 by {
                    assert(self@[a][b] != 0);
                }
            }
        }
        r
    }
}

} // verus!
