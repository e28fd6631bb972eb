//! The board itself: 81 cells with coordinate-indexed read and write.

use vstd::prelude::*;
use crate::rules::{empty_grid, set_cell, wf};

verus! {

/// A 9x9 Sudoku board. Cell value 0 means empty; 1..=9 is a placed digit.
///
/// The view of a board is the sequence of its nine rows, each the
/// sequence of that row's nine cell values.
#[derive(Debug)]
pub struct Numple {
    pub numbers: [[u32; 9]; 9],
}

impl View for Numple {
    type V = Seq<Seq<u32>>;

    open spec fn view(&self) -> Seq<Seq<u32>> {
        Seq::new(9, |i: int| Seq::new(9, |j: int| self.numbers[i][j]))
    }
}

impl Default for Numple {
    /// The all-empty board.
    fn default() -> (r: Numple)
        ensures
            r@ == empty_grid(),
    {
        let n = Numple { numbers: [[0u32; 9]; 9] };
        proof {
            assert(n@ =~~= empty_grid());
        }
        n
    }
}

impl Numple {
    /// The current value of cell (i, j).
    pub fn get(&self, i: usize, j: usize) -> (v: u32)
        requires
            i < 9,
            j < 9,
        ensures
            v == self@[i as int][j as int],
    {
        self.numbers[i][j]
    }

    /// Overwrite cell (i, j) with v, leaving every other cell unchanged.
    pub fn set(&mut self, i: usize, j: usize, v: u32)
        requires
            i < 9,
            j < 9,
            v <= 9,
        ensures
            final(self)@ == set_cell(old(self)@, i as int, j as int, v),
    {
        self.numbers[i][j] = v;
        proof {
            assert(self@ =~~= set_cell(old(self)@, i as int, j as int, v));
        }
    }

    /// Does every cell hold a value 0..=9? Boards built by the loader
    /// always do; boards assembled by hand can be checked here before
    /// they are solved.
    pub fn well_formed(&self) -> (r: bool)
        ensures
            r == wf(self@),
    {
        for i in 0usize..9
            invariant
                forall|a: int, c: int|
                    0 <= a < i && 0 <= c < 9 ==> #[trigger] self@[a][c] <= 9,
        {
            for j in 0usize..9
                invariant
                    i < 9,
                    forall|a: int, c: int|
                        0 <= a < i && 0 <= c < 9 ==> #[trigger] self@[a][c] <= 9,
                    forall|c: int| 0 <= c < j ==> self@[i as int][c] <= 9,
            {
                if self.numbers[i][j] > 9 {
                    proof {
                        assert(self@[i as int][j as int] > 9);
                    }
                    return false;
                }
            }
        }
        true
    }
}

} // verus!
