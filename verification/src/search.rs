//! The search itself, as a mathematical function on boards.
//!
//! `search` walks the cells in row-major order from (i, j); at each empty
//! cell `try_digits` tries the digits in ascending order, keeping the
//! first that is legal and leads to a completion, and restoring the cell
//! on failure. The pair returned is (whether a completion was found, the
//! board afterwards). The executable solver is proved to return exactly
//! this pair, which also makes it deterministic.

use vstd::prelude::*;
use crate::rules::{
    before, legal, lemma_place_keeps_no_conflicts, lemma_set_cell_wf, next_i, next_j,
    no_conflicts, set_cell, wf,
};

verus! {

/// The outcome of completing the board from cell (i, j) on, under the
/// row-major, ascending-digit search order.
pub open spec fn search(g: Seq<Seq<u32>>, i: int, j: int) -> (bool, Seq<Seq<u32>>)
    decreases 81 - (i * 9 + j), 10int,
{
    if i >= 9 || i < 0 || j < 0 || j >= 9 {
        // Past the end (or off the board): everything up to here is assigned.
        (true, g)
    } else if g[i][j] != 0 {
        search(g, next_i(i, j), next_j(j))
    } else {
        try_digits(g, i, j, 1)
    }
}

/// The outcome of trying the digits d..=9 in ascending order at the
/// empty cell (i, j).
pub open spec fn try_digits(g: Seq<Seq<u32>>, i: int, j: int, d: u32) -> (bool, Seq<Seq<u32>>)
    decreases 81 - (i * 9 + j), 10 - d,
{
    if i < 0 || i >= 9 || j < 0 || j >= 9 || d > 9 {
        (false, g)
    } else if legal(g, i, j, d) && search(set_cell(g, i, j, d), next_i(i, j), next_j(j)).0 {
        (true, search(set_cell(g, i, j, d), next_i(i, j), next_j(j)).1)
    } else {
        try_digits(g, i, j, (d + 1) as u32)
    }
}

/// Cells that come before (i, j), and cells that already held a digit,
/// keep their values in g2.
pub open spec fn preserves(g: Seq<Seq<u32>>, g2: Seq<Seq<u32>>, i: int, j: int) -> bool {
    &&& forall|a: int, b: int|
        0 <= a < 9 && 0 <= b < 9 && before(a, b, i, j) ==> #[trigger] g2[a][b] == g[a][b]
    &&& forall|a: int, b: int|
        0 <= a < 9 && 0 <= b < 9 && g[a][b] != 0 ==> #[trigger] g2[a][b] == g[a][b]
}

/// What the search guarantees of its outcome (r, g2) when started at
/// cell (i, j) of board g: the board stays well-formed; earlier cells
/// and placed digits are kept; failure leaves the board untouched;
/// success fills every cell from (i, j) on; and a board free of
/// duplicates stays so.
pub open spec fn search_post(g: Seq<Seq<u32>>, i: int, j: int, r: bool, g2: Seq<Seq<u32>>) -> bool {
    &&& wf(g2)
    &&& preserves(g, g2, i, j)
    &&& (!r ==> g2 == g)
    &&& (r ==> forall|a: int, b: int|
        0 <= a < 9 && 0 <= b < 9 && !before(a, b, i, j) ==> #[trigger] g2[a][b] != 0)
    &&& (no_conflicts(g) ==> no_conflicts(g2))
}

/// The cells before the successor of (i, j) are the cells before (i, j)
/// together with (i, j) itself.
proof fn lemma_next_cell(i: int, j: int, a: int, b: int)
    requires
        0 <= i < 9,
        0 <= j < 9,
        0 <= a < 9,
        0 <= b < 9,
    ensures
        before(a, b, next_i(i, j), next_j(j)) <==> (before(a, b, i, j) || (a == i && b == j)),
{
}

/// The search only ever returns an outcome that `search_post` allows.
pub proof fn lemma_search_props(g: Seq<Seq<u32>>, i: int, j: int)
    requires
        wf(g),
        0 <= i <= 9,
        0 <= j <= 8,
    ensures
        search_post(g, i, j, search(g, i, j).0, search(g, i, j).1),
    decreases 81 - (i * 9 + j), 10int,
{
    let r = search(g, i, j).0;
    let g2 = search(g, i, j).1;
    if i >= 9 {
        assert forall|a: int, b: int|
            0 <= a < 9 && 0 <= b < 9 && !before(a, b, i, j) implies #[trigger] g2[a][b] != 0 by {
            assert(before(a, b, i, j));
        }
    } else if g[i][j] != 0 {
        let ni = next_i(i, j);
        let nj = next_j(j);
        lemma_search_props(g, ni, nj);
        assert forall|a: int, b: int|
            0 <= a < 9 && 0 <= b < 9 && before(a, b, i, j) implies #[trigger] g2[a][b]
            == g[a][b] by {
            lemma_next_cell(i, j, a, b);
        }
        if r {
            assert forall|a: int, b: int|
                0 <= a < 9 && 0 <= b < 9 && !before(a, b, i, j) implies #[trigger] g2[a][b]
                != 0 by {
                lemma_next_cell(i, j, a, b);
                if a == i && b == j {
                    assert(g2[a][b] == g[a][b]);
                } else {
                    assert(!before(a, b, ni, nj));
                }
            }
        }
    } else {
        lemma_try_digits_props(g, i, j, 1);
    }
}

/// Trying the digits d..=9 at the empty cell (i, j) only ever returns an
/// outcome that `search_post` allows.
pub proof fn lemma_try_digits_props(g: Seq<Seq<u32>>, i: int, j: int, d: u32)
    requires
        wf(g),
        0 <= i < 9,
        0 <= j < 9,
        g[i][j] == 0,
        1 <= d <= 10,
    ensures
        search_post(g, i, j, try_digits(g, i, j, d).0, try_digits(g, i, j, d).1),
    decreases 81 - (i * 9 + j), 10 - d,
{
    let r = try_digits(g, i, j, d).0;
    let g2 = try_digits(g, i, j, d).1;
    if d > 9 {
        assert(g2 == g);
    } else {
        let ni = next_i(i, j);
        let nj = next_j(j);
        let g1 = set_cell(g, i, j, d);
        if legal(g, i, j, d) && search(g1, ni, nj).0 {
            lemma_set_cell_wf(g, i, j, d);
            lemma_search_props(g1, ni, nj);
            assert(r && g2 == search(g1, ni, nj).1);
            // Cells before (i, j) are untouched by the write and by the search.
            assert forall|a: int, b: int|
                0 <= a < 9 && 0 <= b < 9 && before(a, b, i, j) implies #[trigger] g2[a][b]
                == g[a][b] by {
                lemma_next_cell(i, j, a, b);
                assert(g1[a][b] == g[a][b]);
                assert(g2[a][b] == g1[a][b]);
            }
            // Placed digits are untouched: the written cell was empty.
            assert forall|a: int, b: int|
                0 <= a < 9 && 0 <= b < 9 && g[a][b] != 0 implies #[trigger] g2[a][b]
                == g[a][b] by {
                assert(g1[a][b] == g[a][b]);
                assert(g2[a][b] == g1[a][b]);
            }
            // Every cell from (i, j) on ends up assigned.
            assert forall|a: int, b: int|
                0 <= a < 9 && 0 <= b < 9 && !before(a, b, i, j) implies #[trigger] g2[a][b]
                != 0 by {
                lemma_next_cell(i, j, a, b);
                if a == i && b == j {
                    assert(g1[a][b] == d);
                    assert(g2[a][b] == g1[a][b]);
                } else {
                    assert(!before(a, b, ni, nj));
                }
            }
            if no_conflicts(g) {
                lemma_place_keeps_no_conflicts(g, i, j, d);
            }
        } else {
            lemma_try_digits_props(g, i, j, (d + 1) as u32);
        }
    }
}

/// Solving is deterministic: the outcome, result and final board both,
/// is a function of the starting board alone, so two runs from equal
/// boards end equal.
pub proof fn lemma_search_deterministic(g1: Seq<Seq<u32>>, g2: Seq<Seq<u32>>)
    requires
        g1 == g2,
    ensures
        search(g1, 0, 0) == search(g2, 0, 0),
{
}

} // verus!
