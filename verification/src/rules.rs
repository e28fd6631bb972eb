//! The mathematical model of a board and of the placement rules.
//!
//! A board is modelled as a sequence of nine rows, each a sequence of
//! nine cell values; 0 marks an empty cell, 1..=9 a placed digit.

use vstd::prelude::*;

verus! {

/// Every row has nine cells and every cell value lies in 0..=9.
pub open spec fn wf(g: Seq<Seq<u32>>) -> bool {
    &&& g.len() == 9
    &&& forall|i: int| 0 <= i < 9 ==> (#[trigger] g[i]).len() == 9
    &&& forall|i: int, j: int| 0 <= i < 9 && 0 <= j < 9 ==> #[trigger] g[i][j] <= 9
}

/// The all-empty board.
pub open spec fn empty_grid() -> Seq<Seq<u32>> {
    Seq::new(9, |i: int| Seq::new(9, |j: int| 0u32))
}

/// The board with cell (i, j) overwritten by v and every other cell unchanged.
pub open spec fn set_cell(g: Seq<Seq<u32>>, i: int, j: int, v: u32) -> Seq<Seq<u32>> {
    g.update(i, g[i].update(j, v))
}

/// Digit d occurs somewhere in row i.
pub open spec fn row_has(g: Seq<Seq<u32>>, i: int, d: u32) -> bool {
    exists|x: int| 0 <= x < 9 && g[i][x] == d
}

/// Digit d occurs somewhere in column j.
pub open spec fn col_has(g: Seq<Seq<u32>>, j: int, d: u32) -> bool {
    exists|y: int| 0 <= y < 9 && g[y][j] == d
}

/// Digit d occurs somewhere in the 3x3 block containing cell (i, j),
/// the block anchored at ((i / 3) * 3, (j / 3) * 3).
pub open spec fn block_has(g: Seq<Seq<u32>>, i: int, j: int, d: u32) -> bool {
    exists|y: int, x: int|
        0 <= y < 3 && 0 <= x < 3 && #[trigger] g[(i / 3) * 3 + y][(j / 3) * 3 + x] == d
}

/// Placing digit d at cell (i, j) leaves the board free of duplicates:
/// no cell of row i, column j, or the block of (i, j) holds d already.
pub open spec fn legal(g: Seq<Seq<u32>>, i: int, j: int, d: u32) -> bool {
    !row_has(g, i, d) && !col_has(g, j, d) && !block_has(g, i, j, d)
}

/// Cells (i, j) and (i2, j2) share a row, a column, or a 3x3 block.
pub open spec fn same_unit(i: int, j: int, i2: int, j2: int) -> bool {
    i == i2 || j == j2 || (i / 3 == i2 / 3 && j / 3 == j2 / 3)
}

/// Among the placed (non-zero) cells, no row, column or block holds a
/// duplicate digit.
pub open spec fn no_conflicts(g: Seq<Seq<u32>>) -> bool {
    forall|i: int, j: int, i2: int, j2: int|
        0 <= i < 9 && 0 <= j < 9 && 0 <= i2 < 9 && 0 <= j2 < 9
            && !(i == i2 && j == j2) && same_unit(i, j, i2, j2)
            && #[trigger] g[i][j] != 0 ==> g[i][j] != #[trigger] g[i2][j2]
}

/// Every cell holds a digit 1..=9; no cell is empty.
pub open spec fn complete(g: Seq<Seq<u32>>) -> bool {
    forall|i: int, j: int|
        0 <= i < 9 && 0 <= j < 9 ==> 1 <= #[trigger] g[i][j] <= 9
}

/// A finished board: fully assigned and free of duplicates, so every
/// row, column and block is a permutation of the digits 1..=9.
pub open spec fn solved(g: Seq<Seq<u32>>) -> bool {
    complete(g) && no_conflicts(g)
}

/// The row index of the cell that follows (i, j) in row-major order.
pub open spec fn next_i(i: int, j: int) -> int {
    if j == 8 {
        i + 1
    } else {
        i
    }
}

/// The column index of the cell that follows (i, j) in row-major order.
pub open spec fn next_j(j: int) -> int {
    if j == 8 {
        0
    } else {
        j + 1
    }
}

/// Cell (a, b) comes strictly before cell (i, j) in row-major order.
pub open spec fn before(a: int, b: int, i: int, j: int) -> bool {
    a < i || (a == i && b < j)
}

/// Overwriting one cell with a digit keeps the board well-formed.
pub proof fn lemma_set_cell_wf(g: Seq<Seq<u32>>, i: int, j: int, v: u32)
    requires
        wf(g),
        0 <= i < 9,
        0 <= j < 9,
        v <= 9,
    ensures
        wf(set_cell(g, i, j, v)),
        set_cell(g, i, j, v)[i][j] == v,
        forall|a: int, b: int|
            0 <= a < 9 && 0 <= b < 9 && !(a == i && b == j)
                ==> #[trigger] set_cell(g, i, j, v)[a][b] == g[a][b],
{
    let g2 = set_cell(g, i, j, v);
    assert forall|a: int, b: int| 0 <= a < 9 && 0 <= b < 9 implies #[trigger] g2[a][b] <= 9 by {
        if a == i && b == j {
            assert(g2[a][b] == v);
        } else {
            assert(g2[a][b] == g[a][b]);
        }
    }
}

/// Division by three splits 0..9 into the three aligned bands.
proof fn lemma_div3(a: int)
    requires
        0 <= a < 9,
    ensures
        3 * (a / 3) <= a < 3 * (a / 3) + 3,
        0 <= a / 3 < 3,
        a % 3 == a - 3 * (a / 3),
        0 <= a % 3 < 3,
{
    assert(3 * (a / 3) <= a < 3 * (a / 3) + 3 && 0 <= a / 3 < 3 && a % 3 == a - 3 * (a / 3)
        && 0 <= a % 3 < 3) by (nonlinear_arith)
        requires
            0 <= a < 9,
    ;
}

/// Offsetting within a band does not change the band.
proof fn lemma_div3_offset(q: int, r: int)
    requires
        0 <= q,
        0 <= r < 3,
    ensures
        (3 * q + r) / 3 == q,
{
    assert((3 * q + r) / 3 == q) by (nonlinear_arith)
        requires
            0 <= q,
            0 <= r < 3,
    ;
}

/// A digit that may legally be placed at (i, j) is held by no other cell
/// of row i, column j, or the block of (i, j).
pub proof fn lemma_legal_no_match(g: Seq<Seq<u32>>, i: int, j: int, d: u32, a: int, b: int)
    requires
        legal(g, i, j, d),
        0 <= i < 9,
        0 <= j < 9,
        0 <= a < 9,
        0 <= b < 9,
        !(a == i && b == j),
        same_unit(a, b, i, j),
    ensures
        g[a][b] != d,
{
    if g[a][b] == d {
        if a == i {
            assert(row_has(g, i, d));
        } else if b == j {
            assert(col_has(g, j, d));
        } else {
            lemma_div3(a);
            lemma_div3(b);
            lemma_div3(i);
            lemma_div3(j);
            let y = a - (i / 3) * 3;
            let x = b - (j / 3) * 3;
            assert(g[(i / 3) * 3 + y][(j / 3) * 3 + x] == d);
            assert(block_has(g, i, j, d));
        }
    }
}

/// Placing a legal digit in an empty cell keeps the board free of
/// duplicates.
pub proof fn lemma_place_keeps_no_conflicts(g: Seq<Seq<u32>>, i: int, j: int, d: u32)
    requires
        wf(g),
        0 <= i < 9,
        0 <= j < 9,
        g[i][j] == 0,
        1 <= d <= 9,
        legal(g, i, j, d),
        no_conflicts(g),
    ensures
        no_conflicts(set_cell(g, i, j, d)),
{
    let g2 = set_cell(g, i, j, d);
    assert forall|p: int, q: int, p2: int, q2: int|
        0 <= p < 9 && 0 <= q < 9 && 0 <= p2 < 9 && 0 <= q2 < 9
            && !(p == p2 && q == q2) && same_unit(p, q, p2, q2)
            && #[trigger] g2[p][q] != 0 implies g2[p][q] != #[trigger] g2[p2][q2] by {
        if p == i && q == j {
            assert(g2[p][q] == d);
            assert(g2[p2][q2] == g[p2][q2]);
            lemma_legal_no_match(g, i, j, d, p2, q2);
        } else if p2 == i && q2 == j {
            assert(g2[p][q] == g[p][q]);
            assert(g2[p2][q2] == d);
            lemma_legal_no_match(g, i, j, d, p, q);
        } else {
            assert(g2[p][q] == g[p][q]);
            assert(g2[p2][q2] == g[p2][q2]);
            assert(g[p][q] != g[p2][q2]);
        }
    }
}

/// Nine distinct values drawn from the nine digits 1..=9 must cover
/// every digit.
proof fn lemma_nine_distinct_digits_cover(s: Seq<u32>)
    requires
        s.len() == 9,
        forall|k: int| 0 <= k < 9 ==> 1 <= #[trigger] s[k] <= 9,
        s.no_duplicates(),
    ensures
        forall|d: u32| 1 <= d <= 9 ==> s.contains(d),
{
    broadcast use vstd::set::group_set_axioms;
    broadcast use vstd::seq_lib::seq_to_set_is_finite;

    let vs = s.to_set();
    let ds: Seq<u32> = seq![1u32, 2u32, 3u32, 4u32, 5u32, 6u32, 7u32, 8u32, 9u32];
    let digits = ds.to_set();
    s.unique_seq_to_set();
    assert(ds.no_duplicates());
    ds.unique_seq_to_set();
    assert forall|x: u32| vs.contains(x) implies digits.contains(x) by {
        let k = choose|k: int| 0 <= k < s.len() && s[k] == x;
        assert(1 <= x <= 9);
        assert(ds[x as int - 1] == x);
        assert(ds.contains(x));
    }
    vstd::set_lib::lemma_subset_equality(vs, digits);
    assert forall|d: u32| 1 <= d <= 9 implies s.contains(d) by {
        assert(ds[d as int - 1] == d);
        assert(ds.contains(d));
        assert(digits.contains(d));
        assert(vs.contains(d));
    }
}

/// On a solved board, every row, every column and every 3x3 block is a
/// permutation of the digits 1..=9: each digit occurs in each unit, and,
/// the unit having nine cells, exactly once.
pub proof fn lemma_solved_units_are_permutations(g: Seq<Seq<u32>>)
    requires
        wf(g),
        solved(g),
    ensures
        forall|i: int, d: u32| 0 <= i < 9 && 1 <= d <= 9 ==> #[trigger] row_has(g, i, d),
        forall|j: int, d: u32| 0 <= j < 9 && 1 <= d <= 9 ==> #[trigger] col_has(g, j, d),
        forall|i: int, j: int, d: u32|
            0 <= i < 9 && 0 <= j < 9 && 1 <= d <= 9 ==> #[trigger] block_has(g, i, j, d),
{
    assert forall|i: int, d: u32| 0 <= i < 9 && 1 <= d <= 9 implies #[trigger] row_has(
        g,
        i,
        d,
    ) by {
        let s = g[i];
        assert forall|k: int, l: int| 0 <= k < 9 && 0 <= l < 9 && k != l implies s[k] != s[l] by {
            assert(g[i][k] != 0);
            assert(g[i][k] != g[i][l]);
        }
        lemma_nine_distinct_digits_cover(s);
        assert(s.contains(d));
        let k = choose|k: int| 0 <= k < s.len() && s[k] == d;
        assert(g[i][k] == d);
    }
    assert forall|j: int, d: u32| 0 <= j < 9 && 1 <= d <= 9 implies #[trigger] col_has(
        g,
        j,
        d,
    ) by {
        let s = Seq::new(9, |k: int| g[k][j]);
        assert forall|k: int, l: int| 0 <= k < 9 && 0 <= l < 9 && k != l implies s[k] != s[l] by {
            assert(g[k][j] != 0);
            assert(g[k][j] != g[l][j]);
        }
        lemma_nine_distinct_digits_cover(s);
        assert(s.contains(d));
        let k = choose|k: int| 0 <= k < s.len() && s[k] == d;
        assert(g[k][j] == d);
    }
    assert forall|i: int, j: int, d: u32|
        0 <= i < 9 && 0 <= j < 9 && 1 <= d <= 9 implies #[trigger] block_has(g, i, j, d) by {
        lemma_div3(i);
        lemma_div3(j);
        let bi = (i / 3) * 3;
        let bj = (j / 3) * 3;
        let s = Seq::new(9, |k: int| g[bi + k / 3][bj + k % 3]);
        assert forall|k: int, l: int| 0 <= k < 9 && 0 <= l < 9 && k != l implies s[k] != s[l] by {
            lemma_div3(k);
            lemma_div3(l);
            lemma_div3_offset(i / 3, k / 3);
            lemma_div3_offset(j / 3, k % 3);
            lemma_div3_offset(i / 3, l / 3);
            lemma_div3_offset(j / 3, l % 3);
            let p = bi + k / 3;
            let q = bj + k % 3;
            let p2 = bi + l / 3;
            let q2 = bj + l % 3;
            assert(p / 3 == i / 3 && p2 / 3 == i / 3 && q / 3 == j / 3 && q2 / 3 == j / 3)
                by (nonlinear_arith)
                requires
                    0 <= i < 9,
                    0 <= j < 9,
                    0 <= k < 9,
                    0 <= l < 9,
                    bi == (i / 3) * 3,
                    bj == (j / 3) * 3,
                    p == bi + k / 3,
                    q == bj + k % 3,
                    p2 == bi + l / 3,
                    q2 == bj + l % 3,
            ;
            assert(!(p == p2 && q == q2));
            assert(same_unit(p, q, p2, q2));
            assert(g[p][q] != 0);
            assert(g[p][q] != g[p2][q2]);
        }
        lemma_nine_distinct_digits_cover(s);
        assert(s.contains(d));
        let k = choose|k: int| 0 <= k < s.len() && s[k] == d;
        lemma_div3(k);
        assert(g[(i / 3) * 3 + k / 3][(j / 3) * 3 + k % 3] == d);
    }
}

} // verus!
