//! Sums over rectangular and triangular regions of a grid of integers,
//! together with the identities that relate neighbouring regions.

use vstd::prelude::*;

verus! {

/// Every row of `g` has exactly `cols` cells and there are `rows` rows.
pub open spec fn rectangular(g: Seq<Seq<i64>>, rows: int, cols: int) -> bool {
    &&& g.len() == rows
    &&& forall|i: int| 0 <= i < rows ==> (#[trigger] g[i]).len() == cols
}

/// Every cell of `g` lies in `[0, bound]`.
pub open spec fn cells_within(g: Seq<Seq<i64>>, bound: int) -> bool {
    forall|i: int, j: int|
        0 <= i < g.len() && 0 <= j < g[i].len() ==> 0 <= #[trigger] g[i][j] <= bound
}

/// The rows `r0..r1` of `g`, each cut down to the columns `c0..c1`.
pub open spec fn sub_block(g: Seq<Seq<i64>>, r0: int, r1: int, c0: int, c1: int) -> Seq<Seq<i64>> {
    Seq::new((r1 - r0) as nat, |i: int| g[r0 + i].subrange(c0, c1))
}

/// Sum of the cells `row[c0], .., row[c1 - 1]`.
pub open spec fn row_sum(row: Seq<i64>, c0: int, c1: int) -> int
    decreases c1 - c0,
{
    if c1 <= c0 {
        0
    } else {
        row_sum(row, c0, c1 - 1) + row[c1 - 1]
    }
}

/// Sum of the cells `g[i][j]` with `r0 <= i < r1` and `c0 <= j < c1`.
pub open spec fn rect_sum(g: Seq<Seq<i64>>, r0: int, r1: int, c0: int, c1: int) -> int
    decreases r1 - r0,
{
    if r1 <= r0 {
        0
    } else {
        rect_sum(g, r0, r1 - 1, c0, c1) + row_sum(g[r1 - 1], c0, c1)
    }
}

/// Sum of the cells `g[i][j]` with `lo <= i < j < hi`: the part of the
/// diagonal block `lo..hi` that lies strictly above the diagonal.
pub open spec fn upper_sum(g: Seq<Seq<i64>>, lo: int, hi: int) -> int
    decreases hi - lo,
{
    if hi <= lo {
        0
    } else {
        upper_sum(g, lo, hi - 1) + rect_sum(g, lo, hi - 1, hi - 1, hi)
    }
}

/// A run of cells splits at any column in between.
pub proof fn lemma_row_split(row: Seq<i64>, c0: int, c1: int, c2: int)
    requires
        c0 <= c1 <= c2,
    ensures
        row_sum(row, c0, c2) == row_sum(row, c0, c1) + row_sum(row, c1, c2),
    decreases c2 - c1,
{
    if c1 < c2 {
        lemma_row_split(row, c0, c1, c2 - 1);
    }
}

/// A rectangle splits at any column in between.
pub proof fn lemma_rect_split_cols(g: Seq<Seq<i64>>, r0: int, r1: int, c0: int, c1: int, c2: int)
    requires
        c0 <= c1 <= c2,
    ensures
        rect_sum(g, r0, r1, c0, c2) == rect_sum(g, r0, r1, c0, c1) + rect_sum(g, r0, r1, c1, c2),
    decreases r1 - r0,
{
    if r0 < r1 {
        lemma_rect_split_cols(g, r0, r1 - 1, c0, c1, c2);
        lemma_row_split(g[r1 - 1], c0, c1, c2);
    }
}

/// A rectangle splits at any row in between.
pub proof fn lemma_rect_split_rows(g: Seq<Seq<i64>>, r0: int, r1: int, r2: int, c0: int, c1: int)
    requires
        r0 <= r1 <= r2,
    ensures
        rect_sum(g, r0, r2, c0, c1) == rect_sum(g, r0, r1, c0, c1) + rect_sum(g, r1, r2, c0, c1),
    decreases r2 - r1,
{
    if r1 < r2 {
        lemma_rect_split_rows(g, r0, r1, r2 - 1, c0, c1);
    }
}

/// A rectangle of one row is a run of cells of that row.
pub proof fn lemma_rect_one_row(g: Seq<Seq<i64>>, r: int, c0: int, c1: int)
    ensures
        rect_sum(g, r, r + 1, c0, c1) == row_sum(g[r], c0, c1),
{
    assert(rect_sum(g, r, r, c0, c1) == 0);
}

/// A run of one cell is that cell.
pub proof fn lemma_row_one_cell(row: Seq<i64>, c: int)
    ensures
        row_sum(row, c, c + 1) == row[c],
{
    assert(row_sum(row, c, c) == 0);
}

/// Taking the first row off a triangle leaves the triangle below it and the
/// cells of that row to the right of the diagonal.
pub proof fn lemma_upper_peel_first(g: Seq<Seq<i64>>, lo: int, hi: int)
    requires
        lo < hi,
    ensures
        upper_sum(g, lo, hi) == upper_sum(g, lo + 1, hi) + row_sum(g[lo], lo + 1, hi),
    decreases hi - lo,
{
    if hi == lo + 1 {
        assert(upper_sum(g, lo, lo) == 0);
        assert(rect_sum(g, lo, lo, lo, lo + 1) == 0);
        assert(upper_sum(g, lo + 1, lo + 1) == 0);
    } else {
        lemma_upper_peel_first(g, lo, hi - 1);
        lemma_rect_split_rows(g, lo, lo + 1, hi - 1, hi - 1, hi);
        lemma_rect_one_row(g, lo, hi - 1, hi);
        lemma_row_split(g[lo], lo + 1, hi - 1, hi);
    }
}

/// Bounds on a run of cells that all lie in `[0, bound]`.
pub proof fn lemma_row_sum_bounds(row: Seq<i64>, c0: int, c1: int, bound: int)
    requires
        0 <= c0 <= c1 <= row.len(),
        forall|j: int| c0 <= j < c1 ==> 0 <= #[trigger] row[j] <= bound,
    ensures
        0 <= row_sum(row, c0, c1) <= (c1 - c0) * bound,
    decreases c1 - c0,
{
    if c0 < c1 {
        lemma_row_sum_bounds(row, c0, c1 - 1, bound);
        assert((c1 - c0) * bound == (c1 - 1 - c0) * bound + bound) by (nonlinear_arith);
    } else {
        assert((c1 - c0) * bound == 0) by (nonlinear_arith)
            requires
                c1 - c0 == 0,
        ;
    }
}

/// Bounds on a rectangle inside a grid whose cells all lie in `[0, bound]`.
pub proof fn lemma_rect_sum_bounds(
    g: Seq<Seq<i64>>,
    r0: int,
    r1: int,
    c0: int,
    c1: int,
    cols: int,
    bound: int,
)
    requires
        0 <= r0 <= r1 <= g.len(),
        0 <= c0 <= c1 <= cols,
        rectangular(g, g.len() as int, cols),
        cells_within(g, bound),
    ensures
        0 <= rect_sum(g, r0, r1, c0, c1) <= (r1 - r0) * (c1 - c0) * bound,
    decreases r1 - r0,
{
    if r0 < r1 {
        lemma_rect_sum_bounds(g, r0, r1 - 1, c0, c1, cols, bound);
        let row = g[r1 - 1];
        assert forall|j: int| c0 <= j < c1 implies 0 <= #[trigger] row[j] <= bound by {
            assert(0 <= g[r1 - 1][j] <= bound);
        }
        lemma_row_sum_bounds(row, c0, c1, bound);
        assert((r1 - r0) * (c1 - c0) * bound == (r1 - 1 - r0) * (c1 - c0) * bound + (c1 - c0)
            * bound) by (nonlinear_arith);
    } else {
        assert((r1 - r0) * (c1 - c0) * bound == 0) by (nonlinear_arith)
            requires
                r1 - r0 == 0,
        ;
    }
}

/// Bounds on a triangle inside a square grid whose cells all lie in
/// `[0, bound]`.
pub proof fn lemma_upper_sum_bounds(g: Seq<Seq<i64>>, lo: int, hi: int, bound: int)
    requires
        0 <= lo <= hi <= g.len(),
        rectangular(g, g.len() as int, g.len() as int),
        cells_within(g, bound),
    ensures
        0 <= upper_sum(g, lo, hi) <= (hi - lo) * (hi - lo) * bound,
    decreases hi - lo,
{
    if lo < hi {
        lemma_upper_sum_bounds(g, lo, hi - 1, bound);
        lemma_rect_sum_bounds(g, lo, hi - 1, hi - 1, hi, g.len() as int, bound);
        assert(0 <= bound) by {
            assert(0 <= g[lo][lo] <= bound);
        }
        assert((hi - 1 - lo) * (hi - 1 - lo) * bound + (hi - 1 - lo) * (hi - (hi - 1)) * bound <= (
        hi - lo) * (hi - lo) * bound) by (nonlinear_arith)
            requires
                0 <= bound,
                lo < hi,
        ;
    } else {
        assert((hi - lo) * (hi - lo) * bound == 0) by (nonlinear_arith)
            requires
                hi - lo == 0,
        ;
    }
}

/// A rectangle inside a cut-out block is the same rectangle of the grid the
/// block was cut from, moved by the block's corner.
pub proof fn lemma_rect_sum_of_sub_block(
    g: Seq<Seq<i64>>,
    r0: int,
    r1: int,
    c0: int,
    c1: int,
    i0: int,
    i1: int,
    j0: int,
    j1: int,
)
    requires
        0 <= r0 <= r1 <= g.len(),
        0 <= c0 <= c1,
        forall|i: int| r0 <= i < r1 ==> c1 <= (#[trigger] g[i]).len(),
        0 <= i0 <= i1 <= r1 - r0,
        0 <= j0 <= j1 <= c1 - c0,
    ensures
        rect_sum(sub_block(g, r0, r1, c0, c1), i0, i1, j0, j1) == rect_sum(
            g,
            r0 + i0,
            r0 + i1,
            c0 + j0,
            c0 + j1,
        ),
    decreases i1 - i0,
{
    if i0 < i1 {
        lemma_rect_sum_of_sub_block(g, r0, r1, c0, c1, i0, i1 - 1, j0, j1);
        let b = sub_block(g, r0, r1, c0, c1);
        assert(b[i1 - 1] == g[r0 + i1 - 1].subrange(c0, c1));
        lemma_row_sum_of_subrange(g[r0 + i1 - 1], c0, c1, j0, j1);
    }
}

/// A run of cells inside a cut-out row is the same run of the row it was cut
/// from, moved by the cut's start.
pub proof fn lemma_row_sum_of_subrange(row: Seq<i64>, c0: int, c1: int, j0: int, j1: int)
    requires
        0 <= c0 <= c1 <= row.len(),
        0 <= j0 <= j1 <= c1 - c0,
    ensures
        row_sum(row.subrange(c0, c1), j0, j1) == row_sum(row, c0 + j0, c0 + j1),
    decreases j1 - j0,
{
    if j0 < j1 {
        lemma_row_sum_of_subrange(row, c0, c1, j0, j1 - 1);
    }
}

/// A triangle inside a block cut out along the diagonal is the same triangle
/// of the grid the block was cut from, moved by the block's corner.
pub proof fn lemma_upper_sum_of_sub_block(g: Seq<Seq<i64>>, a: int, b: int, lo: int, hi: int)
    requires
        0 <= a <= b <= g.len(),
        forall|i: int| a <= i < b ==> b <= (#[trigger] g[i]).len(),
        0 <= lo <= hi <= b - a,
    ensures
        upper_sum(sub_block(g, a, b, a, b), lo, hi) == upper_sum(g, a + lo, a + hi),
    decreases hi - lo,
{
    if lo < hi {
        lemma_upper_sum_of_sub_block(g, a, b, lo, hi - 1);
        lemma_rect_sum_of_sub_block(g, a, b, a, b, lo, hi - 1, hi - 1, hi);
    }
}

/// In a square grid of zeros every rectangle and every triangle sums to 0.
pub proof fn lemma_zero_grid_sums(g: Seq<Seq<i64>>, r0: int, r1: int, c0: int, c1: int, n: int)
    requires
        rectangular(g, n, n),
        forall|i: int, j: int| 0 <= i < g.len() && 0 <= j < g[i].len() ==> #[trigger] g[i][j] == 0,
        0 <= r0 <= r1 <= n,
        0 <= c0 <= c1 <= n,
    ensures
        rect_sum(g, r0, r1, c0, c1) == 0,
        r0 == c0 && r1 == c1 ==> upper_sum(g, r0, r1) == 0,
{
    assert(cells_within(g, 0));
    lemma_rect_sum_bounds(g, r0, r1, c0, c1, n, 0);
    if r0 == c0 && r1 == c1 {
        lemma_upper_sum_bounds(g, r0, r1, 0);
    }
}

} // verus!
