//! The matrix of pairwise distances between the samples of a series, and
//! sums over rectangular parts of it. The cells are stored by `ndarray`.

use crate::error::DetectError;
use crate::limits::MAX_DIFFERENCE;
use crate::sums::{cells_within, lemma_rect_sum_of_sub_block, rect_sum, rectangular, sub_block};
use vstd::arithmetic::div_mod::lemma_fundamental_div_mod_converse;
use vstd::prelude::*;

verus! {

/// An owned square array of `i64` cells, stored by `ndarray`.
#[verifier::external_body]
pub struct Matrix {
    cells: ndarray::Array2<i64>,
}

/// A borrowed rectangular window into a [`Matrix`]. Narrowing a view never
/// copies a cell.
#[verifier::external_body]
pub struct MatrixView<'a> {
    cells: ndarray::ArrayView2<'a, i64>,
}

/// The cells that a matrix holds, row by row.
pub uninterp spec fn matrix_cells(m: Matrix) -> Seq<Seq<i64>>;

/// The cells that a view shows, row by row.
pub uninterp spec fn view_cells(v: MatrixView) -> Seq<Seq<i64>>;

/// The number of columns that a view shows. A view without rows still has
/// it.
pub uninterp spec fn view_width(v: MatrixView) -> nat;

/// Every row that the view shows has as many cells as the view has columns.
pub open spec fn well_shaped(v: MatrixView) -> bool {
    rectangular(view_cells(v), view_cells(v).len() as int, view_width(v) as int)
}

/// The square grid of `n` rows that `cells` holds in row-major order.
pub open spec fn row_major(cells: Seq<i64>, n: int) -> Seq<Seq<i64>> {
    Seq::new(n as nat, |i: int| Seq::new(n as nat, |j: int| cells[i * n + j]))
}

/// The rows `lo..hi` of `g`.
pub open spec fn rows_between(g: Seq<Seq<i64>>, lo: int, hi: int) -> Seq<Seq<i64>> {
    g.subrange(lo, hi)
}

/// Every row of `g`, cut down to the columns `lo..hi`.
pub open spec fn cols_between(g: Seq<Seq<i64>>, lo: int, hi: int) -> Seq<Seq<i64>> {
    Seq::new(g.len(), |i: int| g[i].subrange(lo, hi))
}

/// No cell of `g` is negative.
pub open spec fn non_negative(g: Seq<Seq<i64>>) -> bool {
    forall|i: int, j: int| 0 <= i < g.len() && 0 <= j < g[i].len() ==> 0 <= #[trigger] g[i][j]
}

/// The distance between two samples.
pub open spec fn abs_diff(a: i32, b: i32) -> i64 {
    if a >= b {
        (a - b) as i64
    } else {
        (b - a) as i64
    }
}

/// The distances from `value` to each sample of `series`.
pub open spec fn diff_row_of(series: Seq<i32>, value: i32) -> Seq<i64> {
    Seq::new(series.len(), |j: int| abs_diff(series[j], value))
}

/// The matrix of distances between every two samples of `series`.
pub open spec fn pairwise_differences(series: Seq<i32>) -> Seq<Seq<i64>> {
    Seq::new(series.len(), |i: int| diff_row_of(series, series[i]))
}

/// Calls `ndarray::Array::from_shape_vec` with the shape `(n, n)`. It is
/// claimed to succeed exactly when `cells` holds `n * n` items and that
/// count fits in `isize`, and to lay the items out row by row.
#[verifier::external_body]
fn square_from_cells(n: usize, cells: Vec<i64>) -> (made: Option<Matrix>)
    ensures
        made.is_some() == (cells.len() == n * n && n * n <= isize::MAX),
        made.is_some() ==> matrix_cells(made.unwrap()) == row_major(cells@, n as int),
{
    match ndarray::Array::from_shape_vec((n, n), cells) {
        Ok(cells) => Some(Matrix { cells }),
        Err(_) => None,
    }
}

/// Calls `ndarray::ArrayBase::view`. The view is claimed to show the cells
/// of the matrix, in rows of one length.
#[verifier::external_body]
fn array_view<'a>(m: &'a Matrix) -> (v: MatrixView<'a>)
    ensures
        view_cells(v) == matrix_cells(*m),
        well_shaped(v),
{
    MatrixView { cells: m.cells.view() }
}

/// Calls `ndarray::ArrayBase::dim`. It is claimed to return the numbers of
/// rows and of columns that the view shows, and every row is claimed to have
/// that number of columns.
#[verifier::external_body]
fn view_shape(v: &MatrixView) -> (shape: (usize, usize))
    ensures
        shape.0 == view_cells(*v).len(),
        shape.1 == view_width(*v),
        rectangular(view_cells(*v), shape.0 as int, shape.1 as int),
{
    v.cells.dim()
}

/// Calls `ndarray::ArrayBase::slice_axis_inplace` on a copy of the view, with
/// the range `lo..hi` and step 1. Along axis 0 the result is claimed to show
/// the rows `lo..hi`, along axis 1 the columns `lo..hi` of every row.
#[verifier::external_body]
fn narrow<'a>(v: &MatrixView<'a>, axis: usize, lo: usize, hi: usize) -> (b: MatrixView<'a>)
    requires
        axis < 2,
        lo <= hi,
        axis == 0 ==> hi <= view_cells(*v).len(),
        axis == 1 ==> hi <= view_width(*v),
    ensures
        axis == 0 ==> view_cells(b) == rows_between(view_cells(*v), lo as int, hi as int),
        axis == 0 ==> view_width(b) == view_width(*v),
        axis == 1 ==> view_cells(b) == cols_between(view_cells(*v), lo as int, hi as int),
        axis == 1 ==> view_width(b) == hi - lo,
{
    let mut cells = v.cells.clone();
    cells.slice_axis_inplace(ndarray::Axis(axis), ndarray::Slice::from(lo..hi));
    MatrixView { cells }
}

/// Calls `ndarray::ArrayBase::sum`. It is claimed to add up all cells that
/// the view shows. It adds with `+`, in an order of its own: the cells must
/// not be negative and their sum must fit the cell type.
#[verifier::external_body]
fn view_total(v: &MatrixView) -> (total: i64)
    requires
        non_negative(view_cells(*v)),
        rect_sum(view_cells(*v), 0, view_cells(*v).len() as int, 0, view_width(*v) as int)
            <= i64::MAX,
    ensures
        total == rect_sum(
            view_cells(*v),
            0,
            view_cells(*v).len() as int,
            0,
            view_width(*v) as int,
        ),
{
    v.cells.sum()
}

/// The grid that a list of rows spells out.
pub open spec fn grid_of(rows: Seq<Vec<i64>>) -> Seq<Seq<i64>> {
    Seq::new(rows.len(), |i: int| rows[i]@)
}

/// There are as many rows as each row has cells.
pub open spec fn is_square(rows: Seq<Vec<i64>>) -> bool {
    forall|i: int| 0 <= i < rows.len() ==> (#[trigger] rows[i]).len() == rows.len()
}

impl Matrix {
    /// The square matrix with the given rows. Rows that do not make a
    /// square are refused, and so is a square with more cells than an
    /// array can index.
    pub fn from_rows(rows: &Vec<Vec<i64>>) -> (made: Option<Matrix>)
        ensures
            made is Some <==> is_square(rows@) && rows.len() * rows.len() <= isize::MAX,
            made is Some ==> matrix_cells(made.unwrap()) == grid_of(rows@),
    {
        let n: usize = rows.len();
        let mut i: usize = 0;
        while i < n
            invariant
                n == rows.len(),
                i <= n,
                forall|k: int| 0 <= k < i ==> (#[trigger] rows[k]).len() == n,
            decreases n - i,
        {
            if rows[i].len() != n {
                return None;
            }
            i += 1;
        }
        let total: usize = match n.checked_mul(n) {
            Some(total) => total,
            None => {
                return None;
            },
        };
        if total > isize::MAX as usize {
            return None;
        }
        let mut cells: Vec<i64> = Vec::new();
        let mut i: usize = 0;
        while i < n
            invariant
                n == rows.len(),
                is_square(rows@),
                i <= n,
                cells.len() == i * n,
                forall|p: int|
                    0 <= p < cells.len() ==> #[trigger] cells[p] == rows[p / (n as int)][p % (
                    n as int)],
            decreases n - i,
        {
            let mut j: usize = 0;
            while j < n
                invariant
                    n == rows.len(),
                    is_square(rows@),
                    i < n,
                    j <= n,
                    cells.len() == i * n + j,
                    forall|p: int|
                        0 <= p < cells.len() ==> #[trigger] cells[p] == rows[p / (n as int)][p % (
                        n as int)],
                decreases n - j,
            {
                proof {
                    lemma_fundamental_div_mod_converse(i * n + j, n as int, i as int, j as int);
                }
                cells.push(rows[i][j]);
                j += 1;
            }
            proof {
                assert((i + 1) * n == i * n + n) by (nonlinear_arith);
            }
            i += 1;
        }
        proof {
            let grid = row_major(cells@, n as int);
            let wanted = grid_of(rows@);
            assert forall|a: int| 0 <= a < n implies grid[a] =~= wanted[a] by {
                assert forall|b: int| 0 <= b < n implies grid[a][b] == wanted[a][b] by {
                    lemma_fundamental_div_mod_converse(a * n + b, n as int, a, b);
                    assert(a * n + b < n * n) by (nonlinear_arith)
                        requires
                            0 <= a < n,
                            0 <= b < n,
                    ;
                }
            }
            assert(grid =~= wanted);
        }
        square_from_cells(n, cells)
    }

    /// A view of the whole matrix.
    pub fn view(&self) -> (v: MatrixView<'_>)
        ensures
            view_cells(v) == matrix_cells(*self),
            well_shaped(v),
    {
        array_view(self)
    }
}

/// The number of rows that a view shows.
pub fn row_count(matrix: &MatrixView) -> (n: usize)
    ensures
        n == view_cells(*matrix).len(),
        well_shaped(*matrix),
{
    let (rows, _) = view_shape(matrix);
    rows
}

/// The part of a view in the rows `row_start..row_end` and the columns
/// `col_start..col_end`.
pub fn block<'a>(
    matrix: &MatrixView<'a>,
    row_start: usize,
    row_end: usize,
    col_start: usize,
    col_end: usize,
) -> (b: MatrixView<'a>)
    requires
        row_start <= row_end <= view_cells(*matrix).len(),
        col_start <= col_end <= view_width(*matrix),
    ensures
        view_cells(b) == sub_block(
            view_cells(*matrix),
            row_start as int,
            row_end as int,
            col_start as int,
            col_end as int,
        ),
        view_width(b) == col_end - col_start,
        well_shaped(b),
{
    let _ = view_shape(matrix);
    let rows = narrow(matrix, 0, row_start, row_end);
    let b = narrow(&rows, 1, col_start, col_end);
    assert(view_cells(b) =~= sub_block(
        view_cells(*matrix),
        row_start as int,
        row_end as int,
        col_start as int,
        col_end as int,
    ));
    b
}

/// The distances from `value` to each sample of `series`.
pub fn diff_row(series: &Vec<i32>, value: i32) -> (row: Vec<i64>)
    ensures
        row@ == diff_row_of(series@, value),
{
    let mut row: Vec<i64> = Vec::new();
    let mut j: usize = 0;
    while j < series.len()
        invariant
            j <= series.len(),
            row.len() == j,
            forall|k: int| 0 <= k < j ==> row[k] == abs_diff(series[k], value),
        decreases series.len() - j,
    {
        let sample: i32 = series[j];
        let distance: i64 = if sample >= value {
            sample as i64 - value as i64
        } else {
            value as i64 - sample as i64
        };
        row.push(distance);
        j += 1;
    }
    assert(row@ =~= diff_row_of(series@, value));
    row
}

/// The matrix of distances between every two samples of `series`:
/// symmetric, with zeros on the diagonal and no cell above
/// [`MAX_DIFFERENCE`]. An empty series is refused. The matrix has a cell
/// for every two samples, and an array cannot index more than `isize::MAX`
/// cells.
pub fn calc_diff_matrix(series: &Vec<i32>) -> (made: Result<Matrix, DetectError>)
    requires
        series.len() * series.len() <= isize::MAX,
    ensures
        made is Err <==> series.len() == 0,
        made is Ok ==> matrix_cells(made.unwrap()) == pairwise_differences(series@),
        made is Ok ==> is_difference_matrix(matrix_cells(made.unwrap())),
{
    let n: usize = series.len();
    if n == 0 {
        return Err(DetectError::InvalidInput);
    }
    let mut cells: Vec<i64> = Vec::new();
    let mut i: usize = 0;
    while i < n
        invariant
            n == series.len(),
            0 < n,
            i <= n,
            cells.len() == i * n,
            forall|p: int|
                0 <= p < cells.len() ==> #[trigger] cells[p] == abs_diff(
                    series[p % (n as int)],
                    series[p / (n as int)],
                ),
        decreases n - i,
    {
        let mut row = diff_row(series, series[i]);
        let ghost before = cells@;
        let ghost added = row@;
        cells.append(&mut row);
        proof {
            assert((i + 1) * n == i * n + n) by (nonlinear_arith);
            assert forall|p: int| 0 <= p < cells.len() implies #[trigger] cells[p] == abs_diff(
                series[p % (n as int)],
                series[p / (n as int)],
            ) by {
                if p >= before.len() {
                    lemma_fundamental_div_mod_converse(p, n as int, i as int, p - i * n);
                    assert(cells[p] == added[p - i * n]);
                } else {
                    assert(cells[p] == before[p]);
                }
            }
        }
        i += 1;
    }
    proof {
        let flat = cells@;
        let grid = row_major(flat, n as int);
        let wanted = pairwise_differences(series@);
        assert forall|a: int| 0 <= a < n implies grid[a] =~= wanted[a] by {
            assert forall|b: int| 0 <= b < n implies grid[a][b] == wanted[a][b] by {
                lemma_fundamental_div_mod_converse(a * n + b, n as int, a, b);
                assert(a * n + b < n * n) by (nonlinear_arith)
                    requires
                        0 <= a < n,
                        0 <= b < n,
                ;
                assert(grid[a][b] == flat[a * n + b]);
            }
        }
        assert(grid =~= wanted);
        lemma_pairwise_differences(series@);
    }
    match square_from_cells(n, cells) {
        Some(matrix) => Ok(matrix),
        None => Err(DetectError::InvalidInput),
    }
}

/// What the matrix of distances of a series always is: square, symmetric,
/// zero on the diagonal, with every cell in `[0, MAX_DIFFERENCE]`.
pub open spec fn is_difference_matrix(g: Seq<Seq<i64>>) -> bool {
    &&& rectangular(g, g.len() as int, g.len() as int)
    &&& cells_within(g, MAX_DIFFERENCE as int)
    &&& forall|i: int| 0 <= i < g.len() ==> (#[trigger] g[i])[i] == 0
    &&& forall|i: int, j: int|
        0 <= i < g.len() && 0 <= j < g.len() ==> #[trigger] g[i][j] == #[trigger] g[j][i]
}

/// The matrix of distances of any series is symmetric and has zeros on its
/// diagonal; it is square and none of its cells leaves
/// `[0, MAX_DIFFERENCE]`.
pub proof fn lemma_pairwise_differences(series: Seq<i32>)
    ensures
        is_difference_matrix(pairwise_differences(series)),
{
    let g = pairwise_differences(series);
    assert forall|i: int, j: int| 0 <= i < g.len() && 0 <= j < g[i].len() implies 0
        <= #[trigger] g[i][j] <= MAX_DIFFERENCE by {
        assert(g[i][j] == abs_diff(series[j], series[i]));
    }
}

/// The sum of the cells in the rows `row_start..row_end` and the columns
/// `col_start..col_end` of a view.
pub fn sum_square(
    matrix: &MatrixView,
    row_start: usize,
    row_end: usize,
    col_start: usize,
    col_end: usize,
) -> (total: i64)
    requires
        row_start <= row_end <= view_cells(*matrix).len(),
        col_start <= col_end <= view_width(*matrix),
        forall|i: int, j: int|
            row_start <= i < row_end && col_start <= j < col_end ==> 0 <= #[trigger] view_cells(
                *matrix,
            )[i][j],
        rect_sum(
            view_cells(*matrix),
            row_start as int,
            row_end as int,
            col_start as int,
            col_end as int,
        ) <= i64::MAX,
    ensures
        total == rect_sum(
            view_cells(*matrix),
            row_start as int,
            row_end as int,
            col_start as int,
            col_end as int,
        ),
{
    let _ = view_shape(matrix);
    let part = block(matrix, row_start, row_end, col_start, col_end);
    proof {
        let g = view_cells(*matrix);
        let b = view_cells(part);
        let (r0, r1, c0, c1) = (row_start as int, row_end as int, col_start as int, col_end as int);
        lemma_rect_sum_of_sub_block(g, r0, r1, c0, c1, 0, r1 - r0, 0, c1 - c0);
        assert forall|i: int, j: int| 0 <= i < b.len() && 0 <= j < b[i].len() implies 0
            <= #[trigger] b[i][j] by {
            assert(b[i] == g[r0 + i].subrange(c0, c1));
            assert(b[i][j] == g[r0 + i][c0 + j]);
        }
    }
    view_total(&part)
}

} // verus!
