//! The divergence score of every way to split a segment in two.

use crate::error::DetectError;
use crate::limits::{MAX_DIFFERENCE, MAX_SERIES_LEN, MAX_SIDES_PRODUCT, MAX_TERM};
use crate::matrix_ops::{
    calc_diff_matrix, lemma_pairwise_differences, pairwise_differences, row_count, sum_square,
    view_cells, view_width, MatrixView,
};
use crate::score::{Ratio, Score};
use crate::sums::{
    cells_within, lemma_rect_one_row, lemma_rect_split_cols, lemma_rect_sum_bounds,
    lemma_row_one_cell, lemma_row_split, lemma_upper_peel_first, lemma_upper_sum_bounds, rect_sum,
    rectangular, row_sum, upper_sum,
};
use vstd::prelude::*;

verus! {

/// The number by which a sum over the pairs inside a side of `len` samples
/// is divided, once the common factors of the score are cancelled:
/// `len - 1`, or 1 for a side too short to hold a pair.
pub open spec fn pair_divisor(len: int) -> int {
    if len >= 2 {
        len - 1
    } else {
        1
    }
}

/// The sum over the pairs inside a side, or 0 for a side too short to hold
/// a pair.
pub open spec fn pair_term(term: int, len: int) -> int {
    if len >= 2 {
        term
    } else {
        0
    }
}

/// The numerator of the score of a split into sides of `x` and `y` samples,
/// where `cross` sums the distances between the sides and `xs` and `ys`
/// those inside each side.
///
/// The score is `x*y/(x+y) * (2*cross/(x*y) - 2*xs/(x*(x-1)) - 2*ys/(y*(y-1)))`,
/// where a quotient whose divisor is not positive counts as 0. With the
/// common factors cancelled that is
/// `2 * (cross*(x-1)*(y-1) - xs*y*(y-1) - ys*x*(x-1)) / ((x+y)*(x-1)*(y-1))`,
/// and 0 where a side is empty.
pub open spec fn q_numerator(cross: int, xs: int, ys: int, x: int, y: int) -> int {
    if x < 1 || y < 1 {
        0
    } else {
        2 * (cross * pair_divisor(x) * pair_divisor(y) - pair_term(xs, x) * y * pair_divisor(y)
            - pair_term(ys, y) * x * pair_divisor(x))
    }
}

/// The denominator that goes with [`q_numerator`]. It is positive.
pub open spec fn q_denominator(x: int, y: int) -> int {
    if x < 1 || y < 1 {
        1
    } else {
        (x + y) * pair_divisor(x) * pair_divisor(y)
    }
}

/// The score of a split into sides of `x` and `y` samples, as a fraction.
pub open spec fn q_value(cross: int, xs: int, ys: int, x: int, y: int) -> Ratio {
    Ratio { num: q_numerator(cross, xs, ys, x, y), den: q_denominator(x, y) }
}

/// The sum of the distances between the samples `a..t` and the samples
/// `t..b`.
pub open spec fn cross_sum(g: Seq<Seq<i64>>, a: int, b: int, t: int) -> int {
    rect_sum(g, a, t, t, b)
}

/// The score of splitting the segment `a..b` before the sample `t`, by
/// direct summation over the distance matrix `g`: the samples `a..t` make
/// one side, the samples `t..b` the other.
pub open spec fn split_score(g: Seq<Seq<i64>>, a: int, b: int, t: int) -> Ratio {
    q_value(cross_sum(g, a, b, t), upper_sum(g, a, t), upper_sum(g, t, b), t - a, b - t)
}

/// A square grid with zeros on the diagonal and every cell in
/// `[0, MAX_DIFFERENCE]`: a diagonal block of a distance matrix.
pub open spec fn is_distance_block(g: Seq<Seq<i64>>) -> bool {
    &&& rectangular(g, g.len() as int, g.len() as int)
    &&& cells_within(g, MAX_DIFFERENCE as int)
    &&& forall|i: int| 0 <= i < g.len() ==> (#[trigger] g[i])[i] == 0
}

/// The score of a split into sides of `x_len` and `y_len` samples, from the
/// three sums of distances: `cross_term` over the pairs with a sample on
/// each side, `x_term` and `y_term` over the pairs inside a side. No distance
/// is above [`MAX_DIFFERENCE`], which bounds each sum by the number of its
/// pairs.
pub fn calc_q(cross_term: i64, x_term: i64, y_term: i64, x_len: usize, y_len: usize) -> (q: Score)
    requires
        x_len + y_len <= MAX_SERIES_LEN,
        0 <= cross_term <= x_len * y_len * MAX_DIFFERENCE,
        0 <= x_term <= x_len * x_len * MAX_DIFFERENCE,
        0 <= y_term <= y_len * y_len * MAX_DIFFERENCE,
    ensures
        q@ == q_value(cross_term as int, x_term as int, y_term as int, x_len as int, y_len as int),
        q.wf(),
{
    if x_len < 1 || y_len < 1 {
        return Score::zero();
    }
    let x: i128 = x_len as i128;
    let y: i128 = y_len as i128;
    let x_div: i128 = if x_len >= 2 {
        x - 1
    } else {
        1
    };
    let y_div: i128 = if y_len >= 2 {
        y - 1
    } else {
        1
    };
    let x_pairs: i128 = if x_len >= 2 {
        x_term as i128
    } else {
        0
    };
    let y_pairs: i128 = if y_len >= 2 {
        y_term as i128
    } else {
        0
    };
    proof {
        let (xi, yi) = (x as int, y as int);
        let m = xi * yi;
        lemma_sides_product(xi, yi);
        assert(xi * yi * xi * yi == m * m) by (nonlinear_arith)
            requires
                m == xi * yi,
        ;
        assert(xi * xi * yi * yi == m * m) by (nonlinear_arith)
            requires
                m == xi * yi,
        ;
        assert(yi * yi * xi * xi == m * m) by (nonlinear_arith)
            requires
                m == xi * yi,
        ;
        lemma_product_bounds(cross_term as int, xi, yi, xi, yi, x_div as int, y_div as int, m);
        lemma_product_bounds(x_pairs as int, xi, xi, yi, yi, yi, y_div as int, m);
        lemma_product_bounds(y_pairs as int, yi, yi, xi, xi, xi, x_div as int, m);
        lemma_denominator_bounds(xi, yi, x_div as int, y_div as int);
    }
    let between: i128 = (cross_term as i128) * x_div * y_div;
    let within_x: i128 = x_pairs * y * y_div;
    let within_y: i128 = y_pairs * x * x_div;
    let numerator: i128 = 2 * (between - within_x - within_y);
    let denominator: i128 = (x + y) * x_div * y_div;
    Score::from_parts(numerator, denominator)
}

/// The product of the sizes of the two sides of a split is at most a quarter
/// of the square of the longest series.
proof fn lemma_sides_product(x: int, y: int)
    requires
        0 <= x,
        0 <= y,
        x + y <= MAX_SERIES_LEN,
    ensures
        0 <= x * y <= MAX_SIDES_PRODUCT,
{
    assert(0 <= x * y && 4 * (x * y) <= (x + y) * (x + y)) by (nonlinear_arith)
        requires
            0 <= x,
            0 <= y,
    ;
    assert((x + y) * (x + y) <= MAX_SERIES_LEN * MAX_SERIES_LEN) by (nonlinear_arith)
        requires
            0 <= x + y <= MAX_SERIES_LEN,
    ;
}

/// A sum over `a * b` pairs of distances, times two lengths `p <= c` and
/// `q <= d`, where `a * b * c * d` is the square of the product `m` of the
/// two sides: the result stays within a quarter of the largest numerator.
proof fn lemma_product_bounds(term: int, a: int, b: int, c: int, d: int, p: int, q: int, m: int)
    requires
        0 <= term <= a * b * MAX_DIFFERENCE,
        0 <= a <= MAX_SERIES_LEN,
        0 <= b <= MAX_SERIES_LEN,
        0 < p <= c <= MAX_SERIES_LEN,
        0 < q <= d,
        a * b * c * d == m * m,
        0 <= m <= MAX_SIDES_PRODUCT,
    ensures
        0 <= term * p <= 18889465927080534343680,
        0 <= term * p * q <= 19342813109330467167928320,
{
    let cap = a * b * MAX_DIFFERENCE;
    assert(0 <= a * b <= MAX_SERIES_LEN * MAX_SERIES_LEN) by (nonlinear_arith)
        requires
            0 <= a <= MAX_SERIES_LEN,
            0 <= b <= MAX_SERIES_LEN,
    ;
    assert(0 <= term * p <= cap * c && cap * c <= 18889465927080534343680) by (nonlinear_arith)
        requires
            0 <= term <= cap,
            0 < p <= c <= MAX_SERIES_LEN,
            cap <= MAX_TERM,
    ;
    assert(0 <= (term * p) * q <= (cap * c) * d) by (nonlinear_arith)
        requires
            0 <= term * p <= cap * c,
            0 < q <= d,
    ;
    assert((cap * c) * d == (a * b * c * d) * MAX_DIFFERENCE) by (nonlinear_arith)
        requires
            cap == a * b * MAX_DIFFERENCE,
    ;
    assert(m * m <= MAX_SIDES_PRODUCT * MAX_SIDES_PRODUCT) by (nonlinear_arith)
        requires
            0 <= m <= MAX_SIDES_PRODUCT,
    ;
}

/// The denominator of a score stays within its limit.
proof fn lemma_denominator_bounds(x: int, y: int, p: int, q: int)
    requires
        1 <= x,
        1 <= y,
        x + y <= MAX_SERIES_LEN,
        0 < p <= x,
        0 < q <= y,
    ensures
        0 < (x + y) * p <= MAX_SERIES_LEN * MAX_SERIES_LEN,
        0 < (x + y) * p * q <= 1099511627776,
        MAX_SERIES_LEN * MAX_SERIES_LEN == 268435456,
{
    lemma_sides_product(x, y);
    assert(0 < (x + y) * p <= MAX_SERIES_LEN * MAX_SERIES_LEN) by (nonlinear_arith)
        requires
            2 <= x + y <= MAX_SERIES_LEN,
            0 < p <= MAX_SERIES_LEN,
    ;
    assert(0 < p * q <= x * y) by (nonlinear_arith)
        requires
            0 < p <= x,
            0 < q <= y,
    ;
    assert(0 < (x + y) * (p * q) <= MAX_SERIES_LEN * MAX_SIDES_PRODUCT) by (nonlinear_arith)
        requires
            2 <= x + y <= MAX_SERIES_LEN,
            0 < p * q <= MAX_SIDES_PRODUCT,
    ;
    assert((x + y) * p * q == (x + y) * (p * q)) by (nonlinear_arith);
    assert(MAX_SERIES_LEN * MAX_SERIES_LEN == 268435456) by (nonlinear_arith);
}

/// Every rectangle of a distance block of at most [`MAX_SERIES_LEN`] rows
/// sums to something in `[0, MAX_TERM]`.
pub proof fn lemma_rect_within_limit(g: Seq<Seq<i64>>, r0: int, r1: int, c0: int, c1: int)
    requires
        is_distance_block(g),
        g.len() <= MAX_SERIES_LEN,
        0 <= r0 <= r1 <= g.len(),
        0 <= c0 <= c1 <= g.len(),
    ensures
        0 <= rect_sum(g, r0, r1, c0, c1) <= MAX_TERM,
{
    lemma_rect_sum_bounds(g, r0, r1, c0, c1, g.len() as int, MAX_DIFFERENCE as int);
    assert((r1 - r0) * (c1 - c0) * MAX_DIFFERENCE <= MAX_TERM) by (nonlinear_arith)
        requires
            0 <= r1 - r0 <= MAX_SERIES_LEN,
            0 <= c1 - c0 <= MAX_SERIES_LEN,
    {
        assert((r1 - r0) * (c1 - c0) <= MAX_SERIES_LEN * MAX_SERIES_LEN);
    }
}

/// Every triangle of a distance block of at most [`MAX_SERIES_LEN`] rows
/// sums to something in `[0, MAX_TERM]`.
pub proof fn lemma_upper_within_limit(g: Seq<Seq<i64>>, lo: int, hi: int)
    requires
        is_distance_block(g),
        g.len() <= MAX_SERIES_LEN,
        0 <= lo <= hi <= g.len(),
    ensures
        0 <= upper_sum(g, lo, hi) <= MAX_TERM,
{
    lemma_upper_sum_bounds(g, lo, hi, MAX_DIFFERENCE as int);
    assert((hi - lo) * (hi - lo) * MAX_DIFFERENCE <= MAX_TERM) by (nonlinear_arith)
        requires
            0 <= hi - lo <= MAX_SERIES_LEN,
    {
        assert((hi - lo) * (hi - lo) <= MAX_SERIES_LEN * MAX_SERIES_LEN);
    }
}

/// The part of row `r` from the diagonal to column `hi`, as a rectangle of
/// one row: with a zero on the diagonal it is the part right of the diagonal.
proof fn lemma_row_from_diagonal(g: Seq<Seq<i64>>, r: int, hi: int)
    requires
        is_distance_block(g),
        0 <= r < hi <= g.len(),
    ensures
        rect_sum(g, r, r + 1, r, hi) == row_sum(g[r], r + 1, hi),
{
    lemma_rect_one_row(g, r, r, hi);
    lemma_row_split(g[r], r, r + 1, hi);
    lemma_row_one_cell(g[r], r);
}

/// The scores of all splits of a segment, given the diagonal block of the
/// distance matrix that belongs to it: the score at position `t` is that of
/// the split before the segment's sample `t`. The three sums are carried
/// from one split to the next, and every score equals the one that direct
/// summation over the block gives.
pub fn qhat_values(diff_matrix: &MatrixView) -> (scores: Vec<Score>)
    requires
        is_distance_block(view_cells(*diff_matrix)),
        view_cells(*diff_matrix).len() <= MAX_SERIES_LEN,
    ensures
        scores.len() == view_cells(*diff_matrix).len(),
        forall|t: int|
            0 <= t < scores.len() ==> {
                &&& (#[trigger] scores[t])@ == split_score(
                    view_cells(*diff_matrix),
                    0,
                    scores.len() as int,
                    t,
                )
                &&& scores[t].wf()
            },
        scores.len() > 0 ==> scores[0]@.num == 0,
{
    let n: usize = row_count(diff_matrix);
    let ghost g = view_cells(*diff_matrix);
    assert(n > 0 ==> view_width(*diff_matrix) == n) by {
        if n > 0 {
            assert(g[0].len() == n);
        }
    }
    let mut y_term: i64 = 0;
    let mut row: usize = 0;
    while row < n
        invariant
            g == view_cells(*diff_matrix),
            is_distance_block(g),
            n == g.len(),
            n <= MAX_SERIES_LEN,
            n > 0 ==> view_width(*diff_matrix) == n,
            row <= n,
            y_term == upper_sum(g, 0, n as int) - upper_sum(g, row as int, n as int),
        decreases n - row,
    {
        proof {
            lemma_upper_peel_first(g, row as int, n as int);
            lemma_row_from_diagonal(g, row as int, n as int);
            lemma_upper_within_limit(g, 0, n as int);
            lemma_upper_within_limit(g, row as int, n as int);
            lemma_upper_within_limit(g, row + 1, n as int);
            lemma_rect_within_limit(g, row as int, row + 1, row as int, n as int);
        }
        y_term += sum_square(diff_matrix, row, row + 1, row, n);
        row += 1;
    }
    let mut cross_term: i64 = 0;
    let mut x_term: i64 = 0;
    let mut scores: Vec<Score> = Vec::new();
    let mut tau: usize = 0;
    while tau < n
        invariant
            g == view_cells(*diff_matrix),
            is_distance_block(g),
            n == g.len(),
            n <= MAX_SERIES_LEN,
            n > 0 ==> view_width(*diff_matrix) == n,
            tau <= n,
            cross_term == cross_sum(g, 0, n as int, tau as int),
            x_term == upper_sum(g, 0, tau as int),
            y_term == upper_sum(g, tau as int, n as int),
            scores.len() == tau,
            forall|t: int|
                0 <= t < tau ==> {
                    &&& (#[trigger] scores[t])@ == split_score(g, 0, n as int, t)
                    &&& scores[t].wf()
                },
        decreases n - tau,
    {
        proof {
            lemma_rect_sum_bounds(
                g,
                0,
                tau as int,
                tau as int,
                n as int,
                n as int,
                MAX_DIFFERENCE as int,
            );
            lemma_upper_sum_bounds(g, 0, tau as int, MAX_DIFFERENCE as int);
            lemma_upper_sum_bounds(g, tau as int, n as int, MAX_DIFFERENCE as int);
        }
        let q = calc_q(cross_term, x_term, y_term, tau, n - tau);
        proof {
            lemma_rect_within_limit(g, 0, tau as int, tau as int, tau + 1);
            lemma_rect_within_limit(g, tau as int, tau + 1, tau as int, n as int);
        }
        let column_delta: i64 = sum_square(diff_matrix, 0, tau, tau, tau + 1);
        let row_delta: i64 = sum_square(diff_matrix, tau, tau + 1, tau, n);
        proof {
            lemma_rect_split_cols(g, 0, tau as int, tau as int, tau + 1, n as int);
            lemma_rect_within_limit(g, 0, tau as int, tau + 1, n as int);
            lemma_row_from_diagonal(g, tau as int, n as int);
            lemma_upper_peel_first(g, tau as int, n as int);
            lemma_rect_within_limit(g, 0, tau + 1, tau + 1, n as int);
            lemma_upper_within_limit(g, 0, tau + 1);
            lemma_upper_within_limit(g, tau + 1, n as int);
            assert(rect_sum(g, 0, tau + 1, tau + 1, n as int) == rect_sum(
                g,
                0,
                tau as int,
                tau + 1,
                n as int,
            ) + row_sum(g[tau as int], tau + 1, n as int));
            assert(upper_sum(g, 0, tau + 1) == upper_sum(g, 0, tau as int) + rect_sum(
                g,
                0,
                tau as int,
                tau as int,
                tau + 1,
            ));
        }
        cross_term = cross_term - column_delta + row_delta;
        x_term += column_delta;
        y_term -= row_delta;
        scores.push(q);
        tau += 1;
    }
    scores
}

/// The distance matrix of a series of at most [`MAX_SERIES_LEN`] samples
/// has no more cells than an array can index.
pub proof fn lemma_series_fits(n: int)
    requires
        0 <= n <= MAX_SERIES_LEN,
    ensures
        n * n <= isize::MAX,
{
    assert(n * n <= MAX_SERIES_LEN * MAX_SERIES_LEN) by (nonlinear_arith)
        requires
            0 <= n <= MAX_SERIES_LEN,
    ;
}

/// The score of splitting a whole series before its sample `t`.
pub open spec fn series_score(series: Seq<i32>, t: int) -> Ratio {
    split_score(pairwise_differences(series), 0, series.len() as int, t)
}

/// The scores of all splits of a series, which must not be empty: the
/// score at position `t` is that of the split before the sample `t`.
pub fn get_qhat_values(series: &Vec<i32>) -> (outcome: Result<Vec<Score>, DetectError>)
    requires
        series.len() <= MAX_SERIES_LEN,
    ensures
        outcome is Err <==> series.len() == 0,
        outcome is Ok ==> {
            let scores = outcome.unwrap();
            &&& scores.len() == series.len()
            &&& forall|t: int|
                0 <= t < scores.len() ==> {
                    &&& (#[trigger] scores[t])@ == series_score(series@, t)
                    &&& scores[t].wf()
                }
        },
{
    proof {
        lemma_series_fits(series.len() as int);
    }
    match calc_diff_matrix(series) {
        Ok(diff_matrix) => {
            let whole = diff_matrix.view();
            proof {
                lemma_pairwise_differences(series@);
            }
            Ok(qhat_values(&whole))
        },
        Err(error) => Err(error),
    }
}

/// The quotient `num / divisor`, or 0 where the divisor is not positive.
pub open spec fn quotient_or_zero(num: int, divisor: int) -> Ratio {
    if divisor <= 0 {
        Ratio { num: 0, den: 1 }
    } else {
        Ratio { num: num, den: divisor }
    }
}

/// The score of a split into sides of `x` and `y` samples as it is defined:
/// `x*y/(x+y) * (2*cross/(x*y) - 2*xs/(x*(x-1)) - 2*ys/(y*(y-1)))`, where a
/// quotient whose divisor is not positive counts as 0.
pub open spec fn q_formula(cross: int, xs: int, ys: int, x: int, y: int) -> Ratio {
    let factor = Ratio { num: x * y, den: x + y };
    let between = quotient_or_zero(2 * cross, x * y);
    let within_x = quotient_or_zero(2 * xs, x * (x - 1));
    let within_y = quotient_or_zero(2 * ys, y * (y - 1));
    factor.times(between.minus(within_x).minus(within_y))
}

/// The fraction that [`q_value`] gives is the score as it is defined, with
/// the common factors of numerator and denominator cancelled.
pub proof fn lemma_q_value_is_formula(cross: int, xs: int, ys: int, x: int, y: int)
    requires
        0 <= x,
        0 <= y,
        0 < x + y,
    ensures
        0 < q_formula(cross, xs, ys, x, y).den,
        0 < q_value(cross, xs, ys, x, y).den,
        q_value(cross, xs, ys, x, y).same(q_formula(cross, xs, ys, x, y)),
{
    let f = q_formula(cross, xs, ys, x, y);
    let q = q_value(cross, xs, ys, x, y);
    let between = quotient_or_zero(2 * cross, x * y);
    let within_x = quotient_or_zero(2 * xs, x * (x - 1));
    let within_y = quotient_or_zero(2 * ys, y * (y - 1));
    let (nc, dc) = (between.num, between.den);
    let (nx, dx) = (within_x.num, within_x.den);
    let (ny, dy) = (within_y.num, within_y.den);
    assert(f.num == (x * y) * ((nc * dx - nx * dc) * dy - ny * (dc * dx)));
    assert(f.den == (x + y) * ((dc * dx) * dy));
    assert(0 < dc && 0 < dx && 0 < dy);
    assert(0 < (x + y) * ((dc * dx) * dy)) by (nonlinear_arith)
        requires
            0 < x + y,
            0 < dc,
            0 < dx,
            0 < dy,
    ;
    if x < 1 || y < 1 {
        assert(x * y == 0) by (nonlinear_arith)
            requires
                x == 0 || y == 0,
        ;
        assert(f.num == 0) by (nonlinear_arith)
            requires
                f.num == (x * y) * ((nc * dx - nx * dc) * dy - ny * (dc * dx)),
                x * y == 0,
        ;
        assert(q.num == 0);
        assert(q.num * f.den == f.num * q.den) by (nonlinear_arith)
            requires
                q.num == 0,
                f.num == 0,
        ;
    } else {
        let ex = pair_divisor(x);
        let ey = pair_divisor(y);
        let px = pair_term(xs, x);
        let py = pair_term(ys, y);
        let kx = if x >= 2 {
            x
        } else {
            1
        };
        let ky = if y >= 2 {
            y
        } else {
            1
        };
        assert(0 < x * y) by (nonlinear_arith)
            requires
                1 <= x,
                1 <= y,
        ;
        assert(x >= 2 ==> 0 < x * (x - 1)) by (nonlinear_arith);
        assert(y >= 2 ==> 0 < y * (y - 1)) by (nonlinear_arith);
        assert(x == 1 ==> x * (x - 1) == 0) by (nonlinear_arith);
        assert(y == 1 ==> y * (y - 1) == 0) by (nonlinear_arith);
        assert(dc == x * y && nc == 2 * cross);
        assert(dx == kx * ex && nx == 2 * px);
        assert(dy == ky * ey && ny == 2 * py);
        assert(kx * px == x * px && ky * py == y * py) by (nonlinear_arith)
            requires
                px == 0 || kx == x,
                py == 0 || ky == y,
        ;
        let k = (x * y) * kx * ky;
        assert(q.num == 2 * (cross * ex * ey - px * y * ey - py * x * ex));
        assert(q.den == (x + y) * ex * ey);
        let kk = kx * ky;
        let t1 = cross * ex * ey;
        let t2 = px * y * ey;
        let t3 = py * x * ex;
        assert((nc * dx) * dy == kk * (2 * t1)) by {
            lemma_regroup(2 * cross, kx, ex, ky, ey);
            assert(2 * t1 == (2 * cross) * ex * ey) by (nonlinear_arith)
                requires
                    t1 == cross * ex * ey,
            ;
        }
        assert((nx * dc) * dy == kk * (2 * t2)) by {
            // 2*px * (x*y) * (ky*ey) with x*px == kx*px
            assert(nx * dc == (2 * (kx * px)) * y) by (nonlinear_arith)
                requires
                    nx == 2 * px,
                    dc == x * y,
                    kx * px == x * px,
            ;
            assert(((2 * (kx * px)) * y) * (ky * ey) == (kx * ky) * (2 * (px * y * ey)))
                by (nonlinear_arith);
        }
        assert(ny * (dc * dx) == kk * (2 * t3)) by {
            assert(ny * dc == (2 * (ky * py)) * x) by (nonlinear_arith)
                requires
                    ny == 2 * py,
                    dc == x * y,
                    ky * py == y * py,
            ;
            assert(((2 * (ky * py)) * x) * (kx * ex) == (kx * ky) * (2 * (py * x * ex)))
                by (nonlinear_arith);
            assert(ny * (dc * dx) == (ny * dc) * dx) by (nonlinear_arith);
        }
        assert((nc * dx - nx * dc) * dy == (nc * dx) * dy - (nx * dc) * dy) by (nonlinear_arith);
        let inner = (nc * dx - nx * dc) * dy - ny * (dc * dx);
        assert(inner == kk * q.num) by (nonlinear_arith)
            requires
                inner == kk * (2 * t1) - kk * (2 * t2) - kk * (2 * t3),
                q.num == 2 * (t1 - t2 - t3),
        ;
        assert(f.num == k * q.num) by (nonlinear_arith)
            requires
                f.num == (x * y) * inner,
                inner == kk * q.num,
                k == (x * y) * kx * ky,
                kk == kx * ky,
        ;
        assert(f.den == k * q.den) by {
            lemma_regroup(x * y, kx, ex, ky, ey);
            assert(f.den == (x + y) * (kk * ((x * y) * ex * ey)));
            let m = x * y;
            let l = x + y;
            let e = ex * ey;
            assert(m * ex * ey == m * e) by (nonlinear_arith)
                requires
                    e == ex * ey,
            ;
            assert(l * ex * ey == l * e) by (nonlinear_arith)
                requires
                    e == ex * ey,
            ;
            assert(m * kx * ky == m * kk) by (nonlinear_arith)
                requires
                    kk == kx * ky,
            ;
            assert(l * (kk * (m * e)) == (m * kk) * (l * e)) by (nonlinear_arith);
        }
        assert(q.num * f.den == f.num * q.den) by (nonlinear_arith)
            requires
                f.num == k * q.num,
                f.den == k * q.den,
        ;
        assert(0 < q.den) by (nonlinear_arith)
            requires
                q.den == (x + y) * ex * ey,
                0 < x + y,
                0 < ex,
                0 < ey,
        ;
    }
}

/// `(n * (kx * ex)) * (ky * ey)` regrouped as `(kx * ky) * (n * ex * ey)`.
proof fn lemma_regroup(n: int, kx: int, ex: int, ky: int, ey: int)
    ensures
        (n * (kx * ex)) * (ky * ey) == (kx * ky) * (n * ex * ey),
{
    assert((n * (kx * ex)) * (ky * ey) == (kx * ky) * (n * ex * ey)) by (nonlinear_arith);
}

/// The scores at the two ends of a segment `a..b` that is not empty. The
/// split before the first sample always scores 0. The split before the last
/// sample scores 0 exactly where the distances from the last sample to the
/// others, added up and taken once for each of the others but one, come to
/// the sum of the distances among the others.
pub proof fn lemma_edge_scores(g: Seq<Seq<i64>>, a: int, b: int)
    requires
        a < b,
    ensures
        split_score(g, a, b, a).num == 0,
        split_score(g, a, b, b - 1).num == 0 <==> cross_sum(g, a, b, b - 1) * pair_divisor(
            b - 1 - a,
        ) == pair_term(upper_sum(g, a, b - 1), b - 1 - a),
{
    let x = b - 1 - a;
    let cross = cross_sum(g, a, b, b - 1);
    let xs = upper_sum(g, a, b - 1);
    if x >= 1 {
        assert(upper_sum(g, b - 1, b) == 0) by {
            assert(upper_sum(g, b - 1, b - 1) == 0);
            assert(rect_sum(g, b - 1, b - 1, b - 1, b) == 0);
        }
        let ex = pair_divisor(x);
        let px = pair_term(xs, x);
        assert(split_score(g, a, b, b - 1).num == 2 * (cross * ex - px)) by (nonlinear_arith)
            requires
                split_score(g, a, b, b - 1).num == 2 * (cross * ex * 1 - px * 1 * 1 - 0 * x * ex),
        ;
    } else {
        assert(cross == 0);
        assert(cross * pair_divisor(x) == 0) by (nonlinear_arith)
            requires
                cross == 0,
        ;
    }
}

} // verus!
