//! The segments that a set of cuts divides a series into, and the score
//! that each position has inside its own segment.

use crate::limits::MAX_DIFFERENCE;
use crate::matrix_ops::{lemma_pairwise_differences, pairwise_differences};
use crate::qhat::{is_distance_block, q_denominator, q_numerator, split_score};
use crate::score::Ratio;
use crate::sums::{
    lemma_rect_sum_of_sub_block, lemma_upper_sum_of_sub_block, lemma_zero_grid_sums, sub_block,
};
use crate::util::strictly_ascending;
use vstd::prelude::*;

verus! {

/// `p` is one of the cuts.
pub open spec fn is_cut(cuts: Seq<usize>, p: int) -> bool {
    exists|i: int| 0 <= i < cuts.len() && cuts[i] == p
}

/// All cuts are different and lie strictly inside a series of `n` samples.
pub open spec fn interior_cuts(cuts: Seq<usize>, n: int) -> bool {
    &&& cuts.no_duplicates()
    &&& forall|i: int| 0 <= i < cuts.len() ==> 0 < #[trigger] cuts[i] < n
}

/// Where the segment that holds the sample `p` starts: at the last cut at
/// or before `p`, or at 0.
pub open spec fn seg_start(cuts: Seq<usize>, p: int) -> int
    decreases p,
{
    if p <= 0 || is_cut(cuts, p) {
        p
    } else {
        seg_start(cuts, p - 1)
    }
}

/// Where the segment that holds the sample `p` of a series of `n` samples
/// ends: at the first cut after `p`, or at `n`.
pub open spec fn seg_end(cuts: Seq<usize>, n: int, p: int) -> int
    decreases n - p,
{
    if p + 1 >= n || is_cut(cuts, p + 1) {
        p + 1
    } else {
        seg_end(cuts, n, p + 1)
    }
}

/// The score of splitting the segment that holds the sample `p` before
/// that sample, where `g` is the distance matrix of the whole series.
pub open spec fn position_score(g: Seq<Seq<i64>>, cuts: Seq<usize>, p: int) -> Ratio {
    split_score(g, seg_start(cuts, p), seg_end(cuts, g.len() as int, p), p)
}

/// `index` is the best place for the next cut: no position of the series
/// scores above it, and every position before it scores below it.
pub open spec fn is_best_position(g: Seq<Seq<i64>>, cuts: Seq<usize>, index: int) -> bool {
    &&& 0 <= index < g.len()
    &&& forall|p: int|
        0 <= p < g.len() ==> !position_score(g, cuts, index).below(
            #[trigger] position_score(g, cuts, p),
        )
    &&& forall|p: int|
        0 <= p < index ==> (#[trigger] position_score(g, cuts, p)).below(
            position_score(g, cuts, index),
        )
}

/// The denominator of every score is positive.
pub proof fn lemma_denominator_positive(x: int, y: int)
    ensures
        0 < q_denominator(x, y),
{
    if x >= 1 && y >= 1 {
        let p = if x >= 2 {
            x - 1
        } else {
            1
        };
        let q = if y >= 2 {
            y - 1
        } else {
            1
        };
        assert(0 < (x + y) * p * q) by (nonlinear_arith)
            requires
                0 < x + y,
                0 < p,
                0 < q,
        ;
    }
}

/// A diagonal block of a distance block is a distance block.
pub proof fn lemma_sub_block_is_distance_block(g: Seq<Seq<i64>>, a: int, b: int)
    requires
        is_distance_block(g),
        0 <= a <= b <= g.len(),
    ensures
        is_distance_block(sub_block(g, a, b, a, b)),
        sub_block(g, a, b, a, b).len() == b - a,
{
    let s = sub_block(g, a, b, a, b);
    assert forall|i: int| 0 <= i < s.len() implies (#[trigger] s[i]).len() == s.len() && s[i][i]
        == 0 by {
        assert(s[i] == g[a + i].subrange(a, b));
        assert(g[a + i][a + i] == 0);
    }
    assert forall|i: int, j: int| 0 <= i < s.len() && 0 <= j < s[i].len() implies 0
        <= #[trigger] s[i][j] <= MAX_DIFFERENCE by {
        assert(s[i] == g[a + i].subrange(a, b));
        assert(s[i][j] == g[a + i][a + j]);
    }
}

/// The score of a split inside a block that was cut out along the diagonal
/// is the score of the same split of the segment `a..b` in the matrix the
/// block was cut from.
pub proof fn lemma_split_score_of_sub_block(g: Seq<Seq<i64>>, a: int, b: int, t: int)
    requires
        is_distance_block(g),
        0 <= a <= b <= g.len(),
        0 <= t <= b - a,
    ensures
        split_score(sub_block(g, a, b, a, b), 0, b - a, t) == split_score(g, a, b, a + t),
{
    lemma_rect_sum_of_sub_block(g, a, b, a, b, 0, t, t, b - a);
    lemma_upper_sum_of_sub_block(g, a, b, 0, t);
    lemma_upper_sum_of_sub_block(g, a, b, t, b - a);
}

/// In a list that rises strictly, the item at place `i` is at least `i`
/// above the first.
pub proof fn lemma_strictly_ascending_grows(w: Seq<usize>, i: int)
    requires
        strictly_ascending(w),
        0 <= i < w.len(),
    ensures
        w[0] + i <= w[i],
    decreases i,
{
    if i > 0 {
        lemma_strictly_ascending_grows(w, i - 1);
        assert(w[i - 1] < w[i]);
    }
}

/// The boundaries `w` are those of the cuts `cuts` of a series of `n`
/// samples: they rise strictly from 0 to `n`, and those between the two ends
/// are exactly the cuts.
pub open spec fn bounds_segments(w: Seq<usize>, cuts: Seq<usize>, n: int) -> bool {
    &&& w.len() >= 2
    &&& w[0] == 0
    &&& w[w.len() - 1] == n
    &&& strictly_ascending(w)
    &&& forall|i: int| 0 < i < w.len() - 1 ==> is_cut(cuts, #[trigger] w[i] as int)
    &&& forall|i: int| 0 <= i < cuts.len() ==> w.contains(#[trigger] cuts[i])
}

/// Every sample between two neighbouring boundaries lies in the segment
/// that they bound.
pub proof fn lemma_segment_of_position(w: Seq<usize>, cuts: Seq<usize>, n: int, s: int, p: int)
    requires
        bounds_segments(w, cuts, n),
        0 <= s < w.len() - 1,
        w[s] <= p < w[s + 1],
    ensures
        seg_start(cuts, p) == w[s],
        seg_end(cuts, n, p) == w[s + 1],
{
    lemma_seg_start(w, cuts, n, s, p);
    lemma_seg_end(w, cuts, n, s, p);
}

/// No cut lies strictly between two neighbouring boundaries.
proof fn lemma_no_cut_inside(w: Seq<usize>, cuts: Seq<usize>, n: int, s: int, p: int)
    requires
        bounds_segments(w, cuts, n),
        0 <= s < w.len() - 1,
        w[s] < p < w[s + 1],
    ensures
        !is_cut(cuts, p),
{
    if is_cut(cuts, p) {
        let i = choose|i: int| 0 <= i < cuts.len() && cuts[i] == p;
        assert(w.contains(cuts[i]));
        let j = choose|j: int| 0 <= j < w.len() && w[j] == cuts[i];
        if j <= s {
            if j < s {
                assert(w[j] < w[s]);
            }
        } else {
            if j > s + 1 {
                assert(w[s + 1] < w[j]);
            }
        }
    }
}

proof fn lemma_seg_start(w: Seq<usize>, cuts: Seq<usize>, n: int, s: int, p: int)
    requires
        bounds_segments(w, cuts, n),
        0 <= s < w.len() - 1,
        w[s] <= p < w[s + 1],
    ensures
        seg_start(cuts, p) == w[s],
    decreases p - w[s],
{
    if p == w[s] {
        if s > 0 {
            assert(is_cut(cuts, w[s] as int));
        }
    } else {
        lemma_no_cut_inside(w, cuts, n, s, p);
        lemma_seg_start(w, cuts, n, s, p - 1);
    }
}

proof fn lemma_seg_end(w: Seq<usize>, cuts: Seq<usize>, n: int, s: int, p: int)
    requires
        bounds_segments(w, cuts, n),
        0 <= s < w.len() - 1,
        w[s] <= p < w[s + 1],
    ensures
        seg_end(cuts, n, p) == w[s + 1],
    decreases w[s + 1] - p,
{
    if p + 1 == w[s + 1] {
        if s + 1 < w.len() - 1 {
            assert(is_cut(cuts, w[s + 1] as int));
        }
    } else {
        lemma_no_cut_inside(w, cuts, n, s, p + 1);
        assert(w[s + 1] <= w[w.len() - 1]) by {
            if s + 1 < w.len() - 1 {
                assert(w[s + 1] < w[w.len() - 1]);
            }
        }
        lemma_seg_end(w, cuts, n, s, p + 1);
    }
}

/// Every sample of the series lies between two neighbouring boundaries.
pub proof fn lemma_find_segment(w: Seq<usize>, cuts: Seq<usize>, n: int, p: int) -> (s: int)
    requires
        bounds_segments(w, cuts, n),
        0 <= p < n,
    ensures
        0 <= s < w.len() - 1,
        w[s] <= p < w[s + 1],
{
    lemma_find_segment_from(w, n, p, 0)
}

proof fn lemma_find_segment_from(w: Seq<usize>, n: int, p: int, from: int) -> (s: int)
    requires
        w.len() >= 2,
        w[w.len() - 1] == n,
        0 <= from < w.len() - 1,
        w[from] <= p < n,
    ensures
        from <= s < w.len() - 1,
        w[s] <= p < w[s + 1],
    decreases w.len() - from,
{
    if p < w[from + 1] {
        from
    } else {
        lemma_find_segment_from(w, n, p, from + 1)
    }
}

/// All samples of the series are equal.
pub open spec fn is_constant(series: Seq<i32>) -> bool {
    forall|i: int, j: int| 0 <= i < series.len() && 0 <= j < series.len() ==> series[i] == series[j]
}

/// A position whose score is not negligible is no boundary of its segment:
/// it is neither the start of the series nor one of the cuts.
pub proof fn lemma_scoring_position_is_fresh(g: Seq<Seq<i64>>, cuts: Seq<usize>, index: int)
    requires
        !position_score(g, cuts, index).negligible(),
    ensures
        0 < index,
        !is_cut(cuts, index),
{
}

/// In a constant series every split of every segment scores 0.
pub proof fn lemma_constant_series_scores_zero(series: Seq<i32>, cuts: Seq<usize>, p: int)
    requires
        is_constant(series),
        0 <= p < series.len(),
    ensures
        position_score(pairwise_differences(series), cuts, p).num == 0,
        position_score(pairwise_differences(series), cuts, p).negligible(),
{
    let g = pairwise_differences(series);
    let n = series.len() as int;
    let a = seg_start(cuts, p);
    let b = seg_end(cuts, n, p);
    lemma_segment_within(cuts, n, p);
    assert forall|i: int, j: int| 0 <= i < g.len() && 0 <= j < g[i].len() implies #[trigger] g[i][j]
        == 0 by {
        assert(series[j] == series[i]);
    }
    lemma_pairwise_differences(series);
    lemma_zero_grid_sums(g, a, p, p, b, n);
    lemma_zero_grid_sums(g, a, p, a, p, n);
    lemma_zero_grid_sums(g, p, b, p, b, n);
    lemma_denominator_positive(p - a, b - p);
    let x = p - a;
    let y = b - p;
    let score = position_score(g, cuts, p);
    assert(score.num == 0) by (nonlinear_arith)
        requires
            score.num == q_numerator(0, 0, 0, x, y),
    ;
}

/// The segment that holds a sample lies inside the series.
pub proof fn lemma_segment_within(cuts: Seq<usize>, n: int, p: int)
    requires
        0 <= p < n,
    ensures
        0 <= seg_start(cuts, p) <= p < seg_end(cuts, n, p) <= n,
{
    lemma_seg_start_within(cuts, p);
    lemma_seg_end_within(cuts, n, p);
}

proof fn lemma_seg_start_within(cuts: Seq<usize>, p: int)
    requires
        0 <= p,
    ensures
        0 <= seg_start(cuts, p) <= p,
    decreases p,
{
    if !(p <= 0 || is_cut(cuts, p)) {
        lemma_seg_start_within(cuts, p - 1);
    }
}

proof fn lemma_seg_end_within(cuts: Seq<usize>, n: int, p: int)
    requires
        0 <= p < n,
    ensures
        p < seg_end(cuts, n, p) <= n,
    decreases n - p,
{
    if !(p + 1 >= n || is_cut(cuts, p + 1)) {
        lemma_seg_end_within(cuts, n, p + 1);
    }
}

} // verus!
