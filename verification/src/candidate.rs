//! The search for the best place to cut next.

use crate::limits::MAX_SERIES_LEN;
use crate::matrix_ops::{block, row_count, view_cells, view_width, MatrixView};
use crate::qhat::{is_distance_block, qhat_values, split_score};
use crate::score::{lemma_not_above_chain, lemma_not_above_then_below, Score};
use crate::segments::{
    bounds_segments, interior_cuts, is_best_position, is_cut, lemma_denominator_positive,
    lemma_find_segment, lemma_segment_of_position, lemma_split_score_of_sub_block,
    lemma_sub_block_is_distance_block, position_score,
};
use crate::util::{argmax, get_windows, lemma_windowing_of_interior_cuts};
use vstd::prelude::*;

verus! {

/// A place to cut a series, with the score of the cut.
#[derive(Clone, Copy, Debug)]
pub struct ChangePoint {
    pub index: usize,
    pub qhat: Score,
}

impl ChangePoint {
    /// The place and the score are the same.
    pub open spec fn same(self, other: ChangePoint) -> bool {
        self.index == other.index && self.qhat@.same(other.qhat@)
    }
}

impl PartialEq for ChangePoint {
    /// Whether the place and the score are the same.
    fn eq(&self, other: &ChangePoint) -> (yes: bool) {
        self.index == other.index && self.qhat.is_same(&other.qhat)
    }
}

impl vstd::std_specs::cmp::PartialEqSpecImpl for ChangePoint {
    open spec fn obeys_eq_spec() -> bool {
        true
    }

    open spec fn eq_spec(&self, other: &ChangePoint) -> bool {
        self.same(*other)
    }
}

/// The places of a list of change points.
pub open spec fn indices_of(change_points: Seq<ChangePoint>) -> Seq<usize> {
    Seq::new(change_points.len(), |i: int| change_points[i].index)
}

/// The places of a list of change points, in the order of the list.
pub fn cp_indexes(change_points: &Vec<ChangePoint>) -> (indexes: Vec<usize>)
    ensures
        indexes@ == indices_of(change_points@),
{
    let mut indexes: Vec<usize> = Vec::new();
    let mut i: usize = 0;
    while i < change_points.len()
        invariant
            i <= change_points.len(),
            indexes.len() == i,
            forall|j: int| 0 <= j < i ==> indexes[j] == change_points[j].index,
        decreases change_points.len() - i,
    {
        indexes.push(change_points[i].index);
        i += 1;
    }
    assert(indexes@ =~= indices_of(change_points@));
    indexes
}

/// The scores of a list of change points, in the order of the list.
fn cp_scores(change_points: &Vec<ChangePoint>) -> (scores: Vec<Score>)
    ensures
        scores.len() == change_points.len(),
        forall|j: int| 0 <= j < scores.len() ==> scores[j] == change_points[j].qhat,
{
    let mut scores: Vec<Score> = Vec::new();
    let mut i: usize = 0;
    while i < change_points.len()
        invariant
            i <= change_points.len(),
            scores.len() == i,
            forall|j: int| 0 <= j < i ==> scores[j] == change_points[j].qhat,
        decreases change_points.len() - i,
    {
        scores.push(change_points[i].qhat);
        i += 1;
    }
    scores
}

/// `found` is the best split of the segment between the boundaries `w[s]`
/// and `w[s + 1]`: it lies in the segment, carries the score of its place,
/// no split of the segment scores above it, and every split before it scores
/// below it.
spec fn is_segment_best(g: Seq<Seq<i64>>, w: Seq<usize>, s: int, found: ChangePoint) -> bool {
    let a = w[s] as int;
    let b = w[s + 1] as int;
    &&& a <= found.index < b
    &&& found.qhat@ == split_score(g, a, b, found.index as int)
    &&& forall|p: int| a <= p < b ==> !found.qhat@.below(#[trigger] split_score(g, a, b, p))
    &&& forall|p: int| a <= p < found.index ==> (#[trigger] split_score(g, a, b, p)).below(found.qhat@)
}

/// The best place for the next cut, given the distance matrix of a series
/// and the cuts made so far: every segment is searched, and of the positions
/// with the largest score the first one is returned, with its score.
pub fn get_best_change_point(
    diff_matrix: &MatrixView,
    known_change_points: &Vec<ChangePoint>,
) -> (best: ChangePoint)
    requires
        is_distance_block(view_cells(*diff_matrix)),
        0 < view_cells(*diff_matrix).len() <= MAX_SERIES_LEN,
        interior_cuts(indices_of(known_change_points@), view_cells(*diff_matrix).len() as int),
    ensures
        is_best_position(
            view_cells(*diff_matrix),
            indices_of(known_change_points@),
            best.index as int,
        ),
        best.qhat@ == position_score(
            view_cells(*diff_matrix),
            indices_of(known_change_points@),
            best.index as int,
        ),
        best.qhat.wf(),
{
    let series_len: usize = row_count(diff_matrix);
    let ghost g = view_cells(*diff_matrix);
    let ghost n = series_len as int;
    assert(view_width(*diff_matrix) == n) by {
        assert(g[0].len() == n);
    }
    let indexes = cp_indexes(known_change_points);
    let ghost cuts = indexes@;
    let boundaries = get_windows(&indexes, series_len);
    let ghost w = boundaries@;
    proof {
        lemma_windowing_of_interior_cuts(w, cuts, series_len as int);
        assert forall|i: int| 0 < i < w.len() - 1 implies is_cut(cuts, #[trigger] w[i] as int) by {
            assert(cuts.contains(w[i]));
        }
        assert(bounds_segments(w, cuts, n));
    }
    let mut change_points: Vec<ChangePoint> = Vec::new();
    let mut s: usize = 0;
    while s + 1 < boundaries.len()
        invariant
            g == view_cells(*diff_matrix),
            is_distance_block(g),
            n == g.len(),
            0 < n <= MAX_SERIES_LEN,
            view_width(*diff_matrix) == n,
            w == boundaries@,
            bounds_segments(w, cuts, n),
            s + 1 <= boundaries.len(),
            change_points.len() == s,
            forall|k: int|
                0 <= k < s ==> is_segment_best(g, w, k, #[trigger] change_points[k])
                    && change_points[k].qhat.wf(),
        decreases boundaries.len() - s,
    {
        let a: usize = boundaries[s];
        let b: usize = boundaries[s + 1];
        proof {
            assert(w[s as int] < w[s + 1]);
            if s + 1 < w.len() - 1 {
                assert(w[s + 1] < w[w.len() - 1]);
            }
            lemma_sub_block_is_distance_block(g, a as int, b as int);
        }
        let part = block(diff_matrix, a, b, a, b);
        let qhats = qhat_values(&part);
        let max_idx: usize = argmax(&qhats);
        let found = ChangePoint { index: max_idx + a, qhat: qhats[max_idx] };
        proof {
            assert forall|p: int| a <= p < b implies #[trigger] split_score(g, a as int, b as int, p)
                == qhats[p - a]@ by {
                lemma_split_score_of_sub_block(g, a as int, b as int, p - a);
            }
            assert(is_segment_best(g, w, s as int, found));
        }
        change_points.push(found);
        s += 1;
    }
    let scores = cp_scores(&change_points);
    let max_index: usize = argmax(&scores);
    let best = change_points[max_index];
    proof {
        let a = w[max_index as int] as int;
        let b = w[max_index + 1] as int;
        assert(is_segment_best(g, w, max_index as int, best));
        lemma_segment_of_position(w, cuts, n, max_index as int, best.index as int);
        assert(best.qhat@ == position_score(g, cuts, best.index as int));
        assert forall|p: int| 0 <= p < n implies !best.qhat@.below(
            #[trigger] position_score(g, cuts, p),
        ) && (p < best.index ==> position_score(g, cuts, p).below(best.qhat@)) by {
            let k = lemma_find_segment(w, cuts, n, p);
            lemma_segment_of_position(w, cuts, n, k, p);
            let here = change_points[k];
            let score = position_score(g, cuts, p);
            assert(is_segment_best(g, w, k, here));
            assert(score == split_score(g, w[k] as int, w[k + 1] as int, p));
            lemma_denominator_positive(p - w[k], w[k + 1] - p);
            assert(here.qhat == scores[k]);
            assert(!best.qhat@.below(scores[k]@));
            lemma_not_above_chain(score, here.qhat@, best.qhat@);
            if p < best.index {
                if k < max_index {
                    assert(scores[k]@.below(best.qhat@));
                    lemma_not_above_then_below(score, here.qhat@, best.qhat@);
                } else if k > max_index {
                    if k > max_index + 1 {
                        assert(w[max_index + 1] < w[k]);
                    }
                }
            }
        }
    }
    best
}

/// Whether a list of change points holds one with the same place and the
/// same score as `wanted`.
pub fn contains_change_point(change_points: &Vec<ChangePoint>, wanted: &ChangePoint) -> (yes: bool)
    ensures
        yes == exists|i: int| 0 <= i < change_points.len() && change_points[i].same(*wanted),
{
    let mut i: usize = 0;
    while i < change_points.len()
        invariant
            i <= change_points.len(),
            forall|j: int| 0 <= j < i ==> !change_points[j].same(*wanted),
        decreases change_points.len() - i,
    {
        if change_points[i] == *wanted {
            return true;
        }
        i += 1;
    }
    false
}

} // verus!
