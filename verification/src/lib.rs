//! Change points of a series of samples, found by repeated splitting: the
//! best place to cut is searched in every segment, and the best of all is
//! accepted where a permutation test finds it significant.
//!
//! Samples are whole numbers, and every score is kept as an exact
//! fraction, so that two scores always compare as their true values do.
//! The steps of the search are public each on its own: a caller that wants
//! to shuffle by a generator of its own, or to run the trials side by side,
//! can put them together anew.

pub mod candidate;
pub mod error;
pub mod limits;
pub mod matrix_ops;
pub mod permutation;
pub mod qhat;
pub mod score;
pub mod segments;
pub mod significance;
pub mod sums;
pub mod util;

use crate::candidate::{
    contains_change_point, cp_indexes, get_best_change_point, indices_of, ChangePoint,
};
use crate::error::DetectError;
use crate::limits::MAX_SERIES_LEN;
use crate::matrix_ops::{
    calc_diff_matrix, lemma_pairwise_differences, pairwise_differences, view_cells,
};
use crate::permutation::{is_test_run, permutation_statistics, windows_fit};
use crate::qhat::{is_distance_block, lemma_series_fits};
use crate::score::{score_views, Ratio};
use crate::segments::{
    interior_cuts, is_best_position, is_constant, lemma_constant_series_scores_zero,
    lemma_scoring_position_is_fresh, lemma_strictly_ascending_grows, position_score,
};
use crate::significance::{count_above, decision, significance, Probability};
use crate::util::{get_windows, is_windowing, lemma_windowing_of_interior_cuts};
use vstd::prelude::*;

verus! {

/// The permutation test of a score can come out as `verdict` while the
/// series is cut at `cuts`: there are boundaries for these cuts and
/// statistics of as many trials as the test runs, each for some way to
/// shuffle every segment, with which the decision is `verdict`.
pub open spec fn can_test_as(
    series: Seq<i32>,
    cuts: Seq<usize>,
    score: Ratio,
    trials: int,
    threshold: Ratio,
    verdict: bool,
) -> bool {
    exists|windows: Seq<usize>, statistics: Seq<Ratio>|
        {
            &&& #[trigger] is_test_run(series, windows, statistics, trials)
            &&& is_windowing(windows, cuts, series.len() as int)
            &&& verdict == decision(score, statistics, threshold)
        }
}

/// Every cut of the list was, when it was made, the best place for the next
/// cut given the cuts before it, and it passed the permutation test.
pub open spec fn is_greedy_chain(
    series: Seq<i32>,
    cuts: Seq<usize>,
    trials: int,
    threshold: Ratio,
) -> bool {
    forall|k: int|
        0 <= k < cuts.len() ==> {
            &&& is_best_position(
                pairwise_differences(series),
                cuts.subrange(0, k),
                #[trigger] cuts[k] as int,
            )
            &&& can_test_as(
                series,
                cuts.subrange(0, k),
                position_score(pairwise_differences(series), cuts.subrange(0, k), cuts[k] as int),
                trials,
                threshold,
                true,
            )
        }
}

/// The search ended for a reason: the best place for one more cut has a
/// negligible score, or it failed the permutation test.
pub open spec fn is_final(series: Seq<i32>, cuts: Seq<usize>, trials: int, threshold: Ratio) -> bool {
    exists|index: int|
        {
            &&& #[trigger] is_best_position(pairwise_differences(series), cuts, index)
            &&& {
                ||| position_score(pairwise_differences(series), cuts, index).negligible()
                ||| can_test_as(
                    series,
                    cuts,
                    position_score(pairwise_differences(series), cuts, index),
                    trials,
                    threshold,
                    false,
                )
            }
        }
}

/// No further cut can be made: the best place for one more cut has a
/// negligible score.
pub open spec fn is_exhausted(series: Seq<i32>, cuts: Seq<usize>) -> bool {
    exists|index: int|
        {
            &&& #[trigger] is_best_position(pairwise_differences(series), cuts, index)
            &&& position_score(pairwise_differences(series), cuts, index).negligible()
        }
}

/// The detector: a significance threshold and the number of trials of the
/// permutation test.
pub struct EDivisive {
    pvalue: Probability,
    n_permutations: usize,
}

impl EDivisive {
    /// The significance threshold.
    pub closed spec fn threshold(self) -> Ratio {
        self.pvalue@
    }

    /// The number of trials of the permutation test.
    pub closed spec fn trials(self) -> int {
        self.n_permutations as int
    }

    /// A detector with the threshold 1/100 and 100 trials.
    pub fn default() -> (detector: EDivisive)
        ensures
            detector.threshold() == (Ratio { num: 1, den: 100 }),
            detector.trials() == 100,
    {
        EDivisive { pvalue: Probability::from_parts(1, 100), n_permutations: 100 }
    }

    /// A detector with the given threshold and number of trials.
    pub fn new(pvalue: Probability, n_permutations: usize) -> (detector: EDivisive)
        ensures
            detector.threshold() == pvalue@,
            detector.trials() == n_permutations,
    {
        EDivisive { pvalue, n_permutations }
    }

    /// The significance threshold.
    pub fn pvalue(&self) -> (pvalue: Probability)
        ensures
            pvalue@ == self.threshold(),
    {
        self.pvalue
    }

    /// The number of trials of the permutation test.
    pub fn n_permutations(&self) -> (trials: usize)
        ensures
            trials == self.trials(),
    {
        self.n_permutations
    }

    /// Whether a candidate is significant. A candidate with a negligible
    /// score is not, and no trial is run for it. Otherwise the trials are
    /// run, each on the series shuffled inside its segments, and the
    /// candidate is significant where few enough of them beat its score.
    pub fn is_significant(
        &self,
        candidate: &ChangePoint,
        series: &Vec<i32>,
        windows: &Vec<usize>,
    ) -> (yes: bool)
        requires
            series.len() <= MAX_SERIES_LEN,
            windows_fit(windows@, series.len() as int),
        ensures
            candidate.qhat@.negligible() ==> !yes,
            !candidate.qhat@.negligible() ==> exists|statistics: Seq<Ratio>|
                {
                    &&& #[trigger] is_test_run(series@, windows@, statistics, self.trials())
                    &&& yes == decision(candidate.qhat@, statistics, self.threshold())
                },
    {
        if candidate.qhat.is_negligible() {
            return false;
        }
        let statistics = permutation_statistics(series, windows, self.n_permutations);
        let yes = significance(&candidate.qhat, &statistics, &self.pvalue);
        assert(is_test_run(series@, windows@, score_views(statistics@), self.trials()));
        yes
    }

    /// The change points of a series, in the order in which they were
    /// accepted. An empty series is refused.
    ///
    /// The best place for the next cut is searched and tested again and
    /// again. A cut that passes the test is accepted, and the search goes on
    /// with the series cut there too; the first that fails ends it. So every
    /// change point lies strictly inside the series, none occurs twice, and
    /// each was the best place to cut given those before it and passed the
    /// test. A constant series has none. Where the test runs no trial, it
    /// passes every score that is not negligible, and the search ends only
    /// when no such score is left.
    pub fn get_change_points(&self, series: &Vec<i32>) -> (found: Result<Vec<usize>, DetectError>)
        requires
            series.len() <= MAX_SERIES_LEN,
        ensures
            found is Err <==> series.len() == 0,
            found is Err ==> found == Err::<Vec<usize>, DetectError>(DetectError::InvalidInput),
            found is Ok ==> interior_cuts(found.unwrap()@, series.len() as int),
            found is Ok ==> is_greedy_chain(
                series@,
                found.unwrap()@,
                self.trials(),
                self.threshold(),
            ),
            found is Ok ==> is_final(series@, found.unwrap()@, self.trials(), self.threshold()),
            found is Ok && is_constant(series@) ==> found.unwrap().len() == 0,
            found is Ok && self.trials() == 0 ==> is_exhausted(series@, found.unwrap()@),
    {
        proof {
            lemma_series_fits(series.len() as int);
        }
        let diff_matrix = match calc_diff_matrix(series) {
            Ok(diff_matrix) => diff_matrix,
            Err(error) => {
                return Err(error);
            },
        };
        let whole = diff_matrix.view();
        let n: usize = series.len();
        let threshold: Probability = self.pvalue;
        let ghost g = pairwise_differences(series@);
        proof {
            use_type_invariant(&threshold);
            lemma_pairwise_differences(series@);
        }
        let mut change_points: Vec<ChangePoint> = Vec::new();
        assert(indices_of(change_points@) =~= Seq::<usize>::empty());
        let mut best_candidate = get_best_change_point(&whole, &change_points);
        let mut windows = get_windows(&cp_indexes(&change_points), n);
        loop
            invariant
                n == series.len(),
                0 < n <= MAX_SERIES_LEN,
                g == pairwise_differences(series@),
                g == view_cells(whole),
                is_distance_block(g),
                g.len() == n,
                0 < self.threshold().num,
                change_points.len() < n,
                interior_cuts(indices_of(change_points@), n as int),
                is_greedy_chain(
                    series@,
                    indices_of(change_points@),
                    self.trials(),
                    self.threshold(),
                ),
                is_windowing(windows@, indices_of(change_points@), n as int),
                is_best_position(g, indices_of(change_points@), best_candidate.index as int),
                best_candidate.qhat@ == position_score(
                    g,
                    indices_of(change_points@),
                    best_candidate.index as int,
                ),
                is_constant(series@) ==> change_points.len() == 0,
            ensures
                is_final(series@, indices_of(change_points@), self.trials(), self.threshold()),
                self.trials() == 0 ==> is_exhausted(series@, indices_of(change_points@)),
            decreases n - change_points.len(),
        {
            let ghost cuts = indices_of(change_points@);
            let ghost score = best_candidate.qhat@;
            proof {
                lemma_windowing_of_interior_cuts(windows@, cuts, n as int);
            }
            let significant = self.is_significant(&best_candidate, series, &windows);
            proof {
                if !score.negligible() {
                    let statistics = choose|statistics: Seq<Ratio>|
                        {
                            &&& #[trigger] is_test_run(
                                series@,
                                windows@,
                                statistics,
                                self.trials(),
                            )
                            &&& significant == decision(score, statistics, self.threshold())
                        };
                    assert(is_test_run(series@, windows@, statistics, self.trials()));
                    assert(can_test_as(
                        series@,
                        cuts,
                        score,
                        self.trials(),
                        self.threshold(),
                        significant,
                    ));
                    if self.trials() == 0 {
                        assert(count_above(statistics, score) == 0);
                        assert(significant);
                    }
                }
            }
            if !significant {
                break ;
            }
            proof {
                if is_constant(series@) {
                    lemma_constant_series_scores_zero(series@, cuts, best_candidate.index as int);
                }
                lemma_scoring_position_is_fresh(g, cuts, best_candidate.index as int);
            }
            // A candidate that passed the test lies strictly inside its
            // segment, so it is none of the accepted change points and the
            // guard below never fires. It stays as a second safeguard of
            // termination.
            let duplicate = contains_change_point(&change_points, &best_candidate);
            proof {
                if duplicate {
                    let i = choose|i: int|
                        0 <= i < change_points.len() && change_points[i].same(best_candidate);
                    assert(cuts[i] == best_candidate.index);
                }
            }
            if duplicate {
                break ;
            }
            change_points.push(best_candidate);
            proof {
                let longer = indices_of(change_points@);
                assert(longer =~= cuts.push(best_candidate.index));
                assert forall|k: int| 0 <= k < longer.len() implies {
                    &&& is_best_position(g, longer.subrange(0, k), #[trigger] longer[k] as int)
                    &&& can_test_as(
                        series@,
                        longer.subrange(0, k),
                        position_score(g, longer.subrange(0, k), longer[k] as int),
                        self.trials(),
                        self.threshold(),
                        true,
                    )
                } by {
                    if k < cuts.len() {
                        assert(longer.subrange(0, k) =~= cuts.subrange(0, k));
                        assert(longer[k] == cuts[k]);
                    } else {
                        assert(longer.subrange(0, k) =~= cuts);
                    }
                }
            }
            windows = get_windows(&cp_indexes(&change_points), n);
            proof {
                let longer = indices_of(change_points@);
                lemma_windowing_of_interior_cuts(windows@, longer, n as int);
                lemma_strictly_ascending_grows(windows@, windows@.len() - 1);
            }
            best_candidate = get_best_change_point(&whole, &change_points);
        }
        Ok(cp_indexes(&change_points))
    }
}

} // verus!
