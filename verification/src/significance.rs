//! The decision of the permutation test: how often a shuffled series beat
//! the observed score, and whether that is rare enough.

use crate::score::{Ratio, Score, score_views};
use vstd::prelude::*;

verus! {

/// A probability in `(0, 1]`, as the exact fraction
/// `numerator / denominator`.
#[derive(Clone, Copy, Debug)]
pub struct Probability {
    numerator: u64,
    denominator: u64,
}

impl View for Probability {
    type V = Ratio;

    closed spec fn view(&self) -> Ratio {
        Ratio { num: self.numerator as int, den: self.denominator as int }
    }
}

impl Probability {
    /// The fraction lies in `(0, 1]` and both parts fit 64 bits.
    #[verifier::type_invariant]
    pub open spec fn wf(self) -> bool {
        0 < self@.num <= self@.den <= u64::MAX
    }

    /// The probability `numerator / denominator`, where that lies in
    /// `(0, 1]`.
    pub fn new(numerator: u64, denominator: u64) -> (made: Option<Probability>)
        ensures
            made is Some <==> 0 < numerator <= denominator,
            made is Some ==> made.unwrap()@ == (Ratio {
                num: numerator as int,
                den: denominator as int,
            }),
    {
        if 0 < numerator && numerator <= denominator {
            Some(Probability { numerator, denominator })
        } else {
            None
        }
    }

    /// The probability `numerator / denominator`.
    pub fn from_parts(numerator: u64, denominator: u64) -> (made: Probability)
        requires
            0 < numerator <= denominator,
        ensures
            made@ == (Ratio { num: numerator as int, den: denominator as int }),
    {
        Probability { numerator, denominator }
    }

    /// The numerator of the fraction.
    pub fn numerator(&self) -> (n: u64)
        ensures
            n == self@.num,
            self.wf(),
    {
        proof {
            use_type_invariant(self);
        }
        self.numerator
    }

    /// The denominator of the fraction.
    pub fn denominator(&self) -> (d: u64)
        ensures
            d == self@.den,
            self.wf(),
    {
        proof {
            use_type_invariant(self);
        }
        self.denominator
    }
}

/// The estimate of the p-value after `trials` trials of which `higher` beat
/// the observed score: `higher / (trials + 1)`.
pub open spec fn p_value(higher: int, trials: int) -> Ratio {
    Ratio { num: higher, den: trials + 1 }
}

/// Whether the estimate of the p-value is at most the threshold.
pub open spec fn accepts(higher: int, trials: int, threshold: Ratio) -> bool {
    !threshold.below(p_value(higher, trials))
}

/// How many of the statistics are strictly above the observed score.
pub open spec fn count_above(statistics: Seq<Ratio>, observed: Ratio) -> int
    decreases statistics.len(),
{
    if statistics.len() == 0 {
        0
    } else {
        count_above(statistics.drop_last(), observed) + if observed.below(statistics.last()) {
            1int
        } else {
            0int
        }
    }
}

/// Whether a score is significant, given the statistic of every trial: it
/// is not negligible, and the share of trials that beat it, counted against
/// one more than the number of trials, is at most the threshold.
pub open spec fn decision(observed: Ratio, statistics: Seq<Ratio>, threshold: Ratio) -> bool {
    &&& !observed.negligible()
    &&& accepts(count_above(statistics, observed), statistics.len() as int, threshold)
}

/// How many of the statistics are strictly above the observed score.
pub fn count_higher(statistics: &Vec<Score>, observed: &Score) -> (higher: usize)
    ensures
        higher == count_above(score_views(statistics@), observed@),
        higher <= statistics.len(),
{
    let mut higher: usize = 0;
    let mut i: usize = 0;
    assert(score_views(statistics@.subrange(0, 0)).len() == 0);
    while i < statistics.len()
        invariant
            i <= statistics.len(),
            higher <= i,
            higher == count_above(score_views(statistics@.subrange(0, i as int)), observed@),
        decreases statistics.len() - i,
    {
        proof {
            let longer = score_views(statistics@.subrange(0, i + 1));
            assert(longer.drop_last() =~= score_views(statistics@.subrange(0, i as int)));
            assert(longer.last() == statistics[i as int]@);
        }
        if observed.is_below(&statistics[i]) {
            higher += 1;
        }
        i += 1;
    }
    assert(statistics@.subrange(0, i as int) =~= statistics@);
    higher
}

/// Whether the estimate of the p-value, `higher / (trials + 1)`, is at most
/// the threshold.
pub fn p_value_accepts(higher: usize, trials: usize, threshold: &Probability) -> (yes: bool)
    ensures
        yes == accepts(higher as int, trials as int, threshold@),
{
    let num: u64 = threshold.numerator();
    let den: u64 = threshold.denominator();
    assert(higher * den <= usize::MAX * u64::MAX) by (nonlinear_arith)
        requires
            0 <= higher <= usize::MAX,
            0 <= den <= u64::MAX,
    ;
    assert(num * (trials + 1) <= u64::MAX * (usize::MAX + 1)) by (nonlinear_arith)
        requires
            0 <= trials <= usize::MAX,
            0 <= num <= u64::MAX,
    ;
    let left: u128 = (higher as u128) * (den as u128);
    let right: u128 = (num as u128) * (trials as u128 + 1);
    left <= right
}

/// Whether a score is significant, given the statistic of every trial.
pub fn significance(observed: &Score, statistics: &Vec<Score>, threshold: &Probability) -> (yes:
    bool)
    ensures
        yes == decision(observed@, score_views(statistics@), threshold@),
{
    if observed.is_negligible() {
        return false;
    }
    let higher: usize = count_higher(statistics, observed);
    p_value_accepts(higher, statistics.len(), threshold)
}

/// The step between two neighbouring estimates of the p-value after
/// `trials` trials: `1 / (trials + 1)`.
pub open spec fn resolution(trials: int) -> Ratio {
    Ratio { num: 1, den: trials + 1 }
}

/// More trials give a finer estimate, never a coarser one. After `fewer`
/// trials every estimate is a whole number of steps of `1 / (fewer + 1)`,
/// from 0 steps up to `fewer` steps, so it lies in `[0, 1)`; and the step
/// after `more` trials is strictly smaller.
pub proof fn lemma_more_trials_finer_estimate(fewer: int, more: int)
    requires
        0 <= fewer < more,
    ensures
        resolution(more).below(resolution(fewer)),
        forall|higher: int|
            0 <= higher <= fewer ==> #[trigger] p_value(higher, fewer) == (Ratio {
                num: higher * resolution(fewer).num,
                den: resolution(fewer).den,
            }),
        forall|higher: int|
            0 <= higher <= fewer ==> (#[trigger] p_value(higher, fewer)).below(
                Ratio { num: 1, den: 1 },
            ) && !p_value(higher, fewer).below(Ratio { num: 0, den: 1 }),
{
}

} // verus!
