//! One trial of the permutation test: the series is shuffled inside each
//! of its segments, and the largest score of any split is taken.

use crate::limits::MAX_SERIES_LEN;
use crate::qhat::{get_qhat_values, series_score};
use crate::score::{max_ratio, score_views, Ratio, Score};
use crate::util::{ascending, maximum};
use rand::seq::SliceRandom;
use vstd::prelude::*;

verus! {

/// The thread's random number generator of `rand`.
#[verifier::external_type_specification]
#[verifier::external_body]
pub struct ExThreadRng(rand::rngs::ThreadRng);

/// `rand::thread_rng` hands out the generator of the calling thread. Nothing
/// is claimed of it.
pub assume_specification[ rand::thread_rng ]() -> (rng: rand::rngs::ThreadRng);

/// Calls `SliceRandom::shuffle` on the samples. It only swaps items: the
/// list is claimed to hold the same samples afterwards, each as often as
/// before, in an order that nothing is claimed of.
#[verifier::external_body]
fn shuffle_samples(samples: &mut Vec<i32>, rng: &mut rand::rngs::ThreadRng)
    ensures
        final(samples)@.to_multiset() == old(samples)@.to_multiset(),
{
    samples.shuffle(rng);
}

/// The samples that each list of a list of lists holds.
pub open spec fn segment_views(segments: Seq<Vec<i32>>) -> Seq<Seq<i32>> {
    Seq::new(segments.len(), |k: int| segments[k]@)
}

/// The number of segments that a list of boundaries bounds.
pub open spec fn segment_count(windows: Seq<usize>) -> int {
    if windows.len() == 0 {
        0
    } else {
        windows.len() - 1
    }
}

/// `segments` holds, for every two neighbouring boundaries, the samples of
/// the series between them, in some order.
pub open spec fn is_shuffle_of(segments: Seq<Seq<i32>>, series: Seq<i32>, windows: Seq<usize>) -> bool {
    &&& segments.len() == segment_count(windows)
    &&& forall|k: int|
        0 <= k < segments.len() ==> (#[trigger] segments[k]).to_multiset() == series.subrange(
            windows[k] as int,
            windows[k + 1] as int,
        ).to_multiset()
}

/// The largest score of any split of a segment, or 0 for an empty segment.
pub open spec fn segment_statistic(segment: Seq<i32>) -> Ratio {
    max_ratio(Seq::new(segment.len(), |t: int| series_score(segment, t)))
}

/// The statistic of one trial: the largest of the statistics of its
/// segments.
pub open spec fn trial_statistic(segments: Seq<Seq<i32>>) -> Ratio {
    max_ratio(Seq::new(segments.len(), |k: int| segment_statistic(segments[k])))
}

/// `statistic` is what a trial gives for some way to shuffle every segment
/// of the series.
pub open spec fn is_trial_outcome(statistic: Ratio, series: Seq<i32>, windows: Seq<usize>) -> bool {
    exists|segments: Seq<Seq<i32>>|
        is_shuffle_of(segments, series, windows) && statistic == trial_statistic(segments)
}

/// The boundaries rise and none of them lies behind the end of the series.
pub open spec fn windows_fit(windows: Seq<usize>, series_len: int) -> bool {
    &&& ascending(windows)
    &&& windows.len() > 0 ==> windows[windows.len() - 1] <= series_len
}

/// The samples `from..to` of a series.
fn copy_range(series: &Vec<i32>, from: usize, to: usize) -> (copy: Vec<i32>)
    requires
        from <= to <= series.len(),
    ensures
        copy@ == series@.subrange(from as int, to as int),
{
    let mut copy: Vec<i32> = Vec::new();
    let mut i: usize = from;
    while i < to
        invariant
            from <= i <= to <= series.len(),
            copy@ == series@.subrange(from as int, i as int),
        decreases to - i,
    {
        copy.push(series[i]);
        assert(copy@ =~= series@.subrange(from as int, i + 1));
        i += 1;
    }
    copy
}

/// The segments of a series, each shuffled on its own.
fn shuffled_segments(series: &Vec<i32>, windows: &Vec<usize>) -> (segments: Vec<Vec<i32>>)
    requires
        windows_fit(windows@, series.len() as int),
    ensures
        is_shuffle_of(segment_views(segments@), series@, windows@),
        forall|k: int| 0 <= k < segments.len() ==> (#[trigger] segments[k]).len() <= series.len(),
{
    let mut rng = rand::thread_rng();
    let mut segments: Vec<Vec<i32>> = Vec::new();
    let mut k: usize = 0;
    while k + 1 < windows.len()
        invariant
            windows_fit(windows@, series.len() as int),
            segments.len() == k,
            windows.len() > 0 ==> k + 1 <= windows.len(),
            windows.len() == 0 ==> k == 0,
            forall|j: int|
                0 <= j < k ==> (#[trigger] segments[j])@.to_multiset() == series@.subrange(
                    windows[j] as int,
                    windows[j + 1] as int,
                ).to_multiset(),
            forall|j: int| 0 <= j < k ==> (#[trigger] segments[j]).len() <= series.len(),
        decreases windows.len() - k,
    {
        let a: usize = windows[k];
        let b: usize = windows[k + 1];
        proof {
            assert(windows[k as int] <= windows[k + 1]);
            if k + 1 < windows.len() - 1 {
                assert(windows[k + 1] <= windows[windows.len() - 1]);
            }
        }
        let mut window = copy_range(series, a, b);
        shuffle_samples(&mut window, &mut rng);
        proof {
            vstd::seq_lib::to_multiset_len(window@);
            vstd::seq_lib::to_multiset_len(series@.subrange(a as int, b as int));
        }
        segments.push(window);
        k += 1;
    }
    proof {
        let views = segment_views(segments@);
        assert forall|j: int| 0 <= j < views.len() implies (#[trigger] views[j]).to_multiset()
            == series@.subrange(windows[j] as int, windows[j + 1] as int).to_multiset() by {
            assert(views[j] == segments[j]@);
        }
    }
    segments
}

/// The statistic of one trial, given the shuffled segments: the largest
/// score of any split of any segment.
pub fn trial_statistic_of(segments: &Vec<Vec<i32>>) -> (statistic: Score)
    requires
        forall|k: int| 0 <= k < segments.len() ==> (#[trigger] segments[k]).len() <= MAX_SERIES_LEN,
    ensures
        statistic@ == trial_statistic(segment_views(segments@)),
        statistic.wf(),
{
    let mut permuted_qhat_values: Vec<Score> = Vec::new();
    let mut k: usize = 0;
    while k < segments.len()
        invariant
            k <= segments.len(),
            permuted_qhat_values.len() == k,
            forall|k: int|
                0 <= k < segments.len() ==> (#[trigger] segments[k]).len() <= MAX_SERIES_LEN,
            forall|j: int|
                0 <= j < k ==> (#[trigger] permuted_qhat_values[j])@ == segment_statistic(
                    segments[j]@,
                ),
        decreases segments.len() - k,
    {
        let max_qhat: Score = match get_qhat_values(&segments[k]) {
            Ok(q_list) => {
                assert(score_views(q_list@) =~= Seq::new(
                    segments[k as int]@.len(),
                    |t: int| series_score(segments[k as int]@, t),
                ));
                let (_, max_qhat) = maximum(&q_list);
                max_qhat
            },
            Err(_) => {
                assert(Seq::new(
                    segments[k as int]@.len(),
                    |t: int| series_score(segments[k as int]@, t),
                ).len() == 0);
                Score::zero()
            },
        };
        permuted_qhat_values.push(max_qhat);
        k += 1;
    }
    assert(score_views(permuted_qhat_values@) =~= Seq::new(
        segment_views(segments@).len(),
        |k: int| segment_statistic(segment_views(segments@)[k]),
    ));
    let (_, max_value) = maximum(&permuted_qhat_values);
    max_value
}

/// The statistic of one trial of the permutation test: every segment of the
/// series is shuffled on its own, and the largest score of any split of any
/// shuffled segment is returned.
pub fn permutation_test(series: &Vec<i32>, windows: &Vec<usize>) -> (statistic: Score)
    requires
        series.len() <= MAX_SERIES_LEN,
        windows_fit(windows@, series.len() as int),
    ensures
        is_trial_outcome(statistic@, series@, windows@),
        statistic.wf(),
{
    let segments = shuffled_segments(series, windows);
    trial_statistic_of(&segments)
}

/// `statistics` holds what `trials` trials of the permutation test give,
/// each for some way to shuffle every segment of the series.
pub open spec fn is_test_run(
    series: Seq<i32>,
    windows: Seq<usize>,
    statistics: Seq<Ratio>,
    trials: int,
) -> bool {
    &&& statistics.len() == trials
    &&& forall|i: int|
        0 <= i < statistics.len() ==> is_trial_outcome(#[trigger] statistics[i], series, windows)
}

/// The statistics of a number of trials of the permutation test.
pub fn permutation_statistics(series: &Vec<i32>, windows: &Vec<usize>, trials: usize) -> (statistics:
    Vec<Score>)
    requires
        series.len() <= MAX_SERIES_LEN,
        windows_fit(windows@, series.len() as int),
    ensures
        is_test_run(series@, windows@, score_views(statistics@), trials as int),
{
    let mut statistics: Vec<Score> = Vec::new();
    let mut i: usize = 0;
    while i < trials
        invariant
            series.len() <= MAX_SERIES_LEN,
            windows_fit(windows@, series.len() as int),
            i <= trials,
            statistics.len() == i,
            forall|j: int|
                0 <= j < i ==> is_trial_outcome((#[trigger] statistics[j])@, series@, windows@),
        decreases trials - i,
    {
        let statistic = permutation_test(series, windows);
        statistics.push(statistic);
        i += 1;
    }
    proof {
        let views = score_views(statistics@);
        assert forall|i: int| 0 <= i < views.len() implies is_trial_outcome(
            #[trigger] views[i],
            series@,
            windows@,
        ) by {
            assert(views[i] == statistics[i]@);
        }
    }
    statistics
}

} // verus!
