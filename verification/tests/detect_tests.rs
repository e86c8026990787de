use edivisive::error::DetectError;
use edivisive::matrix_ops::calc_diff_matrix;
use edivisive::qhat::get_qhat_values;
use edivisive::score::Score;
use edivisive::significance::Probability;
use edivisive::util::get_windows;
use edivisive::candidate::{
    contains_change_point, cp_indexes, get_best_change_point, ChangePoint,
};
use edivisive::permutation::{permutation_statistics, permutation_test, trial_statistic_of};
use edivisive::EDivisive;

fn step_series() -> Vec<i32> {
    vec![1, 1, 1, 1, 2, 2, 2, 2, 2, 3, 3, 3]
}

fn value(score: &Score) -> (i128, i128) {
    (score.numerator(), score.denominator())
}

fn point(index: usize, numerator: i128, denominator: i128) -> ChangePoint {
    ChangePoint { index, qhat: Score::new(numerator, denominator).unwrap() }
}

fn assert_inside_and_distinct(found: &Vec<usize>, n: usize) {
    for (i, index) in found.iter().enumerate() {
        assert!(1 <= *index && *index <= n - 1);
        assert!(!found[..i].contains(index));
    }
}

#[test]
fn three_levels_are_cut_at_both_steps() {
    let detector = EDivisive::new(Probability::new(1, 100).unwrap(), 100);
    let found = detector.get_change_points(&step_series()).unwrap();
    assert_eq!(found, vec![4, 9]);
}

#[test]
fn default_detector_finds_the_step() {
    let detector = EDivisive::default();
    assert_eq!(detector.n_permutations(), 100);
    assert_eq!((detector.pvalue().numerator(), detector.pvalue().denominator()), (1, 100));
    let series = vec![0, 0, 0, 0, 0, 1, 1, 1, 1, 1];
    let found = detector.get_change_points(&series).unwrap();
    assert_eq!(found, vec![5]);
}

#[test]
fn constant_series_has_no_change_point() {
    for (numerator, trials) in [(1u64, 100usize), (100, 0), (50, 7)] {
        let detector = EDivisive::new(Probability::new(numerator, 100).unwrap(), trials);
        assert_eq!(detector.get_change_points(&vec![7; 30]).unwrap(), Vec::<usize>::new());
        assert_eq!(detector.get_change_points(&vec![-3]).unwrap(), Vec::<usize>::new());
    }
}

#[test]
fn empty_series_is_refused() {
    let detector = EDivisive::default();
    assert_eq!(detector.get_change_points(&vec![]), Err(DetectError::InvalidInput));
}

#[test]
fn change_points_lie_inside_and_are_distinct() {
    let mut state: u64 = 99;
    for length in 1..40usize {
        let series: Vec<i32> = (0..length)
            .map(|i| {
                state = state.wrapping_mul(6364136223846793005).wrapping_add(1442695040888963407);
                (state >> 60) as i32 + if i > length / 2 { 40 } else { 0 }
            })
            .collect();
        for trials in [0usize, 20] {
            let detector = EDivisive::new(Probability::new(1, 20).unwrap(), trials);
            let found = detector.get_change_points(&series).unwrap();
            assert_inside_and_distinct(&found, length);
        }
    }
}

#[test]
fn without_trials_every_scoring_cut_is_made() {
    let detector = EDivisive::new(Probability::new(1, 100).unwrap(), 0);
    let series = vec![0, 0, 5, 5];
    let found = detector.get_change_points(&series).unwrap();
    assert_eq!(found, vec![2]);

    let found = detector.get_change_points(&step_series()).unwrap();
    assert_eq!(found, vec![4, 9]);

    // Each sample differs from the next: cuts go on until every segment
    // holds one sample.
    let series = vec![0, 10, 30, 70];
    let mut found = detector.get_change_points(&series).unwrap();
    assert_inside_and_distinct(&found, 4);
    found.sort();
    assert_eq!(found, vec![1, 2, 3]);
}

#[test]
fn two_runs_agree_on_a_strong_signal() {
    let mut series = vec![0; 20];
    series.extend(vec![1000; 20]);
    let detector = EDivisive::default();
    let first = detector.get_change_points(&series).unwrap();
    let second = detector.get_change_points(&series).unwrap();
    assert_eq!(first, vec![20]);
    assert_eq!(first, second);
}

#[test]
fn best_change_point_of_the_whole_series() {
    let series = step_series();
    let diff = calc_diff_matrix(&series).unwrap();
    let best = get_best_change_point(&diff.view(), &vec![]);
    assert_eq!(best.index, 4);
    assert_eq!(value(&best.qhat), (1488, 252));
}

#[test]
fn best_change_point_searches_every_segment() {
    let series = step_series();
    let diff = calc_diff_matrix(&series).unwrap();
    let known = vec![point(4, 1488, 252)];
    let best = get_best_change_point(&diff.view(), &known);
    assert_eq!(best.index, 9);
    assert_eq!(value(&best.qhat), (240, 64));

    let known = vec![point(9, 240, 64), point(4, 1488, 252)];
    let best = get_best_change_point(&diff.view(), &known);
    assert_eq!(best.index, 0);
    assert_eq!(value(&best.qhat), (0, 1));
}

#[test]
fn best_change_point_keeps_the_first_of_equal_scores() {
    // Both halves are the same, so both score alike: the left one wins.
    let series = vec![0, 0, 4, 4, 0, 0, 4, 4];
    let diff = calc_diff_matrix(&series).unwrap();
    let known = vec![point(4, 1, 1)];
    let best = get_best_change_point(&diff.view(), &known);
    assert_eq!(best.index, 2);
    let left = get_qhat_values(&vec![0, 0, 4, 4]).unwrap();
    assert_eq!(value(&best.qhat), value(&left[2]));
}

#[test]
fn best_change_point_of_one_sample() {
    let diff = calc_diff_matrix(&vec![5]).unwrap();
    let best = get_best_change_point(&diff.view(), &vec![]);
    assert_eq!(best.index, 0);
    assert_eq!(value(&best.qhat), (0, 1));
}

#[test]
fn indexes_keep_the_order_of_the_list() {
    let known = vec![point(9, 1, 2), point(4, 3, 1), point(6, 0, 1)];
    assert_eq!(cp_indexes(&known), vec![9, 4, 6]);
    assert_eq!(cp_indexes(&vec![]), Vec::<usize>::new());
}

#[test]
fn change_points_are_equal_by_place_and_score() {
    let known = vec![point(9, 1, 2), point(4, 3, 1)];
    assert!(contains_change_point(&known, &point(9, 1, 2)));
    assert!(contains_change_point(&known, &point(9, 2, 4)));
    assert!(!contains_change_point(&known, &point(9, 1, 3)));
    assert!(!contains_change_point(&known, &point(5, 1, 2)));
    assert!(!contains_change_point(&vec![], &point(5, 1, 2)));
}

#[test]
fn trial_statistic_is_the_largest_score_of_any_segment() {
    let segments = vec![vec![1, 1, 1, 1], vec![2, 2, 2, 2, 2, 3, 3, 3], vec![]];
    let statistic = trial_statistic_of(&segments);
    assert_eq!(value(&statistic), (240, 64));

    let segments = vec![vec![0, 0, 1], vec![0, 1]];
    let statistic = trial_statistic_of(&segments);
    assert_eq!(value(&statistic), (4, 3));

    assert_eq!(value(&trial_statistic_of(&vec![])), (0, 1));
    assert_eq!(value(&trial_statistic_of(&vec![vec![], vec![9]])), (0, 1));
}

#[test]
fn permutation_test_of_flat_segments_is_zero() {
    let series = vec![1, 1, 1, 1, 2, 2, 2, 2, 2, 3, 3, 3];
    let windows = get_windows(&vec![9, 4], series.len());
    for _ in 0..20 {
        let statistic = permutation_test(&series, &windows);
        assert_eq!(statistic.numerator(), 0);
    }
}

#[test]
fn permutation_test_never_beats_the_sorted_series() {
    let series = step_series();
    let windows = get_windows(&vec![], series.len());
    let observed = Score::new(1488, 252).unwrap();
    for _ in 0..200 {
        let statistic = permutation_test(&series, &windows);
        assert!(!observed.is_below(&statistic));
        assert!(statistic.denominator() > 0);
    }
}

#[test]
fn permutation_test_shuffles() {
    let series: Vec<i32> = (0..24).map(|i| i * i).collect();
    let windows = get_windows(&vec![], series.len());
    let unshuffled = trial_statistic_of(&vec![series.clone()]);
    let mut differed = false;
    for _ in 0..50 {
        let statistic = permutation_test(&series, &windows);
        if !statistic.is_same(&unshuffled) {
            differed = true;
        }
    }
    assert!(differed);
}

#[test]
fn permutation_test_keeps_the_samples_of_each_segment() {
    // Left of the cut all samples are equal, right of it there are two:
    // however they are shuffled, the statistic is that of the right segment.
    let series = vec![5, 5, 5, 5, 0, 100];
    let windows = get_windows(&vec![4], series.len());
    for _ in 0..20 {
        let statistic = permutation_test(&series, &windows);
        assert_eq!(value(&statistic), (200, 2));
    }
}

#[test]
fn negligible_candidate_is_never_significant() {
    let detector = EDivisive::new(Probability::new(1, 1).unwrap(), 0);
    let series = step_series();
    let windows = get_windows(&vec![], series.len());
    assert!(!detector.is_significant(&point(3, 0, 1), &series, &windows));
    assert!(!detector.is_significant(&point(3, -4, 3), &series, &windows));
    assert!(!detector.is_significant(&point(3, 1, 1000000001), &series, &windows));
    assert!(detector.is_significant(&point(3, 1, 1000000000), &series, &windows));
}

#[test]
fn significance_follows_the_trials() {
    let detector = EDivisive::new(Probability::new(1, 100).unwrap(), 100);
    let series = step_series();
    let windows = get_windows(&vec![], series.len());
    // No shuffle of the series scores above the sorted one.
    assert!(detector.is_significant(&point(4, 1488, 252), &series, &windows));
    // Every shuffle has some split with a score above this one.
    assert!(!detector.is_significant(&point(4, 1, 100), &series, &windows));
}

#[test]
fn permutation_statistics_runs_every_trial() {
    let series = step_series();
    let windows = get_windows(&vec![4], series.len());
    assert_eq!(permutation_statistics(&series, &windows, 0).len(), 0);
    let statistics = permutation_statistics(&series, &windows, 17);
    assert_eq!(statistics.len(), 17);
    let observed = Score::new(240, 64).unwrap();
    for statistic in &statistics {
        assert!(!observed.is_below(statistic));
    }
}

#[test]
fn change_points_compare_by_both_fields() {
    assert_eq!(point(3, 1, 2), point(3, 2, 4));
    assert_ne!(point(3, 1, 2), point(4, 1, 2));
    assert_ne!(point(3, 1, 2), point(3, 1, 3));
}
