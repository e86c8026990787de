use edivisive::score::Score;
use edivisive::significance::{count_higher, p_value_accepts, significance, Probability};

fn scores(values: &[(i128, i128)]) -> Vec<Score> {
    values.iter().map(|(n, d)| Score::new(*n, *d).unwrap()).collect()
}

#[test]
fn probability_lies_above_zero_and_up_to_one() {
    assert!(Probability::new(0, 5).is_none());
    assert!(Probability::new(6, 5).is_none());
    assert!(Probability::new(1, 0).is_none());
    assert!(Probability::new(0, 0).is_none());
    let p = Probability::new(5, 5).unwrap();
    assert_eq!((p.numerator(), p.denominator()), (5, 5));
    let p = Probability::new(1, u64::MAX).unwrap();
    assert_eq!((p.numerator(), p.denominator()), (1, u64::MAX));
}

#[test]
fn estimate_is_counted_against_one_more_than_the_trials() {
    let one_percent = Probability::new(1, 100).unwrap();
    // 1/101 <= 1/100, 2/101 > 1/100.
    assert!(p_value_accepts(0, 100, &one_percent));
    assert!(p_value_accepts(1, 100, &one_percent));
    assert!(!p_value_accepts(2, 100, &one_percent));
    // 1/100 <= 1/100, 1/99 > 1/100.
    assert!(p_value_accepts(1, 99, &one_percent));
    assert!(!p_value_accepts(1, 98, &one_percent));
    // With no trial the estimate is 0.
    assert!(p_value_accepts(0, 0, &one_percent));
}

#[test]
fn more_trials_give_a_finer_estimate() {
    let one_percent = Probability::new(1, 100).unwrap();
    // One trial in ten that beats the score: 1/11 is too much.
    assert!(!p_value_accepts(1, 10, &one_percent));
    // One in a thousand: 1/1001 is little enough, and so are ten.
    assert!(p_value_accepts(1, 1000, &one_percent));
    assert!(p_value_accepts(10, 1000, &one_percent));
    assert!(!p_value_accepts(11, 1000, &one_percent));
}

#[test]
fn estimate_at_the_limits_of_the_machine() {
    let one = Probability::new(u64::MAX, u64::MAX).unwrap();
    assert!(p_value_accepts(usize::MAX, usize::MAX, &one));
    let least = Probability::new(1, u64::MAX).unwrap();
    assert!(!p_value_accepts(usize::MAX, usize::MAX, &least));
    assert!(p_value_accepts(0, usize::MAX, &least));
}

#[test]
fn only_statistics_strictly_above_are_counted() {
    let statistics = scores(&[(1, 2), (2, 4), (3, 4), (-1, 1), (5, 1), (0, 1)]);
    let observed = Score::new(1, 2).unwrap();
    assert_eq!(count_higher(&statistics, &observed), 2);
    assert_eq!(count_higher(&statistics, &Score::new(5, 1).unwrap()), 0);
    assert_eq!(count_higher(&statistics, &Score::new(-2, 1).unwrap()), 6);
    assert_eq!(count_higher(&vec![], &observed), 0);
}

#[test]
fn significance_of_a_score() {
    let threshold = Probability::new(1, 4).unwrap();
    let statistics = scores(&[(1, 1), (2, 1), (3, 1)]);
    // None above: 0/4.
    assert!(significance(&Score::new(3, 1).unwrap(), &statistics, &threshold));
    // One above: 1/4.
    assert!(significance(&Score::new(2, 1).unwrap(), &statistics, &threshold));
    // Two above: 2/4.
    assert!(!significance(&Score::new(1, 1).unwrap(), &statistics, &threshold));
    // Negligible, whatever the trials say.
    assert!(!significance(&Score::new(0, 1).unwrap(), &vec![], &threshold));
    assert!(!significance(&Score::new(1, 1000000001).unwrap(), &vec![], &threshold));
    assert!(significance(&Score::new(1, 1000000000).unwrap(), &vec![], &threshold));
}
