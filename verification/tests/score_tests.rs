use edivisive::score::{Score, MAX_DENOMINATOR, MAX_NUMERATOR};

#[test]
fn score_keeps_its_parts() {
    let score = Score::new(-6, 4).unwrap();
    assert_eq!((score.numerator(), score.denominator()), (-6, 4));
    let zero = Score::zero();
    assert_eq!((zero.numerator(), zero.denominator()), (0, 1));
}

#[test]
fn score_needs_a_positive_denominator() {
    assert!(Score::new(1, 0).is_none());
    assert!(Score::new(1, -1).is_none());
    assert!(Score::new(0, 1).is_some());
}

#[test]
fn score_stays_within_its_limits() {
    assert!(Score::new(MAX_NUMERATOR, MAX_DENOMINATOR).is_some());
    assert!(Score::new(-MAX_NUMERATOR, 1).is_some());
    assert!(Score::new(MAX_NUMERATOR + 1, 1).is_none());
    assert!(Score::new(-MAX_NUMERATOR - 1, 1).is_none());
    assert!(Score::new(1, MAX_DENOMINATOR + 1).is_none());
}

#[test]
fn scores_are_ordered_by_value() {
    let half = Score::new(1, 2).unwrap();
    let two_quarters = Score::new(2, 4).unwrap();
    let third = Score::new(1, 3).unwrap();
    let minus = Score::new(-1, 3).unwrap();
    assert!(third.is_below(&half));
    assert!(!half.is_below(&third));
    assert!(!half.is_below(&two_quarters));
    assert!(!two_quarters.is_below(&half));
    assert!(half.is_same(&two_quarters));
    assert!(!half.is_same(&third));
    assert!(minus.is_below(&third));
    assert!(minus.is_below(&Score::zero()));
}

#[test]
fn scores_at_the_limits_are_ordered_too() {
    let top = Score::new(MAX_NUMERATOR, 1).unwrap();
    let nearly = Score::new(MAX_NUMERATOR, MAX_DENOMINATOR).unwrap();
    let bottom = Score::new(-MAX_NUMERATOR, 1).unwrap();
    assert!(nearly.is_below(&top));
    assert!(bottom.is_below(&nearly));
    assert!(!top.is_below(&bottom));
    assert!(top.is_same(&top));
    assert!(!top.is_negligible());
    assert!(bottom.is_negligible());
}

#[test]
fn negligible_is_below_one_part_in_a_thousand_million() {
    assert!(Score::new(0, 1).unwrap().is_negligible());
    assert!(Score::new(-1, 1).unwrap().is_negligible());
    assert!(Score::new(1, 1000000001).unwrap().is_negligible());
    assert!(!Score::new(1, 1000000000).unwrap().is_negligible());
    assert!(!Score::new(1, 1).unwrap().is_negligible());
}

#[test]
fn equal_scores_are_the_same_fraction() {
    assert_eq!(Score::new(1, 2).unwrap(), Score::new(2, 4).unwrap());
    assert_ne!(Score::new(1, 2).unwrap(), Score::new(1, 3).unwrap());
    assert_eq!(Score::zero(), Score::new(0, 17).unwrap());
}
