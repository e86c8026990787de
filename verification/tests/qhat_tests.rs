use edivisive::error::DetectError;
use edivisive::matrix_ops::{block, calc_diff_matrix, Matrix};
use edivisive::qhat::{calc_q, get_qhat_values, qhat_values};
use edivisive::score::Score;

fn parts(scores: &Vec<Score>) -> Vec<(i128, i128)> {
    scores.iter().map(|s| (s.numerator(), s.denominator())).collect()
}

/// The three sums of a split, each taken over all pairs that belong to it.
fn direct_sums(series: &[i32], tau: usize) -> (i128, i128, i128) {
    let n = series.len();
    let d = |i: usize, j: usize| (series[i] as i128 - series[j] as i128).abs();
    let mut cross = 0;
    let mut xs = 0;
    let mut ys = 0;
    for i in 0..n {
        for j in (i + 1)..n {
            if j < tau {
                xs += d(i, j);
            } else if i >= tau {
                ys += d(i, j);
            } else {
                cross += d(i, j);
            }
        }
    }
    (cross, xs, ys)
}

/// The score as the formula has it, in floating point.
fn formula(cross: i128, xs: i128, ys: i128, x: usize, y: usize) -> f64 {
    let (c, xs, ys, x, y) = (cross as f64, xs as f64, ys as f64, x as f64, y as f64);
    let cross_reg = if x < 1.0 || y < 1.0 { 0.0 } else { c * (2.0 / (x * y)) };
    let x_reg = if x < 2.0 { 0.0 } else { xs * (2.0 / (x * (x - 1.0))) };
    let y_reg = if y < 2.0 { 0.0 } else { ys * (2.0 / (y * (y - 1.0))) };
    (x * y) / (x + y) * (cross_reg - x_reg - y_reg)
}

fn next(state: &mut u64) -> u64 {
    *state = state.wrapping_mul(6364136223846793005).wrapping_add(1442695040888963407);
    *state >> 33
}

#[test]
fn scores_of_the_three_level_series() {
    let series = vec![1, 1, 1, 1, 2, 2, 2, 2, 2, 3, 3, 3];
    let q_values = get_qhat_values(&series).unwrap();

    assert_eq!(
        parts(&q_values),
        vec![
            (0, 1),
            (124, 120),
            (248, 108),
            (744, 192),
            (1488, 252),
            (1248, 288),
            (1080, 300),
            (984, 288),
            (960, 252),
            (1008, 192),
            (336, 108),
            (168, 120)
        ]
    );
}

#[test]
fn scores_of_two_levels() {
    let series = vec![0, 0, 0, 0, 0, 1, 1, 1, 1, 1];
    let q_values = get_qhat_values(&series).unwrap();
    assert_eq!(
        parts(&q_values),
        vec![
            (0, 1),
            (40, 80),
            (80, 70),
            (240, 120),
            (480, 150),
            (800, 160),
            (480, 150),
            (240, 120),
            (80, 70),
            (40, 80)
        ]
    );
}

#[test]
fn scores_of_a_flat_series_are_zero() {
    let q_values = get_qhat_values(&vec![1, 1, 1, 1]).unwrap();
    assert_eq!(q_values.len(), 4);
    for q in &q_values {
        assert_eq!(q.numerator(), 0);
        assert!(q.denominator() > 0);
        assert!(q.is_negligible());
    }
}

#[test]
fn first_score_is_zero_and_the_last_need_not_be() {
    let q_values = get_qhat_values(&vec![0, 0, 1]).unwrap();
    assert_eq!(parts(&q_values), vec![(0, 1), (0, 3), (4, 3)]);
}

#[test]
fn scores_of_short_series() {
    assert_eq!(parts(&get_qhat_values(&vec![7]).unwrap()), vec![(0, 1)]);
    assert_eq!(parts(&get_qhat_values(&vec![7, 10]).unwrap()), vec![(0, 1), (6, 2)]);
}

#[test]
fn scores_of_an_empty_series_are_refused() {
    assert_eq!(get_qhat_values(&vec![]).err(), Some(DetectError::InvalidInput));
}

#[test]
fn carried_sums_agree_with_direct_summation() {
    let mut state: u64 = 2024;
    for length in 3..=50usize {
        let series: Vec<i32> =
            (0..length).map(|_| (next(&mut state) % 2001) as i32 - 1000).collect();
        let q_values = get_qhat_values(&series).unwrap();
        assert_eq!(q_values.len(), length);
        for tau in 0..length {
            let (cross, xs, ys) = direct_sums(&series, tau);
            let direct = calc_q(cross as i64, xs as i64, ys as i64, tau, length - tau);
            assert_eq!(q_values[tau].numerator(), direct.numerator());
            assert_eq!(q_values[tau].denominator(), direct.denominator());
            let value = q_values[tau].numerator() as f64 / q_values[tau].denominator() as f64;
            let wanted = formula(cross, xs, ys, tau, length - tau);
            assert!((value - wanted).abs() <= 1e-9 * (1.0 + wanted.abs()));
        }
    }
}

#[test]
fn carried_sums_agree_on_the_widest_samples() {
    let series = vec![i32::MAX, i32::MIN, 0, i32::MIN, i32::MAX, 1, -1];
    let q_values = get_qhat_values(&series).unwrap();
    for tau in 0..series.len() {
        let (cross, xs, ys) = direct_sums(&series, tau);
        let direct = calc_q(cross as i64, xs as i64, ys as i64, tau, series.len() - tau);
        assert_eq!(q_values[tau].numerator(), direct.numerator());
        assert_eq!(q_values[tau].denominator(), direct.denominator());
    }
}

#[test]
fn calc_q_by_hand() {
    // Sides of 2 and 3 samples: 6/5 * (2*12/6 - 2*1/2 - 2*3/6) = 12/5.
    let q = calc_q(12, 1, 3, 2, 3);
    assert_eq!((q.numerator(), q.denominator()), (2 * (12 * 1 * 2 - 1 * 3 * 2 - 3 * 2 * 1), 5 * 1 * 2));
    assert_eq!(q.numerator() * 5, 12 * q.denominator());

    // One sample on each side: 1/2 * 2*9/1 = 9.
    let q = calc_q(9, 0, 0, 1, 1);
    assert_eq!((q.numerator(), q.denominator()), (18, 2));

    // A side of one sample has no pairs: its sum does not count.
    let q = calc_q(4, 100, 1, 1, 2);
    assert_eq!((q.numerator(), q.denominator()), (2 * (4 - 1), 3));
    let q = calc_q(4, 1, 100, 2, 1);
    assert_eq!((q.numerator(), q.denominator()), (2 * (4 - 1), 3));

    // An empty side gives 0.
    let q = calc_q(0, 0, 7, 0, 4);
    assert_eq!((q.numerator(), q.denominator()), (0, 1));
    let q = calc_q(0, 6, 0, 4, 0);
    assert_eq!((q.numerator(), q.denominator()), (0, 1));
}

#[test]
fn calc_q_of_the_longest_series() {
    // Two samples at the far ends of the range, each repeated 8192 times.
    let half: i128 = 8192;
    let cross = half * half * 4294967295;
    let q = calc_q(cross as i64, 0, 0, 8192, 8192);
    assert_eq!(q.numerator(), 2 * cross * 8191 * 8191);
    assert_eq!(q.denominator(), 16384 * 8191 * 8191);
    // The other way round: all distance inside the sides, none between.
    let inside = half * half * 4294967295;
    let q = calc_q(0, inside as i64, inside as i64, 8192, 8192);
    assert_eq!(q.numerator(), -4 * inside * 8192 * 8191);
    assert!(q.is_negligible());
}

#[test]
fn calc_q_can_be_negative() {
    let q = calc_q(0, 10, 10, 3, 3);
    assert!(q.numerator() < 0);
    assert!(q.is_negligible());
}

#[test]
fn scores_of_a_block_are_those_of_the_segment() {
    let series = vec![3, 9, 1, 1, 2, 8, 8, 9, 4, 0];
    let diff = calc_diff_matrix(&series).unwrap();
    let whole = diff.view();
    let part = block(&whole, 2, 7, 2, 7);
    let from_block = qhat_values(&part);
    let from_segment = get_qhat_values(&series[2..7].to_vec()).unwrap();
    assert_eq!(parts(&from_block), parts(&from_segment));
}

#[test]
fn scores_of_a_given_distance_matrix() {
    let matrix = Matrix::from_rows(&vec![vec![0, 1, 5], vec![1, 0, 4], vec![5, 4, 0]]).unwrap();
    let q_values = qhat_values(&matrix.view());
    // Split before 1: cross 6, inside the rest 4: 2*(6*1 - 4)/(3*1).
    // Split before 2: cross 9, inside the front 1: 2*(9*1 - 1)/(3*1).
    assert_eq!(parts(&q_values), vec![(0, 1), (4, 3), (16, 3)]);
}
