use edivisive::score::Score;
use edivisive::util::{argmax, get_windows, maximum};

fn whole(values: &[i128]) -> Vec<Score> {
    values.iter().map(|v| Score::new(*v, 1).unwrap()).collect()
}

#[test]
fn test_argmax() {
    let list = whole(&[1, 2, 3, 4]);
    assert_eq!(argmax(&list), 3);

    let list = whole(&[4, 3, 2, 1]);
    assert_eq!(argmax(&list), 0);

    let list = whole(&[1, 1, 8, 1]);
    assert_eq!(argmax(&list), 2);
}

#[test]
fn test_get_windows() {
    let change_points: Vec<usize> = vec![];
    assert_eq!(get_windows(&change_points, 1), vec!(0, 1));

    let change_points: Vec<usize> = vec![3, 6, 9];
    assert_eq!(get_windows(&change_points, 12), vec!(0, 3, 6, 9, 12));

    let change_points: Vec<usize> = vec![7, 2, 9];
    assert_eq!(get_windows(&change_points, 15), vec!(0, 2, 7, 9, 15));
}

#[test]
fn maximum_keeps_the_first_of_equal_scores() {
    let list = vec![
        Score::new(1, 2).unwrap(),
        Score::new(3, 4).unwrap(),
        Score::new(6, 8).unwrap(),
        Score::new(-5, 1).unwrap(),
    ];
    let (idx, value) = maximum(&list);
    assert_eq!(idx, 1);
    assert_eq!((value.numerator(), value.denominator()), (3, 4));
}
