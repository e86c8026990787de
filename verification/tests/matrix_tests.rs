use edivisive::error::DetectError;
use edivisive::matrix_ops::{block, calc_diff_matrix, diff_row, row_count, sum_square, Matrix};
use ndarray::arr2;

fn cell(matrix: &Matrix, i: usize, j: usize) -> i64 {
    sum_square(&matrix.view(), i, i + 1, j, j + 1)
}

#[test]
fn test_diff_row() {
    let list = vec![1, 2, 3, 4, 5];
    let diff = diff_row(&list, 3);
    assert_eq!(diff, vec![2, 1, 0, 1, 2])
}

#[test]
fn test_calc_diff_matrix() {
    let list = vec![1, 2, 3];
    let diff = calc_diff_matrix(&list).unwrap();
    let expected = arr2(&[[0i64, 1, 2], [1, 0, 1], [2, 1, 0]]);

    assert_eq!(row_count(&diff.view()), expected.nrows());
    for i in 0..3 {
        for j in 0..3 {
            assert_eq!(cell(&diff, i, j), expected[[i, j]]);
        }
    }
}

#[test]
fn test_sum_square() {
    let matrix = Matrix::from_rows(&vec![
        vec![1, 2, 3, 4],
        vec![2, 3, 4, 5],
        vec![3, 4, 5, 6],
        vec![4, 5, 6, 7],
    ])
    .unwrap();

    assert_eq!(sum_square(&matrix.view(), 0, 1, 0, 1), 1);
    assert_eq!(sum_square(&matrix.view(), 0, 2, 0, 2), 8);
    assert_eq!(sum_square(&matrix.view(), 1, 3, 1, 3), 16);
}

#[test]
fn sum_square_tells_rows_from_columns() {
    let matrix = Matrix::from_rows(&vec![vec![1, 2, 3], vec![4, 5, 6], vec![7, 8, 9]]).unwrap();
    let view = matrix.view();

    assert_eq!(sum_square(&view, 0, 1, 1, 3), 5);
    assert_eq!(sum_square(&view, 1, 3, 0, 1), 11);
    assert_eq!(sum_square(&view, 0, 3, 0, 3), 45);
    assert_eq!(sum_square(&view, 2, 3, 2, 3), 9);
}

#[test]
fn sum_square_of_an_empty_range_is_zero() {
    let matrix = Matrix::from_rows(&vec![vec![1, 2], vec![3, 4]]).unwrap();
    let view = matrix.view();

    assert_eq!(sum_square(&view, 1, 1, 0, 2), 0);
    assert_eq!(sum_square(&view, 0, 2, 2, 2), 0);
}

#[test]
fn block_of_a_block() {
    let matrix = Matrix::from_rows(&vec![
        vec![1, 2, 3, 4],
        vec![5, 6, 7, 8],
        vec![9, 10, 11, 12],
        vec![13, 14, 15, 16],
    ])
    .unwrap();
    let view = matrix.view();
    let lower = block(&view, 1, 4, 0, 3);
    assert_eq!(row_count(&lower), 3);
    assert_eq!(sum_square(&lower, 0, 1, 0, 3), 5 + 6 + 7);
    let corner = block(&lower, 1, 3, 1, 3);
    assert_eq!(row_count(&corner), 2);
    assert_eq!(sum_square(&corner, 0, 2, 0, 2), 10 + 11 + 14 + 15);
    assert_eq!(sum_square(&corner, 1, 2, 0, 1), 14);
}

#[test]
fn from_rows_refuses_what_is_not_square() {
    assert!(Matrix::from_rows(&vec![vec![1, 2], vec![3]]).is_none());
    assert!(Matrix::from_rows(&vec![vec![1, 2, 3]]).is_none());
    assert!(Matrix::from_rows(&vec![vec![], vec![]]).is_none());
}

#[test]
fn from_rows_takes_the_empty_square() {
    let matrix = Matrix::from_rows(&vec![]).unwrap();
    assert_eq!(row_count(&matrix.view()), 0);
}

#[test]
fn diff_matrix_is_symmetric_with_a_zero_diagonal() {
    let series = vec![5, -3, 12, 0, 7, 7, -20, i32::MAX, i32::MIN];
    let diff = calc_diff_matrix(&series).unwrap();
    let n = series.len();
    assert_eq!(row_count(&diff.view()), n);
    for i in 0..n {
        assert_eq!(cell(&diff, i, i), 0);
        for j in 0..n {
            assert_eq!(cell(&diff, i, j), cell(&diff, j, i));
            assert_eq!(cell(&diff, i, j), (series[i] as i64 - series[j] as i64).abs());
        }
    }
    assert_eq!(cell(&diff, 7, 8), 4294967295);
}

#[test]
fn diff_matrix_of_an_empty_series_is_refused() {
    let series: Vec<i32> = vec![];
    assert_eq!(calc_diff_matrix(&series).err(), Some(DetectError::InvalidInput));
}

#[test]
fn diff_matrix_of_one_sample() {
    let diff = calc_diff_matrix(&vec![42]).unwrap();
    assert_eq!(row_count(&diff.view()), 1);
    assert_eq!(cell(&diff, 0, 0), 0);
}

#[test]
fn diff_row_of_extremes() {
    assert_eq!(diff_row(&vec![i32::MIN, i32::MAX, 0], i32::MAX), vec![4294967295, 0, 2147483647]);
    assert_eq!(diff_row(&vec![], 3), Vec::<i64>::new());
}
