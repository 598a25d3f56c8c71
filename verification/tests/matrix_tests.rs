use algorithms::math::linear_algebra::matrix::{ColumnView, Matrix, RowView};

fn rest_of_row(mut view: RowView<'_, i32>) -> Vec<i32> {
    let mut cells = Vec::new();
    while let Some(cell) = view.next() {
        cells.push(*cell);
    }
    cells
}

fn rest_of_column(mut view: ColumnView<'_, i32>) -> Vec<i32> {
    let mut cells = Vec::new();
    while let Some(cell) = view.next() {
        cells.push(*cell);
    }
    cells
}

#[test]
fn matrix_test_new_matrix() {
    let matrix: Matrix<i32> = Matrix::new(2, 4);
    assert_eq!(matrix.get(1, 1).unwrap(), &0);
}

#[test]
fn matrix_test_new_from_iter() {
    let matrix: Matrix<usize> = Matrix::from_iter(2, 2, 0..);

    assert_eq!(matrix.get(0, 0).unwrap(), &0);
    assert_eq!(matrix.get(0, 1).unwrap(), &1);
    assert_eq!(matrix.get(1, 0).unwrap(), &2);
}

#[test]
fn matrix_test_identity() {
    let identity: Matrix<i32> = Matrix::identity(3);
    assert_eq!(identity.get(0, 0).unwrap(), &1);
    assert_eq!(identity.get(0, 1).unwrap(), &0);
    assert_eq!(identity.get(2, 2).unwrap(), &1);
}

#[test]
fn matrix_test_rows() {
    let matrix: Matrix<usize> = Matrix::new(3, 6);
    assert_eq!(matrix.rows(), 3);
}

#[test]
fn matrix_test_cols() {
    let matrix: Matrix<usize> = Matrix::new(3, 6);
    assert_eq!(matrix.cols(), 6);
}

#[test]
fn matrix_test_get_value() {
    let matrix = Matrix::from_iter(3, 6, 0..);
    assert_eq!(matrix.get(0, 0).unwrap(), &0);
    assert_eq!(matrix.get(2, 5).unwrap(), &17);
    assert_eq!(matrix.get(10, 2), None);
}

#[test]
fn matrix_test_get_mut_value() {
    let mut matrix: Matrix<usize> = Matrix::from_iter(3, 6, 0..);
    assert_eq!(matrix.get(0, 0).unwrap(), &0);

    *matrix.get_mut(0, 0).unwrap() = 5;
    assert_eq!(matrix.get(0, 0).unwrap(), &5);
}

#[test]
fn matrix_test_set_value() {
    let mut matrix: Matrix<usize> = Matrix::new(3, 3);
    assert_eq!(matrix.get(0, 0).unwrap(), &0);

    matrix.set(0, 0, 5);
    assert_eq!(matrix.get(0, 0).unwrap(), &5);
}

#[test]
fn matrix_test_get_row() {
    let matrix = Matrix::from_iter(3, 6, 0..);
    let result: Vec<i32> = rest_of_row(matrix.get_row(1).unwrap());
    assert_eq!(result, vec![6, 7, 8, 9, 10, 11]);
    assert!(matrix.get_row(10).is_none());
}

#[test]
fn matrix_test_get_col() {
    let matrix = Matrix::from_iter(3, 6, 0..);
    let result: Vec<i32> = rest_of_column(matrix.get_col(1).unwrap());
    assert_eq!(result, vec![1, 7, 13]);
    assert!(matrix.get_col(10).is_none());
}

#[test]
fn matrix_test_transpose() {
    let matrix: Matrix<usize> = Matrix::from_iter(2, 3, 0..);
    let transpose = matrix.transpose();

    assert_eq!(matrix.rows(), transpose.cols());
    assert_eq!(matrix.cols(), transpose.rows());

    assert_eq!(matrix.get(0, 0).unwrap(), transpose.get(0, 0).unwrap());
    assert_eq!(matrix.get(0, 2).unwrap(), transpose.get(2, 0).unwrap());
}

#[test]
fn matrix_test_swap_rows() {
    let mut matrix: Matrix<usize> = Matrix::from_iter(2, 2, 0..);
    matrix.swap_rows(0, 1);
    assert_eq!(matrix.get(0, 0).unwrap(), &2);
    assert_eq!(matrix.get(0, 1).unwrap(), &3);
    assert_eq!(matrix.get(1, 0).unwrap(), &0);
    assert_eq!(matrix.get(1, 1).unwrap(), &1);
}

#[test]
fn matrix_test_swap_cols() {
    let mut matrix: Matrix<usize> = Matrix::from_iter(3, 3, 0..);
    matrix.swap_cols(0, 2);
    assert_eq!(matrix.get(0, 0).unwrap(), &2);
    assert_eq!(matrix.get(1, 1).unwrap(), &4);
    assert_eq!(matrix.get(2, 2).unwrap(), &6);
}

#[test]
fn matrix_test_apply_function() {
    let matrix = Matrix::from_iter(3, 6, 0..);
    let mut sum = 0;
    matrix.apply(|n| sum += *n);
    assert_eq!(sum, 153);
}

#[test]
fn matrix_test_apply_mut_function() {
    let mut matrix = Matrix::from_iter(3, 6, 0..);
    matrix.apply_mut(|n| *n *= 2);
    assert_eq!(matrix.get(0, 4).unwrap(), &8);
}

#[test]
fn linear_new_has_the_dimensions_and_zeros_everywhere() {
    let matrix: Matrix<i64> = Matrix::new(4, 3);
    assert_eq!(matrix.rows(), 4);
    assert_eq!(matrix.cols(), 3);
    for row in 0..4 {
        for col in 0..3 {
            assert_eq!(matrix.get(row, col), Some(&0));
        }
    }
    let small: Matrix<u8> = Matrix::new(1, 1);
    assert_eq!(small.get(0, 0), Some(&0));
    assert_eq!(small.get(1, 0), None);
    assert_eq!(small.get(0, 1), None);
}

#[test]
fn linear_from_iter_fills_row_by_row_and_leaves_the_rest() {
    let mut source = 0usize..;
    let matrix: Matrix<usize> = Matrix::from_iter(3, 4, &mut source);
    for row in 0..3 {
        for col in 0..4 {
            assert_eq!(matrix.get(row, col), Some(&(row * 4 + col)));
        }
    }
    assert_eq!(source.next(), Some(12));
}

#[test]
fn linear_identity_has_ones_on_the_diagonal_only() {
    let identity: Matrix<u16> = Matrix::identity(4);
    assert_eq!(identity.rows(), 4);
    assert_eq!(identity.cols(), 4);
    for row in 0..4 {
        for col in 0..4 {
            let expected: u16 = if row == col { 1 } else { 0 };
            assert_eq!(identity.get(row, col), Some(&expected));
        }
    }
    let one: Matrix<isize> = Matrix::identity(1);
    assert_eq!(one.get(0, 0), Some(&1));
}

#[test]
fn linear_boundary_reads_are_absent() {
    let mut matrix: Matrix<i32> = Matrix::from_iter(3, 6, 0..);
    assert_eq!(matrix.get(3, 0), None);
    assert_eq!(matrix.get(0, 6), None);
    assert!(matrix.get_mut(3, 0).is_none());
    assert!(matrix.get_mut(0, 6).is_none());
    assert!(matrix.get_row(3).is_none());
    assert!(matrix.get_col(6).is_none());
    assert_eq!(matrix.get(2, 5), Some(&17));
}

#[test]
fn linear_set_outside_changes_nothing() {
    let mut matrix: Matrix<i32> = Matrix::from_iter(2, 2, 0..);
    let before = matrix.clone();
    assert!(!matrix.set(2, 0, 9));
    assert!(!matrix.set(0, 2, 9));
    assert_eq!(matrix, before);
    assert!(matrix.set(1, 0, 9));
    assert_eq!(matrix.get(1, 0), Some(&9));
    assert_eq!(matrix.get(0, 0), Some(&0));
    assert_eq!(matrix.get(0, 1), Some(&1));
    assert_eq!(matrix.get(1, 1), Some(&3));
}

#[test]
fn linear_swap_rows_of_a_wide_matrix() {
    let mut matrix: Matrix<i32> = Matrix::from_iter(3, 4, 0..);
    matrix.swap_rows(1, 2);
    assert_eq!(rest_of_row(matrix.get_row(0).unwrap()), vec![0, 1, 2, 3]);
    assert_eq!(rest_of_row(matrix.get_row(1).unwrap()), vec![8, 9, 10, 11]);
    assert_eq!(rest_of_row(matrix.get_row(2).unwrap()), vec![4, 5, 6, 7]);
}

#[test]
fn linear_swap_cols_of_a_wide_matrix() {
    let mut matrix: Matrix<i32> = Matrix::from_iter(2, 4, 0..);
    matrix.swap_cols(1, 3);
    assert_eq!(rest_of_row(matrix.get_row(0).unwrap()), vec![0, 3, 2, 1]);
    assert_eq!(rest_of_row(matrix.get_row(1).unwrap()), vec![4, 7, 6, 5]);
}

#[test]
fn linear_swap_rows_twice_restores() {
    let mut matrix: Matrix<i32> = Matrix::from_iter(4, 3, 0..);
    let before = matrix.clone();
    matrix.swap_rows(0, 3);
    assert_ne!(matrix, before);
    matrix.swap_rows(0, 3);
    assert_eq!(matrix, before);
    matrix.swap_rows(2, 2);
    assert_eq!(matrix, before);
}

#[test]
fn linear_swap_cols_twice_restores() {
    let mut matrix: Matrix<i32> = Matrix::from_iter(3, 5, 0..);
    let before = matrix.clone();
    matrix.swap_cols(1, 4);
    assert_ne!(matrix, before);
    matrix.swap_cols(1, 4);
    assert_eq!(matrix, before);
    matrix.swap_cols(0, 0);
    assert_eq!(matrix, before);
}

#[test]
fn linear_transpose_mirrors_every_cell() {
    let matrix: Matrix<i32> = Matrix::from_iter(2, 3, 0..);
    let transpose = matrix.transpose();
    assert_eq!(transpose.rows(), 3);
    assert_eq!(transpose.cols(), 2);
    assert_eq!(rest_of_row(transpose.get_row(0).unwrap()), vec![0, 3]);
    assert_eq!(rest_of_row(transpose.get_row(1).unwrap()), vec![1, 4]);
    assert_eq!(rest_of_row(transpose.get_row(2).unwrap()), vec![2, 5]);
}

#[test]
fn linear_transpose_twice_restores() {
    let matrix: Matrix<i32> = Matrix::from_iter(3, 5, 0..);
    let back = matrix.transpose().transpose();
    assert_eq!(back.rows(), 3);
    assert_eq!(back.cols(), 5);
    assert_eq!(back, matrix);
}

#[test]
fn linear_apply_visits_in_row_major_order() {
    let matrix: Matrix<i32> = Matrix::from_iter(2, 3, 10..);
    let mut seen = Vec::new();
    matrix.apply(|n| seen.push(*n));
    assert_eq!(seen, vec![10, 11, 12, 13, 14, 15]);
}

#[test]
fn linear_apply_mut_doubles_every_cell() {
    let mut matrix: Matrix<i32> = Matrix::from_iter(3, 6, 0..);
    matrix.apply_mut(|n| *n *= 2);
    for row in 0..3 {
        for col in 0..6 {
            let before = (row * 6 + col) as i32;
            assert_eq!(matrix.get(row, col), Some(&(2 * before)));
        }
    }
    assert_eq!(matrix.rows(), 3);
    assert_eq!(matrix.cols(), 6);
}

#[test]
fn linear_cursor_stays_at_its_end() {
    let matrix: Matrix<i32> = Matrix::from_iter(2, 2, 0..);
    let mut row = matrix.get_row(1).unwrap();
    assert_eq!(row.next(), Some(&2));
    assert_eq!(row.next(), Some(&3));
    assert_eq!(row.next(), None);
    assert_eq!(row.next(), None);
    let mut column = matrix.get_col(0).unwrap();
    assert_eq!(column.next(), Some(&0));
    assert_eq!(column.next(), Some(&2));
    assert_eq!(column.next(), None);
    assert_eq!(column.next(), None);
}
