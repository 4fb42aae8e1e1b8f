use std::num::NonZeroU128;

use islands::{Error, NonEmptyRectList2D};

#[test]
fn cols_rows_rows_and_cols_accessors_return_expected_dimensions() {
    let (rows, cols) = (91, 117);
    let value = NonZeroU128::new(42).unwrap();
    let expected_res = (rows, cols);
    let sut = NonEmptyRectList2D::new(value, rows, cols).unwrap();

    let res = (sut.rows(), sut.cols());

    assert!((res.0, res.1) == expected_res);
}

#[test]
fn get_valid_get_location_returns_expected_value() {
    let (rows, cols) = (1, 1);
    let value = 42;
    let expected_res = Some(&value);
    let sut = NonEmptyRectList2D::new(value, rows, cols).unwrap();

    let res = sut.get(0, 0);

    assert!(res == expected_res);
}

#[test]
fn get_invalid_get_location_returns_none() {
    let (rows, cols) = (1, 1);
    let value = 42;
    let expected_res = None;
    let sut = NonEmptyRectList2D::new(value, rows, cols).unwrap();

    let res = sut.get(99, 67);

    assert!(res == expected_res);
}

#[test]
fn zero_row_one_col_non_empty_rect_list_2d_fails_to_construct() {
    let (rows, cols) = (0, 1);
    let value = 42;

    let res = NonEmptyRectList2D::new(value, rows, cols);

    assert!(matches!(res, Err(Error::NoData(_))));
}

#[test]
fn one_row_zero_col_non_empty_rect_list_2d_fails_to_construct() {
    let (rows, cols) = (1, 0);
    let value = 42;

    let res = NonEmptyRectList2D::new(value, rows, cols);

    assert!(matches!(res, Err(Error::NoData(_))));
}

#[test]
fn zero_row_zero_col_non_empty_rect_list_2d_fails_to_construct() {
    let (rows, cols) = (0, 0);
    let value = 42;

    let res = NonEmptyRectList2D::new(value, rows, cols);

    assert!(matches!(res, Err(Error::NoData(_))));
}

#[test]
fn one_row_one_col_non_empty_rect_list_2d_constructs() {
    let (rows, cols) = (1, 1);
    let value = true;
    let expected_result = std::iter::once(true);

    let res = NonEmptyRectList2D::new(value, rows, cols);

    assert!(res.is_ok());
    let res = res.unwrap();
    assert!(res.into_vec().into_iter().eq(expected_result));
}

#[test]
fn two_row_three_col_non_empty_rect_list_2d_constructs() {
    let (rows, cols) = (2, 3);
    let value = 'X';
    let expected_result = ['X', 'X', 'X', 'X', 'X', 'X'];

    let res = NonEmptyRectList2D::new(value, rows, cols);

    assert!(res.is_ok());
    let res = res.unwrap();
    assert!(res.into_vec().into_iter().eq(expected_result));
}

#[test]
fn new_rows_and_cols_accessors_return_expected_dimensions() {
    let (rows, cols) = (3, 4);
    let value = false;
    let expected_res = (rows, cols);
    let sut = NonEmptyRectList2D::new(value, rows, cols).unwrap();

    let res = (sut.rows(), sut.cols());

    assert!((res.0, res.1) == expected_res);
}

#[test]
fn set_valid_set_location_returns_expected_value() {
    let (rows, cols) = (5, 11);
    let value = 41;
    let (row, col) = (4, 10);
    let new_value = 42;
    let expected_res = Some(&new_value);
    let mut sut = NonEmptyRectList2D::new(value, rows, cols).unwrap();

    let res = sut.set(row, col, new_value);

    assert!(res.is_some());
    let res = res.unwrap();
    assert!(res.get(row, col) == expected_res);
}

#[test]
fn set_invalid_set_location_returns_none() {
    let (rows, cols) = (19, 11);
    let value = 42;
    let expected_res = None;
    let sut = NonEmptyRectList2D::new(value, rows, cols).unwrap();

    let res = sut.get(99, 67);

    assert!(res == expected_res);
}

#[test]
fn from_vec_lays_out_values_row_by_row() {
    let sut = NonEmptyRectList2D::from_vec(vec![1, 2, 3, 4, 5, 6], 2, 3).unwrap();

    assert_eq!(sut.get(0, 2), Some(&3));
    assert_eq!(sut.get(1, 0), Some(&4));
    assert_eq!(sut.get(1, 2), Some(&6));
    assert_eq!(sut.iter(), &[1, 2, 3, 4, 5, 6]);
}

#[test]
fn from_vec_with_wrong_length_is_too_many_elements() {
    let res = NonEmptyRectList2D::from_vec(vec![1, 2, 3, 4, 5], 2, 3);

    assert_eq!(res, Err(Error::TooManyElements(2, 3)));
}

#[test]
fn from_vec_with_zero_cols_is_no_data() {
    let res = NonEmptyRectList2D::<u8>::from_vec(Vec::new(), 3, 0);

    assert!(matches!(res, Err(Error::NoData(_))));
}

#[test]
fn overflowing_dimensions_are_too_many_elements() {
    let res = NonEmptyRectList2D::new(0u8, usize::MAX, 2);

    assert_eq!(res, Err(Error::TooManyElements(usize::MAX, 2)));
}

#[test]
fn dimensions_past_the_signed_index_ceiling_are_too_many_elements() {
    let rows = isize::MAX as usize + 1;

    let res = NonEmptyRectList2D::new(0u8, rows, 1);

    assert_eq!(res, Err(Error::TooManyElements(rows, 1)));
}

#[test]
fn get_past_the_last_column_of_a_row_returns_none() {
    let sut = NonEmptyRectList2D::from_vec(vec![1, 2, 3, 4, 5, 6], 2, 3).unwrap();

    assert_eq!(sut.get(0, 3), None);
    assert_eq!(sut.get(2, 0), None);
    assert_eq!(sut.get(usize::MAX, usize::MAX), None);
}

#[test]
fn set_out_of_bounds_changes_nothing() {
    let mut sut = NonEmptyRectList2D::from_vec(vec![1, 2, 3, 4, 5, 6], 2, 3).unwrap();

    assert!(sut.set(0, 3, 9).is_none());
    assert!(sut.set(2, 0, 9).is_none());
    assert!(sut.set(usize::MAX, usize::MAX, 9).is_none());
    assert_eq!(sut.into_vec(), vec![1, 2, 3, 4, 5, 6]);
}

#[test]
fn set_changes_exactly_one_cell() {
    let mut sut = NonEmptyRectList2D::new(0, 2, 3).unwrap();

    assert!(sut.set(1, 1, 7).is_some());

    assert_eq!(sut.into_vec(), vec![0, 0, 0, 0, 7, 0]);
}

#[test]
fn iter_mut_writes_through_to_the_grid() {
    let mut sut = NonEmptyRectList2D::new(0, 2, 2).unwrap();

    for v in sut.iter_mut() {
        *v += 1;
    }

    assert_eq!(sut.into_vec(), vec![1, 1, 1, 1]);
}
