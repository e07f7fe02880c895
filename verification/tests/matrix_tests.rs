use feature_graph::matrix::DescriptorMatrix;

#[test]
fn from_row_slice_reads_row_by_row() {
    let m = DescriptorMatrix::from_row_slice(2, 3, &[10, 11, 12, 20, 21, 22]).unwrap();
    assert_eq!(m.nrows(), 2);
    assert_eq!(m.ncols(), 3);
    assert_eq!(m.get(0, 0), Some(10));
    assert_eq!(m.get(0, 1), Some(11));
    assert_eq!(m.get(0, 2), Some(12));
    assert_eq!(m.get(1, 0), Some(20));
    assert_eq!(m.get(1, 1), Some(21));
    assert_eq!(m.get(1, 2), Some(22));
}

#[test]
fn get_outside_the_matrix_is_none() {
    let m = DescriptorMatrix::from_row_slice(2, 3, &[10, 11, 12, 20, 21, 22]).unwrap();
    assert_eq!(m.get(2, 0), None);
    assert_eq!(m.get(0, 3), None);
    assert_eq!(m.get(usize::MAX, usize::MAX), None);
}

#[test]
fn row_copies_one_row() {
    let m = DescriptorMatrix::from_row_slice(3, 2, &[1, 2, 3, 4, 5, 6]).unwrap();
    assert_eq!(m.row(0), Some(vec![1, 2]));
    assert_eq!(m.row(1), Some(vec![3, 4]));
    assert_eq!(m.row(2), Some(vec![5, 6]));
    assert_eq!(m.row(3), None);
}

#[test]
fn from_row_slice_refuses_a_wrong_length() {
    assert!(DescriptorMatrix::from_row_slice(2, 3, &[0, 0, 0, 0, 0]).is_none());
    assert!(DescriptorMatrix::from_row_slice(2, 3, &[0, 0, 0, 0, 0, 0, 0]).is_none());
    assert!(DescriptorMatrix::from_row_slice(1, 1, &[]).is_none());
}

#[test]
fn from_row_slice_refuses_a_size_that_overflows() {
    assert!(DescriptorMatrix::from_row_slice(usize::MAX, 2, &[]).is_none());
    assert!(DescriptorMatrix::from_row_slice(usize::MAX, usize::MAX, &[1]).is_none());
}

#[test]
fn a_matrix_without_rows_keeps_its_width() {
    let m = DescriptorMatrix::from_row_slice(0, 32, &[]).unwrap();
    assert_eq!(m.nrows(), 0);
    assert_eq!(m.ncols(), 32);
    assert_eq!(m.row(0), None);
}

#[test]
fn a_matrix_without_columns_has_empty_rows() {
    let m = DescriptorMatrix::from_row_slice(3, 0, &[]).unwrap();
    assert_eq!(m.nrows(), 3);
    assert_eq!(m.ncols(), 0);
    assert_eq!(m.row(2), Some(vec![]));
    assert_eq!(m.get(0, 0), None);
}
