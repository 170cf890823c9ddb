use ndreduce::array::ArrayRef;
use ndreduce::NumericError;

fn arr2x3() -> ArrayRef<u64> {
    ArrayRef::from_vec(vec![1, 2, 3, 4, 5, 6], vec![2, 3])
}

#[test]
fn cumprod_along_rows() {
    let a = arr2x3();
    let c = a.cumprod(0).unwrap();
    assert_eq!(c.shape, vec![2, 3]);
    assert_eq!(c.data, vec![1, 2, 3, 4, 10, 18]);
}

#[test]
fn cumprod_along_cols() {
    let a = arr2x3();
    let c = a.cumprod(1).unwrap();
    assert_eq!(c.data, vec![1, 2, 6, 4, 20, 120]);
}

#[test]
fn cumprod_axis_out_of_bounds_fails() {
    let a = arr2x3();
    assert!(matches!(a.cumprod(2), Err(NumericError::AxisOutOfBounds)));
}

#[test]
fn cumprod_entries_are_prefix_products() {
    let a = ArrayRef::from_vec(vec![2u64, 3, 4, 5], vec![4]);
    let c = a.cumprod(0).unwrap();
    assert_eq!(c.data, vec![2, 6, 24, 120]);
}

#[test]
fn diff_first_order() {
    let a = ArrayRef::from_vec(vec![1u64, 2, 5], vec![3]);
    let d = a.diff(1, 0).unwrap();
    assert_eq!(d.shape, vec![2]);
    assert_eq!(d.data, vec![1, 3]);
}

#[test]
fn diff_second_order_equals_iterated_first_order() {
    let a = ArrayRef::from_vec(vec![1u64, 2, 5], vec![3]);
    let d2 = a.diff(2, 0).unwrap();
    assert_eq!(d2.data, vec![2]);
    let d11 = a.diff(1, 0).unwrap().diff(1, 0).unwrap();
    assert_eq!(d2.data, d11.data);
    assert_eq!(d2.shape, d11.shape);
}

#[test]
fn diff_order_zero_is_identity() {
    let a = arr2x3();
    for ax in 0..2 {
        let d = a.diff(0, ax).unwrap();
        assert_eq!(d.data, vec![1, 2, 3, 4, 5, 6]);
        assert_eq!(d.shape, vec![2, 3]);
    }
}

#[test]
fn diff_along_each_axis_of_matrix() {
    let a = arr2x3();
    let d0 = a.diff(1, 0).unwrap();
    assert_eq!(d0.shape, vec![1, 3]);
    assert_eq!(d0.data, vec![3, 3, 3]);
    let d1 = a.diff(1, 1).unwrap();
    assert_eq!(d1.shape, vec![2, 2]);
    assert_eq!(d1.data, vec![1, 1, 1, 1]);
}

#[test]
fn diff_too_large_order_fails() {
    let a = ArrayRef::from_vec(vec![1u64, 2, 3], vec![3]);
    assert!(matches!(a.diff(10, 0), Err(NumericError::InsufficientLength)));
    assert!(matches!(a.diff(3, 0), Err(NumericError::InsufficientLength)));
}

#[test]
fn diff_axis_out_of_bounds_fails() {
    let a = ArrayRef::from_vec(vec![1u64, 2, 3], vec![3]);
    assert!(matches!(a.diff(1, 1), Err(NumericError::AxisOutOfBounds)));
}
