use ndreduce::array::ArrayRef;
use ndreduce::NumericError;

#[test]
fn var_population_of_two_points() {
    // mean 2, squared deviations 1 and 1, population variance 1
    let a = ArrayRef::from_vec(vec![1u64, 3], vec![2]);
    assert_eq!(a.var(0), Ok(1));
}

#[test]
fn stddev_is_sqrt_of_var() {
    let a = ArrayRef::from_vec(vec![1u64, 3, 5, 7], vec![4]);
    let v = a.var(0).unwrap();
    let s = a.stddev(0).unwrap();
    assert!(s * s <= v && (s + 1) * (s + 1) > v);
}

#[test]
fn var_invalid_ddof_fails() {
    let a = ArrayRef::from_vec(vec![1u64, 3], vec![2]);
    assert_eq!(a.var(3), Err(NumericError::InvalidDdof));
    assert_eq!(a.stddev(5), Err(NumericError::InvalidDdof));
}

#[test]
fn var_axis_sample_variance() {
    let a = ArrayRef::from_vec(vec![1u64, 2, 3, 4, 5, 6], vec![3, 2]);
    let v = a.var_axis(0, 1).unwrap();
    assert_eq!(v.shape, vec![2]);
    assert_eq!(v.data, vec![4, 4]);
    let s = a.stddev_axis(0, 1).unwrap();
    assert_eq!(s.data, vec![2, 2]);
}

#[test]
fn var_axis_out_of_bounds_fails() {
    let a = ArrayRef::from_vec(vec![1u64, 2, 3, 4], vec![2, 2]);
    assert!(matches!(a.var_axis(2, 0), Err(NumericError::AxisOutOfBounds)));
    assert!(matches!(a.stddev_axis(9, 0), Err(NumericError::AxisOutOfBounds)));
}

#[test]
fn var_axis_invalid_ddof_fails() {
    let a = ArrayRef::from_vec(vec![1u64, 2, 3, 4], vec![2, 2]);
    // each lane along axis 0 has two entries, so ddof 3 exceeds n
    assert!(matches!(a.var_axis(0, 3), Err(NumericError::InvalidDdof)));
}

#[test]
fn var_layout_independent() {
    let a = ArrayRef::from_vec(vec![1u64, 2, 3, 4, 5, 6], vec![2, 3]);
    let b = ArrayRef {
        data: vec![1, 4, 2, 5, 3, 6],
        shape: vec![2, 3],
        strides: vec![1, 2],
        offset: 0,
    };
    assert_eq!(a.var(0), b.var(0));
    assert_eq!(a.var_axis(1, 0).unwrap().data, b.var_axis(1, 0).unwrap().data);
}
