use ndreduce::array::ArrayRef;
use ndreduce::NumericError;

fn arr2x3() -> ArrayRef<u64> {
    ArrayRef::from_vec(vec![1, 2, 3, 4, 5, 6], vec![2, 3])
}

// The same logical 2x3 contents held column-major: element (i, j) sits
// at storage position j * 2 + i.
fn arr2x3_colmajor() -> ArrayRef<u64> {
    ArrayRef {
        data: vec![1, 4, 2, 5, 3, 6],
        shape: vec![2, 3],
        strides: vec![1, 2],
        offset: 0,
    }
}

#[test]
fn sum_of_2x2() {
    let a = ArrayRef::from_vec(vec![1u64, 2, 3, 4], vec![2, 2]);
    assert_eq!(a.sum(), 10);
}

#[test]
fn product_of_2x2() {
    let a = ArrayRef::from_vec(vec![1u64, 2, 3, 4], vec![2, 2]);
    assert_eq!(a.product(), 24);
}

#[test]
fn sum_of_empty_is_zero() {
    let a = ArrayRef::from_vec(Vec::<u64>::new(), vec![0, 3]);
    assert_eq!(a.sum(), 0);
}

#[test]
fn product_of_empty_is_one() {
    let a = ArrayRef::from_vec(Vec::<u64>::new(), vec![3, 0]);
    assert_eq!(a.product(), 1);
}

#[test]
fn sum_axis_rows_and_cols() {
    let a = arr2x3();
    let s0 = a.sum_axis(0).unwrap();
    assert_eq!(s0.shape, vec![3]);
    assert_eq!(s0.data, vec![5, 7, 9]);
    let s1 = a.sum_axis(1).unwrap();
    assert_eq!(s1.shape, vec![2]);
    assert_eq!(s1.data, vec![6, 15]);
}

#[test]
fn product_axis_rows_and_cols() {
    let a = arr2x3();
    let p0 = a.product_axis(0).unwrap();
    assert_eq!(p0.data, vec![4, 10, 18]);
    let p1 = a.product_axis(1).unwrap();
    assert_eq!(p1.data, vec![6, 120]);
}

#[test]
fn sum_commutes_with_axis_decomposition() {
    let a = arr2x3();
    for ax in 0..2 {
        let s = a.sum_axis(ax).unwrap();
        assert_eq!(s.sum(), a.sum());
    }
}

#[test]
fn product_commutes_with_axis_decomposition() {
    let a = arr2x3();
    for ax in 0..2 {
        let p = a.product_axis(ax).unwrap();
        assert_eq!(p.product(), a.product());
    }
}

#[test]
fn axis_out_of_bounds_fails() {
    let a = arr2x3();
    assert!(matches!(a.sum_axis(2), Err(NumericError::AxisOutOfBounds)));
    assert!(matches!(a.product_axis(7), Err(NumericError::AxisOutOfBounds)));
    assert!(matches!(a.mean_axis(2), Err(NumericError::AxisOutOfBounds)));
}

#[test]
fn mean_whole_array() {
    let a = ArrayRef::from_vec(vec![1u64, 2, 3, 4], vec![4]);
    assert_eq!(a.mean(), Ok(Some(2)));
}

#[test]
fn mean_of_empty_is_none() {
    let a = ArrayRef::from_vec(Vec::<u64>::new(), vec![0]);
    assert_eq!(a.mean(), Ok(None));
}

#[test]
fn mean_axis_values() {
    let a = arr2x3();
    let m1 = a.mean_axis(1).unwrap().unwrap();
    assert_eq!(m1.data, vec![2, 5]);
    let m0 = a.mean_axis(0).unwrap().unwrap();
    assert_eq!(m0.data, vec![2, 3, 4]);
}

#[test]
fn mean_axis_zero_extent_is_none() {
    let a = ArrayRef::from_vec(Vec::<u64>::new(), vec![0, 3]);
    assert!(a.mean_axis(0).unwrap().is_none());
}

#[test]
fn layout_independent_reductions() {
    let a = arr2x3();
    let b = arr2x3_colmajor();
    assert_eq!(a.sum(), b.sum());
    assert_eq!(a.product(), b.product());
    assert_eq!(a.mean(), b.mean());
    for ax in 0..2 {
        assert_eq!(a.sum_axis(ax).unwrap().data, b.sum_axis(ax).unwrap().data);
        assert_eq!(
            a.product_axis(ax).unwrap().data,
            b.product_axis(ax).unwrap().data
        );
    }
}

#[test]
fn get_reads_strided_layout() {
    let b = arr2x3_colmajor();
    assert_eq!(b.len(), 6);
    assert_eq!(b.get(&vec![0, 0]), 1);
    assert_eq!(b.get(&vec![0, 2]), 3);
    assert_eq!(b.get(&vec![1, 1]), 5);
    assert_eq!(b.get_ord(5), 6);
}

#[test]
fn to_standard_copies_contents() {
    let b = arr2x3_colmajor();
    let c = b.to_standard();
    assert_eq!(c.data, vec![1, 2, 3, 4, 5, 6]);
    assert_eq!(c.shape, vec![2, 3]);
}
