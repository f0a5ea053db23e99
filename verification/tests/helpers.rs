use reduction_ops::array::{checked_pos_size, NdArray};
use reduction_ops::axes::{normalize_negative_axes, normalize_negative_axis, preprocess_axes, sort_axes, sparse_to_dense};
use reduction_ops::ops::check_axes_fit;
use reduction_ops::shape::{dims_product, is_scalar_shape_of};

#[test]
fn from_shape_vec_checks_sizes() {
    assert!(NdArray::from_shape_vec(vec![2, 3], vec![0u8; 6]).is_some());
    assert!(NdArray::from_shape_vec(vec![2, 3], vec![0u8; 5]).is_none());
    assert!(NdArray::<u8>::from_shape_vec(vec![0, usize::MAX], vec![]).is_none());
    assert!(NdArray::<u8>::from_shape_vec(vec![0, 4], vec![]).is_some());
}

#[test]
fn sizes_of_shapes() {
    assert_eq!(checked_pos_size(&vec![2, 0, 3]), Some(6));
    assert_eq!(checked_pos_size(&vec![usize::MAX, 2]), None);
    assert_eq!(dims_product(&vec![2, 3, 4], 1, 3), 12);
    assert_eq!(dims_product(&vec![2, 3, 4], 1, 1), 1);
}

#[test]
fn scalar_shapes() {
    assert!(is_scalar_shape_of(&vec![]));
    assert!(is_scalar_shape_of(&vec![0]));
    assert!(!is_scalar_shape_of(&vec![1]));
    assert!(!is_scalar_shape_of(&vec![0, 0]));
}

#[test]
fn axis_normalisation() {
    assert_eq!(normalize_negative_axis(-1, 3), 2);
    assert_eq!(normalize_negative_axis(1, 3), 1);
    assert_eq!(normalize_negative_axes(&vec![-1, 0, 5], 3), Some(vec![2, 0, 5]));
    assert_eq!(normalize_negative_axes(&vec![-4], 3), None);
}

#[test]
fn masks_to_axes() {
    assert_eq!(sparse_to_dense(&vec![1, 0, 1, 2]), vec![0, 2]);
    assert_eq!(sparse_to_dense(&vec![]), Vec::<usize>::new());
    assert_eq!(preprocess_axes(3, &vec![0, 1, 1], true), Some(vec![1, 2]));
    assert_eq!(preprocess_axes(3, &vec![-1], false), Some(vec![2]));
    assert_eq!(preprocess_axes(3, &vec![-5], false), None);
}

#[test]
fn axes_sorting_and_fitting() {
    let mut v = vec![3, 1, 2, 1];
    sort_axes(&mut v);
    assert_eq!(v, vec![1, 1, 2, 3]);
    assert!(check_axes_fit(3, &vec![0, 2], false));
    assert!(!check_axes_fit(3, &vec![2, 2], false));
    assert!(check_axes_fit(3, &vec![2, 2], true));
    assert!(!check_axes_fit(2, &vec![2], true));
}
