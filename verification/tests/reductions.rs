use reduction_ops::array::NdArray;
use reduction_ops::ops::{
    ArgMax, OpError, ReduceGradCommon, ReduceMax, ReduceMean, ReduceMin, ReduceProd, ReduceSum,
    ReduceSumToScalar, ReduceSumToScalarGrad,
};

fn arr<E>(shape: Vec<usize>, data: Vec<E>) -> NdArray<E> {
    NdArray::from_shape_vec(shape, data).expect("well-formed array")
}

fn add(a: i64, b: i64) -> i64 {
    a + b
}

fn sum_op(keep_dims: bool, sparse_axes: bool) -> ReduceSum {
    ReduceSum { keep_dims, sparse_axes }
}

fn m23() -> NdArray<i64> {
    arr(vec![2, 3], vec![1, 2, 3, 4, 5, 6])
}

#[test]
fn sum_along_last_axis() {
    let y = sum_op(false, false).compute(&m23(), &vec![1], 0, &add).unwrap();
    assert_eq!(y.shape, vec![2]);
    assert_eq!(y.data, vec![6, 15]);
}

#[test]
fn sum_along_first_axis_keeps_dims() {
    let y = sum_op(true, false).compute(&m23(), &vec![0], 0, &add).unwrap();
    assert_eq!(y.shape, vec![1, 3]);
    assert_eq!(y.data, vec![5, 7, 9]);
}

#[test]
fn sum_along_all_axes() {
    let y = sum_op(false, false).compute(&m23(), &vec![1, 0], 0, &add).unwrap();
    assert_eq!(y.shape, Vec::<usize>::new());
    assert_eq!(y.data, vec![21]);
    let k = sum_op(true, false).compute(&m23(), &vec![0, 1], 0, &add).unwrap();
    assert_eq!(k.shape, vec![1, 1]);
    assert_eq!(k.data, vec![21]);
}

#[test]
fn sum_negative_axis_counts_from_end() {
    let y = sum_op(false, false).compute(&m23(), &vec![-1], 0, &add).unwrap();
    assert_eq!(y.shape, vec![2]);
    assert_eq!(y.data, vec![6, 15]);
    let z = sum_op(false, false).compute(&m23(), &vec![-2], 0, &add).unwrap();
    assert_eq!(z.data, vec![5, 7, 9]);
}

#[test]
fn sum_sparse_mask_selects_axes() {
    let y = sum_op(false, true).compute(&m23(), &vec![0, 1], 0, &add).unwrap();
    assert_eq!(y.shape, vec![2]);
    assert_eq!(y.data, vec![6, 15]);
    let all = sum_op(false, true).compute(&m23(), &vec![1, 1], 0, &add).unwrap();
    assert_eq!(all.data, vec![21]);
}

#[test]
fn sum_middle_axis_of_rank_three() {
    let x = arr(vec![2, 2, 2], (0..8).collect::<Vec<i64>>());
    let y = sum_op(false, false).compute(&x, &vec![1], 0, &add).unwrap();
    assert_eq!(y.shape, vec![2, 2]);
    // lanes: (0,2), (1,3), (4,6), (5,7)
    assert_eq!(y.data, vec![2, 4, 10, 12]);
}

#[test]
fn sum_without_axes_is_identity() {
    let y = sum_op(false, false).compute(&m23(), &vec![], 0, &add).unwrap();
    assert_eq!(y.shape, vec![2, 3]);
    assert_eq!(y.data, vec![1, 2, 3, 4, 5, 6]);
}

#[test]
fn scalar_is_returned_unchanged() {
    let s = arr(vec![], vec![7i64]);
    let y = sum_op(false, false).compute(&s, &vec![0], 0, &add).unwrap();
    assert_eq!(y.shape, Vec::<usize>::new());
    assert_eq!(y.data, vec![7]);
    let e: NdArray<i64> = arr(vec![0], vec![]);
    let z = sum_op(false, false).compute(&e, &vec![3], 0, &add).unwrap();
    assert_eq!(z.shape, vec![0]);
}

#[test]
fn invalid_index_value_is_an_error() {
    let r = sum_op(false, false).compute(&m23(), &vec![-3], 0, &add);
    assert_eq!(r.err(), Some(OpError::InvalidIndexValue));
}

#[test]
fn axis_out_of_range_is_an_error() {
    let r = sum_op(false, false).compute(&m23(), &vec![2], 0, &add);
    assert_eq!(r.err(), Some(OpError::AxisOutOfRange));
    let dup = sum_op(false, false).compute(&m23(), &vec![1, 1], 0, &add);
    assert_eq!(dup.err(), Some(OpError::AxisOutOfRange));
    let kept = sum_op(true, false).compute(&m23(), &vec![1, 1], 0, &add).unwrap();
    assert_eq!(kept.shape, vec![2, 1]);
    assert_eq!(kept.data, vec![6, 15]);
}

#[test]
fn fold_order_is_left_to_right_along_axis() {
    // a non-associative combination shows the order of the folds
    let x = arr(vec![3], vec![1i64, 2, 3]);
    let y = sum_op(false, false).compute(&x, &vec![0], 100, &|a: i64, b: i64| a * 10 - b).unwrap();
    // ((100*10 - 1)*10 - 2)*10 - 3
    assert_eq!(y.data, vec![99877]);
}

#[test]
fn prod_min_max_with_floats() {
    let x = arr(vec![2, 2], vec![1.5f64, -2.0, 3.0, 4.0]);
    let p = ReduceProd { keep_dims: false, sparse_axes: false }
        .compute(&x, &vec![1], 1.0, &|a: f64, b: f64| a * b)
        .unwrap();
    assert_eq!(p.data, vec![-3.0, 12.0]);
    let mn = ReduceMin { keep_dims: false, sparse_axes: false }
        .compute(&x, &vec![0], f64::MAX, &|a: f64, b: f64| a.min(b))
        .unwrap();
    assert_eq!(mn.data, vec![1.5, -2.0]);
    let mx = ReduceMax { keep_dims: true, sparse_axes: false }
        .compute(&x, &vec![0, 1], f64::MIN, &|a: f64, b: f64| a.max(b))
        .unwrap();
    assert_eq!(mx.shape, vec![1, 1]);
    assert_eq!(mx.data, vec![4.0]);
}

fn inv_len(v: Vec<usize>) -> f64 {
    let mut n = 1.0f64;
    for d in v {
        n *= d as f64;
    }
    1.0 / n
}

#[test]
fn mean_divides_sum_by_reduced_length() {
    let x = arr(vec![2, 2], vec![1.0f64, 2.0, 3.0, 4.0]);
    let op = ReduceMean { keep_dims: false, sparse_axes: false };
    let y = op.compute(&x, &vec![0], 0.0, &|a: f64, b: f64| a + b, &inv_len, &|a: f64, b: f64| a * b).unwrap();
    assert_eq!(y.shape, vec![2]);
    assert_eq!(y.data, vec![2.0, 3.0]);
    let all = op.compute(&x, &vec![0, 1], 0.0, &|a: f64, b: f64| a + b, &inv_len, &|a: f64, b: f64| a * b).unwrap();
    assert_eq!(all.data, vec![2.5]);
}

#[test]
fn mean_errors_and_identities() {
    let x = arr(vec![2, 2], vec![1.0f64, 2.0, 3.0, 4.0]);
    let op = ReduceMean { keep_dims: false, sparse_axes: false };
    let none = op.compute(&x, &vec![], 0.0, &|a: f64, b: f64| a + b, &inv_len, &|a: f64, b: f64| a * b).unwrap();
    assert_eq!(none.data, vec![1.0, 2.0, 3.0, 4.0]);
    let out = op.compute(&x, &vec![2], 0.0, &|a: f64, b: f64| a + b, &inv_len, &|a: f64, b: f64| a * b);
    assert_eq!(out.err(), Some(OpError::AxisOutOfRange));
    let bad = op.compute(&x, &vec![-9], 0.0, &|a: f64, b: f64| a + b, &inv_len, &|a: f64, b: f64| a * b);
    assert_eq!(bad.err(), Some(OpError::InvalidIndexValue));
    // a scalar of shape [0] is returned without scaling
    let e: NdArray<f64> = arr(vec![0], vec![]);
    let z = op.compute(&e, &vec![0], 0.0, &|a: f64, b: f64| a + b, &inv_len, &|a: f64, b: f64| a * b).unwrap();
    assert_eq!(z.shape, vec![0]);
}

fn argmax(x: &NdArray<i64>, axis: isize, keep_dim: bool) -> Result<NdArray<u128>, OpError> {
    ArgMax { axis, keep_dim }.compute(x, i64::MIN, &|a: i64, b: i64| a.max(b), &|a: i64, b: i64| a == b)
}

#[test]
fn argmax_reports_position_of_unique_maximum() {
    let x = arr(vec![2, 3], vec![1i64, 3, 2, 5, 4, 6]);
    let y = argmax(&x, 1, false).unwrap();
    assert_eq!(y.shape, vec![2]);
    assert_eq!(y.data, vec![1, 2]);
    let z = argmax(&x, 0, true).unwrap();
    assert_eq!(z.shape, vec![1, 3]);
    assert_eq!(z.data, vec![1, 1, 1]);
    let w = argmax(&x, -1, true).unwrap();
    assert_eq!(w.shape, vec![2, 1]);
    assert_eq!(w.data, vec![1, 2]);
}

#[test]
fn argmax_with_repeated_maximum_sums_marked_positions() {
    // marks alternate along a run of maxima: positions 0 and 2
    let x = arr(vec![3], vec![5i64, 5, 5]);
    assert_eq!(argmax(&x, 0, false).unwrap().data, vec![2]);
    let y = arr(vec![4], vec![5i64, 5, 5, 5]);
    assert_eq!(argmax(&y, 0, false).unwrap().data, vec![2]);
    let z = arr(vec![3], vec![5i64, 4, 5]);
    assert_eq!(argmax(&z, 0, false).unwrap().data, vec![2]);
    let w = arr(vec![6], vec![1i64, 1, 1, 1, 1, 1]);
    assert_eq!(argmax(&w, 0, false).unwrap().data, vec![6]);
}

#[test]
fn argmax_errors() {
    let x = arr(vec![2, 3], vec![1i64, 3, 2, 5, 4, 6]);
    assert_eq!(argmax(&x, 2, false).err(), Some(OpError::AxisOutOfRange));
    assert_eq!(argmax(&x, -3, false).err(), Some(OpError::AxisOutOfRange));
    let e: NdArray<i64> = arr(vec![2, 0], vec![]);
    assert_eq!(argmax(&e, 1, false).err(), Some(OpError::EmptyAxis));
    let ok = argmax(&e, 0, false).unwrap();
    assert_eq!(ok.shape, vec![0]);
}

fn common(make: bool, sparse: bool) -> ReduceGradCommon {
    ReduceGradCommon { should_make_broadcast_dims: make, sparse_axes: sparse }
}

#[test]
fn grad_broadcasts_into_input_shape() {
    let gy = arr(vec![2], vec![10i64, 20]);
    let g = common(true, false).compute(&gy, &vec![2, 3], &vec![1]).unwrap();
    assert_eq!(g.shape, vec![2, 3]);
    assert_eq!(g.data, vec![10, 10, 10, 20, 20, 20]);
    let h = common(true, false).compute(&arr(vec![3], vec![1i64, 2, 3]), &vec![2, 3], &vec![0]).unwrap();
    assert_eq!(h.data, vec![1, 2, 3, 1, 2, 3]);
}

#[test]
fn grad_of_kept_dims_needs_no_insertion() {
    let gy = arr(vec![2, 1], vec![10i64, 20]);
    let g = common(false, false).compute(&gy, &vec![2, 3], &vec![1]).unwrap();
    assert_eq!(g.data, vec![10, 10, 10, 20, 20, 20]);
}

#[test]
fn grad_of_same_shape_is_identity() {
    let gy = arr(vec![2], vec![1i64, 2]);
    let g = common(true, false).compute(&gy, &vec![2], &vec![-7]).unwrap();
    assert_eq!(g.data, vec![1, 2]);
}

#[test]
fn grad_of_scalar_inserts_dims() {
    let gy = arr(vec![], vec![4i64]);
    let g = common(false, false).compute(&gy, &vec![2, 2], &vec![0, 1]).unwrap();
    assert_eq!(g.shape, vec![2, 2]);
    assert_eq!(g.data, vec![4, 4, 4, 4]);
}

#[test]
fn bad_gradients_are_errors() {
    let gy = arr(vec![2], vec![1i64, 2]);
    let no_bcast = common(false, false).compute(&gy, &vec![2, 3], &vec![1]);
    assert_eq!(no_bcast.err(), Some(OpError::BadGradient));
    let bad_insert = common(true, false).compute(&gy, &vec![2, 3], &vec![5]);
    assert_eq!(bad_insert.err(), Some(OpError::BadGradient));
    let bad_axis = common(true, false).compute(&gy, &vec![2, 3], &vec![-5]);
    assert_eq!(bad_axis.err(), Some(OpError::InvalidIndexValue));
}

#[test]
fn grad_restores_shape_of_reduction_input() {
    let x = arr(vec![2, 3, 4], (0..24).collect::<Vec<i64>>());
    for keep in [false, true] {
        let op = sum_op(keep, false);
        let y = op.compute(&x, &vec![2, 0], 0, &add).unwrap();
        let g = op.grad(&y, &x.shape, &vec![2, 0]).unwrap();
        assert_eq!(g.shape, vec![2, 3, 4]);
        assert_eq!(g.data.len(), 24);
        // every element of the gradient is the sum over its lane pair
        assert_eq!(g.data[0], y.data[0]);
        assert_eq!(g.data[23], y.data[2]);
    }
}

#[test]
fn min_max_gradient_goes_to_the_extremes() {
    let x = arr(vec![2, 2], vec![1.0f64, 3.0, 2.0, 2.0]);
    let op = ReduceMax { keep_dims: false, sparse_axes: false };
    let out = op.compute(&x, &vec![1], f64::MIN, &|a: f64, b: f64| a.max(b)).unwrap();
    assert_eq!(out.data, vec![3.0, 2.0]);
    let gy = arr(vec![2], vec![10.0f64, 20.0]);
    let g = op
        .grad(&gy, &x, &out, &vec![1], 1.0, 0.0, &|a: f64, b: f64| a == b, &|a: f64, b: f64| a * b)
        .unwrap();
    assert_eq!(g.shape, vec![2, 2]);
    assert_eq!(g.data, vec![0.0, 10.0, 20.0, 20.0]);
    let mn = ReduceMin { keep_dims: false, sparse_axes: false };
    let omin = mn.compute(&x, &vec![1], f64::MAX, &|a: f64, b: f64| a.min(b)).unwrap();
    let gmin = mn
        .grad(&gy, &x, &omin, &vec![1], 1.0, 0.0, &|a: f64, b: f64| a == b, &|a: f64, b: f64| a * b)
        .unwrap();
    assert_eq!(gmin.data, vec![10.0, 0.0, 20.0, 20.0]);
}

#[test]
fn min_max_gradient_errors() {
    let x = arr(vec![2, 2], vec![1.0f64, 3.0, 2.0, 2.0]);
    let out = arr(vec![2], vec![3.0f64, 2.0]);
    let gy = arr(vec![2], vec![1.0f64, 1.0]);
    let r = reduction_ops::ops::min_max_grad(
        &gy, &x, &out, &vec![-4], false, false, 1.0, 0.0, &|a: f64, b: f64| a == b, &|a: f64, b: f64| a * b,
    );
    assert_eq!(r.err(), Some(OpError::InvalidIndexValue));
}

#[test]
fn prod_gradient_divides_by_input() {
    let x = arr(vec![2, 2], vec![1.0f64, 2.0, 3.0, 4.0]);
    let op = ReduceProd { keep_dims: false, sparse_axes: false };
    let out = op.compute(&x, &vec![1], 1.0, &|a: f64, b: f64| a * b).unwrap();
    assert_eq!(out.data, vec![2.0, 12.0]);
    let gy = arr(vec![2], vec![1.0f64, 1.0]);
    let g = op.grad(&gy, &x, &out, &vec![1], &|a: f64, b: f64| a * b, &|a: f64, b: f64| a / b).unwrap();
    assert_eq!(g.data, vec![2.0, 1.0, 4.0, 3.0]);
}

fn len_of(v: Vec<usize>) -> f64 {
    v.iter().fold(1.0, |a, &d| a * d as f64)
}

#[test]
fn mean_gradient_spreads_evenly() {
    let op = ReduceMean { keep_dims: false, sparse_axes: false };
    let gy = arr(vec![2], vec![1.0f64, 4.0]);
    let g = op.grad(&gy, &vec![2, 2], &vec![1], &len_of, &|a: f64, b: f64| a / b).unwrap();
    assert_eq!(g.shape, vec![2, 2]);
    assert_eq!(g.data, vec![0.5, 0.5, 2.0, 2.0]);
    let bad = op.grad(&gy, &vec![2, 2], &vec![-3], &len_of, &|a: f64, b: f64| a / b);
    assert_eq!(bad.err(), Some(OpError::InvalidIndexValue));
}

#[test]
fn mean_gradient_with_mask_gathers_at_mask_values() {
    let op = ReduceMean { keep_dims: false, sparse_axes: true };
    let gy = arr(vec![2], vec![6.0f64, 12.0]);
    // the mask [0, 1] reduces axis 1; the lengths are gathered at positions 0 and 1
    let g = op.grad(&gy, &vec![2, 3], &vec![0, 1], &len_of, &|a: f64, b: f64| a / b).unwrap();
    assert_eq!(g.shape, vec![2, 3]);
    assert_eq!(g.data, vec![1.0, 1.0, 1.0, 2.0, 2.0, 2.0]);
}

#[test]
fn sum_to_scalar_gradient_fills_shape() {
    let gy = arr(vec![], vec![7i64]);
    let g = ReduceSumToScalar.grad(&gy, &vec![2, 2]).unwrap();
    assert_eq!(g.shape, vec![2, 2]);
    assert_eq!(g.data, vec![7, 7, 7, 7]);
    let e: NdArray<i64> = arr(vec![0], vec![]);
    assert_eq!(ReduceSumToScalarGrad.compute(&e, &vec![2]).err(), Some(OpError::NoElement));
    let huge = vec![usize::MAX, 2];
    assert_eq!(ReduceSumToScalarGrad.compute(&gy, &huge).err(), Some(OpError::ShapeTooLarge));
}

#[test]
fn grad_of_grad_is_a_sum() {
    let op = sum_op(false, false);
    let g = op.grad_op();
    assert!(g.should_make_broadcast_dims);
    let back = g.grad_op();
    assert!(back.keep_dims);
    let gy = arr(vec![2, 3], vec![1i64, 1, 1, 2, 2, 2]);
    let s = g.grad(&gy, &vec![1], 0, &add).unwrap();
    assert_eq!(s.shape, vec![2, 1]);
    assert_eq!(s.data, vec![3, 6]);
}

#[test]
fn operator_names() {
    assert_eq!(ReduceMin { keep_dims: false, sparse_axes: false }.name(), "ReduceMin");
    assert_eq!(ReduceMax { keep_dims: false, sparse_axes: false }.name(), "ReduceMax");
    assert_eq!(ReduceProd { keep_dims: false, sparse_axes: false }.name(), "ReduceProd");
    assert_eq!(ReduceSumToScalar.name(), "ReduceSumToScalar");
    assert_eq!(ReduceSumToScalarGrad.name(), "ReduceSumToScalarGrad");
    assert_eq!(sum_op(false, false).name(), "ReduceSum");
    assert_eq!(ReduceMean { keep_dims: false, sparse_axes: false }.name(), "ReduceMean");
    assert_eq!(ArgMax { axis: 0, keep_dim: false }.name(), "ArgMax");
    assert_eq!(common(false, false).name(), "ReduceGradCommon");
}

#[test]
fn order_of_axes_does_not_matter() {
    let x = arr(vec![2, 3, 4], (0..24).collect::<Vec<i64>>());
    let a = sum_op(false, false).compute(&x, &vec![0, 2], 0, &add).unwrap();
    let b = sum_op(false, false).compute(&x, &vec![2, 0], 0, &add).unwrap();
    assert_eq!(a.shape, b.shape);
    assert_eq!(a.data, b.data);
}

#[test]
fn keep_dims_changes_only_the_shape() {
    let x = arr(vec![2, 3, 4], (0..24).collect::<Vec<i64>>());
    let k = sum_op(true, false).compute(&x, &vec![1, 2], 0, &add).unwrap();
    let d = sum_op(false, false).compute(&x, &vec![1, 2], 0, &add).unwrap();
    assert_eq!(k.shape, vec![2, 1, 1]);
    assert_eq!(d.shape, vec![2]);
    assert_eq!(k.data, d.data);
}

#[test]
fn summing_back_the_broadcast_gradient_multiplies_by_reduced_size() {
    for keep in [false, true] {
        let x_shape = vec![2, 3, 4];
        let gshape = if keep { vec![2, 1, 1] } else { vec![2] };
        let gy = arr(gshape.clone(), vec![5i64, 7]);
        let b = common(!keep, false).compute(&gy, &x_shape, &vec![1, 2]).unwrap();
        let back = sum_op(keep, false).compute(&b, &vec![1, 2], 0, &add).unwrap();
        assert_eq!(back.shape, gshape);
        assert_eq!(back.data, vec![60, 84]);
    }
}

#[test]
fn min_gradient_equals_shared_min_max_gradient() {
    let x = arr(vec![2, 2], vec![1.0f64, 3.0, 2.0, 2.0]);
    let op = ReduceMin { keep_dims: false, sparse_axes: false };
    let out = op.compute(&x, &vec![1], f64::MAX, &|a: f64, b: f64| a.min(b)).unwrap();
    let gy = arr(vec![2], vec![10.0f64, 20.0]);
    let eq = |a: f64, b: f64| a == b;
    let times = |a: f64, b: f64| a * b;
    let g1 = op.grad(&gy, &x, &out, &vec![1], 1.0, 0.0, &eq, &times).unwrap();
    let g2 = reduction_ops::ops::min_max_grad(&gy, &x, &out, &vec![1], false, false, 1.0, 0.0, &eq, &times).unwrap();
    assert_eq!(g1.shape, g2.shape);
    assert_eq!(g1.data, g2.data);
}
