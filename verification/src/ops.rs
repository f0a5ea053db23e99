//! The reduction operators: their forward computations and gradients.
//!
//! Elements are of any `Copy` type; the arithmetic on them (addition,
//! comparison, ...) is handed in as functions, and the contracts relate each
//! result to the calls of those functions that produced it.

use vstd::prelude::*;
use crate::array::{checked_pos_size, wf_shape, NdArray};
use crate::axes::{
    axes_normalizable, normalize_negative_axes, normalize_negative_axis, normalized_axes,
    normalized_axis, preprocess_axes, preprocessed_axes, reduction_order,
    sort_axes, sorted_axes,
};
use crate::broadcast::{bcast_src, broadcastable, nd_broadcast};
use crate::fold::{
    argmax_axis, argmax_lane_rel, axes_fit, lane, lemma_split_at_axis, reduce_axes, reduce_rel,
    reduced_shape, step_shape,
};
use crate::shape::{
    copy_vec, dims_product, is_scalar_shape, is_scalar_shape_of, lemma_insert_one_size,
    lemma_size_le_pos, pos_size, same_shape, shape_size,
};

verus! {

/// Why an operator cannot compute its result.
#[derive(Debug, Clone, Copy, PartialEq, Eq)]
pub enum OpError {
    /// An axis value denotes no position: a negative value below minus the
    /// number of dimensions ("Invalid index value").
    InvalidIndexValue,
    /// An axis that the array does not have.
    AxisOutOfRange,
    /// An axis of length zero where elements along it are needed.
    EmptyAxis,
    /// The gradient cannot be reshaped and broadcast into the input's shape
    /// ("Bad gradient").
    BadGradient,
    /// An array without elements where one element is read.
    NoElement,
    /// A shape whose product of non-zero lengths exceeds `isize::MAX`.
    ShapeTooLarge,
}

/// Reduction to the minimum along axes.
pub struct ReduceMin {
    pub keep_dims: bool,
    pub sparse_axes: bool,
}

/// Reduction to the maximum along axes.
pub struct ReduceMax {
    pub keep_dims: bool,
    pub sparse_axes: bool,
}

/// Reduction to the product along axes.
pub struct ReduceProd {
    pub keep_dims: bool,
    pub sparse_axes: bool,
}

/// Sum of all the elements, as a scalar.
pub struct ReduceSumToScalar;

/// Gradient of `ReduceSumToScalar`: a scalar spread over a shape.
pub struct ReduceSumToScalarGrad;

/// Reduction to the sum along axes.
pub struct ReduceSum {
    pub keep_dims: bool,
    pub sparse_axes: bool,
}

/// Reduction to the mean along axes.
pub struct ReduceMean {
    pub keep_dims: bool,
    pub sparse_axes: bool,
}

/// Position of the maximum along an axis.
pub struct ArgMax {
    pub axis: isize,
    pub keep_dim: bool,
}

/// Gradient of the reductions: the output gradient broadcast back into the
/// input's shape.
pub struct ReduceGradCommon {
    pub should_make_broadcast_dims: bool,
    pub sparse_axes: bool,
}

impl ReduceMin {
    /// Name of the operator.
    pub fn name(&self) -> (r: &'static str)
        ensures
            r@ == "ReduceMin"@,
    {
        "ReduceMin"
    }
}

impl ReduceMax {
    /// Name of the operator.
    pub fn name(&self) -> (r: &'static str)
        ensures
            r@ == "ReduceMax"@,
    {
        "ReduceMax"
    }
}

impl ReduceProd {
    /// Name of the operator.
    pub fn name(&self) -> (r: &'static str)
        ensures
            r@ == "ReduceProd"@,
    {
        "ReduceProd"
    }
}

impl ReduceSumToScalar {
    /// Name of the operator.
    pub fn name(&self) -> (r: &'static str)
        ensures
            r@ == "ReduceSumToScalar"@,
    {
        "ReduceSumToScalar"
    }
}

impl ReduceSumToScalarGrad {
    /// Name of the operator.
    pub fn name(&self) -> (r: &'static str)
        ensures
            r@ == "ReduceSumToScalarGrad"@,
    {
        "ReduceSumToScalarGrad"
    }
}

impl ReduceSum {
    /// Name of the operator.
    pub fn name(&self) -> (r: &'static str)
        ensures
            r@ == "ReduceSum"@,
    {
        "ReduceSum"
    }
}

impl ReduceMean {
    /// Name of the operator.
    pub fn name(&self) -> (r: &'static str)
        ensures
            r@ == "ReduceMean"@,
    {
        "ReduceMean"
    }
}

impl ArgMax {
    /// Name of the operator.
    pub fn name(&self) -> (r: &'static str)
        ensures
            r@ == "ArgMax"@,
    {
        "ArgMax"
    }
}

impl ReduceGradCommon {
    /// Name of the operator.
    pub fn name(&self) -> (r: &'static str)
        ensures
            r@ == "ReduceGradCommon"@,
    {
        "ReduceGradCommon"
    }
}

/// What reducing `(xs, xd)` with `f` from `init` along the axis argument
/// `axes` gives: an error where the argument denotes no axis or an axis that
/// cannot be folded, the array itself for a scalar or no axes, and otherwise
/// the folds of `reduce_axes`.
pub open spec fn reduce_outcome<E, F: Fn(E, E) -> E>(
    f: F,
    init: E,
    xs: Seq<usize>,
    xd: Seq<E>,
    axes: Seq<i64>,
    keep: bool,
    sparse: bool,
    r: Result<NdArray<E>, OpError>,
) -> bool {
    match preprocessed_axes(xs.len(), axes, sparse) {
        None => r == Err::<NdArray<E>, OpError>(OpError::InvalidIndexValue),
        Some(ax) => if is_scalar_shape(xs) || ax.len() == 0 {
            r matches Ok(y) && y.wf() && y.shape@ == xs && y.data@ == xd
        } else if axes_fit(xs.len(), reduction_order(ax), keep) {
            r matches Ok(y) && y.wf() && y.shape@ == reduced_shape(xs, reduction_order(ax), keep)
                && reduce_rel(f, init, xs, xd, reduction_order(ax), keep, y.shape@, y.data@)
        } else {
            r == Err::<NdArray<E>, OpError>(OpError::AxisOutOfRange)
        },
    }
}

/// Whether each axis of `axes`, folded in `reduction_order`, is an axis of
/// the array it is folded out of.
pub fn check_axes_fit(ndim: usize, axes: &Vec<usize>, keep: bool) -> (b: bool)
    ensures
        b == axes_fit(ndim as nat, reduction_order(axes@), keep),
{
    let mut sorted = copy_vec(axes);
    sort_axes(&mut sorted);
    let ghost order = reduction_order(axes@);
    let n = sorted.len();
    let mut t: usize = 0;
    while t < n
        invariant
            n == sorted@.len(),
            order == sorted@.reverse(),
            order == reduction_order(axes@),
            t <= n,
            forall|i: int|
                0 <= i < t ==> #[trigger] order[i] < (if keep {
                    ndim as int
                } else {
                    ndim - i
                }),
        decreases n - t,
    {
        let a = sorted[n - 1 - t];
        assert(order[t as int] == a);
        let fits = if keep {
            a < ndim
        } else {
            t < ndim && a < ndim - t
        };
        if !fits {
            assert(order.len() == n);
            assert(0 <= t < order.len());
            assert(!(order[t as int] < (if keep {
                ndim as int
            } else {
                ndim - t
            })));
            assert(!axes_fit(ndim as nat, order, keep));
            return false;
        }
        t = t + 1;
    }
    true
}

/// Reduces `x` with `f` from `init` along the axis argument `axes`.
pub fn reduce_compute<E: Copy, F: Fn(E, E) -> E>(
    x: &NdArray<E>,
    axes: &Vec<i64>,
    keep_dims: bool,
    sparse_axes: bool,
    init: E,
    f: &F,
) -> (r: Result<NdArray<E>, OpError>)
    requires
        x.wf(),
        forall|a: E, b: E| f.requires((a, b)),
    ensures
        reduce_outcome(*f, init, x.shape@, x.data@, axes@, keep_dims, sparse_axes, r),
{
    let ax = match preprocess_axes(x.shape.len(), axes, sparse_axes) {
        Some(ax) => ax,
        None => {
            return Err(OpError::InvalidIndexValue);
        },
    };
    if is_scalar_shape_of(&x.shape) || ax.len() == 0 {
        return Ok(NdArray { shape: copy_vec(&x.shape), data: copy_vec(&x.data) });
    }
    if !check_axes_fit(x.shape.len(), &ax, keep_dims) {
        return Err(OpError::AxisOutOfRange);
    }
    Ok(reduce_axes(x, ax, keep_dims, init, f))
}

impl ReduceSum {
    /// Sum of `x` along the axis argument `axes`, with `add` and `zero` the
    /// addition of elements and its neutral element.
    pub fn compute<E: Copy, F: Fn(E, E) -> E>(
        &self,
        x: &NdArray<E>,
        axes: &Vec<i64>,
        zero: E,
        add: &F,
    ) -> (r: Result<NdArray<E>, OpError>)
        requires
            x.wf(),
            forall|a: E, b: E| add.requires((a, b)),
        ensures
            reduce_outcome(*add, zero, x.shape@, x.data@, axes@, self.keep_dims, self.sparse_axes, r),
    {
        reduce_compute(x, axes, self.keep_dims, self.sparse_axes, zero, add)
    }
}

impl ReduceProd {
    /// Product of `x` along the axis argument `axes`, with `mul` and `one`
    /// the multiplication of elements and its neutral element.
    pub fn compute<E: Copy, F: Fn(E, E) -> E>(
        &self,
        x: &NdArray<E>,
        axes: &Vec<i64>,
        one: E,
        mul: &F,
    ) -> (r: Result<NdArray<E>, OpError>)
        requires
            x.wf(),
            forall|a: E, b: E| mul.requires((a, b)),
        ensures
            reduce_outcome(*mul, one, x.shape@, x.data@, axes@, self.keep_dims, self.sparse_axes, r),
    {
        reduce_compute(x, axes, self.keep_dims, self.sparse_axes, one, mul)
    }
}

impl ReduceMin {
    /// Minimum of `x` along the axis argument `axes`, with `min` the minimum
    /// of two elements and `max_value` the largest element.
    pub fn compute<E: Copy, F: Fn(E, E) -> E>(
        &self,
        x: &NdArray<E>,
        axes: &Vec<i64>,
        max_value: E,
        min: &F,
    ) -> (r: Result<NdArray<E>, OpError>)
        requires
            x.wf(),
            forall|a: E, b: E| min.requires((a, b)),
        ensures
            reduce_outcome(*min, max_value, x.shape@, x.data@, axes@, self.keep_dims, self.sparse_axes, r),
    {
        reduce_compute(x, axes, self.keep_dims, self.sparse_axes, max_value, min)
    }
}

impl ReduceMax {
    /// Maximum of `x` along the axis argument `axes`, with `max` the maximum
    /// of two elements and `min_value` the smallest element.
    pub fn compute<E: Copy, F: Fn(E, E) -> E>(
        &self,
        x: &NdArray<E>,
        axes: &Vec<i64>,
        min_value: E,
        max: &F,
    ) -> (r: Result<NdArray<E>, OpError>)
        requires
            x.wf(),
            forall|a: E, b: E| max.requires((a, b)),
        ensures
            reduce_outcome(*max, min_value, x.shape@, x.data@, axes@, self.keep_dims, self.sparse_axes, r),
    {
        reduce_compute(x, axes, self.keep_dims, self.sparse_axes, min_value, max)
    }
}

/// `s` with a dimension of length one inserted at each axis of `ax`, in order.
pub open spec fn insert_ones(s: Seq<usize>, ax: Seq<usize>) -> Seq<usize>
    decreases ax.len(),
{
    if ax.len() == 0 {
        s
    } else {
        insert_ones(s, ax.drop_last()).insert(ax.last() as int, 1)
    }
}

/// Each axis of `ax` is a place where a dimension can be inserted into a
/// shape of `n` dimensions after the insertions before it.
pub open spec fn insertable(n: nat, ax: Seq<usize>) -> bool {
    forall|i: int| 0 <= i < ax.len() ==> #[trigger] ax[i] <= n + i
}

/// The shape in which the gradient `gy` is viewed before it is broadcast into
/// `target`: its own shape, or, when broadcast dimensions are made (or `gy`
/// is a scalar), its shape with a dimension of length one inserted at each
/// reduced axis, in increasing order.
pub open spec fn grad_view_shape(
    make_dims: bool,
    sparse: bool,
    gy_shape: Seq<usize>,
    target: Seq<usize>,
    axes: Seq<i64>,
) -> Result<Seq<usize>, OpError> {
    if !(make_dims || is_scalar_shape(gy_shape)) {
        Ok(gy_shape)
    } else {
        match preprocessed_axes(target.len(), axes, sparse) {
            None => Err(OpError::InvalidIndexValue),
            Some(ax) => if insertable(gy_shape.len(), sorted_axes(ax)) {
                Ok(insert_ones(gy_shape, sorted_axes(ax)))
            } else {
                Err(OpError::BadGradient)
            },
        }
    }
}

/// The result of broadcasting the gradient `(gs, gd)` into `target`, as a
/// shape and elements: the gradient itself when it has that shape;
/// otherwise the error of `grad_view_shape`, an error where the view cannot
/// be broadcast into `target`, or the broadcast.
pub open spec fn grad_spec<E>(
    make_dims: bool,
    sparse: bool,
    gs: Seq<usize>,
    gd: Seq<E>,
    target: Seq<usize>,
    axes: Seq<i64>,
) -> Result<(Seq<usize>, Seq<E>), OpError> {
    if gs == target {
        Ok((gs, gd))
    } else {
        match grad_view_shape(make_dims, sparse, gs, target, axes) {
            Err(e) => Err(e),
            Ok(v) => if broadcastable(v, target) && pos_size(target) <= isize::MAX {
                Ok((target, Seq::new(shape_size(target), |j: int| gd[bcast_src(v, target, j)])))
            } else {
                Err(OpError::BadGradient)
            },
        }
    }
}

/// `r` is the outcome `s`: the same error, or a well-formed array with the
/// same shape and elements.
pub open spec fn result_matches<E>(
    r: Result<NdArray<E>, OpError>,
    s: Result<(Seq<usize>, Seq<E>), OpError>,
) -> bool {
    match s {
        Ok((sh, d)) => r matches Ok(y) && y.wf() && y.shape@ == sh && y.data@ == d,
        Err(e) => r == Err::<NdArray<E>, OpError>(e),
    }
}

impl ReduceGradCommon {
    /// Broadcasts the output gradient `gy` of a reduction into the shape
    /// `target_shape` of the reduction's input; `axes` is the reduction's
    /// axis argument.
    #[verifier::loop_isolation(false)]
    pub fn compute<E: Copy>(&self, gy: &NdArray<E>, target_shape: &Vec<usize>, axes: &Vec<i64>) -> (r:
        Result<NdArray<E>, OpError>)
        requires
            gy.wf(),
        ensures
            result_matches(
                r,
                grad_spec(
                    self.should_make_broadcast_dims,
                    self.sparse_axes,
                    gy.shape@,
                    gy.data@,
                    target_shape@,
                    axes@,
                ),
            ),
    {
        if same_shape(&gy.shape, target_shape) {
            return Ok(NdArray { shape: copy_vec(&gy.shape), data: copy_vec(&gy.data) });
        }
        let x_is_scalar = is_scalar_shape_of(&gy.shape);
        let mut view_shape = copy_vec(&gy.shape);
        if self.should_make_broadcast_dims || x_is_scalar {
            let mut ax = match preprocess_axes(target_shape.len(), axes, self.sparse_axes) {
                Some(ax) => ax,
                None => {
                    return Err(OpError::InvalidIndexValue);
                },
            };
            let ghost ax0 = ax@;
            sort_axes(&mut ax);
            let ghost gs = gy.shape@;
            let n = ax.len();
            let mut i: usize = 0;
            assert(ax@.take(0) =~= Seq::<usize>::empty());
            while i < n
                invariant
                    n == ax@.len(),
                    ax@ == sorted_axes(ax0),
                    i <= n,
                    view_shape@ == insert_ones(gs, ax@.take(i as int)),
                    view_shape@.len() == gs.len() + i,
                    forall|k: int| 0 <= k < i ==> #[trigger] ax@[k] <= gs.len() + k,
                    wf_shape(view_shape@, gy.data@.len()),
                decreases n - i,
            {
                let axis = ax[i];
                if axis > view_shape.len() {
                    assert(!insertable(gs.len(), ax@));
                    return Err(OpError::BadGradient);
                }
                proof {
                    lemma_insert_one_size(view_shape@, axis as int);
                    assert(ax@.take(i + 1).drop_last() =~= ax@.take(i as int));
                }
                view_shape.insert(axis, 1);
                i = i + 1;
            }
            assert(ax@.take(n as int) =~= ax@);
            assert(insertable(gs.len(), ax@));
        }
        match nd_broadcast(&view_shape, &gy.data, target_shape) {
            Some(v) => {
                proof {
                    let ghost vs = view_shape@;
                    assert(v@ =~= Seq::new(
                        shape_size(target_shape@),
                        |j: int| gy.data@[bcast_src(vs, target_shape@, j)],
                    ));
                }
                Ok(NdArray { shape: copy_vec(target_shape), data: v })
            },
            None => Err(OpError::BadGradient),
        }
    }
}

/// The lengths of the axes `ax` of shape `s`.
pub open spec fn axis_lengths(s: Seq<usize>, ax: Seq<usize>) -> Seq<usize> {
    Seq::new(ax.len(), |i: int| s[ax[i] as int])
}

/// Every axis of `ax` is an axis of shape `s`.
pub open spec fn axes_in_shape(s: Seq<usize>, ax: Seq<usize>) -> bool {
    forall|i: int| 0 <= i < ax.len() ==> #[trigger] ax[i] < s.len()
}

/// The lengths of the axes `ax` of shape `s`; `None` where an axis is not
/// one of the shape.
pub fn lengths_of_axes(s: &Vec<usize>, ax: &Vec<usize>) -> (r: Option<Vec<usize>>)
    ensures
        r.is_some() == axes_in_shape(s@, ax@),
        r matches Some(v) ==> v@ == axis_lengths(s@, ax@),
{
    let mut out: Vec<usize> = Vec::new();
    let mut i: usize = 0;
    while i < ax.len()
        invariant
            i <= ax.len(),
            out@.len() == i,
            forall|k: int| 0 <= k < i ==> #[trigger] ax@[k] < s@.len(),
            forall|k: int| 0 <= k < i ==> out@[k] == s@[ax@[k] as int],
        decreases ax.len() - i,
    {
        if ax[i] >= s.len() {
            assert(!axes_in_shape(s@, ax@));
            return None;
        }
        out.push(s[ax[i]]);
        i = i + 1;
    }
    assert(out@ =~= axis_lengths(s@, ax@));
    Some(out)
}

/// `r` is `x` scaled elementwise by `inv`: `r[j]` is a result of `times(x[j], inv)`.
pub open spec fn scaled_rel<E, H: Fn(E, E) -> E>(times: H, x: Seq<E>, inv: E, r: Seq<E>) -> bool {
    &&& r.len() == x.len()
    &&& forall|j: int| 0 <= j < r.len() ==> call_ensures(times, (x[j], inv), #[trigger] r[j])
}

/// What the mean of `(xs, xd)` along the axis argument `axes` gives: the
/// errors of the axis argument, the array itself for no axes or a scalar,
/// and otherwise the sum scaled by the result of `inv_len` on the lengths of
/// the reduced axes.
pub open spec fn mean_outcome<E, F: Fn(E, E) -> E, G: Fn(Vec<usize>) -> E, H: Fn(E, E) -> E>(
    zero: E,
    add: F,
    inv_len: G,
    times: H,
    xs: Seq<usize>,
    xd: Seq<E>,
    axes: Seq<i64>,
    keep: bool,
    sparse: bool,
    r: Result<NdArray<E>, OpError>,
) -> bool {
    match preprocessed_axes(xs.len(), axes, sparse) {
        None => r == Err::<NdArray<E>, OpError>(OpError::InvalidIndexValue),
        Some(ax) => if ax.len() == 0 {
            r matches Ok(y) && y.wf() && y.shape@ == xs && y.data@ == xd
        } else if !axes_in_shape(xs, ax) {
            r == Err::<NdArray<E>, OpError>(OpError::AxisOutOfRange)
        } else if is_scalar_shape(xs) {
            r matches Ok(y) && y.wf() && y.shape@ == xs && y.data@ == xd
        } else if !axes_fit(xs.len(), reduction_order(ax), keep) {
            r == Err::<NdArray<E>, OpError>(OpError::AxisOutOfRange)
        } else {
            r matches Ok(y) && y.wf() && y.shape@ == reduced_shape(xs, reduction_order(ax), keep)
                && exists|sum: Seq<E>, lens: Vec<usize>, inv: E|
                #![trigger reduce_rel(add, zero, xs, xd, reduction_order(ax), keep, y.shape@, sum), call_ensures(inv_len, (lens,), inv)]
                reduce_rel(add, zero, xs, xd, reduction_order(ax), keep, y.shape@, sum)
                    && lens@ == axis_lengths(xs, ax) && call_ensures(inv_len, (lens,), inv)
                    && scaled_rel(times, sum, inv, y.data@)
        },
    }
}

impl ReduceMean {
    /// Mean of `x` along the axis argument `axes`: the sum (with `add` from
    /// `zero`) multiplied (`times`) by `inv_len` of the lengths of the reduced
    /// axes, the inverse of their product.
    pub fn compute<E: Copy, F: Fn(E, E) -> E, G: Fn(Vec<usize>) -> E, H: Fn(E, E) -> E>(
        &self,
        x: &NdArray<E>,
        axes: &Vec<i64>,
        zero: E,
        add: &F,
        inv_len: &G,
        times: &H,
    ) -> (r: Result<NdArray<E>, OpError>)
        requires
            x.wf(),
            forall|a: E, b: E| add.requires((a, b)),
            forall|v: Vec<usize>| inv_len.requires((v,)),
            forall|a: E, b: E| times.requires((a, b)),
        ensures
            mean_outcome(
                zero,
                *add,
                *inv_len,
                *times,
                x.shape@,
                x.data@,
                axes@,
                self.keep_dims,
                self.sparse_axes,
                r,
            ),
    {
        let ax = match preprocess_axes(x.shape.len(), axes, self.sparse_axes) {
            Some(ax) => ax,
            None => {
                return Err(OpError::InvalidIndexValue);
            },
        };
        if ax.len() == 0 {
            return Ok(NdArray { shape: copy_vec(&x.shape), data: copy_vec(&x.data) });
        }
        let lens = match lengths_of_axes(&x.shape, &ax) {
            Some(l) => l,
            None => {
                return Err(OpError::AxisOutOfRange);
            },
        };
        if is_scalar_shape_of(&x.shape) {
            return Ok(NdArray { shape: copy_vec(&x.shape), data: copy_vec(&x.data) });
        }
        if !check_axes_fit(x.shape.len(), &ax, self.keep_dims) {
            return Err(OpError::AxisOutOfRange);
        }
        let ghost ax_s = ax@;
        let sum = reduce_axes(x, ax, self.keep_dims, zero, add);
        let ghost lens_v = lens;
        let inv = inv_len(lens);
        let mut out: Vec<E> = Vec::new();
        let mut j: usize = 0;
        while j < sum.data.len()
            invariant
                j <= sum.data@.len(),
                out@.len() == j,
                forall|a: E, b: E| times.requires((a, b)),
                forall|k: int| 0 <= k < j ==> call_ensures(*times, (sum.data@[k], inv), #[trigger] out@[k]),
            decreases sum.data@.len() - j,
        {
            let v = times(sum.data[j], inv);
            out.push(v);
            j = j + 1;
        }
        assert(scaled_rel(*times, sum.data@, inv, out@));
        assert(reduce_rel(*add, zero, x.shape@, x.data@, reduction_order(ax_s), self.keep_dims, sum.shape@, sum.data@));
        assert(call_ensures(*inv_len, (lens_v,), inv));
        Ok(NdArray { shape: sum.shape, data: out })
    }
}

/// What the arg-max of `(xs, xd)` along axis value `axis` gives: an error
/// for an axis the array does not have or an axis of length zero, and
/// otherwise the arg-max of each lane along the axis, which is dropped, or
/// kept with length one when `keep`.
pub open spec fn argmax_outcome<E, F: Fn(E, E) -> E, G: Fn(E, E) -> bool>(
    max: F,
    min_value: E,
    eq: G,
    axis: isize,
    keep: bool,
    xs: Seq<usize>,
    xd: Seq<E>,
    r: Result<NdArray<u128>, OpError>,
) -> bool {
    if !(-(xs.len() as int) <= axis < xs.len()) {
        r == Err::<NdArray<u128>, OpError>(OpError::AxisOutOfRange)
    } else {
        let a = normalized_axis(axis as int, xs.len());
        if xs[a] == 0 {
            r == Err::<NdArray<u128>, OpError>(OpError::EmptyAxis)
        } else {
            r matches Ok(y) && y.wf() && y.shape@ == step_shape(xs, a, keep) && forall|j: int|
                0 <= j < y.data@.len() ==> argmax_lane_rel(
                    max,
                    min_value,
                    eq,
                    lane(xs, xd, a, j),
                    #[trigger] y.data@[j],
                )
        }
    }
}

impl ArgMax {
    /// Arg-max of `x` along `self.axis` (negative values count from the
    /// end), with `max` the maximum of two elements, `min_value` the smallest
    /// element and `eq` the equality of elements.  Along each lane, a position
    /// is marked when its element equals the lane's maximum and the position
    /// before it is not marked; the result is the sum of the marked positions.
    pub fn compute<E: Copy, F: Fn(E, E) -> E, G: Fn(E, E) -> bool>(
        &self,
        x: &NdArray<E>,
        min_value: E,
        max: &F,
        eq: &G,
    ) -> (r: Result<NdArray<u128>, OpError>)
        requires
            x.wf(),
            forall|a: E, b: E| max.requires((a, b)),
            forall|a: E, b: E| eq.requires((a, b)),
        ensures
            argmax_outcome(*max, min_value, *eq, self.axis, self.keep_dim, x.shape@, x.data@, r),
    {
        let ndim = x.shape.len();
        if !((self.axis as i128) >= -(ndim as i128) && (self.axis as i128) < (ndim as i128)) {
            return Err(OpError::AxisOutOfRange);
        }
        let axis = normalize_negative_axis(self.axis, ndim);
        if x.shape[axis] == 0 {
            return Err(OpError::EmptyAxis);
        }
        let values = argmax_axis(&x.shape, &x.data, axis, min_value, max, eq);
        let mut shape = copy_vec(&x.shape);
        let ghost xs = x.shape@;
        proof {
            lemma_split_at_axis(xs, axis as int);
        }
        if self.keep_dim {
            shape.set(axis, 1);
        } else {
            shape.remove(axis);
        }
        assert(shape@ =~= step_shape(xs, axis as int, self.keep_dim));
        Ok(NdArray { shape, data: values })
    }
}

/// `r` is `f` applied elementwise to `a` and `b`.
pub open spec fn zip_rel<E, F: Fn(E, E) -> E>(f: F, a: Seq<E>, b: Seq<E>, r: Seq<E>) -> bool {
    &&& r.len() == a.len()
    &&& forall|i: int| 0 <= i < r.len() ==> call_ensures(f, (a[i], b[i]), #[trigger] r[i])
}

/// `f` applied elementwise to `a` and `b`.
pub fn zip_with<E: Copy, F: Fn(E, E) -> E>(a: &Vec<E>, b: &Vec<E>, f: &F) -> (r: Vec<E>)
    requires
        a@.len() == b@.len(),
        forall|x: E, y: E| f.requires((x, y)),
    ensures
        zip_rel(*f, a@, b@, r@),
{
    let mut out: Vec<E> = Vec::new();
    let mut i: usize = 0;
    while i < a.len()
        invariant
            a@.len() == b@.len(),
            forall|x: E, y: E| f.requires((x, y)),
            i <= a@.len(),
            out@.len() == i,
            forall|k: int| 0 <= k < i ==> call_ensures(*f, (a@[k], b@[k]), #[trigger] out@[k]),
        decreases a@.len() - i,
    {
        out.push(f(a[i], b[i]));
        i = i + 1;
    }
    out
}

/// `r` is the gradient of a minimum or maximum: `r[i]` is a result of
/// `times(one, gb[i])` where `eq(xd[i], yb[i])` gives true, and of
/// `times(zero, gb[i])` where it gives false.
pub open spec fn min_max_grad_rel<E, G: Fn(E, E) -> bool, H: Fn(E, E) -> E>(
    eq: G,
    times: H,
    one: E,
    zero: E,
    xd: Seq<E>,
    yb: Seq<E>,
    gb: Seq<E>,
    r: Seq<E>,
) -> bool {
    &&& r.len() == xd.len()
    &&& forall|i: int|
        0 <= i < r.len() ==> min_max_grad_elem(eq, times, one, zero, xd[i], yb[i], gb[i], #[trigger] r[i])
}

/// `o` is a result of `times(one, g)` when `eq(x, y)` gives true, and of
/// `times(zero, g)` when it gives false.
pub open spec fn min_max_grad_elem<E, G: Fn(E, E) -> bool, H: Fn(E, E) -> E>(
    eq: G,
    times: H,
    one: E,
    zero: E,
    x: E,
    y: E,
    g: E,
    o: E,
) -> bool {
    exists|e: bool|
        #[trigger] call_ensures(eq, (x, y), e) && call_ensures(
            times,
            (if e {
                one
            } else {
                zero
            }, g),
            o,
        )
}

/// What the gradient of a minimum or maximum gives: the errors of
/// broadcasting the output and its gradient into the input's shape, and
/// otherwise `min_max_grad_rel` of the two broadcasts.
pub open spec fn min_max_grad_outcome<E, G: Fn(E, E) -> bool, H: Fn(E, E) -> E>(
    eq: G,
    times: H,
    one: E,
    zero: E,
    keep: bool,
    sparse: bool,
    gs: Seq<usize>,
    gd: Seq<E>,
    xs: Seq<usize>,
    xd: Seq<E>,
    ys: Seq<usize>,
    yd: Seq<E>,
    axes: Seq<i64>,
    r: Result<NdArray<E>, OpError>,
) -> bool {
    match grad_spec(!keep, sparse, ys, yd, xs, axes) {
        Err(e) => r == Err::<NdArray<E>, OpError>(e),
        Ok((_ybs, ybd)) => match grad_spec(!keep, sparse, gs, gd, xs, axes) {
            Err(e) => r == Err::<NdArray<E>, OpError>(e),
            Ok((_gbs, gbd)) => r matches Ok(o) && o.wf() && o.shape@ == xs && min_max_grad_rel(
                eq,
                times,
                one,
                zero,
                xd,
                ybd,
                gbd,
                o.data@,
            ),
        },
    }
}

/// Gradient of a minimum or maximum `output` of `x` along `axes`, given the
/// output gradient `gy`: the output and `gy` are broadcast into the shape of
/// `x`, and each element of `x` equal (`eq`) to the broadcast output gets
/// `times(one, g)`, each other element `times(zero, g)`, for the broadcast
/// gradient `g` at its position.
pub fn min_max_grad<E: Copy, G: Fn(E, E) -> bool, H: Fn(E, E) -> E>(
    gy: &NdArray<E>,
    x: &NdArray<E>,
    output: &NdArray<E>,
    axes: &Vec<i64>,
    keep_dims: bool,
    sparse_axes: bool,
    one: E,
    zero: E,
    eq: &G,
    times: &H,
) -> (r: Result<NdArray<E>, OpError>)
    requires
        gy.wf(),
        x.wf(),
        output.wf(),
        forall|a: E, b: E| eq.requires((a, b)),
        forall|a: E, b: E| times.requires((a, b)),
    ensures
        min_max_grad_outcome(
            *eq,
            *times,
            one,
            zero,
            keep_dims,
            sparse_axes,
            gy.shape@,
            gy.data@,
            x.shape@,
            x.data@,
            output.shape@,
            output.data@,
            axes@,
            r,
        ),
{
    let grad_op = ReduceGradCommon { should_make_broadcast_dims: !keep_dims, sparse_axes };
    let y = match grad_op.compute(output, &x.shape, axes) {
        Ok(y) => y,
        Err(e) => {
            return Err(e);
        },
    };
    let g = match grad_op.compute(gy, &x.shape, axes) {
        Ok(g) => g,
        Err(e) => {
            return Err(e);
        },
    };
    assert(y.shape@ == x.shape@ && y.wf());
    assert(g.shape@ == x.shape@ && g.wf());
    let mut out: Vec<E> = Vec::new();
    let mut i: usize = 0;
    let n = x.data.len();
    while i < n
        invariant
            n == x.data@.len(),
            y.data@.len() == n,
            g.data@.len() == n,
            forall|a: E, b: E| eq.requires((a, b)),
            forall|a: E, b: E| times.requires((a, b)),
            i <= n,
            out@.len() == i,
            forall|k: int|
                0 <= k < i ==> min_max_grad_elem(
                    *eq,
                    *times,
                    one,
                    zero,
                    x.data@[k],
                    y.data@[k],
                    g.data@[k],
                    #[trigger] out@[k],
                ),
        decreases n - i,
    {
        let e = eq(x.data[i], y.data[i]);
        let m = if e {
            one
        } else {
            zero
        };
        let v = times(m, g.data[i]);
        let ghost old_out = out@;
        out.push(v);
        assert(call_ensures(*eq, (x.data@[i as int], y.data@[i as int]), e));
        assert(out@[i as int] == v);
        assert(call_ensures(*times, (m, g.data@[i as int]), out@[i as int]));
        assert(min_max_grad_elem(*eq, *times, one, zero, x.data@[i as int], y.data@[i as int], g.data@[i as int], out@[i as int]));
        assert forall|k: int| 0 <= k < i implies #[trigger] out@[k] == old_out[k] by {}
        i = i + 1;
    }
    Ok(NdArray { shape: copy_vec(&x.shape), data: out })
}

impl ReduceMin {
    /// Gradient of the minimum: see `min_max_grad`.
    pub fn grad<E: Copy, G: Fn(E, E) -> bool, H: Fn(E, E) -> E>(
        &self,
        gy: &NdArray<E>,
        x: &NdArray<E>,
        output: &NdArray<E>,
        axes: &Vec<i64>,
        one: E,
        zero: E,
        eq: &G,
        times: &H,
    ) -> (r: Result<NdArray<E>, OpError>)
        requires
            gy.wf(),
            x.wf(),
            output.wf(),
            forall|a: E, b: E| eq.requires((a, b)),
            forall|a: E, b: E| times.requires((a, b)),
        ensures
            min_max_grad_outcome(
                *eq,
                *times,
                one,
                zero,
                self.keep_dims,
                self.sparse_axes,
                gy.shape@,
                gy.data@,
                x.shape@,
                x.data@,
                output.shape@,
                output.data@,
                axes@,
                r,
            ),
    {
        min_max_grad(gy, x, output, axes, self.keep_dims, self.sparse_axes, one, zero, eq, times)
    }
}

impl ReduceMax {
    /// Gradient of the maximum: see `min_max_grad`.
    pub fn grad<E: Copy, G: Fn(E, E) -> bool, H: Fn(E, E) -> E>(
        &self,
        gy: &NdArray<E>,
        x: &NdArray<E>,
        output: &NdArray<E>,
        axes: &Vec<i64>,
        one: E,
        zero: E,
        eq: &G,
        times: &H,
    ) -> (r: Result<NdArray<E>, OpError>)
        requires
            gy.wf(),
            x.wf(),
            output.wf(),
            forall|a: E, b: E| eq.requires((a, b)),
            forall|a: E, b: E| times.requires((a, b)),
        ensures
            min_max_grad_outcome(
                *eq,
                *times,
                one,
                zero,
                self.keep_dims,
                self.sparse_axes,
                gy.shape@,
                gy.data@,
                x.shape@,
                x.data@,
                output.shape@,
                output.data@,
                axes@,
                r,
            ),
    {
        min_max_grad(gy, x, output, axes, self.keep_dims, self.sparse_axes, one, zero, eq, times)
    }
}

impl ReduceSum {
    /// The operator that computes the gradient of this sum: the output
    /// gradient broadcast into the input's shape, with broadcast dimensions
    /// made where the sum dropped its axes.
    pub fn grad_op(&self) -> (g: ReduceGradCommon)
        ensures
            g.should_make_broadcast_dims == !self.keep_dims,
            g.sparse_axes == self.sparse_axes,
    {
        ReduceGradCommon { should_make_broadcast_dims: !self.keep_dims, sparse_axes: self.sparse_axes }
    }

    /// Gradient of the sum of an array of shape `x_shape`, given the output
    /// gradient `gy`: `gy` broadcast into `x_shape`.
    pub fn grad<E: Copy>(&self, gy: &NdArray<E>, x_shape: &Vec<usize>, axes: &Vec<i64>) -> (r: Result<
        NdArray<E>,
        OpError,
    >)
        requires
            gy.wf(),
        ensures
            result_matches(
                r,
                grad_spec(!self.keep_dims, self.sparse_axes, gy.shape@, gy.data@, x_shape@, axes@),
            ),
    {
        self.grad_op().compute(gy, x_shape, axes)
    }
}

impl ReduceGradCommon {
    /// The operator that computes the gradient of this broadcast: a sum
    /// over the broadcast axes, which keeps them when broadcast dimensions
    /// were made.
    pub fn grad_op(&self) -> (s: ReduceSum)
        ensures
            s.keep_dims == self.should_make_broadcast_dims,
            s.sparse_axes == self.sparse_axes,
    {
        ReduceSum { keep_dims: self.should_make_broadcast_dims, sparse_axes: self.sparse_axes }
    }

    /// Gradient of the broadcast, given the gradient `gy` of its output:
    /// the sum of `gy` (with `add` from `zero`) along the axis argument `axes`.
    pub fn grad<E: Copy, F: Fn(E, E) -> E>(
        &self,
        gy: &NdArray<E>,
        axes: &Vec<i64>,
        zero: E,
        add: &F,
    ) -> (r: Result<NdArray<E>, OpError>)
        requires
            gy.wf(),
            forall|a: E, b: E| add.requires((a, b)),
        ensures
            reduce_outcome(
                *add,
                zero,
                gy.shape@,
                gy.data@,
                axes@,
                self.should_make_broadcast_dims,
                self.sparse_axes,
                r,
            ),
    {
        self.grad_op().compute(gy, axes, zero, add)
    }
}

/// What the gradient of a product gives: the output gradient times the
/// output (`times`), broadcast into the input's shape, then divided (`div`)
/// by the input, elementwise.
pub open spec fn prod_grad_outcome<E, H: Fn(E, E) -> E, D: Fn(E, E) -> E>(
    times: H,
    div: D,
    keep: bool,
    sparse: bool,
    gs: Seq<usize>,
    gd: Seq<E>,
    xs: Seq<usize>,
    xd: Seq<E>,
    od: Seq<E>,
    axes: Seq<i64>,
    r: Result<NdArray<E>, OpError>,
) -> bool {
    exists|t: Seq<E>|
        #[trigger] zip_rel(times, gd, od, t) && match grad_spec(!keep, sparse, gs, t, xs, axes) {
            Err(e) => r == Err::<NdArray<E>, OpError>(e),
            Ok((_bs, bd)) => r matches Ok(o) && o.wf() && o.shape@ == xs && zip_rel(div, bd, xd, o.data@),
        }
}

impl ReduceProd {
    /// Gradient of the product `output` of `x`, given the output gradient
    /// `gy` (of the output's shape): `gy` times the output, broadcast into
    /// the shape of `x` and divided by `x`.
    pub fn grad<E: Copy, H: Fn(E, E) -> E, D: Fn(E, E) -> E>(
        &self,
        gy: &NdArray<E>,
        x: &NdArray<E>,
        output: &NdArray<E>,
        axes: &Vec<i64>,
        times: &H,
        div: &D,
    ) -> (r: Result<NdArray<E>, OpError>)
        requires
            gy.wf(),
            x.wf(),
            output.wf(),
            gy.shape@ == output.shape@,
            forall|a: E, b: E| times.requires((a, b)),
            forall|a: E, b: E| div.requires((a, b)),
        ensures
            prod_grad_outcome(
                *times,
                *div,
                self.keep_dims,
                self.sparse_axes,
                gy.shape@,
                gy.data@,
                x.shape@,
                x.data@,
                output.data@,
                axes@,
                r,
            ),
    {
        let grad_op = ReduceGradCommon {
            should_make_broadcast_dims: !self.keep_dims,
            sparse_axes: self.sparse_axes,
        };
        let t = zip_with(&gy.data, &output.data, times);
        let tmp = NdArray { shape: copy_vec(&gy.shape), data: t };
        let b = grad_op.compute(&tmp, &x.shape, axes);
        assert(zip_rel(*times, gy.data@, output.data@, tmp.data@));
        match b {
            Ok(b) => {
                assert(b.shape@ == x.shape@ && b.wf());
                let gx = zip_with(&b.data, &x.data, div);
                Ok(NdArray { shape: copy_vec(&x.shape), data: gx })
            },
            Err(e) => Err(e),
        }
    }
}

/// What the gradient of a mean gives: the errors of broadcasting the output
/// gradient into the input's shape and of gathering the input's lengths,
/// and otherwise the broadcast divided (`div`) by the result of `len_of` on
/// the lengths gathered at the axis argument's values taken as positions
/// (negative ones counted from the end; for a mask, its entries themselves).
pub open spec fn mean_grad_outcome<E, G: Fn(Vec<usize>) -> E, D: Fn(E, E) -> E>(
    len_of: G,
    div: D,
    keep: bool,
    sparse: bool,
    gs: Seq<usize>,
    gd: Seq<E>,
    xs: Seq<usize>,
    axes: Seq<i64>,
    r: Result<NdArray<E>, OpError>,
) -> bool {
    match grad_spec(!keep, sparse, gs, gd, xs, axes) {
        Err(e) => r == Err::<NdArray<E>, OpError>(e),
        Ok((bs, bd)) => if !axes_normalizable(axes, xs.len()) {
            r == Err::<NdArray<E>, OpError>(OpError::InvalidIndexValue)
        } else if !axes_in_shape(xs, normalized_axes(axes, xs.len())) {
            r == Err::<NdArray<E>, OpError>(OpError::AxisOutOfRange)
        } else {
            r matches Ok(o) && o.wf() && o.shape@ == bs && exists|lens: Vec<usize>, d: E|
                #[trigger] call_ensures(len_of, (lens,), d) && lens@ == axis_lengths(
                    xs,
                    normalized_axes(axes, xs.len()),
                ) && scaled_rel(div, bd, d, o.data@)
        },
    }
}

impl ReduceMean {
    /// Gradient of the mean of an array of shape `x_shape`, given the output
    /// gradient `gy`: `gy` broadcast into `x_shape` and divided by the result
    /// of `len_of` (their product) on the lengths of `x_shape` gathered at the
    /// values of `axes` taken as positions, whether or not `axes` is a mask.
    pub fn grad<E: Copy, G: Fn(Vec<usize>) -> E, D: Fn(E, E) -> E>(
        &self,
        gy: &NdArray<E>,
        x_shape: &Vec<usize>,
        axes: &Vec<i64>,
        len_of: &G,
        div: &D,
    ) -> (r: Result<NdArray<E>, OpError>)
        requires
            gy.wf(),
            forall|v: Vec<usize>| len_of.requires((v,)),
            forall|a: E, b: E| div.requires((a, b)),
        ensures
            mean_grad_outcome(
                *len_of,
                *div,
                self.keep_dims,
                self.sparse_axes,
                gy.shape@,
                gy.data@,
                x_shape@,
                axes@,
                r,
            ),
    {
        let grad_op = ReduceGradCommon {
            should_make_broadcast_dims: !self.keep_dims,
            sparse_axes: self.sparse_axes,
        };
        let b = match grad_op.compute(gy, x_shape, axes) {
            Ok(b) => b,
            Err(e) => {
                return Err(e);
            },
        };
        let ax = match normalize_negative_axes(axes, x_shape.len()) {
            Some(ax) => ax,
            None => {
                return Err(OpError::InvalidIndexValue);
            },
        };
        let lens = match lengths_of_axes(x_shape, &ax) {
            Some(l) => l,
            None => {
                return Err(OpError::AxisOutOfRange);
            },
        };
        let ghost lens_v = lens;
        let d = len_of(lens);
        let mut out: Vec<E> = Vec::new();
        let mut j: usize = 0;
        while j < b.data.len()
            invariant
                j <= b.data@.len(),
                out@.len() == j,
                forall|a: E, c: E| div.requires((a, c)),
                forall|k: int| 0 <= k < j ==> call_ensures(*div, (b.data@[k], d), #[trigger] out@[k]),
            decreases b.data@.len() - j,
        {
            out.push(div(b.data[j], d));
            j = j + 1;
        }
        assert(scaled_rel(*div, b.data@, d, out@));
        assert(call_ensures(*len_of, (lens_v,), d));
        Ok(NdArray { shape: b.shape, data: out })
    }
}

/// The elements of an array of shape `shape` whose elements are all `v`.
pub open spec fn filled_spec<E>(shape: Seq<usize>, v: E) -> Seq<E> {
    Seq::new(shape_size(shape), |i: int| v)
}

/// What spreading the first element of `gd` over `shape` gives: an error
/// when `gd` is empty or the shape too large, and otherwise an array of that
/// shape whose elements all equal `gd[0]`.
pub open spec fn filled_outcome<E>(gd: Seq<E>, shape: Seq<usize>, r: Result<NdArray<E>, OpError>) -> bool {
    if gd.len() == 0 {
        r == Err::<NdArray<E>, OpError>(OpError::NoElement)
    } else if pos_size(shape) > isize::MAX {
        r == Err::<NdArray<E>, OpError>(OpError::ShapeTooLarge)
    } else {
        r matches Ok(y) && y.wf() && y.shape@ == shape && y.data@ == filled_spec(shape, gd[0])
    }
}

impl ReduceSumToScalarGrad {
    /// Spreads the first element of the scalar gradient `gy` over an array
    /// of shape `shape`.
    pub fn compute<E: Copy>(&self, gy: &NdArray<E>, shape: &Vec<usize>) -> (r: Result<NdArray<E>, OpError>)
        ensures
            filled_outcome(gy.data@, shape@, r),
    {
        if gy.data.len() == 0 {
            return Err(OpError::NoElement);
        }
        let p = match checked_pos_size(shape) {
            Some(p) => p,
            None => {
                return Err(OpError::ShapeTooLarge);
            },
        };
        if p > isize::MAX as usize {
            return Err(OpError::ShapeTooLarge);
        }
        proof {
            lemma_size_le_pos(shape@);
            assert(shape@.subrange(0, shape@.len() as int) =~= shape@);
        }
        let n = dims_product(shape, 0, shape.len());
        let v = gy.data[0];
        let mut out: Vec<E> = Vec::new();
        let mut i: usize = 0;
        while i < n
            invariant
                i <= n,
                out@ == Seq::new(i as nat, |k: int| v),
            decreases n - i,
        {
            out.push(v);
            i = i + 1;
            assert(out@ =~= Seq::new(i as nat, |k: int| v));
        }
        Ok(NdArray { shape: copy_vec(shape), data: out })
    }
}

impl ReduceSumToScalar {
    /// The operator that computes the gradient of the sum of all elements.
    pub fn grad_op(&self) -> (g: ReduceSumToScalarGrad) {
        ReduceSumToScalarGrad
    }

    /// Gradient of the sum of all the elements of an array of shape
    /// `x_shape`, given the scalar output gradient `gy`: `gy` spread over
    /// `x_shape`.
    pub fn grad<E: Copy>(&self, gy: &NdArray<E>, x_shape: &Vec<usize>) -> (r: Result<NdArray<E>, OpError>)
        ensures
            filled_outcome(gy.data@, x_shape@, r),
    {
        self.grad_op().compute(gy, x_shape)
    }
}

impl ReduceSumToScalarGrad {
    /// The operator that computes the gradient of this spread: the sum of
    /// all elements.
    pub fn grad_op(&self) -> (s: ReduceSumToScalar) {
        ReduceSumToScalar
    }
}

} // verus!
