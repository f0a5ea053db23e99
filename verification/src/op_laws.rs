//! Laws of the operators: what each result is in terms of the inputs, and
//! how the results of related calls agree.

use vstd::prelude::*;
use crate::array::NdArray;
use crate::axes::{axis_leq, lemma_axis_leq_total, preprocessed_axes, reduction_order, sorted_axes};
use crate::broadcast::bcast_src;
use crate::fold::{argmax_lane_rel, axes_fit, eq_chain, fold_rel, lane, reduce_rel, reduced_shape};
use crate::laws::{
    all_below, computes, deterministic, lemma_bcast_self, lemma_fold_unique, lemma_grad_view,
    lemma_insert_restores, lemma_min_max_grad_unique, lemma_reduce_unique, lemma_sorted_distinct,
    lemma_strict_bound, law_grad_restores_input_shape, law_reduced_shape, ones_at, same_result,
};
use crate::ops::{
    argmax_outcome, axes_in_shape, axis_lengths, grad_spec, insert_ones, insertable, mean_grad_outcome,
    mean_outcome, min_max_grad_elem, min_max_grad_outcome, prod_grad_outcome, reduce_outcome, scaled_rel,
    OpError,
};
use crate::shape::{is_scalar_shape, lemma_insert_one_size, pos_size, shape_size};

verus! {

/// Every result of `f` on a vector of lengths is the value of `lg` on its elements.
pub open spec fn computes_on_lengths<E, G: Fn(Vec<usize>) -> E>(f: G, lg: spec_fn(Seq<usize>) -> E) -> bool {
    forall|v: Vec<usize>, d: E| #[trigger] call_ensures(f, (v,), d) ==> d == lg(v@)
}

/// Inserting dimensions of length one changes no size.
pub proof fn lemma_insert_ones_size(s: Seq<usize>, ax: Seq<usize>)
    requires
        insertable(s.len(), ax),
    ensures
        insert_ones(s, ax).len() == s.len() + ax.len(),
        shape_size(insert_ones(s, ax)) == shape_size(s),
    decreases ax.len(),
{
    if ax.len() > 0 {
        let p = ax.drop_last();
        assert(insertable(s.len(), p)) by {
            assert forall|i: int| 0 <= i < p.len() implies #[trigger] p[i] <= s.len() + i by {
                assert(ax[i] <= s.len() + i);
            }
        }
        lemma_insert_ones_size(s, p);
        assert(ax[ax.len() - 1] <= s.len() + (ax.len() - 1));
        lemma_insert_one_size(insert_ones(s, p), ax.last() as int);
    }
}

/// A broadcast from `v` into `t` of the same rank reads only elements of `v`.
pub proof fn lemma_bcast_bound(v: Seq<usize>, t: Seq<usize>, q: int)
    requires
        v.len() == t.len(),
        forall|p: int| 0 <= p < t.len() ==> #[trigger] v[p] == t[p] || v[p] == 1,
        0 <= q < shape_size(t),
    ensures
        0 <= bcast_src(v, t, q) < shape_size(v),
    decreases t.len(),
{
    if t.len() > 0 {
        let tl = t.last() as int;
        let vl = v.last() as int;
        let t1 = t.drop_last();
        let v1 = v.drop_last();
        assert(v[v.len() - 1] == t[t.len() - 1] || v[v.len() - 1] == 1);
        assert(shape_size(t) == shape_size(t1) * tl);
        assert(shape_size(v) == shape_size(v1) * vl);
        assert(tl > 0) by (nonlinear_arith)
            requires
                0 <= q < shape_size(t),
                shape_size(t) == shape_size(t1) * tl,
                tl >= 0,
        ;
        vstd::arithmetic::div_mod::lemma_fundamental_div_mod(q, tl);
        vstd::arithmetic::div_mod::lemma_mod_bound(q, tl);
        vstd::arithmetic::div_mod::lemma_div_pos_is_pos(q, tl);
        let q1 = q / tl;
        assert(q1 < shape_size(t1)) by (nonlinear_arith)
            requires
                q == tl * q1 + q % tl,
                0 <= q % tl,
                q < shape_size(t1) * tl,
                tl > 0,
        ;
        lemma_bcast_bound(v1, t1, q1);
        let rest = bcast_src(v1, t1, q1);
        let c: int = if vl == 1 { 0 } else { q % tl };
        assert(bcast_src(v, t, q) == rest * vl + c);
        assert(0 <= c < vl);
        assert(0 <= rest * vl + c < shape_size(v1) * vl) by (nonlinear_arith)
            requires
                0 <= rest < shape_size(v1),
                0 <= c < vl,
        ;
    } else {
        assert(shape_size(t) == 1);
        assert(shape_size(v) == 1);
    }
}

/// The gradient of a reduction along distinct axes, broadcast back into the
/// input's shape `s`: each element is the gradient element that the view
/// with length one at the reduced axes places there.
pub proof fn lemma_grad_data<E>(s: Seq<usize>, axes: Seq<i64>, sparse: bool, ax: Seq<usize>, keep: bool, gd: Seq<E>)
    requires
        pos_size(s) <= isize::MAX,
        preprocessed_axes(s.len(), axes, sparse) == Some(ax),
        ax.no_duplicates(),
        all_below(ax, s.len()),
        gd.len() == shape_size(reduced_shape(s, reduction_order(ax), keep)),
    ensures
        grad_spec(!keep, sparse, reduced_shape(s, reduction_order(ax), keep), gd, s, axes) is Ok,
        grad_spec(!keep, sparse, reduced_shape(s, reduction_order(ax), keep), gd, s, axes)->Ok_0.0 == s,
        grad_spec(!keep, sparse, reduced_shape(s, reduction_order(ax), keep), gd, s, axes)->Ok_0.1.len()
            == shape_size(s),
        forall|q: int|
            0 <= q < shape_size(s) ==> 0 <= #[trigger] bcast_src(ones_at(s, ax), s, q) < gd.len()
                && grad_spec(!keep, sparse, reduced_shape(s, reduction_order(ax), keep), gd, s, axes)->Ok_0.1[q]
                == gd[bcast_src(ones_at(s, ax), s, q)],
{
    let n = s.len();
    let gs = reduced_shape(s, reduction_order(ax), keep);
    let ones = ones_at(s, ax);
    law_reduced_shape(s, ax);
    lemma_grad_view(s, axes, sparse, ax, keep);
    law_grad_restores_input_shape(s, axes, sparse, ax, keep, gd);
    let a = sorted_axes(ax);
    let m = a.len();
    lemma_sorted_distinct(ax, n);
    lemma_strict_bound(a, n);
    assert(shape_size(ones) == shape_size(gs)) by {
        if keep {
        } else {
            assert(insertable(gs.len(), a)) by {
                assert forall|i: int| 0 <= i < a.len() implies #[trigger] a[i] <= gs.len() + i by {
                    assert(a[i] + (m - i) <= n);
                }
            }
            lemma_insert_restores(s, a);
            assert(ones_at(s, a) =~= ones);
            lemma_insert_ones_size(gs, a);
        }
    }
    let bd = grad_spec(!keep, sparse, gs, gd, s, axes)->Ok_0.1;
    assert forall|q: int| 0 <= q < shape_size(s) implies 0 <= #[trigger] bcast_src(ones, s, q) < gd.len()
        && bd[q] == gd[bcast_src(ones, s, q)] by {
        lemma_bcast_bound(ones, s, q);
        if gs == s {
            lemma_bcast_self(s, q);
        }
    }
}

/// A negative axis counts from the end: for `-ndim <= axis < 0` the arg-max
/// reduces the lanes along axis `axis + ndim`, dropping that axis or keeping
/// it with length one, and fails only where that axis has length zero.
pub proof fn law_argmax_negative_axis<E, F: Fn(E, E) -> E, G: Fn(E, E) -> bool>(
    max: F,
    min_value: E,
    eq: G,
    axis: isize,
    keep: bool,
    xs: Seq<usize>,
    xd: Seq<E>,
    r: Result<NdArray<u128>, OpError>,
)
    requires
        -(xs.len() as int) <= axis < 0,
        argmax_outcome(max, min_value, eq, axis, keep, xs, xd, r),
    ensures
        xs[axis + xs.len()] == 0 ==> r == Err::<NdArray<u128>, OpError>(OpError::EmptyAxis),
        xs[axis + xs.len()] != 0 ==> r is Ok,
        r is Ok ==> r->Ok_0.shape@ == (if keep {
            xs.update(axis + xs.len(), 1)
        } else {
            xs.remove(axis + xs.len())
        }),
        r is Ok ==> forall|j: int|
            0 <= j < r->Ok_0.data@.len() ==> argmax_lane_rel(
                max,
                min_value,
                eq,
                lane(xs, xd, axis + xs.len(), j),
                #[trigger] r->Ok_0.data@[j],
            ),
{
}

/// A nonnegative axis below the number of dimensions is the axis itself:
/// the arg-max reduces the lanes along it, dropping it or keeping it with
/// length one, and fails only where it has length zero.
pub proof fn law_argmax_axis_lanes<E, F: Fn(E, E) -> E, G: Fn(E, E) -> bool>(
    max: F,
    min_value: E,
    eq: G,
    axis: isize,
    keep: bool,
    xs: Seq<usize>,
    xd: Seq<E>,
    r: Result<NdArray<u128>, OpError>,
)
    requires
        0 <= axis < xs.len(),
        argmax_outcome(max, min_value, eq, axis, keep, xs, xd, r),
    ensures
        xs[axis as int] == 0 ==> r == Err::<NdArray<u128>, OpError>(OpError::EmptyAxis),
        xs[axis as int] != 0 ==> r is Ok,
        r is Ok ==> r->Ok_0.shape@ == (if keep {
            xs.update(axis as int, 1)
        } else {
            xs.remove(axis as int)
        }),
        r is Ok ==> forall|j: int|
            0 <= j < r->Ok_0.data@.len() ==> argmax_lane_rel(
                max,
                min_value,
                eq,
                lane(xs, xd, axis as int, j),
                #[trigger] r->Ok_0.data@[j],
            ),
{
}

/// The gradient of a product along distinct axes: each element `i` of the
/// input gets `div(times(gy[j], output[j]), x[i])`, for the position `j` of
/// the output that element `i` is reduced into.
pub proof fn law_prod_grad_elements<E, H: Fn(E, E) -> E, D: Fn(E, E) -> E>(
    times: H,
    tg: spec_fn(E, E) -> E,
    div: D,
    dg: spec_fn(E, E) -> E,
    keep: bool,
    sparse: bool,
    gd: Seq<E>,
    xs: Seq<usize>,
    xd: Seq<E>,
    od: Seq<E>,
    axes: Seq<i64>,
    ax: Seq<usize>,
    r: Result<NdArray<E>, OpError>,
)
    requires
        computes(times, tg),
        computes(div, dg),
        pos_size(xs) <= isize::MAX,
        preprocessed_axes(xs.len(), axes, sparse) == Some(ax),
        ax.no_duplicates(),
        all_below(ax, xs.len()),
        gd.len() == shape_size(reduced_shape(xs, reduction_order(ax), keep)),
        od.len() == gd.len(),
        xd.len() == shape_size(xs),
        prod_grad_outcome(
            times,
            div,
            keep,
            sparse,
            reduced_shape(xs, reduction_order(ax), keep),
            gd,
            xs,
            xd,
            od,
            axes,
            r,
        ),
    ensures
        r is Ok,
        r->Ok_0.shape@ == xs,
        r->Ok_0.data@.len() == xd.len(),
        forall|i: int|
            0 <= i < xd.len() ==> 0 <= #[trigger] bcast_src(ones_at(xs, ax), xs, i) < gd.len()
                && r->Ok_0.data@[i] == dg(
                tg(gd[bcast_src(ones_at(xs, ax), xs, i)], od[bcast_src(ones_at(xs, ax), xs, i)]),
                xd[i],
            ),
{
    let gs = reduced_shape(xs, reduction_order(ax), keep);
    let t = choose|t: Seq<E>|
        #[trigger] crate::ops::zip_rel(times, gd, od, t) && match grad_spec(!keep, sparse, gs, t, xs, axes) {
            Err(e) => r == Err::<NdArray<E>, OpError>(e),
            Ok((_bs, bd)) => r matches Ok(o) && o.wf() && o.shape@ == xs && crate::ops::zip_rel(div, bd, xd, o.data@),
        };
    lemma_grad_data(xs, axes, sparse, ax, keep, t);
    let bd = grad_spec(!keep, sparse, gs, t, xs, axes)->Ok_0.1;
    let o = r->Ok_0;
    assert forall|i: int| 0 <= i < xd.len() implies 0 <= #[trigger] bcast_src(ones_at(xs, ax), xs, i) < gd.len()
        && o.data@[i] == dg(
        tg(gd[bcast_src(ones_at(xs, ax), xs, i)], od[bcast_src(ones_at(xs, ax), xs, i)]),
        xd[i],
    ) by {
        let j = bcast_src(ones_at(xs, ax), xs, i);
        assert(call_ensures(times, (gd[j], od[j]), t[j]));
        assert(call_ensures(div, (bd[i], xd[i]), o.data@[i]));
    }
}

/// The gradient of a mean along distinct axes: each element `i` of the input
/// gets `div(gy[j], len_of(lens))`, for the position `j` of the output that
/// element `i` is reduced into, where `lens` lists the input's lengths at
/// the axis argument's values, negative ones counted from the end.
pub proof fn law_mean_grad_elements<E, G: Fn(Vec<usize>) -> E, D: Fn(E, E) -> E>(
    len_of: G,
    lg: spec_fn(Seq<usize>) -> E,
    div: D,
    dg: spec_fn(E, E) -> E,
    keep: bool,
    sparse: bool,
    gd: Seq<E>,
    xs: Seq<usize>,
    axes: Seq<i64>,
    ax: Seq<usize>,
    r: Result<NdArray<E>, OpError>,
)
    requires
        computes_on_lengths(len_of, lg),
        computes(div, dg),
        xs.len() <= usize::MAX,
        pos_size(xs) <= isize::MAX,
        preprocessed_axes(xs.len(), axes, sparse) == Some(ax),
        ax.no_duplicates(),
        all_below(ax, xs.len()),
        forall|k: int|
            #![trigger axes[k]]
            0 <= k < axes.len() ==> 0 <= (if axes[k] < 0 {
                xs.len() + axes[k]
            } else {
                axes[k] as int
            }) < xs.len(),
        gd.len() == shape_size(reduced_shape(xs, reduction_order(ax), keep)),
        mean_grad_outcome(
            len_of,
            div,
            keep,
            sparse,
            reduced_shape(xs, reduction_order(ax), keep),
            gd,
            xs,
            axes,
            r,
        ),
    ensures
        r is Ok,
        r->Ok_0.shape@ == xs,
        r->Ok_0.data@.len() == shape_size(xs),
        forall|i: int|
            0 <= i < shape_size(xs) ==> 0 <= #[trigger] bcast_src(ones_at(xs, ax), xs, i) < gd.len()
                && r->Ok_0.data@[i] == dg(
                gd[bcast_src(ones_at(xs, ax), xs, i)],
                lg(
                    Seq::new(
                        axes.len(),
                        |k: int|
                            xs[if axes[k] < 0 {
                                xs.len() + axes[k]
                            } else {
                                axes[k] as int
                            }],
                    ),
                ),
            ),
{
    let gs = reduced_shape(xs, reduction_order(ax), keep);
    lemma_grad_data(xs, axes, sparse, ax, keep, gd);
    let n = xs.len();
    let want = Seq::new(
        axes.len(),
        |k: int|
            xs[if axes[k] < 0 {
                xs.len() + axes[k]
            } else {
                axes[k] as int
            }],
    );
    assert(crate::axes::axes_normalizable(axes, n)) by {
        assert forall|k: int| 0 <= k < axes.len() implies 0 <= #[trigger] crate::axes::normalized_axis(
            axes[k] as int,
            n,
        ) <= usize::MAX by {
            assert(0 <= (if axes[k] < 0 {
                xs.len() + axes[k]
            } else {
                axes[k] as int
            }) < xs.len());
        }
    }
    let na = crate::axes::normalized_axes(axes, n);
    assert(crate::ops::axes_in_shape(xs, na)) by {
        assert forall|k: int| 0 <= k < na.len() implies #[trigger] na[k] < xs.len() by {
            assert(0 <= (if axes[k] < 0 {
                xs.len() + axes[k]
            } else {
                axes[k] as int
            }) < xs.len());
        }
    }
    assert(crate::ops::axis_lengths(xs, na) =~= want) by {
        assert forall|k: int| 0 <= k < axes.len() implies crate::ops::axis_lengths(xs, na)[k] == want[k] by {
            assert(0 <= (if axes[k] < 0 {
                xs.len() + axes[k]
            } else {
                axes[k] as int
            }) < xs.len());
        }
    }
    let bd = grad_spec(!keep, sparse, gs, gd, xs, axes)->Ok_0.1;
    let o = r->Ok_0;
    let (lens, d) = choose|lens: Vec<usize>, d: E|
        #[trigger] call_ensures(len_of, (lens,), d) && lens@ == crate::ops::axis_lengths(xs, na)
            && crate::ops::scaled_rel(div, bd, d, o.data@);
    assert(d == lg(want));
    assert forall|i: int| 0 <= i < shape_size(xs) implies 0 <= #[trigger] bcast_src(ones_at(xs, ax), xs, i) < gd.len()
        && o.data@[i] == dg(gd[bcast_src(ones_at(xs, ax), xs, i)], lg(want)) by {
        assert(call_ensures(div, (bd[i], d), o.data@[i]));
    }
}

/// Every result of `f` on two elements is the value of `g` on them.
pub open spec fn decides<E, G: Fn(E, E) -> bool>(f: G, g: spec_fn(E, E) -> bool) -> bool {
    forall|a: E, b: E, e: bool| #[trigger] call_ensures(f, (a, b), e) ==> e == g(a, b)
}

/// Axes that fold without error, in reduction order, are axes of the shape.
pub proof fn lemma_fit_in_shape(s: Seq<usize>, ax: Seq<usize>, keep: bool)
    requires
        axes_fit(s.len(), reduction_order(ax), keep),
    ensures
        axes_in_shape(s, ax),
{
    lemma_axis_leq_total();
    ax.lemma_sort_by_ensures(axis_leq());
    let a = sorted_axes(ax);
    ax.to_multiset_ensures();
    a.to_multiset_ensures();
    let order = reduction_order(ax);
    assert forall|k: int| 0 <= k < ax.len() implies #[trigger] ax[k] < s.len() by {
        assert(ax.contains(ax[k]));
        assert(a.to_multiset().count(ax[k]) > 0);
        assert(a.contains(ax[k]));
        let i = choose|i: int| 0 <= i < a.len() && a[i] == ax[k];
        let m = a.len();
        assert(order[m - 1 - i] == a[i]);
        assert(order[m - 1 - i] < (if keep {
            s.len() as int
        } else {
            s.len() - (m - 1 - i)
        }));
    }
}

/// With `keep_dims`, the mean along distinct axes of the array keeps every
/// axis: it succeeds, and its shape is the input's with length one at each
/// reduced axis.
pub proof fn law_mean_keep_dims_shape<E, F: Fn(E, E) -> E, G: Fn(Vec<usize>) -> E, H: Fn(E, E) -> E>(
    zero: E,
    add: F,
    inv_len: G,
    times: H,
    xs: Seq<usize>,
    xd: Seq<E>,
    axes: Seq<i64>,
    sparse: bool,
    ax: Seq<usize>,
    r: Result<NdArray<E>, OpError>,
)
    requires
        preprocessed_axes(xs.len(), axes, sparse) == Some(ax),
        ax.no_duplicates(),
        all_below(ax, xs.len()),
        !(is_scalar_shape(xs) && ax.len() > 0),
        mean_outcome(zero, add, inv_len, times, xs, xd, axes, true, sparse, r),
    ensures
        r is Ok,
        r->Ok_0.shape@ == ones_at(xs, ax),
{
    law_reduced_shape(xs, ax);
    if ax.len() == 0 {
        assert(ones_at(xs, ax) =~= xs);
    }
}

/// Whether the mean along the axis argument scales a sum: it denotes at
/// least one axis and the array is no scalar.
pub open spec fn mean_scales(xs: Seq<usize>, axes: Seq<i64>, sparse: bool) -> bool {
    match preprocessed_axes(xs.len(), axes, sparse) {
        Some(ax) => ax.len() > 0 && !is_scalar_shape(xs),
        None => false,
    }
}

/// The mean is the sum scaled by the inverse of the reduced length: along
/// the same axis argument and with the same `keep_dims`, the mean fails
/// exactly where the sum fails, with the same error; otherwise it has the
/// sum's shape, and each element is `times(sum[j], inv)` for `inv` the value
/// of `inv_len` on the lengths of the reduced axes, or, where no axis is
/// reduced or the array is a scalar, the sum's element itself.
pub proof fn law_mean_is_scaled_sum<E, F: Fn(E, E) -> E, G: Fn(Vec<usize>) -> E, H: Fn(E, E) -> E>(
    zero: E,
    add: F,
    inv_len: G,
    lg: spec_fn(Seq<usize>) -> E,
    times: H,
    tg: spec_fn(E, E) -> E,
    xs: Seq<usize>,
    xd: Seq<E>,
    axes: Seq<i64>,
    keep: bool,
    sparse: bool,
    rm: Result<NdArray<E>, OpError>,
    rs: Result<NdArray<E>, OpError>,
)
    requires
        deterministic(add),
        computes_on_lengths(inv_len, lg),
        computes(times, tg),
        !(preprocessed_axes(xs.len(), axes, sparse) matches Some(ax) && ax.len() > 0 && is_scalar_shape(xs)
            && !axes_in_shape(xs, ax)),
        mean_outcome(zero, add, inv_len, times, xs, xd, axes, keep, sparse, rm),
        reduce_outcome(add, zero, xs, xd, axes, keep, sparse, rs),
    ensures
        rm is Ok <==> rs is Ok,
        rm is Err ==> rm == rs,
        rm is Ok ==> rm->Ok_0.shape@ == rs->Ok_0.shape@ && rm->Ok_0.data@.len() == rs->Ok_0.data@.len(),
        rm is Ok && mean_scales(xs, axes, sparse) ==> forall|j: int|
            0 <= j < rm->Ok_0.data@.len() ==> #[trigger] rm->Ok_0.data@[j] == tg(
                rs->Ok_0.data@[j],
                lg(axis_lengths(xs, preprocessed_axes(xs.len(), axes, sparse)->Some_0)),
            ),
        rm is Ok && !mean_scales(xs, axes, sparse) ==> rm->Ok_0.data@ == rs->Ok_0.data@,
{
    match preprocessed_axes(xs.len(), axes, sparse) {
        None => {},
        Some(ax) => {
            let order = reduction_order(ax);
            if ax.len() == 0 {
            } else if !axes_in_shape(xs, ax) {
                if axes_fit(xs.len(), order, keep) {
                    lemma_fit_in_shape(xs, ax, keep);
                }
            } else if is_scalar_shape(xs) {
            } else if !axes_fit(xs.len(), order, keep) {
            } else {
                let y = rm->Ok_0;
                let z = rs->Ok_0;
                let (sum, lens, inv) = choose|sum: Seq<E>, lens: Vec<usize>, inv: E|
                    #![trigger reduce_rel(add, zero, xs, xd, order, keep, y.shape@, sum), call_ensures(inv_len, (lens,), inv)]
                    reduce_rel(add, zero, xs, xd, order, keep, y.shape@, sum) && lens@ == axis_lengths(xs, ax)
                        && call_ensures(inv_len, (lens,), inv) && scaled_rel(times, sum, inv, y.data@);
                lemma_reduce_unique(add, zero, xs, xd, order, keep, y.shape@, sum, z.shape@, z.data@);
                assert(inv == lg(lens@));
                assert forall|j: int| 0 <= j < y.data@.len() implies #[trigger] y.data@[j] == tg(
                    z.data@[j],
                    lg(axis_lengths(xs, ax)),
                ) by {
                    assert(call_ensures(times, (sum[j], inv), y.data@[j]));
                }
            }
        },
    }
}

/// The gradient of a minimum or maximum along distinct axes, given the
/// forward output and an output gradient of the output's shape, whether the
/// axis argument is a list or a mask: it succeeds with the input's shape,
/// and each element `i` of the input gets `times(one, gy[j])` where it
/// equals (`eq`) the output at the position `j` that it is reduced into, and
/// `times(zero, gy[j])` where it does not.
pub proof fn law_min_max_grad_elements<E, G: Fn(E, E) -> bool, H: Fn(E, E) -> E>(
    eq: G,
    eg: spec_fn(E, E) -> bool,
    times: H,
    tg: spec_fn(E, E) -> E,
    one: E,
    zero: E,
    keep: bool,
    sparse: bool,
    gd: Seq<E>,
    xs: Seq<usize>,
    xd: Seq<E>,
    yd: Seq<E>,
    axes: Seq<i64>,
    ax: Seq<usize>,
    r: Result<NdArray<E>, OpError>,
)
    requires
        decides(eq, eg),
        computes(times, tg),
        pos_size(xs) <= isize::MAX,
        preprocessed_axes(xs.len(), axes, sparse) == Some(ax),
        ax.no_duplicates(),
        all_below(ax, xs.len()),
        yd.len() == shape_size(reduced_shape(xs, reduction_order(ax), keep)),
        gd.len() == yd.len(),
        xd.len() == shape_size(xs),
        min_max_grad_outcome(
            eq,
            times,
            one,
            zero,
            keep,
            sparse,
            reduced_shape(xs, reduction_order(ax), keep),
            gd,
            xs,
            xd,
            reduced_shape(xs, reduction_order(ax), keep),
            yd,
            axes,
            r,
        ),
    ensures
        r is Ok,
        r->Ok_0.shape@ == xs,
        r->Ok_0.data@.len() == xd.len(),
        forall|i: int|
            0 <= i < xd.len() ==> 0 <= #[trigger] bcast_src(ones_at(xs, ax), xs, i) < gd.len()
                && r->Ok_0.data@[i] == tg(
                if eg(xd[i], yd[bcast_src(ones_at(xs, ax), xs, i)]) {
                    one
                } else {
                    zero
                },
                gd[bcast_src(ones_at(xs, ax), xs, i)],
            ),
{
    let gs = reduced_shape(xs, reduction_order(ax), keep);
    lemma_grad_data(xs, axes, sparse, ax, keep, yd);
    lemma_grad_data(xs, axes, sparse, ax, keep, gd);
    let ybd = grad_spec(!keep, sparse, gs, yd, xs, axes)->Ok_0.1;
    let gbd = grad_spec(!keep, sparse, gs, gd, xs, axes)->Ok_0.1;
    let o = r->Ok_0;
    assert forall|i: int| 0 <= i < xd.len() implies 0 <= #[trigger] bcast_src(ones_at(xs, ax), xs, i) < gd.len()
        && o.data@[i] == tg(
        if eg(xd[i], yd[bcast_src(ones_at(xs, ax), xs, i)]) {
            one
        } else {
            zero
        },
        gd[bcast_src(ones_at(xs, ax), xs, i)],
    ) by {
        assert(min_max_grad_elem(eq, times, one, zero, xd[i], ybd[i], gbd[i], o.data@[i]));
        let e = choose|e: bool|
            #[trigger] call_ensures(eq, (xd[i], ybd[i]), e) && call_ensures(
                times,
                (if e {
                    one
                } else {
                    zero
                }, gbd[i]),
                o.data@[i],
            );
        assert(e == eg(xd[i], ybd[i]));
    }
}

/// A mask and the axis list it denotes give the same gradient of a minimum
/// or maximum, when the equality and the multiplication are deterministic.
pub proof fn law_min_max_grad_mask_is_list<E, G: Fn(E, E) -> bool, H: Fn(E, E) -> E>(
    eq: G,
    times: H,
    one: E,
    zero: E,
    keep: bool,
    gs: Seq<usize>,
    gd: Seq<E>,
    xs: Seq<usize>,
    xd: Seq<E>,
    ys: Seq<usize>,
    yd: Seq<E>,
    mask: Seq<i64>,
    list: Seq<i64>,
    r_mask: Result<NdArray<E>, OpError>,
    r_list: Result<NdArray<E>, OpError>,
)
    requires
        deterministic(eq),
        deterministic(times),
        preprocessed_axes(xs.len(), mask, true) == preprocessed_axes(xs.len(), list, false),
        min_max_grad_outcome(eq, times, one, zero, keep, true, gs, gd, xs, xd, ys, yd, mask, r_mask),
        min_max_grad_outcome(eq, times, one, zero, keep, false, gs, gd, xs, xd, ys, yd, list, r_list),
    ensures
        same_result(r_mask, r_list),
{
    assert(grad_spec(!keep, true, ys, yd, xs, mask) == grad_spec(!keep, false, ys, yd, xs, list));
    assert(grad_spec(!keep, true, gs, gd, xs, mask) == grad_spec(!keep, false, gs, gd, xs, list));
    assert(min_max_grad_outcome(eq, times, one, zero, keep, true, gs, gd, xs, xd, ys, yd, mask, r_list));
    lemma_min_max_grad_unique(eq, times, one, zero, keep, true, gs, gd, xs, xd, ys, yd, mask, r_mask, r_list);
}

/// The arg-max of a lane has one result when `max` and `eq` are deterministic.
pub proof fn lemma_argmax_lane_unique<E, F: Fn(E, E) -> E, G: Fn(E, E) -> bool>(
    max: F,
    min_value: E,
    eq: G,
    items: Seq<E>,
    r1: u128,
    r2: u128,
)
    requires
        deterministic(max),
        deterministic(eq),
        argmax_lane_rel(max, min_value, eq, items, r1),
        argmax_lane_rel(max, min_value, eq, items, r2),
    ensures
        r1 == r2,
{
    let (m1, e1) = choose|m: E, eqs: Seq<bool>|
        #![trigger fold_rel(max, min_value, items, m), eq_chain(eq, items, m, eqs)]
        fold_rel(max, min_value, items, m) && eq_chain(eq, items, m, eqs) && r1 == crate::fold::marked_index_sum(
            crate::fold::argmax_mask(eqs),
        );
    let (m2, e2) = choose|m: E, eqs: Seq<bool>|
        #![trigger fold_rel(max, min_value, items, m), eq_chain(eq, items, m, eqs)]
        fold_rel(max, min_value, items, m) && eq_chain(eq, items, m, eqs) && r2 == crate::fold::marked_index_sum(
            crate::fold::argmax_mask(eqs),
        );
    lemma_fold_unique(max, min_value, items, m1, m2);
    assert forall|i: int| 0 <= i < items.len() implies e1[i] == e2[i] by {
        assert(call_ensures(eq, (items[i], m1), e1[i]));
        assert(call_ensures(eq, (items[i], m1), e2[i]));
    }
    assert(e1 =~= e2);
}

/// A negative axis and the axis it counts to from the end give the same
/// arg-max: for `-ndim <= axis < 0`, the arg-max along `axis` and along
/// `axis + ndim` agree when `max` and `eq` are deterministic.
pub proof fn law_argmax_negative_axis_same<E, F: Fn(E, E) -> E, G: Fn(E, E) -> bool>(
    max: F,
    min_value: E,
    eq: G,
    axis: isize,
    pos: isize,
    keep: bool,
    xs: Seq<usize>,
    xd: Seq<E>,
    r_neg: Result<NdArray<u128>, OpError>,
    r_pos: Result<NdArray<u128>, OpError>,
)
    requires
        deterministic(max),
        deterministic(eq),
        -(xs.len() as int) <= axis < 0,
        pos == axis + xs.len(),
        argmax_outcome(max, min_value, eq, axis, keep, xs, xd, r_neg),
        argmax_outcome(max, min_value, eq, pos, keep, xs, xd, r_pos),
    ensures
        same_result(r_neg, r_pos),
{
    if r_neg is Ok {
        let a = pos as int;
        let y1 = r_neg->Ok_0;
        let y2 = r_pos->Ok_0;
        assert forall|j: int| 0 <= j < y1.data@.len() implies y1.data@[j] == y2.data@[j] by {
            lemma_argmax_lane_unique(max, min_value, eq, lane(xs, xd, a, j), y1.data@[j], y2.data@[j]);
        }
        assert(y1.data@ =~= y2.data@);
    }
}

} // verus!
