//! Properties of the reductions that relate several functions.

use vstd::prelude::*;
use vstd::relations::sorted_by;
use crate::axes::{
    axis_leq, dense_of_mask, lemma_axis_leq_total, preprocessed_axes, reduction_order, sorted_axes,
};
use crate::broadcast::{bcast_src, broadcastable};
use crate::fold::{
    lemma_lane_index_bound, argmax_mask, axes_fit, fold_chain, fold_rel, fold_step_rel, lane, lane_index, lane_inner, lane_outer,
    lemma_split_at_axis, marked_index_sum, reduce_chain, reduce_rel, reduced_shape, step_shape,
};
use crate::array::NdArray;
use crate::ops::{
    grad_spec, grad_view_shape, insert_ones, insertable, min_max_grad_elem, min_max_grad_outcome,
    reduce_outcome, OpError, ReduceMax, ReduceMin,
};
use crate::shape::{is_scalar_shape, lemma_size_concat, pos_size, shape_size};

verus! {

/// The axes increase strictly.
pub open spec fn strictly_increasing(a: Seq<usize>) -> bool {
    forall|i: int, j: int| 0 <= i < j < a.len() ==> a[i] < a[j]
}

/// Every axis of `ax` is below `n`.
pub open spec fn all_below(ax: Seq<usize>, n: nat) -> bool {
    forall|i: int| 0 <= i < ax.len() ==> #[trigger] ax[i] < n
}

/// Position `k` is one of the axes `ax`.
pub open spec fn has_axis(ax: Seq<usize>, k: int) -> bool {
    exists|i: int| 0 <= i < ax.len() && #[trigger] ax[i] as int == k
}

/// `s` with length one at each axis of `ax`.
pub open spec fn ones_at(s: Seq<usize>, ax: Seq<usize>) -> Seq<usize> {
    Seq::new(s.len(), |k: int| if has_axis(ax, k) { 1usize } else { s[k] })
}

/// Sorting distinct axes below `n` gives strictly increasing axes below `n`.
pub proof fn lemma_sorted_distinct(ax: Seq<usize>, n: nat)
    requires
        ax.no_duplicates(),
        all_below(ax, n),
    ensures
        strictly_increasing(sorted_axes(ax)),
        sorted_axes(ax).len() == ax.len(),
        all_below(sorted_axes(ax), n),
        forall|k: int| has_axis(sorted_axes(ax), k) <==> has_axis(ax, k),
{
    let a = sorted_axes(ax);
    lemma_axis_leq_total();
    ax.lemma_sort_by_ensures(axis_leq());
    ax.to_multiset_ensures();
    a.to_multiset_ensures();
    ax.lemma_multiset_has_no_duplicates();
    a.lemma_multiset_has_no_duplicates_conv();
    assert(sorted_by(a, axis_leq()));
    assert forall|i: int, j: int| 0 <= i < j < a.len() implies a[i] < a[j] by {
        assert(axis_leq()(a[i], a[j]));
    }
    assert forall|v: usize| a.contains(v) <==> ax.contains(v) by {
        assert(a.to_multiset().count(v) == ax.to_multiset().count(v));
    }
    assert forall|k: int| has_axis(a, k) <==> has_axis(ax, k) by {
        if has_axis(a, k) {
            let i = choose|i: int| 0 <= i < a.len() && #[trigger] a[i] as int == k;
            assert(a.contains(a[i]));
            let j = choose|j: int| 0 <= j < ax.len() && ax[j] == a[i];
            assert(ax[j] as int == k);
        }
        if has_axis(ax, k) {
            let i = choose|i: int| 0 <= i < ax.len() && #[trigger] ax[i] as int == k;
            assert(ax.contains(ax[i]));
            let j = choose|j: int| 0 <= j < a.len() && a[j] == ax[i];
            assert(a[j] as int == k);
        }
    }
    assert forall|i: int| 0 <= i < a.len() implies #[trigger] a[i] < n by {
        assert(a.contains(a[i]));
        assert(ax.contains(a[i]));
        let k = choose|k: int| 0 <= k < ax.len() && ax[k] == a[i];
        assert(ax[k] < n);
    }
}

/// Strictly increasing axes below `n` leave room for the axes after them.
pub proof fn lemma_strict_bound(a: Seq<usize>, n: nat)
    requires
        strictly_increasing(a),
        all_below(a, n),
    ensures
        forall|j: int| 0 <= j < a.len() ==> #[trigger] a[j] + (a.len() - j) <= n,
    decreases a.len(),
{
    if a.len() > 0 {
        let p = a.drop_last();
        let top = a.last();
        assert(all_below(p, top as nat)) by {
            assert forall|i: int| 0 <= i < p.len() implies #[trigger] p[i] < top as nat by {
                assert(a[i] < a[a.len() - 1]);
            }
        }
        assert(strictly_increasing(p));
        lemma_strict_bound(p, top as nat);
        assert forall|j: int| 0 <= j < a.len() implies #[trigger] a[j] + (a.len() - j) <= n by {
            if j < a.len() - 1 {
                assert(p[j] + (p.len() - j) <= top);
                assert(top < n);
            } else {
                assert(a[j] < n);
            }
        }
    }
}

/// Folding axes from the front: the first axis of the order is folded first.
pub proof fn lemma_reduced_front(s: Seq<usize>, x: usize, o: Seq<usize>, keep: bool)
    ensures
        reduced_shape(s, seq![x] + o, keep) == reduced_shape(step_shape(s, x as int, keep), o, keep),
    decreases o.len(),
{
    let xo = seq![x] + o;
    if o.len() == 0 {
        assert(xo.drop_last() =~= Seq::<usize>::empty());
        assert(reduced_shape(s, xo.drop_last(), keep) == s);
        assert(xo.last() == x);
        assert(reduced_shape(step_shape(s, x as int, keep), o, keep) == step_shape(s, x as int, keep));
    } else {
        assert(xo.drop_last() =~= seq![x] + o.drop_last());
        assert(xo.last() == o.last());
        lemma_reduced_front(s, x, o.drop_last(), keep);
        assert(reduced_shape(s, xo, keep) == step_shape(
            reduced_shape(s, xo.drop_last(), keep),
            o.last() as int,
            keep,
        ));
    }
}

/// Folding with `keep_dims` gives length one at the folded axes.
pub proof fn lemma_keep_shape(s: Seq<usize>, o: Seq<usize>)
    requires
        all_below(o, s.len()),
    ensures
        reduced_shape(s, o, true) == ones_at(s, o),
    decreases o.len(),
{
    if o.len() > 0 {
        let p = o.drop_last();
        assert(all_below(p, s.len()));
        lemma_keep_shape(s, p);
        assert forall|k: int| 0 <= k < s.len() implies #[trigger] ones_at(s, p).update(
            o.last() as int,
            1,
        )[k] == ones_at(s, o)[k] by {
            if has_axis(o, k) && k != o.last() {
                let i = choose|i: int| 0 <= i < o.len() && #[trigger] o[i] as int == k;
                assert(i != o.len() - 1);
                assert(p[i] == o[i]);
                assert(has_axis(p, k));
            }
            if has_axis(p, k) {
                let i = choose|i: int| 0 <= i < p.len() && #[trigger] p[i] as int == k;
                assert(o[i] == p[i]);
                assert(has_axis(o, k));
            }
            if k == o.last() {
                assert(o[o.len() - 1] as int == k);
                assert(has_axis(o, k));
            }
        }
        assert(ones_at(s, p).update(o.last() as int, 1) =~= ones_at(s, o));
    } else {
        assert(ones_at(s, o) =~= s);
    }
}

/// Folding without `keep_dims` drops one dimension per axis.
pub proof fn lemma_reduced_len(s: Seq<usize>, o: Seq<usize>)
    requires
        axes_fit(s.len(), o, false),
    ensures
        reduced_shape(s, o, false).len() == s.len() - o.len(),
    decreases o.len(),
{
    if o.len() > 0 {
        let p = o.drop_last();
        assert(axes_fit(s.len(), p, false)) by {
            assert forall|i: int| 0 <= i < p.len() implies #[trigger] p[i] < s.len() - i by {
                assert(o[i] < s.len() - i);
            }
        }
        lemma_reduced_len(s, p);
        assert(o[o.len() - 1] < s.len() - (o.len() - 1));
    }
}

/// A sequence of axes and its reverse hold the same axes.
pub proof fn lemma_reverse_has_axis(a: Seq<usize>)
    ensures
        forall|k: int| has_axis(a.reverse(), k) <==> has_axis(a, k),
        a.reverse().len() == a.len(),
{
    assert forall|k: int| has_axis(a.reverse(), k) <==> has_axis(a, k) by {
        if has_axis(a, k) {
            let i = choose|i: int| 0 <= i < a.len() && #[trigger] a[i] as int == k;
            assert(a.reverse()[a.len() - 1 - i] as int == k);
        }
        if has_axis(a.reverse(), k) {
            let i = choose|i: int| 0 <= i < a.reverse().len() && #[trigger] a.reverse()[i] as int == k;
            assert(a[a.len() - 1 - i] as int == k);
        }
    }
}

/// Inserting a dimension of length one at each of strictly increasing axes
/// undoes the folds without `keep_dims` along them: it gives the shape of the
/// folds with `keep_dims`.
pub proof fn lemma_insert_restores(s: Seq<usize>, a: Seq<usize>)
    requires
        strictly_increasing(a),
        all_below(a, s.len()),
    ensures
        insert_ones(reduced_shape(s, a.reverse(), false), a) == ones_at(s, a),
    decreases a.len(),
{
    if a.len() == 0 {
        assert(a.reverse() =~= Seq::<usize>::empty());
        assert(ones_at(s, a) =~= s);
    } else {
        let x = a.last();
        let p = a.drop_last();
        let sr = s.remove(x as int);
        assert(a.reverse() =~= seq![x] + p.reverse());
        lemma_reduced_front(s, x, p.reverse(), false);
        assert(strictly_increasing(p));
        assert(all_below(p, sr.len())) by {
            assert forall|i: int| 0 <= i < p.len() implies #[trigger] p[i] < sr.len() by {
                assert(a[i] < a[a.len() - 1]);
            }
        }
        lemma_insert_restores(sr, p);
        let k0 = ones_at(sr, p);
        assert(insert_ones(reduced_shape(s, a.reverse(), false), a) == k0.insert(x as int, 1));
        assert forall|k: int| 0 <= k < s.len() implies #[trigger] k0.insert(x as int, 1)[k] == ones_at(
            s,
            a,
        )[k] by {
            if k < x {
                assert(k0.insert(x as int, 1)[k] == k0[k]);
                assert(sr[k] == s[k]);
                if has_axis(a, k) {
                    let i = choose|i: int| 0 <= i < a.len() && #[trigger] a[i] as int == k;
                    assert(i != a.len() - 1);
                    assert(p[i] as int == k);
                    assert(has_axis(p, k));
                }
                if has_axis(p, k) {
                    let i = choose|i: int| 0 <= i < p.len() && #[trigger] p[i] as int == k;
                    assert(a[i] as int == k);
                    assert(has_axis(a, k));
                }
            } else if k == x {
                assert(a[a.len() - 1] as int == k);
                assert(has_axis(a, k));
            } else {
                assert(k0.insert(x as int, 1)[k] == k0[k - 1]);
                assert(sr[k - 1] == s[k]);
                if has_axis(a, k) {
                    let i = choose|i: int| 0 <= i < a.len() && #[trigger] a[i] as int == k;
                    if i < a.len() - 1 {
                        assert(a[i] < a[a.len() - 1]);
                    }
                }
                if has_axis(p, k - 1) {
                    let i = choose|i: int| 0 <= i < p.len() && #[trigger] p[i] as int == k - 1;
                    assert(a[i] < a[a.len() - 1]);
                }
            }
        }
        assert(k0.insert(x as int, 1) =~= ones_at(s, a));
    }
}

/// Distinct axes of a shape, folded from the last: each is an axis of the
/// array it is folded out of, with or without `keep_dims`; with `keep_dims`
/// every axis stays and the folded ones get length one; without it one axis
/// goes per fold.
pub proof fn law_reduced_shape(s: Seq<usize>, ax: Seq<usize>)
    requires
        ax.no_duplicates(),
        all_below(ax, s.len()),
    ensures
        axes_fit(s.len(), reduction_order(ax), true),
        axes_fit(s.len(), reduction_order(ax), false),
        reduced_shape(s, reduction_order(ax), true) == ones_at(s, ax),
        reduced_shape(s, reduction_order(ax), false).len() == s.len() - ax.len(),
{
    let n = s.len();
    let a = sorted_axes(ax);
    let order = reduction_order(ax);
    lemma_sorted_distinct(ax, n);
    lemma_strict_bound(a, n);
    lemma_reverse_has_axis(a);
    let m = a.len();
    assert forall|i: int| 0 <= i < order.len() implies #[trigger] order[i] < n - i by {
        assert(order[i] == a[m - 1 - i]);
        assert(a[m - 1 - i] + (m - (m - 1 - i)) <= n);
    }
    assert(axes_fit(n, order, false));
    assert(axes_fit(n, order, true));
    assert(all_below(order, n)) by {
        assert forall|i: int| 0 <= i < order.len() implies #[trigger] order[i] < n by {
            assert(order[i] < n - i);
        }
    }
    lemma_keep_shape(s, order);
    assert(ones_at(s, order) =~= ones_at(s, ax));
    lemma_reduced_len(s, order);
}

/// The view in which the gradient of a reduction along distinct axes is
/// broadcast: the input's shape with length one at the reduced axes.
pub proof fn lemma_grad_view(s: Seq<usize>, axes: Seq<i64>, sparse: bool, ax: Seq<usize>, keep: bool)
    requires
        preprocessed_axes(s.len(), axes, sparse) == Some(ax),
        ax.no_duplicates(),
        all_below(ax, s.len()),
    ensures
        broadcastable(ones_at(s, ax), s),
        reduced_shape(s, reduction_order(ax), keep) == s ==> ones_at(s, ax) == s,
        reduced_shape(s, reduction_order(ax), keep) != s ==> grad_view_shape(
            !keep,
            sparse,
            reduced_shape(s, reduction_order(ax), keep),
            s,
            axes,
        ) == Ok::<Seq<usize>, OpError>(ones_at(s, ax)),
{
    let n = s.len();
    let a = sorted_axes(ax);
    let m = a.len();
    law_reduced_shape(s, ax);
    lemma_sorted_distinct(ax, n);
    lemma_strict_bound(a, n);
    let gs = reduced_shape(s, reduction_order(ax), keep);
    let ones = ones_at(s, ax);
    assert(broadcastable(ones, s));
    assert(ones_at(s, a) =~= ones);
    if gs == s {
        if !keep {
            assert(m == 0);
            assert(ones =~= s);
        }
    }
    if gs != s {
        if keep {
            assert(gs == ones);
            if is_scalar_shape(gs) {
                if gs.len() == 1 {
                    if has_axis(ax, 0) {
                        assert(gs[0] == 1);
                    }
                    assert(gs =~= s);
                } else {
                    assert(gs =~= s);
                }
            }
            assert(grad_view_shape(!keep, sparse, gs, s, axes) == Ok::<Seq<usize>, OpError>(gs));
        } else {
            assert(gs.len() == n - m);
            assert(insertable(gs.len(), a)) by {
                assert forall|i: int| 0 <= i < a.len() implies #[trigger] a[i] <= gs.len() + i by {
                    assert(a[i] + (m - i) <= n);
                }
            }
            lemma_insert_restores(s, a);
            assert(grad_view_shape(!keep, sparse, gs, s, axes) == Ok::<Seq<usize>, OpError>(ones));
        }
    }
}

/// The gradient of a reduction has the shape of the reduction's input: when
/// the axis argument denotes distinct axes of `s` (a shape within `ndarray`'s
/// limits), the output of reducing an array of shape `s` along it, with or
/// without `keep_dims`, is broadcast back into `s` by the reduction's
/// gradient, which makes broadcast dimensions exactly when the axes were
/// dropped.
pub proof fn law_grad_restores_input_shape<E>(
    s: Seq<usize>,
    axes: Seq<i64>,
    sparse: bool,
    ax: Seq<usize>,
    keep: bool,
    gd: Seq<E>,
)
    requires
        pos_size(s) <= isize::MAX,
        preprocessed_axes(s.len(), axes, sparse) == Some(ax),
        ax.no_duplicates(),
        all_below(ax, s.len()),
    ensures
        match grad_spec(!keep, sparse, reduced_shape(s, reduction_order(ax), keep), gd, s, axes) {
            Ok((t, _d)) => t == s,
            Err(_e) => false,
        },
{
    lemma_grad_view(s, axes, sparse, ax, keep);
}

/// Distinct axes of the array reduce without error: when the axis argument
/// denotes distinct axes of `s`, a reduction of an array of shape `s` along
/// it succeeds, whatever the combining function.
pub proof fn law_distinct_axes_reduce<E, F: Fn(E, E) -> E>(
    f: F,
    init: E,
    s: Seq<usize>,
    d: Seq<E>,
    axes: Seq<i64>,
    sparse: bool,
    ax: Seq<usize>,
    keep: bool,
    r: Result<crate::array::NdArray<E>, OpError>,
)
    requires
        preprocessed_axes(s.len(), axes, sparse) == Some(ax),
        ax.no_duplicates(),
        all_below(ax, s.len()),
        reduce_outcome(f, init, s, d, axes, keep, sparse, r),
    ensures
        r.is_ok(),
{
    law_reduced_shape(s, ax);
}

/// A mask marks exactly the positions holding one, each once and in
/// increasing order; so a mask no longer than the rank of an array denotes
/// distinct axes of it.
pub proof fn law_mask_axes(mask: Seq<i64>)
    requires
        mask.len() <= usize::MAX,
    ensures
        strictly_increasing(dense_of_mask(mask)),
        all_below(dense_of_mask(mask), mask.len()),
        forall|k: int| has_axis(dense_of_mask(mask), k) <==> (0 <= k < mask.len() && mask[k] == 1),
        dense_of_mask(mask).no_duplicates(),
    decreases mask.len(),
{
    if mask.len() > 0 {
        let p = mask.drop_last();
        law_mask_axes(p);
        let dp = dense_of_mask(p);
        let d = dense_of_mask(mask);
        let top = (mask.len() - 1) as usize;
        assert(top as int == mask.len() - 1);
        if mask.last() == 1 {
            assert(d == dp.push(top));
            assert(all_below(d, mask.len()));
            assert forall|i: int, j: int| 0 <= i < j < d.len() implies d[i] < d[j] by {
                if j < dp.len() {
                    assert(d[i] == dp[i] && d[j] == dp[j]);
                } else {
                    assert(dp[i] < p.len());
                }
            }
            assert forall|k: int| has_axis(d, k) <==> (0 <= k < mask.len() && mask[k] == 1) by {
                if has_axis(d, k) {
                    let i = choose|i: int| 0 <= i < d.len() && #[trigger] d[i] as int == k;
                    if i < dp.len() {
                        assert(d[i] == dp[i]);
                        assert(has_axis(dp, k));
                        assert(p[k] == mask[k]);
                    }
                }
                if 0 <= k < mask.len() && mask[k] == 1 {
                    if k < p.len() {
                        assert(p[k] == 1);
                        assert(has_axis(dp, k));
                        let i = choose|i: int| 0 <= i < dp.len() && #[trigger] dp[i] as int == k;
                        assert(d[i] == dp[i]);
                    } else {
                        assert(d[d.len() - 1] as int == k);
                    }
                }
            }
        } else {
            assert(d == dp);
            assert forall|k: int| has_axis(d, k) <==> (0 <= k < mask.len() && mask[k] == 1) by {
                if has_axis(d, k) {
                    assert(p[k] == mask[k]);
                }
                if 0 <= k < mask.len() && mask[k] == 1 {
                    assert(k < p.len());
                    assert(p[k] == 1);
                }
            }
        }
    }
}

/// A reduction along a mask no longer than the rank of the array succeeds,
/// whatever the combining function.
pub proof fn law_mask_reduce<E, F: Fn(E, E) -> E>(
    f: F,
    init: E,
    s: Seq<usize>,
    d: Seq<E>,
    mask: Seq<i64>,
    keep: bool,
    r: Result<crate::array::NdArray<E>, OpError>,
)
    requires
        mask.len() <= s.len(),
        s.len() <= usize::MAX,
        reduce_outcome(f, init, s, d, mask, keep, true, r),
    ensures
        r.is_ok(),
{
    law_mask_axes(mask);
    let ax = dense_of_mask(mask);
    assert(all_below(ax, s.len())) by {
        assert forall|i: int| 0 <= i < ax.len() implies #[trigger] ax[i] < s.len() by {
            assert(ax[i] < mask.len());
        }
    }
    law_distinct_axes_reduce(f, init, s, d, mask, true, ax, keep, r);
}

/// A lane whose maximum occurs once reports the position of that maximum.
pub proof fn law_unique_max_position(eqs: Seq<bool>, k: int)
    requires
        0 <= k < eqs.len(),
        eqs[k],
        forall|i: int| 0 <= i < eqs.len() && i != k ==> !eqs[i],
    ensures
        marked_index_sum(argmax_mask(eqs)) == k,
    decreases eqs.len(),
{
    crate::fold::lemma_argmax_mask_len(eqs);
    if k < eqs.len() - 1 {
        let p = eqs.drop_last();
        law_unique_max_position(p, k);
        assert(!eqs.last());
        assert(argmax_mask(eqs).drop_last() =~= argmax_mask(p));
    } else {
        let p = eqs.drop_last();
        lemma_no_marks(p);
        crate::fold::lemma_argmax_mask_len(p);
        assert(argmax_mask(eqs).drop_last() =~= argmax_mask(p));
    }
}

/// A lane with no element equal to the maximum marks nothing.
pub proof fn lemma_no_marks(eqs: Seq<bool>)
    requires
        forall|i: int| 0 <= i < eqs.len() ==> !eqs[i],
    ensures
        marked_index_sum(argmax_mask(eqs)) == 0,
        forall|i: int| 0 <= i < argmax_mask(eqs).len() ==> !argmax_mask(eqs)[i],
    decreases eqs.len(),
{
    crate::fold::lemma_argmax_mask_len(eqs);
    if eqs.len() > 0 {
        let p = eqs.drop_last();
        lemma_no_marks(p);
        assert(argmax_mask(eqs).drop_last() =~= argmax_mask(p));
        assert forall|i: int| 0 <= i < argmax_mask(eqs).len() implies !argmax_mask(eqs)[i] by {
            if i < p.len() {
                assert(argmax_mask(eqs)[i] == argmax_mask(p)[i]);
            }
        }
    }
}

/// `f` gives one result for each pair of arguments.
pub open spec fn deterministic<E, R, F: Fn(E, E) -> R>(f: F) -> bool {
    forall|a: E, b: E, r1: R, r2: R|
        #![trigger call_ensures(f, (a, b), r1), call_ensures(f, (a, b), r2)]
        call_ensures(f, (a, b), r1) && call_ensures(f, (a, b), r2) ==> r1 == r2
}

/// Two outcomes of an operator agree: the same error, or arrays with the
/// same shape and elements.
pub open spec fn same_result<E>(r1: Result<NdArray<E>, OpError>, r2: Result<NdArray<E>, OpError>) -> bool {
    match r1 {
        Ok(a) => r2 matches Ok(b) && a.shape@ == b.shape@ && a.data@ == b.data@,
        Err(e) => r2 == Err::<NdArray<E>, OpError>(e),
    }
}

/// Two chains of partial results of the same fold agree up to position `i`.
proof fn lemma_chains_agree<E, F: Fn(E, E) -> E>(f: F, items: Seq<E>, a1: Seq<E>, a2: Seq<E>, i: int)
    requires
        deterministic(f),
        fold_chain(f, items, a1),
        fold_chain(f, items, a2),
        a1[0] == a2[0],
        0 <= i <= items.len(),
    ensures
        a1[i] == a2[i],
    decreases i,
{
    if i > 0 {
        let k = i - 1;
        lemma_chains_agree(f, items, a1, a2, k);
        assert(call_ensures(f, (a1[k], items[k]), a1[k + 1]));
        assert(call_ensures(f, (a2[k], items[k]), a2[k + 1]));
    }
}

/// A fold by a deterministic function has one result.
pub proof fn lemma_fold_unique<E, F: Fn(E, E) -> E>(f: F, init: E, items: Seq<E>, r1: E, r2: E)
    requires
        deterministic(f),
        fold_rel(f, init, items, r1),
        fold_rel(f, init, items, r2),
    ensures
        r1 == r2,
{
    let a1 = choose|acc: Seq<E>|
        #[trigger] fold_chain(f, items, acc) && acc[0] == init && acc[items.len() as int] == r1;
    let a2 = choose|acc: Seq<E>|
        #[trigger] fold_chain(f, items, acc) && acc[0] == init && acc[items.len() as int] == r2;
    lemma_chains_agree(f, items, a1, a2, items.len() as int);
}

/// A fold along an axis by a deterministic function has one result.
pub proof fn lemma_fold_step_unique<E, F: Fn(E, E) -> E>(
    f: F,
    init: E,
    s: Seq<usize>,
    d: Seq<E>,
    axis: int,
    keep: bool,
    t1: Seq<usize>,
    r1: Seq<E>,
    t2: Seq<usize>,
    r2: Seq<E>,
)
    requires
        deterministic(f),
        fold_step_rel(f, init, s, d, axis, keep, t1, r1),
        fold_step_rel(f, init, s, d, axis, keep, t2, r2),
    ensures
        t1 == t2,
        r1 == r2,
{
    assert forall|j: int| 0 <= j < r1.len() implies r1[j] == r2[j] by {
        lemma_fold_unique(f, init, lane(s, d, axis, j), r1[j], r2[j]);
    }
    assert(r1 =~= r2);
}

/// Two chains of folds along the same axes agree up to position `i`.
proof fn lemma_reduce_chains_agree<E, F: Fn(E, E) -> E>(
    f: F,
    init: E,
    order: Seq<usize>,
    keep: bool,
    sh1: Seq<Seq<usize>>,
    da1: Seq<Seq<E>>,
    sh2: Seq<Seq<usize>>,
    da2: Seq<Seq<E>>,
    i: int,
)
    requires
        deterministic(f),
        reduce_chain(f, init, order, keep, sh1, da1),
        reduce_chain(f, init, order, keep, sh2, da2),
        sh1[0] == sh2[0],
        da1[0] == da2[0],
        0 <= i <= order.len(),
    ensures
        sh1[i] == sh2[i],
        da1[i] == da2[i],
    decreases i,
{
    if i > 0 {
        let k = i - 1;
        lemma_reduce_chains_agree(f, init, order, keep, sh1, da1, sh2, da2, k);
        assert(fold_step_rel(f, init, sh1[k], da1[k], order[k] as int, keep, sh1[k + 1], da1[k + 1]));
        assert(fold_step_rel(f, init, sh2[k], da2[k], order[k] as int, keep, sh2[k + 1], da2[k + 1]));
        lemma_fold_step_unique(
            f,
            init,
            sh1[k],
            da1[k],
            order[k] as int,
            keep,
            sh1[k + 1],
            da1[k + 1],
            sh2[k + 1],
            da2[k + 1],
        );
    }
}

/// Folds along axes by a deterministic function have one result.
pub proof fn lemma_reduce_unique<E, F: Fn(E, E) -> E>(
    f: F,
    init: E,
    s: Seq<usize>,
    d: Seq<E>,
    order: Seq<usize>,
    keep: bool,
    t1: Seq<usize>,
    r1: Seq<E>,
    t2: Seq<usize>,
    r2: Seq<E>,
)
    requires
        deterministic(f),
        reduce_rel(f, init, s, d, order, keep, t1, r1),
        reduce_rel(f, init, s, d, order, keep, t2, r2),
    ensures
        t1 == t2,
        r1 == r2,
{
    let (sh1, da1) = choose|shapes: Seq<Seq<usize>>, datas: Seq<Seq<E>>|
        #[trigger] reduce_chain(f, init, order, keep, shapes, datas) && shapes[0] == s && datas[0]
            == d && shapes[order.len() as int] == t1 && datas[order.len() as int] == r1;
    let (sh2, da2) = choose|shapes: Seq<Seq<usize>>, datas: Seq<Seq<E>>|
        #[trigger] reduce_chain(f, init, order, keep, shapes, datas) && shapes[0] == s && datas[0]
            == d && shapes[order.len() as int] == t2 && datas[order.len() as int] == r2;
    lemma_reduce_chains_agree(f, init, order, keep, sh1, da1, sh2, da2, order.len() as int);
}

/// The order of the axes does not change a reduction: two axis arguments
/// that denote the same axes, in any order, give the same outcome when the
/// combining function is deterministic.
pub proof fn law_axes_order_irrelevant<E, F: Fn(E, E) -> E>(
    f: F,
    init: E,
    s: Seq<usize>,
    d: Seq<E>,
    axes1: Seq<i64>,
    axes2: Seq<i64>,
    sparse: bool,
    ax1: Seq<usize>,
    ax2: Seq<usize>,
    keep: bool,
    r1: Result<NdArray<E>, OpError>,
    r2: Result<NdArray<E>, OpError>,
)
    requires
        deterministic(f),
        preprocessed_axes(s.len(), axes1, sparse) == Some(ax1),
        preprocessed_axes(s.len(), axes2, sparse) == Some(ax2),
        ax1.to_multiset() == ax2.to_multiset(),
        reduce_outcome(f, init, s, d, axes1, keep, sparse, r1),
        reduce_outcome(f, init, s, d, axes2, keep, sparse, r2),
    ensures
        same_result(r1, r2),
{
    lemma_axis_leq_total();
    ax1.lemma_sort_by_ensures(axis_leq());
    crate::axes::lemma_sorted_axes_unique(ax2, sorted_axes(ax1));
    ax1.to_multiset_ensures();
    ax2.to_multiset_ensures();
    assert(ax1.len() == ax2.len());
    assert(reduction_order(ax1) == reduction_order(ax2));
    if !(is_scalar_shape(s) || ax1.len() == 0) && axes_fit(s.len(), reduction_order(ax1), keep) {
        let y1 = r1->Ok_0;
        let y2 = r2->Ok_0;
        lemma_reduce_unique(
            f,
            init,
            s,
            d,
            reduction_order(ax1),
            keep,
            y1.shape@,
            y1.data@,
            y2.shape@,
            y2.data@,
        );
    }
}

/// The gradient of a minimum or maximum has one outcome when the equality
/// and the multiplication are deterministic.
pub proof fn lemma_min_max_grad_unique<E, G: Fn(E, E) -> bool, H: Fn(E, E) -> E>(
    eq: G,
    times: H,
    one: E,
    zero: E,
    keep: bool,
    sparse: bool,
    gs: Seq<usize>,
    gd: Seq<E>,
    xs: Seq<usize>,
    xd: Seq<E>,
    ys: Seq<usize>,
    yd: Seq<E>,
    axes: Seq<i64>,
    r1: Result<NdArray<E>, OpError>,
    r2: Result<NdArray<E>, OpError>,
)
    requires
        deterministic(eq),
        deterministic(times),
        min_max_grad_outcome(eq, times, one, zero, keep, sparse, gs, gd, xs, xd, ys, yd, axes, r1),
        min_max_grad_outcome(eq, times, one, zero, keep, sparse, gs, gd, xs, xd, ys, yd, axes, r2),
    ensures
        same_result(r1, r2),
{
    if r1 is Ok {
        let o1 = r1->Ok_0;
        let o2 = r2->Ok_0;
        let ybd = grad_spec(!keep, sparse, ys, yd, xs, axes)->Ok_0.1;
        let gbd = grad_spec(!keep, sparse, gs, gd, xs, axes)->Ok_0.1;
        assert forall|i: int| 0 <= i < o1.data@.len() implies o1.data@[i] == o2.data@[i] by {
            assert(min_max_grad_elem(eq, times, one, zero, xd[i], ybd[i], gbd[i], o1.data@[i]));
            assert(min_max_grad_elem(eq, times, one, zero, xd[i], ybd[i], gbd[i], o2.data@[i]));
            let e1 = choose|e: bool|
                #[trigger] call_ensures(eq, (xd[i], ybd[i]), e) && call_ensures(
                    times,
                    (if e {
                        one
                    } else {
                        zero
                    }, gbd[i]),
                    o1.data@[i],
                );
            let e2 = choose|e: bool|
                #[trigger] call_ensures(eq, (xd[i], ybd[i]), e) && call_ensures(
                    times,
                    (if e {
                        one
                    } else {
                        zero
                    }, gbd[i]),
                    o2.data@[i],
                );
            assert(e1 == e2);
        }
        assert(o1.data@ =~= o2.data@);
    }
}

/// The gradient of a minimum is the gradient that minima and maxima share:
/// `ReduceMin::grad` and `min_max_grad` with the operator's flags give the
/// same outcome when the equality and the multiplication are deterministic.
pub proof fn law_min_grad_is_min_max_grad<E, G: Fn(E, E) -> bool, H: Fn(E, E) -> E>(
    op: ReduceMin,
    eq: G,
    times: H,
    one: E,
    zero: E,
    gs: Seq<usize>,
    gd: Seq<E>,
    xs: Seq<usize>,
    xd: Seq<E>,
    ys: Seq<usize>,
    yd: Seq<E>,
    axes: Seq<i64>,
    r_op: Result<NdArray<E>, OpError>,
    r_shared: Result<NdArray<E>, OpError>,
)
    requires
        deterministic(eq),
        deterministic(times),
        min_max_grad_outcome(eq, times, one, zero, op.keep_dims, op.sparse_axes, gs, gd, xs, xd, ys, yd, axes, r_op),
        min_max_grad_outcome(eq, times, one, zero, op.keep_dims, op.sparse_axes, gs, gd, xs, xd, ys, yd, axes, r_shared),
    ensures
        same_result(r_op, r_shared),
{
    lemma_min_max_grad_unique(eq, times, one, zero, op.keep_dims, op.sparse_axes, gs, gd, xs, xd, ys, yd, axes, r_op, r_shared);
}

/// The gradient of a maximum is the gradient that minima and maxima share:
/// `ReduceMax::grad` and `min_max_grad` with the operator's flags give the
/// same outcome when the equality and the multiplication are deterministic.
pub proof fn law_max_grad_is_min_max_grad<E, G: Fn(E, E) -> bool, H: Fn(E, E) -> E>(
    op: ReduceMax,
    eq: G,
    times: H,
    one: E,
    zero: E,
    gs: Seq<usize>,
    gd: Seq<E>,
    xs: Seq<usize>,
    xd: Seq<E>,
    ys: Seq<usize>,
    yd: Seq<E>,
    axes: Seq<i64>,
    r_op: Result<NdArray<E>, OpError>,
    r_shared: Result<NdArray<E>, OpError>,
)
    requires
        deterministic(eq),
        deterministic(times),
        min_max_grad_outcome(eq, times, one, zero, op.keep_dims, op.sparse_axes, gs, gd, xs, xd, ys, yd, axes, r_op),
        min_max_grad_outcome(eq, times, one, zero, op.keep_dims, op.sparse_axes, gs, gd, xs, xd, ys, yd, axes, r_shared),
    ensures
        same_result(r_op, r_shared),
{
    lemma_min_max_grad_unique(eq, times, one, zero, op.keep_dims, op.sparse_axes, gs, gd, xs, xd, ys, yd, axes, r_op, r_shared);
}

/// A shape with length one at folded axes, `k`, and the shape with those
/// axes dropped, `d`, agree before position `p` and have the same size from
/// `p` on.
pub open spec fn keep_drop_rel(k: Seq<usize>, d: Seq<usize>, p: int) -> bool {
    &&& 0 <= p <= k.len()
    &&& p <= d.len()
    &&& k.take(p) == d.take(p)
    &&& shape_size(k.skip(p)) == shape_size(d.skip(p))
}

/// The size of a shape after position `a` splits at a later position `p`.
proof fn lemma_size_after(s: Seq<usize>, a: int, p: int)
    requires
        0 <= a < p <= s.len(),
    ensures
        shape_size(s.subrange(a + 1, s.len() as int)) == shape_size(s.subrange(a + 1, p)) * shape_size(
            s.skip(p),
        ),
{
    assert(s.subrange(a + 1, s.len() as int) =~= s.subrange(a + 1, p) + s.skip(p));
    lemma_size_concat(s.subrange(a + 1, p), s.skip(p));
}

/// Folding with and without `keep_dims` along strictly decreasing axes
/// gives the same elements at each step.
proof fn lemma_keep_drop_chains<E, F: Fn(E, E) -> E>(
    f: F,
    init: E,
    order: Seq<usize>,
    n: nat,
    sk: Seq<Seq<usize>>,
    dk: Seq<Seq<E>>,
    sd: Seq<Seq<usize>>,
    dd: Seq<Seq<E>>,
    i: int,
)
    requires
        deterministic(f),
        reduce_chain(f, init, order, true, sk, dk),
        reduce_chain(f, init, order, false, sd, dd),
        sk[0] == sd[0],
        dk[0] == dd[0],
        sk[0].len() == n,
        forall|a: int, b: int| 0 <= a < b < order.len() ==> order[a] > order[b],
        all_below(order, n),
        0 <= i <= order.len(),
    ensures
        dk[i] == dd[i],
        keep_drop_rel(sk[i], sd[i], if i == 0 { n as int } else { order[i - 1] as int }),
        sk[i].len() == n,
    decreases i,
{
    if i == 0 {
        assert(sk[0].skip(n as int) =~= sd[0].skip(n as int));
        assert(sk[0].take(n as int) =~= sd[0].take(n as int));
    } else {
        let k = i - 1;
        lemma_keep_drop_chains(f, init, order, n, sk, dk, sd, dd, k);
        let p: int = if k == 0 { n as int } else { order[k - 1] as int };
        let a = order[k] as int;
        let ks = sk[k];
        let ds = sd[k];
        let d = dk[k];
        assert(a < p) by {
            if k > 0 {
                assert(order[k - 1] > order[k]);
            } else {
                assert(order[k] < n);
            }
        }
        assert(fold_step_rel(f, init, ks, d, a, true, sk[k + 1], dk[k + 1]));
        assert(fold_step_rel(f, init, ds, dd[k], a, false, sd[k + 1], dd[k + 1]));
        assert(ks.take(p)[a] == ds.take(p)[a]);
        assert(ks[a] == ds[a]);
        assert(ks.subrange(0, a) =~= ks.take(p).subrange(0, a));
        assert(ds.subrange(0, a) =~= ds.take(p).subrange(0, a));
        assert(ks.subrange(a + 1, p) =~= ks.take(p).subrange(a + 1, p));
        assert(ds.subrange(a + 1, p) =~= ds.take(p).subrange(a + 1, p));
        lemma_size_after(ks, a, p);
        lemma_size_after(ds, a, p);
        assert(lane_inner(ks, a) == lane_inner(ds, a));
        assert(lane_outer(ks, a) == lane_outer(ds, a));
        lemma_split_at_axis(ks, a);
        lemma_split_at_axis(ds, a);
        let nk = dk[k + 1];
        let nd = dd[k + 1];
        assert forall|j: int| 0 <= j < nk.len() implies #[trigger] nk[j] == nd[j] by {
            assert(lane(ks, d, a, j) =~= lane(ds, d, a, j));
            lemma_fold_unique(f, init, lane(ks, d, a, j), nk[j], nd[j]);
        }
        assert(nk =~= nd);
        let k2 = sk[k + 1];
        let d2 = sd[k + 1];
        assert(k2 == ks.update(a, 1));
        assert(d2 == ds.remove(a));
        assert(k2.take(a) =~= d2.take(a));
        let one = seq![1usize];
        let rest = ks.skip(a + 1);
        assert(k2.skip(a) =~= one + rest);
        assert(d2.skip(a) =~= ds.skip(a + 1));
        lemma_size_concat(one, rest);
        assert(one.drop_last() =~= Seq::<usize>::empty());
        assert(shape_size(one.drop_last()) == 1);
        assert(one.last() == 1);
        assert(shape_size(one) == shape_size(one.drop_last()) * (one.last() as nat));
        assert(shape_size(one) == 1) by (nonlinear_arith)
            requires
                shape_size(one) == shape_size(one.drop_last()) * (one.last() as nat),
                shape_size(one.drop_last()) == 1,
                one.last() == 1,
        ;
        assert(rest =~= ks.subrange(a + 1, ks.len() as int));
        assert(ds.skip(a + 1) =~= ds.subrange(a + 1, ds.len() as int));
        assert(shape_size(one) * shape_size(rest) == shape_size(rest)) by (nonlinear_arith)
            requires
                shape_size(one) == 1,
        ;
        assert(shape_size(k2.skip(a)) == shape_size(rest));
    }
}

/// `keep_dims` changes only the shape of a reduction along distinct axes:
/// with a deterministic combining function both outcomes succeed with the
/// same elements, with length one at the reduced axes when the dimensions
/// are kept and without those axes otherwise.
pub proof fn law_keep_dims_same_elements<E, F: Fn(E, E) -> E>(
    f: F,
    init: E,
    s: Seq<usize>,
    d: Seq<E>,
    axes: Seq<i64>,
    sparse: bool,
    ax: Seq<usize>,
    r_keep: Result<NdArray<E>, OpError>,
    r_drop: Result<NdArray<E>, OpError>,
)
    requires
        deterministic(f),
        preprocessed_axes(s.len(), axes, sparse) == Some(ax),
        ax.no_duplicates(),
        all_below(ax, s.len()),
        reduce_outcome(f, init, s, d, axes, true, sparse, r_keep),
        reduce_outcome(f, init, s, d, axes, false, sparse, r_drop),
    ensures
        r_keep is Ok,
        r_drop is Ok,
        r_keep->Ok_0.data@ == r_drop->Ok_0.data@,
        !(is_scalar_shape(s) || ax.len() == 0) ==> r_keep->Ok_0.shape@ == ones_at(s, ax),
        !(is_scalar_shape(s) || ax.len() == 0) ==> r_drop->Ok_0.shape@.len() == s.len() - ax.len(),
{
    law_reduced_shape(s, ax);
    if !(is_scalar_shape(s) || ax.len() == 0) {
        let n = s.len();
        let a = sorted_axes(ax);
        let order = reduction_order(ax);
        lemma_sorted_distinct(ax, n);
        let m = a.len();
        assert forall|i: int, j: int| 0 <= i < j < order.len() implies order[i] > order[j] by {
            assert(order[i] == a[m - 1 - i]);
            assert(order[j] == a[m - 1 - j]);
        }
        assert(all_below(order, n)) by {
            assert forall|i: int| 0 <= i < order.len() implies #[trigger] order[i] < n by {
                assert(order[i] == a[m - 1 - i]);
            }
        }
        let yk = r_keep->Ok_0;
        let yd = r_drop->Ok_0;
        let (sk, dk) = choose|shapes: Seq<Seq<usize>>, datas: Seq<Seq<E>>|
            #[trigger] reduce_chain(f, init, order, true, shapes, datas) && shapes[0] == s && datas[0]
                == d && shapes[order.len() as int] == yk.shape@ && datas[order.len() as int] == yk.data@;
        let (sd, dd) = choose|shapes: Seq<Seq<usize>>, datas: Seq<Seq<E>>|
            #[trigger] reduce_chain(f, init, order, false, shapes, datas) && shapes[0] == s && datas[0]
                == d && shapes[order.len() as int] == yd.shape@ && datas[order.len() as int] == yd.data@;
        lemma_keep_drop_chains(f, init, order, n, sk, dk, sd, dd, order.len() as int);
    }
}

/// The element that a broadcast from `v` places at position `k` of lane `j`
/// along an axis where `v` has length one is the element placed at `j` by
/// the broadcast of `v` without that axis (or with it kept at length one).
pub proof fn lemma_bcast_lane(v: Seq<usize>, t: Seq<usize>, a: int, keep: bool, j: int, k: int)
    requires
        v.len() == t.len(),
        0 <= a < t.len(),
        v[a] == 1,
        forall|p: int| 0 <= p < t.len() ==> #[trigger] v[p] == t[p] || v[p] == 1,
        0 <= j < shape_size(step_shape(t, a, keep)),
        0 <= k < t[a],
    ensures
        bcast_src(v, t, lane_index(t, a, j, k)) == bcast_src(
            step_shape(v, a, keep),
            step_shape(t, a, keep),
            j,
        ),
    decreases t.len(),
{
    let n = t.len();
    let l = t[a] as int;
    let tv = step_shape(v, a, keep);
    let tt = step_shape(t, a, keep);
    if a == n - 1 {
        assert(t.subrange(a + 1, n as int) =~= Seq::<usize>::empty());
        assert(lane_inner(t, a) == 1);
        let q = lane_index(t, a, j, k);
        assert((j / 1) * (l * 1) + k * 1 + j % 1 == j * l + k) by (nonlinear_arith);
        assert(q == j * l + k);
        vstd::arithmetic::div_mod::lemma_fundamental_div_mod_converse(q, l, j, k);
        assert(bcast_src(v, t, q) == bcast_src(v.drop_last(), t.drop_last(), j) * 1 + 0);
        assert(bcast_src(v, t, q) == bcast_src(v.drop_last(), t.drop_last(), j));
        if keep {
            assert(tv =~= v);
            assert(tt.drop_last() =~= t.drop_last());
            assert(tt.last() == 1);
            assert(bcast_src(tv, tt, j) == bcast_src(v.drop_last(), t.drop_last(), j / 1) * 1 + 0);
        } else {
            assert(tv =~= v.drop_last());
            assert(tt =~= t.drop_last());
        }
    } else {
        let tl = t.last() as int;
        let vl = v.last() as int;
        let t1 = t.drop_last();
        let v1 = v.drop_last();
        let ip = lane_inner(t1, a) as int;
        let i = lane_inner(t, a) as int;
        assert(t.subrange(a + 1, n as int).drop_last() =~= t1.subrange(a + 1, n - 1));
        assert(t.subrange(a + 1, n as int).last() == tl);
        assert(i == ip * tl);
        assert(t1[a] == l);
        assert(v1[a] == 1);
        let st1 = step_shape(t1, a, keep);
        let sv1 = step_shape(v1, a, keep);
        assert(tt.drop_last() =~= st1);
        assert(tv.drop_last() =~= sv1);
        assert(tt.last() == tl);
        assert(tv.last() == vl);
        assert(shape_size(tt) == shape_size(st1) * tl);
        assert(tl > 0 && shape_size(st1) > 0) by (nonlinear_arith)
            requires
                0 <= j < shape_size(tt),
                shape_size(tt) == shape_size(st1) * tl,
                tl >= 0,
        ;
        lemma_split_at_axis(t, a);
        lemma_split_at_axis(t1, a);
        assert(ip > 0) by (nonlinear_arith)
            requires
                0 <= j < shape_size(tt),
                shape_size(tt) == lane_outer(t, a) * i,
                i == ip * tl,
                ip >= 0,
        ;
        let j1 = j / tl;
        let r = j % tl;
        vstd::arithmetic::div_mod::lemma_fundamental_div_mod(j, tl);
        vstd::arithmetic::div_mod::lemma_mod_bound(j, tl);
        vstd::arithmetic::div_mod::lemma_div_pos_is_pos(j, tl);
        vstd::arithmetic::div_mod::lemma_div_denominator(j, tl, ip);
        vstd::arithmetic::div_mod::lemma_mod_breakdown(j, tl, ip);
        assert(ip * tl == tl * ip) by (nonlinear_arith);
        assert(j / i == j1 / ip);
        assert(j % i == tl * (j1 % ip) + r);
        let li1 = lane_index(t1, a, j1, k);
        let q = lane_index(t, a, j, k);
        assert(q == (j1 / ip) * (l * i) + k * i + tl * (j1 % ip) + r);
        let qa = j1 / ip;
        let qb = j1 % ip;
        assert(qa * (l * i) == (qa * (l * ip)) * tl) by {
            vstd::arithmetic::mul::lemma_mul_is_associative(l, ip, tl);
            vstd::arithmetic::mul::lemma_mul_is_associative(qa, l * ip, tl);
        }
        assert(k * i == (k * ip) * tl) by {
            vstd::arithmetic::mul::lemma_mul_is_associative(k, ip, tl);
        }
        assert(tl * qb == qb * tl) by {
            vstd::arithmetic::mul::lemma_mul_is_commutative(tl, qb);
        }
        let xa = qa * (l * ip);
        let xb = k * ip;
        assert((xa + xb + qb) * tl == xa * tl + xb * tl + qb * tl) by {
            vstd::arithmetic::mul::lemma_mul_is_distributive_add_other_way(tl, xa + xb, qb);
            vstd::arithmetic::mul::lemma_mul_is_distributive_add_other_way(tl, xa, xb);
        }
        assert(li1 == xa + xb + qb);
        assert(q == li1 * tl + r);
        vstd::arithmetic::div_mod::lemma_fundamental_div_mod_converse(q, tl, li1, r);
        assert(j1 < shape_size(st1)) by (nonlinear_arith)
            requires
                j == tl * j1 + r,
                0 <= r,
                j < shape_size(st1) * tl,
                tl > 0,
        ;
        lemma_bcast_lane(v1, t1, a, keep, j1, k);
        assert(bcast_src(v, t, q) == bcast_src(v1, t1, q / tl) * vl + (if vl == 1 {
            0
        } else {
            q % tl
        }));
        assert(bcast_src(tv, tt, j) == bcast_src(sv1, st1, j / tl) * vl + (if vl == 1 {
            0
        } else {
            j % tl
        }));
    }
}

/// A broadcast from a shape into itself places each element where it was.
pub proof fn lemma_bcast_self(x: Seq<usize>, q: int)
    requires
        0 <= q < shape_size(x),
    ensures
        bcast_src(x, x, q) == q,
    decreases x.len(),
{
    if x.len() > 0 {
        let tl = x.last() as int;
        let x1 = x.drop_last();
        assert(shape_size(x) == shape_size(x1) * tl);
        assert(tl > 0) by (nonlinear_arith)
            requires
                0 <= q < shape_size(x),
                shape_size(x) == shape_size(x1) * tl,
                tl >= 0,
        ;
        vstd::arithmetic::div_mod::lemma_fundamental_div_mod(q, tl);
        vstd::arithmetic::div_mod::lemma_mod_bound(q, tl);
        vstd::arithmetic::div_mod::lemma_div_pos_is_pos(q, tl);
        let q1 = q / tl;
        assert(q1 < shape_size(x1)) by (nonlinear_arith)
            requires
                q == tl * q1 + q % tl,
                0 <= q % tl,
                q < shape_size(x1) * tl,
                tl > 0,
        ;
        lemma_bcast_self(x1, q1);
        assert(q1 * tl == tl * q1) by {
            vstd::arithmetic::mul::lemma_mul_is_commutative(q1, tl);
        }
        if tl == 1 {
            assert(q % tl == 0);
            assert(tl * q1 == q1);
            assert(q1 == q);
        }
        assert(bcast_src(x, x, q) == bcast_src(x1, x1, q1) * tl + (if tl == 1 {
            0
        } else {
            q % tl
        }));
    } else {
        assert(shape_size(x) == 1);
    }
}

/// `init` combined `n` times with `v` by `g`.
pub open spec fn repeat_fold<E>(g: spec_fn(E, E) -> E, init: E, n: nat, v: E) -> E
    decreases n,
{
    if n == 0 {
        init
    } else {
        g(repeat_fold(g, init, (n - 1) as nat, v), v)
    }
}

/// `v` folded `lens[0]` times, that result folded `lens[1]` times, and so
/// on: what summing a value spread over axes of those lengths gives.
pub open spec fn nested_fold<E>(g: spec_fn(E, E) -> E, init: E, lens: Seq<usize>, v: E) -> E
    decreases lens.len(),
{
    if lens.len() == 0 {
        v
    } else {
        repeat_fold(g, init, lens.last() as nat, nested_fold(g, init, lens.drop_last(), v))
    }
}

/// Every result of `f` is the value of `g` on its arguments.
pub open spec fn computes<E, F: Fn(E, E) -> E>(f: F, g: spec_fn(E, E) -> E) -> bool {
    forall|a: E, b: E, r: E| #[trigger] call_ensures(f, (a, b), r) ==> r == g(a, b)
}

/// Folding `n` copies of one value.
pub proof fn lemma_fold_constant<E, F: Fn(E, E) -> E>(
    f: F,
    g: spec_fn(E, E) -> E,
    init: E,
    n: nat,
    c: E,
    r: E,
)
    requires
        computes(f, g),
        fold_rel(f, init, Seq::new(n, |k: int| c), r),
    ensures
        r == repeat_fold(g, init, n, c),
{
    let items = Seq::new(n, |k: int| c);
    let acc = choose|acc: Seq<E>|
        #[trigger] fold_chain(f, items, acc) && acc[0] == init && acc[items.len() as int] == r;
    lemma_chain_constant(f, g, init, n, c, acc, n as int);
}

proof fn lemma_chain_constant<E, F: Fn(E, E) -> E>(
    f: F,
    g: spec_fn(E, E) -> E,
    init: E,
    n: nat,
    c: E,
    acc: Seq<E>,
    i: int,
)
    requires
        computes(f, g),
        fold_chain(f, Seq::new(n, |k: int| c), acc),
        acc[0] == init,
        0 <= i <= n,
    ensures
        acc[i] == repeat_fold(g, init, i as nat, c),
    decreases i,
{
    if i > 0 {
        let k = i - 1;
        lemma_chain_constant(f, g, init, n, c, acc, k);
        assert(call_ensures(f, (acc[k], Seq::new(n, |k: int| c)[k]), acc[k + 1]));
    }
}

/// The stages of summing back a broadcast gradient: after `i` folds, each
/// element is the nested fold, over the lengths folded so far, of the
/// gradient element that the remaining view places there.
proof fn lemma_sum_back_chain<E, F: Fn(E, E) -> E>(
    add: F,
    g: spec_fn(E, E) -> E,
    zero: E,
    s: Seq<usize>,
    v0: Seq<usize>,
    order: Seq<usize>,
    keep: bool,
    gd: Seq<E>,
    sh: Seq<Seq<usize>>,
    da: Seq<Seq<E>>,
    i: int,
)
    requires
        computes(add, g),
        reduce_chain(add, zero, order, keep, sh, da),
        sh[0] == s,
        da[0].len() == shape_size(s),
        forall|q: int| 0 <= q < shape_size(s) ==> #[trigger] da[0][q] == gd[bcast_src(v0, s, q)],
        v0.len() == s.len(),
        forall|p: int|
            0 <= p < s.len() ==> #[trigger] v0[p] == (if has_axis(order, p) {
                1usize
            } else {
                s[p]
            }),
        forall|x: int, y: int| 0 <= x < y < order.len() ==> order[x] > order[y],
        all_below(order, s.len()),
        0 <= i <= order.len(),
    ensures
        sh[i] == reduced_shape(s, order.take(i), keep),
        reduced_shape(v0, order.take(i), keep).len() == sh[i].len(),
        forall|p: int|
            0 <= p < sh[i].len() ==> #[trigger] reduced_shape(v0, order.take(i), keep)[p] == (if has_axis(
                order.subrange(i, order.len() as int),
                p,
            ) {
                1usize
            } else {
                sh[i][p]
            }),
        forall|l: int| i <= l < order.len() ==> #[trigger] order[l] < sh[i].len() && sh[i][order[l] as int] == s[order[l] as int],
        da[i].len() == shape_size(sh[i]),
        forall|q: int|
            0 <= q < da[i].len() ==> #[trigger] da[i][q] == nested_fold(
                g,
                zero,
                crate::ops::axis_lengths(s, order).take(i),
                gd[bcast_src(reduced_shape(v0, order.take(i), keep), sh[i], q)],
            ),
    decreases i,
{
    let lens = crate::ops::axis_lengths(s, order);
    let m = order.len() as int;
    if i == 0 {
        assert(order.take(0) =~= Seq::<usize>::empty());
        assert(lens.take(0) =~= Seq::<usize>::empty());
        assert(order.subrange(0, m) =~= order);
    } else {
        let k = i - 1;
        lemma_sum_back_chain(add, g, zero, s, v0, order, keep, gd, sh, da, k);
        let a = order[k] as int;
        let t = sh[k];
        let d = da[k];
        let vk = reduced_shape(v0, order.take(k), keep);
        let vi = reduced_shape(v0, order.take(i), keep);
        assert(order.take(i).drop_last() =~= order.take(k));
        assert(order.take(i).last() == order[k]);
        assert(vi == step_shape(vk, a, keep));
        assert(reduced_shape(s, order.take(i), keep) == step_shape(reduced_shape(s, order.take(k), keep), a, keep));
        assert(fold_step_rel(add, zero, sh[k], da[k], order[k] as int, keep, sh[k + 1], da[k + 1]));
        assert(a < t.len() && t[a] == s[a]);
        let rem = order.subrange(k, m);
        let rem2 = order.subrange(i, m);
        assert(rem[0] == order[k]);
        assert(has_axis(rem, a));
        assert(vk[a] == 1);
        assert forall|p: int| 0 <= p < t.len() implies #[trigger] vk[p] == t[p] || vk[p] == 1 by {
            if has_axis(rem, p) {
            } else {
            }
        }
        let l = t[a] as int;
        assert(lens.take(i).drop_last() =~= lens.take(k));
        assert(lens.take(i).last() == lens[k]);
        assert(lens[k] == s[a]);
        lemma_split_at_axis(t, a);
        assert forall|j: int| 0 <= j < da[i].len() implies #[trigger] da[i][j] == nested_fold(
            g,
            zero,
            lens.take(i),
            gd[bcast_src(vi, sh[i], j)],
        ) by {
            let c = nested_fold(g, zero, lens.take(k), gd[bcast_src(vi, sh[i], j)]);
            let inner = lane_inner(t, a) as int;
            if inner == 0 {
                assert(lane_outer(t, a) * inner == 0);
            }
            assert forall|kk: int| 0 <= kk < l implies #[trigger] lane(t, d, a, j)[kk] == c by {
                lemma_lane_index_bound(lane_outer(t, a) as int, l, inner, j, kk);
                lemma_bcast_lane(vk, t, a, keep, j, kk);
            }
            assert(lane(t, d, a, j) =~= Seq::new(l as nat, |kk: int| c));
            lemma_fold_constant(add, g, zero, l as nat, c, da[i][j]);
        }
        assert forall|p: int| 0 <= p < sh[i].len() implies #[trigger] vi[p] == (if has_axis(rem2, p) {
            1usize
        } else {
            sh[i][p]
        }) by {
            if keep {
                if p == a {
                    if has_axis(rem2, p) {
                        let x = choose|x: int| 0 <= x < rem2.len() && #[trigger] rem2[x] as int == p;
                        assert(order[i + x] < order[k]);
                    }
                } else {
                    assert(has_axis(rem2, p) == has_axis(rem, p)) by {
                        if has_axis(rem, p) {
                            let x = choose|x: int| 0 <= x < rem.len() && #[trigger] rem[x] as int == p;
                            assert(x != 0);
                            assert(rem2[x - 1] as int == p);
                        }
                        if has_axis(rem2, p) {
                            let x = choose|x: int| 0 <= x < rem2.len() && #[trigger] rem2[x] as int == p;
                            assert(rem[x + 1] as int == p);
                        }
                    }
                }
            } else {
                if p < a {
                    assert(has_axis(rem2, p) == has_axis(rem, p)) by {
                        if has_axis(rem, p) {
                            let x = choose|x: int| 0 <= x < rem.len() && #[trigger] rem[x] as int == p;
                            assert(x != 0);
                            assert(rem2[x - 1] as int == p);
                        }
                        if has_axis(rem2, p) {
                            let x = choose|x: int| 0 <= x < rem2.len() && #[trigger] rem2[x] as int == p;
                            assert(rem[x + 1] as int == p);
                        }
                    }
                } else {
                    if has_axis(rem2, p) {
                        let x = choose|x: int| 0 <= x < rem2.len() && #[trigger] rem2[x] as int == p;
                        assert(order[i + x] < order[k]);
                    }
                    if has_axis(rem, p + 1) {
                        let x = choose|x: int| 0 <= x < rem.len() && #[trigger] rem[x] as int == p + 1;
                        assert(order[k + x] <= order[k]);
                    }
                    assert(vi[p] == vk[p + 1]);
                    assert(sh[i][p] == t[p + 1]);
                }
            }
        }
        assert forall|ll: int| i <= ll < order.len() implies #[trigger] order[ll] < sh[i].len() && sh[i][order[ll] as int] == s[order[ll] as int] by {
            assert(order[ll] < order[k]);
            assert(order[ll] < t.len() && t[order[ll] as int] == s[order[ll] as int]);
        }
    }
}

/// Summing the broadcast gradient back over the reduced axes undoes the
/// broadcast up to the number of reduced elements: for distinct axes of a
/// shape `s` that is not a scalar's, the gradient `gd` of a reduction
/// broadcast into `s` by `ReduceGradCommon` (broadcast dimensions made
/// exactly when the reduction dropped its axes) and summed by `ReduceSum`
/// with the reduction's flags gives the gradient's shape, each element being
/// the gradient element added to itself once per reduced position of each
/// axis in turn (`nested_fold`: `gd[j]` times the product of the reduced
/// lengths, for the addition of numbers).
pub proof fn law_sum_back_broadcast<E, F: Fn(E, E) -> E>(
    add: F,
    g: spec_fn(E, E) -> E,
    zero: E,
    s: Seq<usize>,
    axes: Seq<i64>,
    sparse: bool,
    ax: Seq<usize>,
    keep: bool,
    gd: Seq<E>,
    r: Result<NdArray<E>, OpError>,
)
    requires
        computes(add, g),
        pos_size(s) <= isize::MAX,
        preprocessed_axes(s.len(), axes, sparse) == Some(ax),
        ax.no_duplicates(),
        all_below(ax, s.len()),
        !is_scalar_shape(s) || ax.len() == 0,
        gd.len() == shape_size(reduced_shape(s, reduction_order(ax), keep)),
        reduce_outcome(
            add,
            zero,
            s,
            grad_spec(!keep, sparse, reduced_shape(s, reduction_order(ax), keep), gd, s, axes)->Ok_0.1,
            axes,
            keep,
            sparse,
            r,
        ),
    ensures
        r is Ok,
        r->Ok_0.shape@ == reduced_shape(s, reduction_order(ax), keep),
        r->Ok_0.data@.len() == gd.len(),
        forall|j: int|
            0 <= j < gd.len() ==> #[trigger] r->Ok_0.data@[j] == nested_fold(
                g,
                zero,
                crate::ops::axis_lengths(s, reduction_order(ax)),
                gd[j],
            ),
{
    let n = s.len();
    let order = reduction_order(ax);
    let gs = reduced_shape(s, order, keep);
    let ones = ones_at(s, ax);
    law_reduced_shape(s, ax);
    lemma_grad_view(s, axes, sparse, ax, keep);
    let bd = grad_spec(!keep, sparse, gs, gd, s, axes)->Ok_0.1;
    assert(bd.len() == shape_size(s));
    assert forall|q: int| 0 <= q < shape_size(s) implies #[trigger] bd[q] == gd[bcast_src(ones, s, q)] by {
        if gs == s {
            lemma_bcast_self(s, q);
        }
    }
    let a = sorted_axes(ax);
    let m = a.len();
    lemma_sorted_distinct(ax, n);
    lemma_reverse_has_axis(a);
    let lens = crate::ops::axis_lengths(s, order);
    if ax.len() == 0 {
        assert(order.len() == 0);
        assert(order =~= Seq::<usize>::empty());
        assert(gs == s);
        let y = r->Ok_0;
        assert forall|j: int| 0 <= j < gd.len() implies #[trigger] y.data@[j] == nested_fold(
            g,
            zero,
            lens,
            gd[j],
        ) by {
            assert(lens.len() == 0);
            lemma_bcast_self(s, j);
        }
    } else {
        assert(forall|x: int, y: int| 0 <= x < y < order.len() ==> order[x] > order[y]) by {
            assert forall|x: int, y: int| 0 <= x < y < order.len() implies order[x] > order[y] by {
                assert(order[x] == a[m - 1 - x]);
                assert(order[y] == a[m - 1 - y]);
            }
        }
        assert(all_below(order, n)) by {
            assert forall|i: int| 0 <= i < order.len() implies #[trigger] order[i] < n by {
                assert(order[i] == a[m - 1 - i]);
            }
        }
        assert forall|p: int| 0 <= p < s.len() implies #[trigger] ones[p] == (if has_axis(order, p) {
            1usize
        } else {
            s[p]
        }) by {}
        let y = r->Ok_0;
        let (sh, da) = choose|shapes: Seq<Seq<usize>>, datas: Seq<Seq<E>>|
            #[trigger] reduce_chain(add, zero, order, keep, shapes, datas) && shapes[0] == s && datas[0]
                == bd && shapes[order.len() as int] == y.shape@ && datas[order.len() as int] == y.data@;
        let mo = order.len() as int;
        lemma_sum_back_chain(add, g, zero, s, ones, order, keep, gd, sh, da, mo);
        assert(order.take(mo) =~= order);
        assert(lens.take(mo) =~= lens);
        let vm = reduced_shape(ones, order, keep);
        assert(order.subrange(mo, mo) =~= Seq::<usize>::empty());
        assert forall|p: int| 0 <= p < sh[mo].len() implies vm[p] == sh[mo][p] by {
            assert(vm[p] == (if has_axis(order.subrange(mo, mo), p) {
                1usize
            } else {
                sh[mo][p]
            }));
        }
        assert(vm =~= sh[mo]);
        assert forall|j: int| 0 <= j < gd.len() implies #[trigger] y.data@[j] == nested_fold(
            g,
            zero,
            lens,
            gd[j],
        ) by {
            lemma_bcast_self(sh[mo], j);
        }
    }
}

} // verus!
