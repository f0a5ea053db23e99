//! Folding an array along its axes: the computation that every reduction
//! shares.  The combining function is any function of two elements; the
//! contracts relate each result to the calls of it that produced it.

use vstd::prelude::*;
use crate::array::{wf_shape, NdArray};
use crate::axes::{reduction_order, sort_axes};
use crate::shape::{
    copy_vec, dims_product, is_scalar_shape, is_scalar_shape_of, lemma_pos_size_subrange,
    lemma_size_concat, lemma_size_le_pos, pos_size, shape_size,
};

verus! {

/// `acc` lists the partial results of folding `items` by `f`: `acc[0]` is
/// the initial value and each `acc[i + 1]` is a result of `f(acc[i], items[i])`.
pub open spec fn fold_chain<E, F: Fn(E, E) -> E>(f: F, items: Seq<E>, acc: Seq<E>) -> bool {
    &&& acc.len() == items.len() + 1
    &&& forall|i: int| 0 <= i < items.len() ==> call_ensures(f, (acc[i], items[i]), #[trigger] acc[i + 1])
}

/// `r` is a left fold of `items` by `f` from `init`: a result of
/// `f(.. f(f(init, items[0]), items[1]) .., items[n - 1])`.
pub open spec fn fold_rel<E, F: Fn(E, E) -> E>(f: F, init: E, items: Seq<E>, r: E) -> bool {
    exists|acc: Seq<E>|
        #[trigger] fold_chain(f, items, acc) && acc[0] == init && acc[items.len() as int] == r
}

/// Number of elements between two neighbours along axis `axis` of shape `s`.
pub open spec fn lane_inner(s: Seq<usize>, axis: int) -> nat {
    shape_size(s.subrange(axis + 1, s.len() as int))
}

/// Number of lanes of shape `s` before axis `axis`.
pub open spec fn lane_outer(s: Seq<usize>, axis: int) -> nat {
    shape_size(s.subrange(0, axis))
}

/// Flat index of the `k`-th element of lane `j` along axis `axis` of shape
/// `s`; lane `j` is the one at flat position `j` of the shape without `axis`.
pub open spec fn lane_index(s: Seq<usize>, axis: int, j: int, k: int) -> int {
    let inner = lane_inner(s, axis) as int;
    let len = s[axis] as int;
    (j / inner) * (len * inner) + k * inner + j % inner
}

/// The elements of lane `j` along axis `axis`, in increasing position.
pub open spec fn lane<E>(s: Seq<usize>, d: Seq<E>, axis: int, j: int) -> Seq<E> {
    Seq::new(s[axis] as nat, |k: int| d[lane_index(s, axis, j, k)])
}

/// Shape after folding axis `axis`: the axis is dropped, or kept with length one.
pub open spec fn step_shape(s: Seq<usize>, axis: int, keep: bool) -> Seq<usize> {
    if keep {
        s.update(axis, 1)
    } else {
        s.remove(axis)
    }
}

/// `(t, r)` is `(s, d)` folded along `axis`: each element of `r` folds the
/// lane at its position.
pub open spec fn fold_step_rel<E, F: Fn(E, E) -> E>(
    f: F,
    init: E,
    s: Seq<usize>,
    d: Seq<E>,
    axis: int,
    keep: bool,
    t: Seq<usize>,
    r: Seq<E>,
) -> bool {
    &&& t == step_shape(s, axis, keep)
    &&& r.len() == shape_size(t)
    &&& forall|j: int| 0 <= j < r.len() ==> fold_rel(f, init, lane(s, d, axis, j), #[trigger] r[j])
}

/// Shape after folding the axes of `order`, one after the other.
pub open spec fn reduced_shape(s: Seq<usize>, order: Seq<usize>, keep: bool) -> Seq<usize>
    decreases order.len(),
{
    if order.len() == 0 {
        s
    } else {
        step_shape(reduced_shape(s, order.drop_last(), keep), order.last() as int, keep)
    }
}

/// `shapes` and `datas` list the arrays met while folding the axes of
/// `order` one after the other: each follows from the one before by a fold.
pub open spec fn reduce_chain<E, F: Fn(E, E) -> E>(
    f: F,
    init: E,
    order: Seq<usize>,
    keep: bool,
    shapes: Seq<Seq<usize>>,
    datas: Seq<Seq<E>>,
) -> bool {
    &&& shapes.len() == order.len() + 1
    &&& datas.len() == order.len() + 1
    &&& forall|i: int|
        0 <= i < order.len() ==> #[trigger] fold_step_rel(
            f,
            init,
            shapes[i],
            datas[i],
            order[i] as int,
            keep,
            shapes[i + 1],
            datas[i + 1],
        )
}

/// `(t, r)` is `(s, d)` folded along the axes of `order`, one after the other.
pub open spec fn reduce_rel<E, F: Fn(E, E) -> E>(
    f: F,
    init: E,
    s: Seq<usize>,
    d: Seq<E>,
    order: Seq<usize>,
    keep: bool,
    t: Seq<usize>,
    r: Seq<E>,
) -> bool {
    exists|shapes: Seq<Seq<usize>>, datas: Seq<Seq<E>>|
        #[trigger] reduce_chain(f, init, order, keep, shapes, datas) && shapes[0] == s && datas[0]
            == d && shapes[order.len() as int] == t && datas[order.len() as int] == r
}

/// Each axis of `order` is an axis of the array it is folded out of: the
/// array keeps `ndim` axes when `keep`, and loses one per fold otherwise.
pub open spec fn axes_fit(ndim: nat, order: Seq<usize>, keep: bool) -> bool {
    forall|i: int|
        0 <= i < order.len() ==> #[trigger] order[i] < (if keep {
            ndim as int
        } else {
            ndim - i
        })
}

/// The shape splits at an axis into the part before it, the axis and the part after it.
pub proof fn lemma_split_at_axis(s: Seq<usize>, axis: int)
    requires
        0 <= axis < s.len(),
    ensures
        shape_size(s) == lane_outer(s, axis) * (s[axis] * lane_inner(s, axis)),
        shape_size(s.remove(axis)) == lane_outer(s, axis) * lane_inner(s, axis),
        shape_size(s.update(axis, 1)) == lane_outer(s, axis) * lane_inner(s, axis),
        pos_size(s.remove(axis)) <= pos_size(s),
        pos_size(s.update(axis, 1)) == pos_size(s.remove(axis)),
        s[axis] * lane_inner(s, axis) <= pos_size(s),
{
    let a = s.subrange(0, axis);
    let m = s.subrange(axis, axis + 1);
    let c = s.subrange(axis + 1, s.len() as int);
    let m1 = seq![1usize];
    assert(s =~= a + m + c);
    assert(s.remove(axis) =~= a + c);
    assert(s.update(axis, 1) =~= a + m1 + c);
    assert(s.subrange(axis, s.len() as int) =~= m + c);
    lemma_size_concat(a, m);
    lemma_size_concat(a + m, c);
    lemma_size_concat(a, m1);
    lemma_size_concat(a + m1, c);
    lemma_size_concat(a, c);
    lemma_size_concat(m, c);
    assert(m.drop_last() =~= Seq::<usize>::empty());
    assert(m1.drop_last() =~= Seq::<usize>::empty());
    assert(shape_size(m.drop_last()) == 1);
    assert(shape_size(m1.drop_last()) == 1);
    assert(pos_size(m1.drop_last()) == 1);
    assert(m.len() == 1 && m.last() == s[axis]);
    assert(shape_size(m) == shape_size(m.drop_last()) * (m.last() as nat));
    assert(shape_size(m) == s[axis] as nat) by (nonlinear_arith)
        requires
            shape_size(m) == shape_size(m.drop_last()) * (m.last() as nat),
            shape_size(m.drop_last()) == 1,
            m.last() == s[axis],
    ;
    assert(shape_size(m1) == 1);
    assert(pos_size(m1) == 1);
    lemma_size_le_pos(a);
    lemma_size_le_pos(m);
    lemma_size_le_pos(c);
    lemma_pos_size_subrange(s, axis, s.len() as int);
    let pa = pos_size(a);
    let pm = pos_size(m);
    let pc = pos_size(c);
    let sa = shape_size(a);
    let sm = shape_size(m);
    let sc = shape_size(c);
    assert(pa * pc <= pa * pm * pc) by (nonlinear_arith)
        requires
            pm >= 1,
            pa >= 1,
            pc >= 1,
    ;
    assert(sa * sm * sc == sa * (sm * sc)) by (nonlinear_arith);
    assert(sa * 1 * sc == sa * sc) by (nonlinear_arith);
    assert(pa * 1 * pc == pa * pc) by (nonlinear_arith);
}

/// A lane index of a valid lane and position lies within the array.
pub proof fn lemma_lane_index_bound(o: int, l: int, i: int, j: int, k: int)
    requires
        o >= 0,
        i > 0,
        0 <= j < o * i,
        0 <= k < l,
    ensures
        0 <= (j / i) * (l * i) + j % i,
        (j / i) * (l * i) + j % i <= (j / i) * (l * i) + k * i + j % i,
        (j / i) * (l * i) + k * i + j % i < o * (l * i),
        0 <= k * i,
{
    let q = j / i;
    let rm = j % i;
    vstd::arithmetic::div_mod::lemma_fundamental_div_mod(j, i);
    vstd::arithmetic::div_mod::lemma_mod_bound(j, i);
    vstd::arithmetic::div_mod::lemma_div_pos_is_pos(j, i);
    assert(q < o) by (nonlinear_arith)
        requires
            j == i * q + rm,
            0 <= rm,
            j < o * i,
            i > 0,
    ;
    assert(q * (l * i) + k * i + rm < o * (l * i)) by (nonlinear_arith)
        requires
            0 <= q < o,
            0 <= k < l,
            0 <= rm < i,
    ;
    assert(0 <= q * (l * i)) by (nonlinear_arith)
        requires
            0 <= q,
            0 <= l,
            0 < i,
    ;
    assert(0 <= k * i) by (nonlinear_arith)
        requires
            0 <= k,
            0 < i,
    ;
}

/// The start of a lane lies within the array, or before its end by less
/// than the distance between neighbours.
pub proof fn lemma_lane_base_bound(o: int, l: int, i: int, j: int)
    requires
        o >= 0,
        l >= 0,
        i > 0,
        0 <= j < o * i,
    ensures
        0 <= (j / i) * (l * i) <= o * (l * i),
        0 <= j % i < i,
{
    let q = j / i;
    let rm = j % i;
    vstd::arithmetic::div_mod::lemma_fundamental_div_mod(j, i);
    vstd::arithmetic::div_mod::lemma_mod_bound(j, i);
    vstd::arithmetic::div_mod::lemma_div_pos_is_pos(j, i);
    assert(q < o) by (nonlinear_arith)
        requires
            j == i * q + rm,
            0 <= rm,
            j < o * i,
            i > 0,
    ;
    assert(0 <= q * (l * i) <= o * (l * i)) by (nonlinear_arith)
        requires
            0 <= q < o,
            0 <= l,
            0 < i,
    ;
}

/// Folds the array `(shape, data)` along `axis` with `f` from `init`: each
/// element of the result is the fold of the lane at its position, in
/// increasing position along the axis.
pub fn fold_axis<E: Copy, F: Fn(E, E) -> E>(
    shape: &Vec<usize>,
    data: &Vec<E>,
    axis: usize,
    init: E,
    f: &F,
) -> (r: Vec<E>)
    requires
        wf_shape(shape@, data@.len()),
        axis < shape@.len(),
        forall|a: E, b: E| f.requires((a, b)),
    ensures
        r@.len() == shape_size(shape@.remove(axis as int)),
        forall|j: int|
            0 <= j < r@.len() ==> fold_rel(*f, init, lane(shape@, data@, axis as int, j), #[trigger] r@[j]),
{
    proof {
        lemma_split_at_axis(shape@, axis as int);
        lemma_size_le_pos(shape@.remove(axis as int));
        lemma_pos_size_subrange(shape@, 0, axis as int);
        lemma_pos_size_subrange(shape@, axis + 1, shape@.len() as int);
        lemma_size_le_pos(shape@);
    }
    let ndim = shape.len();
    let outer = dims_product(shape, 0, axis);
    let len = shape[axis];
    let inner = dims_product(shape, axis + 1, ndim);
    let n = outer * inner;
    let step = len * inner;
    let ghost s = shape@;
    let mut out: Vec<E> = Vec::new();
    let mut j: usize = 0;
    while j < n
        invariant
            s == shape@,
            wf_shape(s, data@.len()),
            axis < s.len(),
            forall|a: E, b: E| f.requires((a, b)),
            outer == lane_outer(s, axis as int),
            inner == lane_inner(s, axis as int),
            len == s[axis as int],
            step == len * inner,
            n == outer * inner,
            shape_size(s) == outer * (len * inner),
            shape_size(s) <= isize::MAX,
            inner <= isize::MAX,
            j <= n,
            out@.len() == j,
            forall|jj: int|
                0 <= jj < j ==> fold_rel(*f, init, lane(s, data@, axis as int, jj), #[trigger] out@[jj]),
        decreases n - j,
    {
        proof {
            if inner == 0 {
                assert(outer * inner == 0);
            }
            lemma_lane_base_bound(outer as int, len as int, inner as int, j as int);
        }
        let base = (j / inner) * step + j % inner;
        let ghost ln = lane(s, data@, axis as int, j as int);
        let mut acc = init;
        let mut k: usize = 0;
        let ghost mut chain: Seq<E> = seq![init];
        while k < len
            invariant
                s == shape@,
                wf_shape(s, data@.len()),
                axis < s.len(),
                forall|a: E, b: E| f.requires((a, b)),
                inner == lane_inner(s, axis as int),
                len == s[axis as int],
                step == len * inner,
                n == outer * inner,
                shape_size(s) == outer * (len * inner),
                shape_size(s) <= isize::MAX,
                inner <= isize::MAX,
                j < n,
                inner > 0,
                base == (j / inner) * step + j % inner,
                ln == lane(s, data@, axis as int, j as int),
                k <= len,
                ln.len() == len,
                chain.len() == k + 1,
                chain[0] == init,
                chain[k as int] == acc,
                forall|i: int| 0 <= i < k ==> call_ensures(*f, (chain[i], ln[i]), #[trigger] chain[i + 1]),
            decreases len - k,
        {
            proof {
                lemma_lane_index_bound(outer as int, len as int, inner as int, j as int, k as int);
            }
            let idx = base + k * inner;
            assert(idx == lane_index(s, axis as int, j as int, k as int));
            let v = data[idx];
            let ghost prev = acc;
            acc = f(acc, v);
            proof {
                assert(ln[k as int] == v);
                chain = chain.push(acc);
                assert(call_ensures(*f, (chain[k as int], ln[k as int]), chain[k + 1]));
            }
            k = k + 1;
        }
        assert(fold_chain(*f, ln, chain));
        out.push(acc);
        j = j + 1;
    }
    out
}

/// Marks of the positions reported by the arg-max: position `k` is marked
/// when its element equals the maximum (`eqs[k]`) and position `k - 1` is
/// not marked.
pub open spec fn argmax_mask(eqs: Seq<bool>) -> Seq<bool>
    decreases eqs.len(),
{
    if eqs.len() == 0 {
        Seq::empty()
    } else {
        let m = argmax_mask(eqs.drop_last());
        m.push(eqs.last() && !(m.len() > 0 && m.last()))
    }
}

/// Sum of the marked positions.
pub open spec fn marked_index_sum(mask: Seq<bool>) -> nat
    decreases mask.len(),
{
    if mask.len() == 0 {
        0
    } else {
        marked_index_sum(mask.drop_last()) + (if mask.last() {
            (mask.len() - 1) as nat
        } else {
            0
        })
    }
}

pub proof fn lemma_argmax_mask_len(eqs: Seq<bool>)
    ensures
        argmax_mask(eqs).len() == eqs.len(),
    decreases eqs.len(),
{
    if eqs.len() > 0 {
        lemma_argmax_mask_len(eqs.drop_last());
    }
}

/// `eqs[i]` is a result of comparing `items[i]` with `m` by `eq`.
pub open spec fn eq_chain<E, G: Fn(E, E) -> bool>(eq: G, items: Seq<E>, m: E, eqs: Seq<bool>) -> bool {
    &&& eqs.len() == items.len()
    &&& forall|i: int| 0 <= i < items.len() ==> call_ensures(eq, (items[i], m), #[trigger] eqs[i])
}

/// `r` is the arg-max of the lane `items`: the maximum `m` is a fold of
/// `max` from `min_value`, each element is compared with `m` by `eq`, and
/// `r` is the sum of the positions marked by `argmax_mask`.
pub open spec fn argmax_lane_rel<E, F: Fn(E, E) -> E, G: Fn(E, E) -> bool>(
    max: F,
    min_value: E,
    eq: G,
    items: Seq<E>,
    r: u128,
) -> bool {
    exists|m: E, eqs: Seq<bool>|
        #![trigger fold_rel(max, min_value, items, m), eq_chain(eq, items, m, eqs)]
        fold_rel(max, min_value, items, m) && eq_chain(eq, items, m, eqs) && r == marked_index_sum(
            argmax_mask(eqs),
        )
}

/// The arg-max of each lane of `(shape, data)` along `axis`.
pub fn argmax_axis<E: Copy, F: Fn(E, E) -> E, G: Fn(E, E) -> bool>(
    shape: &Vec<usize>,
    data: &Vec<E>,
    axis: usize,
    min_value: E,
    max: &F,
    eq: &G,
) -> (r: Vec<u128>)
    requires
        wf_shape(shape@, data@.len()),
        axis < shape@.len(),
        forall|a: E, b: E| max.requires((a, b)),
        forall|a: E, b: E| eq.requires((a, b)),
    ensures
        r@.len() == shape_size(shape@.remove(axis as int)),
        forall|j: int|
            0 <= j < r@.len() ==> argmax_lane_rel(
                *max,
                min_value,
                *eq,
                lane(shape@, data@, axis as int, j),
                #[trigger] r@[j],
            ),
{
    let maxed = fold_axis(shape, data, axis, min_value, max);
    proof {
        lemma_split_at_axis(shape@, axis as int);
        lemma_size_le_pos(shape@.remove(axis as int));
        lemma_pos_size_subrange(shape@, 0, axis as int);
        lemma_pos_size_subrange(shape@, axis + 1, shape@.len() as int);
        lemma_size_le_pos(shape@);
    }
    let ndim = shape.len();
    let outer = dims_product(shape, 0, axis);
    let len = shape[axis];
    let inner = dims_product(shape, axis + 1, ndim);
    let n = outer * inner;
    let step = len * inner;
    let ghost s = shape@;
    let mut out: Vec<u128> = Vec::new();
    let mut j: usize = 0;
    while j < n
        invariant
            s == shape@,
            wf_shape(s, data@.len()),
            axis < s.len(),
            forall|a: E, b: E| eq.requires((a, b)),
            outer == lane_outer(s, axis as int),
            inner == lane_inner(s, axis as int),
            len == s[axis as int],
            step == len * inner,
            n == outer * inner,
            maxed@.len() == n,
            forall|jj: int|
                0 <= jj < n ==> fold_rel(*max, min_value, lane(s, data@, axis as int, jj), #[trigger] maxed@[jj]),
            shape_size(s) == outer * (len * inner),
            shape_size(s) <= isize::MAX,
            inner <= isize::MAX,
            j <= n,
            out@.len() == j,
            forall|jj: int|
                0 <= jj < j ==> argmax_lane_rel(*max, min_value, *eq, lane(s, data@, axis as int, jj), #[trigger] out@[jj]),
        decreases n - j,
    {
        proof {
            if inner == 0 {
                assert(outer * inner == 0);
            }
            lemma_lane_base_bound(outer as int, len as int, inner as int, j as int);
        }
        let base = (j / inner) * step + j % inner;
        let ghost ln = lane(s, data@, axis as int, j as int);
        let m = maxed[j];
        let mut prev = false;
        let mut total: u128 = 0;
        let ghost mut eqs: Seq<bool> = Seq::empty();
        let mut k: usize = 0;
        while k < len
            invariant
                s == shape@,
                wf_shape(s, data@.len()),
                axis < s.len(),
                forall|a: E, b: E| eq.requires((a, b)),
                inner == lane_inner(s, axis as int),
                len == s[axis as int],
                step == len * inner,
                n == outer * inner,
                shape_size(s) == outer * (len * inner),
                shape_size(s) <= isize::MAX,
                inner <= isize::MAX,
                j < n,
                inner > 0,
                base == (j / inner) * step + j % inner,
                ln == lane(s, data@, axis as int, j as int),
                k <= len,
                eqs.len() == k,
                forall|i: int| 0 <= i < k ==> call_ensures(*eq, (ln[i], m), #[trigger] eqs[i]),
                argmax_mask(eqs).len() == k,
                prev == (k > 0 && argmax_mask(eqs).last()),
                total == marked_index_sum(argmax_mask(eqs)),
                total <= k * k,
            decreases len - k,
        {
            proof {
                lemma_lane_index_bound(outer as int, len as int, inner as int, j as int, k as int);
            }
            let idx = base + k * inner;
            assert(idx == lane_index(s, axis as int, j as int, k as int));
            let e = eq(data[idx], m);
            let mark = e && !prev;
            proof {
                let ne = eqs.push(e);
                assert(ne.drop_last() =~= eqs);
                lemma_argmax_mask_len(ne);
                assert(argmax_mask(ne) == argmax_mask(eqs).push(mark));
                assert(argmax_mask(ne).drop_last() =~= argmax_mask(eqs));
                assert(total + k < (k + 1) * (k + 1)) by (nonlinear_arith)
                    requires
                        total <= k * k,
                ;
                assert((k + 1) * (k + 1) <= 0x1_0000_0000_0000_0000 * 0x1_0000_0000_0000_0000)
                    by (nonlinear_arith)
                    requires
                        k < 0x1_0000_0000_0000_0000,
                ;
                assert(k * k <= (k + 1) * (k + 1)) by (nonlinear_arith);
                eqs = ne;
            }
            if mark {
                total = total + k as u128;
            }
            prev = mark;
            k = k + 1;
        }
        assert(eq_chain(*eq, ln, m, eqs));
        out.push(total);
        j = j + 1;
    }
    out
}

/// Reduces `x` along `axes` with `f` from `init`.  A scalar, or an empty
/// list of axes, is returned unchanged.  Otherwise the axes are folded from
/// the last to the first (`reduction_order`), each folded axis being
/// dropped, or kept with length one when `keep_dims`.
pub fn reduce_axes<E: Copy, F: Fn(E, E) -> E>(
    x: &NdArray<E>,
    axes: Vec<usize>,
    keep_dims: bool,
    init: E,
    f: &F,
) -> (y: NdArray<E>)
    requires
        x.wf(),
        forall|a: E, b: E| f.requires((a, b)),
        is_scalar_shape(x.shape@) || axes@.len() == 0 || axes_fit(
            x.shape@.len(),
            reduction_order(axes@),
            keep_dims,
        ),
    ensures
        y.wf(),
        is_scalar_shape(x.shape@) || axes@.len() == 0 ==> y.shape@ == x.shape@ && y.data@
            == x.data@,
        !(is_scalar_shape(x.shape@) || axes@.len() == 0) ==> {
            &&& y.shape@ == reduced_shape(x.shape@, reduction_order(axes@), keep_dims)
            &&& reduce_rel(
                *f,
                init,
                x.shape@,
                x.data@,
                reduction_order(axes@),
                keep_dims,
                y.shape@,
                y.data@,
            )
        },
{
    if is_scalar_shape_of(&x.shape) || axes.len() == 0 {
        return NdArray { shape: copy_vec(&x.shape), data: copy_vec(&x.data) };
    }
    let ghost xs = x.shape@;
    let ghost xd = x.data@;
    let ghost order = reduction_order(axes@);
    let ghost ndim = x.shape@.len();
    let mut axes = axes;
    sort_axes(&mut axes);
    let n = axes.len();
    let mut cur_shape = copy_vec(&x.shape);
    let mut cur_data = copy_vec(&x.data);
    let ghost mut shapes: Seq<Seq<usize>> = seq![xs];
    let ghost mut datas: Seq<Seq<E>> = seq![xd];
    let mut i: usize = n;
    assert(order.take(0) =~= Seq::<usize>::empty());
    while i > 0
        invariant
            i <= n,
            n == axes@.len(),
            order == axes@.reverse(),
            order.len() == n,
            axes_fit(ndim, order, keep_dims),
            forall|a: E, b: E| f.requires((a, b)),
            wf_shape(cur_shape@, cur_data@.len()),
            cur_shape@.len() == (if keep_dims { ndim as int } else { ndim - (n - i) }),
            cur_shape@ == reduced_shape(xs, order.take(n - i), keep_dims),
            reduce_chain(*f, init, order.take(n - i), keep_dims, shapes, datas),
            shapes[0] == xs,
            datas[0] == xd,
            shapes[n - i] == cur_shape@,
            datas[n - i] == cur_data@,
        decreases i,
    {
        let ghost t = n - i;
        let axis = axes[i - 1];
        assert(order[t] == axis);
        assert(axis < cur_shape@.len()) by {
            assert(order[t] < (if keep_dims { ndim as int } else { ndim - t }));
        }
        let ghost old_shape = cur_shape@;
        let new_data = fold_axis(&cur_shape, &cur_data, axis, init, f);
        cur_shape.remove(axis);
        if keep_dims {
            cur_shape.insert(axis, 1);
        }
        proof {
            lemma_split_at_axis(old_shape, axis as int);
            assert(cur_shape@ =~= step_shape(old_shape, axis as int, keep_dims));
            let o1 = order.take(t + 1);
            assert(o1.drop_last() =~= order.take(t));
            assert(o1.last() == axis);
            assert(fold_step_rel(*f, init, old_shape, cur_data@, axis as int, keep_dims, cur_shape@, new_data@));
            shapes = shapes.push(cur_shape@);
            datas = datas.push(new_data@);
            assert forall|k: int| 0 <= k < o1.len() implies #[trigger] fold_step_rel(
                *f,
                init,
                shapes[k],
                datas[k],
                o1[k] as int,
                keep_dims,
                shapes[k + 1],
                datas[k + 1],
            ) by {
                if k < t {
                    assert(order.take(t)[k] == o1[k]);
                    assert(fold_step_rel(*f, init, shapes[k], datas[k], order.take(t)[k] as int, keep_dims, shapes[k + 1], datas[k + 1]));
                }
            }
        }
        cur_data = new_data;
        i = i - 1;
    }
    assert(order.take(n as int) =~= order);
    assert(reduce_chain(*f, init, order, keep_dims, shapes, datas));
    NdArray { shape: cur_shape, data: cur_data }
}

} // verus!
