//! Axis arguments of the reductions: negative axes counted from the end,
//! axes given as a mask, and the order in which axes are reduced.

use vstd::prelude::*;
use vstd::relations::{sorted_by, total_ordering};
use vstd::seq_lib::lemma_sorted_unique;

verus! {

/// The position denoted by axis value `a` in an array of `ndim` dimensions:
/// a negative value counts from the end.
pub open spec fn normalized_axis(a: int, ndim: nat) -> int {
    if a < 0 {
        ndim + a
    } else {
        a
    }
}

/// Every value of `axes` denotes a position that is a valid `usize`
/// (it is not checked against `ndim` itself).
pub open spec fn axes_normalizable(axes: Seq<i64>, ndim: nat) -> bool {
    forall|i: int|
        0 <= i < axes.len() ==> 0 <= #[trigger] normalized_axis(axes[i] as int, ndim) <= usize::MAX
}

/// The positions denoted by `axes`, in the same order.
pub open spec fn normalized_axes(axes: Seq<i64>, ndim: nat) -> Seq<usize> {
    Seq::new(axes.len(), |i: int| normalized_axis(axes[i] as int, ndim) as usize)
}

/// The indices `i` of a mask whose value is one, in increasing order.
pub open spec fn dense_of_mask(mask: Seq<i64>) -> Seq<usize>
    decreases mask.len(),
{
    if mask.len() == 0 {
        Seq::empty()
    } else if mask.last() == 1 {
        dense_of_mask(mask.drop_last()).push((mask.len() - 1) as usize)
    } else {
        dense_of_mask(mask.drop_last())
    }
}

/// The axes denoted by an axis argument: the indices of the ones of a mask
/// (`sparse`), or else the listed axis values with negative ones counted from
/// the end; `None` where a value denotes no position.
pub open spec fn preprocessed_axes(ndim: nat, axes: Seq<i64>, sparse: bool) -> Option<Seq<usize>> {
    if sparse {
        Some(dense_of_mask(axes))
    } else if axes_normalizable(axes, ndim) {
        Some(normalized_axes(axes, ndim))
    } else {
        None
    }
}

/// Position of axis value `axis` in an array of `ndim` dimensions.
pub fn normalize_negative_axis(axis: isize, ndim: usize) -> (r: usize)
    requires
        -(ndim as int) <= axis,
    ensures
        r == normalized_axis(axis as int, ndim as nat),
{
    if axis < 0 {
        (ndim as i128 + axis as i128) as usize
    } else {
        axis as usize
    }
}

/// Positions of the axis values `axes`; `None` where a value denotes no position.
pub fn normalize_negative_axes(axes: &Vec<i64>, ndim: usize) -> (r: Option<Vec<usize>>)
    ensures
        r is Some <==> axes_normalizable(axes@, ndim as nat),
        r matches Some(v) ==> v@ == normalized_axes(axes@, ndim as nat),
{
    let mut out: Vec<usize> = Vec::new();
    let mut i: usize = 0;
    while i < axes.len()
        invariant
            i <= axes.len(),
            out@.len() == i,
            forall|k: int|
                0 <= k < i ==> 0 <= #[trigger] normalized_axis(axes@[k] as int, ndim as nat)
                    <= usize::MAX,
            forall|k: int|
                0 <= k < i ==> out@[k] == normalized_axis(axes@[k] as int, ndim as nat),
        decreases axes.len() - i,
    {
        let a = axes[i];
        let v: i128 = if a < 0 {
            ndim as i128 + a as i128
        } else {
            a as i128
        };
        if v < 0 || v > usize::MAX as i128 {
            assert(!(0 <= normalized_axis(axes@[i as int] as int, ndim as nat) <= usize::MAX));
            return None;
        }
        out.push(v as usize);
        i = i + 1;
    }
    assert(out@ =~= normalized_axes(axes@, ndim as nat));
    Some(out)
}

/// Indices of the entries of `mask` that equal one, in increasing order.
pub fn sparse_to_dense(mask: &Vec<i64>) -> (r: Vec<usize>)
    ensures
        r@ == dense_of_mask(mask@),
{
    let mut out: Vec<usize> = Vec::new();
    let mut i: usize = 0;
    assert(mask@.take(0) =~= Seq::<i64>::empty());
    while i < mask.len()
        invariant
            i <= mask.len(),
            out@ == dense_of_mask(mask@.take(i as int)),
        decreases mask.len() - i,
    {
        assert(mask@.take(i + 1).drop_last() =~= mask@.take(i as int));
        if mask[i] == 1 {
            out.push(i);
        }
        i = i + 1;
    }
    assert(mask@.take(mask.len() as int) =~= mask@);
    out
}

/// The axes denoted by the axis argument of a reduction of an array of
/// `x_ndim` dimensions: a mask of the reduced axes when `sparse_axes`, and
/// otherwise a list of axis values, negative ones counted from the end.
/// `None` where an axis value denotes no position.
pub fn preprocess_axes(x_ndim: usize, axes: &Vec<i64>, sparse_axes: bool) -> (r: Option<Vec<usize>>)
    ensures
        r is Some <==> preprocessed_axes(x_ndim as nat, axes@, sparse_axes) is Some,
        r matches Some(v) ==> v@ == preprocessed_axes(x_ndim as nat, axes@, sparse_axes)->0,
{
    if sparse_axes {
        Some(sparse_to_dense(axes))
    } else {
        normalize_negative_axes(axes, x_ndim)
    }
}

/// The order `a <= b` on axes.
pub open spec fn axis_leq() -> spec_fn(usize, usize) -> bool {
    |a: usize, b: usize| a <= b
}

/// The axes in increasing order.
pub open spec fn sorted_axes(axes: Seq<usize>) -> Seq<usize> {
    axes.sort_by(axis_leq())
}

/// The order in which a reduction folds its axes: from the last to the first.
pub open spec fn reduction_order(axes: Seq<usize>) -> Seq<usize> {
    sorted_axes(axes).reverse()
}

pub proof fn lemma_axis_leq_total()
    ensures
        total_ordering(axis_leq()),
{
}

/// The sorted permutation of a sequence of axes is unique.
pub proof fn lemma_sorted_axes_unique(a: Seq<usize>, b: Seq<usize>)
    requires
        sorted_by(b, axis_leq()),
        b.to_multiset() == a.to_multiset(),
    ensures
        b == sorted_axes(a),
        sorted_axes(a).len() == a.len(),
{
    lemma_axis_leq_total();
    a.lemma_sort_by_ensures(axis_leq());
    lemma_sorted_unique(b, sorted_axes(a), axis_leq());
    b.to_multiset_ensures();
    a.to_multiset_ensures();
    sorted_axes(a).to_multiset_ensures();
}

/// Sorts a vector of axes in increasing order (`slice::sort`).
#[verifier::external_body]
fn sort_ascending(v: &mut Vec<usize>)
    ensures
        sorted_by(final(v)@, axis_leq()),
        final(v)@.to_multiset() == old(v)@.to_multiset(),
{
    v.sort();
}

/// Sorts a vector of axes in increasing order.
pub fn sort_axes(v: &mut Vec<usize>)
    ensures
        final(v)@ == sorted_axes(old(v)@),
        final(v)@.len() == old(v)@.len(),
{
    sort_ascending(v);
    proof {
        lemma_sorted_axes_unique(old(v)@, v@);
    }
}

} // verus!
