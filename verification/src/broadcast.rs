//! Broadcasting an array into a larger shape, through `ndarray`.

use vstd::prelude::*;
use crate::array::wf_shape;
use crate::shape::{pos_size, shape_size};

verus! {

/// `from` can be broadcast into `to`: aligned on their last axes, each axis
/// of `from` has the length of the matching axis of `to`, or length one.
pub open spec fn broadcastable(from: Seq<usize>, to: Seq<usize>) -> bool {
    &&& from.len() <= to.len()
    &&& forall|i: int|
        0 <= i < from.len() ==> #[trigger] from[i] == to[i + to.len() - from.len()] || from[i]
            == 1
}

/// Flat index in an array of shape `from` of the element found at flat index
/// `j` of its broadcast into shape `to`: the position along each axis of
/// length one is zero, and the other positions are those of `j`.
pub open spec fn bcast_src(from: Seq<usize>, to: Seq<usize>, j: int) -> int
    decreases from.len(),
{
    if from.len() == 0 || to.len() == 0 {
        0
    } else {
        let t = to.last() as int;
        let f = from.last() as int;
        bcast_src(from.drop_last(), to.drop_last(), j / t) * f + (if f == 1 {
            0
        } else {
            j % t
        })
    }
}

/// The elements of the array `(shape, data)` broadcast into shape `target`,
/// in row-major order (`ArrayView::from_shape`, `ArrayBase::broadcast` and
/// `iter` of `ndarray`).  `ndarray` broadcasts when the shapes are
/// broadcastable and the product of the non-zero lengths of `target` fits in
/// an `isize`, and returns `None` otherwise; each element of the broadcast
/// is the element of `data` at the matching position.
#[verifier::external_body]
pub(crate) fn nd_broadcast<E: Copy>(shape: &Vec<usize>, data: &Vec<E>, target: &Vec<usize>) -> (r: Option<Vec<E>>)
    requires
        wf_shape(shape@, data@.len()),
    ensures
        r.is_some() == (broadcastable(shape@, target@) && pos_size(target@) <= isize::MAX),
        r matches Some(v) ==> v@.len() == shape_size(target@),
        r matches Some(v) ==> forall|j: int|
            0 <= j < v@.len() ==> v@[j] == data@[bcast_src(shape@, target@, j)],
{
    let view = ndarray::ArrayView::from_shape(ndarray::IxDyn(shape.as_slice()), data.as_slice()).unwrap();
    match view.broadcast(ndarray::IxDyn(target.as_slice())) {
        Some(b) => Some(b.iter().copied().collect()),
        None => None,
    }
}

} // verus!
