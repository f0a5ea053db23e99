//! The array type of the library: a shape and its elements in row-major order.

use vstd::prelude::*;
use crate::shape::{shape_size, pos_size, lemma_size_le_pos};

verus! {

/// An n-dimensional array: `data` holds the elements in row-major order.
pub struct NdArray<E> {
    pub shape: Vec<usize>,
    pub data: Vec<E>,
}

/// An array of shape `s` with `n` elements is well formed: `n` is the product
/// of the dimensions and the product of the non-zero dimensions fits in an
/// `isize`, as for the arrays of `ndarray`.
pub open spec fn wf_shape(s: Seq<usize>, n: nat) -> bool {
    &&& n == shape_size(s)
    &&& pos_size(s) <= isize::MAX
}

impl<E> NdArray<E> {
    pub open spec fn wf(&self) -> bool {
        wf_shape(self.shape@, self.data@.len())
    }

    /// Builds an array from a shape and its elements in row-major order;
    /// `None` when the number of elements does not match the shape or the
    /// shape is too large.
    pub fn from_shape_vec(shape: Vec<usize>, data: Vec<E>) -> (r: Option<NdArray<E>>)
        ensures
            r is Some <==> wf_shape(shape@, data@.len()),
            r matches Some(a) ==> a.shape@ == shape@ && a.data@ == data@,
    {
        match checked_pos_size(&shape) {
            Some(p) => {
                if p > isize::MAX as usize {
                    return None;
                }
                proof {
                    lemma_size_le_pos(shape@);
                }
                let n = crate::shape::dims_product(&shape, 0, shape.len());
                proof {
                    assert(shape@.subrange(0, shape@.len() as int) =~= shape@);
                }
                if n != data.len() {
                    return None;
                }
                Some(NdArray { shape, data })
            },
            None => None,
        }
    }
}

/// Product of the non-zero dimensions of `s`; `None` when it exceeds `usize::MAX`.
pub fn checked_pos_size(s: &Vec<usize>) -> (r: Option<usize>)
    ensures
        r is Some <==> pos_size(s@) <= usize::MAX,
        r matches Some(p) ==> p == pos_size(s@),
{
    let mut acc: usize = 1;
    let mut i: usize = 0;
    while i < s.len()
        invariant
            i <= s.len(),
            acc == pos_size(s@.take(i as int)),
        decreases s.len() - i,
    {
        assert(s@.take(i + 1).drop_last() =~= s@.take(i as int));
        let d: usize = if s[i] == 0 { 1 } else { s[i] };
        match acc.checked_mul(d) {
            Some(m) => {
                acc = m;
            },
            None => {
                proof {
                    lemma_pos_size_prefix_mono(s@, i + 1);
                }
                return None;
            },
        }
        i = i + 1;
    }
    assert(s@.take(s.len() as int) =~= s@);
    Some(acc)
}

/// The non-zero product of a prefix is bounded by that of the whole shape.
pub proof fn lemma_pos_size_prefix_mono(s: Seq<usize>, i: int)
    requires
        0 <= i <= s.len(),
    ensures
        pos_size(s.take(i)) <= pos_size(s),
{
    assert(s.take(i) =~= s.subrange(0, i));
    crate::shape::lemma_pos_size_subrange(s, 0, i);
}

} // verus!
