//! Shapes of row-major n-dimensional arrays: sizes, and the arithmetic that
//! relates the flat index of an element to its position along an axis.

use vstd::prelude::*;

verus! {

/// Number of elements of an array of shape `s`: the product of its dimensions.
pub open spec fn shape_size(s: Seq<usize>) -> nat
    decreases s.len(),
{
    if s.len() == 0 {
        1
    } else {
        shape_size(s.drop_last()) * (s.last() as nat)
    }
}

/// Product of the non-zero dimensions of `s` (a zero dimension counts as one).
pub open spec fn pos_size(s: Seq<usize>) -> nat
    decreases s.len(),
{
    if s.len() == 0 {
        1
    } else {
        pos_size(s.drop_last()) * (if s.last() == 0 { 1nat } else { s.last() as nat })
    }
}

/// The size of a concatenation is the product of the sizes.
pub proof fn lemma_size_concat(a: Seq<usize>, b: Seq<usize>)
    ensures
        shape_size(a + b) == shape_size(a) * shape_size(b),
        pos_size(a + b) == pos_size(a) * pos_size(b),
    decreases b.len(),
{
    if b.len() == 0 {
        assert(a + b =~= a);
        assert(shape_size(b) == 1);
        assert(pos_size(b) == 1);
    } else {
        assert((a + b).drop_last() =~= a + b.drop_last());
        assert((a + b).last() == b.last());
        lemma_size_concat(a, b.drop_last());
        let l = b.last() as nat;
        let p: nat = if b.last() == 0 { 1nat } else { l };
        assert(shape_size(a + b) == shape_size(a + b.drop_last()) * l);
        assert(pos_size(a + b) == pos_size(a + b.drop_last()) * p);
        assert(shape_size(b) == shape_size(b.drop_last()) * l);
        assert(pos_size(b) == pos_size(b.drop_last()) * p);
        assert(shape_size(a) * shape_size(b.drop_last()) * l == shape_size(a) * (shape_size(
            b.drop_last(),
        ) * l)) by (nonlinear_arith);
        assert(pos_size(a) * pos_size(b.drop_last()) * p == pos_size(a) * (pos_size(b.drop_last())
            * p)) by (nonlinear_arith);
    }
}

/// Sizes are bounded by the product of the non-zero dimensions, which is positive.
pub proof fn lemma_size_le_pos(s: Seq<usize>)
    ensures
        shape_size(s) <= pos_size(s),
        pos_size(s) >= 1,
    decreases s.len(),
{
    if s.len() > 0 {
        lemma_size_le_pos(s.drop_last());
        let a = shape_size(s.drop_last());
        let b = pos_size(s.drop_last());
        let l = s.last() as nat;
        if l == 0 {
            assert(a * l == 0) by (nonlinear_arith)
                requires
                    l == 0,
            ;
        } else {
            assert(a * l <= b * l) by (nonlinear_arith)
                requires
                    a <= b,
            ;
            assert(b * l >= 1) by (nonlinear_arith)
                requires
                    b >= 1,
                    l >= 1,
            ;
        }
    }
}

/// The non-zero product of a contiguous part of a shape is bounded by that of the whole.
pub proof fn lemma_pos_size_subrange(s: Seq<usize>, lo: int, hi: int)
    requires
        0 <= lo <= hi <= s.len(),
    ensures
        pos_size(s.subrange(lo, hi)) <= pos_size(s),
        shape_size(s.subrange(lo, hi)) <= pos_size(s),
{
    let a = s.subrange(0, lo);
    let b = s.subrange(lo, hi);
    let c = s.subrange(hi, s.len() as int);
    assert(s =~= a + b + c);
    lemma_size_concat(a, b);
    lemma_size_concat(a + b, c);
    lemma_size_le_pos(a);
    lemma_size_le_pos(b);
    lemma_size_le_pos(c);
    let pa = pos_size(a);
    let pb = pos_size(b);
    let pc = pos_size(c);
    assert(pb <= pa * pb * pc) by (nonlinear_arith)
        requires
            pa >= 1,
            pc >= 1,
    ;
}

/// The shape of a scalar: no dimension, or a single dimension of length zero.
pub open spec fn is_scalar_shape(s: Seq<usize>) -> bool {
    s.len() == 0 || (s.len() == 1 && s[0] == 0)
}

/// Whether `s` is the shape of a scalar.
pub fn is_scalar_shape_of(s: &Vec<usize>) -> (r: bool)
    ensures
        r == is_scalar_shape(s@),
{
    s.len() == 0 || (s.len() == 1 && s[0] == 0)
}

/// Product of the dimensions `s[lo..hi]`.
pub fn dims_product(s: &Vec<usize>, lo: usize, hi: usize) -> (r: usize)
    requires
        lo <= hi <= s.len(),
        pos_size(s@) <= usize::MAX,
    ensures
        r == shape_size(s@.subrange(lo as int, hi as int)),
{
    let mut acc: usize = 1;
    let mut i: usize = lo;
    assert(s@.subrange(lo as int, lo as int) =~= Seq::<usize>::empty());
    while i < hi
        invariant
            lo <= i <= hi <= s.len(),
            pos_size(s@) <= usize::MAX,
            acc == shape_size(s@.subrange(lo as int, i as int)),
        decreases hi - i,
    {
        proof {
            assert(s@.subrange(lo as int, i + 1).drop_last() =~= s@.subrange(lo as int, i as int));
            lemma_pos_size_subrange(s@, lo as int, i + 1);
        }
        acc = acc * s[i];
        i = i + 1;
    }
    acc
}

/// Whether two shapes are equal.
pub fn same_shape(a: &Vec<usize>, b: &Vec<usize>) -> (r: bool)
    ensures
        r == (a@ == b@),
{
    if a.len() != b.len() {
        return false;
    }
    let mut i: usize = 0;
    while i < a.len()
        invariant
            a.len() == b.len(),
            i <= a.len(),
            forall|k: int| 0 <= k < i ==> a@[k] == b@[k],
        decreases a.len() - i,
    {
        if a[i] != b[i] {
            return false;
        }
        i = i + 1;
    }
    assert(a@ =~= b@);
    true
}

/// Inserting a dimension of length one changes neither size.
pub proof fn lemma_insert_one_size(s: Seq<usize>, a: int)
    requires
        0 <= a <= s.len(),
    ensures
        shape_size(s.insert(a, 1)) == shape_size(s),
        pos_size(s.insert(a, 1)) == pos_size(s),
{
    let l = s.subrange(0, a);
    let r = s.subrange(a, s.len() as int);
    let one = seq![1usize];
    assert(s =~= l + r);
    assert(s.insert(a, 1) =~= l + one + r);
    assert(one.drop_last() =~= Seq::<usize>::empty());
    assert(shape_size(one.drop_last()) == 1);
    assert(pos_size(one.drop_last()) == 1);
    assert(shape_size(one) == 1);
    assert(pos_size(one) == 1);
    lemma_size_concat(l, one);
    lemma_size_concat(l + one, r);
    lemma_size_concat(l, r);
    assert(shape_size(l) * 1 == shape_size(l));
    assert(pos_size(l) * 1 == pos_size(l));
}

/// A copy of `v`.
pub fn copy_vec<T: Copy>(v: &Vec<T>) -> (r: Vec<T>)
    ensures
        r@ == v@,
{
    let mut out: Vec<T> = Vec::new();
    let mut i: usize = 0;
    while i < v.len()
        invariant
            i <= v.len(),
            out@ == v@.take(i as int),
        decreases v.len() - i,
    {
        out.push(v[i]);
        i = i + 1;
        assert(out@ =~= v@.take(i as int));
    }
    assert(v@.take(v.len() as int) =~= v@);
    out
}

} // verus!
