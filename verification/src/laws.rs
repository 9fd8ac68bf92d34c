//! Laws of the view algebra, stated once over the layout model and proved
//! for every tensor: round trips, involutions, reinterpretation
//! equivalence, and how flipping interacts with contiguity.

use vstd::prelude::*;
use crate::arith::{lemma_prod_pos, prod};
use crate::shape::{
    flip_post, flipped_strides, has_dim, is_contig, lemma_row_major_contig, permute_post,
    row_major, view_post,
};
use crate::stride::Stride;
use crate::tensor::{lemma_row_major_logical, Tensor};

verus! {

/// Permuting by `p` and then by its inverse `q` restores every observable
/// part of the original tensor: the shared buffer, the sizes, the strides
/// and the base offset.
pub proof fn lemma_permute_round_trip<T>(
    a: Tensor<T>,
    b: Tensor<T>,
    c: Tensor<T>,
    p: Seq<usize>,
    q: Seq<usize>,
)
    requires
        a.shape.wf(),
        permute_post(a.shape, p, Ok(b.shape)),
        b.data == a.data,
        permute_post(b.shape, q, Ok(c.shape)),
        c.data == b.data,
        forall|d: int| 0 <= d < q.len() ==> p[#[trigger] q[d] as int] == d,
    ensures
        c.data == a.data,
        c.shape.sizes@ == a.shape.sizes@,
        c.shape.strides@ == a.shape.strides@,
        c.shape.offset == a.shape.offset,
{
    assert forall|d: int| 0 <= d < c.shape.sizes@.len() implies c.shape.sizes@[d]
        == a.shape.sizes@[d] && c.shape.strides@[d] == a.shape.strides@[d] by {
        assert(c.shape.sizes@[d] == b.shape.sizes@[q[d] as int]);
        assert(b.shape.sizes@[q[d] as int] == a.shape.sizes@[p[q[d] as int] as int]);
        assert(c.shape.strides@[d] == b.shape.strides@[q[d] as int]);
        assert(b.shape.strides@[q[d] as int] == a.shape.strides@[p[q[d] as int] as int]);
    }
    assert(c.shape.sizes@ =~= a.shape.sizes@);
    assert(c.shape.strides@ =~= a.shape.strides@);
}

/// Flipping the same dimension subset twice restores every observable part
/// of the original tensor.
pub proof fn lemma_flip_involution<T>(
    a: Tensor<T>,
    b: Tensor<T>,
    c: Tensor<T>,
    dims: Seq<usize>,
)
    requires
        a.shape.wf(),
        flip_post(a.shape, dims, Ok(b.shape)),
        b.data == a.data,
        flip_post(b.shape, dims, Ok(c.shape)),
        c.data == b.data,
    ensures
        c.data == a.data,
        c.shape.sizes@ == a.shape.sizes@,
        c.shape.strides@ == a.shape.strides@,
        c.shape.offset == a.shape.offset,
{
    assert forall|d: int| 0 <= d < c.shape.strides@.len() implies c.shape.strides@[d]
        == a.shape.strides@[d] by {
        assert(b.shape.strides@[d] == flipped_strides(a.shape.strides@, dims)[d]);
        assert(c.shape.strides@[d] == flipped_strides(b.shape.strides@, dims)[d]);
    }
    assert(c.shape.strides@ =~= a.shape.strides@);
}

/// For a source whose layout admits the zero-copy reinterpretation, the
/// view and the materializing reshape hold the same logical sequence: the
/// two paths agree wherever both succeed.
pub proof fn lemma_view_reshape_equivalence<T>(
    a: Tensor<T>,
    viewed: Tensor<T>,
    reshaped: Tensor<T>,
    sizes: Seq<usize>,
)
    requires
        a.inv(),
        view_post(a.shape, sizes, Ok(viewed.shape)),
        viewed.data == a.data,
        reshaped.buf() == a.logical(),
        reshaped.logical() == reshaped.buf(),
    ensures
        viewed.logical() == reshaped.logical(),
{
    lemma_row_major_logical(viewed, a, a.shape.uniform_dir());
}

/// Flipping every dimension of a canonically laid out tensor keeps it
/// contiguous: the relative stride ordering is preserved.
pub proof fn lemma_flip_all_contiguous(
    sizes: Seq<usize>,
    strides: Seq<Stride>,
    dims: Seq<usize>,
)
    requires
        row_major(sizes, strides, true),
        forall|d: int| 0 <= d < sizes.len() ==> has_dim(dims, d),
    ensures
        is_contig(sizes, flipped_strides(strides, dims)),
{
    let fs = flipped_strides(strides, dims);
    assert forall|d: int| 0 <= d < fs.len() implies (#[trigger] fs[d]).is_positive() == false
        && fs[d].mag() as int == prod(sizes.skip(d + 1)) by {
        assert(has_dim(dims, d));
    }
    lemma_row_major_contig(sizes, fs, false);
}

/// Flipping a dimension subset whose membership changes across some
/// adjacent non-empty dimension pair breaks contiguity: in particular,
/// flipping any proper, non-empty subset of a canonically laid out tensor
/// of positive sizes is not contiguous.
pub proof fn lemma_flip_partial_non_contiguous(
    sizes: Seq<usize>,
    strides: Seq<Stride>,
    dims: Seq<usize>,
    d: int,
)
    requires
        row_major(sizes, strides, true),
        forall|i: int| 0 <= i < sizes.len() ==> #[trigger] sizes[i] >= 1,
        0 <= d < sizes.len() - 1,
        has_dim(dims, d) != has_dim(dims, d + 1),
    ensures
        !is_contig(sizes, flipped_strides(strides, dims)),
{
    let fs = flipped_strides(strides, dims);
    assert forall|i: int| 0 <= i < sizes.skip(d + 1).len() implies #[trigger] sizes.skip(
        d + 1,
    )[i] >= 1 by {
        assert(sizes.skip(d + 1)[i] == sizes[d + 1 + i]);
    }
    lemma_prod_pos(sizes.skip(d + 1));
    assert(fs[d].mag() as int == prod(sizes.skip(d + 1)));
    assert(fs[d].is_positive() != fs[d + 1].is_positive());
    assert(!crate::shape::contig_pair(fs[d], fs[d + 1], sizes[d + 1]));
}

} // verus!
