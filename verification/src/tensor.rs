//! A tensor: a shared, immutable backing buffer of elements paired with one
//! shape. Multiple tensors may reference the same buffer concurrently; no
//! operation ever mutates a buffer in place — every mutating interface
//! copies the logical contents first and wraps the copy in a new tensor.

use std::sync::Arc;
use vstd::prelude::*;
use crate::arith::{
    fits, injective, lemma_fits_from_pos, lemma_prod_nonneg, lemma_prod_pos, lemma_prod_pos_each,
    lemma_prod_skip_unfold, lemma_prod_zero, lemma_rank_bound, lemma_rank_terms_sum,
    lemma_unrank_props, lemma_unrank_rank, prod, rank_of, rank_terms, sum, unrank, valid_index,
};
use crate::error::{Res, TensorError};
use crate::shape::numel_of;
use crate::shape::contains_dim;
use crate::shape::{
    bcast_len, bcast_ok_at, bcast_sizes, clone_sizes, delta_terms, dims_valid_upto, eff_end,
    eff_start, has_dim, is_contig, lemma_reach_row_major, lemma_row_major_contig,
    lemma_sum_deltas_bound, lemma_sum_deltas_row_major, padded_size, range_ok_at, reach,
    reach_terms, row_major, slice_sizes, squeezed_sizes, squeezed_strides, sum_deltas, to_ints,
    Shape,
};
use crate::stride::Stride;

verus! {

/// A shared, reference-counted, immutable backing buffer plus one shape.
pub struct Tensor<T> {
    pub data: Arc<Vec<T>>,
    pub shape: Shape,
}

impl<T> Tensor<T> {
    /// The backing buffer's contents.
    pub open spec fn buf(self) -> Seq<T> {
        self.data@
    }

    /// Structural well-formedness: a well-formed shape every offset of
    /// which lies inside the backing buffer.
    pub open spec fn inv(self) -> bool {
        self.shape.wf() && self.buf().len() <= usize::MAX && (self.shape.numel_spec() > 0
            ==> self.shape.offset + reach(self.shape.sizes@, self.shape.strides@)
            < self.buf().len())
    }

    /// The element addressed by coordinate `idx`.
    pub open spec fn elem(self, idx: Seq<int>) -> T {
        self.buf()[self.shape.lin(idx)]
    }

    /// The logical element sequence: every element, in row-major coordinate
    /// order.
    pub open spec fn logical(self) -> Seq<T> {
        Seq::new(
            self.shape.numel_spec() as nat,
            |k: int| self.elem(unrank(self.shape.sizes@, k)),
        )
    }

    /// The dimension sizes, as a sequence.
    pub open spec fn sizes_spec(self) -> Seq<usize> {
        self.shape.sizes@
    }

    /// The number of logical elements.
    pub open spec fn numel_spec(self) -> int {
        self.shape.numel_spec()
    }
}

/// A valid coordinate's offset stays strictly inside the buffer.
pub proof fn lemma_elem_in_bounds<T>(t: Tensor<T>, idx: Seq<int>)
    requires
        t.inv(),
        t.shape.valid(idx),
    ensures
        0 <= t.shape.lin(idx) < t.buf().len(),
{
    lemma_sum_deltas_bound(t.shape.sizes@, t.shape.strides@, idx);
    assert forall|d: int| 0 <= d < t.shape.sizes@.len() implies #[trigger] t.shape.sizes@[d]
        >= 1 by {
        assert(0 <= idx[d] < t.shape.sizes@[d]);
    }
    lemma_prod_pos(t.shape.sizes@);
}

/// Shares the backing buffer of a tensor: a new reference to the same
/// allocation. Relies on `Arc::clone`, which returns a pointer to the same
/// immutable allocation, so the two references hold equal values.
#[verifier::external_body]
pub(crate) fn share_buffer<T>(data: &Arc<Vec<T>>) -> (r: Arc<Vec<T>>)
    ensures
        r == *data,
{
    Arc::clone(data)
}

/// Reads one element of a shared buffer. Relies on `Arc`'s dereference to
/// the owned vector, whose contents the reference-counted allocation keeps
/// immutable.
#[verifier::external_body]
pub(crate) fn buf_read<T: Copy>(data: &Arc<Vec<T>>, i: usize) -> (r: T)
    requires
        i < data@.len(),
    ensures
        r == data@[i as int],
{
    data[i]
}

/// The canonical shape over the given sizes at offset zero: exact row-major
/// strides for a populated size list, magnitude-zero strides for an empty
/// one.
pub(crate) fn canonical_shape_for(sizes: &Vec<usize>) -> (r: Shape)
    requires
        prod(sizes@) <= usize::MAX,
    ensures
        r.sizes@ == sizes@,
        r.offset == 0,
        r.wf(),
        prod(sizes@) > 0 ==> row_major(r.sizes@, r.strides@, true) && fits(sizes@),
        prod(sizes@) == 0 ==> r.strides@.len() == sizes@.len() && (forall|d: int|
            0 <= d < sizes@.len() ==> #[trigger] r.strides@[d] == Stride::Positive(0usize)),
        r.numel_spec() == prod(sizes@),
{
    let n = sizes.len();
    let mut has_zero: bool = false;
    let mut d: usize = 0;
    while d < n
        invariant
            n == sizes@.len(),
            d <= n,
            has_zero == exists|j: int| 0 <= j < d && sizes@[j] == 0,
        decreases n - d,
    {
        if sizes[d] == 0 {
            has_zero = true;
        }
        d += 1;
    }
    if has_zero {
        proof {
            let j = choose|j: int| 0 <= j < n && sizes@[j] == 0;
            lemma_prod_zero(sizes@, j);
        }
        let mut strides: Vec<Stride> = Vec::new();
        let mut e: usize = 0;
        while e < n
            invariant
                e <= n,
                strides@ =~= Seq::new(e as nat, |d: int| Stride::Positive(0usize)),
            decreases n - e,
        {
            strides.push(Stride::Positive(0));
            proof {
                assert(strides@ =~= Seq::new((e + 1) as nat, |d: int| Stride::Positive(0usize)));
            }
            e += 1;
        }
        Shape { sizes: clone_sizes(sizes), strides, offset: 0 }
    } else {
        proof {
            assert forall|j: int| 0 <= j < n implies #[trigger] sizes@[j] >= 1 by {
                assert(sizes@[j] != 0);
            }
            lemma_prod_pos(sizes@);
            lemma_fits_from_pos(sizes@);
        }
        Shape::new(sizes.as_slice(), 0)
    }
}

/// The coordinate of rank `k` in the row-major index space of `sizes`.
pub(crate) fn unrank_exec(sizes: &Vec<usize>, k: usize) -> (r: Vec<usize>)
    requires
        prod(sizes@) <= usize::MAX,
        k < prod(sizes@),
    ensures
        to_ints(r@) == unrank(sizes@, k as int),
        r@.len() == sizes@.len(),
        valid_index(sizes@, to_ints(r@)),
{
    let n = sizes.len();
    proof {
        lemma_prod_pos_each(sizes@);
        lemma_unrank_props(sizes@, k as int);
    }
    let mut out: Vec<usize> = Vec::new();
    let mut rem: usize = k;
    let mut d: usize = 0;
    proof {
        assert(sizes@.skip(0) =~= sizes@);
        assert(to_ints(out@) =~= Seq::<int>::empty());
        assert(Seq::<int>::empty() + unrank(sizes@.skip(0), rem as int) =~= unrank(
            sizes@,
            k as int,
        ));
    }
    while d < n
        invariant
            n == sizes@.len(),
            prod(sizes@) <= usize::MAX,
            forall|j: int| 0 <= j < n ==> #[trigger] sizes@[j] >= 1,
            d <= n,
            out@.len() == d as int,
            0 <= rem < prod(sizes@.skip(d as int)),
            to_ints(out@) + unrank(sizes@.skip(d as int), rem as int) == unrank(
                sizes@,
                k as int,
            ),
        decreases n - d,
    {
        proof {
            lemma_prod_skip_unfold(sizes@, d as int);
            assert forall|j: int| 0 <= j < sizes@.skip(d + 1).len() implies #[trigger] sizes@.skip(
                d + 1,
            )[j] >= 1 by {
                assert(sizes@.skip(d + 1)[j] == sizes@[d + 1 + j]);
            }
            lemma_prod_pos(sizes@.skip(d + 1));
            crate::arith::lemma_prod_tail_le(sizes@, d as int);
            crate::arith::lemma_prod_tail_le(sizes@, d + 1);
        }
        let p = suffix_product_vec(sizes, d + 1);
        let q = rem / p;
        let m = rem % p;
        proof {
            vstd::arithmetic::div_mod::lemma_fundamental_div_mod(rem as int, p as int);
            vstd::arithmetic::div_mod::lemma_mod_bound(rem as int, p as int);
            let sd = sizes@.skip(d as int);
            assert(unrank(sd, rem as int) == seq![rem as int / prod(sd.skip(1))] + unrank(
                sd.skip(1),
                rem as int % prod(sd.skip(1)),
            ));
            assert(sd.skip(1) =~= sizes@.skip(d + 1));
            assert(q < sd[0]) by {
                if q >= sd[0] {
                    vstd::arithmetic::mul::lemma_mul_inequality(
                        sd[0] as int,
                        q as int,
                        p as int,
                    );
                    assert(q as int * p as int == p as int * q as int) by (nonlinear_arith);
                }
            }
            assert(to_ints(out@.push(q)) =~= to_ints(out@).push(q as int));
            assert(to_ints(out@).push(q as int) + unrank(sizes@.skip(d + 1), m as int) =~= to_ints(
                out@,
            ) + unrank(sizes@.skip(d as int), rem as int));
        }
        out.push(q);
        rem = m;
        d += 1;
    }
    proof {
        assert(sizes@.skip(n as int) =~= Seq::<usize>::empty());
        assert(unrank(Seq::<usize>::empty(), rem as int) =~= Seq::<int>::empty());
        assert(to_ints(out@) + Seq::<int>::empty() =~= to_ints(out@));
        lemma_unrank_props(sizes@, k as int);
    }
    out
}

/// The row-major rank of a valid coordinate of `sizes`.
pub(crate) fn rank_exec(sizes: &Vec<usize>, idx: &Vec<usize>) -> (r: usize)
    requires
        prod(sizes@) <= usize::MAX,
        valid_index(sizes@, to_ints(idx@)),
    ensures
        r as int == rank_of(sizes@, to_ints(idx@)),
        r < prod(sizes@),
{
    let n = sizes.len();
    let ghost ii = to_ints(idx@);
    let ghost rt = rank_terms(sizes@, ii);
    proof {
        lemma_rank_terms_sum(sizes@, ii);
        lemma_rank_bound(sizes@, ii);
        lemma_prod_pos_each(sizes@);
        assert forall|j: int| 0 <= j < n implies 0 <= #[trigger] rt[j] by {
            lemma_prod_nonneg(sizes@.skip(j + 1));
            vstd::arithmetic::mul::lemma_mul_nonnegative(ii[j], prod(sizes@.skip(j + 1)));
        }
        assert(rt.take(0) =~= Seq::<int>::empty());
    }
    let mut acc: usize = 0;
    let mut d: usize = 0;
    while d < n
        invariant
            n == sizes@.len(),
            idx@.len() == n,
            prod(sizes@) <= usize::MAX,
            forall|j: int| 0 <= j < n ==> #[trigger] sizes@[j] >= 1,
            valid_index(sizes@, ii),
            ii == to_ints(idx@),
            rt == rank_terms(sizes@, ii),
            forall|j: int| 0 <= j < n ==> 0 <= #[trigger] rt[j],
            sum(rt) < prod(sizes@),
            d <= n,
            acc == sum(rt.take(d as int)),
        decreases n - d,
    {
        proof {
            crate::arith::lemma_sum_take_step(rt, d as int);
            crate::arith::lemma_sum_take_bound(rt, d + 1);
            crate::arith::lemma_prod_tail_le(sizes@, d + 1);
            assert(0 <= ii[d as int] < sizes@[d as int]);
            lemma_prod_nonneg(sizes@.skip(d + 1));
            vstd::arithmetic::mul::lemma_mul_inequality(
                ii[d as int],
                sizes@[d as int] - 1,
                prod(sizes@.skip(d + 1)),
            );
            vstd::arithmetic::mul::lemma_mul_nonnegative(ii[d as int], prod(sizes@.skip(d + 1)));
        }
        let p = suffix_product_vec(sizes, d + 1);
        acc = acc + idx[d] * p;
        d += 1;
    }
    proof {
        assert(rt.take(n as int) =~= rt);
    }
    acc
}

/// The product of the sizes from dimension `d` on, for a vector of
/// positive sizes with a representable product.
fn suffix_product_vec(sizes: &Vec<usize>, d: usize) -> (r: usize)
    requires
        d <= sizes@.len(),
        prod(sizes@) <= usize::MAX,
        forall|i: int| 0 <= i < sizes@.len() ==> #[trigger] sizes@[i] >= 1,
    ensures
        r == prod(sizes@.skip(d as int)),
{
    let n = sizes.len();
    let mut acc: usize = 1;
    let mut j: usize = n;
    proof {
        assert(sizes@.skip(n as int) =~= Seq::<usize>::empty());
    }
    while j > d
        invariant
            d <= j <= n,
            n == sizes@.len(),
            prod(sizes@) <= usize::MAX,
            forall|i: int| 0 <= i < sizes@.len() ==> #[trigger] sizes@[i] >= 1,
            acc == prod(sizes@.skip(j as int)),
        decreases j,
    {
        proof {
            lemma_prod_skip_unfold(sizes@, j - 1);
            lemma_prod_nonneg(sizes@.skip(j as int));
            crate::arith::lemma_prod_tail_le(sizes@, j - 1);
        }
        acc = sizes[j - 1] * acc;
        j -= 1;
    }
    acc
}


/// The shape carried by a tensor result, with errors passed through.
pub open spec fn res_shape<T>(r: Res<Tensor<T>>) -> Res<Shape> {
    match r {
        Ok(t) => Ok(t.shape),
        Err(e) => Err(e),
    }
}

impl<T: Copy> Tensor<T> {
    /// Wrap a copied buffer in the canonical layout over `sizes`.
    pub(crate) fn init(data: &[T], sizes: &[usize]) -> (r: Tensor<T>)
        requires
            fits(sizes@),
            prod(sizes@) == data@.len(),
        ensures
            r.buf() == data@,
            r.sizes_spec() == sizes@,
            r.shape.offset == 0,
            prod(sizes@) > 0 ==> row_major(r.shape.sizes@, r.shape.strides@, true),
            r.inv(),
    {
        let shape = Shape::new(sizes, 0);
        let len = data.len();
        proof {
            assert(sizes@.skip(0) =~= sizes@);
            if prod(sizes@) > 0 {
                lemma_prod_pos_each(sizes@);
                lemma_reach_row_major(shape.sizes@, shape.strides@, true);
            }
        }
        Tensor { data: Arc::new(vstd::slice::slice_to_vec(data)), shape }
    }

    /// Build a tensor from elements and dimension sizes; the element count
    /// must equal the size product.
    pub fn new(data: &[T], sizes: &[usize]) -> (r: Res<Tensor<T>>)
        ensures
            match r {
                Ok(t) => fits(sizes@) && prod(sizes@) == data@.len() && t.buf() == data@
                    && t.sizes_spec() == sizes@ && t.shape.offset == 0 && (prod(sizes@) > 0
                    ==> row_major(t.shape.sizes@, t.shape.strides@, true)) && t.inv(),
                Err(TensorError::DataLengthMismatch { data_length, tensor_size }) => data_length
                    == data@.len() && !(fits(sizes@) && prod(sizes@) == data@.len()) && (fits(
                    sizes@,
                ) ==> tensor_size == prod(sizes@)) && (!fits(sizes@) ==> tensor_size
                    == usize::MAX),
                Err(_) => false,
            },
    {
        let data_length = data.len();
        match crate::shape::checked_numel(sizes) {
            None => Err(
                TensorError::DataLengthMismatch { data_length, tensor_size: usize::MAX },
            ),
            Some(tensor_size) => {
                if data_length != tensor_size {
                    return Err(TensorError::DataLengthMismatch { data_length, tensor_size });
                }
                Ok(Tensor::init(data, sizes))
            },
        }
    }

    /// Build a rank-one tensor holding the given elements.
    pub fn new_1d(data: &[T]) -> (r: Tensor<T>)
        ensures
            r.buf() == data@,
            r.sizes_spec() == seq![data@.len() as usize],
            r.shape.offset == 0,
            r.inv(),
    {
        let n = data.len();
        let mut sizes: Vec<usize> = Vec::new();
        sizes.push(n);
        proof {
            assert(sizes@ =~= seq![n]);
            assert(sizes@.skip(1) =~= Seq::<usize>::empty());
            assert(prod(Seq::<usize>::empty()) == 1);
            assert forall|d: int| 0 <= d <= sizes@.len() implies prod(#[trigger] sizes@.skip(d))
                <= usize::MAX by {
                if d == 0 {
                    assert(sizes@.skip(0) =~= sizes@);
                } else {
                    assert(sizes@.skip(d) =~= Seq::<usize>::empty());
                }
            }
        }
        Tensor::init(data, sizes.as_slice())
    }

    /// Build a tensor holding one element under a single size-one dimension.
    pub fn scalar(data: T) -> (r: Tensor<T>)
        ensures
            r.buf() == seq![data],
            r.sizes_spec() == seq![1usize],
            r.shape.offset == 0,
            r.inv(),
    {
        let mut buffer: Vec<T> = Vec::new();
        buffer.push(data);
        let mut sizes: Vec<usize> = Vec::new();
        sizes.push(1);
        proof {
            assert(buffer@ =~= seq![data]);
            assert(sizes@ =~= seq![1usize]);
            assert(sizes@.skip(1) =~= Seq::<usize>::empty());
            assert(prod(Seq::<usize>::empty()) == 1);
            assert forall|d: int| 0 <= d <= sizes@.len() implies prod(#[trigger] sizes@.skip(d))
                <= usize::MAX by {
                if d == 0 {
                    assert(sizes@.skip(0) =~= sizes@);
                } else {
                    assert(sizes@.skip(d) =~= Seq::<usize>::empty());
                }
            }
        }
        Tensor::init(buffer.as_slice(), sizes.as_slice())
    }

    /// Build a rank-one tensor of `size` copies of one element.
    pub fn same(element: T, size: usize) -> (r: Tensor<T>)
        ensures
            r.sizes_spec() == seq![size],
            r.buf().len() == size,
            forall|k: int| 0 <= k < size ==> r.buf()[k] == element,
            r.shape.offset == 0,
            r.inv(),
    {
        let mut buffer: Vec<T> = Vec::new();
        let mut k: usize = 0;
        while k < size
            invariant
                k <= size,
                buffer@.len() == k,
                forall|j: int| 0 <= j < k ==> buffer@[j] == element,
            decreases size - k,
        {
            buffer.push(element);
            k += 1;
        }
        let r = Tensor::new_1d(buffer.as_slice());
        r
    }
}

impl<T> Tensor<T> {
    /// The number of logical elements.
    pub fn numel(&self) -> (r: usize)
        requires
            self.inv(),
        ensures
            r == self.numel_spec(),
    {
        self.shape.numel()
    }

    /// The number of dimensions.
    pub fn ndims(&self) -> (r: usize)
        ensures
            r == self.shape.ndims(),
    {
        self.shape.numdims()
    }

    /// The dimension sizes.
    pub fn sizes(&self) -> (r: &[usize])
        ensures
            r@ == self.sizes_spec(),
    {
        self.shape.sizes.as_slice()
    }

    /// The per-dimension strides.
    pub fn strides(&self) -> (r: &[Stride])
        ensures
            r@ == self.shape.strides@,
    {
        self.shape.strides.as_slice()
    }

    /// The base offset into the backing buffer.
    pub fn offset(&self) -> (r: usize)
        ensures
            r == self.shape.offset,
    {
        self.shape.offset
    }

    /// The row-major contiguity test of the layout.
    pub fn is_contiguous(&self) -> (r: bool)
        requires
            self.inv(),
        ensures
            r == is_contig(self.shape.sizes@, self.shape.strides@),
    {
        self.shape.is_contiguous()
    }

    /// Drop every size-one dimension, sharing the backing buffer.
    pub fn squeeze(&self) -> (r: Res<Tensor<T>>)
        requires
            self.inv(),
        ensures
            match r {
                Ok(t) => t.data == self.data && t.inv() && t.shape.offset == self.shape.offset
                    && (if self.numel_spec() == 1 {
                    t.sizes_spec() == seq![1usize] && row_major(
                        t.shape.sizes@,
                        t.shape.strides@,
                        true,
                    )
                } else {
                    t.sizes_spec() == squeezed_sizes(self.shape.sizes@) && t.shape.strides@
                        == squeezed_strides(self.shape.sizes@, self.shape.strides@)
                }) && (t.numel_spec() == self.numel_spec() || self.numel_spec() == 1),
                Err(_) => false,
            },
    {
        let shape = self.shape.squeeze();
        proof {
            if self.numel_spec() == 1 {
                let rt1 = reach_terms(shape.sizes@, shape.strides@);
                assert(rt1.len() == 1 && rt1[0] == (1 - 1) * shape.strides@[0].mag());
                vstd::arithmetic::mul::lemma_mul_basics(shape.strides@[0].mag() as int);
                assert(rt1.skip(1) =~= Seq::<int>::empty());
                assert(sum(Seq::<int>::empty()) == 0);
                assert(sum(rt1) == rt1[0] + sum(rt1.skip(1)));
                assert(reach(shape.sizes@, shape.strides@) == 0);
                assert forall|d: int|
                    0 <= d < self.shape.sizes@.len() implies #[trigger] self.shape.sizes@[d]
                    >= 1 by {
                    if self.shape.sizes@[d] == 0 {
                        lemma_prod_zero(self.shape.sizes@, d);
                    }
                }
                assert forall|d: int|
                    0 <= d < self.shape.sizes@.len() implies 0 <= #[trigger] reach_terms(
                    self.shape.sizes@,
                    self.shape.strides@,
                )[d] by {
                    vstd::arithmetic::mul::lemma_mul_nonnegative(
                        self.shape.sizes@[d] - 1,
                        self.shape.strides@[d].mag() as int,
                    );
                }
                crate::arith::lemma_sum_nonneg(
                    reach_terms(self.shape.sizes@, self.shape.strides@),
                );
            } else {
                crate::shape::lemma_squeezed_prod(self.shape.sizes@);
                crate::shape::lemma_squeezed_reach(self.shape.sizes@, self.shape.strides@);
            }
        }
        Ok(Tensor { data: share_buffer(&self.data), shape })
    }

    /// Pad with leading size-one dimensions until the rank is `target`,
    /// sharing the backing buffer.
    pub fn unsqueeze(&self, target: usize) -> (r: Res<Tensor<T>>)
        requires
            self.inv(),
        ensures
            crate::shape::unsqueeze_post(self.shape, target, res_shape(r)),
            r matches Ok(t) ==> t.data == self.data && t.inv(),
    {
        match self.shape.unsqueeze(target) {
            Ok(shape) => {
                proof {
                    let k = (target - self.shape.ndims()) as nat;
                    crate::arith::lemma_prod_ones_prepend(k, self.shape.sizes@);
                    let rt_new = reach_terms(shape.sizes@, shape.strides@);
                    let rt_old = reach_terms(self.shape.sizes@, self.shape.strides@);
                    assert forall|d: int| 0 <= d < k implies #[trigger] rt_new[d] == 0 by {
                        assert(shape.sizes@[d] == 1);
                        vstd::arithmetic::mul::lemma_mul_basics(shape.strides@[d].mag() as int);
                    }
                    crate::arith::lemma_sum_zero_prefix(rt_new, k as int);
                    assert(rt_new.skip(k as int) =~= rt_old);
                }
                Ok(Tensor { data: share_buffer(&self.data), shape })
            },
            Err(e) => Err(e),
        }
    }

    /// Reorder the dimensions by the given permutation, sharing the
    /// backing buffer.
    pub fn permute(&self, permutation: &[usize]) -> (r: Res<Tensor<T>>)
        requires
            self.inv(),
        ensures
            crate::shape::permute_post(self.shape, permutation@, res_shape(r)),
            r matches Ok(t) ==> t.data == self.data && t.inv(),
    {
        match self.shape.permute(permutation) {
            Ok(shape) => Ok(Tensor { data: share_buffer(&self.data), shape }),
            Err(e) => Err(e),
        }
    }

    /// Swap two dimensions, sharing the backing buffer.
    pub fn transpose(&self, dim_1: usize, dim_2: usize) -> (r: Res<Tensor<T>>)
        requires
            self.inv(),
        ensures
            crate::shape::transpose_post(self.shape, dim_1, dim_2, res_shape(r)),
            r matches Ok(t) ==> t.data == self.data && t.inv(),
    {
        match self.shape.transpose(dim_1, dim_2) {
            Ok(shape) => Ok(Tensor { data: share_buffer(&self.data), shape }),
            Err(e) => Err(e),
        }
    }

    /// Stretch size-one dimensions to the target sizes by magnitude-zero
    /// strides, sharing the backing buffer.
    pub fn expand(&self, expansions: &[usize]) -> (r: Res<Tensor<T>>)
        requires
            self.inv(),
        ensures
            crate::shape::expand_post(self.shape, expansions@, res_shape(r)),
            r matches Ok(t) ==> t.data == self.data && t.inv(),
    {
        match self.shape.expand(expansions) {
            Ok(shape) => Ok(Tensor { data: share_buffer(&self.data), shape }),
            Err(e) => Err(e),
        }
    }

    /// Invert the direction of each listed dimension's stride, sharing the
    /// backing buffer.
    pub fn flip(&self, flips: &[usize]) -> (r: Res<Tensor<T>>)
        requires
            self.inv(),
        ensures
            crate::shape::flip_post(self.shape, flips@, res_shape(r)),
            r matches Ok(t) ==> t.data == self.data && t.inv(),
    {
        match self.shape.flip(flips) {
            Ok(shape) => {
                proof {
                    assert(reach_terms(shape.sizes@, shape.strides@) =~= reach_terms(
                        self.shape.sizes@,
                        self.shape.strides@,
                    ));
                }
                Ok(Tensor { data: share_buffer(&self.data), shape })
            },
            Err(e) => Err(e),
        }
    }

    /// Invert the direction of every dimension's stride, sharing the
    /// backing buffer.
    pub fn flip_all(&self) -> (r: Res<Tensor<T>>)
        requires
            self.inv(),
        ensures
            match r {
                Ok(t) => t.data == self.data && t.inv() && t.sizes_spec() == self.sizes_spec()
                    && t.shape.offset == self.shape.offset && t.shape.strides@.len()
                    == self.shape.strides@.len() && (forall|d: int|
                    0 <= d < self.shape.strides@.len() ==> #[trigger] t.shape.strides@[d]
                        == self.shape.strides@[d].flip_spec()),
                Err(_) => false,
            },
    {
        let n = self.shape.sizes.len();
        let mut all_dims: Vec<usize> = Vec::new();
        let mut d: usize = 0;
        while d < n
            invariant
                d <= n,
                all_dims@.len() == d as int,
                forall|i: int| 0 <= i < d ==> #[trigger] all_dims@[i] == i,
            decreases n - d,
        {
            all_dims.push(d);
            d += 1;
        }
        proof {
            assert(injective(all_dims@));
        }
        match self.flip(all_dims.as_slice()) {
            Ok(t) => {
                proof {
                    assert forall|i: int|
                        0 <= i < self.shape.strides@.len() implies #[trigger] t.shape.strides@[i]
                        == self.shape.strides@[i].flip_spec() by {
                        assert(all_dims@[i] == i);
                        assert(has_dim(all_dims@, i));
                    }
                }
                Ok(t)
            },
            Err(e) => {
                proof {
                    assert(false);
                }
                Err(e)
            },
        }
    }

    /// Select a half-open region per dimension, sharing the backing buffer.
    pub fn slice(&self, ranges: &[(usize, usize)]) -> (r: Res<Tensor<T>>)
        requires
            self.inv(),
        ensures
            crate::shape::slice_post(self.shape, ranges@, res_shape(r)),
            r matches Ok(t) ==> t.data == self.data && t.inv(),
    {
        proof {
            if self.shape.numel_spec() > 0 {
                lemma_prod_nonneg(self.shape.sizes@);
            }
        }
        match self.shape.slice(ranges) {
            Ok(shape) => {
                proof {
                    if shape.numel_spec() > 0 {
                        lemma_prod_pos_each(shape.sizes@);
                        assert forall|d: int|
                            0 <= d < self.shape.sizes@.len() implies
                            #[trigger] self.shape.sizes@[d] >= 1 by {
                            if d < ranges@.len() {
                                assert(range_ok_at(self.shape.sizes@, ranges@, d));
                            }
                            let st = eff_start(ranges@, d);
                            let en = eff_end(self.shape.sizes@, ranges@, d);
                            assert(0 <= en - st <= self.shape.sizes@[d]);
                            assert(shape.sizes@[d] == slice_sizes(self.shape.sizes@, ranges@)[d]);
                            assert(shape.sizes@[d] as int == en - st);
                            assert(shape.sizes@[d] >= 1);
                        }
                        lemma_prod_pos(self.shape.sizes@);
                    }
                }
                Ok(Tensor { data: share_buffer(&self.data), shape })
            },
            Err(e) => Err(e),
        }
    }

    /// Collapse each pinned dimension to size one, folding its offset
    /// contribution into the base offset, sharing the backing buffer.
    pub(crate) fn slicer(&self, pins: &[Option<usize>]) -> (r: Res<Tensor<T>>)
        requires
            self.inv(),
        ensures
            crate::shape::single_slice_post(self.shape, pins@, res_shape(r)),
            r matches Ok(t) ==> t.data == self.data && t.inv(),
    {
        match self.shape.single_slice(pins) {
            Ok(shape) => {
                proof {
                    if shape.numel_spec() > 0 {
                        lemma_prod_pos_each(shape.sizes@);
                        assert forall|d: int|
                            0 <= d < self.shape.sizes@.len() implies
                            #[trigger] self.shape.sizes@[d] >= 1 by {
                            assert(shape.sizes@[d] >= 1);
                            if pins@[d] is Some {
                                assert(pins@[d] matches Some(i) ==> (i as int)
                                    < self.shape.sizes@[d]);
                            } else {
                                assert(shape.sizes@[d] == self.shape.sizes@[d]);
                            }
                        }
                        lemma_prod_pos(self.shape.sizes@);
                    }
                }
                Ok(Tensor { data: share_buffer(&self.data), shape })
            },
            Err(e) => Err(e),
        }
    }
}


/// Two tensors with uniform row-major layouts in the same direction, over
/// the same buffer, offset and element count, hold the same logical
/// sequence.
pub proof fn lemma_row_major_logical<T>(a: Tensor<T>, b: Tensor<T>, positive: bool)
    requires
        row_major(a.shape.sizes@, a.shape.strides@, positive),
        row_major(b.shape.sizes@, b.shape.strides@, positive),
        a.shape.offset == b.shape.offset,
        a.data == b.data,
        a.numel_spec() == b.numel_spec(),
    ensures
        a.logical() == b.logical(),
{
    let ne = a.numel_spec();
    assert forall|k: int| 0 <= k < ne implies a.logical()[k] == b.logical()[k] by {
        lemma_unrank_props(a.shape.sizes@, k);
        lemma_unrank_props(b.shape.sizes@, k);
        lemma_sum_deltas_row_major(
            a.shape.sizes@,
            a.shape.strides@,
            unrank(a.shape.sizes@, k),
            positive,
        );
        lemma_sum_deltas_row_major(
            b.shape.sizes@,
            b.shape.strides@,
            unrank(b.shape.sizes@, k),
            positive,
        );
    }
    assert(a.logical() =~= b.logical());
}

/// A tensor at offset zero whose layout is the canonical row-major
/// derivation reads its buffer in logical order.
pub proof fn lemma_logical_is_buf<T>(t: Tensor<T>)
    requires
        t.shape.wf(),
        t.shape.offset == 0,
        t.numel_spec() == t.buf().len(),
        t.numel_spec() > 0 ==> row_major(t.shape.sizes@, t.shape.strides@, true),
    ensures
        t.logical() == t.buf(),
{
    let ne = t.numel_spec();
    if ne > 0 {
        assert forall|k: int| 0 <= k < ne implies t.logical()[k] == t.buf()[k] by {
            lemma_unrank_props(t.shape.sizes@, k);
            lemma_sum_deltas_row_major(
                t.shape.sizes@,
                t.shape.strides@,
                unrank(t.shape.sizes@, k),
                true,
            );
        }
    }
    assert(t.logical() =~= t.buf());
}

impl<T: Copy> Tensor<T> {
    /// The exact backing sub-range `[offset, offset + numel)`, valid only
    /// for an exact uniform row-major layout.
    pub(crate) fn data_contiguous(&self) -> (r: Vec<T>)
        requires
            self.inv(),
            row_major(self.shape.sizes@, self.shape.strides@, true),
        ensures
            r@.len() == self.numel_spec(),
            forall|j: int|
                0 <= j < self.numel_spec() ==> #[trigger] r@[j] == self.buf()[self.shape.offset
                    + j],
    {
        let ne = self.numel();
        let off = self.shape.offset;
        if ne == 0 {
            let empty: Vec<T> = Vec::new();
            return empty;
        }
        proof {
            lemma_prod_pos_each(self.shape.sizes@);
            lemma_reach_row_major(self.shape.sizes@, self.shape.strides@, true);
        }
        let mut out: Vec<T> = Vec::new();
        let mut k: usize = 0;
        while k < ne
            invariant
                self.inv(),
                ne == self.numel_spec(),
                off == self.shape.offset,
                off + ne <= self.buf().len(),
                k <= ne,
                out@.len() == k as int,
                forall|j: int| 0 <= j < k ==> out@[j] == self.buf()[off + j],
            decreases ne - k,
        {
            out.push(buf_read(&self.data, off + k));
            k += 1;
        }
        out
    }

    /// The logical element sequence, produced by walking the row-major
    /// coordinate space and reading each coordinate through the layout.
    pub(crate) fn data_non_contiguous(&self) -> (r: Vec<T>)
        requires
            self.inv(),
        ensures
            r@ == self.logical(),
    {
        let ne = self.numel();
        let mut out: Vec<T> = Vec::new();
        let mut k: usize = 0;
        while k < ne
            invariant
                self.inv(),
                ne == self.numel_spec(),
                k <= ne,
                out@.len() == k as int,
                forall|j: int| 0 <= j < k ==> out@[j] == self.logical()[j],
            decreases ne - k,
        {
            let idx = unrank_exec(&self.shape.sizes, k);
            proof {
                lemma_elem_in_bounds(*self, to_ints(idx@));
                assert forall|d: int| 0 <= d < idx@.len() implies #[trigger] idx@[d]
                    < self.shape.sizes@[d] by {
                    assert(to_ints(idx@)[d] == idx@[d] as int);
                }
            }
            match self.shape.element(idx.as_slice()) {
                Ok(off) => {
                    out.push(buf_read(&self.data, off));
                },
                Err(_) => {
                    proof {
                        assert(false);
                    }
                },
            }
            k += 1;
        }
        proof {
            assert(out@ =~= self.logical());
        }
        out
    }

    /// The logical element sequence: a direct linear scan when the layout
    /// is the exact positive row-major derivation, else a coordinate walk.
    pub fn data(&self) -> (r: Vec<T>)
        requires
            self.inv(),
        ensures
            r@ == self.logical(),
    {
        if self.shape.is_row_major_dir(true) {
            let r = self.data_contiguous();
            proof {
                let ne = self.numel_spec();
                assert forall|k: int| 0 <= k < ne implies self.logical()[k] == r@[k] by {
                    lemma_unrank_props(self.shape.sizes@, k);
                    lemma_sum_deltas_row_major(
                        self.shape.sizes@,
                        self.shape.strides@,
                        unrank(self.shape.sizes@, k),
                        true,
                    );
                }
                assert(r@ =~= self.logical());
            }
            r
        } else {
            self.data_non_contiguous()
        }
    }

    /// Materialize the logical contents into a fresh canonical buffer.
    pub fn to_contiguous(&self) -> (r: Res<Tensor<T>>)
        requires
            self.inv(),
        ensures
            match r {
                Ok(t) => t.buf() == self.logical() && t.sizes_spec() == self.sizes_spec()
                    && t.shape.offset == 0 && t.inv() && (self.numel_spec() > 0 ==> row_major(
                    t.shape.sizes@,
                    t.shape.strides@,
                    true,
                )) && is_contig(t.shape.sizes@, t.shape.strides@) && t.logical()
                    == self.logical(),
                Err(_) => false,
            },
    {
        let buffer = self.data();
        let shape = canonical_shape_for(&self.shape.sizes);
        proof {
            if self.numel_spec() > 0 {
                lemma_prod_pos_each(shape.sizes@);
                lemma_reach_row_major(shape.sizes@, shape.strides@, true);
                lemma_row_major_contig(shape.sizes@, shape.strides@, true);
            } else {
                lemma_prod_nonneg(self.shape.sizes@);
                assert forall|i: int|
                    0 <= i < shape.sizes@.len() - 1 implies crate::shape::contig_pair(
                    #[trigger] shape.strides@[i],
                    shape.strides@[i + 1],
                    shape.sizes@[i + 1],
                ) by {
                    assert(shape.strides@[i] == Stride::Positive(0usize));
                    assert(shape.strides@[i + 1] == Stride::Positive(0usize));
                    vstd::arithmetic::mul::lemma_mul_basics(shape.sizes@[i + 1] as int);
                }
            }
        }
        let t = Tensor { data: Arc::new(buffer), shape };
        proof {
            lemma_logical_is_buf(t);
        }
        Ok(t)
    }

    /// Materialize only when the layout fails the contiguity test.
    pub fn into_contiguous(self) -> (r: Res<Tensor<T>>)
        requires
            self.inv(),
        ensures
            match r {
                Ok(t) => t.logical() == self.logical() && t.sizes_spec() == self.sizes_spec()
                    && t.inv() && is_contig(t.shape.sizes@, t.shape.strides@),
                Err(_) => false,
            },
    {
        if self.is_contiguous() {
            Ok(self)
        } else {
            self.to_contiguous()
        }
    }

    /// The element at the given coordinate.
    pub fn index(&self, indices: &[usize]) -> (r: Res<T>)
        requires
            self.inv(),
        ensures
            match r {
                Ok(v) => self.shape.valid(to_ints(indices@)) && v == self.elem(to_ints(indices@)),
                Err(e) => crate::shape::element_post(self.shape, indices@, Err(e)),
            },
    {
        match self.shape.element(indices) {
            Ok(off) => {
                proof {
                    lemma_elem_in_bounds(*self, to_ints(indices@));
                }
                Ok(buf_read(&self.data, off))
            },
            Err(e) => Err(e),
        }
    }

    /// Reinterpret the element sequence under new sizes without copying;
    /// valid only for an exact uniform row-major source layout with a
    /// matching element count.
    pub fn view(&self, sizes: &[usize]) -> (r: Res<Tensor<T>>)
        requires
            self.inv(),
        ensures
            crate::shape::view_post(self.shape, sizes@, res_shape(r)),
            r matches Ok(t) ==> t.data == self.data && t.inv() && t.logical() == self.logical(),
    {
        match self.shape.view(sizes) {
            Ok(shape) => {
                let t = Tensor { data: share_buffer(&self.data), shape };
                proof {
                    let dir = self.shape.uniform_dir();
                    if t.numel_spec() > 0 {
                        lemma_prod_pos_each(t.shape.sizes@);
                        lemma_prod_pos_each(self.shape.sizes@);
                        lemma_reach_row_major(t.shape.sizes@, t.shape.strides@, dir);
                        lemma_reach_row_major(self.shape.sizes@, self.shape.strides@, dir);
                    }
                    assert(t.inv());
                    lemma_row_major_logical(t, *self, dir);
                }
                Ok(t)
            },
            Err(e) => Err(e),
        }
    }

    /// Reinterpret as a rank-one tensor without copying.
    pub fn ravel(&self) -> (r: Res<Tensor<T>>)
        requires
            self.inv(),
        ensures
            crate::shape::view_post(self.shape, seq![self.numel_spec() as usize], res_shape(r)),
            r matches Ok(t) ==> t.data == self.data && t.inv() && t.logical() == self.logical(),
    {
        let ne = self.numel();
        let mut sizes: Vec<usize> = Vec::new();
        sizes.push(ne);
        proof {
            assert(sizes@ =~= seq![self.numel_spec() as usize]);
        }
        self.view(sizes.as_slice())
    }

    /// Materialize the logical contents into a fresh canonical buffer under
    /// new sizes; succeeds exactly when the element counts agree.
    pub fn reshape(&self, sizes: &[usize]) -> (r: Res<Tensor<T>>)
        requires
            self.inv(),
        ensures
            match r {
                Ok(t) => fits(sizes@) && prod(sizes@) == self.numel_spec() && t.buf()
                    == self.logical() && t.logical() == self.logical() && t.sizes_spec() == sizes@
                    && t.shape.offset == 0 && t.inv() && (prod(sizes@) > 0 ==> row_major(
                    t.shape.sizes@,
                    t.shape.strides@,
                    true,
                )),
                Err(TensorError::ReshapeMismatch { data_length, new_length }) => !(fits(sizes@)
                    && prod(sizes@) == self.numel_spec()) && data_length == self.numel_spec() && (
                fits(sizes@) ==> new_length == prod(sizes@)) && (!fits(sizes@) ==> new_length
                    == usize::MAX),
                Err(_) => false,
            },
    {
        let ne = self.numel();
        match crate::shape::checked_numel(sizes) {
            None => Err(TensorError::ReshapeMismatch { data_length: ne, new_length: usize::MAX }),
            Some(nn) => {
                if nn != ne {
                    return Err(TensorError::ReshapeMismatch { data_length: ne, new_length: nn });
                }
                let buffer = self.data();
                let sizes_vec = vstd::slice::slice_to_vec(sizes);
                proof {
                    assert(sizes@.skip(0) =~= sizes@);
                }
                let shape = canonical_shape_for(&sizes_vec);
                proof {
                    if prod(sizes@) > 0 {
                        lemma_prod_pos_each(shape.sizes@);
                        lemma_reach_row_major(shape.sizes@, shape.strides@, true);
                    }
                }
                let t = Tensor { data: Arc::new(buffer), shape };
                proof {
                    lemma_logical_is_buf(t);
                }
                Ok(t)
            },
        }
    }

    /// Materialize into a rank-one tensor.
    pub fn flatten(&self) -> (r: Res<Tensor<T>>)
        requires
            self.inv(),
        ensures
            match r {
                Ok(t) => t.buf() == self.logical() && t.logical() == self.logical()
                    && t.sizes_spec() == seq![self.numel_spec() as usize] && t.inv(),
                Err(_) => false,
            },
    {
        let ne = self.numel();
        let mut sizes: Vec<usize> = Vec::new();
        sizes.push(ne);
        proof {
            assert(sizes@ =~= seq![self.numel_spec() as usize]);
            assert(sizes@.skip(1) =~= Seq::<usize>::empty());
            assert(prod(Seq::<usize>::empty()) == 1);
            assert(prod(sizes@) == self.numel_spec());
            assert forall|d: int| 0 <= d <= sizes@.len() implies prod(#[trigger] sizes@.skip(d))
                <= usize::MAX by {
                if d == 0 {
                    assert(sizes@.skip(0) =~= sizes@);
                } else {
                    assert(sizes@.skip(d) =~= Seq::<usize>::empty());
                }
            }
        }
        match self.reshape(sizes.as_slice()) {
            Ok(t) => Ok(t),
            Err(e) => {
                proof {
                    assert(false);
                }
                Err(e)
            },
        }
    }

    /// The zero-copy reinterpretation when the layout allows it, else the
    /// materializing reshape: the general-purpose reshape.
    pub fn view_else_reshape(&self, sizes: &[usize]) -> (r: Res<Tensor<T>>)
        requires
            self.inv(),
        ensures
            match r {
                Ok(t) => fits(sizes@) && prod(sizes@) == self.numel_spec() && t.sizes_spec()
                    == sizes@ && t.inv() && t.logical() == self.logical(),
                Err(TensorError::ReshapeMismatch { data_length, new_length }) => !(fits(sizes@)
                    && prod(sizes@) == self.numel_spec()) && data_length == self.numel_spec() && (
                fits(sizes@) ==> new_length == prod(sizes@)) && (!fits(sizes@) ==> new_length
                    == usize::MAX),
                Err(_) => false,
            },
    {
        match self.view(sizes) {
            Ok(t) => Ok(t),
            Err(_) => self.reshape(sizes),
        }
    }
}


/// Wrap a materialized logical buffer in the canonical layout over `sizes`.
pub(crate) fn from_logical<R: Copy>(buffer: Vec<R>, sizes: &Vec<usize>) -> (t: Tensor<R>)
    requires
        prod(sizes@) <= usize::MAX,
        buffer@.len() == prod(sizes@),
    ensures
        t.buf() == buffer@,
        t.sizes_spec() == sizes@,
        t.shape.offset == 0,
        t.inv(),
        t.logical() == buffer@,
{
    let shape = canonical_shape_for(sizes);
    proof {
        if prod(sizes@) > 0 {
            lemma_prod_pos_each(shape.sizes@);
            lemma_reach_row_major(shape.sizes@, shape.strides@, true);
        }
    }
    let t = Tensor { data: Arc::new(buffer), shape };
    proof {
        lemma_logical_is_buf(t);
    }
    t
}

impl<T: Copy> Tensor<T> {
    /// Apply a function to every element, producing a fresh canonical
    /// tensor of the results over the same sizes.
    pub fn unary_map<R: Copy>(&self, f: impl Fn(T) -> R) -> (r: Res<Tensor<R>>)
        requires
            self.inv(),
            forall|x: T| call_requires(f, (x,)),
        ensures
            match r {
                Ok(t) => t.sizes_spec() == self.sizes_spec() && t.shape.offset == 0 && t.inv()
                    && t.buf().len() == self.numel_spec() && t.logical() == t.buf() && (forall|
                    k: int,
                |
                    0 <= k < self.numel_spec() ==> call_ensures(
                        f,
                        (self.logical()[k],),
                        #[trigger] t.buf()[k],
                    )),
                Err(_) => false,
            },
    {
        let source = self.data();
        let ne = source.len();
        let mut out: Vec<R> = Vec::new();
        let mut k: usize = 0;
        while k < ne
            invariant
                forall|x: T| call_requires(f, (x,)),
                ne == source@.len(),
                source@ == self.logical(),
                k <= ne,
                out@.len() == k as int,
                forall|j: int|
                    0 <= j < k ==> call_ensures(f, (source@[j],), #[trigger] out@[j]),
            decreases ne - k,
        {
            out.push(f(source[k]));
            k += 1;
        }
        proof {
            lemma_prod_nonneg(self.shape.sizes@);
        }
        Ok(from_logical(out, &self.shape.sizes))
    }

    /// Apply a binary function against a fixed right-hand scalar.
    pub fn binary_map<R: Copy>(&self, rhs: T, f: impl Fn(T, T) -> R) -> (r: Res<Tensor<R>>)
        requires
            self.inv(),
            forall|x: T| call_requires(f, (x, rhs)),
        ensures
            match r {
                Ok(t) => t.sizes_spec() == self.sizes_spec() && t.shape.offset == 0 && t.inv()
                    && t.buf().len() == self.numel_spec() && t.logical() == t.buf() && (forall|
                    k: int,
                |
                    0 <= k < self.numel_spec() ==> call_ensures(
                        f,
                        (self.logical()[k], rhs),
                        #[trigger] t.buf()[k],
                    )),
                Err(_) => false,
            },
    {
        let source = self.data();
        let ne = source.len();
        let mut out: Vec<R> = Vec::new();
        let mut k: usize = 0;
        while k < ne
            invariant
                forall|x: T| call_requires(f, (x, rhs)),
                ne == source@.len(),
                source@ == self.logical(),
                k <= ne,
                out@.len() == k as int,
                forall|j: int|
                    0 <= j < k ==> call_ensures(f, (source@[j], rhs), #[trigger] out@[j]),
            decreases ne - k,
        {
            out.push(f(source[k], rhs));
            k += 1;
        }
        proof {
            lemma_prod_nonneg(self.shape.sizes@);
        }
        Ok(from_logical(out, &self.shape.sizes))
    }

    /// Pair each logical element with the matching entry of a plain
    /// sequence, in row-major order.
    pub fn zip_array<R: Copy>(&self, rhs: &[T], f: impl Fn(T, T) -> R) -> (r: Res<Tensor<R>>)
        requires
            self.inv(),
            forall|x: T, y: T| call_requires(f, (x, y)),
        ensures
            match r {
                Ok(t) => rhs@.len() == self.numel_spec() && t.sizes_spec() == self.sizes_spec()
                    && t.shape.offset == 0 && t.inv() && t.buf().len() == self.numel_spec()
                    && t.logical() == t.buf() && (forall|k: int|
                    0 <= k < self.numel_spec() ==> call_ensures(
                        f,
                        (self.logical()[k], rhs@[k]),
                        #[trigger] t.buf()[k],
                    )),
                Err(TensorError::DataLengthMismatch { data_length, tensor_size }) => rhs@.len()
                    != self.numel_spec() && data_length == rhs@.len() && tensor_size
                    == self.numel_spec(),
                Err(_) => false,
            },
    {
        let ne = self.numel();
        if rhs.len() != ne {
            return Err(
                TensorError::DataLengthMismatch { data_length: rhs.len(), tensor_size: ne },
            );
        }
        let source = self.data();
        let mut out: Vec<R> = Vec::new();
        let mut k: usize = 0;
        while k < ne
            invariant
                forall|x: T, y: T| call_requires(f, (x, y)),
                ne == source@.len(),
                rhs@.len() == ne,
                source@ == self.logical(),
                k <= ne,
                out@.len() == k as int,
                forall|j: int|
                    0 <= j < k ==> call_ensures(f, (source@[j], rhs@[j]), #[trigger] out@[j]),
            decreases ne - k,
        {
            out.push(f(source[k], rhs[k]));
            k += 1;
        }
        proof {
            lemma_prod_nonneg(self.shape.sizes@);
        }
        Ok(from_logical(out, &self.shape.sizes))
    }

    /// Pair the logical elements of two tensors of equal sizes.
    pub(crate) fn equal_zip<R: Copy>(&self, rhs: &Tensor<T>, f: impl Fn(T, T) -> R) -> (r: Res<
        Tensor<R>,
    >)
        requires
            self.inv(),
            rhs.inv(),
            self.sizes_spec() == rhs.sizes_spec(),
            forall|x: T, y: T| call_requires(f, (x, y)),
        ensures
            match r {
                Ok(t) => t.sizes_spec() == self.sizes_spec() && t.shape.offset == 0 && t.inv()
                    && t.buf().len() == self.numel_spec() && t.logical() == t.buf() && (forall|
                    k: int,
                |
                    0 <= k < self.numel_spec() ==> call_ensures(
                        f,
                        (self.logical()[k], rhs.logical()[k]),
                        #[trigger] t.buf()[k],
                    )),
                Err(_) => false,
            },
    {
        let left = self.data();
        let right = rhs.data();
        let ne = left.len();
        let mut out: Vec<R> = Vec::new();
        let mut k: usize = 0;
        while k < ne
            invariant
                forall|x: T, y: T| call_requires(f, (x, y)),
                ne == left@.len(),
                right@.len() == ne,
                left@ == self.logical(),
                right@ == rhs.logical(),
                k <= ne,
                out@.len() == k as int,
                forall|j: int|
                    0 <= j < k ==> call_ensures(f, (left@[j], right@[j]), #[trigger] out@[j]),
            decreases ne - k,
        {
            out.push(f(left[k], right[k]));
            k += 1;
        }
        proof {
            lemma_prod_nonneg(self.shape.sizes@);
        }
        Ok(from_logical(out, &self.shape.sizes))
    }
}

/// The number of elements a half-open integer progression holds: the start
/// is always included, and each further step of `step` stays below `end`.
pub open spec fn arange_len(start: int, end: int, step: int) -> int {
    if start >= end {
        1
    } else {
        (end - start - 1) / step + 1
    }
}

impl Tensor<i64> {
    /// A rank-one tensor of zeroes.
    pub fn zeroes(size: usize) -> (r: Tensor<i64>)
        ensures
            r.sizes_spec() == seq![size],
            r.buf().len() == size,
            forall|k: int| 0 <= k < size ==> r.buf()[k] == 0i64,
            r.inv(),
    {
        Tensor::same(0, size)
    }

    /// A rank-one tensor of ones.
    pub fn ones(size: usize) -> (r: Tensor<i64>)
        ensures
            r.sizes_spec() == seq![size],
            r.buf().len() == size,
            forall|k: int| 0 <= k < size ==> r.buf()[k] == 1i64,
            r.inv(),
    {
        Tensor::same(1, size)
    }

    /// An ascending progression from `start`, stepped by `step`, holding
    /// `start` and every further value below `end`.
    pub fn arange(start: i64, end: i64, step: i64) -> (r: Tensor<i64>)
        requires
            step >= 1,
            start + step <= i64::MAX,
            end - 1 + step <= i64::MAX,
            arange_len(start as int, end as int, step as int) <= usize::MAX,
        ensures
            r.sizes_spec() == seq![r.buf().len() as usize],
            r.buf().len() == arange_len(start as int, end as int, step as int),
            forall|k: int|
                0 <= k < r.buf().len() ==> #[trigger] r.buf()[k] == start + k * step,
            r.inv(),
    {
        let mut values: Vec<i64> = Vec::new();
        values.push(start);
        let mut current: i64 = start;
        if start < end {
            while current + step < end
                invariant
                    step >= 1,
                    start < end,
                    start + step <= i64::MAX,
                    end - 1 + step <= i64::MAX,
                    values@.len() >= 1,
                    current == start + (values@.len() - 1) * step,
                    start <= current < end,
                    forall|k: int|
                        0 <= k < values@.len() ==> #[trigger] values@[k] == start + k * step,
                decreases end - current,
            {
                proof {
                    vstd::arithmetic::mul::lemma_mul_is_distributive_add_other_way(
                        step as int,
                        values@.len() - 1,
                        1,
                    );
                }
                current = current + step;
                values.push(current);
            }
            proof {
                let n = values@.len() as int;
                let span = end - start;
                vstd::arithmetic::div_mod::lemma_fundamental_div_mod_converse(
                    span - 1,
                    step as int,
                    n - 1,
                    span - 1 - (n - 1) * step,
                );
                assert(arange_len(start as int, end as int, step as int) == n);
            }
        }
        proof {
            if start >= end {
                assert(values@ =~= seq![start]);
            }
        }
        let r = Tensor::new_1d(values.as_slice());
        proof {
            assert forall|k: int| 0 <= k < r.buf().len() implies #[trigger] r.buf()[k] == start
                + k * step by {
                if start >= end {
                    assert(k == 0);
                    assert(values@[0] == start);
                } else {
                    assert(values@[k] == start + k * step);
                }
            }
        }
        r
    }

    /// `num` evenly spaced values from `start` towards `end`, stepped by
    /// the truncated average increment.
    pub fn linspace(start: i64, end: i64, num: u16) -> (r: Tensor<i64>)
        requires
            num >= 2,
            start <= end,
            end - start <= i64::MAX,
        ensures
            r.sizes_spec() == seq![num as usize],
            r.buf().len() == num,
            forall|k: int|
                0 <= k < num ==> #[trigger] r.buf()[k] == start + k * ((end - start) / (num
                    - 1)),
            r.inv(),
    {
        let step: i64 = (end - start) / ((num - 1) as i64);
        proof {
            let span = end - start;
            let m = (num - 1) as int;
            vstd::arithmetic::div_mod::lemma_fundamental_div_mod(span, m);
            vstd::arithmetic::div_mod::lemma_mod_bound(span, m);
            assert(step == span / m);
            assert(m * (span / m) == (span / m) * m) by (nonlinear_arith);
            assert(step >= 0) by {
                if span / m < 0 {
                    vstd::arithmetic::mul::lemma_mul_inequality(span / m, -1, m);
                    assert((span / m) * m == m * (span / m)) by (nonlinear_arith);
                }
            }
        }
        let mut values: Vec<i64> = Vec::new();
        let mut k: u16 = 0;
        while k < num
            invariant
                num >= 2,
                start <= end,
                end - start <= i64::MAX,
                step == (end - start) / (num - 1),
                step >= 0,
                (num - 1) * step <= end - start,
                k <= num,
                values@.len() == k as int,
                forall|j: int| 0 <= j < k ==> #[trigger] values@[j] == start + j * step,
            decreases num - k,
        {
            proof {
                vstd::arithmetic::mul::lemma_mul_inequality(k as int, (num - 1) as int, step as int);
                vstd::arithmetic::mul::lemma_mul_nonnegative(k as int, step as int);
                assert(0 <= k as int * step as int <= end - start);
            }
            values.push(start + (k as i64) * step);
            k += 1;
        }
        let r = Tensor::new_1d(values.as_slice());
        proof {
            assert(r.sizes_spec() =~= seq![num as usize]);
        }
        r
    }

    /// The identity matrix of the given size.
    pub fn eye(size: usize) -> (r: Tensor<i64>)
        requires
            size * size <= usize::MAX,
        ensures
            r.sizes_spec() == seq![size, size],
            r.buf().len() == size * size,
            forall|k: int|
                0 <= k < size * size ==> #[trigger] r.buf()[k] == (if k % (size + 1) == 0 {
                    1i64
                } else {
                    0i64
                }),
            r.inv(),
    {
        proof {
            assert(size + 1 <= usize::MAX) by (nonlinear_arith)
                requires
                    size * size <= usize::MAX,
            ;
        }
        let diagonal = size + 1;
        let total = size * size;
        let mut values: Vec<i64> = Vec::new();
        let mut k: usize = 0;
        while k < total
            invariant
                diagonal == size + 1,
                total == size * size,
                k <= total,
                values@.len() == k as int,
                forall|j: int|
                    0 <= j < k ==> #[trigger] values@[j] == (if j % (size + 1) == 0 {
                        1i64
                    } else {
                        0i64
                    }),
            decreases total - k,
        {
            if k % diagonal == 0 {
                values.push(1);
            } else {
                values.push(0);
            }
            k += 1;
        }
        let mut sizes: Vec<usize> = Vec::new();
        sizes.push(size);
        sizes.push(size);
        proof {
            assert(sizes@ =~= seq![size, size]);
            assert(sizes@.skip(1) =~= seq![size]);
            assert(sizes@.skip(2) =~= Seq::<usize>::empty());
            assert(prod(Seq::<usize>::empty()) == 1);
            assert(prod(seq![size]) == size * prod(seq![size].skip(1)));
            assert(seq![size].skip(1) =~= Seq::<usize>::empty());
            assert(prod(sizes@) == size * size);
            assert forall|d: int| 0 <= d <= sizes@.len() implies prod(#[trigger] sizes@.skip(d))
                <= usize::MAX by {
                if d == 0 {
                    assert(sizes@.skip(0) =~= sizes@);
                } else if d == 1 {
                    assert(sizes@.skip(1) =~= seq![size]);
                    assert(size * 1 <= size * size || size <= 1) by (nonlinear_arith);
                } else {
                    assert(sizes@.skip(d) =~= Seq::<usize>::empty());
                }
            }
        }
        Tensor::init(values.as_slice(), sizes.as_slice())
    }
}


/// The coordinate of the right-aligned, broadcast-expanded view of a
/// tensor of sizes `s` that a broadcast-space coordinate `idx` reads:
/// missing leading dimensions are dropped, and size-one dimensions read
/// coordinate zero.
pub open spec fn bproj(s: Seq<usize>, bs: Seq<usize>, idx: Seq<int>) -> Seq<int> {
    Seq::new(s.len(), |d: int| if s[d] == 1 {
        0int
    } else {
        idx[d + bs.len() - s.len()]
    })
}

/// Reading a broadcast-expanded view at a coordinate reads the original
/// tensor at the projected coordinate.
pub proof fn lemma_broadcast_elem<T>(
    orig: Tensor<T>,
    un: Tensor<T>,
    ex: Tensor<T>,
    bs: Seq<usize>,
    idx: Seq<int>,
)
    requires
        orig.inv(),
        un.data == orig.data,
        ex.data == un.data,
        bs.len() >= orig.shape.ndims(),
        un.sizes_spec() == Seq::new(
            (bs.len() - orig.shape.ndims()) as nat,
            |d: int| 1usize,
        ) + orig.sizes_spec(),
        un.shape.strides@ == Seq::new(
            (bs.len() - orig.shape.ndims()) as nat,
            |d: int| Stride::Positive(prod(orig.sizes_spec()) as usize),
        ) + orig.shape.strides@,
        un.shape.offset == orig.shape.offset,
        ex.sizes_spec() == bs,
        ex.shape.strides@.len() == bs.len(),
        forall|d: int|
            0 <= d < bs.len() ==> #[trigger] ex.shape.strides@[d] == (if bs[d]
                == un.sizes_spec()[d] {
                un.shape.strides@[d]
            } else {
                Stride::Positive(0usize)
            }),
        forall|d: int|
            0 <= d < bs.len() ==> #[trigger] bs[d] == un.sizes_spec()[d] || un.sizes_spec()[d]
                == 1,
        ex.shape.offset == un.shape.offset,
        valid_index(bs, idx),
    ensures
        valid_index(orig.sizes_spec(), bproj(orig.sizes_spec(), bs, idx)),
        ex.elem(idx) == orig.elem(bproj(orig.sizes_spec(), bs, idx)),
{
    let n = bs.len() as int;
    let on = orig.shape.ndims();
    let k = n - on;
    let pidx = bproj(orig.sizes_spec(), bs, idx);
    assert forall|d: int| 0 <= d < on implies 0 <= #[trigger] pidx[d]
        < orig.sizes_spec()[d] by {
        if orig.sizes_spec()[d] == 1 {
        } else {
            assert(un.sizes_spec()[d + k] == orig.sizes_spec()[d]);
            assert(bs[d + k] == un.sizes_spec()[d + k] || un.sizes_spec()[d + k] == 1);
            assert(0 <= idx[d + k] < bs[d + k]);
        }
    }
    let et = delta_terms(bs, ex.shape.strides@, idx);
    let ot = delta_terms(orig.sizes_spec(), orig.shape.strides@, pidx);
    assert forall|d: int| 0 <= d < k implies #[trigger] et[d] == 0 by {
        assert(un.sizes_spec()[d] == 1);
        if bs[d] == 1 {
            assert(idx[d] == 0);
            vstd::arithmetic::mul::lemma_mul_basics(ex.shape.strides@[d].mag() as int);
        } else {
            assert(ex.shape.strides@[d] == Stride::Positive(0usize));
            vstd::arithmetic::mul::lemma_mul_basics(idx[d]);
        }
    }
    assert forall|d: int| 0 <= d < on implies et.skip(k)[d] == #[trigger] ot[d] by {
        assert(et.skip(k)[d] == et[d + k]);
        assert(un.sizes_spec()[d + k] == orig.sizes_spec()[d]);
        assert(un.shape.strides@[d + k] == orig.shape.strides@[d]);
        if bs[d + k] == un.sizes_spec()[d + k] {
            if orig.sizes_spec()[d] == 1 {
                assert(idx[d + k] == 0);
                assert(pidx[d] == 0);
            } else {
                assert(pidx[d] == idx[d + k]);
            }
        } else {
            assert(un.sizes_spec()[d + k] == 1);
            assert(pidx[d] == 0);
            assert(ex.shape.strides@[d + k] == Stride::Positive(0usize));
            vstd::arithmetic::mul::lemma_mul_basics(idx[d + k]);
            vstd::arithmetic::mul::lemma_mul_basics(orig.shape.strides@[d].mag() as int);
        }
    }
    assert(et.skip(k) =~= ot);
    crate::arith::lemma_sum_zero_prefix(et, k);
    assert(ex.shape.lin(idx) == orig.shape.lin(pidx));
}

impl<T: Copy> Tensor<T> {
    /// Pair two tensors elementwise over their broadcast result sizes:
    /// equal sizes pair directly, and size-one dimensions are stretched by
    /// magnitude-zero strides without copying.
    pub fn zip<R: Copy>(&self, rhs: &Tensor<T>, f: impl Fn(T, T) -> R) -> (r: Res<Tensor<R>>)
        requires
            self.inv(),
            rhs.inv(),
            forall|x: T, y: T| call_requires(f, (x, y)),
        ensures
            match r {
                Ok(t) => t.sizes_spec() == bcast_sizes(self.sizes_spec(), rhs.sizes_spec())
                    && t.shape.offset == 0 && t.inv() && t.buf().len() == t.numel_spec()
                    && t.logical() == t.buf() && (forall|k: int|
                    0 <= k < t.numel_spec() ==> call_ensures(
                        f,
                        (
                            self.elem(
                                bproj(
                                    self.sizes_spec(),
                                    t.sizes_spec(),
                                    unrank(t.sizes_spec(), k),
                                ),
                            ),
                            rhs.elem(
                                bproj(
                                    rhs.sizes_spec(),
                                    t.sizes_spec(),
                                    unrank(t.sizes_spec(), k),
                                ),
                            ),
                        ),
                        #[trigger] t.buf()[k],
                    )),
                Err(_) => !(forall|i: int|
                    0 <= i < bcast_len(self.sizes_spec(), rhs.sizes_spec()) ==> bcast_ok_at(
                        self.sizes_spec(),
                        rhs.sizes_spec(),
                        i,
                    )) || !fits(bcast_sizes(self.sizes_spec(), rhs.sizes_spec())),
            },
    {
        if sizes_equal(&self.shape.sizes, &rhs.shape.sizes) {
            let t = match self.equal_zip(rhs, f) {
                Ok(t) => t,
                Err(e) => {
                    proof {
                        assert(false);
                    }
                    return Err(e);
                },
            };
            proof {
                let s = self.sizes_spec();
                let n = s.len() as int;
                assert forall|i: int| 0 <= i < n implies padded_size(s, n, i) == s[i] as int by {}
                assert(bcast_sizes(s, s) =~= s);
                assert forall|k: int| 0 <= k < t.numel_spec() implies call_ensures(
                    f,
                    (
                        self.elem(bproj(s, t.sizes_spec(), unrank(t.sizes_spec(), k))),
                        rhs.elem(bproj(rhs.sizes_spec(), t.sizes_spec(), unrank(t.sizes_spec(), k))),
                    ),
                    #[trigger] t.buf()[k],
                ) by {
                    lemma_unrank_props(s, k);
                    assert(bproj(s, s, unrank(s, k)) =~= unrank(s, k));
                }
            }
            return Ok(t);
        }
        self.broadcast_zip(rhs, f)
    }

    /// Pair two tensors of different sizes by expanding both into their
    /// broadcast result sizes and walking the broadcast index space.
    pub(crate) fn broadcast_zip<R: Copy>(&self, rhs: &Tensor<T>, f: impl Fn(T, T) -> R) -> (r:
        Res<Tensor<R>>)
        requires
            self.inv(),
            rhs.inv(),
            forall|x: T, y: T| call_requires(f, (x, y)),
        ensures
            match r {
                Ok(t) => t.sizes_spec() == bcast_sizes(self.sizes_spec(), rhs.sizes_spec())
                    && t.shape.offset == 0 && t.inv() && t.buf().len() == t.numel_spec()
                    && t.logical() == t.buf() && (forall|k: int|
                    0 <= k < t.numel_spec() ==> call_ensures(
                        f,
                        (
                            self.elem(
                                bproj(
                                    self.sizes_spec(),
                                    t.sizes_spec(),
                                    unrank(t.sizes_spec(), k),
                                ),
                            ),
                            rhs.elem(
                                bproj(
                                    rhs.sizes_spec(),
                                    t.sizes_spec(),
                                    unrank(t.sizes_spec(), k),
                                ),
                            ),
                        ),
                        #[trigger] t.buf()[k],
                    )),
                Err(_) => !(forall|i: int|
                    0 <= i < bcast_len(self.sizes_spec(), rhs.sizes_spec()) ==> bcast_ok_at(
                        self.sizes_spec(),
                        rhs.sizes_spec(),
                        i,
                    )) || !fits(bcast_sizes(self.sizes_spec(), rhs.sizes_spec())),
            },
    {
        let bs = match self.shape.broadcast(&rhs.shape) {
            Ok(v) => v,
            Err(e) => {
                return Err(e);
            },
        };
        let n = bs.len();
        let lu = match self.unsqueeze(n) {
            Ok(t) => t,
            Err(e) => {
                proof {
                    assert(false);
                }
                return Err(e);
            },
        };
        let ru = match rhs.unsqueeze(n) {
            Ok(t) => t,
            Err(e) => {
                proof {
                    assert(false);
                }
                return Err(e);
            },
        };
        let lb = match lu.expand(bs.as_slice()) {
            Ok(t) => t,
            Err(e) => {
                proof {
                    match e {
                        TensorError::IncompatibleExpansion { dimension, size, target } => {
                            if dimension < lu.shape.ndims() {
                                assert(bcast_ok_at(
                                    self.sizes_spec(),
                                    rhs.sizes_spec(),
                                    dimension as int,
                                ));
                            }
                        },
                        _ => {},
                    }
                }
                return Err(e);
            },
        };
        let rb = match ru.expand(bs.as_slice()) {
            Ok(t) => t,
            Err(e) => {
                proof {
                    match e {
                        TensorError::IncompatibleExpansion { dimension, size, target } => {
                            if dimension < ru.shape.ndims() {
                                assert(bcast_ok_at(
                                    self.sizes_spec(),
                                    rhs.sizes_spec(),
                                    dimension as int,
                                ));
                            }
                        },
                        _ => {},
                    }
                }
                return Err(e);
            },
        };
        let left = lb.data();
        let right = rb.data();
        let ne = left.len();
        proof {
            assert(lb.sizes_spec() =~= bs@);
            assert(rb.sizes_spec() =~= bs@);
            lemma_prod_nonneg(bs@);
        }
        let mut out: Vec<R> = Vec::new();
        let mut k: usize = 0;
        while k < ne
            invariant
                forall|x: T, y: T| call_requires(f, (x, y)),
                ne == left@.len(),
                right@.len() == ne,
                left@ == lb.logical(),
                right@ == rb.logical(),
                lb.sizes_spec() == bs@,
                rb.sizes_spec() == bs@,
                ne == prod(bs@),
                k <= ne,
                out@.len() == k as int,
                forall|j: int|
                    0 <= j < k ==> call_ensures(f, (left@[j], right@[j]), #[trigger] out@[j]),
            decreases ne - k,
        {
            out.push(f(left[k], right[k]));
            k += 1;
        }
        proof {
            lemma_prod_nonneg(bs@);
        }
        let t = from_logical(out, &bs);
        proof {
            assert forall|k: int| 0 <= k < t.numel_spec() implies call_ensures(
                f,
                (
                    self.elem(bproj(self.sizes_spec(), t.sizes_spec(), unrank(t.sizes_spec(), k))),
                    rhs.elem(bproj(rhs.sizes_spec(), t.sizes_spec(), unrank(t.sizes_spec(), k))),
                ),
                #[trigger] t.buf()[k],
            ) by {
                lemma_unrank_props(bs@, k);
                lemma_broadcast_elem(*self, lu, lb, bs@, unrank(bs@, k));
                lemma_broadcast_elem(*rhs, ru, rb, bs@, unrank(bs@, k));
            }
        }
        Ok(t)
    }

}


/// Whether two size lists are equal entry by entry.
fn sizes_equal(a: &Vec<usize>, b: &Vec<usize>) -> (r: bool)
    ensures
        r == (a@ == b@),
{
    let n = a.len();
    if b.len() != n {
        proof {
            assert(a@ != b@);
        }
        return false;
    }
    let mut d: usize = 0;
    while d < n
        invariant
            n == a@.len(),
            b@.len() == n,
            d <= n,
            forall|j: int| 0 <= j < d ==> a@[j] == b@[j],
        decreases n - d,
    {
        if a[d] != b[d] {
            return false;
        }
        d += 1;
    }
    proof {
        assert(a@ =~= b@);
    }
    true
}


/// The position of dimension `d` in the list `dims`, where `d` occurs.
pub open spec fn dim_pos(dims: Seq<usize>, d: int) -> int {
    choose|j: int| 0 <= j < dims.len() && dims[j] == d
}

/// The full per-dimension values scattered from a dimension list: entry
/// `dims[j]` holds `vals[j]`, every other entry the default.
pub open spec fn scattered<V>(n: int, dims: Seq<usize>, vals: Seq<V>, default: V) -> Seq<V> {
    Seq::new(n as nat, |d: int| if has_dim(dims, d) {
        vals[dim_pos(dims, d)]
    } else {
        default
    })
}

/// Validate a dimension list against rank `n` and scatter the paired
/// values over the full dimension range, with a default elsewhere.
fn scatter<V: Copy>(n: usize, dims: &[usize], vals: &[V], default: V) -> (r: Res<Vec<V>>)
    ensures
        match r {
            Ok(v) => dims@.len() == vals@.len() && injective(dims@) && (forall|j: int|
                0 <= j < dims@.len() ==> #[trigger] dims@[j] < n) && v@ == scattered(
                n as int,
                dims@,
                vals@,
                default,
            ),
            Err(e) => scatter_err(n as int, dims@, vals@.len() as int, e),
        },
{
    let m = dims.len();
    if vals.len() != m {
        return Err(TensorError::DimensionCountMismatch { provided: vals.len(), expected: m });
    }
    let mut j: usize = 0;
    while j < m
        invariant
            m == dims@.len(),
            vals@.len() == m,
            j <= m,
            dims_valid_upto(dims@, n as int, j as int),
        decreases m - j,
    {
        if dims[j] >= n {
            return Err(
                TensorError::IndexOutOfRange { dimension: j, index: dims[j], size: n },
            );
        }
        let mut i: usize = 0;
        while i < j
            invariant
                m == dims@.len(),
                vals@.len() == m,
                i <= j < m,
                dims_valid_upto(dims@, n as int, j as int),
                forall|b: int| 0 <= b < i ==> dims@[b] != dims@[j as int],
            decreases j - i,
        {
            if dims[i] == dims[j] {
                proof {
                    let jj = j as int;
                    assert(0 <= i < jj && dims@[i as int] == dims@[jj]);
                    assert(dims@[jj] == dims@[jj] && (exists|b: int|
                        0 <= b < jj && dims@[b] == dims@[jj]) && dims_valid_upto(
                        dims@,
                        n as int,
                        jj,
                    ));
                }
                return Err(TensorError::DuplicateDimension { dimension: dims[j] });
            }
            i += 1;
        }
        j += 1;
    }
    let mut out: Vec<V> = Vec::new();
    let mut d: usize = 0;
    while d < n
        invariant
            d <= n,
            out@.len() == d as int,
            forall|i: int| 0 <= i < d ==> #[trigger] out@[i] == default,
        decreases n - d,
    {
        out.push(default);
        d += 1;
    }
    let mut j2: usize = 0;
    while j2 < m
        invariant
            m == dims@.len(),
            vals@.len() == m,
            forall|b: int| 0 <= b < m ==> #[trigger] dims@[b] < n,
            injective(dims@),
            j2 <= m,
            out@.len() == n as int,
            forall|b: int| 0 <= b < j2 ==> out@[dims@[b] as int] == vals@[b],
            forall|i: int|
                0 <= i < n && !(exists|b: int| 0 <= b < j2 && dims@[b] == i) ==> #[trigger] out@[i]
                    == default,
        decreases m - j2,
    {
        let target = dims[j2];
        out[target] = vals[j2];
        j2 += 1;
    }
    proof {
        let sc = scattered(n as int, dims@, vals@, default);
        assert forall|i: int| 0 <= i < n implies out@[i] == sc[i] by {
            if has_dim(dims@, i) {
                let j0 = dim_pos(dims@, i);
                assert(0 <= j0 < dims@.len() && dims@[j0] == i);
                assert(out@[dims@[j0] as int] == vals@[j0]);
            } else {
                assert(!(exists|b: int| 0 <= b < m && dims@[b] == i));
            }
        }
        assert(out@ =~= sc);
    }
    Ok(out)
}

impl<T: Copy> Tensor<T> {
    /// The element at the coordinate that pins the listed dimensions to
    /// the given indices and every other dimension to zero.
    pub fn index_dims(&self, dimensions: &[usize], indices: &[usize]) -> (r: Res<T>)
        requires
            self.inv(),
        ensures
            match r {
                Ok(v) => self.shape.valid(
                    to_ints(scattered(self.shape.ndims(), dimensions@, indices@, 0usize)),
                ) && v == self.elem(
                    to_ints(scattered(self.shape.ndims(), dimensions@, indices@, 0usize)),
                ),
                Err(e) => scatter_err(self.shape.ndims(), dimensions@, indices@.len() as int, e)
                    || crate::shape::element_post(
                    self.shape,
                    scattered(self.shape.ndims(), dimensions@, indices@, 0usize),
                    Err(e),
                ),
            },
    {
        let n = self.shape.sizes.len();
        let full = match scatter(n, dimensions, indices, 0usize) {
            Ok(v) => v,
            Err(e) => {
                return Err(e);
            },
        };
        self.index(full.as_slice())
    }

    /// Apply a function to the one element at the given coordinate,
    /// copying the logical contents first: tensors sharing the old buffer
    /// are unaffected.
    pub fn index_map(&self, f: impl Fn(T) -> T, index: &[usize]) -> (r: Res<Tensor<T>>)
        requires
            self.inv(),
            forall|x: T| call_requires(f, (x,)),
        ensures
            match r {
                Ok(t) => self.shape.valid(to_ints(index@)) && t.sizes_spec() == self.sizes_spec()
                    && t.shape.offset == 0 && t.inv() && t.logical() == t.buf() && t.buf().len()
                    == self.numel_spec() && call_ensures(
                    f,
                    (self.logical()[rank_of(self.sizes_spec(), to_ints(index@))],),
                    t.buf()[rank_of(self.sizes_spec(), to_ints(index@))],
                ) && (forall|k: int|
                    0 <= k < self.numel_spec() && k != rank_of(self.sizes_spec(), to_ints(index@))
                        ==> #[trigger] t.buf()[k] == self.logical()[k]),
                Err(e) => crate::shape::element_post(self.shape, index@, Err(e)),
            },
    {
        match self.shape.element(index) {
            Err(e) => Err(e),
            Ok(_) => {
                let idx_vec = vstd::slice::slice_to_vec(index);
                let k = rank_exec(&self.shape.sizes, &idx_vec);
                let mut buffer = self.data();
                let current = buffer[k];
                buffer[k] = f(current);
                proof {
                    lemma_prod_nonneg(self.shape.sizes@);
                }
                Ok(from_logical(buffer, &self.shape.sizes))
            },
        }
    }

    /// Apply a function to the one element at the coordinate that pins the
    /// listed dimensions, copying the logical contents first.
    pub fn index_map_dims(&self, f: impl Fn(T) -> T, dimensions: &[usize], index: &[usize]) -> (r:
        Res<Tensor<T>>)
        requires
            self.inv(),
            forall|x: T| call_requires(f, (x,)),
        ensures
            match r {
                Ok(t) => {
                    let full = to_ints(
                        scattered(self.shape.ndims(), dimensions@, index@, 0usize),
                    );
                    self.shape.valid(full) && t.sizes_spec() == self.sizes_spec()
                        && t.shape.offset == 0 && t.inv() && t.logical() == t.buf()
                        && t.buf().len() == self.numel_spec() && call_ensures(
                        f,
                        (self.logical()[rank_of(self.sizes_spec(), full)],),
                        t.buf()[rank_of(self.sizes_spec(), full)],
                    ) && (forall|k: int|
                        0 <= k < self.numel_spec() && k != rank_of(self.sizes_spec(), full)
                            ==> #[trigger] t.buf()[k] == self.logical()[k])
                },
                Err(e) => scatter_err(self.shape.ndims(), dimensions@, index@.len() as int, e)
                    || crate::shape::element_post(
                    self.shape,
                    scattered(self.shape.ndims(), dimensions@, index@, 0usize),
                    Err(e),
                ),
            },
    {
        let n = self.shape.sizes.len();
        let full = match scatter(n, dimensions, index, 0usize) {
            Ok(v) => v,
            Err(e) => {
                return Err(e);
            },
        };
        self.index_map(f, full.as_slice())
    }
}


/// The coordinate lies inside the sliced region of every dimension.
pub open spec fn in_region(
    sizes: Seq<usize>,
    ranges: Seq<(usize, usize)>,
    idx: Seq<int>,
) -> bool {
    forall|d: int|
        0 <= d < sizes.len() ==> eff_start(ranges, d) <= #[trigger] idx[d] < eff_end(
            sizes,
            ranges,
            d,
        )
}

/// The coordinate within the sliced region: the coordinate less the
/// per-dimension range starts.
pub open spec fn region_sub(ranges: Seq<(usize, usize)>, idx: Seq<int>, n: int) -> Seq<int> {
    Seq::new(n as nat, |d: int| idx[d] - eff_start(ranges, d))
}

/// The row-major position a region coordinate addresses inside the region.
pub open spec fn region_rank(
    sizes: Seq<usize>,
    ranges: Seq<(usize, usize)>,
    idx: Seq<int>,
) -> int {
    rank_of(slice_sizes(sizes, ranges), region_sub(ranges, idx, sizes.len() as int))
}

impl<T: Copy> Tensor<T> {
    /// Combine each element of the selected region with the matching entry
    /// of a plain sequence, in the region's row-major order, copying the
    /// logical contents first: tensors sharing the old buffer are
    /// unaffected.
    pub fn slice_zip(&self, rhs: &[T], f: impl Fn(T, T) -> T, ranges: &[(usize, usize)]) -> (r:
        Res<Tensor<T>>)
        requires
            self.inv(),
            forall|x: T, y: T| call_requires(f, (x, y)),
        ensures
            match r {
                Ok(t) => ranges@.len() <= self.shape.ndims() && (forall|d: int|
                    0 <= d < ranges@.len() ==> range_ok_at(self.sizes_spec(), ranges@, d))
                    && rhs@.len() == prod(slice_sizes(self.sizes_spec(), ranges@))
                    && t.sizes_spec() == self.sizes_spec() && t.shape.offset == 0 && t.inv()
                    && t.logical() == t.buf() && t.buf().len() == self.numel_spec() && (forall|
                    p: int,
                |
                    0 <= p < self.numel_spec() ==> {
                        let idx = unrank(self.sizes_spec(), p);
                        if in_region(self.sizes_spec(), ranges@, idx) {
                            call_ensures(
                                f,
                                (
                                    self.logical()[p],
                                    rhs@[region_rank(self.sizes_spec(), ranges@, idx)],
                                ),
                                #[trigger] t.buf()[p],
                            )
                        } else {
                            t.buf()[p] == self.logical()[p]
                        }
                    }),
                Err(TensorError::DataLengthMismatch { data_length, tensor_size }) => data_length
                    == rhs@.len() && tensor_size == prod(slice_sizes(self.sizes_spec(), ranges@))
                    && data_length != tensor_size,
                Err(e) => crate::shape::slice_post(self.shape, ranges@, Err(e)),
            },
    {
        let sliced = match self.shape.slice(ranges) {
            Ok(sh) => sh,
            Err(e) => {
                return Err(e);
            },
        };
        let region_count = numel_of(&sliced.sizes);
        if rhs.len() != region_count {
            return Err(
                TensorError::DataLengthMismatch {
                    data_length: rhs.len(),
                    tensor_size: region_count,
                },
            );
        }
        let ghost ssz = slice_sizes(self.sizes_spec(), ranges@);
        let ghost full_sizes = self.sizes_spec();
        let mut buffer = self.data();
        let total = self.numel();
        let n = self.shape.sizes.len();
        proof {
            lemma_prod_nonneg(full_sizes);
            lemma_prod_nonneg(ssz);
            assert forall|d: int| 0 <= d < n implies #[trigger] ssz[d] <= full_sizes[d] by {
                if d < ranges@.len() {
                    assert(range_ok_at(full_sizes, ranges@, d));
                }
                assert(ssz[d] as int == eff_end(full_sizes, ranges@, d) - eff_start(ranges@, d));
            }
            crate::arith::lemma_prod_pointwise_le(ssz, full_sizes);
            assert forall|p: int|
                0 <= p < total && in_region(full_sizes, ranges@, unrank(full_sizes, p)) implies 0
                <= region_rank(full_sizes, ranges@, #[trigger] unrank(full_sizes, p)) < prod(
                ssz,
            ) by {
                let idx = unrank(full_sizes, p);
                lemma_unrank_props(full_sizes, p);
                assert forall|dd: int| 0 <= dd < n implies 0 <= #[trigger] region_sub(
                    ranges@,
                    idx,
                    n as int,
                )[dd] < ssz[dd] by {
                    assert(eff_start(ranges@, dd) <= idx[dd] < eff_end(full_sizes, ranges@, dd));
                }
                assert(valid_index(ssz, region_sub(ranges@, idx, n as int)));
                lemma_rank_bound(ssz, region_sub(ranges@, idx, n as int));
            }
        }
        let mut j: usize = 0;
        while j < region_count
            invariant
                self.inv(),
                forall|x: T, y: T| call_requires(f, (x, y)),
                n == full_sizes.len(),
                full_sizes == self.sizes_spec(),
                ssz == slice_sizes(full_sizes, ranges@),
                sliced.sizes@ == ssz,
                ranges@.len() <= n,
                forall|d: int| 0 <= d < ranges@.len() ==> range_ok_at(full_sizes, ranges@, d),
                region_count == prod(ssz),
                rhs@.len() == region_count,
                total == self.numel_spec(),
                prod(ssz) <= prod(full_sizes),
                buffer@.len() == total,
                forall|p: int|
                    0 <= p < total && in_region(full_sizes, ranges@, unrank(full_sizes, p)) ==> 0
                        <= region_rank(full_sizes, ranges@, #[trigger] unrank(full_sizes, p))
                        < prod(ssz),
                j <= region_count,
                forall|p: int|
                    0 <= p < total ==> {
                        let idx = unrank(full_sizes, p);
                        if in_region(full_sizes, ranges@, idx) && region_rank(
                            full_sizes,
                            ranges@,
                            idx,
                        ) < j {
                            call_ensures(
                                f,
                                (
                                    self.logical()[p],
                                    rhs@[region_rank(full_sizes, ranges@, idx)],
                                ),
                                #[trigger] buffer@[p],
                            )
                        } else {
                            buffer@[p] == self.logical()[p]
                        }
                    },
            decreases region_count - j,
        {
            let sub = unrank_exec(&sliced.sizes, j);
            let mut full: Vec<usize> = Vec::new();
            let mut d: usize = 0;
            while d < n
                invariant
                    n == full_sizes.len(),
                    full_sizes == self.sizes_spec(),
                    ssz == slice_sizes(full_sizes, ranges@),
                    ranges@.len() <= n,
                    forall|dd: int|
                        0 <= dd < ranges@.len() ==> range_ok_at(full_sizes, ranges@, dd),
                    sub@.len() == n,
                    valid_index(ssz, to_ints(sub@)),
                    d <= n,
                    full@.len() == d as int,
                    forall|dd: int|
                        0 <= dd < d ==> full@[dd] as int == to_ints(sub@)[dd] + eff_start(
                            ranges@,
                            dd,
                        ),
                decreases n - d,
            {
                let start = if d < ranges.len() {
                    ranges[d].0
                } else {
                    0
                };
                proof {
                    if (d as int) < ranges@.len() {
                        assert(range_ok_at(full_sizes, ranges@, d as int));
                    }
                    assert(to_ints(sub@)[d as int] < ssz[d as int]);
                    assert(ssz[d as int] as int == eff_end(full_sizes, ranges@, d as int)
                        - eff_start(ranges@, d as int));
                    assert(eff_end(full_sizes, ranges@, d as int) <= full_sizes[d as int]);
                }
                full.push(sub[d] + start);
                d += 1;
            }
            let ghost fidx = to_ints(full@);
            proof {
                assert forall|dd: int| 0 <= dd < n implies 0 <= #[trigger] fidx[dd]
                    < full_sizes[dd] && eff_start(ranges@, dd) <= fidx[dd] < eff_end(
                    full_sizes,
                    ranges@,
                    dd,
                ) by {
                    if dd < ranges@.len() {
                        assert(range_ok_at(full_sizes, ranges@, dd));
                    }
                    assert(fidx[dd] == to_ints(sub@)[dd] + eff_start(ranges@, dd));
                    assert(0 <= to_ints(sub@)[dd] < ssz[dd]);
                    assert(ssz[dd] as int == eff_end(full_sizes, ranges@, dd) - eff_start(
                        ranges@,
                        dd,
                    ));
                    assert(eff_end(full_sizes, ranges@, dd) <= full_sizes[dd]);
                }
                assert(valid_index(full_sizes, fidx));
                assert(in_region(full_sizes, ranges@, fidx));
                assert(region_sub(ranges@, fidx, n as int) =~= to_ints(sub@));
                crate::arith::lemma_unrank_props(ssz, j as int);
                assert(region_rank(full_sizes, ranges@, fidx) == j);
            }
            let k = rank_exec(&self.shape.sizes, &full);
            let current = buffer[k];
            let updated = f(current, rhs[j]);
            proof {
                lemma_unrank_rank(full_sizes, fidx);
                assert(unrank(full_sizes, k as int) == fidx);
            }
            let ghost prev = buffer@;
            buffer[k] = updated;
            proof {
                let kk = k as int;
                assert(buffer@ == prev.update(kk, updated));
                assert(prev[kk] == self.logical()[kk]) by {
                    assert(unrank(full_sizes, kk) == fidx);
                    assert(region_rank(full_sizes, ranges@, fidx) == j);
                }
                assert forall|p: int| 0 <= p < total implies {
                    let idx = unrank(full_sizes, p);
                    if in_region(full_sizes, ranges@, idx) && region_rank(
                        full_sizes,
                        ranges@,
                        idx,
                    ) < j + 1 {
                        call_ensures(
                            f,
                            (self.logical()[p], rhs@[region_rank(full_sizes, ranges@, idx)]),
                            #[trigger] buffer@[p],
                        )
                    } else {
                        buffer@[p] == self.logical()[p]
                    }
                } by {
                    let idx = unrank(full_sizes, p);
                    lemma_unrank_props(full_sizes, p);
                    if p == kk {
                        assert(idx == fidx);
                        assert(region_rank(full_sizes, ranges@, idx) == j);
                        assert(buffer@[p] == updated);
                        assert(call_ensures(f, (current, rhs@[j as int]), updated));
                    } else {
                        assert(buffer@[p] == prev[p]);
                        if in_region(full_sizes, ranges@, idx) && region_rank(
                            full_sizes,
                            ranges@,
                            idx,
                        ) == j {
                            assert(valid_index(ssz, region_sub(ranges@, idx, n as int))) by {
                                assert forall|dd: int|
                                    0 <= dd < n implies 0 <= #[trigger] region_sub(
                                    ranges@,
                                    idx,
                                    n as int,
                                )[dd] < ssz[dd] by {
                                    assert(eff_start(ranges@, dd) <= idx[dd] < eff_end(
                                        full_sizes,
                                        ranges@,
                                        dd,
                                    ));
                                }
                            }
                            lemma_unrank_rank(ssz, region_sub(ranges@, idx, n as int));
                            assert(region_sub(ranges@, idx, n as int) == to_ints(sub@));
                            assert forall|dd: int| 0 <= dd < n implies idx[dd]
                                == #[trigger] fidx[dd] by {
                                assert(region_sub(ranges@, idx, n as int)[dd] == idx[dd]
                                    - eff_start(ranges@, dd));
                            }
                            assert(idx =~= fidx);
                            crate::arith::lemma_rank_injective(full_sizes, idx, fidx);
                            assert(false);
                        }
                    }
                }
            }
            j += 1;
        }
        Ok(from_logical(buffer, &self.shape.sizes))
    }
}


/// Exactly the validation failures a dimension-scatter can report.
pub open spec fn scatter_err(n: int, dims: Seq<usize>, vals_len: int, e: TensorError) -> bool {
    match e {
        TensorError::DimensionCountMismatch { provided, expected } => dims.len() != vals_len
            && provided == vals_len && expected == dims.len(),
        TensorError::IndexOutOfRange { dimension, index, size } => dims.len() == vals_len && 0
            <= dimension < dims.len() && index == dims[dimension as int] && index >= size && size
            == n && dims_valid_upto(dims, n, dimension as int),
        TensorError::DuplicateDimension { dimension } => dims.len() == vals_len && (exists|j: int|
            0 <= j < dims.len() && dims[j] == dimension && (exists|i: int|
                0 <= i < j && dims[i] == dims[j]) && dims_valid_upto(dims, n, j)),
        _ => false,
    }
}

/// The sizes after padding each dimension before and behind.
pub open spec fn padded_sizes(sizes: Seq<usize>, padding: Seq<(usize, usize)>) -> Seq<usize> {
    Seq::new(sizes.len(), |d: int| (sizes[d] + padding[d].0 + padding[d].1) as usize)
}

impl<T: Copy> Tensor<T> {
    /// Apply a function to every element of the selected region, copying
    /// the logical contents first: tensors sharing the old buffer are
    /// unaffected.
    pub fn slice_map(&self, f: impl Fn(T) -> T, ranges: &[(usize, usize)]) -> (r: Res<Tensor<T>>)
        requires
            self.inv(),
            forall|x: T| call_requires(f, (x,)),
        ensures
            match r {
                Ok(t) => ranges@.len() <= self.shape.ndims() && (forall|d: int|
                    0 <= d < ranges@.len() ==> range_ok_at(self.sizes_spec(), ranges@, d))
                    && t.sizes_spec() == self.sizes_spec() && t.shape.offset == 0 && t.inv()
                    && t.logical() == t.buf() && t.buf().len() == self.numel_spec() && (forall|
                    p: int,
                |
                    0 <= p < self.numel_spec() ==> {
                        let idx = unrank(self.sizes_spec(), p);
                        if in_region(self.sizes_spec(), ranges@, idx) {
                            call_ensures(f, (self.logical()[p],), #[trigger] t.buf()[p])
                        } else {
                            t.buf()[p] == self.logical()[p]
                        }
                    }),
                Err(e) => crate::shape::slice_post(self.shape, ranges@, Err(e)),
            },
    {
        let sliced = match self.shape.slice(ranges) {
            Ok(sh) => sh,
            Err(e) => {
                return Err(e);
            },
        };
        let region_count = numel_of(&sliced.sizes);
        let ghost ssz = slice_sizes(self.sizes_spec(), ranges@);
        let ghost full_sizes = self.sizes_spec();
        let mut buffer = self.data();
        let total = self.numel();
        let n = self.shape.sizes.len();
        proof {
            lemma_prod_nonneg(full_sizes);
            lemma_prod_nonneg(ssz);
            assert forall|d: int| 0 <= d < n implies #[trigger] ssz[d] <= full_sizes[d] by {
                if d < ranges@.len() {
                    assert(range_ok_at(full_sizes, ranges@, d));
                }
                assert(ssz[d] as int == eff_end(full_sizes, ranges@, d) - eff_start(ranges@, d));
            }
            crate::arith::lemma_prod_pointwise_le(ssz, full_sizes);
            assert forall|p: int|
                0 <= p < total && in_region(full_sizes, ranges@, unrank(full_sizes, p)) implies 0
                <= region_rank(full_sizes, ranges@, #[trigger] unrank(full_sizes, p)) < prod(
                ssz,
            ) by {
                let idx = unrank(full_sizes, p);
                lemma_unrank_props(full_sizes, p);
                assert forall|dd: int| 0 <= dd < n implies 0 <= #[trigger] region_sub(
                    ranges@,
                    idx,
                    n as int,
                )[dd] < ssz[dd] by {
                    assert(eff_start(ranges@, dd) <= idx[dd] < eff_end(full_sizes, ranges@, dd));
                }
                assert(valid_index(ssz, region_sub(ranges@, idx, n as int)));
                lemma_rank_bound(ssz, region_sub(ranges@, idx, n as int));
            }
        }
        let mut j: usize = 0;
        while j < region_count
            invariant
                self.inv(),
                forall|x: T| call_requires(f, (x,)),
                n == full_sizes.len(),
                full_sizes == self.sizes_spec(),
                ssz == slice_sizes(full_sizes, ranges@),
                sliced.sizes@ == ssz,
                ranges@.len() <= n,
                forall|d: int| 0 <= d < ranges@.len() ==> range_ok_at(full_sizes, ranges@, d),
                region_count == prod(ssz),
                total == self.numel_spec(),
                prod(ssz) <= prod(full_sizes),
                buffer@.len() == total,
                forall|p: int|
                    0 <= p < total && in_region(full_sizes, ranges@, unrank(full_sizes, p)) ==> 0
                        <= region_rank(full_sizes, ranges@, #[trigger] unrank(full_sizes, p))
                        < prod(ssz),
                j <= region_count,
                forall|p: int|
                    0 <= p < total ==> {
                        let idx = unrank(full_sizes, p);
                        if in_region(full_sizes, ranges@, idx) && region_rank(
                            full_sizes,
                            ranges@,
                            idx,
                        ) < j {
                            call_ensures(f, (self.logical()[p],), #[trigger] buffer@[p])
                        } else {
                            buffer@[p] == self.logical()[p]
                        }
                    },
            decreases region_count - j,
        {
            let sub = unrank_exec(&sliced.sizes, j);
            let mut full: Vec<usize> = Vec::new();
            let mut d: usize = 0;
            while d < n
                invariant
                    n == full_sizes.len(),
                    full_sizes == self.sizes_spec(),
                    ssz == slice_sizes(full_sizes, ranges@),
                    ranges@.len() <= n,
                    forall|dd: int|
                        0 <= dd < ranges@.len() ==> range_ok_at(full_sizes, ranges@, dd),
                    sub@.len() == n,
                    valid_index(ssz, to_ints(sub@)),
                    d <= n,
                    full@.len() == d as int,
                    forall|dd: int|
                        0 <= dd < d ==> full@[dd] as int == to_ints(sub@)[dd] + eff_start(
                            ranges@,
                            dd,
                        ),
                decreases n - d,
            {
                let start = if d < ranges.len() {
                    ranges[d].0
                } else {
                    0
                };
                proof {
                    if (d as int) < ranges@.len() {
                        assert(range_ok_at(full_sizes, ranges@, d as int));
                    }
                    assert(to_ints(sub@)[d as int] < ssz[d as int]);
                    assert(ssz[d as int] as int == eff_end(full_sizes, ranges@, d as int)
                        - eff_start(ranges@, d as int));
                    assert(eff_end(full_sizes, ranges@, d as int) <= full_sizes[d as int]);
                }
                full.push(sub[d] + start);
                d += 1;
            }
            let ghost fidx = to_ints(full@);
            proof {
                assert forall|dd: int| 0 <= dd < n implies 0 <= #[trigger] fidx[dd]
                    < full_sizes[dd] && eff_start(ranges@, dd) <= fidx[dd] < eff_end(
                    full_sizes,
                    ranges@,
                    dd,
                ) by {
                    if dd < ranges@.len() {
                        assert(range_ok_at(full_sizes, ranges@, dd));
                    }
                    assert(fidx[dd] == to_ints(sub@)[dd] + eff_start(ranges@, dd));
                    assert(0 <= to_ints(sub@)[dd] < ssz[dd]);
                    assert(ssz[dd] as int == eff_end(full_sizes, ranges@, dd) - eff_start(
                        ranges@,
                        dd,
                    ));
                    assert(eff_end(full_sizes, ranges@, dd) <= full_sizes[dd]);
                }
                assert(valid_index(full_sizes, fidx));
                assert(in_region(full_sizes, ranges@, fidx));
                assert(region_sub(ranges@, fidx, n as int) =~= to_ints(sub@));
                crate::arith::lemma_unrank_props(ssz, j as int);
                assert(region_rank(full_sizes, ranges@, fidx) == j);
            }
            let k = rank_exec(&self.shape.sizes, &full);
            let current = buffer[k];
            let updated = f(current);
            proof {
                lemma_unrank_rank(full_sizes, fidx);
                assert(unrank(full_sizes, k as int) == fidx);
            }
            let ghost prev = buffer@;
            buffer[k] = updated;
            proof {
                let kk = k as int;
                assert(buffer@ == prev.update(kk, updated));
                assert(prev[kk] == self.logical()[kk]) by {
                    assert(unrank(full_sizes, kk) == fidx);
                    assert(region_rank(full_sizes, ranges@, fidx) == j);
                }
                assert forall|p: int| 0 <= p < total implies {
                    let idx = unrank(full_sizes, p);
                    if in_region(full_sizes, ranges@, idx) && region_rank(
                        full_sizes,
                        ranges@,
                        idx,
                    ) < j + 1 {
                        call_ensures(f, (self.logical()[p],), #[trigger] buffer@[p])
                    } else {
                        buffer@[p] == self.logical()[p]
                    }
                } by {
                    let idx = unrank(full_sizes, p);
                    lemma_unrank_props(full_sizes, p);
                    if p == kk {
                        assert(idx == fidx);
                        assert(region_rank(full_sizes, ranges@, idx) == j);
                        assert(buffer@[p] == updated);
                        assert(call_ensures(f, (current,), updated));
                    } else {
                        assert(buffer@[p] == prev[p]);
                        if in_region(full_sizes, ranges@, idx) && region_rank(
                            full_sizes,
                            ranges@,
                            idx,
                        ) == j {
                            assert(valid_index(ssz, region_sub(ranges@, idx, n as int))) by {
                                assert forall|dd: int|
                                    0 <= dd < n implies 0 <= #[trigger] region_sub(
                                    ranges@,
                                    idx,
                                    n as int,
                                )[dd] < ssz[dd] by {
                                    assert(eff_start(ranges@, dd) <= idx[dd] < eff_end(
                                        full_sizes,
                                        ranges@,
                                        dd,
                                    ));
                                }
                            }
                            lemma_unrank_rank(ssz, region_sub(ranges@, idx, n as int));
                            assert(region_sub(ranges@, idx, n as int) == to_ints(sub@));
                            assert forall|dd: int| 0 <= dd < n implies idx[dd]
                                == #[trigger] fidx[dd] by {
                                assert(region_sub(ranges@, idx, n as int)[dd] == idx[dd]
                                    - eff_start(ranges@, dd));
                            }
                            assert(idx =~= fidx);
                            crate::arith::lemma_rank_injective(full_sizes, idx, fidx);
                            assert(false);
                        }
                    }
                }
            }
            j += 1;
        }
        Ok(from_logical(buffer, &self.shape.sizes))
    }

    /// Select a region over the listed dimensions only, leaving every other
    /// dimension at full extent, sharing the backing buffer.
    pub fn slice_dims(&self, dimensions: &[usize], ranges: &[(usize, usize)]) -> (r: Res<
        Tensor<T>,
    >)
        requires
            self.inv(),
        ensures
            match r {
                Ok(t) => t.data == self.data && t.inv() && crate::shape::slice_post(
                    self.shape,
                    scattered(self.shape.ndims(), dimensions@, ranges@, (0usize, 0usize)),
                    Ok(t.shape),
                ),
                Err(e) => scatter_err(self.shape.ndims(), dimensions@, ranges@.len() as int, e)
                    || crate::shape::slice_post(
                    self.shape,
                    scattered(self.shape.ndims(), dimensions@, ranges@, (0usize, 0usize)),
                    Err(e),
                ),
            },
    {
        let n = self.shape.sizes.len();
        let full = match scatter(n, dimensions, ranges, (0, 0)) {
            Ok(v) => v,
            Err(e) => {
                return Err(e);
            },
        };
        self.slice(full.as_slice())
    }

    /// Apply a function to the region selected over the listed dimensions
    /// only, copying the logical contents first.
    pub fn slice_map_dims(
        &self,
        f: impl Fn(T) -> T,
        dimensions: &[usize],
        ranges: &[(usize, usize)],
    ) -> (r: Res<Tensor<T>>)
        requires
            self.inv(),
            forall|x: T| call_requires(f, (x,)),
        ensures
            match r {
                Ok(t) => {
                    let full = scattered(
                        self.shape.ndims(),
                        dimensions@,
                        ranges@,
                        (0usize, 0usize),
                    );
                    t.sizes_spec() == self.sizes_spec() && t.shape.offset == 0 && t.inv()
                        && t.logical() == t.buf() && t.buf().len() == self.numel_spec() && (forall|
                        p: int,
                    |
                        0 <= p < self.numel_spec() ==> {
                            let idx = unrank(self.sizes_spec(), p);
                            if in_region(self.sizes_spec(), full, idx) {
                                call_ensures(f, (self.logical()[p],), #[trigger] t.buf()[p])
                            } else {
                                t.buf()[p] == self.logical()[p]
                            }
                        })
                },
                Err(e) => scatter_err(self.shape.ndims(), dimensions@, ranges@.len() as int, e)
                    || crate::shape::slice_post(
                    self.shape,
                    scattered(self.shape.ndims(), dimensions@, ranges@, (0usize, 0usize)),
                    Err(e),
                ),
            },
    {
        let n = self.shape.sizes.len();
        let full = match scatter(n, dimensions, ranges, (0, 0)) {
            Ok(v) => v,
            Err(e) => {
                return Err(e);
            },
        };
        self.slice_map(f, full.as_slice())
    }

    /// Combine the region selected over the listed dimensions with a plain
    /// sequence, copying the logical contents first.
    pub fn slice_zip_dims(
        &self,
        rhs: &[T],
        f: impl Fn(T, T) -> T,
        dimensions: &[usize],
        ranges: &[(usize, usize)],
    ) -> (r: Res<Tensor<T>>)
        requires
            self.inv(),
            forall|x: T, y: T| call_requires(f, (x, y)),
        ensures
            match r {
                Ok(t) => {
                    let full = scattered(
                        self.shape.ndims(),
                        dimensions@,
                        ranges@,
                        (0usize, 0usize),
                    );
                    rhs@.len() == prod(slice_sizes(self.sizes_spec(), full)) && t.sizes_spec()
                        == self.sizes_spec() && t.shape.offset == 0 && t.inv() && t.logical()
                        == t.buf() && t.buf().len() == self.numel_spec() && (forall|p: int|
                        0 <= p < self.numel_spec() ==> {
                            let idx = unrank(self.sizes_spec(), p);
                            if in_region(self.sizes_spec(), full, idx) {
                                call_ensures(
                                    f,
                                    (
                                        self.logical()[p],
                                        rhs@[region_rank(self.sizes_spec(), full, idx)],
                                    ),
                                    #[trigger] t.buf()[p],
                                )
                            } else {
                                t.buf()[p] == self.logical()[p]
                            }
                        })
                },
                Err(e) => {
                    let full = scattered(
                        self.shape.ndims(),
                        dimensions@,
                        ranges@,
                        (0usize, 0usize),
                    );
                    scatter_err(self.shape.ndims(), dimensions@, ranges@.len() as int, e) || (
                    match e {
                        TensorError::DataLengthMismatch { data_length, tensor_size } => data_length
                            == rhs@.len() && tensor_size == prod(
                            slice_sizes(self.sizes_spec(), full),
                        ) && data_length != tensor_size,
                        _ => false,
                    }) || crate::shape::slice_post(self.shape, full, Err(e))
                },
            },
    {
        let n = self.shape.sizes.len();
        let full = match scatter(n, dimensions, ranges, (0, 0)) {
            Ok(v) => v,
            Err(e) => {
                return Err(e);
            },
        };
        self.slice_zip(rhs, f, full.as_slice())
    }

    /// Surround the logical contents with a constant border: allocate the
    /// padded canonical tensor filled with the constant and copy the
    /// original contents into the interior region.
    pub fn pad(&self, constant: T, padding: &[(usize, usize)]) -> (r: Res<Tensor<T>>)
        requires
            self.inv(),
            padding@.len() == self.shape.ndims() ==> (forall|d: int|
                0 <= d < self.shape.ndims() ==> self.sizes_spec()[d] + (#[trigger] padding@[d]).0
                    + padding@[d].1 <= usize::MAX) && prod(
                padded_sizes(self.sizes_spec(), padding@),
            ) <= usize::MAX,
        ensures
            match r {
                Ok(t) => {
                    let ps = padded_sizes(self.sizes_spec(), padding@);
                    padding@.len() == self.shape.ndims() && t.sizes_spec() == ps
                        && t.shape.offset == 0 && t.inv() && t.logical() == t.buf()
                        && t.buf().len() == prod(ps) && (forall|p: int|
                        0 <= p < prod(ps) ==> {
                            let idx = unrank(ps, p);
                            if (forall|d: int|
                                0 <= d < ps.len() ==> (#[trigger] padding@[d]).0 as int <= idx[d]
                                    < padding@[d].0 + self.sizes_spec()[d]) {
                                #[trigger] t.buf()[p] == self.logical()[rank_of(
                                    self.sizes_spec(),
                                    Seq::new(
                                        ps.len(),
                                        |d: int| idx[d] - padding@[d].0,
                                    ),
                                )]
                            } else {
                                t.buf()[p] == constant
                            }
                        })
                },
                Err(TensorError::DimensionCountMismatch { provided, expected }) => padding@.len()
                    != self.shape.ndims() && provided == padding@.len() && expected
                    == self.shape.ndims(),
                Err(_) => false,
            },
    {
        let n = self.shape.sizes.len();
        if padding.len() != n {
            return Err(
                TensorError::DimensionCountMismatch { provided: padding.len(), expected: n },
            );
        }
        let ghost ps = padded_sizes(self.sizes_spec(), padding@);
        let mut padded: Vec<usize> = Vec::new();
        let mut d: usize = 0;
        while d < n
            invariant
                self.inv(),
                n == self.shape.ndims(),
                padding@.len() == n,
                forall|dd: int|
                    0 <= dd < n ==> self.sizes_spec()[dd] + (#[trigger] padding@[dd]).0
                        + padding@[dd].1 <= usize::MAX,
                ps == padded_sizes(self.sizes_spec(), padding@),
                d <= n,
                padded@.len() == d as int,
                forall|dd: int| 0 <= dd < d ==> padded@[dd] == ps[dd],
            decreases n - d,
        {
            let (before, after) = padding[d];
            padded.push(self.shape.sizes[d] + before + after);
            d += 1;
        }
        proof {
            assert(padded@ =~= ps);
        }
        let total = numel_of(&padded);
        let mut filled: Vec<T> = Vec::new();
        let mut k: usize = 0;
        while k < total
            invariant
                k <= total,
                filled@.len() == k as int,
                forall|j: int| 0 <= j < k ==> #[trigger] filled@[j] == constant,
            decreases total - k,
        {
            filled.push(constant);
            k += 1;
        }
        let base = from_logical(filled, &padded);
        let ne = self.numel();
        if ne == 0 {
            proof {
                let j = choose|j: int| 0 <= j < n && self.sizes_spec()[j] == 0;
                lemma_prod_nonneg(self.sizes_spec());
                if prod(self.sizes_spec()) == 0 {
                    lemma_prod_pos_each_converse(self.sizes_spec());
                }
                assert forall|p: int| #![trigger unrank(ps, p)]
                    0 <= p < prod(ps) implies !(forall|dd: int|
                    0 <= dd < ps.len() ==> (#[trigger] padding@[dd]).0 as int <= unrank(ps, p)[dd]
                        < padding@[dd].0 + self.sizes_spec()[dd]) by {
                    let z = choose|z: int| 0 <= z < n && self.sizes_spec()[z] == 0;
                    assert(!(padding@[z].0 as int <= unrank(ps, p)[z] < padding@[z].0
                        + self.sizes_spec()[z]));
                }
            }
            return Ok(base);
        }
        let mut ranges: Vec<(usize, usize)> = Vec::new();
        let mut e: usize = 0;
        proof {
            lemma_prod_pos_each(self.sizes_spec());
        }
        while e < n
            invariant
                self.inv(),
                n == self.shape.ndims(),
                padding@.len() == n,
                forall|dd: int|
                    0 <= dd < n ==> self.sizes_spec()[dd] + (#[trigger] padding@[dd]).0
                        + padding@[dd].1 <= usize::MAX,
                forall|dd: int| 0 <= dd < n ==> #[trigger] self.sizes_spec()[dd] >= 1,
                e <= n,
                ranges@.len() == e as int,
                forall|dd: int|
                    0 <= dd < e ==> #[trigger] ranges@[dd] == ((padding@[dd].0, (padding@[dd].0
                        + self.sizes_spec()[dd]) as usize)),
            decreases n - e,
        {
            let (before, _after) = padding[e];
            ranges.push((before, before + self.shape.sizes[e]));
            e += 1;
        }
        let source = self.data();
        let copy_in = |_a: T, b: T| -> (rr: T)
            ensures
                rr == b
            { b };
        let result = match base.slice_zip(source.as_slice(), copy_in, ranges.as_slice()) {
            Ok(t) => t,
            Err(err) => {
                proof {
                    assert forall|dd: int| 0 <= dd < n implies range_ok_at(ps, ranges@, dd) by {
                        assert(ps[dd] == self.sizes_spec()[dd] + padding@[dd].0 + padding@[dd].1);
                    }
                    assert forall|dd: int| 0 <= dd < n implies #[trigger] slice_sizes(
                        ps,
                        ranges@,
                    )[dd] == self.sizes_spec()[dd] by {
                        assert(ranges@[dd].1 == padding@[dd].0 + self.sizes_spec()[dd]);
                        assert(ranges@[dd].1 != 0);
                    }
                    assert(slice_sizes(ps, ranges@) =~= self.sizes_spec());
                    assert(false);
                }
                return Err(err);
            },
        };
        proof {
            assert forall|dd: int| 0 <= dd < n implies #[trigger] slice_sizes(ps, ranges@)[dd]
                == self.sizes_spec()[dd] by {
                assert(ranges@[dd].1 == padding@[dd].0 + self.sizes_spec()[dd]);
                assert(ranges@[dd].1 != 0);
            }
            assert(slice_sizes(ps, ranges@) =~= self.sizes_spec());
            assert forall|p: int| 0 <= p < prod(ps) implies {
                let idx = unrank(ps, p);
                if (forall|dd: int|
                    0 <= dd < ps.len() ==> (#[trigger] padding@[dd]).0 as int <= idx[dd]
                        < padding@[dd].0 + self.sizes_spec()[dd]) {
                    #[trigger] result.buf()[p] == self.logical()[rank_of(
                        self.sizes_spec(),
                        Seq::new(ps.len(), |dd: int| idx[dd] - padding@[dd].0),
                    )]
                } else {
                    result.buf()[p] == constant
                }
            } by {
                let idx = unrank(ps, p);
                let interior = forall|dd: int|
                    0 <= dd < ps.len() ==> (#[trigger] padding@[dd]).0 as int <= idx[dd]
                        < padding@[dd].0 + self.sizes_spec()[dd];
                assert forall|dd: int|
                    0 <= dd < n implies (eff_start(ranges@, dd) == padding@[dd].0 as int
                        && eff_end(ps, ranges@, dd) == padding@[dd].0
                    + self.sizes_spec()[dd]) by {
                    assert(ranges@[dd].1 == padding@[dd].0 + self.sizes_spec()[dd]);
                    assert(ranges@[dd].1 != 0);
                }
                if interior {
                    assert(in_region(ps, ranges@, idx));
                    assert(region_sub(ranges@, idx, n as int) =~= Seq::new(
                        ps.len(),
                        |dd: int| idx[dd] - padding@[dd].0,
                    ));
                } else {
                    assert(!in_region(ps, ranges@, idx)) by {
                        let bad = choose|dd: int|
                            0 <= dd < ps.len() && !((#[trigger] padding@[dd]).0 as int <= idx[dd]
                                < padding@[dd].0 + self.sizes_spec()[dd]);
                        assert(!(eff_start(ranges@, bad) <= idx[bad] < eff_end(
                            ps,
                            ranges@,
                            bad,
                        )));
                    }
                    assert(result.buf()[p] == base.logical()[p]);
                }
            }
        }
        Ok(result)
    }

    /// Surround the logical contents with a constant border over the listed
    /// dimensions only.
    pub fn pad_dims(&self, constant: T, dimensions: &[usize], padding: &[(usize, usize)]) -> (r:
        Res<Tensor<T>>)
        requires
            self.inv(),
            forall|d: int|
                0 <= d < self.shape.ndims() ==> self.sizes_spec()[d] + (#[trigger] scattered(
                    self.shape.ndims(),
                    dimensions@,
                    padding@,
                    (0usize, 0usize),
                )[d]).0 + scattered(
                    self.shape.ndims(),
                    dimensions@,
                    padding@,
                    (0usize, 0usize),
                )[d].1 <= usize::MAX,
            prod(
                padded_sizes(
                    self.sizes_spec(),
                    scattered(self.shape.ndims(), dimensions@, padding@, (0usize, 0usize)),
                ),
            ) <= usize::MAX,
        ensures
            match r {
                Ok(t) => {
                    let full = scattered(
                        self.shape.ndims(),
                        dimensions@,
                        padding@,
                        (0usize, 0usize),
                    );
                    let ps = padded_sizes(self.sizes_spec(), full);
                    t.sizes_spec() == ps && t.shape.offset == 0 && t.inv() && t.logical()
                        == t.buf() && t.buf().len() == prod(ps) && (forall|p: int|
                        0 <= p < prod(ps) ==> {
                            let idx = unrank(ps, p);
                            if (forall|d: int|
                                0 <= d < ps.len() ==> (#[trigger] full[d]).0 as int <= idx[d]
                                    < full[d].0 + self.sizes_spec()[d]) {
                                #[trigger] t.buf()[p] == self.logical()[rank_of(
                                    self.sizes_spec(),
                                    Seq::new(ps.len(), |d: int| idx[d] - full[d].0),
                                )]
                            } else {
                                t.buf()[p] == constant
                            }
                        })
                },
                Err(e) => scatter_err(self.shape.ndims(), dimensions@, padding@.len() as int, e),
            },
    {
        let n = self.shape.sizes.len();
        let full = match scatter(n, dimensions, padding, (0, 0)) {
            Ok(v) => v,
            Err(e) => {
                return Err(e);
            },
        };
        match self.pad(constant, full.as_slice()) {
            Ok(t) => Ok(t),
            Err(e) => {
                proof {
                    assert(false);
                }
                Err(e)
            },
        }
    }
}

/// A zero product over non-empty dimensions is impossible: some size must
/// be zero.
pub proof fn lemma_prod_pos_each_converse(s: Seq<usize>)
    requires
        prod(s) == 0,
    ensures
        exists|d: int| 0 <= d < s.len() && s[d] == 0,
    decreases s.len(),
{
    if s.len() == 0 {
        assert(prod(s) == 1);
    } else {
        if s[0] == 0 {
        } else {
            assert(prod(s.skip(1)) == 0) by {
                lemma_prod_nonneg(s.skip(1));
                if prod(s.skip(1)) > 0 {
                    vstd::arithmetic::mul::lemma_mul_strictly_positive(
                        s[0] as int,
                        prod(s.skip(1)),
                    );
                }
            }
            lemma_prod_pos_each_converse(s.skip(1));
            let d = choose|d: int| 0 <= d < s.skip(1).len() && s.skip(1)[d] == 0;
            assert(s[d + 1] == 0);
        }
    }
}


/// The witness sequence of a reduction: entry `k` is the sub-view the
/// reduction function was applied to for output position `k`. Each shares
/// the original buffer, and its shape pins the non-reduced coordinates of
/// `k` while the reduced dimensions keep their full extent.
pub open spec fn reduce_witnesses<T, R>(
    orig: Tensor<T>,
    dims: Seq<usize>,
    vals: Seq<R>,
    ws: Seq<Tensor<T>>,
) -> bool {
    ws.len() == vals.len() && (forall|k: int|
        0 <= k < ws.len() ==> (#[trigger] ws[k]).data == orig.data
            && crate::shape::single_slice_post(
            orig.shape,
            reduce_pins(orig.sizes_spec(), dims, k),
            Ok(ws[k].shape),
        ))
}

/// Exactly the dimension-validation failure a reduction can report.
pub open spec fn reduce_dims_err(n: int, dims: Seq<usize>, e: TensorError) -> bool {
    match e {
        TensorError::IndexOutOfRange { dimension, index, size } => 0 <= dimension < dims.len()
            && index == dims[dimension as int] && index >= size && size == n && (forall|a: int|
            0 <= a < dimension ==> #[trigger] dims[a] < n),
        _ => false,
    }
}

/// The sizes after collapsing every reduced dimension to one.
pub open spec fn kept_sizes(sizes: Seq<usize>, dims: Seq<usize>) -> Seq<usize> {
    Seq::new(sizes.len(), |d: int| if has_dim(dims, d) {
        1usize
    } else {
        sizes[d]
    })
}

/// The sizes after dropping every reduced dimension entirely; `d0` is the
/// position of the first entry within the full dimension range.
pub open spec fn dropped_sizes(sizes: Seq<usize>, dims: Seq<usize>, d0: int) -> Seq<usize>
    decreases sizes.len(),
{
    if sizes.len() == 0 {
        Seq::empty()
    } else if has_dim(dims, d0) {
        dropped_sizes(sizes.skip(1), dims, d0 + 1)
    } else {
        seq![sizes[0]] + dropped_sizes(sizes.skip(1), dims, d0 + 1)
    }
}

/// Appending one dimension extends the dropped view at the back.
pub proof fn lemma_dropped_push(sizes: Seq<usize>, dims: Seq<usize>, d0: int, x: usize)
    ensures
        dropped_sizes(sizes.push(x), dims, d0) == if has_dim(dims, d0 + sizes.len()) {
            dropped_sizes(sizes, dims, d0)
        } else {
            dropped_sizes(sizes, dims, d0).push(x)
        },
    decreases sizes.len(),
{
    if sizes.len() == 0 {
        assert(sizes.push(x).skip(1) =~= sizes);
        assert(dropped_sizes(sizes, dims, d0) =~= Seq::<usize>::empty());
        assert(dropped_sizes(sizes, dims, d0 + 1) =~= Seq::<usize>::empty());
        if has_dim(dims, d0) {
        } else {
            assert(dropped_sizes(sizes.push(x), dims, d0) == seq![x] + dropped_sizes(
                sizes,
                dims,
                d0 + 1,
            ));
            assert(seq![x] + dropped_sizes(sizes, dims, d0 + 1) =~= dropped_sizes(
                sizes,
                dims,
                d0,
            ).push(x));
        }
    } else {
        lemma_dropped_push(sizes.skip(1), dims, d0 + 1, x);
        assert(sizes.push(x).skip(1) =~= sizes.skip(1).push(x));
        assert(sizes.push(x)[0] == sizes[0]);
        if has_dim(dims, d0) {
        } else {
            if has_dim(dims, d0 + sizes.len()) {
            } else {
                assert(seq![sizes[0]] + dropped_sizes(sizes.skip(1), dims, d0 + 1).push(x)
                    =~= (seq![sizes[0]] + dropped_sizes(sizes.skip(1), dims, d0 + 1)).push(x));
            }
        }
    }
}

/// Dropping reduced dimensions keeps the collapsed element count: the
/// dropped sizes multiply to the same product as the collapsed sizes.
pub proof fn lemma_dropped_prod(sizes: Seq<usize>, dims: Seq<usize>, d0: int)
    ensures
        prod(dropped_sizes(sizes, dims, d0)) == prod(
            Seq::new(sizes.len(), |d: int| if has_dim(dims, d0 + d) {
                1usize
            } else {
                sizes[d]
            }),
        ),
    decreases sizes.len(),
{
    let k1 = Seq::new(sizes.len(), |d: int| if has_dim(dims, d0 + d) {
        1usize
    } else {
        sizes[d]
    });
    if sizes.len() == 0 {
        assert(k1 =~= Seq::<usize>::empty());
    } else {
        lemma_dropped_prod(sizes.skip(1), dims, d0 + 1);
        assert(k1.skip(1) =~= Seq::new(sizes.skip(1).len(), |d: int| if has_dim(
            dims,
            d0 + 1 + d,
        ) {
            1usize
        } else {
            sizes.skip(1)[d]
        }));
        assert(prod(k1) == k1[0] * prod(k1.skip(1)));
        if has_dim(dims, d0) {
            assert(k1[0] == 1usize);
        } else {
            let q = seq![sizes[0]] + dropped_sizes(sizes.skip(1), dims, d0 + 1);
            assert(q.skip(1) =~= dropped_sizes(sizes.skip(1), dims, d0 + 1));
            assert(prod(q) == q[0] * prod(q.skip(1)));
        }
    }
}

/// The pins that fix output position `k` of a reduction: reduced
/// dimensions stay at full extent, every other dimension is pinned to its
/// output coordinate.
pub open spec fn reduce_pins(sizes: Seq<usize>, dims: Seq<usize>, k: int) -> Seq<
    Option<usize>,
> {
    Seq::new(sizes.len(), |d: int| if has_dim(dims, d) {
        None
    } else {
        Some(unrank(kept_sizes(sizes, dims), k)[d] as usize)
    })
}

impl<T: Copy> Tensor<T> {
    /// Reduce the listed dimensions: for every combination of the other
    /// coordinates, apply `f` to the sub-view that pins those coordinates
    /// and leaves the reduced dimensions at full extent. Reduced dimensions
    /// become size one if `keepdims`, else are dropped entirely.
    pub fn reduce<R: Copy>(
        &self,
        dimensions: &[usize],
        f: impl Fn(Tensor<T>) -> Res<R>,
        keepdims: bool,
    ) -> (r: Res<Tensor<R>>)
        requires
            self.inv(),
            forall|t: Tensor<T>| call_requires(f, (t,)),
            prod(kept_sizes(self.sizes_spec(), dimensions@)) <= usize::MAX,
        ensures
            match r {
                Ok(t) => (forall|j: int|
                    0 <= j < dimensions@.len() ==> #[trigger] dimensions@[j] < self.shape.ndims())
                    && t.sizes_spec() == (if keepdims {
                    kept_sizes(self.sizes_spec(), dimensions@)
                } else {
                    dropped_sizes(self.sizes_spec(), dimensions@, 0)
                }) && t.shape.offset == 0 && t.inv() && t.logical() == t.buf() && t.buf().len()
                    == prod(kept_sizes(self.sizes_spec(), dimensions@)) && (exists|
                    ws: Seq<Tensor<T>>,
                |
                    #[trigger] reduce_witnesses(*self, dimensions@, t.buf(), ws) && (forall|k: int|
                        0 <= k < ws.len() ==> call_ensures(
                            f,
                            (ws[k],),
                            Ok(#[trigger] t.buf()[k]),
                        ))),
                Err(e) => reduce_dims_err(self.shape.ndims(), dimensions@, e) || ((forall|
                    j: int,
                |
                    0 <= j < dimensions@.len() ==> #[trigger] dimensions@[j] < self.shape.ndims())
                    && (exists|sub: Tensor<T>, k: int|
                    sub.data == self.data && 0 <= k < prod(
                        kept_sizes(self.sizes_spec(), dimensions@),
                    ) && crate::shape::single_slice_post(
                        self.shape,
                        reduce_pins(self.sizes_spec(), dimensions@, k),
                        Ok(sub.shape),
                    ) && call_ensures(f, (sub,), Err(e)))),
            },
    {
        let n = self.shape.sizes.len();
        let m = dimensions.len();
        let mut j: usize = 0;
        while j < m
            invariant
                n == self.shape.ndims(),
                m == dimensions@.len(),
                j <= m,
                forall|a: int| 0 <= a < j ==> #[trigger] dimensions@[a] < n,
            decreases m - j,
        {
            if dimensions[j] >= n {
                return Err(
                    TensorError::IndexOutOfRange {
                        dimension: j,
                        index: dimensions[j],
                        size: n,
                    },
                );
            }
            j += 1;
        }
        let ghost k1s = kept_sizes(self.sizes_spec(), dimensions@);
        let mut kept: Vec<usize> = Vec::new();
        let mut d: usize = 0;
        while d < n
            invariant
                n == self.shape.ndims(),
                k1s == kept_sizes(self.sizes_spec(), dimensions@),
                d <= n,
                kept@.len() == d as int,
                forall|dd: int| 0 <= dd < d ==> kept@[dd] == k1s[dd],
            decreases n - d,
        {
            if contains_dim(dimensions, d) {
                kept.push(1);
            } else {
                kept.push(self.shape.sizes[d]);
            }
            d += 1;
        }
        proof {
            assert(kept@ =~= k1s);
        }
        let total = numel_of(&kept);
        let mut out: Vec<R> = Vec::new();
        let ghost mut subs: Seq<Tensor<T>> = Seq::empty();
        let mut kk: usize = 0;
        while kk < total
            invariant
                self.inv(),
                forall|t: Tensor<T>| call_requires(f, (t,)),
                n == self.shape.ndims(),
                m == dimensions@.len(),
                forall|a: int| 0 <= a < m ==> #[trigger] dimensions@[a] < n,
                k1s == kept_sizes(self.sizes_spec(), dimensions@),
                kept@ == k1s,
                total == prod(k1s),
                prod(k1s) <= usize::MAX,
                kk <= total,
                out@.len() == kk as int,
                subs.len() == kk as int,
                forall|k: int|
                    0 <= k < kk ==> (#[trigger] subs[k]).data == self.data
                        && crate::shape::single_slice_post(
                        self.shape,
                        reduce_pins(self.sizes_spec(), dimensions@, k),
                        Ok(subs[k].shape),
                    ) && call_ensures(f, (subs[k],), Ok(out@[k])),
            decreases total - kk,
        {
            let idx = unrank_exec(&kept, kk);
            let mut pins: Vec<Option<usize>> = Vec::new();
            let mut e: usize = 0;
            while e < n
                invariant
                    n == self.shape.ndims(),
                    k1s == kept_sizes(self.sizes_spec(), dimensions@),
                    idx@.len() == n,
                    to_ints(idx@) == unrank(k1s, kk as int),
                    e <= n,
                    pins@.len() == e as int,
                    forall|dd: int|
                        0 <= dd < e ==> pins@[dd] == reduce_pins(
                            self.sizes_spec(),
                            dimensions@,
                            kk as int,
                        )[dd],
                decreases n - e,
            {
                if contains_dim(dimensions, e) {
                    pins.push(None);
                } else {
                    proof {
                        assert(to_ints(idx@)[e as int] == idx@[e as int] as int);
                    }
                    pins.push(Some(idx[e]));
                }
                e += 1;
            }
            let ghost rp = reduce_pins(self.sizes_spec(), dimensions@, kk as int);
            proof {
                assert(pins@ =~= rp);
                assert forall|dd: int|
                    0 <= dd < n implies (#[trigger] rp[dd] matches Some(i) ==> (i as int)
                        < self.sizes_spec()[dd]) by {
                    if !has_dim(dimensions@, dd) {
                        assert(to_ints(idx@)[dd] < k1s[dd]);
                        assert(k1s[dd] == self.sizes_spec()[dd]);
                        assert(rp[dd] == Some(idx@[dd]));
                        assert(to_ints(idx@)[dd] == idx@[dd] as int);
                    }
                }
            }
            let sub = match self.slicer(pins.as_slice()) {
                Ok(t) => t,
                Err(err) => {
                    proof {
                        assert(false);
                    }
                    return Err(err);
                },
            };
            let ghost sub_snapshot = sub;
            match f(sub) {
                Ok(v) => {
                    out.push(v);
                    proof {
                        subs = subs.push(sub_snapshot);
                    }
                },
                Err(err) => {
                    proof {
                        let kki = kk as int;
                        assert(sub_snapshot.data == self.data && 0 <= kki < prod(k1s)
                            && crate::shape::single_slice_post(
                            self.shape,
                            reduce_pins(self.sizes_spec(), dimensions@, kki),
                            Ok(sub_snapshot.shape),
                        ) && call_ensures(f, (sub_snapshot,), Err(err)));
                    }
                    return Err(err);
                },
            }
            kk += 1;
        }
        if keepdims {
            let ghost final_out = out@;
            let t = from_logical(out, &kept);
            proof {
                assert(t.buf() == final_out);
                assert(reduce_witnesses(*self, dimensions@, t.buf(), subs));
                assert forall|k2: int|
                    0 <= k2 < subs.len() implies call_ensures(
                    f,
                    (subs[k2],),
                    Ok(#[trigger] t.buf()[k2]),
                ) by {
                    assert(t.buf()[k2] == final_out[k2]);
                    assert(subs[k2].data == self.data);
                }
            }
            Ok(t)
        } else {
            let ghost ds = dropped_sizes(self.sizes_spec(), dimensions@, 0);
            let mut fin: Vec<usize> = Vec::new();
            let mut d2: usize = 0;
            proof {
                assert(self.sizes_spec().take(0) =~= Seq::<usize>::empty());
            }
            while d2 < n
                invariant
                    n == self.shape.ndims(),
                    d2 <= n,
                    fin@ == dropped_sizes(self.sizes_spec().take(d2 as int), dimensions@, 0),
                decreases n - d2,
            {
                proof {
                    lemma_dropped_push(
                        self.sizes_spec().take(d2 as int),
                        dimensions@,
                        0,
                        self.sizes_spec()[d2 as int],
                    );
                    assert(self.sizes_spec().take(d2 + 1) =~= self.sizes_spec().take(
                        d2 as int,
                    ).push(self.sizes_spec()[d2 as int]));
                }
                if !contains_dim(dimensions, d2) {
                    fin.push(self.shape.sizes[d2]);
                }
                d2 += 1;
            }
            proof {
                assert(self.sizes_spec().take(n as int) =~= self.sizes_spec());
                lemma_dropped_prod(self.sizes_spec(), dimensions@, 0);
                assert(Seq::new(self.sizes_spec().len(), |d: int| if has_dim(dimensions@, 0 + d) {
                    1usize
                } else {
                    self.sizes_spec()[d]
                }) =~= k1s);
            }
            let ghost final_out = out@;
            let t = from_logical(out, &fin);
            proof {
                assert(t.buf() == final_out);
                assert(reduce_witnesses(*self, dimensions@, t.buf(), subs));
                assert forall|k2: int|
                    0 <= k2 < subs.len() implies call_ensures(
                    f,
                    (subs[k2],),
                    Ok(#[trigger] t.buf()[k2]),
                ) by {
                    assert(t.buf()[k2] == final_out[k2]);
                    assert(subs[k2].data == self.data);
                }
            }
            Ok(t)
        }
    }
}

} // verus!
