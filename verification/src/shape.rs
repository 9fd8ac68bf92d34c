//! The shape/stride algebra: dimension sizes, per-dimension strides and a
//! base offset, mapping a logical coordinate to a linear buffer position.
//!
//! The linear offset of coordinate `idx` is
//! `offset + sum over d of strides[d].delta(idx[d], sizes[d])`.

use vstd::prelude::*;
use crate::arith::{
    fits, in_range, injective, is_permutation, lemma_prod_nonneg, lemma_prod_pos,
    lemma_prod_pos_each, lemma_prod_skip_unfold, lemma_prod_tail_le, lemma_prod_zero,
    lemma_sum_le, lemma_sum_nonneg, prod, rank_of, sum, valid_index,
};
use crate::error::{Res, TensorError};
use crate::stride::Stride;

verus! {

/// The coordinate sequence `s`, as mathematical integers.
pub open spec fn to_ints(s: Seq<usize>) -> Seq<int> {
    Seq::new(s.len(), |d: int| s[d] as int)
}

/// The per-dimension offset contributions of coordinate `idx`.
pub open spec fn delta_terms(sizes: Seq<usize>, strides: Seq<Stride>, idx: Seq<int>) -> Seq<
    int,
> {
    Seq::new(sizes.len(), |d: int| strides[d].delta(idx[d], sizes[d] as int))
}

/// The sum of per-dimension offset contributions of coordinate `idx`.
pub open spec fn sum_deltas(sizes: Seq<usize>, strides: Seq<Stride>, idx: Seq<int>) -> int {
    sum(delta_terms(sizes, strides, idx))
}

/// The per-dimension greatest offset contributions: `(size - 1) * magnitude`.
pub open spec fn reach_terms(sizes: Seq<usize>, strides: Seq<Stride>) -> Seq<int> {
    Seq::new(sizes.len(), |d: int| (sizes[d] - 1) * strides[d].mag())
}

/// The greatest offset distance any valid coordinate can travel from the
/// base offset, provided every dimension is non-empty.
pub open spec fn reach(sizes: Seq<usize>, strides: Seq<Stride>) -> int {
    sum(reach_terms(sizes, strides))
}

/// The row-major layout test between one adjacent dimension pair: the outer
/// stride equals the inner stride scaled by the inner size, where
/// magnitude-zero strides are equal regardless of direction.
pub open spec fn contig_pair(outer: Stride, inner: Stride, inner_size: usize) -> bool {
    outer.mag() as int == inner.mag() as int * inner_size as int && (outer.is_positive()
        == inner.is_positive() || outer.mag() == 0)
}

/// The contiguity test: every adjacent dimension pair passes the row-major
/// layout test. An empty-dimension shape is vacuously contiguous.
pub open spec fn is_contig(sizes: Seq<usize>, strides: Seq<Stride>) -> bool {
    forall|i: int|
        0 <= i < sizes.len() - 1 ==> contig_pair(
            #[trigger] strides[i],
            strides[i + 1],
            sizes[i + 1],
        )
}

/// The exact row-major stride derivation: every stride points in direction
/// `positive` and its magnitude is the product of all later sizes.
pub open spec fn row_major(sizes: Seq<usize>, strides: Seq<Stride>, positive: bool) -> bool {
    strides.len() == sizes.len() && forall|d: int|
        0 <= d < strides.len() ==> (#[trigger] strides[d]).is_positive() == positive
            && strides[d].mag() as int == prod(sizes.skip(d + 1))
}

/// A description of how a multi-dimensional logical index maps to a linear
/// offset into a backing buffer. A shape never owns element data.
pub struct Shape {
    pub sizes: Vec<usize>,
    pub strides: Vec<Stride>,
    pub offset: usize,
}

impl Shape {
    /// Structural well-formedness: one stride per dimension, and an element
    /// count that is machine-representable.
    pub open spec fn wf(self) -> bool {
        self.sizes@.len() == self.strides@.len() && prod(self.sizes@) <= usize::MAX
    }

    /// The shape addresses offsets within `[offset, offset + reach]` only;
    /// `bounded` asks that this window stays machine-representable whenever
    /// the shape holds any element at all.
    pub open spec fn bounded(self) -> bool {
        prod(self.sizes@) > 0 ==> self.offset + reach(self.sizes@, self.strides@) <= usize::MAX
    }

    /// The number of dimensions.
    pub open spec fn ndims(self) -> int {
        self.sizes@.len() as int
    }

    /// The number of logical elements.
    pub open spec fn numel_spec(self) -> int {
        prod(self.sizes@)
    }

    /// The linear offset addressed by coordinate `idx`.
    pub open spec fn lin(self, idx: Seq<int>) -> int {
        self.offset + sum_deltas(self.sizes@, self.strides@, idx)
    }

    /// `idx` is a coordinate of this shape's logical index space.
    pub open spec fn valid(self, idx: Seq<int>) -> bool {
        valid_index(self.sizes@, idx)
    }
}

/// Every valid coordinate's offset contribution lies in `[0, reach]`.
pub proof fn lemma_sum_deltas_bound(sizes: Seq<usize>, strides: Seq<Stride>, idx: Seq<int>)
    requires
        strides.len() == sizes.len(),
        valid_index(sizes, idx),
    ensures
        0 <= sum_deltas(sizes, strides, idx) <= reach(sizes, strides),
        forall|d: int|
            0 <= d < sizes.len() ==> 0 <= #[trigger] delta_terms(sizes, strides, idx)[d]
                <= reach_terms(sizes, strides)[d],
{
    let dt = delta_terms(sizes, strides, idx);
    let rt = reach_terms(sizes, strides);
    assert forall|d: int| 0 <= d < dt.len() implies #[trigger] dt[d] >= 0 by {
        vstd::arithmetic::mul::lemma_mul_nonnegative(idx[d], strides[d].mag() as int);
        vstd::arithmetic::mul::lemma_mul_nonnegative(
            sizes[d] - 1 - idx[d],
            strides[d].mag() as int,
        );
    }
    assert forall|d: int| 0 <= d < dt.len() implies #[trigger] dt[d] <= #[trigger] rt[d] by {
        vstd::arithmetic::mul::lemma_mul_inequality(idx[d], sizes[d] - 1, strides[d].mag() as int);
        vstd::arithmetic::mul::lemma_mul_inequality(
            sizes[d] - 1 - idx[d],
            sizes[d] - 1,
            strides[d].mag() as int,
        );
    }
    lemma_sum_nonneg(dt);
    lemma_sum_le(dt, rt);
}

/// Each single reach term is bounded by the whole reach when every
/// dimension is non-empty.
pub proof fn lemma_reach_term_le(sizes: Seq<usize>, strides: Seq<Stride>, d: int)
    requires
        strides.len() == sizes.len(),
        0 <= d < sizes.len(),
        forall|i: int| 0 <= i < sizes.len() ==> #[trigger] sizes[i] >= 1,
    ensures
        0 <= (sizes[d] - 1) * strides[d].mag() <= reach(sizes, strides),
{
    let rt = reach_terms(sizes, strides);
    assert forall|i: int| 0 <= i < rt.len() implies #[trigger] rt[i] >= 0 by {
        vstd::arithmetic::mul::lemma_mul_nonnegative(sizes[i] - 1, strides[i].mag() as int);
    }
    crate::arith::lemma_sum_term_le(rt, d);
}

/// Exact row-major strides over non-empty dimensions span exactly the
/// element count: the reach is `prod(sizes) - 1`.
pub proof fn lemma_reach_row_major(sizes: Seq<usize>, strides: Seq<Stride>, positive: bool)
    requires
        row_major(sizes, strides, positive),
        forall|i: int| 0 <= i < sizes.len() ==> #[trigger] sizes[i] >= 1,
    ensures
        reach(sizes, strides) == prod(sizes) - 1,
    decreases sizes.len(),
{
    if sizes.len() == 0 {
    } else {
        let s1 = sizes.skip(1);
        let st1 = strides.skip(1);
        assert forall|d: int|
            0 <= d < st1.len() implies (#[trigger] st1[d]).is_positive() == positive
            && st1[d].mag() as int == prod(s1.skip(d + 1)) by {
            assert(st1[d] == strides[d + 1]);
            assert(s1.skip(d + 1) =~= sizes.skip(d + 2));
        }
        assert forall|i: int| 0 <= i < s1.len() implies #[trigger] s1[i] >= 1 by {
            assert(s1[i] == sizes[i + 1]);
        }
        lemma_reach_row_major(s1, st1, positive);
        let rt = reach_terms(sizes, strides);
        assert(rt.skip(1) =~= reach_terms(s1, st1));
        crate::arith::lemma_sum_skip_unfold(rt, 0);
        assert(rt.skip(0) =~= rt);
        lemma_prod_pos(s1);
        assert(rt[0] == (sizes[0] - 1) * prod(s1));
        assert((sizes[0] - 1) * prod(s1) + prod(s1) == sizes[0] * prod(s1)) by (nonlinear_arith);
    }
}

/// Under an exact positive row-major layout, the offset contribution of a
/// valid coordinate is its row-major rank; under the all-negative layout it
/// is the mirrored rank.
pub proof fn lemma_sum_deltas_row_major(sizes: Seq<usize>, strides: Seq<Stride>, idx: Seq<int>, positive: bool)
    requires
        row_major(sizes, strides, positive),
        valid_index(sizes, idx),
    ensures
        positive ==> sum_deltas(sizes, strides, idx) == rank_of(sizes, idx),
        !positive ==> sum_deltas(sizes, strides, idx) == prod(sizes) - 1 - rank_of(sizes, idx),
    decreases sizes.len(),
{
    if sizes.len() == 0 {
        assert(delta_terms(sizes, strides, idx) =~= Seq::<int>::empty());
    } else {
        let s1 = sizes.skip(1);
        let st1 = strides.skip(1);
        let i1 = idx.skip(1);
        assert forall|d: int|
            0 <= d < st1.len() implies (#[trigger] st1[d]).is_positive() == positive
            && st1[d].mag() as int == prod(s1.skip(d + 1)) by {
            assert(st1[d] == strides[d + 1]);
            assert(s1.skip(d + 1) =~= sizes.skip(d + 2));
        }
        assert(valid_index(s1, i1));
        lemma_sum_deltas_row_major(s1, st1, i1, positive);
        let dt = delta_terms(sizes, strides, idx);
        assert(dt.skip(1) =~= delta_terms(s1, st1, i1));
        crate::arith::lemma_sum_skip_unfold(dt, 0);
        assert(dt.skip(0) =~= dt);
        let p = prod(s1);
        assert forall|i: int| 0 <= i < s1.len() implies #[trigger] s1[i] >= 1 by {
            assert(0 <= i1[i] < s1[i]);
        }
        lemma_prod_pos(s1);
        if positive {
            assert(dt[0] == idx[0] * p);
        } else {
            assert(dt[0] == (sizes[0] - 1 - idx[0]) * p);
            assert((sizes[0] - 1 - idx[0]) * p == sizes[0] * p - p - idx[0] * p)
                by (nonlinear_arith);
        }
    }
}

/// An exact row-major layout passes the contiguity test.
pub proof fn lemma_row_major_contig(sizes: Seq<usize>, strides: Seq<Stride>, positive: bool)
    requires
        row_major(sizes, strides, positive),
    ensures
        is_contig(sizes, strides),
{
    assert forall|i: int|
        0 <= i < sizes.len() - 1 implies contig_pair(
        #[trigger] strides[i],
        strides[i + 1],
        sizes[i + 1],
    ) by {
        lemma_prod_skip_unfold(sizes, i + 1);
    }
}

impl Shape {
    /// The number of dimensions.
    pub fn numdims(&self) -> (r: usize)
        ensures
            r == self.ndims(),
    {
        self.sizes.len()
    }

    /// The number of logical elements: the product of the dimension sizes.
    pub fn numel(&self) -> (r: usize)
        requires
            self.wf(),
        ensures
            r == self.numel_spec(),
    {
        numel_of(&self.sizes)
    }

    /// Derive the canonical contiguous layout: row-major strides scanned
    /// from last to first, accumulating the running size product.
    pub fn new(sizes: &[usize], offset: usize) -> (r: Shape)
        requires
            fits(sizes@),
        ensures
            r.wf(),
            r.sizes@ == sizes@,
            r.offset == offset,
            row_major(r.sizes@, r.strides@, true),
    {
        let strides = derive_strides(sizes, true);
        proof {
            assert(sizes@.skip(0) =~= sizes@);
        }
        Shape { sizes: vstd::slice::slice_to_vec(sizes), strides, offset }
    }

    /// The contiguity test of the layout: every adjacent dimension pair
    /// passes the row-major stride recurrence.
    pub fn is_contiguous(&self) -> (r: bool)
        requires
            self.sizes@.len() == self.strides@.len(),
        ensures
            r == is_contig(self.sizes@, self.strides@),
    {
        let n = self.sizes.len();
        if n == 0 {
            return true;
        }
        let mut i: usize = 0;
        while i < n - 1
            invariant
                n == self.sizes@.len(),
                self.strides@.len() == n,
                n >= 1,
                i <= n - 1,
                forall|j: int|
                    0 <= j < i ==> contig_pair(
                        #[trigger] self.strides@[j],
                        self.strides@[j + 1],
                        self.sizes@[j + 1],
                    ),
            decreases n - 1 - i,
        {
            let inner = self.strides[i + 1];
            let inner_mag = stride_mag(&inner);
            let outer = self.strides[i];
            let outer_mag = stride_mag(&outer);
            match inner_mag.checked_mul(self.sizes[i + 1]) {
                None => {
                    proof {
                        vstd::arithmetic::mul::lemma_mul_nonnegative(
                            inner.mag() as int,
                            self.sizes@[i + 1] as int,
                        );
                    }
                    return false;
                },
                Some(scaled) => {
                    if outer_mag != scaled {
                        return false;
                    }
                    let same_direction = stride_positive(&outer) == stride_positive(&inner);
                    if !(same_direction || outer_mag == 0) {
                        return false;
                    }
                },
            }
            i += 1;
        }
        true
    }

    /// The linear offset of the element at coordinate `indices`: validates
    /// the coordinate, then sums the per-dimension contributions.
    pub fn element(&self, indices: &[usize]) -> (r: Res<usize>)
        requires
            self.wf(),
            self.bounded(),
        ensures
            element_post(*self, indices@, r),
    {
        let n = self.sizes.len();
        if indices.len() != n {
            return Err(
                TensorError::DimensionCountMismatch { provided: indices.len(), expected: n },
            );
        }
        let mut d: usize = 0;
        while d < n
            invariant
                n == self.ndims(),
                indices@.len() == n,
                d <= n,
                forall|j: int| 0 <= j < d ==> indices@[j] < self.sizes@[j],
            decreases n - d,
        {
            if indices[d] >= self.sizes[d] {
                return Err(
                    TensorError::IndexOutOfRange {
                        dimension: d,
                        index: indices[d],
                        size: self.sizes[d],
                    },
                );
            }
            d += 1;
        }
        proof {
            assert(self.valid(to_ints(indices@)));
            assert forall|i: int| 0 <= i < self.sizes@.len() implies #[trigger] self.sizes@[i]
                >= 1 by {
                assert(indices@[i] < self.sizes@[i]);
            }
            lemma_prod_pos(self.sizes@);
        }
        let contribution = offset_sum(&self.sizes, &self.strides, indices);
        proof {
            lemma_sum_deltas_bound(self.sizes@, self.strides@, to_ints(indices@));
        }
        Ok(self.offset + contribution)
    }
}

/// The element count of a size list: zero if any dimension is empty, else
/// the (representable) product of the sizes.
pub fn numel_of(sizes: &Vec<usize>) -> (r: usize)
    requires
        prod(sizes@) <= usize::MAX,
    ensures
        r == prod(sizes@),
{
    let n = sizes.len();
    let mut d: usize = 0;
    while d < n
        invariant
            n == sizes@.len(),
            d <= n,
            forall|j: int| 0 <= j < d ==> #[trigger] sizes@[j] >= 1,
        decreases n - d,
    {
        if sizes[d] == 0 {
            proof {
                lemma_prod_zero(sizes@, d as int);
            }
            return 0;
        }
        d += 1;
    }
    proof {
        lemma_prod_pos(sizes@);
    }
    let r = suffix_product_slice(sizes.as_slice(), 0);
    proof {
        assert(sizes@.skip(0) =~= sizes@);
    }
    r
}

/// The product of the sizes from dimension `d` on, for a size list whose
/// tail products all fit the machine.
fn suffix_product(sizes: &[usize], d: usize) -> (r: usize)
    requires
        fits(sizes@),
        d <= sizes@.len(),
    ensures
        r == prod(sizes@.skip(d as int)),
{
    let n = sizes.len();
    let mut acc: usize = 1;
    let mut j: usize = n;
    proof {
        assert(sizes@.skip(n as int) =~= Seq::<usize>::empty());
    }
    while j > d
        invariant
            fits(sizes@),
            d <= j <= n,
            n == sizes@.len(),
            acc == prod(sizes@.skip(j as int)),
        decreases j,
    {
        proof {
            lemma_prod_skip_unfold(sizes@, j - 1);
            lemma_prod_nonneg(sizes@.skip(j as int));
        }
        acc = sizes[j - 1] * acc;
        j -= 1;
    }
    acc
}

/// The canonical stride derivation: magnitude `prod(sizes[d + 1 ..])` for
/// dimension `d`, all pointing in direction `positive`.
fn derive_strides(sizes: &[usize], positive: bool) -> (r: Vec<Stride>)
    requires
        fits(sizes@),
    ensures
        row_major(sizes@, r@, positive),
{
    let n = sizes.len();
    let mut strides: Vec<Stride> = Vec::new();
    let mut d: usize = 0;
    while d < n
        invariant
            fits(sizes@),
            n == sizes@.len(),
            d <= n,
            strides@.len() == d as int,
            forall|j: int|
                0 <= j < d ==> (#[trigger] strides@[j]).is_positive() == positive
                    && strides@[j].mag() as int == prod(sizes@.skip(j + 1)),
        decreases n - d,
    {
        let mag = suffix_product(sizes, d + 1);
        strides.push(Stride::new(mag, positive));
        d += 1;
    }
    strides
}

/// The product of the sizes from dimension `d` on, for a size list of
/// positive sizes with a representable total product.
fn suffix_product_slice(sizes: &[usize], d: usize) -> (r: usize)
    requires
        d <= sizes@.len(),
        prod(sizes@) <= usize::MAX,
        forall|i: int| 0 <= i < sizes@.len() ==> #[trigger] sizes@[i] >= 1,
    ensures
        r == prod(sizes@.skip(d as int)),
{
    let n = sizes.len();
    let mut acc: usize = 1;
    let mut j: usize = n;
    proof {
        assert(sizes@.skip(n as int) =~= Seq::<usize>::empty());
    }
    while j > d
        invariant
            d <= j <= n,
            n == sizes@.len(),
            prod(sizes@) <= usize::MAX,
            forall|i: int| 0 <= i < sizes@.len() ==> #[trigger] sizes@[i] >= 1,
            acc == prod(sizes@.skip(j as int)),
        decreases j,
    {
        proof {
            lemma_prod_skip_unfold(sizes@, j - 1);
            lemma_prod_nonneg(sizes@.skip(j as int));
            lemma_prod_tail_le(sizes@, j - 1);
        }
        acc = sizes[j - 1] * acc;
        j -= 1;
    }
    acc
}

/// The representable element count of a size list, if all its tail products
/// fit the machine.
pub fn checked_numel(sizes: &[usize]) -> (r: Option<usize>)
    ensures
        match r {
            Some(n) => fits(sizes@) && n == prod(sizes@),
            None => !fits(sizes@),
        },
{
    let n = sizes.len();
    let mut acc: usize = 1;
    let mut j: usize = n;
    proof {
        assert(sizes@.skip(n as int) =~= Seq::<usize>::empty());
    }
    while j > 0
        invariant
            j <= n,
            n == sizes@.len(),
            acc == prod(sizes@.skip(j as int)),
            forall|d: int| j <= d <= n ==> prod(#[trigger] sizes@.skip(d)) <= usize::MAX,
        decreases j,
    {
        proof {
            lemma_prod_skip_unfold(sizes@, j - 1);
            lemma_prod_nonneg(sizes@.skip(j as int));
        }
        match sizes[j - 1].checked_mul(acc) {
            Some(next) => {
                acc = next;
            },
            None => {
                proof {
                    assert(prod(sizes@.skip(j - 1)) > usize::MAX);
                }
                return None;
            },
        }
        j -= 1;
    }
    proof {
        assert(fits(sizes@));
        assert(sizes@.skip(0) =~= sizes@);
    }
    Some(acc)
}

/// The exec view of a stride's magnitude.
pub fn stride_mag(s: &Stride) -> (r: usize)
    ensures
        r == s.mag(),
{
    match s {
        Stride::Positive(m) => *m,
        Stride::Negative(m) => *m,
    }
}

/// The exec view of a stride's direction.
pub fn stride_positive(s: &Stride) -> (r: bool)
    ensures
        r == s.is_positive(),
{
    match s {
        Stride::Positive(_) => true,
        Stride::Negative(_) => false,
    }
}

/// The sum of per-dimension offset contributions of a valid coordinate.
fn offset_sum(sizes: &Vec<usize>, strides: &Vec<Stride>, indices: &[usize]) -> (r: usize)
    requires
        strides@.len() == sizes@.len(),
        valid_index(sizes@, to_ints(indices@)),
        reach(sizes@, strides@) <= usize::MAX,
    ensures
        r == sum_deltas(sizes@, strides@, to_ints(indices@)),
{
    let n = sizes.len();
    let ghost dt = delta_terms(sizes@, strides@, to_ints(indices@));
    let ghost rt = reach_terms(sizes@, strides@);
    proof {
        assert forall|i: int| 0 <= i < sizes@.len() implies #[trigger] sizes@[i] >= 1 by {
            assert(0 <= to_ints(indices@)[i] < sizes@[i]);
        }
        assert(dt.take(0) =~= Seq::<int>::empty());
    }
    let mut acc: usize = 0;
    let mut d: usize = 0;
    while d < n
        invariant
            n == sizes@.len(),
            strides@.len() == n,
            indices@.len() == n,
            valid_index(sizes@, to_ints(indices@)),
            reach(sizes@, strides@) <= usize::MAX,
            dt == delta_terms(sizes@, strides@, to_ints(indices@)),
            rt == reach_terms(sizes@, strides@),
            forall|i: int| 0 <= i < n ==> #[trigger] sizes@[i] >= 1,
            d <= n,
            acc == sum(dt.take(d as int)),
        decreases n - d,
    {
        proof {
            lemma_reach_term_le(sizes@, strides@, d as int);
            lemma_sum_deltas_bound(sizes@, strides@, to_ints(indices@));
            crate::arith::lemma_sum_take_step(dt, d as int);
            crate::arith::lemma_sum_take_bound(dt, d + 1);
            assert(dt[d as int] == strides@[d as int].delta(
                to_ints(indices@)[d as int],
                sizes@[d as int] as int,
            ));
        }
        let step = strides[d].offset(indices[d], sizes[d]);
        acc = acc + step;
        d += 1;
    }
    proof {
        assert(dt.take(n as int) =~= dt);
    }
    acc
}


/// A dimension index occurs in the list `ds`.
pub open spec fn has_dim(ds: Seq<usize>, d: int) -> bool {
    exists|j: int| 0 <= j < ds.len() && ds[j] == d
}

/// The strides of `st` with the listed dimensions' directions inverted.
pub open spec fn flipped_strides(st: Seq<Stride>, ds: Seq<usize>) -> Seq<Stride> {
    Seq::new(st.len(), |d: int| if has_dim(ds, d) {
        st[d].flip_spec()
    } else {
        st[d]
    })
}

/// The sizes left after dropping every dimension of size one.
pub open spec fn squeezed_sizes(s: Seq<usize>) -> Seq<usize>
    decreases s.len(),
{
    if s.len() == 0 {
        Seq::empty()
    } else if s[0] == 1 {
        squeezed_sizes(s.skip(1))
    } else {
        seq![s[0]] + squeezed_sizes(s.skip(1))
    }
}

/// The strides left after dropping every dimension of size one.
pub open spec fn squeezed_strides(s: Seq<usize>, st: Seq<Stride>) -> Seq<Stride>
    decreases s.len(),
{
    if s.len() == 0 {
        Seq::empty()
    } else if s[0] == 1 {
        squeezed_strides(s.skip(1), st.skip(1))
    } else {
        seq![st[0]] + squeezed_strides(s.skip(1), st.skip(1))
    }
}

/// Appending one dimension extends the squeezed views at the back.
pub proof fn lemma_squeezed_push(s: Seq<usize>, st: Seq<Stride>, x: usize, y: Stride)
    requires
        st.len() == s.len(),
    ensures
        squeezed_sizes(s.push(x)) == if x == 1 {
            squeezed_sizes(s)
        } else {
            squeezed_sizes(s).push(x)
        },
        squeezed_strides(s.push(x), st.push(y)) == if x == 1 {
            squeezed_strides(s, st)
        } else {
            squeezed_strides(s, st).push(y)
        },
    decreases s.len(),
{
    if s.len() == 0 {
        assert(s.push(x).skip(1) =~= s);
        assert(st.push(y).skip(1) =~= st);
        if x == 1 {
        } else {
            assert(squeezed_sizes(s.push(x)) == seq![x] + squeezed_sizes(s));
            assert(squeezed_sizes(s) =~= Seq::<usize>::empty());
            assert(seq![x] + squeezed_sizes(s) =~= squeezed_sizes(s).push(x));
            assert(squeezed_strides(s.push(x), st.push(y)) == seq![y] + squeezed_strides(s, st));
            assert(squeezed_strides(s, st) =~= Seq::<Stride>::empty());
            assert(seq![y] + squeezed_strides(s, st) =~= squeezed_strides(s, st).push(y));
        }
    } else {
        lemma_squeezed_push(s.skip(1), st.skip(1), x, y);
        assert(s.push(x).skip(1) =~= s.skip(1).push(x));
        assert(st.push(y).skip(1) =~= st.skip(1).push(y));
        if s[0] == 1 {
        } else {
            if x == 1 {
                assert(squeezed_sizes(s.push(x)) =~= squeezed_sizes(s));
                assert(squeezed_strides(s.push(x), st.push(y)) =~= squeezed_strides(s, st));
            } else {
                assert(squeezed_sizes(s.push(x)) =~= squeezed_sizes(s).push(x));
                assert(squeezed_strides(s.push(x), st.push(y)) =~= squeezed_strides(s, st).push(
                    y,
                ));
            }
        }
    }
}

/// Dropping size-one dimensions keeps the element count.
pub proof fn lemma_squeezed_prod(s: Seq<usize>)
    ensures
        prod(squeezed_sizes(s)) == prod(s),
        squeezed_sizes(s).len() <= s.len(),
    decreases s.len(),
{
    if s.len() > 0 {
        lemma_squeezed_prod(s.skip(1));
        if s[0] == 1 {
        } else {
            let q = seq![s[0]] + squeezed_sizes(s.skip(1));
            assert(q.skip(1) =~= squeezed_sizes(s.skip(1)));
            assert(prod(q) == q[0] * prod(q.skip(1)));
        }
    }
}

/// Dropping size-one dimensions keeps the reach and pairs sizes with their
/// strides.
pub proof fn lemma_squeezed_reach(s: Seq<usize>, st: Seq<Stride>)
    requires
        st.len() == s.len(),
    ensures
        squeezed_strides(s, st).len() == squeezed_sizes(s).len(),
        reach(squeezed_sizes(s), squeezed_strides(s, st)) == reach(s, st),
    decreases s.len(),
{
    if s.len() > 0 {
        lemma_squeezed_reach(s.skip(1), st.skip(1));
        let rt = reach_terms(s, st);
        assert(rt.skip(1) =~= reach_terms(s.skip(1), st.skip(1)));
        crate::arith::lemma_sum_skip_unfold(rt, 0);
        assert(rt.skip(0) =~= rt);
        if s[0] == 1 {
            assert(rt[0] == (s[0] - 1) * st[0].mag());
            vstd::arithmetic::mul::lemma_mul_basics(st[0].mag() as int);
            assert(rt[0] == 0);
        } else {
            let qs = seq![s[0]] + squeezed_sizes(s.skip(1));
            let qt = seq![st[0]] + squeezed_strides(s.skip(1), st.skip(1));
            let qrt = reach_terms(qs, qt);
            assert(qrt.skip(1) =~= reach_terms(
                squeezed_sizes(s.skip(1)),
                squeezed_strides(s.skip(1), st.skip(1)),
            ));
            crate::arith::lemma_sum_skip_unfold(qrt, 0);
            assert(qrt.skip(0) =~= qrt);
            assert(qrt[0] == rt[0]);
        }
    }
}

impl Shape {
    /// The shared direction of a uniform layout: the first dimension's
    /// direction, positive for a dimensionless shape.
    pub open spec fn uniform_dir(self) -> bool {
        self.ndims() == 0 || self.strides@[0].is_positive()
    }

    /// Whether this layout is the exact row-major derivation in direction
    /// `positive`.
    pub fn is_row_major_dir(&self, positive: bool) -> (r: bool)
        requires
            self.sizes@.len() == self.strides@.len(),
        ensures
            r == row_major(self.sizes@, self.strides@, positive),
    {
        let n = self.sizes.len();
        let mut acc: usize = 1;
        let mut j: usize = n;
        proof {
            assert(self.sizes@.skip(n as int) =~= Seq::<usize>::empty());
        }
        while j > 0
            invariant
                j <= n,
                n == self.sizes@.len(),
                self.strides@.len() == n,
                acc == prod(self.sizes@.skip(j as int)),
                forall|d: int|
                    j <= d < n ==> (#[trigger] self.strides@[d]).is_positive() == positive
                        && self.strides@[d].mag() as int == prod(self.sizes@.skip(d + 1)),
            decreases j,
        {
            let st = self.strides[j - 1];
            if stride_positive(&st) != positive {
                return false;
            }
            if stride_mag(&st) != acc {
                return false;
            }
            proof {
                lemma_prod_skip_unfold(self.sizes@, j - 1);
                lemma_prod_nonneg(self.sizes@.skip(j as int));
            }
            match self.sizes[j - 1].checked_mul(acc) {
                Some(next) => {
                    acc = next;
                },
                None => {
                    if j == 1 {
                        return true;
                    }
                    proof {
                        assert(prod(self.sizes@.skip(j - 1)) > usize::MAX);
                        assert(self.strides@[j - 2].mag() as int <= usize::MAX);
                    }
                    return false;
                },
            }
            j -= 1;
        }
        true
    }

    /// Reinterpret the same element sequence, read in the current direction
    /// of the first dimension, under new dimension sizes. Valid only when
    /// the element counts agree and the source layout is an exact uniform
    /// row-major derivation; any other reinterpretation must materialize.
    pub fn view(&self, sizes: &[usize]) -> (r: Res<Shape>)
        requires
            self.wf(),
        ensures
            view_post(*self, sizes@, r),
    {
        let ne = self.numel();
        match checked_numel(sizes) {
            None => Err(TensorError::ReshapeMismatch { data_length: ne, new_length: usize::MAX }),
            Some(nn) => {
                if nn != ne {
                    return Err(TensorError::ReshapeMismatch { data_length: ne, new_length: nn });
                }
                let positive = if self.sizes.len() == 0 {
                    true
                } else {
                    stride_positive(&self.strides[0])
                };
                if !self.is_row_major_dir(positive) {
                    return Err(TensorError::ReshapeMismatch { data_length: ne, new_length: nn });
                }
                let strides = derive_strides(sizes, positive);
                proof {
                    assert(sizes@.skip(0) =~= sizes@);
                }
                Ok(Shape { sizes: vstd::slice::slice_to_vec(sizes), strides, offset: self.offset })
            },
        }
    }

    /// Drop every size-one dimension; a shape holding exactly one element
    /// collapses to a single size-one dimension, never to zero dimensions.
    pub fn squeeze(&self) -> (r: Shape)
        requires
            self.wf(),
        ensures
            r.offset == self.offset,
            r.wf(),
            self.numel_spec() == 1 ==> r.sizes@ == seq![1usize] && row_major(
                r.sizes@,
                r.strides@,
                true,
            ),
            self.numel_spec() != 1 ==> r.sizes@ == squeezed_sizes(self.sizes@) && r.strides@
                == squeezed_strides(self.sizes@, self.strides@),
            r.numel_spec() == self.numel_spec() || self.numel_spec() == 1,
    {
        let ne = self.numel();
        if ne == 1 {
            let mut one_size: Vec<usize> = Vec::new();
            one_size.push(1);
            let mut one_stride: Vec<Stride> = Vec::new();
            one_stride.push(Stride::Positive(1));
            proof {
                assert(one_size@ =~= seq![1usize]);
                assert(one_size@.skip(1) =~= Seq::<usize>::empty());
                assert(prod(Seq::<usize>::empty()) == 1);
                assert(prod(one_size@) == 1);
            }
            return Shape { sizes: one_size, strides: one_stride, offset: self.offset };
        }
        let n = self.sizes.len();
        let mut new_sizes: Vec<usize> = Vec::new();
        let mut new_strides: Vec<Stride> = Vec::new();
        let mut d: usize = 0;
        proof {
            assert(self.sizes@.take(0) =~= Seq::<usize>::empty());
            assert(self.strides@.take(0) =~= Seq::<Stride>::empty());
        }
        while d < n
            invariant
                n == self.sizes@.len(),
                self.strides@.len() == n,
                d <= n,
                new_sizes@ == squeezed_sizes(self.sizes@.take(d as int)),
                new_strides@ == squeezed_strides(
                    self.sizes@.take(d as int),
                    self.strides@.take(d as int),
                ),
            decreases n - d,
        {
            proof {
                lemma_squeezed_push(
                    self.sizes@.take(d as int),
                    self.strides@.take(d as int),
                    self.sizes@[d as int],
                    self.strides@[d as int],
                );
                assert(self.sizes@.take(d + 1) =~= self.sizes@.take(d as int).push(
                    self.sizes@[d as int],
                ));
                assert(self.strides@.take(d + 1) =~= self.strides@.take(d as int).push(
                    self.strides@[d as int],
                ));
            }
            if self.sizes[d] != 1 {
                new_sizes.push(self.sizes[d]);
                new_strides.push(self.strides[d]);
            }
            d += 1;
        }
        proof {
            assert(self.sizes@.take(n as int) =~= self.sizes@);
            assert(self.strides@.take(n as int) =~= self.strides@);
            lemma_squeezed_prod(self.sizes@);
            lemma_squeezed_reach(self.sizes@, self.strides@);
        }
        Shape { sizes: new_sizes, strides: new_strides, offset: self.offset }
    }

    /// Invert the direction of each listed dimension's stride, touching
    /// neither magnitudes nor the buffer; fails on a repeated dimension.
    pub fn flip(&self, flips: &[usize]) -> (r: Res<Shape>)
        requires
            self.wf(),
        ensures
            flip_post(*self, flips@, r),
    {
        let m = flips.len();
        let mut j: usize = 0;
        while j < m
            invariant
                m == flips@.len(),
                j <= m,
                forall|a: int, b: int| 0 <= a < b < j ==> flips@[a] != flips@[b],
            decreases m - j,
        {
            let mut i: usize = 0;
            while i < j
                invariant
                    m == flips@.len(),
                    i <= j < m,
                    forall|a: int| 0 <= a < i ==> flips@[a] != flips@[j as int],
                decreases j - i,
            {
                if flips[i] == flips[j] {
                    return Err(TensorError::DuplicateDimension { dimension: flips[j] });
                }
                i += 1;
            }
            j += 1;
        }
        let n = self.sizes.len();
        let mut new_strides: Vec<Stride> = Vec::new();
        let mut d: usize = 0;
        while d < n
            invariant
                n == self.sizes@.len(),
                self.strides@.len() == n,
                d <= n,
                new_strides@.len() == d as int,
                forall|i: int| 0 <= i < d ==> new_strides@[i] == flipped_strides(
                    self.strides@,
                    flips@,
                )[i],
            decreases n - d,
        {
            if contains_dim(flips, d) {
                new_strides.push(self.strides[d].flipped());
            } else {
                new_strides.push(self.strides[d]);
            }
            d += 1;
        }
        proof {
            assert(new_strides@ =~= flipped_strides(self.strides@, flips@));
        }
        Ok(Shape { sizes: clone_sizes(&self.sizes), strides: new_strides, offset: self.offset })
    }

    /// Pad with leading size-one dimensions until the rank is `target`.
    pub fn unsqueeze(&self, target: usize) -> (r: Res<Shape>)
        requires
            self.wf(),
        ensures
            unsqueeze_post(*self, target, r),
    {
        let n = self.sizes.len();
        if target < n {
            return Err(TensorError::DimensionCountMismatch { provided: target, expected: n });
        }
        let ne = self.numel();
        let k = target - n;
        let mut new_sizes: Vec<usize> = Vec::new();
        let mut new_strides: Vec<Stride> = Vec::new();
        let mut d: usize = 0;
        while d < k
            invariant
                d <= k,
                new_sizes@ =~= Seq::new(d as nat, |i: int| 1usize),
                new_strides@ =~= Seq::new(d as nat, |i: int| Stride::Positive(ne)),
                ne == prod(self.sizes@),
            decreases k - d,
        {
            new_sizes.push(1);
            new_strides.push(Stride::Positive(ne));
            proof {
                assert(new_sizes@ =~= Seq::new((d + 1) as nat, |i: int| 1usize));
                assert(new_strides@ =~= Seq::new((d + 1) as nat, |i: int| Stride::Positive(ne)));
            }
            d += 1;
        }
        let mut e: usize = 0;
        while e < n
            invariant
                e <= n,
                n == self.sizes@.len(),
                self.strides@.len() == n,
                ne == prod(self.sizes@),
                new_sizes@ =~= Seq::new(k as nat, |i: int| 1usize) + self.sizes@.take(e as int),
                new_strides@ =~= Seq::new(k as nat, |i: int| Stride::Positive(ne))
                    + self.strides@.take(e as int),
            decreases n - e,
        {
            new_sizes.push(self.sizes[e]);
            new_strides.push(self.strides[e]);
            proof {
                assert(new_sizes@ =~= Seq::new(k as nat, |i: int| 1usize) + self.sizes@.take(
                    e + 1,
                ));
                assert(new_strides@ =~= Seq::new(k as nat, |i: int| Stride::Positive(ne))
                    + self.strides@.take(e + 1));
            }
            e += 1;
        }
        proof {
            assert(self.sizes@.take(n as int) =~= self.sizes@);
            assert(self.strides@.take(n as int) =~= self.strides@);
            crate::arith::lemma_prod_ones_prepend(k as nat, self.sizes@);
        }
        Ok(Shape { sizes: new_sizes, strides: new_strides, offset: self.offset })
    }
}

/// Whether the dimension `d` occurs in the list `ds`.
pub(crate) fn contains_dim(ds: &[usize], d: usize) -> (r: bool)
    ensures
        r == has_dim(ds@, d as int),
{
    let m = ds.len();
    let mut j: usize = 0;
    while j < m
        invariant
            m == ds@.len(),
            j <= m,
            forall|i: int| 0 <= i < j ==> ds@[i] != d,
        decreases m - j,
    {
        if ds[j] == d {
            return true;
        }
        j += 1;
    }
    false
}

/// A copy of a size list.
pub(crate) fn clone_sizes(sizes: &Vec<usize>) -> (r: Vec<usize>)
    ensures
        r@ == sizes@,
{
    let n = sizes.len();
    let mut out: Vec<usize> = Vec::new();
    let mut d: usize = 0;
    while d < n
        invariant
            n == sizes@.len(),
            d <= n,
            out@ =~= sizes@.take(d as int),
        decreases n - d,
    {
        out.push(sizes[d]);
        proof {
            assert(out@ =~= sizes@.take(d + 1));
        }
        d += 1;
    }
    proof {
        assert(sizes@.take(n as int) =~= sizes@);
    }
    out
}


/// The dimensions before `j` are in range and pairwise distinct.
pub open spec fn dims_valid_upto(p: Seq<usize>, n: int, j: int) -> bool {
    forall|a: int|
        0 <= a < j ==> #[trigger] p[a] < n && (forall|b: int| 0 <= b < a ==> p[b] != #[trigger] p[a])
}

impl Shape {
    /// Reorder the dimensions by the given permutation: entry `d` of the
    /// result is dimension `permutation[d]` of the source.
    pub fn permute(&self, permutation: &[usize]) -> (r: Res<Shape>)
        requires
            self.wf(),
        ensures
            permute_post(*self, permutation@, r),
    {
        let n = self.sizes.len();
        if permutation.len() != n {
            return Err(
                TensorError::DimensionCountMismatch { provided: permutation.len(), expected: n },
            );
        }
        let mut j: usize = 0;
        while j < n
            invariant
                n == self.ndims(),
                permutation@.len() == n,
                j <= n,
                dims_valid_upto(permutation@, n as int, j as int),
            decreases n - j,
        {
            if permutation[j] >= n {
                return Err(
                    TensorError::IndexOutOfRange {
                        dimension: j,
                        index: permutation[j],
                        size: n,
                    },
                );
            }
            let mut i: usize = 0;
            while i < j
                invariant
                    n == self.ndims(),
                    permutation@.len() == n,
                    i <= j < n,
                    dims_valid_upto(permutation@, n as int, j as int),
                    forall|b: int| 0 <= b < i ==> permutation@[b] != permutation@[j as int],
                decreases j - i,
            {
                if permutation[i] == permutation[j] {
                    proof {
                        let jj = j as int;
                        assert(0 <= i < jj && permutation@[i as int] == permutation@[jj]);
                        assert(permutation@[jj] == permutation@[jj] && (exists|b: int|
                            0 <= b < jj && permutation@[b] == permutation@[jj]) && dims_valid_upto(
                            permutation@,
                            self.ndims(),
                            jj,
                        ));
                    }
                    return Err(
                        TensorError::DuplicateDimension { dimension: permutation[j] },
                    );
                }
                i += 1;
            }
            j += 1;
        }
        let mut new_sizes: Vec<usize> = Vec::new();
        let mut new_strides: Vec<Stride> = Vec::new();
        let mut d: usize = 0;
        while d < n
            invariant
                n == self.ndims(),
                self.strides@.len() == n,
                permutation@.len() == n,
                in_range(permutation@, n as int),
                d <= n,
                new_sizes@.len() == d as int,
                new_strides@.len() == d as int,
                forall|i: int|
                    0 <= i < d ==> new_sizes@[i] == self.sizes@[permutation@[i] as int]
                        && new_strides@[i] == self.strides@[permutation@[i] as int],
            decreases n - d,
        {
            new_sizes.push(self.sizes[permutation[d]]);
            new_strides.push(self.strides[permutation[d]]);
            d += 1;
        }
        proof {
            let p = permutation@;
            let ns = Seq::new(self.sizes@.len(), |i: int| self.sizes@[p[i] as int]);
            let nt = Seq::new(self.sizes@.len(), |i: int| self.strides@[p[i] as int]);
            assert(new_sizes@ =~= ns);
            assert(new_strides@ =~= nt);
            assert(is_permutation(p, n as int));
            crate::arith::lemma_prod_newseq_sel(self.sizes@, p);
            crate::arith::lemma_prod_sel_permutation(self.sizes@, p);
            let rt = reach_terms(self.sizes@, self.strides@);
            crate::arith::lemma_sum_newseq_sel(rt, p);
            crate::arith::lemma_sum_sel_permutation(rt, p);
            assert(reach_terms(ns, nt) =~= Seq::new(p.len(), |i: int| rt[p[i] as int]));
        }
        Ok(Shape { sizes: new_sizes, strides: new_strides, offset: self.offset })
    }

    /// Swap two dimensions: a permutation exchanging `dim_1` and `dim_2`.
    pub fn transpose(&self, dim_1: usize, dim_2: usize) -> (r: Res<Shape>)
        requires
            self.wf(),
        ensures
            transpose_post(*self, dim_1, dim_2, r),
    {
        let n = self.sizes.len();
        if dim_1 >= n {
            return Err(TensorError::IndexOutOfRange { dimension: dim_1, index: dim_1, size: n });
        }
        if dim_2 >= n {
            return Err(TensorError::IndexOutOfRange { dimension: dim_2, index: dim_2, size: n });
        }
        let mut p: Vec<usize> = Vec::new();
        let mut d: usize = 0;
        while d < n
            invariant
                d <= n,
                p@.len() == d as int,
                forall|i: int|
                    0 <= i < d ==> #[trigger] p@[i] == (if i == dim_1 as int {
                        dim_2 as int
                    } else if i == dim_2 as int {
                        dim_1 as int
                    } else {
                        i
                    }),
            decreases n - d,
        {
            if d == dim_1 {
                p.push(dim_2);
            } else if d == dim_2 {
                p.push(dim_1);
            } else {
                p.push(d);
            }
            d += 1;
        }
        proof {
            assert forall|a: int, b: int| 0 <= a < b < p@.len() implies #[trigger] p@[a]
                != #[trigger] p@[b] by {}
            assert(is_permutation(p@, n as int));
        }
        match self.permute(p.as_slice()) {
            Ok(sh) => {
                proof {
                    let ns = self.sizes@.update(dim_1 as int, self.sizes@[dim_2 as int]).update(
                        dim_2 as int,
                        self.sizes@[dim_1 as int],
                    );
                    let nt = self.strides@.update(dim_1 as int, self.strides@[dim_2 as int]).update(
                        dim_2 as int,
                        self.strides@[dim_1 as int],
                    );
                    assert(sh.sizes@ =~= ns);
                    assert(sh.strides@ =~= nt);
                }
                Ok(sh)
            },
            Err(e) => {
                proof {
                    assert(false);
                }
                Err(e)
            },
        }
    }

    /// Stretch size-one dimensions to the target sizes using magnitude-zero
    /// strides; every other dimension must already match its target.
    pub fn expand(&self, expansions: &[usize]) -> (r: Res<Shape>)
        requires
            self.wf(),
        ensures
            expand_post(*self, expansions@, r),
    {
        let n = self.sizes.len();
        let mut same: bool = expansions.len() == n;
        let mut d: usize = 0;
        while d < n && same
            invariant
                n == self.ndims(),
                d <= n,
                same ==> expansions@.len() == n && (forall|i: int|
                    0 <= i < d ==> #[trigger] expansions@[i] == self.sizes@[i]),
                !same ==> self.sizes@ != expansions@,
            decreases n - d,
        {
            if expansions.len() != n || expansions[d] != self.sizes[d] {
                same = false;
            }
            d += 1;
        }
        if same {
            proof {
                assert(self.sizes@ =~= expansions@);
            }
            return Ok(
                Shape {
                    sizes: clone_sizes(&self.sizes),
                    strides: clone_strides(&self.strides),
                    offset: self.offset,
                },
            );
        }
        if expansions.len() != n {
            return Err(
                TensorError::DimensionCountMismatch { provided: expansions.len(), expected: n },
            );
        }
        let mut e: usize = 0;
        while e < n
            invariant
                n == self.ndims(),
                expansions@.len() == n,
                e <= n,
                forall|i: int|
                    0 <= i < e ==> #[trigger] expansions@[i] == self.sizes@[i] || self.sizes@[i]
                        == 1,
            decreases n - e,
        {
            if expansions[e] != self.sizes[e] && self.sizes[e] != 1 {
                return Err(
                    TensorError::IncompatibleExpansion {
                        dimension: e,
                        size: self.sizes[e],
                        target: expansions[e],
                    },
                );
            }
            e += 1;
        }
        match checked_numel(expansions) {
            None => Err(TensorError::IncompatibleExpansion { dimension: n, size: 0, target: 0 }),
            Some(_) => {
                let mut new_strides: Vec<Stride> = Vec::new();
                let mut k: usize = 0;
                while k < n
                    invariant
                        n == self.ndims(),
                        self.strides@.len() == n,
                        expansions@.len() == n,
                        k <= n,
                        new_strides@.len() == k as int,
                        forall|i: int|
                            0 <= i < k ==> new_strides@[i] == (if expansions@[i] == self.sizes@[i] {
                                self.strides@[i]
                            } else {
                                Stride::Positive(0usize)
                            }),
                    decreases n - k,
                {
                    if expansions[k] == self.sizes[k] {
                        new_strides.push(self.strides[k]);
                    } else {
                        new_strides.push(Stride::Positive(0));
                    }
                    k += 1;
                }
                proof {
                    let nt = Seq::new(
                        self.sizes@.len(),
                        |d: int|
                            if expansions@[d] == self.sizes@[d] {
                                self.strides@[d]
                            } else {
                                Stride::Positive(0usize)
                            },
                    );
                    assert(new_strides@ =~= nt);
                    assert(expansions@.skip(0) =~= expansions@);
                    let rt_old = reach_terms(self.sizes@, self.strides@);
                    let rt_new = reach_terms(expansions@, nt);
                    assert forall|d: int| 0 <= d < n implies #[trigger] rt_new[d] == rt_old[d] by {
                        if expansions@[d] == self.sizes@[d] {
                        } else {
                            vstd::arithmetic::mul::lemma_mul_basics(
                                self.strides@[d].mag() as int,
                            );
                            vstd::arithmetic::mul::lemma_mul_basics(expansions@[d] - 1);
                        }
                    }
                    assert(rt_new =~= rt_old);
                    if prod(expansions@) > 0 {
                        lemma_prod_pos_each(expansions@);
                        assert forall|d: int| 0 <= d < n implies #[trigger] self.sizes@[d]
                            >= 1 by {
                            assert(expansions@[d] >= 1);
                        }
                        lemma_prod_pos(self.sizes@);
                    }
                }
                Ok(
                    Shape {
                        sizes: vstd::slice::slice_to_vec(expansions),
                        strides: new_strides,
                        offset: self.offset,
                    },
                )
            },
        }
    }
}

/// A copy of a stride list.
pub(crate) fn clone_strides(strides: &Vec<Stride>) -> (r: Vec<Stride>)
    ensures
        r@ == strides@,
{
    let n = strides.len();
    let mut out: Vec<Stride> = Vec::new();
    let mut d: usize = 0;
    while d < n
        invariant
            n == strides@.len(),
            d <= n,
            out@ =~= strides@.take(d as int),
        decreases n - d,
    {
        out.push(strides[d]);
        proof {
            assert(out@ =~= strides@.take(d + 1));
        }
        d += 1;
    }
    proof {
        assert(strides@.take(n as int) =~= strides@);
    }
    out
}


/// The size of dimension `i` of `s` once right-aligned into a rank of
/// `len`: missing leading dimensions count as size one.
pub open spec fn padded_size(s: Seq<usize>, len: int, i: int) -> int {
    if i < len - s.len() {
        1
    } else {
        s[i - (len - s.len())] as int
    }
}

/// The broadcast rank of two size lists: the larger of the two ranks.
pub open spec fn bcast_len(a: Seq<usize>, b: Seq<usize>) -> int {
    if a.len() >= b.len() {
        a.len() as int
    } else {
        b.len() as int
    }
}

/// Aligned dimension `i` of the two size lists can be broadcast together:
/// equal sizes, or a size of one on either side.
pub open spec fn bcast_ok_at(a: Seq<usize>, b: Seq<usize>, i: int) -> bool {
    padded_size(a, bcast_len(a, b), i) == padded_size(b, bcast_len(a, b), i) || padded_size(
        a,
        bcast_len(a, b),
        i,
    ) == 1 || padded_size(b, bcast_len(a, b), i) == 1
}

/// The broadcast result sizes: equal sizes pass through and a size of one
/// adopts the other side's size.
pub open spec fn bcast_sizes(a: Seq<usize>, b: Seq<usize>) -> Seq<usize> {
    Seq::new(
        bcast_len(a, b) as nat,
        |i: int|
            if padded_size(a, bcast_len(a, b), i) == 1 {
                padded_size(b, bcast_len(a, b), i) as usize
            } else {
                padded_size(a, bcast_len(a, b), i) as usize
            },
    )
}

impl Shape {
    /// Compute the broadcast result sizes of two shapes by right-aligning
    /// their size lists; returns sizes only, never a full layout.
    pub fn broadcast(&self, rhs: &Shape) -> (r: Res<Vec<usize>>)
        ensures
            broadcast_post(*self, *rhs, r),
    {
        let an = self.sizes.len();
        let bn = rhs.sizes.len();
        let n = if an >= bn {
            an
        } else {
            bn
        };
        let mut k: usize = 0;
        while k < n
            invariant
                an == self.sizes@.len(),
                bn == rhs.sizes@.len(),
                n as int == bcast_len(self.sizes@, rhs.sizes@),
                k <= n,
                forall|j: int|
                    n - k <= j < n ==> bcast_ok_at(self.sizes@, rhs.sizes@, j),
            decreases n - k,
        {
            let i = n - 1 - k;
            let pa = if i < n - an {
                1
            } else {
                self.sizes[i - (n - an)]
            };
            let pb = if i < n - bn {
                1
            } else {
                rhs.sizes[i - (n - bn)]
            };
            proof {
                assert(pa as int == padded_size(self.sizes@, n as int, i as int));
                assert(pb as int == padded_size(rhs.sizes@, n as int, i as int));
            }
            if !(pa == pb || pa == 1 || pb == 1) {
                proof {
                    let ii = i as int;
                    assert(!bcast_ok_at(self.sizes@, rhs.sizes@, ii));
                    assert(forall|j: int|
                        ii < j < n ==> bcast_ok_at(self.sizes@, rhs.sizes@, j));
                }
                return Err(TensorError::IncompatibleBroadcast { left: pa, right: pb });
            }
            proof {
                assert(bcast_ok_at(self.sizes@, rhs.sizes@, i as int));
            }
            k += 1;
        }
        let mut out: Vec<usize> = Vec::new();
        let mut i: usize = 0;
        while i < n
            invariant
                an == self.sizes@.len(),
                bn == rhs.sizes@.len(),
                n as int == bcast_len(self.sizes@, rhs.sizes@),
                i <= n,
                out@.len() == i as int,
                forall|j: int| 0 <= j < i ==> out@[j] == bcast_sizes(self.sizes@, rhs.sizes@)[j],
            decreases n - i,
        {
            let pa = if i < n - an {
                1
            } else {
                self.sizes[i - (n - an)]
            };
            let pb = if i < n - bn {
                1
            } else {
                rhs.sizes[i - (n - bn)]
            };
            if pa == 1 {
                out.push(pb);
            } else {
                out.push(pa);
            }
            i += 1;
        }
        proof {
            assert(out@ =~= bcast_sizes(self.sizes@, rhs.sizes@));
        }
        Ok(out)
    }
}

/// The start of the half-open range selected in dimension `d`; a missing
/// trailing range selects the full extent.
pub open spec fn eff_start(ranges: Seq<(usize, usize)>, d: int) -> int {
    if d >= ranges.len() {
        0
    } else {
        ranges[d].0 as int
    }
}

/// The end of the half-open range selected in dimension `d`; an end of
/// zero is shorthand for the dimension's full size.
pub open spec fn eff_end(sizes: Seq<usize>, ranges: Seq<(usize, usize)>, d: int) -> int {
    if d >= ranges.len() {
        sizes[d] as int
    } else if ranges[d].1 == 0 {
        sizes[d] as int
    } else {
        ranges[d].1 as int
    }
}

/// The range given for dimension `d` lies within the dimension.
pub open spec fn range_ok_at(sizes: Seq<usize>, ranges: Seq<(usize, usize)>, d: int) -> bool {
    !(ranges[d].0 > ranges[d].1 && ranges[d].1 > 0) && ranges[d].0 <= sizes[d] && ranges[d].1
        <= sizes[d]
}

/// The sizes selected by the ranges: `end - start` per dimension.
pub open spec fn slice_sizes(sizes: Seq<usize>, ranges: Seq<(usize, usize)>) -> Seq<usize> {
    Seq::new(sizes.len(), |d: int| (eff_end(sizes, ranges, d) - eff_start(ranges, d)) as usize)
}

/// The per-dimension base offset adjustments of a slice: a positive stride
/// advances past the first `start` steps, a negative one past the
/// `size - end` steps beyond the selected range's far edge.
pub open spec fn slice_adjust_terms(
    sizes: Seq<usize>,
    strides: Seq<Stride>,
    ranges: Seq<(usize, usize)>,
) -> Seq<int> {
    Seq::new(
        sizes.len(),
        |d: int|
            if strides[d].is_positive() {
                eff_start(ranges, d) * strides[d].mag()
            } else {
                (sizes[d] - eff_end(sizes, ranges, d)) * strides[d].mag()
            },
    )
}

impl Shape {
    /// Select a half-open `[start, end)` region per dimension, keeping the
    /// strides; an end of zero selects through the dimension's size and
    /// missing trailing ranges select full extents.
    pub fn slice(&self, ranges: &[(usize, usize)]) -> (r: Res<Shape>)
        requires
            self.wf(),
            self.bounded(),
        ensures
            slice_post(*self, ranges@, r),
    {
        let n = self.sizes.len();
        let m = ranges.len();
        if m > n {
            return Err(TensorError::DimensionCountMismatch { provided: m, expected: n });
        }
        let mut d: usize = 0;
        while d < m
            invariant
                n == self.ndims(),
                m == ranges@.len(),
                m <= n,
                d <= m,
                forall|j: int| 0 <= j < d ==> range_ok_at(self.sizes@, ranges@, j),
            decreases m - d,
        {
            let (start, end) = ranges[d];
            if (start > end && end > 0) || start > self.sizes[d] || end > self.sizes[d] {
                return Err(
                    TensorError::RangeOutOfBounds {
                        dimension: d,
                        start,
                        end,
                        size: self.sizes[d],
                    },
                );
            }
            d += 1;
        }
        let ghost ns = slice_sizes(self.sizes@, ranges@);
        let mut new_sizes: Vec<usize> = Vec::new();
        let mut any_zero: bool = false;
        let mut e: usize = 0;
        while e < n
            invariant
                n == self.ndims(),
                m == ranges@.len(),
                m <= n,
                forall|j: int| 0 <= j < m ==> range_ok_at(self.sizes@, ranges@, j),
                e <= n,
                ns == slice_sizes(self.sizes@, ranges@),
                new_sizes@.len() == e as int,
                forall|j: int| 0 <= j < e ==> new_sizes@[j] == ns[j],
                any_zero == exists|j: int| 0 <= j < e && ns[j] == 0,
            decreases n - e,
        {
            let (start, end) = if e < m {
                ranges[e]
            } else {
                (0, 0)
            };
            proof {
                if e < m {
                    assert(range_ok_at(self.sizes@, ranges@, e as int));
                }
            }
            let stop = if end == 0 {
                self.sizes[e]
            } else {
                end
            };
            let width = stop - start;
            proof {
                assert(eff_start(ranges@, e as int) == start as int);
                assert(eff_end(self.sizes@, ranges@, e as int) == stop as int);
                assert(ns[e as int] == width as usize);
            }
            if width == 0 {
                any_zero = true;
            }
            new_sizes.push(width);
            e += 1;
        }
        proof {
            assert(new_sizes@ =~= ns);
            assert forall|j: int| 0 <= j < n implies ns[j] <= self.sizes@[j] by {
                if j < m as int {
                    assert(range_ok_at(self.sizes@, ranges@, j));
                }
            }
            crate::arith::lemma_prod_pointwise_le(ns, self.sizes@);
            lemma_prod_nonneg(ns);
        }
        if any_zero {
            proof {
                let j = choose|j: int| 0 <= j < n && ns[j] == 0;
                lemma_prod_zero(ns, j);
            }
            return Ok(
                Shape {
                    sizes: new_sizes,
                    strides: clone_strides(&self.strides),
                    offset: self.offset,
                },
            );
        }
        proof {
            assert forall|j: int| 0 <= j < n implies #[trigger] ns[j] >= 1 by {}
            assert forall|j: int| 0 <= j < n implies #[trigger] self.sizes@[j] >= 1 by {
                assert(ns[j] >= 1);
            }
            lemma_prod_pos(ns);
            lemma_prod_pos(self.sizes@);
        }
        let ghost at = slice_adjust_terms(self.sizes@, self.strides@, ranges@);
        let ghost rt_old = reach_terms(self.sizes@, self.strides@);
        let ghost rt_new = reach_terms(ns, self.strides@);
        proof {
            assert forall|j: int| 0 <= j < n implies 0 <= #[trigger] at[j] && 0 <= rt_new[j]
                && at[j] + rt_new[j] <= rt_old[j] by {
                if j < m as int {
                    assert(range_ok_at(self.sizes@, ranges@, j));
                }
                let mg = self.strides@[j].mag() as int;
                let st = eff_start(ranges@, j);
                let en = eff_end(self.sizes@, ranges@, j);
                let sz = self.sizes@[j] as int;
                assert(ns[j] == en - st);
                vstd::arithmetic::mul::lemma_mul_nonnegative(st, mg);
                vstd::arithmetic::mul::lemma_mul_nonnegative(sz - en, mg);
                vstd::arithmetic::mul::lemma_mul_nonnegative(en - st - 1, mg);
                assert(st * mg + (en - st - 1) * mg == (en - 1) * mg) by (nonlinear_arith);
                assert((sz - en) * mg + (en - st - 1) * mg == (sz - st - 1) * mg)
                    by (nonlinear_arith);
                vstd::arithmetic::mul::lemma_mul_inequality(en - 1, sz - 1, mg);
                vstd::arithmetic::mul::lemma_mul_inequality(sz - st - 1, sz - 1, mg);
            }
            crate::arith::lemma_sum_nonneg(at);
            crate::arith::lemma_sum_nonneg(rt_new);
            crate::arith::lemma_sum_add(at, rt_new);
            assert(Seq::new(at.len(), |j: int| at[j] + rt_new[j]) =~= Seq::new(
                at.len(),
                |j: int| at[j] + rt_new[j],
            ));
            crate::arith::lemma_sum_le(Seq::new(at.len(), |j: int| at[j] + rt_new[j]), rt_old);
            assert(sum(at) + sum(rt_new) <= sum(rt_old));
        }
        let adjust = adjust_sum(&self.sizes, &self.strides, ranges, Ghost(at));
        Ok(
            Shape {
                sizes: new_sizes,
                strides: clone_strides(&self.strides),
                offset: self.offset + adjust,
            },
        )
    }
}

/// The summed base-offset adjustment of a slice whose selected region is
/// non-empty.
fn adjust_sum(
    sizes: &Vec<usize>,
    strides: &Vec<Stride>,
    ranges: &[(usize, usize)],
    terms: Ghost<Seq<int>>,
) -> (r: usize)
    requires
        strides@.len() == sizes@.len(),
        ranges@.len() <= sizes@.len(),
        forall|j: int| 0 <= j < ranges@.len() ==> range_ok_at(sizes@, ranges@, j),
        terms@ == slice_adjust_terms(sizes@, strides@, ranges@),
        forall|j: int| 0 <= j < sizes@.len() ==> 0 <= #[trigger] terms@[j],
        sum(terms@) <= usize::MAX,
    ensures
        r == sum(terms@),
{
    let n = sizes.len();
    let ghost at = terms@;
    let mut acc: usize = 0;
    let mut d: usize = 0;
    proof {
        assert(at.take(0) =~= Seq::<int>::empty());
    }
    while d < n
        invariant
            n == sizes@.len(),
            strides@.len() == n,
            ranges@.len() <= n,
            at == slice_adjust_terms(sizes@, strides@, ranges@),
            forall|j: int| 0 <= j < ranges@.len() ==> range_ok_at(sizes@, ranges@, j),
            forall|j: int| 0 <= j < n ==> 0 <= #[trigger] at[j],
            sum(at) <= usize::MAX,
            d <= n,
            acc == sum(at.take(d as int)),
        decreases n - d,
    {
        proof {
            crate::arith::lemma_sum_take_step(at, d as int);
            crate::arith::lemma_sum_take_bound(at, d + 1);
            crate::arith::lemma_sum_term_le(at, d as int);
            if (d as int) < ranges@.len() {
                assert(range_ok_at(sizes@, ranges@, d as int));
            }
        }
        let (start, end) = if d < ranges.len() {
            ranges[d]
        } else {
            (0, 0)
        };
        let stop = if end == 0 {
            sizes[d]
        } else {
            end
        };
        let mg = stride_mag(&strides[d]);
        let step: usize = if stride_positive(&strides[d]) {
            proof {
                assert(at[d as int] == eff_start(ranges@, d as int) * mg);
            }
            start * mg
        } else {
            proof {
                assert(at[d as int] == (sizes@[d as int] - eff_end(sizes@, ranges@, d as int))
                    * mg);
            }
            (sizes[d] - stop) * mg
        };
        acc = acc + step;
        d += 1;
    }
    proof {
        assert(at.take(n as int) =~= at);
    }
    acc
}


/// The sizes left after pinning the given coordinates: a pinned dimension
/// collapses to size one, an absent pin keeps the full extent.
pub open spec fn pin_sizes(sizes: Seq<usize>, pins: Seq<Option<usize>>) -> Seq<usize> {
    Seq::new(sizes.len(), |d: int| if pins[d] is Some {
        1usize
    } else {
        sizes[d]
    })
}

/// The per-dimension base offset contributions folded in by pinning.
pub open spec fn pin_adjust_terms(
    sizes: Seq<usize>,
    strides: Seq<Stride>,
    pins: Seq<Option<usize>>,
) -> Seq<int> {
    Seq::new(
        sizes.len(),
        |d: int|
            match pins[d] {
                Some(i) => strides[d].delta(i as int, sizes[d] as int),
                None => 0,
            },
    )
}

impl Shape {
    /// Collapse each explicitly pinned dimension to size one, folding its
    /// offset contribution into the base offset; absent pins leave their
    /// dimensions at full extent.
    pub fn single_slice(&self, pins: &[Option<usize>]) -> (r: Res<Shape>)
        requires
            self.wf(),
            self.bounded(),
        ensures
            single_slice_post(*self, pins@, r),
    {
        let n = self.sizes.len();
        if pins.len() != n {
            return Err(TensorError::DimensionCountMismatch { provided: pins.len(), expected: n });
        }
        let mut d: usize = 0;
        while d < n
            invariant
                n == self.ndims(),
                pins@.len() == n,
                d <= n,
                forall|j: int|
                    0 <= j < d ==> (#[trigger] pins@[j] matches Some(i) ==> (i as int)
                        < self.sizes@[j]),
            decreases n - d,
        {
            match pins[d] {
                Some(i) => {
                    if i >= self.sizes[d] {
                        return Err(
                            TensorError::IndexOutOfRange {
                                dimension: d,
                                index: i,
                                size: self.sizes[d],
                            },
                        );
                    }
                },
                None => {},
            }
            d += 1;
        }
        let ghost ns = pin_sizes(self.sizes@, pins@);
        let mut new_sizes: Vec<usize> = Vec::new();
        let mut any_zero: bool = false;
        let mut e: usize = 0;
        while e < n
            invariant
                n == self.ndims(),
                pins@.len() == n,
                forall|j: int|
                    0 <= j < n ==> (#[trigger] pins@[j] matches Some(i) ==> (i as int)
                        < self.sizes@[j]),
                e <= n,
                ns == pin_sizes(self.sizes@, pins@),
                new_sizes@.len() == e as int,
                forall|j: int| 0 <= j < e ==> new_sizes@[j] == ns[j],
                any_zero == exists|j: int| 0 <= j < e && ns[j] == 0,
            decreases n - e,
        {
            let width = match pins[e] {
                Some(_) => 1,
                None => self.sizes[e],
            };
            proof {
                assert(ns[e as int] == width);
            }
            if width == 0 {
                any_zero = true;
            }
            new_sizes.push(width);
            e += 1;
        }
        proof {
            assert(new_sizes@ =~= ns);
            assert forall|j: int| 0 <= j < n implies ns[j] <= self.sizes@[j] by {
                if pins@[j] is Some {
                    assert(self.sizes@[j] >= 1);
                }
            }
            crate::arith::lemma_prod_pointwise_le(ns, self.sizes@);
            lemma_prod_nonneg(ns);
        }
        if any_zero {
            proof {
                let j = choose|j: int| 0 <= j < n && ns[j] == 0;
                lemma_prod_zero(ns, j);
            }
            return Ok(
                Shape {
                    sizes: new_sizes,
                    strides: clone_strides(&self.strides),
                    offset: self.offset,
                },
            );
        }
        proof {
            assert forall|j: int| 0 <= j < n implies #[trigger] ns[j] >= 1 by {}
            assert forall|j: int| 0 <= j < n implies #[trigger] self.sizes@[j] >= 1 by {
                assert(ns[j] >= 1);
            }
            lemma_prod_pos(ns);
            lemma_prod_pos(self.sizes@);
        }
        let ghost at = pin_adjust_terms(self.sizes@, self.strides@, pins@);
        let ghost rt_old = reach_terms(self.sizes@, self.strides@);
        let ghost rt_new = reach_terms(ns, self.strides@);
        proof {
            assert forall|j: int| 0 <= j < n implies 0 <= #[trigger] at[j] && 0 <= rt_new[j]
                && at[j] + rt_new[j] <= rt_old[j] by {
                let mg = self.strides@[j].mag() as int;
                let sz = self.sizes@[j] as int;
                match pins@[j] {
                    Some(i) => {
                        vstd::arithmetic::mul::lemma_mul_nonnegative(i as int, mg);
                        vstd::arithmetic::mul::lemma_mul_nonnegative(sz - 1 - i, mg);
                        vstd::arithmetic::mul::lemma_mul_inequality(i as int, sz - 1, mg);
                        vstd::arithmetic::mul::lemma_mul_inequality(sz - 1 - i, sz - 1, mg);
                        vstd::arithmetic::mul::lemma_mul_basics(mg);
                        assert(rt_new[j] == 0);
                    },
                    None => {
                        vstd::arithmetic::mul::lemma_mul_nonnegative(sz - 1, mg);
                    },
                }
            }
            crate::arith::lemma_sum_nonneg(at);
            crate::arith::lemma_sum_nonneg(rt_new);
            crate::arith::lemma_sum_add(at, rt_new);
            crate::arith::lemma_sum_le(Seq::new(at.len(), |j: int| at[j] + rt_new[j]), rt_old);
        }
        let mut acc: usize = 0;
        let mut f: usize = 0;
        proof {
            assert(at.take(0) =~= Seq::<int>::empty());
        }
        while f < n
            invariant
                n == self.ndims(),
                self.strides@.len() == n,
                pins@.len() == n,
                forall|j: int|
                    0 <= j < n ==> (#[trigger] pins@[j] matches Some(i) ==> (i as int)
                        < self.sizes@[j]),
                forall|j: int| 0 <= j < n ==> #[trigger] self.sizes@[j] >= 1,
                at == pin_adjust_terms(self.sizes@, self.strides@, pins@),
                forall|j: int| 0 <= j < n ==> 0 <= #[trigger] at[j],
                sum(at) <= usize::MAX,
                reach(self.sizes@, self.strides@) <= usize::MAX,
                f <= n,
                acc == sum(at.take(f as int)),
            decreases n - f,
        {
            proof {
                crate::arith::lemma_sum_take_step(at, f as int);
                crate::arith::lemma_sum_take_bound(at, f + 1);
                crate::arith::lemma_sum_term_le(at, f as int);
                lemma_reach_term_le(self.sizes@, self.strides@, f as int);
            }
            let step: usize = match pins[f] {
                Some(i) => self.strides[f].offset(i, self.sizes[f]),
                None => 0,
            };
            acc = acc + step;
            f += 1;
        }
        proof {
            assert(at.take(n as int) =~= at);
        }
        Ok(
            Shape {
                sizes: new_sizes,
                strides: clone_strides(&self.strides),
                offset: self.offset + acc,
            },
        )
    }
}

/// Exactly what `Shape::element` promises of its result.
pub open spec fn element_post(pre: Shape, indices: Seq<usize>, r: Res<usize>) -> bool {
            match r {
                Ok(off) => pre.valid(to_ints(indices)) && off == pre.lin(to_ints(indices)),
                Err(TensorError::DimensionCountMismatch { provided, expected }) => indices.len()
                    != pre.ndims() && provided == indices.len() && expected == pre.ndims(),
                Err(TensorError::IndexOutOfRange { dimension, index, size }) => indices.len()
                    == pre.ndims() && 0 <= dimension < pre.ndims()
                    && index == indices[dimension as int]
                    && size == pre.sizes@[dimension as int] && index >= size && (forall|d: int|
                    0 <= d < dimension ==> indices[d] < pre.sizes@[d]),
                Err(_) => false,
            }
}

/// Exactly what `Shape::view` promises of its result.
pub open spec fn view_post(pre: Shape, sizes: Seq<usize>, r: Res<Shape>) -> bool {
            match r {
                Ok(sh) => prod(sizes) == pre.numel_spec() && fits(sizes) && row_major(
                    pre.sizes@,
                    pre.strides@,
                    pre.uniform_dir(),
                ) && sh.sizes@ == sizes && sh.offset == pre.offset && row_major(
                    sh.sizes@,
                    sh.strides@,
                    pre.uniform_dir(),
                ) && sh.wf(),
                Err(TensorError::ReshapeMismatch { data_length, new_length }) => !(prod(sizes)
                    == pre.numel_spec() && fits(sizes) && row_major(
                    pre.sizes@,
                    pre.strides@,
                    pre.uniform_dir(),
                )) && data_length == pre.numel_spec() && (fits(sizes) ==> new_length == prod(
                    sizes,
                )) && (!fits(sizes) ==> new_length == usize::MAX),
                Err(_) => false,
            }
}

/// Exactly what `Shape::flip` promises of its result.
pub open spec fn flip_post(pre: Shape, flips: Seq<usize>, r: Res<Shape>) -> bool {
            match r {
                Ok(sh) => injective(flips) && sh.sizes@ == pre.sizes@ && sh.strides@
                    == flipped_strides(pre.strides@, flips) && sh.offset == pre.offset
                    && sh.wf(),
                Err(TensorError::DuplicateDimension { dimension }) => !injective(flips) && (
                exists|i: int, j: int|
                    0 <= i < j < flips.len() && flips[i] == flips[j] && flips[j] == dimension),
                Err(_) => false,
            }
}

/// Exactly what `Shape::unsqueeze` promises of its result.
pub open spec fn unsqueeze_post(pre: Shape, target: usize, r: Res<Shape>) -> bool {
            match r {
                Ok(sh) => target >= pre.ndims() && sh.sizes@ == Seq::new(
                    (target - pre.ndims()) as nat,
                    |d: int| 1usize,
                ) + pre.sizes@ && sh.strides@ == Seq::new(
                    (target - pre.ndims()) as nat,
                    |d: int| Stride::Positive(prod(pre.sizes@) as usize),
                ) + pre.strides@ && sh.offset == pre.offset && sh.wf(),
                Err(TensorError::DimensionCountMismatch { provided, expected }) => target
                    < pre.ndims() && provided == target && expected == pre.ndims(),
                Err(_) => false,
            }
}

/// Exactly what `Shape::permute` promises of its result.
pub open spec fn permute_post(pre: Shape, permutation: Seq<usize>, r: Res<Shape>) -> bool {
            match r {
                Ok(sh) => is_permutation(permutation, pre.ndims()) && sh.sizes@ == Seq::new(
                    pre.sizes@.len(),
                    |d: int| pre.sizes@[permutation[d] as int],
                ) && sh.strides@ == Seq::new(
                    pre.sizes@.len(),
                    |d: int| pre.strides@[permutation[d] as int],
                ) && sh.offset == pre.offset && sh.wf() && sh.numel_spec() == pre.numel_spec()
                    && reach(sh.sizes@, sh.strides@) == reach(pre.sizes@, pre.strides@),
                Err(TensorError::DimensionCountMismatch { provided, expected }) => permutation.len()
                    != pre.ndims() && provided == permutation.len() && expected == pre.ndims(),
                Err(TensorError::IndexOutOfRange { dimension, index, size }) => permutation.len()
                    == pre.ndims() && 0 <= dimension < pre.ndims()
                    && index == permutation[dimension as int]
                    && index >= size && size == pre.ndims() && dims_valid_upto(
                    permutation,
                    pre.ndims(),
                    dimension as int,
                ),
                Err(TensorError::DuplicateDimension { dimension }) => permutation.len()
                    == pre.ndims() && (exists|j: int|
                    0 <= j < permutation.len() && permutation[j] == dimension && (exists|i: int|
                        0 <= i < j && permutation[i] == permutation[j]) && dims_valid_upto(
                        permutation,
                        pre.ndims(),
                        j,
                    )),
                Err(_) => false,
            }
}

/// Exactly what `Shape::transpose` promises of its result.
pub open spec fn transpose_post(pre: Shape, dim_1: usize, dim_2: usize, r: Res<Shape>) -> bool {
            match r {
                Ok(sh) => dim_1 < pre.ndims() && dim_2 < pre.ndims() && sh.sizes@
                    == pre.sizes@.update(dim_1 as int, pre.sizes@[dim_2 as int]).update(
                    dim_2 as int,
                    pre.sizes@[dim_1 as int],
                ) && sh.strides@ == pre.strides@.update(
                    dim_1 as int,
                    pre.strides@[dim_2 as int],
                ).update(dim_2 as int, pre.strides@[dim_1 as int]) && sh.offset == pre.offset
                    && sh.wf() && sh.numel_spec() == pre.numel_spec() && reach(
                    sh.sizes@,
                    sh.strides@,
                ) == reach(pre.sizes@, pre.strides@),
                Err(TensorError::IndexOutOfRange { dimension, index, size }) => (dim_1
                    >= pre.ndims() || dim_2 >= pre.ndims()) && size == pre.ndims() && index
                    >= size && (index == dim_1 || index == dim_2) && dimension == index,
                Err(_) => false,
            }
}

/// Exactly what `Shape::expand` promises of its result.
pub open spec fn expand_post(pre: Shape, expansions: Seq<usize>, r: Res<Shape>) -> bool {
            match r {
                Ok(sh) => sh.offset == pre.offset && sh.wf() && reach(sh.sizes@, sh.strides@)
                    == reach(pre.sizes@, pre.strides@) && (sh.numel_spec() > 0
                    ==> pre.numel_spec() > 0) && (if pre.sizes@ == expansions {
                    sh.sizes@ == pre.sizes@ && sh.strides@ == pre.strides@
                } else {
                    expansions.len() == pre.ndims() && (forall|d: int|
                        0 <= d < pre.ndims() ==> #[trigger] expansions[d] == pre.sizes@[d]
                            || pre.sizes@[d] == 1) && fits(expansions) && sh.sizes@
                        == expansions && sh.strides@ == Seq::new(
                        pre.sizes@.len(),
                        |d: int|
                            if expansions[d] == pre.sizes@[d] {
                                pre.strides@[d]
                            } else {
                                Stride::Positive(0)
                            },
                    )
                }),
                Err(TensorError::DimensionCountMismatch { provided, expected }) => pre.sizes@
                    != expansions && provided == expansions.len() && expected == pre.ndims()
                    && provided != expected,
                Err(TensorError::IncompatibleExpansion { dimension, size, target }) => pre.sizes@
                    != expansions && expansions.len() == pre.ndims() && ((dimension
                    < pre.ndims() && size == pre.sizes@[dimension as int] && target
                    == expansions[dimension as int] && target != size && size != 1 && (forall|
                    d: int,
                |
                    0 <= d < dimension ==> #[trigger] expansions[d] == pre.sizes@[d]
                        || pre.sizes@[d] == 1)) || (dimension == pre.ndims() && size == 0
                    && target == 0 && (forall|d: int|
                    0 <= d < pre.ndims() ==> #[trigger] expansions[d] == pre.sizes@[d]
                        || pre.sizes@[d] == 1) && !fits(expansions))),
                Err(_) => false,
            }
}

/// Exactly what `Shape::slice` promises of its result.
pub open spec fn slice_post(pre: Shape, ranges: Seq<(usize, usize)>, r: Res<Shape>) -> bool {
            match r {
                Ok(sh) => ranges.len() <= pre.ndims() && (forall|d: int|
                    0 <= d < ranges.len() ==> range_ok_at(pre.sizes@, ranges, d)) && sh.sizes@
                    == slice_sizes(pre.sizes@, ranges) && sh.strides@ == pre.strides@
                    && sh.wf() && (if sh.numel_spec() == 0 {
                    sh.offset == pre.offset
                } else {
                    sh.offset == pre.offset + sum(
                        slice_adjust_terms(pre.sizes@, pre.strides@, ranges),
                    ) && sh.offset + reach(sh.sizes@, sh.strides@) <= pre.offset + reach(
                        pre.sizes@,
                        pre.strides@,
                    )
                }),
                Err(TensorError::DimensionCountMismatch { provided, expected }) => ranges.len()
                    > pre.ndims() && provided == ranges.len() && expected == pre.ndims(),
                Err(TensorError::RangeOutOfBounds { dimension, start, end, size }) => ranges.len()
                    <= pre.ndims() && 0 <= dimension < ranges.len() && !range_ok_at(
                    pre.sizes@,
                    ranges,
                    dimension as int,
                ) && start == ranges[dimension as int].0 && end == ranges[dimension as int].1
                    && size == pre.sizes@[dimension as int] && (forall|d: int|
                    0 <= d < dimension ==> range_ok_at(pre.sizes@, ranges, d)),
                Err(_) => false,
            }
}

/// Exactly what `Shape::single_slice` promises of its result.
pub open spec fn single_slice_post(pre: Shape, pins: Seq<Option<usize>>, r: Res<Shape>) -> bool {
            match r {
                Ok(sh) => pins.len() == pre.ndims() && (forall|d: int|
                    0 <= d < pre.ndims() ==> (#[trigger] pins[d] matches Some(i) ==> (i as int)
                        < pre.sizes@[d])) && sh.sizes@ == pin_sizes(pre.sizes@, pins)
                    && sh.strides@ == pre.strides@ && sh.wf() && (if sh.numel_spec() == 0 {
                    sh.offset == pre.offset
                } else {
                    sh.offset == pre.offset + sum(
                        pin_adjust_terms(pre.sizes@, pre.strides@, pins),
                    ) && sh.offset + reach(sh.sizes@, sh.strides@) <= pre.offset + reach(
                        pre.sizes@,
                        pre.strides@,
                    )
                }),
                Err(TensorError::DimensionCountMismatch { provided, expected }) => pins.len()
                    != pre.ndims() && provided == pins.len() && expected == pre.ndims(),
                Err(TensorError::IndexOutOfRange { dimension, index, size }) => pins.len()
                    == pre.ndims() && 0 <= dimension < pre.ndims() && pins[dimension as int]
                    == Some(index) && index >= size && size == pre.sizes@[dimension as int] && (
                forall|d: int|
                    0 <= d < dimension ==> (#[trigger] pins[d] matches Some(i) ==> (i as int)
                        < pre.sizes@[d])),
                Err(_) => false,
            }
}

/// Exactly what `Shape::broadcast` promises of its result.
pub open spec fn broadcast_post(pre: Shape, rhs: Shape, r: Res<Vec<usize>>) -> bool {
            match r {
                Ok(v) => (forall|i: int|
                    0 <= i < bcast_len(pre.sizes@, rhs.sizes@) ==> bcast_ok_at(
                        pre.sizes@,
                        rhs.sizes@,
                        i,
                    )) && v@ == bcast_sizes(pre.sizes@, rhs.sizes@),
                Err(TensorError::IncompatibleBroadcast { left, right }) => exists|i: int|
                    0 <= i < bcast_len(pre.sizes@, rhs.sizes@) && !bcast_ok_at(
                        pre.sizes@,
                        rhs.sizes@,
                        i,
                    ) && left == padded_size(pre.sizes@, bcast_len(pre.sizes@, rhs.sizes@), i)
                        && right == padded_size(
                        rhs.sizes@,
                        bcast_len(pre.sizes@, rhs.sizes@),
                        i,
                    ) && (forall|j: int|
                        i < j < bcast_len(pre.sizes@, rhs.sizes@) ==> bcast_ok_at(
                            pre.sizes@,
                            rhs.sizes@,
                            j,
                        )),
                Err(_) => false,
            }
}

} // verus!
