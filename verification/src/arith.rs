//! The mathematical model of shapes: size products, row-major ranking of
//! multi-dimensional indices, and sums of per-dimension offset contributions.
//!
//! Every contract in the crate is stated over these specification functions.

use vstd::prelude::*;
use vstd::arithmetic::div_mod::{lemma_fundamental_div_mod, lemma_fundamental_div_mod_converse};
use vstd::arithmetic::mul::{lemma_mul_inequality, lemma_mul_nonnegative};

verus! {

/// The product of a sequence of dimension sizes; `1` for the empty sequence.
pub open spec fn prod(s: Seq<usize>) -> int
    decreases s.len(),
{
    if s.len() == 0 {
        1
    } else {
        s[0] * prod(s.skip(1))
    }
}

/// Every tail product of `s` is machine-representable, so that element
/// counts and row-major strides can be computed without overflow.
pub open spec fn fits(s: Seq<usize>) -> bool {
    forall|d: int| 0 <= d <= s.len() ==> prod(#[trigger] s.skip(d)) <= usize::MAX
}

/// `idx` is a coordinate vector of the logical index space of sizes `s`.
pub open spec fn valid_index(s: Seq<usize>, idx: Seq<int>) -> bool {
    idx.len() == s.len() && forall|d: int| 0 <= d < s.len() ==> 0 <= #[trigger] idx[d] < s[d]
}

/// The row-major rank of coordinate `idx` in the index space of sizes `s`:
/// the most significant dimension varies slowest.
pub open spec fn rank_of(s: Seq<usize>, idx: Seq<int>) -> int
    decreases s.len(),
{
    if s.len() == 0 {
        0
    } else {
        idx[0] * prod(s.skip(1)) + rank_of(s.skip(1), idx.skip(1))
    }
}

/// The coordinate vector whose row-major rank in the index space of sizes
/// `s` is `k`; inverse of `rank_of` on `0 <= k < prod(s)`.
pub open spec fn unrank(s: Seq<usize>, k: int) -> Seq<int>
    decreases s.len(),
{
    if s.len() == 0 {
        Seq::empty()
    } else {
        seq![k / prod(s.skip(1))] + unrank(s.skip(1), k % prod(s.skip(1)))
    }
}

/// The sum of a sequence of integers.
pub open spec fn sum(ts: Seq<int>) -> int
    decreases ts.len(),
{
    if ts.len() == 0 {
        0
    } else {
        ts[0] + sum(ts.skip(1))
    }
}

/// The sum of the entries of `ts` selected by the positions in `p`.
pub open spec fn sum_sel(ts: Seq<int>, p: Seq<usize>) -> int
    decreases p.len(),
{
    if p.len() == 0 {
        0
    } else {
        ts[p[0] as int] + sum_sel(ts, p.skip(1))
    }
}

/// No position occurs twice in `p`.
pub open spec fn injective(p: Seq<usize>) -> bool {
    forall|i: int, j: int| 0 <= i < j < p.len() ==> #[trigger] p[i] != #[trigger] p[j]
}

/// Every entry of `p` lies below `n`.
pub open spec fn in_range(p: Seq<usize>, n: int) -> bool {
    forall|i: int| 0 <= i < p.len() ==> #[trigger] p[i] < n
}

/// `p` reorders the dimensions `0 .. n`: a permutation.
pub open spec fn is_permutation(p: Seq<usize>, n: int) -> bool {
    p.len() == n && injective(p) && in_range(p, n)
}

/// The product of a sequence of sizes is never negative.
pub proof fn lemma_prod_nonneg(s: Seq<usize>)
    ensures
        prod(s) >= 0,
    decreases s.len(),
{
    if s.len() > 0 {
        lemma_prod_nonneg(s.skip(1));
        lemma_mul_nonnegative(s[0] as int, prod(s.skip(1)));
    }
}

/// A product of positive sizes is positive.
pub proof fn lemma_prod_pos(s: Seq<usize>)
    requires
        forall|d: int| 0 <= d < s.len() ==> #[trigger] s[d] >= 1,
    ensures
        prod(s) >= 1,
    decreases s.len(),
{
    if s.len() > 0 {
        lemma_prod_pos(s.skip(1));
        lemma_mul_inequality(1, s[0] as int, prod(s.skip(1)));
    }
}

/// A sequence of sizes containing a zero has product zero.
pub proof fn lemma_prod_zero(s: Seq<usize>, d: int)
    requires
        0 <= d < s.len(),
        s[d] == 0,
    ensures
        prod(s) == 0,
    decreases s.len(),
{
    if d == 0 {
        lemma_prod_nonneg(s.skip(1));
    } else {
        lemma_prod_zero(s.skip(1), d - 1);
    }
}

/// A positive product forces every size to be positive.
pub proof fn lemma_prod_pos_each(s: Seq<usize>)
    requires
        prod(s) > 0,
    ensures
        forall|d: int| 0 <= d < s.len() ==> #[trigger] s[d] >= 1,
{
    assert forall|d: int| 0 <= d < s.len() implies #[trigger] s[d] >= 1 by {
        if s[d] == 0 {
            lemma_prod_zero(s, d);
        }
    }
}

/// Splitting off the first entry of a tail product.
pub proof fn lemma_prod_skip_unfold(s: Seq<usize>, d: int)
    requires
        0 <= d < s.len(),
    ensures
        prod(s.skip(d)) == s[d] * prod(s.skip(d + 1)),
{
    assert(s.skip(d).skip(1) =~= s.skip(d + 1));
    assert(prod(s.skip(d)) == s.skip(d)[0] * prod(s.skip(d).skip(1)));
}

/// When all sizes are positive, each tail product is bounded by the whole.
pub proof fn lemma_prod_tail_le(s: Seq<usize>, d: int)
    requires
        0 <= d <= s.len(),
        forall|i: int| 0 <= i < s.len() ==> #[trigger] s[i] >= 1,
    ensures
        prod(s.skip(d)) <= prod(s),
    decreases d,
{
    if d == 0 {
        assert(s.skip(0) =~= s);
    } else {
        lemma_prod_tail_le(s, d - 1);
        lemma_prod_skip_unfold(s, d - 1);
        assert forall|i: int| 0 <= i < s.skip(d).len() implies #[trigger] s.skip(d)[i] >= 1 by {
            assert(s.skip(d)[i] == s[d + i]);
        }
        lemma_prod_pos(s.skip(d));
        lemma_mul_inequality(1, s[d - 1] as int, prod(s.skip(d)));
    }
}

/// A positive bounded product makes every tail product representable.
pub proof fn lemma_fits_from_pos(s: Seq<usize>)
    requires
        0 < prod(s) <= usize::MAX,
    ensures
        fits(s),
{
    lemma_prod_pos_each(s);
    assert forall|d: int| 0 <= d <= s.len() implies prod(#[trigger] s.skip(d)) <= usize::MAX by {
        lemma_prod_tail_le(s, d);
    }
}

/// The row-major rank of a valid coordinate lies in `[0, prod(s))`.
pub proof fn lemma_rank_bound(s: Seq<usize>, idx: Seq<int>)
    requires
        valid_index(s, idx),
    ensures
        0 <= rank_of(s, idx) < prod(s),
    decreases s.len(),
{
    if s.len() == 0 {
    } else {
        let p = prod(s.skip(1));
        assert(valid_index(s.skip(1), idx.skip(1)));
        lemma_rank_bound(s.skip(1), idx.skip(1));
        lemma_prod_pos_each(s.skip(1));
        lemma_prod_pos(s.skip(1));
        lemma_mul_nonnegative(idx[0], p);
        lemma_mul_inequality(idx[0], s[0] - 1, p);
        assert((s[0] - 1) * p + p == s[0] * p) by (nonlinear_arith);
    }
}

/// Unranking a rank below `prod(s)` yields a valid coordinate whose rank is
/// the original rank.
pub proof fn lemma_unrank_props(s: Seq<usize>, k: int)
    requires
        0 <= k < prod(s),
    ensures
        valid_index(s, unrank(s, k)),
        rank_of(s, unrank(s, k)) == k,
    decreases s.len(),
{
    if s.len() == 0 {
        assert(unrank(s, k) =~= Seq::<int>::empty());
    } else {
        let p = prod(s.skip(1));
        lemma_prod_nonneg(s.skip(1));
        assert(p >= 1) by {
            if p == 0 {
                assert(prod(s) == s[0] * 0);
            }
        }
        lemma_fundamental_div_mod(k, p);
        vstd::arithmetic::div_mod::lemma_mod_bound(k, p);
        let q = k / p;
        let r = k % p;
        assert(q >= 0) by {
            if q < 0 {
                lemma_mul_inequality(q, -1, p);
                assert(q * p == p * q) by (nonlinear_arith);
            }
        }
        assert(q < s[0]) by {
            if q >= s[0] {
                lemma_mul_inequality(s[0] as int, q, p);
                assert(q * p == p * q) by (nonlinear_arith);
            }
        }
        lemma_unrank_props(s.skip(1), r);
        let u = unrank(s, k);
        assert(u =~= seq![q] + unrank(s.skip(1), r));
        assert(u.skip(1) =~= unrank(s.skip(1), r));
        assert(valid_index(s, u));
        assert(q * p == p * q) by (nonlinear_arith);
    }
}

/// Ranking then unranking restores a valid coordinate.
pub proof fn lemma_unrank_rank(s: Seq<usize>, idx: Seq<int>)
    requires
        valid_index(s, idx),
    ensures
        unrank(s, rank_of(s, idx)) == idx,
    decreases s.len(),
{
    if s.len() == 0 {
        assert(unrank(s, rank_of(s, idx)) =~= idx);
    } else {
        let p = prod(s.skip(1));
        assert(valid_index(s.skip(1), idx.skip(1)));
        lemma_rank_bound(s.skip(1), idx.skip(1));
        assert forall|i: int| 0 <= i < s.skip(1).len() implies #[trigger] s.skip(1)[i] >= 1 by {
            assert(0 <= idx[1 + i] < s[1 + i]);
        }
        lemma_prod_pos(s.skip(1));
        let r = rank_of(s.skip(1), idx.skip(1));
        lemma_fundamental_div_mod_converse(rank_of(s, idx), p, idx[0], r);
        lemma_unrank_rank(s.skip(1), idx.skip(1));
        assert(unrank(s, rank_of(s, idx)) =~= idx);
    }
}

/// Two coordinates with the same rank are the same coordinate.
pub proof fn lemma_rank_injective(s: Seq<usize>, a: Seq<int>, b: Seq<int>)
    requires
        valid_index(s, a),
        valid_index(s, b),
        rank_of(s, a) == rank_of(s, b),
    ensures
        a == b,
{
    lemma_unrank_rank(s, a);
    lemma_unrank_rank(s, b);
}

/// The per-dimension contributions of a row-major rank.
pub open spec fn rank_terms(s: Seq<usize>, idx: Seq<int>) -> Seq<int> {
    Seq::new(s.len(), |d: int| idx[d] * prod(s.skip(d + 1)))
}

/// The row-major rank is the sum of its per-dimension contributions.
pub proof fn lemma_rank_terms_sum(s: Seq<usize>, idx: Seq<int>)
    requires
        idx.len() == s.len(),
    ensures
        rank_of(s, idx) == sum(rank_terms(s, idx)),
    decreases s.len(),
{
    if s.len() > 0 {
        lemma_rank_terms_sum(s.skip(1), idx.skip(1));
        let rt = rank_terms(s, idx);
        assert forall|d: int| 0 <= d < rt.len() - 1 implies rt.skip(1)[d] == rank_terms(
            s.skip(1),
            idx.skip(1),
        )[d] by {
            assert(s.skip(1).skip(d + 1) =~= s.skip(d + 2));
            assert(rt.skip(1)[d] == rt[d + 1]);
            assert(rt[d + 1] == idx[d + 1] * prod(s.skip(d + 2)));
            assert(idx.skip(1)[d] == idx[d + 1]);
            assert(rank_terms(s.skip(1), idx.skip(1))[d] == idx.skip(1)[d] * prod(
                s.skip(1).skip(d + 1),
            ));
        }
        assert(rt.skip(1) =~= rank_terms(s.skip(1), idx.skip(1)));
        assert(sum(rt) == rt[0] + sum(rt.skip(1)));
        assert(s.skip((0 + 1) as int) =~= s.skip(1int));
    }
}

/// A sum of non-negative terms is non-negative.
pub proof fn lemma_sum_nonneg(ts: Seq<int>)
    requires
        forall|d: int| 0 <= d < ts.len() ==> #[trigger] ts[d] >= 0,
    ensures
        sum(ts) >= 0,
    decreases ts.len(),
{
    if ts.len() > 0 {
        lemma_sum_nonneg(ts.skip(1));
    }
}

/// Sums respect pointwise ordering.
pub proof fn lemma_sum_le(a: Seq<int>, b: Seq<int>)
    requires
        a.len() == b.len(),
        forall|d: int| 0 <= d < a.len() ==> #[trigger] a[d] <= #[trigger] b[d],
    ensures
        sum(a) <= sum(b),
    decreases a.len(),
{
    if a.len() > 0 {
        lemma_sum_le(a.skip(1), b.skip(1));
    }
}

/// Splitting off the first entry of a tail sum.
pub proof fn lemma_sum_skip_unfold(ts: Seq<int>, d: int)
    requires
        0 <= d < ts.len(),
    ensures
        sum(ts.skip(d)) == ts[d] + sum(ts.skip(d + 1)),
{
    assert(ts.skip(d).skip(1) =~= ts.skip(d + 1));
    assert(sum(ts.skip(d)) == ts.skip(d)[0] + sum(ts.skip(d).skip(1)));
}

/// One non-negative term is bounded by the sum of all terms.
pub proof fn lemma_sum_term_le(ts: Seq<int>, d: int)
    requires
        0 <= d < ts.len(),
        forall|i: int| 0 <= i < ts.len() ==> #[trigger] ts[i] >= 0,
    ensures
        ts[d] <= sum(ts),
    decreases ts.len(),
{
    if d == 0 {
        assert forall|i: int| 0 <= i < ts.skip(1).len() implies #[trigger] ts.skip(1)[i] >= 0 by {
            assert(ts.skip(1)[i] == ts[1 + i]);
        }
        lemma_sum_nonneg(ts.skip(1));
    } else {
        assert forall|i: int| 0 <= i < ts.skip(1).len() implies #[trigger] ts.skip(1)[i] >= 0 by {
            assert(ts.skip(1)[i] == ts[1 + i]);
        }
        lemma_sum_term_le(ts.skip(1), d - 1);
    }
}

/// Extending a prefix sum by one term.
pub proof fn lemma_sum_take_step(ts: Seq<int>, d: int)
    requires
        0 <= d < ts.len(),
    ensures
        sum(ts.take(d + 1)) == sum(ts.take(d)) + ts[d],
    decreases d,
{
    if d == 0 {
        assert(ts.take(0) =~= Seq::<int>::empty());
        assert(ts.take(1).skip(1) =~= Seq::<int>::empty());
        assert(sum(ts.take(1)) == ts.take(1)[0] + sum(ts.take(1).skip(1)));
    } else {
        lemma_sum_take_step(ts.skip(1), d - 1);
        assert(ts.take(d + 1).skip(1) =~= ts.skip(1).take(d));
        assert(ts.take(d).skip(1) =~= ts.skip(1).take(d - 1));
        assert(sum(ts.take(d + 1)) == ts[0] + sum(ts.take(d + 1).skip(1)));
        assert(sum(ts.take(d)) == ts[0] + sum(ts.take(d).skip(1)));
    }
}

/// A prefix sum of non-negative terms stays within `[0, sum(ts)]`.
pub proof fn lemma_sum_take_bound(ts: Seq<int>, d: int)
    requires
        0 <= d <= ts.len(),
        forall|i: int| 0 <= i < ts.len() ==> #[trigger] ts[i] >= 0,
    ensures
        0 <= sum(ts.take(d)) <= sum(ts),
    decreases ts.len() - d,
{
    assert forall|i: int| 0 <= i < ts.take(d).len() implies #[trigger] ts.take(d)[i] >= 0 by {
        assert(ts.take(d)[i] == ts[i]);
    }
    lemma_sum_nonneg(ts.take(d));
    if d == ts.len() {
        assert(ts.take(d) =~= ts);
    } else {
        lemma_sum_take_step(ts, d);
        lemma_sum_take_bound(ts, d + 1);
    }
}

/// Splitting off the last term of a sum.
pub proof fn lemma_sum_take_last(ts: Seq<int>)
    requires
        ts.len() > 0,
    ensures
        sum(ts) == sum(ts.take(ts.len() - 1)) + ts[ts.len() - 1],
    decreases ts.len(),
{
    if ts.len() == 1 {
        assert(ts.take(0) =~= Seq::<int>::empty());
        assert(ts.skip(1) =~= Seq::<int>::empty());
    } else {
        lemma_sum_take_last(ts.skip(1));
        assert(ts.skip(1).take(ts.len() - 2) =~= ts.take(ts.len() - 1).skip(1));
        assert(sum(ts.take(ts.len() - 1)) == ts[0] + sum(ts.take(ts.len() - 1).skip(1)));
    }
}

/// A selected sum only depends on the selected prefix of the term sequence.
pub proof fn lemma_sum_sel_prefix(ts: Seq<int>, p: Seq<usize>, m: int)
    requires
        0 <= m <= ts.len(),
        in_range(p, m),
    ensures
        sum_sel(ts, p) == sum_sel(ts.take(m), p),
    decreases p.len(),
{
    if p.len() > 0 {
        lemma_sum_sel_prefix(ts, p.skip(1), m);
    }
}

/// Removing one selected position takes its term out of the selected sum.
pub proof fn lemma_sum_sel_remove(ts: Seq<int>, p: Seq<usize>, k: int)
    requires
        0 <= k < p.len(),
        in_range(p, ts.len() as int),
    ensures
        sum_sel(ts, p) == sum_sel(ts, p.remove(k)) + ts[p[k] as int],
    decreases p.len(),
{
    if k == 0 {
        assert(p.remove(0) =~= p.skip(1));
    } else {
        lemma_sum_sel_remove(ts, p.skip(1), k - 1);
        assert(p.remove(k).skip(1) =~= p.skip(1).remove(k - 1));
        assert(p.remove(k)[0] == p[0]);
    }
}

/// An injective sequence of positions below `m` has at most `m` entries.
pub proof fn lemma_injective_bound(p: Seq<usize>, m: int)
    requires
        m >= 0,
        injective(p),
        in_range(p, m),
    ensures
        p.len() <= m,
    decreases m,
{
    if m == 0 {
        if p.len() > 0 {
            assert(p[0] < 0);
        }
    } else {
        if exists|k: int| 0 <= k < p.len() && p[k] == m - 1 {
            let k = choose|k: int| 0 <= k < p.len() && p[k] == m - 1;
            let q = p.remove(k);
            assert forall|i: int, j: int| 0 <= i < j < q.len() implies #[trigger] q[i] != #[trigger] q[j] by {
                assert(q[i] == if i < k {
                    p[i]
                } else {
                    p[i + 1]
                });
                assert(q[j] == if j < k {
                    p[j]
                } else {
                    p[j + 1]
                });
            }
            assert forall|i: int| 0 <= i < q.len() implies #[trigger] q[i] < m - 1 by {
                let src = if i < k {
                    i
                } else {
                    i + 1
                };
                assert(q[i] == p[src]);
                assert(p[src] != m - 1);
            }
            lemma_injective_bound(q, m - 1);
        } else {
            assert forall|i: int| 0 <= i < p.len() implies #[trigger] p[i] < m - 1 by {
                assert(p[i] != m - 1);
            }
            lemma_injective_bound(p, m - 1);
        }
    }
}

/// A permutation of `0 .. n` attains every value below `n`.
pub proof fn lemma_permutation_onto(p: Seq<usize>, n: int, v: int)
    requires
        is_permutation(p, n),
        0 <= v < n,
    ensures
        exists|k: int| 0 <= k < n && p[k] == v,
{
    if !(exists|k: int| 0 <= k < n && p[k] == v) {
        let q = Seq::new(p.len() as nat, |i: int| if p[i] < v {
            p[i]
        } else {
            (p[i] - 1) as usize
        });
        assert forall|i: int, j: int| 0 <= i < j < q.len() implies #[trigger] q[i] != #[trigger] q[j] by {
            assert(p[i] != p[j]);
            assert(p[i] != v && p[j] != v);
        }
        assert forall|i: int| 0 <= i < q.len() implies #[trigger] q[i] < n - 1 by {
            assert(p[i] != v);
        }
        lemma_injective_bound(q, n - 1);
    }
}

/// A sum ignores a prefix of zero terms.
pub proof fn lemma_sum_zero_prefix(ts: Seq<int>, k: int)
    requires
        0 <= k <= ts.len(),
        forall|i: int| 0 <= i < k ==> #[trigger] ts[i] == 0,
    ensures
        sum(ts) == sum(ts.skip(k)),
    decreases k,
{
    if k == 0 {
        assert(ts.skip(0) =~= ts);
    } else {
        lemma_sum_skip_unfold(ts, k - 1);
        lemma_sum_zero_prefix(ts, k - 1);
    }
}

/// A product ignores a prefix of `k` dimensions of size one.
pub proof fn lemma_prod_ones_prepend(k: nat, s: Seq<usize>)
    ensures
        prod(Seq::new(k, |d: int| 1usize) + s) == prod(s),
    decreases k,
{
    let c = Seq::new(k, |d: int| 1usize) + s;
    if k == 0 {
        assert(c =~= s);
    } else {
        lemma_prod_ones_prepend((k - 1) as nat, s);
        assert(c.skip(1) =~= Seq::new((k - 1) as nat, |d: int| 1usize) + s);
        assert(prod(c) == c[0] * prod(c.skip(1)));
    }
}

/// Products respect pointwise ordering of size lists.
pub proof fn lemma_prod_pointwise_le(a: Seq<usize>, b: Seq<usize>)
    requires
        a.len() == b.len(),
        forall|d: int| 0 <= d < a.len() ==> #[trigger] a[d] <= #[trigger] b[d],
    ensures
        prod(a) <= prod(b),
    decreases a.len(),
{
    if a.len() > 0 {
        lemma_prod_pointwise_le(a.skip(1), b.skip(1));
        lemma_prod_nonneg(a.skip(1));
        lemma_mul_inequality(prod(a.skip(1)), prod(b.skip(1)), a[0] as int);
        lemma_mul_inequality(a[0] as int, b[0] as int, prod(b.skip(1)));
        assert(prod(a.skip(1)) * a[0] == a[0] * prod(a.skip(1))) by (nonlinear_arith);
        assert(prod(b.skip(1)) * a[0] == a[0] * prod(b.skip(1))) by (nonlinear_arith);
    }
}

/// Sums distribute over pointwise addition.
pub proof fn lemma_sum_add(a: Seq<int>, b: Seq<int>)
    requires
        a.len() == b.len(),
    ensures
        sum(Seq::new(a.len(), |d: int| a[d] + b[d])) == sum(a) + sum(b),
    decreases a.len(),
{
    let c = Seq::new(a.len(), |d: int| a[d] + b[d]);
    if a.len() > 0 {
        lemma_sum_add(a.skip(1), b.skip(1));
        assert(c.skip(1) =~= Seq::new(a.skip(1).len(), |d: int| a.skip(1)[d] + b.skip(1)[d]));
        assert(sum(c) == c[0] + sum(c.skip(1)));
    }
}

/// A sum over reordered positions is the selected sum over those positions.
pub proof fn lemma_sum_newseq_sel(ts: Seq<int>, p: Seq<usize>)
    requires
        in_range(p, ts.len() as int),
    ensures
        sum(Seq::new(p.len(), |d: int| ts[p[d] as int])) == sum_sel(ts, p),
    decreases p.len(),
{
    let c = Seq::new(p.len(), |d: int| ts[p[d] as int]);
    if p.len() > 0 {
        lemma_sum_newseq_sel(ts, p.skip(1));
        assert(c.skip(1) =~= Seq::new(p.skip(1).len(), |d: int| ts[p.skip(1)[d] as int]));
        assert(sum(c) == c[0] + sum(c.skip(1)));
    }
}

/// The product of the entries of `s` selected by the positions in `p`.
pub open spec fn prod_sel(s: Seq<usize>, p: Seq<usize>) -> int
    decreases p.len(),
{
    if p.len() == 0 {
        1
    } else {
        s[p[0] as int] * prod_sel(s, p.skip(1))
    }
}

/// A product over reordered positions is the selected product.
pub proof fn lemma_prod_newseq_sel(s: Seq<usize>, p: Seq<usize>)
    requires
        in_range(p, s.len() as int),
    ensures
        prod(Seq::new(p.len(), |d: int| s[p[d] as int])) == prod_sel(s, p),
    decreases p.len(),
{
    let c = Seq::new(p.len(), |d: int| s[p[d] as int]);
    if p.len() > 0 {
        lemma_prod_newseq_sel(s, p.skip(1));
        assert(c.skip(1) =~= Seq::new(p.skip(1).len(), |d: int| s[p.skip(1)[d] as int]));
        assert(prod(c) == c[0] * prod(c.skip(1)));
    }
}

/// A selected product only depends on the selected prefix.
pub proof fn lemma_prod_sel_prefix(s: Seq<usize>, p: Seq<usize>, m: int)
    requires
        0 <= m <= s.len(),
        in_range(p, m),
    ensures
        prod_sel(s, p) == prod_sel(s.take(m), p),
    decreases p.len(),
{
    if p.len() > 0 {
        lemma_prod_sel_prefix(s, p.skip(1), m);
    }
}

/// Removing one selected position divides its factor out of the product.
pub proof fn lemma_prod_sel_remove(s: Seq<usize>, p: Seq<usize>, k: int)
    requires
        0 <= k < p.len(),
        in_range(p, s.len() as int),
    ensures
        prod_sel(s, p) == prod_sel(s, p.remove(k)) * s[p[k] as int],
    decreases p.len(),
{
    if k == 0 {
        assert(p.remove(0) =~= p.skip(1));
        assert(s[p[0] as int] * prod_sel(s, p.skip(1)) == prod_sel(s, p.skip(1)) * s[p[0] as int])
            by (nonlinear_arith);
    } else {
        lemma_prod_sel_remove(s, p.skip(1), k - 1);
        assert(p.remove(k).skip(1) =~= p.skip(1).remove(k - 1));
        assert(p.remove(k)[0] == p[0]);
        assert(s[p[0] as int] * (prod_sel(s, p.skip(1).remove(k - 1)) * s[p[k] as int]) == (s[p[0]
            as int] * prod_sel(s, p.skip(1).remove(k - 1))) * s[p[k] as int]) by (nonlinear_arith);
    }
}

/// Splitting off the last factor of a product.
pub proof fn lemma_prod_take_last(s: Seq<usize>)
    requires
        s.len() > 0,
    ensures
        prod(s) == prod(s.take(s.len() - 1)) * s[s.len() - 1],
    decreases s.len(),
{
    if s.len() == 1 {
        assert(s.take(0) =~= Seq::<usize>::empty());
        assert(s.skip(1) =~= Seq::<usize>::empty());
    } else {
        lemma_prod_take_last(s.skip(1));
        assert(s.skip(1).take(s.len() - 2) =~= s.take(s.len() - 1).skip(1));
        assert(prod(s.take(s.len() - 1)) == s[0] * prod(s.take(s.len() - 1).skip(1)));
        assert(s[0] * (prod(s.skip(1).take(s.len() - 2)) * s[s.len() - 1]) == (s[0] * prod(
            s.skip(1).take(s.len() - 2),
        )) * s[s.len() - 1]) by (nonlinear_arith);
    }
}

/// Selecting every factor exactly once, in any order, multiplies to the
/// plain product.
pub proof fn lemma_prod_sel_permutation(s: Seq<usize>, p: Seq<usize>)
    requires
        is_permutation(p, s.len() as int),
    ensures
        prod_sel(s, p) == prod(s),
    decreases s.len(),
{
    let n = s.len() as int;
    if n == 0 {
    } else {
        lemma_permutation_onto(p, n, n - 1);
        let k = choose|k: int| 0 <= k < n && p[k] == n - 1;
        lemma_prod_sel_remove(s, p, k);
        let q = p.remove(k);
        assert forall|i: int, j: int| 0 <= i < j < q.len() implies #[trigger] q[i] != #[trigger] q[j] by {
            assert(q[i] == if i < k {
                p[i]
            } else {
                p[i + 1]
            });
            assert(q[j] == if j < k {
                p[j]
            } else {
                p[j + 1]
            });
        }
        assert forall|i: int| 0 <= i < q.len() implies #[trigger] q[i] < n - 1 by {
            let src = if i < k {
                i
            } else {
                i + 1
            };
            assert(q[i] == p[src]);
            assert(p[src] != n - 1);
        }
        lemma_prod_sel_prefix(s, q, n - 1);
        lemma_prod_sel_permutation(s.take(n - 1), q);
        lemma_prod_take_last(s);
    }
}

/// Selecting every position of `ts` exactly once, in any order, sums to the
/// plain sum of `ts`.
pub proof fn lemma_sum_sel_permutation(ts: Seq<int>, p: Seq<usize>)
    requires
        is_permutation(p, ts.len() as int),
    ensures
        sum_sel(ts, p) == sum(ts),
    decreases ts.len(),
{
    let n = ts.len() as int;
    if n == 0 {
    } else {
        lemma_permutation_onto(p, n, n - 1);
        let k = choose|k: int| 0 <= k < n && p[k] == n - 1;
        lemma_sum_sel_remove(ts, p, k);
        let q = p.remove(k);
        assert forall|i: int, j: int| 0 <= i < j < q.len() implies #[trigger] q[i] != #[trigger] q[j] by {
            assert(q[i] == if i < k {
                p[i]
            } else {
                p[i + 1]
            });
            assert(q[j] == if j < k {
                p[j]
            } else {
                p[j + 1]
            });
        }
        assert forall|i: int| 0 <= i < q.len() implies #[trigger] q[i] < n - 1 by {
            let src = if i < k {
                i
            } else {
                i + 1
            };
            assert(q[i] == p[src]);
            assert(p[src] != n - 1);
        }
        lemma_sum_sel_prefix(ts, q, n - 1);
        lemma_sum_sel_permutation(ts.take(n - 1), q);
        lemma_sum_take_last(ts);
    }
}

} // verus!
