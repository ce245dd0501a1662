//! Factors by which the matrices of a tensor are batched into one claim.
use vstd::prelude::*;
use vstd::arithmetic::power2::{lemma_pow2_adds, pow2};
use vstd::arithmetic::div_mod::*;
use crate::field::{all_stand_for, residues, stands_for, Lifted, PrimeField};
use crate::mle::{beta, betas, compute_betas_eval, lemma_beta_join, lemma_mle_grid, lemma_pow2_unfold_zero, mle};
use crate::shape::{dim_point, flat, in_bounds, lemma_flat, lemma_num_vars_skip, lemma_num_vars_split, lemma_unflat, lemma_unflat_len, log2_ceil, num_vars, numel, unflat};
use crate::sum::{lemma_sum_grid, lemma_sum_same, lemma_sum_split, lemma_sum_zero, sum};

verus! {

/// The residues of several points.
pub open spec fn point_residues<F: PrimeField>(points: Seq<Vec<F>>) -> Seq<Seq<int>> {
    Seq::new(points.len(), |k: int| residues(points[k]@))
}

/// The product of the factors of each index at the point of its dimension.
pub open spec fn factors(points: Seq<Seq<int>>, idx: Seq<int>) -> int
    decreases idx.len(),
{
    if idx.len() == 0 {
        1
    } else {
        factors(points, idx.drop_last()) * beta(points[idx.len() - 1], idx.last())
    }
}

/// For every position inside the dimensions, in the order in which they are
/// stored, the product of the factors of its indices.
pub fn batching_challenges<F: PrimeField>(points: &Vec<Vec<F>>, dims: &Vec<usize>) -> (r: Vec<F>)
    requires
        dims@.len() <= points@.len(),
        forall|k: int|
            0 <= k < dims@.len() ==> #[trigger] dims@[k] <= pow2(points@[k]@.len()) && pow2(
                points@[k]@.len(),
            ) <= usize::MAX,
        forall|k: int| 0 <= k <= dims@.len() ==> #[trigger] numel(dims@.take(k)) <= usize::MAX,
    ensures
        r@.len() == numel(dims@),
        forall|p: int|
            0 <= p < r@.len() ==> stands_for(
                #[trigger] r@[p],
                factors(point_residues(points@), unflat(dims@, p)),
            ),
{
    let ghost ps = point_residues(points@);
    let mut acc: Vec<F> = Vec::new();
    acc.push(Lifted::<F>::one().get());
    assert(dims@.take(0).len() == 0);
    for k in 0..dims.len()
        invariant
            dims@.len() <= points@.len(),
            forall|k: int|
                0 <= k < dims@.len() ==> #[trigger] dims@[k] <= pow2(points@[k]@.len()) && pow2(
                    points@[k]@.len(),
                ) <= usize::MAX,
            forall|k: int| 0 <= k <= dims@.len() ==> #[trigger] numel(dims@.take(k)) <= usize::MAX,
            ps == point_residues(points@),
            acc@.len() == numel(dims@.take(k as int)),
            forall|p: int|
                0 <= p < acc@.len() ==> stands_for(
                    #[trigger] acc@[p],
                    factors(ps, unflat(dims@.take(k as int), p)),
                ),
    {
        let ghost d = dims@.take(k as int);
        let ghost d1 = dims@.take(k + 1);
        proof {
            assert(dims@[k as int] <= pow2(points@[k as int]@.len()));
            assert(d1.drop_last() =~= d);
        }
        let evals = compute_betas_eval(points[k].as_slice());
        let dim: usize = dims[k];
        let size: usize = acc.len();
        let mut next: Vec<F> = Vec::new();
        assert(0 * dim as int == 0);
        for i in 0..size
            invariant
                0 <= k < dims@.len() <= points@.len(),
                ps == point_residues(points@),
                d == dims@.take(k as int),
                d1 == dims@.take(k + 1),
                d1.drop_last() == d,
                dim == dims@[k as int],
                dim <= evals@.len(),
                all_stand_for(evals@, betas(ps[k as int])),
                size == acc@.len(),
                forall|p: int|
                    0 <= p < size ==> stands_for(#[trigger] acc@[p], factors(ps, unflat(d, p))),
                next@.len() == i * dim,
                forall|p: int|
                    0 <= p < next@.len() ==> stands_for(
                        #[trigger] next@[p],
                        factors(ps, unflat(d1, p)),
                    ),
        {
            for e in 0..dim
                invariant
                    0 <= k < dims@.len() <= points@.len(),
                    0 <= i < size,
                    ps == point_residues(points@),
                    d == dims@.take(k as int),
                    d1 == dims@.take(k + 1),
                    d1.drop_last() == d,
                    dim == dims@[k as int],
                    dim <= evals@.len(),
                    all_stand_for(evals@, betas(ps[k as int])),
                    size == acc@.len(),
                    forall|p: int|
                        0 <= p < size ==> stands_for(#[trigger] acc@[p], factors(ps, unflat(d, p))),
                    next@.len() == i * dim + e,
                    forall|p: int|
                        0 <= p < next@.len() ==> stands_for(
                            #[trigger] next@[p],
                            factors(ps, unflat(d1, p)),
                        ),
            {
                proof {
                    let p = i * dim + e;
                    lemma_fundamental_div_mod_converse(p, dim as int, i as int, e as int);
                    let u = unflat(d1, p);
                    assert(u == unflat(d, i as int).push(e as int));
                    assert(u.drop_last() =~= unflat(d, i as int));
                    lemma_unflat_len(d, i as int);
                    assert(betas(ps[k as int])[e as int] == beta(ps[k as int], e as int));
                }
                let c = Lifted::known(acc[i], Ghost(factors(ps, unflat(d, i as int))));
                let b = Lifted::known(evals[e], Ghost(beta(ps[k as int], e as int)));
                next.push(c.times(b).get());
            }
            assert((i + 1) * dim == i * dim + dim) by (nonlinear_arith);
        }
        acc = next;
    }
    assert(dims@.take(dims@.len() as int) =~= dims@);
    acc
}

/// The points of the dimensions of a tensor.
pub open spec fn dim_points(d: Seq<usize>, point: Seq<int>) -> Seq<Seq<int>> {
    Seq::new(d.len(), |k: int| dim_point(d, point, k))
}

/// Every dimension is a power of two.
pub open spec fn all_pow2(d: Seq<usize>) -> bool {
    forall|k: int| 0 <= k < d.len() ==> #[trigger] d[k] == pow2(log2_ceil(d[k] as nat))
}

/// The number of values of a tensor whose dimensions are powers of two.
pub proof fn lemma_numel_pow2(d: Seq<usize>)
    requires
        all_pow2(d),
    ensures
        numel(d) == pow2(num_vars(d)),
    decreases d.len(),
{
    if d.len() == 0 {
        lemma_pow2_unfold_zero();
    } else {
        let d1 = d.drop_last();
        assert forall|k: int| 0 <= k < d1.len() implies #[trigger] d1[k] == pow2(
            log2_ceil(d1[k] as nat),
        ) by {
            assert(d[k] == pow2(log2_ceil(d[k] as nat)));
        }
        lemma_numel_pow2(d1);
        assert(d[d.len() - 1] == pow2(log2_ceil(d[d.len() - 1] as nat)));
        lemma_pow2_adds(num_vars(d1), log2_ceil(d.last() as nat));
    }
}

/// The factors of the first few indices of a position multiply to the factor, at
/// the coordinates of their dimensions, of where that position is stored.
pub proof fn lemma_factors(d: Seq<usize>, p: Seq<int>, idx: Seq<int>)
    requires
        all_pow2(d),
        p.len() == num_vars(d),
        idx.len() <= d.len(),
        in_bounds(d.take(idx.len() as int), idx),
    ensures
        factors(dim_points(d, p), idx) == beta(
            p.skip(num_vars(d.skip(idx.len() as int)) as int),
            flat(d.take(idx.len() as int), idx),
        ),
        0 <= num_vars(d.skip(idx.len() as int)) <= p.len(),
    decreases idx.len(),
{
    let k = idx.len() as int;
    lemma_num_vars_split(d, k);
    if k == 0 {
        assert(d.skip(0) =~= d);
        assert(p.skip(p.len() as int).len() == 0);
    } else {
        let idx1 = idx.drop_last();
        let t = d.take(k);
        let t1 = d.take(k - 1);
        assert(t.drop_last() =~= t1);
        assert forall|j: int| 0 <= j < k - 1 implies 0 <= #[trigger] idx1[j] < t1[j] by {
            assert(0 <= idx[j] < t[j]);
        }
        assert(0 <= idx[k - 1] < t[k - 1]);
        lemma_factors(d, p, idx1);
        lemma_num_vars_skip(d, k - 1);
        lemma_num_vars_split(d, k - 1);
        assert(d[k - 1] == pow2(log2_ceil(d[k - 1] as nat)));
        let from = num_vars(d.skip(k)) as int;
        let to = num_vars(d.skip(k - 1)) as int;
        let low = p.subrange(from, to);
        let high = p.skip(to);
        assert(p.skip(from) =~= low + high);
        assert(dim_points(d, p)[k - 1] == low);
        assert forall|j: int| 0 <= j < t1.len() implies #[trigger] t1[j] == pow2(
            log2_ceil(t1[j] as nat),
        ) by {
            assert(d[j] == pow2(log2_ceil(d[j] as nat)));
        }
        lemma_numel_pow2(t1);
        lemma_flat(t1, idx1);
        lemma_beta_join(low, high, idx.last(), flat(t1, idx1));
        let x = beta(low, idx.last());
        let y = beta(high, flat(t1, idx1));
        assert(x * y == y * x) by (nonlinear_arith);
    }
}

/// A sum over the positions of a tensor that vanishes outside smaller dimensions
/// is the sum over the positions inside these.
pub proof fn lemma_sum_inside(d: Seq<usize>, u: Seq<usize>, g: spec_fn(int) -> int)
    requires
        d.len() == u.len(),
        forall|k: int| 0 <= k < d.len() ==> u[k] <= #[trigger] d[k],
        forall|p: int|
            0 <= p < numel(d) && !in_bounds(u, unflat(d, p)) ==> #[trigger] g(p) == 0,
    ensures
        sum(numel(d), g) == sum(numel(u), |k: int| g(flat(d, unflat(u, k)))),
    decreases d.len(),
{
    let goal = |k: int| g(flat(d, unflat(u, k)));
    if d.len() == 0 {
        reveal_with_fuel(sum, 2);
        assert(sum(1, goal) == goal(0));
        assert(flat(d, unflat(u, 0)) == 0);
    } else {
        let d1 = d.drop_last();
        let u1 = u.drop_last();
        let l = d.last() as nat;
        let v = u.last() as nat;
        assert(u[d.len() - 1] <= d[d.len() - 1]);
        let n = numel(d1);
        let m = numel(u1);
        lemma_sum_grid(n, l, g);
        let rows = |a: int| sum(l, |b: int| g(a * l + b));
        let short = |a: int| sum(v, |b: int| g(a * l + b));
        assert forall|a: int| 0 <= a < n implies #[trigger] rows(a) == short(a) by {
            let r = |b: int| g(a * l + b);
            lemma_sum_split(v, (l - v) as nat, r);
            let tail = |b: int| r(v + b);
            assert forall|b: int| 0 <= b < l - v implies #[trigger] tail(b) == 0 by {
                lemma_row_place(d, a, v + b);
                let q = unflat(d, a * l + v + b);
                assert(q[d.len() - 1] == v + b);
                if in_bounds(u, q) {
                    assert(q[d.len() - 1] < u[d.len() - 1]);
                }
                assert(a * l + (v + b) == a * l + v + b);
            }
            lemma_sum_zero((l - v) as nat, tail);
        }
        lemma_sum_same(n, rows, short);
        assert forall|a: int| 0 <= a < n && !in_bounds(u1, unflat(d1, a)) implies #[trigger] short(
            a,
        ) == 0 by {
            let r = |b: int| g(a * l + b);
            assert forall|b: int| 0 <= b < v implies #[trigger] r(b) == 0 by {
                lemma_row_place(d, a, b);
                let q = unflat(d, a * l + b);
                if in_bounds(u, q) {
                    let q1 = unflat(d1, a);
                    lemma_unflat_len(d1, a);
                    assert forall|j: int| 0 <= j < u1.len() implies 0 <= #[trigger] q1[j] < u1[j] by {
                        assert(q[j] == q1[j]);
                        assert(0 <= q[j] < u[j]);
                    }
                }
            }
            lemma_sum_zero(v, r);
        }
        assert forall|k: int| 0 <= k < d1.len() implies u1[k] <= #[trigger] d1[k] by {
            assert(u[k] <= d[k]);
        }
        lemma_sum_inside(d1, u1, short);
        lemma_sum_grid(m, v, goal);
        let left = |a: int| short(flat(d1, unflat(u1, a)));
        let right = |a: int| sum(v, |b: int| goal(a * v + b));
        assert forall|a: int| 0 <= a < m implies #[trigger] left(a) == right(a) by {
            let e = flat(d1, unflat(u1, a));
            let x = |b: int| g(e * l + b);
            let y = |b: int| goal(a * v + b);
            assert forall|b: int| 0 <= b < v implies #[trigger] x(b) == y(b) by {
                lemma_row_place(u, a, b);
                let q = unflat(u, a * v + b);
                assert(q.drop_last() =~= unflat(u1, a));
                assert(q.last() == b);
            }
            lemma_sum_same(v, x, y);
        }
        lemma_sum_same(m, left, right);
    }
}

/// The position of the `b`-th value of the `a`-th row.
proof fn lemma_row_place(d: Seq<usize>, a: int, b: int)
    requires
        d.len() > 0,
        0 <= a < numel(d.drop_last()),
        0 <= b < d.last(),
    ensures
        unflat(d, a * d.last() + b) == unflat(d.drop_last(), a).push(b),
        unflat(d, a * d.last() + b).len() == d.len(),
        0 <= a * d.last() + b < numel(d),
{
    let l = d.last() as int;
    let n = numel(d.drop_last()) as int;
    lemma_fundamental_div_mod_converse(a * l + b, l, a, b);
    lemma_unflat_len(d, a * l + b);
    assert(0 <= a * l + b < n * l) by (nonlinear_arith)
        requires
            0 <= a < n,
            0 <= b < l,
    ;
}

/// The value of a tensor of which the parts before the last `d.len() - r`
/// dimensions are padding outside `u`: the extension of the whole is the sum of
/// the extensions of its parts, each weighted by the factors of its place.
pub proof fn law_batched_claim(d: Seq<usize>, u: Seq<usize>, r: int, t: Seq<int>, p: Seq<int>)
    requires
        0 <= r <= d.len(),
        all_pow2(d),
        u.len() == r,
        forall|k: int| 0 <= k < r ==> u[k] <= #[trigger] d[k],
        t.len() == numel(d),
        p.len() == num_vars(d),
        forall|h: int, x: int|
            0 <= h < numel(d.take(r)) && 0 <= x < pow2(num_vars(d.skip(r))) && !in_bounds(
                u,
                unflat(d.take(r), h),
            ) ==> #[trigger] t[h * pow2(num_vars(d.skip(r))) + x] == 0,
    ensures
        mle(t, p) == sum(
            numel(u),
            |k: int|
                factors(dim_points(d, p), unflat(u, k)) * mle(
                    part_of(t, pow2(num_vars(d.skip(r))), flat(d.take(r), unflat(u, k))),
                    p.take(num_vars(d.skip(r)) as int),
                ),
        ),
{
    let v = num_vars(d.skip(r));
    let size = pow2(v);
    let b = d.take(r);
    lemma_num_vars_split(d, r);
    let low = p.take(v as int);
    let high = p.skip(v as int);
    assert(p =~= low + high);
    assert forall|k: int| 0 <= k < b.len() implies #[trigger] b[k] == pow2(log2_ceil(b[k] as nat)) by {
        assert(d[k] == pow2(log2_ceil(d[k] as nat)));
    }
    lemma_numel_pow2(b);
    assert(numel(b) == pow2(high.len()));
    lemma_mle_grid(t, low, high);
    let g = |h: int| sum(size, |x: int| t[h * size + x] * beta(low, x)) * beta(high, h);
    assert forall|h: int| 0 <= h < numel(b) && !in_bounds(u, unflat(b, h)) implies #[trigger] g(h)
        == 0 by {
        let f = |x: int| t[h * size + x] * beta(low, x);
        assert forall|x: int| 0 <= x < size implies #[trigger] f(x) == 0 by {
            assert(t[h * size + x] == 0);
            assert(0 * beta(low, x) == 0);
        }
        lemma_sum_zero(size, f);
        assert(0 * beta(high, h) == 0);
    }
    assert forall|k: int| 0 <= k < b.len() implies u[k] <= #[trigger] b[k] by {
        assert(u[k] <= d[k]);
    }
    lemma_sum_inside(b, u, g);
    let left = |k: int| g(flat(b, unflat(u, k)));
    let right = |k: int|
        factors(dim_points(d, p), unflat(u, k)) * mle(
            part_of(t, size, flat(b, unflat(u, k))),
            low,
        );
    assert forall|k: int| 0 <= k < numel(u) implies #[trigger] left(k) == right(k) by {
        let idx = unflat(u, k);
        lemma_unflat(u, k);
        assert forall|j: int| 0 <= j < b.len() implies 0 <= #[trigger] idx[j] < b[j] by {
            assert(0 <= idx[j] < u[j]);
            assert(u[j] <= b[j]);
        }
        lemma_factors(d, p, idx);
        let h = flat(b, idx);
        lemma_flat(b, idx);
        let part = part_of(t, size, h);
        lemma_sum_same(
            size,
            |x: int| t[h * size + x] * beta(low, x),
            |x: int| part[x] * beta(low, x),
        );
        let y = mle(part, low);
        let z = beta(high, h);
        assert(y * z == z * y) by (nonlinear_arith);
    }
    lemma_sum_same(numel(u), left, right);
}

/// The `h`-th part of a table, where each part has `size` values.
pub open spec fn part_of(t: Seq<int>, size: nat, h: int) -> Seq<int> {
    Seq::new(size, |x: int| t[h * size + x])
}

} // verus!
