//! What holds of rotations as a whole.
use vstd::prelude::*;
use vstd::arithmetic::div_mod::*;
use vstd::arithmetic::power2::{lemma_pow2_adds, pow2};
use crate::attention_mask::prove::matrix_vars;
use crate::batching::all_pow2;
use crate::claim::{Claim, SubClaim};
use crate::congruence::{cong, lemma_cong_plus, lemma_cong_sum, lemma_cong_times, lemma_end_cong, lemma_residue_cong, lemma_stands_cong};
use crate::error::Error;
use crate::field::{all_stand_for, residues, stands_for, PrimeField};
use crate::logits::witness::element_ints;
use crate::mle::{beta, betas, fixed_high, identity, lemma_beta_join, lemma_betas_sum, lemma_fixed_high, lemma_halves, lemma_identity, lemma_mle_betas, lemma_mle_grid, lemma_pow2_unfold_zero, mle};
use crate::positional::rope::layout::{counter_rotated, permuted_identity, rotated, RopeLayout};
use crate::positional::rope::prove::{kept_half, matrix_point, row_bound, RopeProof, RopeSumcheck};
use crate::positional::rope::{spread, Rope, RopeCtx};
use crate::shape::{flat, in_bounds, lemma_flat, lemma_matrix_place, log2_ceil};
use crate::sum::{lemma_sum_grid, lemma_sum_plus, lemma_sum_same, lemma_sum_scale, lemma_sum_split, sum};
use crate::tensor::{Element, Tensor};
use crate::triangular::{lemma_bounded_table, upto};

verus! {

/// A sum over a table of blocks of two halves.
proof fn lemma_sum_halves(m: nat, h: nat, f: spec_fn(int) -> int)
    ensures
        sum(m * (2 * h), f) == sum(
            m,
            |i: int|
                sum(h, |l: int| f(i * (2 * h) + l)) + sum(h, |l: int| f(i * (2 * h) + h + l)),
        ),
{
    let w = 2 * h;
    lemma_sum_grid(m, w, f);
    let rows = |i: int| sum(w, |j: int| f(i * w + j));
    let goal = |i: int|
        sum(h, |l: int| f(i * (2 * h) + l)) + sum(h, |l: int| f(i * (2 * h) + h + l));
    assert forall|i: int| 0 <= i < m implies #[trigger] rows(i) == goal(i) by {
        let g = |j: int| f(i * w + j);
        lemma_sum_split(h, h, g);
        lemma_sum_same(h, g, |l: int| f(i * (2 * h) + l));
        lemma_sum_same(h, |l: int| g(h + l), |l: int| f(i * (2 * h) + h + l));
    }
    lemma_sum_same(m, rows, goal);
}

/// The values of the two permuted tables in a block.
proof fn lemma_block_values(t: Seq<int>, m: nat, h: nat, i: int, l: int)
    requires
        t.len() == m * (2 * h),
        0 <= i < m,
        0 <= l < h,
    ensures
        ({
            let w = 2 * h as int;
            let b = i * (2 * h);
            &&& 0 <= b && b + w <= t.len()
            &&& rotated(t, w)[b + l] == -t[b + h + l]
            &&& rotated(t, w)[b + h + l] == t[b + l]
            &&& counter_rotated(t, w)[b + l] == t[b + h + l]
            &&& counter_rotated(t, w)[b + h + l] == -t[b + l]
        }),
{
    let w = 2 * h as int;
    let b = i * (2 * h);
    assert(0 <= b && b + w <= m * (2 * h)) by (nonlinear_arith)
        requires
            b == i * (2 * h),
            w == 2 * h,
            0 <= i < m,
    ;
    assert(b == i * w);
    lemma_fundamental_div_mod_converse(b + l, w, i, l);
    lemma_fundamental_div_mod_converse(b + h + l, w, i, h + l);
    assert((w + 1) / 2 == h);
    assert(w / 2 == h);
}

/// What the sumcheck sums for the permuted input is the permuted input weighted by
/// the factors: to permute the factors the other way is to permute the table.
pub proof fn law_permuted_sum(t: Seq<int>, eq: Seq<int>, m: nat, h: nat)
    requires
        t.len() == m * (2 * h),
        eq.len() == t.len(),
    ensures
        sum(t.len(), |p: int| t[p] * counter_rotated(eq, 2 * h as int)[p]) == sum(
            t.len(),
            |p: int| rotated(t, 2 * h as int)[p] * eq[p],
        ),
{
    let w = 2 * h as int;
    let f = |p: int| t[p] * counter_rotated(eq, w)[p];
    let g = |p: int| rotated(t, w)[p] * eq[p];
    lemma_sum_halves(m, h, f);
    lemma_sum_halves(m, h, g);
    let fs = |i: int|
        sum(h, |l: int| f(i * (2 * h) + l)) + sum(h, |l: int| f(i * (2 * h) + h + l));
    let gs = |i: int|
        sum(h, |l: int| g(i * (2 * h) + l)) + sum(h, |l: int| g(i * (2 * h) + h + l));
    assert forall|i: int| 0 <= i < m implies #[trigger] fs(i) == gs(i) by {
        let b = i * (2 * h);
        let f1 = |l: int| f(i * (2 * h) + l);
        let f2 = |l: int| f(i * (2 * h) + h + l);
        let g1 = |l: int| g(i * (2 * h) + l);
        let g2 = |l: int| g(i * (2 * h) + h + l);
        assert forall|l: int| 0 <= l < h implies #[trigger] f1(l) == g2(l) by {
            lemma_block_values(t, m, h, i, l);
            lemma_block_values(eq, m, h, i, l);
        }
        assert forall|l: int| 0 <= l < h implies #[trigger] f2(l) == g1(l) by {
            lemma_block_values(t, m, h, i, l);
            lemma_block_values(eq, m, h, i, l);
            let (x, y) = (t[b + h + l], eq[b + l]);
            assert(x * (-y) == (-x) * y) by (nonlinear_arith);
        }
        lemma_sum_same(h, f1, g2);
        lemma_sum_same(h, f2, g1);
    }
    lemma_sum_same(m, fs, gs);
}

/// The factor of a point at a place in a block, by the coordinates below the block,
/// the one that tells its halves apart and those above it.
proof fn lemma_block_factor(e: Seq<int>, r: int, i: int, l: int)
    requires
        1 <= r <= e.len(),
        0 <= i < pow2((e.len() - r) as nat),
        0 <= l < pow2((r - 1) as nat),
    ensures
        ({
            let h = pow2((r - 1) as nat);
            let low = beta(e.take(r - 1), l);
            let high = beta(e.skip(r), i);
            &&& beta(e, i * (2 * h) + l) == low * (1 - e[r - 1]) * high
            &&& beta(e, i * (2 * h) + h + l) == low * e[r - 1] * high
        }),
{
    let h = pow2((r - 1) as nat);
    let a = e.take(r);
    let b = e.skip(r);
    let low = e.take(r - 1);
    let mid = seq![e[r - 1]];
    assert(a + b =~= e);
    assert(low + mid =~= a);
    lemma_halves(r as nat);
    lemma_pow2_unfold_zero();
    lemma_halves(1);
    lemma_beta_join(low, mid, l, 0);
    lemma_beta_join(low, mid, l, 1);
    assert(0 * h == 0 && 1 * h == h);
    assert(mid.drop_last() =~= Seq::<int>::empty());
    reveal_with_fuel(beta, 3);
    assert(pow2((mid.len() - 1) as nat) == 1);
    assert(beta(mid.drop_last(), 0) == 1);
    assert(mid.last() == e[r - 1]);
    assert(1 * mid.last() == mid.last() && 1 * (1 - mid.last()) == 1 - mid.last());
    assert(beta(mid, 0) == 1 - e[r - 1]);
    assert(beta(mid, 1) == e[r - 1]);
    lemma_beta_join(a, b, l, i);
    lemma_beta_join(a, b, (h + l) as int, i);
}

/// Six factors, regrouped.
proof fn lemma_regroup(a: int, p: int, x: int, b: int, q: int, y: int)
    ensures
        (a * p * x) * (b * q * y) == (p * q) * ((x * y) * (a * b)),
{
    let ax = a * x;
    let by_ = b * y;
    assert(a * p * x == p * ax) by (nonlinear_arith)
        requires
            ax == a * x,
    ;
    assert(b * q * y == q * by_) by (nonlinear_arith)
        requires
            by_ == b * y,
    ;
    assert((p * ax) * (q * by_) == (p * q) * (ax * by_)) by (nonlinear_arith);
    assert((a * x) * (b * y) == (x * y) * (a * b)) by (nonlinear_arith);
}

/// The extension of the permuted factors of a point is their closed form.
pub proof fn law_permuted_identity(e: Seq<int>, s: Seq<int>, r: int)
    requires
        e.len() == s.len(),
        1 <= r <= e.len(),
    ensures
        mle(counter_rotated(betas(e), pow2(r as nat) as int), s) == permuted_identity(e, s, r),
{
    let h = pow2((r - 1) as nat);
    let m = pow2((e.len() - r) as nat);
    let w = 2 * h as int;
    lemma_halves(r as nat);
    lemma_pow2_adds(r as nat, (e.len() - r) as nat);
    assert(m * (2 * h) == (2 * h) * m) by (nonlinear_arith);
    let eq = betas(e);
    let t = counter_rotated(eq, w);
    let f = |p: int| t[p] * beta(s, p);
    assert(mle(t, s) == sum(pow2(s.len()), f));
    lemma_sum_halves(m, h, f);
    let (el, sl) = (e.take(r - 1), s.take(r - 1));
    let (eh, sh) = (e.skip(r), s.skip(r));
    let turn = e[r - 1] - s[r - 1];
    let low = identity(el, sl);
    let rows = |i: int|
        sum(h, |l: int| f(i * (2 * h) + l)) + sum(h, |l: int| f(i * (2 * h) + h + l));
    let high = |i: int| beta(eh, i) * beta(sh, i);
    assert forall|i: int| 0 <= i < m implies #[trigger] rows(i) == (low * turn) * high(i) by {
        let f1 = |l: int| f(i * (2 * h) + l);
        let f2 = |l: int| f(i * (2 * h) + h + l);
        let g = |l: int| beta(el, l) * beta(sl, l);
        let c = turn * high(i);
        lemma_sum_plus(h, f1, f2);
        let both = |l: int| f1(l) + f2(l);
        assert forall|l: int| 0 <= l < h implies #[trigger] both(l) == c * g(l) by {
            lemma_block_values(eq, m, h, i, l);
            lemma_block_factor(e, r, i, l);
            lemma_block_factor(s, r, i, l);
            let (a, b) = (beta(el, l), beta(sl, l));
            let (x, y) = (beta(eh, i), beta(sh, i));
            let (u, v) = (e[r - 1], s[r - 1]);
            let k = (x * y) * (a * b);
            lemma_regroup(a, u, x, b, 1 - v, y);
            lemma_regroup(a, 1 - u, x, b, v, y);
            let (p, q) = (a * (1 - u) * x, b * v * y);
            assert((-p) * q == -(p * q)) by (nonlinear_arith);
            assert((u * (1 - v)) * k - ((1 - u) * v) * k == (u - v) * k) by (nonlinear_arith);
            let z = x * y;
            let d = u - v;
            let ab = a * b;
            assert((d * z) * ab == d * (z * ab)) by (nonlinear_arith);
        }
        lemma_sum_same(h, both, |l: int| c * g(l));
        lemma_sum_scale(h, c, g);
        lemma_identity(el, sl);
        lemma_sum_same(h, g, |l: int| beta(el, l) * beta(sl, l));
        let z = high(i);
        assert((turn * z) * low == (low * turn) * z) by (nonlinear_arith);
    }
    lemma_sum_same(m, rows, |i: int| (low * turn) * high(i));
    lemma_sum_scale(m, low * turn, high);
    lemma_identity(eh, sh);
    lemma_sum_same(m, high, |i: int| beta(eh, i) * beta(sh, i));
}

/// The two values of each pair are the same, where a block has two halves of `h`.
pub open spec fn paired(t: Seq<int>, m: nat, h: nat) -> bool {
    forall|i: int, l: int|
        0 <= i < m && 0 <= l < h ==> #[trigger] t[i * (2 * h) + l] == t[i * (2 * h) + h + l]
}

/// What the sumcheck of a rotation sums is the rotated input, weighted by the factors
/// of the point, in the rows of the tokens: the sines are the same in each pair, and
/// so is the bound on the rows.
pub proof fn law_rope_sum(
    x: Seq<int>,
    cosine: Seq<int>,
    sine: Seq<int>,
    lt: Seq<int>,
    eq: Seq<int>,
    m: nat,
    h: nat,
)
    requires
        x.len() == m * (2 * h),
        eq.len() == x.len(),
        cosine.len() == x.len(),
        sine.len() == x.len(),
        lt.len() == x.len(),
        paired(sine, m, h),
        paired(lt, m, h),
    ensures
        sum(
            x.len(),
            |p: int|
                x[p] * lt[p] * (eq[p] * cosine[p] + counter_rotated(eq, 2 * h as int)[p] * sine[p]),
        ) == sum(
            x.len(),
            |p: int| (lt[p] * (x[p] * cosine[p] + rotated(x, 2 * h as int)[p] * sine[p])) * eq[p],
        ),
{
    let n = x.len();
    let w = 2 * h as int;
    let z = Seq::new(n, |p: int| eq[p] * sine[p] * lt[p]);
    law_permuted_sum(x, z, m, h);
    let first = |p: int| x[p] * lt[p] * (eq[p] * cosine[p]);
    let f = |p: int| x[p] * lt[p] * (eq[p] * cosine[p] + counter_rotated(eq, w)[p] * sine[p]);
    let g = |p: int| (lt[p] * (x[p] * cosine[p] + rotated(x, w)[p] * sine[p])) * eq[p];
    let a = |p: int| x[p] * counter_rotated(z, w)[p];
    let b = |p: int| rotated(x, w)[p] * z[p];
    assert forall|p: int| 0 <= p < n implies #[trigger] f(p) == first(p) + a(p) by {
        lemma_counter_scaled(eq, sine, lt, m, h, p);
        let (q, u, c, v, s) = (
            x[p],
            lt[p],
            eq[p] * cosine[p],
            counter_rotated(eq, w)[p],
            sine[p],
        );
        let vs = v * s;
        assert(q * u * (c + vs) == q * u * c + q * (vs * u)) by (nonlinear_arith);
    }
    assert forall|p: int| 0 <= p < n implies #[trigger] g(p) == first(p) + b(p) by {
        let (q, u, c, v, s, e) = (x[p], lt[p], cosine[p], rotated(x, w)[p], sine[p], eq[p]);
        let qc = q * c;
        let vs = v * s;
        assert((u * (qc + vs)) * e == (u * qc) * e + (u * vs) * e) by (nonlinear_arith);
        assert((u * (q * c)) * e == q * u * (e * c)) by (nonlinear_arith);
        assert((u * (v * s)) * e == v * (e * s * u)) by (nonlinear_arith);
    }
    lemma_sum_same(n, f, |p: int| first(p) + a(p));
    lemma_sum_same(n, g, |p: int| first(p) + b(p));
    lemma_sum_plus(n, first, a);
    lemma_sum_plus(n, first, b);
}

/// Factors that are the same in each pair can be taken out of permuted factors.
proof fn lemma_counter_scaled(eq: Seq<int>, s: Seq<int>, u: Seq<int>, m: nat, h: nat, p: int)
    requires
        eq.len() == m * (2 * h),
        s.len() == eq.len(),
        u.len() == eq.len(),
        paired(s, m, h),
        paired(u, m, h),
        0 <= p < eq.len(),
    ensures
        ({
            let z = Seq::new(eq.len(), |q: int| eq[q] * s[q] * u[q]);
            counter_rotated(z, 2 * h as int)[p] == (counter_rotated(eq, 2 * h as int)[p] * s[p])
                * u[p]
        }),
{
    let w = 2 * h as int;
    let z = Seq::new(eq.len(), |q: int| eq[q] * s[q] * u[q]);
    if h == 0 {
        assert(m * (2 * h) == 0) by (nonlinear_arith)
            requires
                h == 0,
        ;
    }
    let i = p / w;
    let j = p % w;
    lemma_fundamental_div_mod(p, w);
    lemma_mod_bound(p, w);
    assert(0 <= i < m) by (nonlinear_arith)
        requires
            p == w * i + j,
            0 <= p < m * w,
            0 <= j < w,
    ;
    assert(i * (2 * h) == w * i) by (nonlinear_arith)
        requires
            w == 2 * h,
    ;
    let l = if j < h {
        j
    } else {
        j - h
    };
    lemma_block_values(eq, m, h, i, l);
    lemma_block_values(z, m, h, i, l);
    let (lo, hi) = (i * (2 * h) + l, i * (2 * h) + h + l);
    assert(s[lo] == s[hi]);
    assert(u[lo] == u[hi]);
    if j >= h {
        let (a, b, c) = (eq[lo], s[lo], u[lo]);
        assert(-(a * b * c) == ((-a) * b) * c) by (nonlinear_arith);
    }
}

/// A matrix whose values come in pairs is committed to with one value of each pair:
/// its extension is that of the kept values, without the coordinate that tells the
/// two values of a pair apart.
pub proof fn law_committed_half(
    layout: RopeLayout,
    data: Seq<Element>,
    row_vars: nat,
    point: Seq<int>,
)
    requires
        data.len() == pow2(point.len()),
        1 <= row_vars <= point.len(),
        ({
            let r = layout.block_vars(row_vars as int) as nat;
            paired(
                element_ints(data),
                pow2((point.len() - r) as nat),
                pow2((r - 1) as nat),
            )
        }),
    ensures
        mle(
            element_ints(kept_half(layout, data, pow2(row_vars) as int)),
            point.remove(layout.block_vars(row_vars as int) - 1),
        ) == mle(element_ints(data), point),
{
    let r = layout.block_vars(row_vars as int) as nat;
    let n = point.len();
    let h = pow2((r - 1) as nat);
    let m = pow2((n - r) as nat);
    let t = element_ints(data);
    let u = element_ints(kept_half(layout, data, pow2(row_vars) as int));
    let q = point.remove(r - 1);
    let low = point.take(r - 1);
    let high = point.skip(r as int);
    assert(q =~= low + high);
    lemma_halves(r);
    lemma_halves(n);
    lemma_pow2_adds(r, (n - r) as nat);
    lemma_pow2_adds((r - 1) as nat, (n - r) as nat);
    lemma_pow2_unfold_zero();
    assert(m * (2 * h) == (2 * h) * m) by (nonlinear_arith);
    assert(m * h == h * m) by (nonlinear_arith);
    if layout == RopeLayout::RotateHalf {
        let w = pow2(row_vars) as int;
        assert(data.len() as int / w == m) by {
            lemma_fundamental_div_mod_converse(data.len() as int, w, m as int, 0);
        }
    }
    let f = |k: int| t[k] * beta(point, k);
    let g = |k: int| u[k] * beta(q, k);
    lemma_sum_halves(m, h, f);
    lemma_sum_grid(m, h, g);
    let fs = |i: int|
        sum(h, |l: int| f(i * (2 * h) + l)) + sum(h, |l: int| f(i * (2 * h) + h + l));
    let gs = |i: int| sum(h, |l: int| g(i * h + l));
    assert forall|i: int| 0 <= i < m implies #[trigger] fs(i) == gs(i) by {
        let f1 = |l: int| f(i * (2 * h) + l);
        let f2 = |l: int| f(i * (2 * h) + h + l);
        let g1 = |l: int| g(i * h + l);
        lemma_sum_plus(h, f1, f2);
        let both = |l: int| f1(l) + f2(l);
        assert forall|l: int| 0 <= l < h implies #[trigger] both(l) == g1(l) by {
            lemma_block_factor(point, r as int, i, l);
            lemma_beta_join(low, high, l, i);
            assert(t[i * (2 * h) + l] == t[i * (2 * h) + h + l]);
            let k = i * h + l;
            lemma_fundamental_div_mod_converse(k, h as int, i, l);
            assert(0 <= k < m * h) by (nonlinear_arith)
                requires
                    k == i * h + l,
                    0 <= i < m,
                    0 <= l < h,
            ;
            assert(i * (2 * h) == 2 * (i * h)) by (nonlinear_arith);
            assert(0 <= i * (2 * h) + l < m * (2 * h)) by (nonlinear_arith)
                requires
                    0 <= i < m,
                    0 <= l < h,
            ;
            assert(u[k] == t[i * (2 * h) + l]);
            let (x, a, b, c) = (u[k], beta(low, l), beta(high, i), point[r - 1]);
            assert(a * (1 - c) * b + a * c * b == a * b) by (nonlinear_arith);
            let (y, z) = (a * (1 - c) * b, a * c * b);
            assert(x * y + x * z == x * (y + z)) by (nonlinear_arith);
        }
        lemma_sum_same(h, both, g1);
    }
    lemma_sum_same(m, fs, gs);
}

/// The matrices made of the values of the angles come in pairs.
pub proof fn law_spread_paired(values: Seq<Element>, layout: RopeLayout, rows: nat, angles: nat)
    ensures
        match layout {
            RopeLayout::Adjacent => paired(
                element_ints(spread(values, layout, rows as int, angles as int)),
                rows * angles,
                1,
            ),
            RopeLayout::RotateHalf => paired(
                element_ints(spread(values, layout, rows as int, angles as int)),
                rows,
                angles,
            ),
        },
{
    let t = element_ints(spread(values, layout, rows as int, angles as int));
    let w = 2 * angles as int;
    match layout {
        RopeLayout::Adjacent => {
            let m = rows * angles;
            assert(rows * (2 * angles) == m * 2) by (nonlinear_arith)
                requires
                    m == rows * angles,
            ;
            assert forall|i: int, l: int| 0 <= i < m && 0 <= l < 1 implies #[trigger] t[i * (2 * 1)
                + l] == t[i * (2 * 1) + 1 + l] by {
                if angles == 0 {
                    assert(m == 0) by (nonlinear_arith)
                        requires
                            m == rows * angles,
                            angles == 0,
                    ;
                }
                let a = angles as int;
                let (q, j) = (i / a, i % a);
                lemma_fundamental_div_mod(i, a);
                lemma_mod_bound(i, a);
                let p = 2 * i;
                assert(p == q * w + 2 * j) by (nonlinear_arith)
                    requires
                        p == 2 * i,
                        i == a * q + j,
                        w == 2 * a,
                ;
                lemma_fundamental_div_mod_converse(p, w, q, 2 * j);
                lemma_fundamental_div_mod_converse(p + 1, w, q, 2 * j + 1);
                assert((2 * j) / 2 == j && (2 * j + 1) / 2 == j);
                assert(0 <= p && p + 1 < rows * (2 * angles));
                assert(t.len() == rows * (2 * angles));
                assert(t[p] == values[q * a + j]);
                assert(t[p + 1] == values[q * a + j]);
                assert(i * (2 * 1) == 2 * i) by (nonlinear_arith);
                assert(l == 0);
            }
        },
        RopeLayout::RotateHalf => {
            assert forall|i: int, l: int| 0 <= i < rows && 0 <= l < angles implies #[trigger] t[i * (2
                * angles) + l] == t[i * (2 * angles) + angles + l] by {
                let p = i * (2 * angles) + l;
                assert(i * (2 * angles) == i * w);
                lemma_fundamental_div_mod_converse(p, w, i, l);
                lemma_fundamental_div_mod_converse(p + angles, w, i, angles + l);
                assert(0 <= p && p + angles < rows * (2 * angles)) by (nonlinear_arith)
                    requires
                        p == i * (2 * angles) + l,
                        0 <= i < rows,
                        0 <= l < angles,
                ;
            }
        },
    }
}

/// The extension of the bound on the rows is the sum of the factors of the rows below it.
proof fn lemma_row_bound(t: Seq<int>, low: Seq<int>, high: Seq<int>, n: int)
    requires
        0 < n <= pow2(high.len()),
        t.len() == pow2(low.len() + high.len()),
        forall|p: int|
            0 <= p < t.len() ==> #[trigger] t[p] == row_bound(pow2(low.len()) as int, n, p),
    ensures
        mle(t, low + high) == upto(high, n - 1),
{
    let w = pow2(low.len());
    let m = pow2(high.len());
    lemma_pow2_adds(low.len(), high.len());
    lemma_mle_grid(t, low, high);
    let rows = Seq::new(
        m,
        |i: int|
            if i < n {
                1int
            } else {
                0
            },
    );
    let f = |i: int| sum(w, |j: int| t[i * w + j] * beta(low, j)) * beta(high, i);
    let g = |i: int| rows[i] * beta(high, i);
    assert forall|i: int| 0 <= i < m implies #[trigger] f(i) == g(i) by {
        let b = rows[i];
        let ones = |j: int| beta(low, j);
        let h = |j: int| t[i * w + j] * beta(low, j);
        assert forall|j: int| 0 <= j < w implies #[trigger] h(j) == b * ones(j) by {
            let p = i * w + j;
            lemma_fundamental_div_mod_converse(p, w as int, i, j);
            assert(0 <= p < w * m) by (nonlinear_arith)
                requires
                    p == i * w + j,
                    0 <= i < m,
                    0 <= j < w,
            ;
        }
        lemma_sum_same(w, h, |j: int| b * ones(j));
        lemma_sum_scale(w, b, ones);
        lemma_betas_sum(low);
        lemma_sum_same(w, ones, |j: int| beta(low, j));
        assert(b * 1 == b);
    }
    lemma_sum_same(m, f, g);
    lemma_bounded_table(rows, high, n);
}

/// Where the sumcheck of an honest prover ends, the verifier of a rotation accepts.
pub proof fn law_honest_rope_accepted<F: PrimeField>(
    layer: Rope<Element>,
    ctx: RopeCtx,
    input: Tensor<Element>,
    claim_point: Seq<F>,
    s: RopeSumcheck<F>,
    point: Seq<F>,
    ends: Seq<F>,
    expected: F,
)
    requires
        layer.is_rope_sumcheck(input, claim_point, s),
        ctx.layout == layer.layout,
        input.shape@.len() >= 2,
        all_pow2(input.shape@),
        claim_point.len() >= matrix_vars(input.shape@),
        point.len() == matrix_vars(input.shape@),
        1 <= layer.layout.block_vars(log2_ceil(input.shape@.last() as nat) as int) <= point.len(),
        ({
            let k = input.shape@.len() - 2;
            0 < input.unpadded_shape@[k] <= input.shape@[k]
        }),
        ends.len() == 6,
        stands_for(ends[3], mle(residues(s.eq@), residues(point))),
        stands_for(ends[4], mle(residues(s.permuted_eq@), residues(point))),
        stands_for(ends[5], mle(residues(s.lt@), residues(point))),
        ({
            let w = residues(ends);
            stands_for(expected, w[0] * w[5] * (w[3] * w[1] + w[4] * w[2]))
        }),
    ensures
        stands_for(
            expected,
            ctx.computed(
                ends.take(3),
                claim_point,
                point,
                input.shape@,
                input.unpadded_shape@[input.shape@.len() - 2] as int,
            ),
        ),
{
    let m = F::modulus();
    let d = input.shape@;
    let v = matrix_vars(d);
    let e = matrix_point(d, claim_point);
    let t = residues(point);
    let row_vars = log2_ceil(d.last() as nat);
    let rows = d[d.len() - 2] as int;
    let n = input.unpadded_shape@[d.len() - 2] as int;
    let w = residues(ends);
    assert(d[d.len() - 1] == pow2(row_vars));
    assert(rows == pow2(log2_ceil(rows as nat)));
    assert(v == row_vars + log2_ceil(rows as nat));
    // The factors of the point.
    lemma_end_cong(ends[3], s.eq@, betas(e), t);
    lemma_mle_betas(e, t);
    // The permuted factors.
    let r = layer.layout.block_vars(row_vars as int);
    assert(pow2(1) == 2) by {
        lemma_pow2_unfold_zero();
        lemma_halves(1);
    }
    assert(layer.layout.block(d.last() as int) == pow2(r as nat));
    law_permuted_identity(e, t, r);
    lemma_end_cong(
        ends[4],
        s.permuted_eq@,
        counter_rotated(betas(e), layer.layout.block(d.last() as int)),
        t,
    );
    // The bound on the rows.
    let low = t.take(row_vars as int);
    let high = t.skip(row_vars as int);
    assert(low + high =~= t);
    let bound = Seq::new(pow2(v), |p: int| row_bound(d.last() as int, n, p));
    lemma_row_bound(bound, low, high, n);
    assert(all_stand_for(s.lt@, bound));
    lemma_end_cong(ends[5], s.lt@, bound, t);
    // The polynomial at the end.
    let (a, b, c) = (w[0], w[1], w[2]);
    let id = identity(e, t);
    let turned = permuted_identity(e, t, r);
    let up = upto(high, n - 1);
    lemma_cong_times(a, a, w[5], up, m);
    lemma_cong_times(w[3], id, b, b, m);
    lemma_cong_times(w[4], turned, c, c, m);
    lemma_cong_plus(w[3] * b, id * b, w[4] * c, turned * c, m);
    lemma_cong_times(a * w[5], a * up, w[3] * b + w[4] * c, id * b + turned * c, m);
    lemma_stands_cong(
        expected,
        a * w[5] * (w[3] * b + w[4] * c),
        a * up * (id * b + turned * c),
    );
    assert(residues(claim_point.take(v as int)) == e);
}

/// The place of a row with which place `j` is turned: its neighbour, or the place half a
/// row away.
pub open spec fn partner(layout: RopeLayout, w: int, j: int) -> int {
    match layout {
        RopeLayout::Adjacent => if j % 2 == 0 {
            j + 1
        } else {
            j - 1
        },
        RopeLayout::RotateHalf => if j < w / 2 {
            j + w / 2
        } else {
            j - w / 2
        },
    }
}

/// Whether place `j` of a row is the first of its pair.
pub open spec fn leads(layout: RopeLayout, w: int, j: int) -> bool {
    match layout {
        RopeLayout::Adjacent => j % 2 == 0,
        RopeLayout::RotateHalf => j < w / 2,
    }
}

/// Every value is turned with the other of its pair, by the cosine and the sine of its
/// position and its column: the first of a pair is `x cos - y sin`, the second
/// `y cos + x sin`. Positions go on from `past`.
pub proof fn law_turned_in_pairs(
    rope: Rope<Element>,
    input: Tensor<Element>,
    past: int,
    out: Tensor<Element>,
    idx: Seq<int>,
)
    requires
        rope.wf(),
        input.wf(),
        input.unpadded_shape@.len() >= 2,
        input.unpadded_shape@.last() % 2 == 0,
        input.unpadded_shape@.last() <= rope.cosine_matrix.tensor.shape@[1],
        past >= 0,
        past + input.unpadded_shape@[input.unpadded_shape@.len() - 2]
            <= rope.cosine_matrix.tensor.shape@[0],
        rope.rotates(input, past, out),
        in_bounds(input.unpadded_shape@, idx),
    ensures
        ({
            let d = input.unpadded_shape@;
            let r = d.len();
            let (i, j) = (idx[r - 2], idx[r - 1]);
            let w = d.last() as int;
            let other = idx.update(r - 1, partner(rope.layout, w, j));
            let c = rope.cosine_matrix.tensor.at(seq![past + i, j]) as int;
            let s = rope.sine_matrix.tensor.at(seq![past + i, j]) as int;
            &&& in_bounds(d, other)
            &&& out.shape@ == d
            &&& out.at(idx) == if leads(rope.layout, w, j) {
                input.at(idx) * c - input.at(other) * s
            } else {
                input.at(idx) * c + input.at(other) * s
            }
        }),
{
    let d = input.unpadded_shape@;
    let r = d.len();
    let w = d.last() as int;
    let rows = d[r - 2] as int;
    let (i, j) = (idx[r - 2], idx[r - 1]);
    assert(0 <= idx[r - 1] < d[r - 1] && 0 <= idx[r - 2] < d[r - 2]);
    let k = partner(rope.layout, w, j);
    let other = idx.update(r - 1, k);
    assert(w / 2 + w / 2 == w);
    assert(0 <= k < w) by {
        match rope.layout {
            RopeLayout::Adjacent => {
                assert(w % 2 == 0);
            },
            RopeLayout::RotateHalf => {},
        }
    }
    assert forall|l: int| 0 <= l < r implies 0 <= #[trigger] other[l] < d[l] by {
        assert(0 <= idx[l] < d[l]);
    }
    lemma_flat(d, idx);
    lemma_flat(d, other);
    let (p, q) = (flat(d, idx), flat(d, other));
    let (d1, i1) = (d.drop_last(), idx.drop_last());
    assert(other.drop_last() =~= i1);
    let b = flat(d1, i1);
    assert(p == b * w + j && q == b * w + k);
    lemma_fundamental_div_mod_converse(p, w, b, j);
    let (d2, i2) = (d1.drop_last(), i1.drop_last());
    assert(b == flat(d2, i2) * rows + i);
    lemma_fundamental_div_mod_converse(b, rows, flat(d2, i2), i);
    let m = rope.cosine_matrix.tensor.shape@;
    assert(m =~= seq![m[0], m[1]]);
    lemma_matrix_place(m[0], m[1], past + i, j);
    let x = element_ints(input.unpadded_data());
    assert(x[p] == input.at(idx));
    assert(x[q] == input.at(other));
    assert(out.data@[p] == rope.rotation(x, d, past, p));
    match rope.layout {
        RopeLayout::Adjacent => {
            let half = w / 2;
            assert(p == 2 * (b * half) + j) by (nonlinear_arith)
                requires
                    p == b * w + j,
                    w == half + half,
            ;
            lemma_fundamental_div_mod(j, 2);
            let t = b * half + j / 2;
            lemma_fundamental_div_mod_converse(p, 2, t, j % 2);
        },
        RopeLayout::RotateHalf => {
            assert((w + 1) / 2 == w / 2);
        },
    }
    let (u, v) = (x[q], rope.sine_matrix.tensor.at(seq![past + i, j]) as int);
    assert((-u) * v == -(u * v)) by (nonlinear_arith);
}

/// To turn is to keep lengths: where the two values of a pair have the same cosine and the
/// same sine, the squares of the pair are multiplied by the sum of their squares.
pub proof fn law_turning_keeps_lengths(
    rope: Rope<Element>,
    input: Tensor<Element>,
    past: int,
    out: Tensor<Element>,
    idx: Seq<int>,
)
    requires
        rope.wf(),
        input.wf(),
        input.unpadded_shape@.len() >= 2,
        input.unpadded_shape@.last() % 2 == 0,
        input.unpadded_shape@.last() <= rope.cosine_matrix.tensor.shape@[1],
        past >= 0,
        past + input.unpadded_shape@[input.unpadded_shape@.len() - 2]
            <= rope.cosine_matrix.tensor.shape@[0],
        rope.rotates(input, past, out),
        in_bounds(input.unpadded_shape@, idx),
        leads(rope.layout, input.unpadded_shape@.last() as int, idx.last()),
        ({
            let i = past + idx[idx.len() - 2];
            let (j, k) = (
                idx.last(),
                partner(rope.layout, input.unpadded_shape@.last() as int, idx.last()),
            );
            let (c, s) = (rope.cosine_matrix.tensor, rope.sine_matrix.tensor);
            c.at(seq![i, j]) == c.at(seq![i, k]) && s.at(seq![i, j]) == s.at(seq![i, k])
        }),
    ensures
        ({
            let i = past + idx[idx.len() - 2];
            let j = idx.last();
            let w = input.unpadded_shape@.last() as int;
            let other = idx.update(idx.len() - 1, partner(rope.layout, w, j));
            let c = rope.cosine_matrix.tensor.at(seq![i, j]) as int;
            let s = rope.sine_matrix.tensor.at(seq![i, j]) as int;
            out.at(idx) * out.at(idx) + out.at(other) * out.at(other) == (c * c + s * s) * (
            input.at(idx) * input.at(idx) + input.at(other) * input.at(other))
        }),
{
    let d = input.unpadded_shape@;
    let r = d.len();
    let w = d.last() as int;
    let j = idx[r - 1];
    let k = partner(rope.layout, w, j);
    let other = idx.update(r - 1, k);
    assert(0 <= idx[r - 1] < d[r - 1]);
    law_turned_in_pairs(rope, input, past, out, idx);
    law_turned_in_pairs(rope, input, past, out, other);
    assert(w / 2 + w / 2 == w);
    assert(partner(rope.layout, w, k) == j && !leads(rope.layout, w, k));
    assert(other.update(r - 1, j) =~= idx);
    let i = past + idx[r - 2];
    let c = rope.cosine_matrix.tensor.at(seq![i, j]) as int;
    let s = rope.sine_matrix.tensor.at(seq![i, j]) as int;
    let (x, y) = (input.at(idx) as int, input.at(other) as int);
    let (p, q, u, v) = (x * c, y * s, y * c, x * s);
    assert((p - q) * (p - q) == p * p - 2 * (p * q) + q * q) by (nonlinear_arith);
    assert((u + v) * (u + v) == u * u + 2 * (u * v) + v * v) by (nonlinear_arith);
    assert((x * c) * (y * s) == (y * c) * (x * s)) by (nonlinear_arith);
    let (cc, ss, xx, yy) = (c * c, s * s, x * x, y * y);
    assert((x * c) * (x * c) == cc * xx) by (nonlinear_arith)
        requires
            cc == c * c,
            xx == x * x,
    ;
    assert((y * c) * (y * c) == cc * yy) by (nonlinear_arith)
        requires
            cc == c * c,
            yy == y * y,
    ;
    assert((x * s) * (x * s) == ss * xx) by (nonlinear_arith)
        requires
            ss == s * s,
            xx == x * x,
    ;
    assert((y * s) * (y * s) == ss * yy) by (nonlinear_arith)
        requires
            ss == s * s,
            yy == y * y,
    ;
    assert((cc + ss) * (xx + yy) == cc * xx + cc * yy + ss * xx + ss * yy) by (nonlinear_arith);
}

/// A token that comes alone, after those before it, is turned as it is among all of them.
pub proof fn law_turned_token_by_token(
    rope: Rope<Element>,
    whole: Tensor<Element>,
    token: Tensor<Element>,
    past: int,
    out: Tensor<Element>,
    token_out: Tensor<Element>,
    idx: Seq<int>,
)
    requires
        rope.wf(),
        whole.wf(),
        token.wf(),
        whole.unpadded_shape@.len() >= 2,
        whole.unpadded_shape@.last() % 2 == 0,
        whole.unpadded_shape@.last() <= rope.cosine_matrix.tensor.shape@[1],
        past >= 0,
        past + whole.unpadded_shape@[whole.unpadded_shape@.len() - 2]
            <= rope.cosine_matrix.tensor.shape@[0],
        in_bounds(whole.unpadded_shape@, idx),
        token.unpadded_shape@ == whole.unpadded_shape@.update(whole.unpadded_shape@.len() - 2, 1),
        forall|j: int|
            0 <= j < whole.unpadded_shape@.last() ==> token.at(
                #[trigger] idx.update(idx.len() - 1, j).update(idx.len() - 2, 0),
            ) == whole.at(idx.update(idx.len() - 1, j)),
        rope.rotates(whole, past, out),
        rope.rotates(token, past + idx[idx.len() - 2], token_out),
    ensures
        token_out.at(idx.update(idx.len() - 2, 0)) == out.at(idx),
{
    let d = whole.unpadded_shape@;
    let e = token.unpadded_shape@;
    let r = d.len();
    let w = d.last() as int;
    let (i, j) = (idx[r - 2], idx[r - 1]);
    assert(0 <= idx[r - 1] < d[r - 1] && 0 <= idx[r - 2] < d[r - 2]);
    let at = idx.update(r - 2, 0);
    assert forall|l: int| 0 <= l < r implies 0 <= #[trigger] at[l] < e[l] by {
        assert(0 <= idx[l] < d[l]);
    }
    law_turned_in_pairs(rope, whole, past, out, idx);
    law_turned_in_pairs(rope, token, past + i, token_out, at);
    let k = partner(rope.layout, w, j);
    let other = idx.update(r - 1, k);
    assert(0 <= other[r - 1] < d[r - 1]);
    assert(idx.update(r - 1, j) =~= idx);
    assert(token.at(idx.update(r - 1, j).update(r - 2, 0)) == whole.at(idx.update(r - 1, j)));
    assert(token.at(idx.update(r - 1, k).update(r - 2, 0)) == whole.at(idx.update(r - 1, k)));
    assert(at.update(r - 1, k) =~= idx.update(r - 1, k).update(r - 2, 0));
}

/// What evaluation gives of a matrix is what the sumcheck is about: in the rows of the
/// tokens, the tables of the input, the cosines and the sines put together.
pub proof fn law_evaluation_is_proved(
    rope: Rope<Element>,
    input: Tensor<Element>,
    out: Tensor<Element>,
    p: int,
)
    requires
        rope.wf(),
        input.wf(),
        input.shape@.len() == 2,
        input.unpadded_shape@[1] == input.shape@[1],
        input.shape@[1] % 2 == 0,
        input.shape@[1] == rope.cosine_matrix.tensor.shape@[1],
        input.unpadded_shape@[0] <= rope.cosine_matrix.tensor.shape@[0],
        rope.rotates(input, 0, out),
        0 <= p < input.unpadded_shape@[0] * input.shape@[1],
    ensures
        ({
            let x = element_ints(input.data@);
            let c = element_ints(rope.cosine_matrix.tensor.data@);
            let s = element_ints(rope.sine_matrix.tensor.data@);
            let w = input.shape@[1] as int;
            &&& row_bound(w, input.unpadded_shape@[0] as int, p) == 1
            &&& out.data@[p] == row_bound(w, input.unpadded_shape@[0] as int, p) * (x[p] * c[p]
                + rotated(x, rope.layout.block(w))[p] * s[p])
        }),
{
    let d = input.unpadded_shape@;
    let w = d[1] as int;
    let n = d[0] as int;
    let (i, j) = (p / w, p % w);
    if w == 0 {
        assert(n * w == 0) by (nonlinear_arith)
            requires
                w == 0,
        ;
    }
    assert(d[0] <= input.shape@[0] && d[1] <= input.shape@[1]);
    lemma_fundamental_div_mod(p, w);
    lemma_mod_bound(p, w);
    assert(0 <= i < n) by (nonlinear_arith)
        requires
            p == w * i + j,
            0 <= p < n * w,
            0 <= j < w,
    ;
    assert(i * w + j == p) by (nonlinear_arith)
        requires
            p == w * i + j,
    ;
    let m = rope.cosine_matrix.tensor.shape@;
    let k = partner(rope.layout, w, j);
    assert(w / 2 + w / 2 == w);
    assert(0 <= k < w);
    assert(d =~= seq![d[0], d[1]]);
    assert(input.shape@ =~= seq![input.shape@[0], d[1]]);
    assert(m =~= seq![m[0], m[1]]);
    lemma_matrix_place(d[0], d[1], i, j);
    lemma_matrix_place(d[0], d[1], i, k);
    lemma_matrix_place(input.shape@[0], d[1], i, j);
    lemma_matrix_place(input.shape@[0], d[1], i, k);
    lemma_matrix_place(m[0], m[1], i, j);
    let idx = seq![i, j];
    law_turned_in_pairs(rope, input, 0, out, idx);
    assert(idx.update(1, k) =~= seq![i, k]);
    let x = element_ints(input.data@);
    let s = rope.sine_matrix.tensor.data@[p] as int;
    let q = i * w + k;
    match rope.layout {
        RopeLayout::Adjacent => {
            let half = w / 2;
            assert(p == 2 * (i * half) + j) by (nonlinear_arith)
                requires
                    p == i * w + j,
                    w == half + half,
            ;
            lemma_fundamental_div_mod(j, 2);
            lemma_fundamental_div_mod_converse(p, 2, i * half + j / 2, j % 2);
        },
        RopeLayout::RotateHalf => {
            assert((w + 1) / 2 == w / 2);
        },
    }
    let u = x[q];
    assert((-u) * s == -(u * s)) by (nonlinear_arith);
}

/// The matrix of the values of the angles holds each value twice in the row of its
/// position: side by side, or half a row apart.
pub proof fn law_spread_values<N>(values: Seq<N>, layout: RopeLayout, rows: int, angles: int, i: int, a: int)
    requires
        0 <= i < rows,
        0 <= a < angles,
    ensures
        ({
            let m = spread(values, layout, rows, angles);
            let start = i * (2 * angles);
            let v = values[i * angles + a];
            &&& m.len() == rows * (2 * angles)
            &&& match layout {
                RopeLayout::Adjacent => m[start + 2 * a] == v && m[start + 2 * a + 1] == v,
                RopeLayout::RotateHalf => m[start + a] == v && m[start + angles + a] == v,
            }
        }),
{
    let w = 2 * angles;
    let (j, k) = match layout {
        RopeLayout::Adjacent => (2 * a, 2 * a + 1),
        RopeLayout::RotateHalf => (a, angles + a),
    };
    lemma_fundamental_div_mod_converse(i * w + j, w, i, j);
    lemma_fundamental_div_mod_converse(i * w + k, w, i, k);
    assert(0 <= i * w + j < rows * w && 0 <= i * w + k < rows * w) by (nonlinear_arith)
        requires
            0 <= i < rows,
            0 <= j < w,
            0 <= k < w,
    ;
    assert((2 * a) / 2 == a && (2 * a + 1) / 2 == a);
}

/// The bound on the rows is the same for the two values of a pair.
proof fn lemma_bound_paired(layout: RopeLayout, w: int, rows: int, n: int, m: nat)
    requires
        w >= 2,
        w % 2 == 0,
        m * layout.block(w) == rows * w,
    ensures
        paired(
            Seq::new((rows * w) as nat, |p: int| row_bound(w, n, p)),
            m,
            (layout.block(w) / 2) as nat,
        ),
{
    let b = layout.block(w);
    let h = (b / 2) as nat;
    let t = Seq::new((rows * w) as nat, |p: int| row_bound(w, n, p));
    assert forall|i: int, l: int| 0 <= i < m && 0 <= l < h implies #[trigger] t[i * (2 * h) + l]
        == t[i * (2 * h) + h + l] by {
        let (p, q) = (i * (2 * h) + l, i * (2 * h) + h + l);
        assert(2 * h == b);
        assert(0 <= p < q && q < m * b) by (nonlinear_arith)
            requires
                p == i * b + l,
                q == i * b + h + l,
                0 <= i < m,
                0 <= l < h,
                2 * h == b,
                h > 0,
        ;
        match layout {
            RopeLayout::Adjacent => {
                lemma_fundamental_div_mod(p, w);
                lemma_mod_bound(p, w);
                let (a, r) = (p / w, p % w);
                assert(r != w - 1) by {
                    if r == w - 1 {
                        let k = w / 2;
                        assert(p == 2 * (k * a + k) - 1) by (nonlinear_arith)
                            requires
                                p == w * a + (w - 1),
                                w == 2 * k,
                        ;
                        assert(p == 2 * i);
                    }
                }
                assert(q == w * a + (r + 1));
                assert(w * a == a * w) by (nonlinear_arith);
                lemma_fundamental_div_mod_converse(q, w, a, r + 1);
            },
            RopeLayout::RotateHalf => {
                lemma_fundamental_div_mod_converse(p, w, i, l);
                lemma_fundamental_div_mod_converse(q, w, i, h + l);
            },
        }
    }
}

/// The tables of the sumcheck of a rotation sum to the extension of the rotated input: of
/// the matrix to which the claim batches the input, each token of it turned by the angles
/// of its position, and zeros after the tokens.
pub proof fn law_tables_sum<F: PrimeField>(
    layer: Rope<Element>,
    input: Tensor<Element>,
    point: Seq<F>,
    s: RopeSumcheck<F>,
    rows: nat,
    m: nat,
)
    requires
        F::modulus() > 1,
        layer.is_rope_sumcheck(input, point, s),
        input.shape@.len() >= 2,
        point.len() >= matrix_vars(input.shape@),
        input.shape@.last() >= 2,
        input.shape@.last() % 2 == 0,
        pow2(matrix_vars(input.shape@)) == rows * input.shape@.last(),
        m * layer.layout.block(input.shape@.last() as int) == rows * input.shape@.last(),
        layer.cosine_matrix.tensor.data@.len() >= pow2(matrix_vars(input.shape@)),
        layer.sine_matrix.tensor.data@.len() >= pow2(matrix_vars(input.shape@)),
        paired(
            element_ints(layer.sine_matrix.tensor.data@).take(
                pow2(matrix_vars(input.shape@)) as int,
            ),
            m,
            (layer.layout.block(input.shape@.last() as int) / 2) as nat,
        ),
    ensures
        ({
            let d = input.shape@;
            let w = d.last() as int;
            let n = pow2(matrix_vars(d));
            let low = matrix_point(d, point);
            let rest = residues(point.skip(matrix_vars(d) as int));
            let x = Seq::new(n, |p: int| fixed_high(element_ints(input.data@), n as int, rest, p));
            let turned = Seq::new(
                n,
                |p: int|
                    row_bound(w, input.unpadded_shape@[d.len() - 2] as int, p) * (x[p]
                        * layer.cosine_matrix.tensor.data@[p] + rotated(
                        x,
                        layer.layout.block(w),
                    )[p] * layer.sine_matrix.tensor.data@[p]),
            );
            cong(
                sum(
                    n,
                    |p: int|
                        s.input@[p].residue() * s.lt@[p].residue() * (s.eq@[p].residue()
                            * s.cosine@[p].residue() + s.permuted_eq@[p].residue()
                            * s.sine@[p].residue()),
                ),
                mle(turned, low),
                F::modulus(),
            )
        }),
{
    let q = F::modulus();
    let d = input.shape@;
    let w = d.last() as int;
    let n = pow2(matrix_vars(d));
    let u = input.unpadded_shape@[d.len() - 2] as int;
    let low = matrix_point(d, point);
    let rest = residues(point.skip(matrix_vars(d) as int));
    let x = Seq::new(n, |p: int| fixed_high(element_ints(input.data@), n as int, rest, p));
    let b = layer.layout.block(w);
    let h = (b / 2) as nat;
    assert(b == 2 * h);
    let cosine = element_ints(layer.cosine_matrix.tensor.data@).take(n as int);
    let sine = element_ints(layer.sine_matrix.tensor.data@).take(n as int);
    let lt = Seq::new(n, |p: int| row_bound(w, u, p));
    let eq = betas(low);
    lemma_bound_paired(layer.layout, w, rows as int, u, m);
    assert(lt =~= Seq::new((rows * w) as nat, |p: int| row_bound(w, u, p)));
    law_rope_sum(x, cosine, sine, lt, eq, m, h);
    let perm = counter_rotated(eq, b);
    let given = |p: int|
        s.input@[p].residue() * s.lt@[p].residue() * (s.eq@[p].residue() * s.cosine@[p].residue()
            + s.permuted_eq@[p].residue() * s.sine@[p].residue());
    let plain = |p: int| x[p] * lt[p] * (eq[p] * cosine[p] + perm[p] * sine[p]);
    assert forall|p: int| 0 <= p < n implies cong(#[trigger] given(p), plain(p), q) by {
        let (f0, f1, f2) = (s.input@[p], s.lt@[p], s.eq@[p]);
        let (f3, f4, f5) = (s.cosine@[p], s.permuted_eq@[p], s.sine@[p]);
        lemma_residue_cong(f0, x[p]);
        lemma_residue_cong(f1, lt[p]);
        lemma_residue_cong(f2, eq[p]);
        lemma_residue_cong(f3, cosine[p]);
        lemma_residue_cong(f4, perm[p]);
        lemma_residue_cong(f5, sine[p]);
        lemma_cong_times(f0.residue(), x[p], f1.residue(), lt[p], q);
        lemma_cong_times(f2.residue(), eq[p], f3.residue(), cosine[p], q);
        lemma_cong_times(f4.residue(), perm[p], f5.residue(), sine[p], q);
        lemma_cong_plus(
            f2.residue() * f3.residue(),
            eq[p] * cosine[p],
            f4.residue() * f5.residue(),
            perm[p] * sine[p],
            q,
        );
        lemma_cong_times(
            f0.residue() * f1.residue(),
            x[p] * lt[p],
            f2.residue() * f3.residue() + f4.residue() * f5.residue(),
            eq[p] * cosine[p] + perm[p] * sine[p],
            q,
        );
    }
    lemma_cong_sum(n, given, plain, q);
    lemma_sum_same(
        n,
        plain,
        |p: int|
            x[p] * lt[p] * (eq[p] * cosine[p] + counter_rotated(eq, 2 * h as int)[p] * sine[p]),
    );
    let turned = Seq::new(
        n,
        |p: int|
            row_bound(w, u, p) * (x[p] * layer.cosine_matrix.tensor.data@[p] + rotated(x, b)[p]
                * layer.sine_matrix.tensor.data@[p]),
    );
    lemma_sum_same(
        n,
        |p: int| (lt[p] * (x[p] * cosine[p] + rotated(x, 2 * h as int)[p] * sine[p])) * eq[p],
        |p: int| turned[p] * beta(low, p),
    );
    lemma_sum_same(
        n,
        given,
        |p: int|
            s.input@[p].residue() * s.lt@[p].residue() * (s.eq@[p].residue()
                * s.cosine@[p].residue() + s.permuted_eq@[p].residue() * s.sine@[p].residue()),
    );
}

/// The verifier accepts what an honest prover shows, and is left with a claim on the input
/// that holds of it. The sumcheck, over the prover's tables, ends at `ends`, of which the
/// first three are in the proof.
pub proof fn law_honest_rope_verified<F: PrimeField, P>(
    layer: Rope<Element>,
    ctx: RopeCtx,
    input: Tensor<Element>,
    last_claim: Claim<F>,
    s: RopeSumcheck<F>,
    proof: RopeProof<F, P>,
    subclaim: SubClaim<F>,
    ends: Seq<F>,
    cosine_coordinates: Seq<F>,
    sine_coordinates: Seq<F>,
    r: Result<(Claim<F>, Claim<F>, Claim<F>), Error>,
)
    requires
        F::modulus() > 1,
        layer.is_rope_sumcheck(input, last_claim.point@, s),
        ctx.layout == layer.layout,
        input.shape@.len() >= 2,
        all_pow2(input.shape@),
        last_claim.point@.len() >= matrix_vars(input.shape@),
        subclaim.point@.len() == matrix_vars(input.shape@),
        1 <= layer.layout.block_vars(log2_ceil(input.shape@.last() as nat) as int)
            <= subclaim.point@.len(),
        ({
            let k = input.shape@.len() - 2;
            0 < input.unpadded_shape@[k] <= input.shape@[k]
        }),
        ends.len() == 6,
        stands_for(ends[0], mle(residues(s.input@), residues(subclaim.point@))),
        stands_for(ends[3], mle(residues(s.eq@), residues(subclaim.point@))),
        stands_for(ends[4], mle(residues(s.permuted_eq@), residues(subclaim.point@))),
        stands_for(ends[5], mle(residues(s.lt@), residues(subclaim.point@))),
        ({
            let w = residues(ends);
            stands_for(subclaim.expected_evaluation, w[0] * w[5] * (w[3] * w[1] + w[4] * w[2]))
        }),
        proof.sumcheck_evals@ == ends.take(3),
        ctx.decides(
            proof,
            last_claim,
            subclaim,
            input.shape@,
            input.unpadded_shape@,
            cosine_coordinates,
            sine_coordinates,
            r,
        ),
    ensures
        match r {
            Ok((claim, _, _)) => stands_for(
                claim.eval,
                mle(element_ints(input.data@), residues(claim.point@)),
            ),
            Err(_) => false,
        },
{
    let m = F::modulus();
    let d = input.shape@;
    let v = matrix_vars(d) as int;
    let point = subclaim.point@;
    law_honest_rope_accepted(
        layer,
        ctx,
        input,
        last_claim.point@,
        s,
        point,
        ends,
        subclaim.expected_evaluation,
    );
    if let Ok((claim, _, _)) = r {
        let (p, rest) = (residues(point), residues(last_claim.point@.skip(v)));
        assert(residues(claim.point@) =~= p + rest);
        let x = element_ints(input.data@);
        let t = Seq::new(pow2(p.len()), |i: int| fixed_high(x, pow2(p.len()) as int, rest, i));
        lemma_fixed_high(x, p, rest);
        lemma_end_cong(ends[0], s.input@, t, p);
        let f = ends[0];
        f.residue_bounds();
        lemma_small_mod(f.residue() as nat, m as nat);
        assert(claim.eval == ends[0]);
    }
}

/// For given evaluations, a proof is accepted at one end of the sumcheck only.
pub proof fn law_one_end<F: PrimeField, P>(
    ctx: RopeCtx,
    proof: RopeProof<F, P>,
    last_claim: Claim<F>,
    a: SubClaim<F>,
    b: SubClaim<F>,
    d: Seq<usize>,
    u: Seq<usize>,
    cosine_coordinates: Seq<F>,
    sine_coordinates: Seq<F>,
    ra: Result<(Claim<F>, Claim<F>, Claim<F>), Error>,
    rb: Result<(Claim<F>, Claim<F>, Claim<F>), Error>,
)
    requires
        ctx.decides(proof, last_claim, a, d, u, cosine_coordinates, sine_coordinates, ra),
        ctx.decides(proof, last_claim, b, d, u, cosine_coordinates, sine_coordinates, rb),
        ra is Ok && rb is Ok,
        a.point@ == b.point@,
    ensures
        a.expected_evaluation.residue() == b.expected_evaluation.residue(),
{
}

} // verus!
