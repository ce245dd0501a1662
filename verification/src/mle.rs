//! Multilinear extensions of tables.
//!
//! A table of `2^n` values is a function of the `n` bits of an index, lowest bit
//! first. Its multilinear extension is the polynomial of degree one in each of
//! `n` variables that takes these values on bits.
use vstd::prelude::*;
use vstd::arithmetic::power2::{lemma2_to64, lemma_pow2_adds, lemma_pow2_pos, lemma_pow2_strictly_increases, lemma_pow2_unfold, pow2};
use vstd::arithmetic::div_mod::*;
use crate::field::{all_stand_for, lemma_residues_stand, residues, stands_for, Lifted, PrimeField};
use crate::sum::{lemma_sum_grid, lemma_sum_plus, lemma_sum_same, lemma_sum_scale, lemma_sum_single, lemma_sum_split, lemma_sum_swap, sum};

verus! {

/// The factor of the index `i` at the point `r`: for each bit of `i` the
/// coordinate where the bit is one, and one minus it where the bit is zero.
pub open spec fn beta(r: Seq<int>, i: int) -> int
    decreases r.len(),
{
    if r.len() == 0 {
        1
    } else {
        let half = pow2((r.len() - 1) as nat) as int;
        if i < half {
            beta(r.drop_last(), i) * (1 - r.last())
        } else {
            beta(r.drop_last(), i - half) * r.last()
        }
    }
}

/// The factors of all indices at the point `r`.
pub open spec fn betas(r: Seq<int>) -> Seq<int> {
    Seq::new(pow2(r.len()), |i: int| beta(r, i))
}

/// The multilinear extension of the table `t`, evaluated at `r`.
pub open spec fn mle(t: Seq<int>, r: Seq<int>) -> int {
    sum(pow2(r.len()), |i: int| t[i] * beta(r, i))
}

/// The `k` lowest bits of `n`, lowest first.
pub open spec fn bits(n: int, k: nat) -> Seq<int> {
    Seq::new(k, |j: int| (n / pow2(j as nat) as int) % 2)
}

/// The equality polynomial of two points.
pub open spec fn identity(a: Seq<int>, b: Seq<int>) -> int
    decreases a.len(),
{
    if a.len() == 0 {
        1
    } else {
        identity(a.drop_last(), b.drop_last()) * (a.last() * b.last() + (1 - a.last()) * (1
            - b.last()))
    }
}

/// The two halves of a power of two.
pub proof fn lemma_halves(n: nat)
    requires
        n > 0,
    ensures
        pow2(n) == 2 * pow2((n - 1) as nat),
        pow2(n) == pow2((n - 1) as nat) + pow2((n - 1) as nat),
        pow2((n - 1) as nat) > 0,
{
    lemma_pow2_unfold(n);
    lemma_pow2_pos((n - 1) as nat);
}

/// A sum over the indices of `n` bits, split by the highest bit.
pub proof fn lemma_sum_high(n: nat, f: spec_fn(int) -> int)
    requires
        n > 0,
    ensures
        sum(pow2(n), f) == sum(pow2((n - 1) as nat), f) + sum(
            pow2((n - 1) as nat),
            |i: int| f(pow2((n - 1) as nat) + i),
        ),
{
    lemma_halves(n);
    lemma_sum_split(pow2((n - 1) as nat), pow2((n - 1) as nat), f);
}

/// A sum weighted by the factors of a point, split by the highest bit.
pub proof fn lemma_weighted_high(r: Seq<int>, f: spec_fn(int) -> int)
    requires
        r.len() > 0,
    ensures
        sum(pow2(r.len()), |i: int| f(i) * beta(r, i)) == (1 - r.last()) * sum(
            pow2((r.len() - 1) as nat),
            |i: int| f(i) * beta(r.drop_last(), i),
        ) + r.last() * sum(
            pow2((r.len() - 1) as nat),
            |i: int| f(pow2((r.len() - 1) as nat) + i) * beta(r.drop_last(), i),
        ),
{
    let n = r.len();
    let h = pow2((n - 1) as nat);
    let g = |i: int| f(i) * beta(r, i);
    lemma_sum_high(n, g);
    let lo = |i: int| f(i) * beta(r.drop_last(), i);
    let hi = |i: int| f(h + i) * beta(r.drop_last(), i);
    let c0 = 1 - r.last();
    let c1 = r.last();
    lemma_sum_scale(h, c0, lo);
    lemma_sum_scale(h, c1, hi);
    assert forall|i: int| 0 <= i < h implies #[trigger] g(i) == c0 * lo(i) by {
        let x = f(i);
        let y = beta(r.drop_last(), i);
        assert(x * (y * c0) == c0 * (x * y)) by (nonlinear_arith);
    }
    lemma_sum_same(h, g, |i: int| c0 * lo(i));
    let g1 = |i: int| g(h + i);
    assert forall|i: int| 0 <= i < h implies #[trigger] g1(i) == c1 * hi(i) by {
        let x = f(h + i);
        let y = beta(r.drop_last(), i);
        assert(x * (y * c1) == c1 * (x * y)) by (nonlinear_arith);
    }
    lemma_sum_same(h, g1, |i: int| c1 * hi(i));
}

/// The factors of a point sum to one.
pub proof fn lemma_betas_sum(r: Seq<int>)
    ensures
        sum(pow2(r.len()), |i: int| beta(r, i)) == 1,
    decreases r.len(),
{
    if r.len() == 0 {
        lemma_pow2_unfold_zero();
        reveal_with_fuel(sum, 2);
    } else {
        let h = pow2((r.len() - 1) as nat);
        lemma_betas_sum(r.drop_last());
        let one = |i: int| 1int;
        lemma_weighted_high(r, one);
        lemma_sum_same(pow2(r.len()), |i: int| beta(r, i), |i: int| one(i) * beta(r, i));
        lemma_sum_same(
            h,
            |i: int| one(i) * beta(r.drop_last(), i),
            |i: int| beta(r.drop_last(), i),
        );
        lemma_sum_same(
            h,
            |i: int| one(h + i) * beta(r.drop_last(), i),
            |i: int| beta(r.drop_last(), i),
        );
        assert((1 - r.last()) * 1 + r.last() * 1 == 1) by (nonlinear_arith);
    }
}

/// Evaluation by halves: the highest variable chooses between the extensions of
/// the lower and of the upper half of the table.
pub proof fn lemma_mle_high(t: Seq<int>, r: Seq<int>)
    requires
        r.len() > 0,
        t.len() == pow2(r.len()),
    ensures
        mle(t, r) == (1 - r.last()) * mle(
            t.take(pow2((r.len() - 1) as nat) as int),
            r.drop_last(),
        ) + r.last() * mle(t.skip(pow2((r.len() - 1) as nat) as int), r.drop_last()),
{
    let h = pow2((r.len() - 1) as nat);
    lemma_halves(r.len());
    let f = |i: int| t[i];
    lemma_weighted_high(r, f);
    lemma_sum_same(pow2(r.len()), |i: int| t[i] * beta(r, i), |i: int| f(i) * beta(r, i));
    let lo = t.take(h as int);
    let hi = t.skip(h as int);
    lemma_sum_same(
        h,
        |i: int| f(i) * beta(r.drop_last(), i),
        |i: int| lo[i] * beta(r.drop_last(), i),
    );
    lemma_sum_same(
        h,
        |i: int| f(h + i) * beta(r.drop_last(), i),
        |i: int| hi[i] * beta(r.drop_last(), i),
    );
}

/// The highest of `k` bits, and the bits below it.
pub proof fn lemma_bits_high(n: int, k: nat)
    requires
        k > 0,
        0 <= n < pow2(k),
    ensures
        bits(n, k).last() == n / pow2((k - 1) as nat) as int,
        bits(n, k).drop_last() == bits(n % pow2((k - 1) as nat) as int, (k - 1) as nat),
        n / pow2((k - 1) as nat) as int == 0 || n / pow2((k - 1) as nat) as int == 1,
{
    let h = pow2((k - 1) as nat) as int;
    lemma_halves(k);
    lemma_fundamental_div_mod(n, h);
    assert(0 <= n / h < 2) by (nonlinear_arith)
        requires
            0 <= n < 2 * h,
            h > 0,
            n == h * (n / h) + n % h,
            0 <= n % h < h,
    ;
    let l = bits(n, k).drop_last();
    let m = bits(n % h, (k - 1) as nat);
    assert forall|j: int| 0 <= j < k - 1 implies l[j] == m[j] by {
        let d = pow2(j as nat) as int;
        let e = pow2((k - 2 - j) as nat) as int;
        lemma_pow2_pos(j as nat);
        lemma_pow2_adds(j as nat, (k - 1 - j) as nat);
        lemma_pow2_unfold((k - 1 - j) as nat);
        let q = n / h;
        let x = n % h;
        assert(n == d * (2 * e * q) + x) by (nonlinear_arith)
            requires
                n == h * q + x,
                h == d * (2 * e),
        ;
        lemma_div_multiples_vanish_fancy_sum(2 * e * q, x, d);
        assert(2 * e * q + x / d == (e * q) * 2 + x / d) by (nonlinear_arith);
        lemma_mod_multiples_vanish(e * q, x / d, 2);
        assert(2 * (e * q) + x / d == (e * q) * 2 + x / d);
    }
    assert(l =~= m);
}

/// A multiple of the divisor passes through a division.
proof fn lemma_div_multiples_vanish_fancy_sum(a: int, x: int, d: int)
    requires
        d > 0,
    ensures
        (d * a + x) / d == a + x / d,
{
    lemma_hoist_over_denominator(x, a, d as nat);
    assert(a * d == d * a) by (nonlinear_arith);
}

/// On bits the factor of an index is one at that index and zero elsewhere.
pub proof fn lemma_beta_bits(n: int, k: nat, i: int)
    requires
        0 <= n < pow2(k),
        0 <= i < pow2(k),
    ensures
        beta(bits(n, k), i) == if i == n {
            1int
        } else {
            0int
        },
    decreases k,
{
    if k == 0 {
        lemma_pow2_unfold_zero();
    } else {
        let h = pow2((k - 1) as nat) as int;
        lemma_halves(k);
        lemma_bits_high(n, k);
        lemma_fundamental_div_mod(n, h);
        let b = bits(n, k).drop_last();
        let q = n / h;
        assert(b.len() == k - 1);
        let j = if i < h {
            i
        } else {
            i - h
        };
        lemma_beta_bits(n % h, (k - 1) as nat, j);
        assert(h * q == if q == 0 {
            0
        } else {
            h
        }) by (nonlinear_arith)
            requires
                q == 0 || q == 1,
        ;
        let y = beta(b, j);
        assert(y * 0 == 0 && y * 1 == y);
    }
}

/// On bits the multilinear extension is the table.
pub proof fn lemma_mle_bits(t: Seq<int>, n: int, k: nat)
    requires
        0 <= n < pow2(k),
    ensures
        mle(t, bits(n, k)) == t[n],
{
    let f = |i: int| t[i] * beta(bits(n, k), i);
    assert forall|i: int| 0 <= i < pow2(k) implies #[trigger] f(i) == if i == n {
        t[n]
    } else {
        0
    } by {
        lemma_beta_bits(n, k, i);
    }
    lemma_sum_single(pow2(k), n, f);
}

/// The equality polynomial is the multilinear extension of the factors of one
/// point, evaluated at the other.
pub proof fn lemma_identity(a: Seq<int>, b: Seq<int>)
    requires
        a.len() == b.len(),
    ensures
        identity(a, b) == sum(pow2(a.len()), |i: int| beta(a, i) * beta(b, i)),
    decreases a.len(),
{
    if a.len() == 0 {
        lemma_pow2_unfold_zero();
        reveal_with_fuel(sum, 2);
    } else {
        let a1 = a.drop_last();
        let b1 = b.drop_last();
        let h = pow2((a.len() - 1) as nat);
        lemma_halves(a.len());
        lemma_identity(a1, b1);
        let f = |i: int| beta(a, i);
        lemma_weighted_high(b, f);
        lemma_sum_same(
            pow2(a.len()),
            |i: int| beta(a, i) * beta(b, i),
            |i: int| f(i) * beta(b, i),
        );
        let base = |i: int| beta(a1, i) * beta(b1, i);
        let c0 = 1 - a.last();
        let c1 = a.last();
        lemma_sum_scale(h, c0, base);
        lemma_sum_scale(h, c1, base);
        let lo = |i: int| f(i) * beta(b1, i);
        let hi = |i: int| f(h + i) * beta(b1, i);
        assert forall|i: int| 0 <= i < h implies #[trigger] lo(i) == c0 * base(i) by {
            let x = beta(a1, i);
            let y = beta(b1, i);
            assert((x * c0) * y == c0 * (x * y)) by (nonlinear_arith);
        }
        assert forall|i: int| 0 <= i < h implies #[trigger] hi(i) == c1 * base(i) by {
            let x = beta(a1, i);
            let y = beta(b1, i);
            assert((x * c1) * y == c1 * (x * y)) by (nonlinear_arith);
        }
        lemma_sum_same(h, lo, |i: int| c0 * base(i));
        lemma_sum_same(h, hi, |i: int| c1 * base(i));
        let s = identity(a1, b1);
        let p = a.last();
        let q = b.last();
        assert((1 - q) * ((1 - p) * s) + q * (p * s) == s * (p * q + (1 - p) * (1 - q)))
            by (nonlinear_arith);
    }
}

pub proof fn lemma_pow2_unfold_zero()
    ensures
        pow2(0) == 1,
{
    lemma2_to64();
}

/// The factor of an index at a joined point is the product of the factors of its
/// low and of its high part.
pub proof fn lemma_beta_join(a: Seq<int>, b: Seq<int>, i: int, j: int)
    requires
        0 <= i < pow2(a.len()),
        0 <= j < pow2(b.len()),
    ensures
        beta(a + b, j * pow2(a.len()) + i) == beta(a, i) * beta(b, j),
        0 <= j * pow2(a.len()) + i < pow2((a + b).len()),
    decreases b.len(),
{
    let n = pow2(a.len()) as int;
    if b.len() == 0 {
        lemma_pow2_unfold_zero();
        assert(a + b =~= a);
        assert(0 * n == 0);
        assert(beta(a, i) * 1 == beta(a, i));
    } else {
        let b1 = b.drop_last();
        let h = pow2(b1.len()) as int;
        lemma_halves(b.len());
        assert((a + b).drop_last() =~= a + b1);
        lemma_pow2_adds(a.len(), b1.len());
        lemma_pow2_adds(a.len(), b.len());
        let full = pow2((a + b1).len()) as int;
        assert(full == n * h);
        lemma_halves((a + b).len());
        let x = beta(a, i);
        if j < h {
            lemma_beta_join(a, b1, i, j);
            let y = beta(b1, j);
            assert((x * y) * (1 - b.last()) == x * (y * (1 - b.last()))) by (nonlinear_arith);
        } else {
            lemma_beta_join(a, b1, i, j - h);
            assert(j * n + i == (j - h) * n + i + n * h) by (nonlinear_arith);
            let y = beta(b1, j - h);
            assert((x * y) * b.last() == x * (y * b.last())) by (nonlinear_arith);
        }
    }
}

/// The extension of a grid of values at a joined point: the low coordinates
/// weigh the places in a row, the high coordinates the rows.
pub proof fn lemma_mle_grid(t: Seq<int>, low: Seq<int>, high: Seq<int>)
    ensures
        mle(t, low + high) == sum(
            pow2(high.len()),
            |i: int|
                sum(pow2(low.len()), |j: int| t[i * pow2(low.len()) + j] * beta(low, j)) * beta(
                    high,
                    i,
                ),
        ),
{
    let n = pow2(low.len());
    let m = pow2(high.len());
    let f = |k: int| t[k] * beta(low + high, k);
    lemma_pow2_adds(low.len(), high.len());
    assert(n * m == m * n) by (nonlinear_arith);
    lemma_sum_grid(m, n, f);
    let rows = |i: int| sum(n, |j: int| f(i * n + j));
    let goal = |i: int| sum(n, |j: int| t[i * n + j] * beta(low, j)) * beta(high, i);
    assert forall|i: int| 0 <= i < m implies #[trigger] rows(i) == goal(i) by {
        let c = beta(high, i);
        let g = |j: int| t[i * n + j] * beta(low, j);
        lemma_sum_scale(n, c, g);
        let r = |j: int| f(i * n + j);
        assert forall|j: int| 0 <= j < n implies #[trigger] r(j) == c * g(j) by {
            lemma_beta_join(low, high, j, i);
            let x = t[i * n + j];
            let y = beta(low, j);
            assert(x * (y * c) == c * (x * y)) by (nonlinear_arith);
        }
        lemma_sum_same(n, r, |j: int| c * g(j));
        let s = sum(n, g);
        assert(c * s == s * c) by (nonlinear_arith);
    }
    lemma_sum_same(m, rows, goal);
}

/// The table of factors of a point.
pub fn compute_betas_eval<F: PrimeField>(point: &[F]) -> (r: Vec<F>)
    requires
        pow2(point@.len()) <= usize::MAX,
    ensures
        all_stand_for(r@, betas(residues(point@))),
{
    let ghost p = residues(point@);
    let mut table: Vec<F> = Vec::new();
    table.push(Lifted::<F>::one().get());
    let mut k: usize = 0;
    proof {
        lemma_pow2_unfold_zero();
    }
    while k < point.len()
        invariant
            p == residues(point@),
            pow2(point@.len()) <= usize::MAX,
            k <= point.len(),
            all_stand_for(table@, betas(p.take(k as int))),
        decreases point.len() - k,
    {
        let ghost q = p.take(k as int);
        let ghost q1 = p.take(k + 1);
        let h: usize = table.len();
        proof {
            lemma_halves((k + 1) as nat);
            if k + 1 < point.len() {
                lemma_pow2_strictly_increases((k + 1) as nat, point@.len());
            }
            assert(q1.drop_last() =~= q);
        }
        let rk = Lifted::of(point[k]);
        let low = Lifted::one().minus(rk);
        let mut next: Vec<F> = Vec::new();
        for i in 0..h
            invariant
                h == table.len(),
                h == pow2(k as nat),
                q.len() == k,
                q1.len() == k + 1,
                q1.drop_last() == q,
                all_stand_for(table@, betas(q)),
                low@ == 1 - q1.last(),
                next.len() == i,
                forall|j: int| 0 <= j < i ==> stands_for(#[trigger] next@[j], beta(q1, j)),
        {
            assert(betas(q)[i as int] == beta(q, i as int));
            let t = Lifted::known(table[i], Ghost(beta(q, i as int)));
            next.push(t.times(low).get());
        }
        for i in 0..h
            invariant
                h == table.len(),
                h == pow2(k as nat),
                q.len() == k,
                q1.len() == k + 1,
                q1.drop_last() == q,
                all_stand_for(table@, betas(q)),
                rk@ == q1.last(),
                next.len() == h + i,
                forall|j: int| 0 <= j < h + i ==> stands_for(#[trigger] next@[j], beta(q1, j)),
        {
            assert(betas(q)[i as int] == beta(q, i as int));
            let t = Lifted::known(table[i], Ghost(beta(q, i as int)));
            next.push(t.times(rk).get());
        }
        table = next;
        k += 1;
    }
    assert(p.take(point@.len() as int) =~= p);
    table
}

/// The multilinear extension of a table, evaluated at a point.
pub fn mle_evaluate<F: PrimeField>(evals: &[F], point: &[F]) -> (r: F)
    requires
        evals@.len() == pow2(point@.len()),
    ensures
        stands_for(r, mle(residues(evals@), residues(point@))),
{
    let ghost p = residues(point@);
    let ghost goal = mle(residues(evals@), p);
    let ghost mut vals = residues(evals@);
    let mut cur: Vec<F> = Vec::new();
    for i in 0..evals.len()
        invariant
            cur.len() == i,
            forall|j: int| 0 <= j < i ==> cur@[j] == evals@[j],
    {
        cur.push(evals[i]);
    }
    assert(cur@ =~= evals@);
    let mut k: usize = point.len();
    proof {
        lemma_residues_stand(evals@);
        assert(p.take(k as int) =~= p);
    }
    while k > 0
        invariant
            p == residues(point@),
            k <= point.len(),
            cur.len() == pow2(k as nat),
            all_stand_for(cur@, vals),
            goal == mle(vals, p.take(k as int)),
        decreases k,
    {
        let ghost q = p.take(k as int);
        let ghost q1 = p.take(k - 1);
        proof {
            lemma_halves(k as nat);
            assert(q.drop_last() =~= q1);
        }
        let h: usize = cur.len() / 2;
        let rk = Lifted::of(point[k - 1]);
        let low = Lifted::one().minus(rk);
        let ghost lo = vals.take(h as int);
        let ghost hi = vals.skip(h as int);
        let ghost folded = Seq::new(h as nat, |i: int| low@ * lo[i] + rk@ * hi[i]);
        let mut next: Vec<F> = Vec::new();
        for i in 0..h
            invariant
                cur.len() == 2 * h,
                all_stand_for(cur@, vals),
                lo == vals.take(h as int),
                hi == vals.skip(h as int),
                folded == Seq::new(h as nat, |i: int| low@ * lo[i] + rk@ * hi[i]),
                next.len() == i,
                forall|j: int| 0 <= j < i ==> stands_for(#[trigger] next@[j], folded[j]),
        {
            let a = Lifted::known(cur[i], Ghost(lo[i as int]));
            let b = Lifted::known(cur[h + i], Ghost(hi[i as int]));
            next.push(low.times(a).plus(rk.times(b)).get());
        }
        proof {
            lemma_mle_high(vals, q);
            lemma_mle_combine(low@, lo, rk@, hi, folded, q1);
            vals = folded;
        }
        cur = next;
        k -= 1;
    }
    proof {
        lemma_pow2_unfold_zero();
        reveal_with_fuel(sum, 2);
        assert(beta(p.take(0), 0) == 1);
        assert(vals[0] * 1 == vals[0]);
    }
    cur[0]
}

/// The extension of a linear combination of two tables.
pub proof fn lemma_mle_combine(
    a: int,
    s: Seq<int>,
    b: int,
    t: Seq<int>,
    u: Seq<int>,
    r: Seq<int>,
)
    requires
        s.len() >= pow2(r.len()),
        t.len() >= pow2(r.len()),
        u.len() >= pow2(r.len()),
        forall|i: int| 0 <= i < pow2(r.len()) ==> #[trigger] u[i] == a * s[i] + b * t[i],
    ensures
        mle(u, r) == a * mle(s, r) + b * mle(t, r),
{
    let n = pow2(r.len());
    let f = |i: int| s[i] * beta(r, i);
    let g = |i: int| t[i] * beta(r, i);
    lemma_sum_scale(n, a, f);
    lemma_sum_scale(n, b, g);
    let af = |i: int| a * f(i);
    let bg = |i: int| b * g(i);
    lemma_sum_plus(n, af, bg);
    let v = |i: int| u[i] * beta(r, i);
    assert forall|i: int| 0 <= i < n implies #[trigger] v(i) == af(i) + bg(i) by {
        let x = s[i];
        let y = t[i];
        let z = beta(r, i);
        assert((a * x + b * y) * z == a * (x * z) + b * (y * z)) by (nonlinear_arith);
    }
    lemma_sum_same(n, v, |i: int| af(i) + bg(i));
}

/// The equality polynomial of two points.
pub fn identity_eval<F: PrimeField>(a: &[F], b: &[F]) -> (r: F)
    requires
        a@.len() == b@.len(),
    ensures
        stands_for(r, identity(residues(a@), residues(b@))),
{
    let ghost p = residues(a@);
    let ghost q = residues(b@);
    let mut acc = Lifted::<F>::one();
    let one = Lifted::<F>::one();
    for i in 0..a.len()
        invariant
            a@.len() == b@.len(),
            p == residues(a@),
            q == residues(b@),
            one@ == 1,
            acc@ == identity(p.take(i as int), q.take(i as int)),
    {
        let x = Lifted::of(a[i]);
        let y = Lifted::of(b[i]);
        proof {
            assert(p.take(i + 1).drop_last() =~= p.take(i as int));
            assert(q.take(i + 1).drop_last() =~= q.take(i as int));
        }
        acc = acc.times(x.times(y).plus(one.minus(x).times(one.minus(y))));
    }
    assert(p.take(a@.len() as int) =~= p);
    assert(q.take(a@.len() as int) =~= q);
    acc.get()
}

/// Bits are their own residues.
pub proof fn lemma_bit_residues<F: PrimeField>(n: int, k: nat, b: Seq<F>)
    requires
        all_stand_for(b, bits(n, k)),
    ensures
        residues(b) == bits(n, k),
{
    assert forall|j: int| 0 <= j < k implies residues(b)[j] == bits(n, k)[j] by {
        assert(stands_for(b[j], bits(n, k)[j]));
        b[j].residue_bounds();
        lemma_small_mod(bits(n, k)[j] as nat, F::modulus() as nat);
    }
    assert(residues(b) =~= bits(n, k));
}

/// The `k` lowest bits of `n`, lowest first, as field elements.
pub fn to_bit_sequence_le<F: PrimeField>(n: usize, k: usize) -> (r: Vec<F>)
    ensures
        all_stand_for(r@, bits(n as int, k as nat)),
{
    let mut r: Vec<F> = Vec::new();
    let mut m: usize = n;
    proof {
        lemma_pow2_unfold_zero();
    }
    for j in 0..k
        invariant
            r.len() == j,
            m == n as int / pow2(j as nat) as int,
            all_stand_for(r@, bits(n as int, j as nat)),
    {
        proof {
            lemma_halves((j + 1) as nat);
            lemma_div_denominator(n as int, pow2(j as nat) as int, 2);
        }
        r.push(Lifted::of_u64((m % 2) as u64).get());
        m = m / 2;
    }
    r
}

/// The `i`-th value of a table of which the low coordinates are fixed: the `i`-th
/// row, weighted by the factors of the point.
pub open spec fn fixed_low(t: Seq<int>, low: Seq<int>, i: int) -> int {
    sum(pow2(low.len()), |j: int| t[i * pow2(low.len()) + j] * beta(low, j))
}

/// The `j`-th value of a table of which the high coordinates are fixed: the `j`-th
/// column, weighted by the factors of the point. The columns are `width` apart.
pub open spec fn fixed_high(t: Seq<int>, width: int, high: Seq<int>, j: int) -> int {
    sum(pow2(high.len()), |i: int| t[i * width + j] * beta(high, i))
}

/// The extension of a table of which the low coordinates are fixed is the extension
/// of the table at the joined point.
pub proof fn lemma_fixed_low(t: Seq<int>, low: Seq<int>, high: Seq<int>)
    ensures
        mle(Seq::new(pow2(high.len()), |i: int| fixed_low(t, low, i)), high) == mle(t, low + high),
{
    lemma_mle_grid(t, low, high);
    let s = Seq::new(pow2(high.len()), |i: int| fixed_low(t, low, i));
    lemma_sum_same(
        pow2(high.len()),
        |i: int| s[i] * beta(high, i),
        |i: int|
            sum(pow2(low.len()), |j: int| t[i * pow2(low.len()) + j] * beta(low, j)) * beta(high, i),
    );
}

/// The extension of a table of which the high coordinates are fixed is the
/// extension of the table at the joined point.
pub proof fn lemma_fixed_high(t: Seq<int>, low: Seq<int>, high: Seq<int>)
    ensures
        mle(
            Seq::new(
                pow2(low.len()),
                |j: int| fixed_high(t, pow2(low.len()) as int, high, j),
            ),
            low,
        ) == mle(t, low + high),
{
    let n = pow2(low.len());
    let m = pow2(high.len());
    lemma_mle_grid(t, low, high);
    let s = Seq::new(n, |j: int| fixed_high(t, n as int, high, j));
    let cell = |i: int, j: int| (t[i * n + j] * beta(low, j)) * beta(high, i);
    let rows = |i: int| sum(n, |j: int| cell(i, j));
    let given = |i: int| sum(n, |j: int| t[i * n + j] * beta(low, j)) * beta(high, i);
    assert forall|i: int| 0 <= i < m implies #[trigger] given(i) == rows(i) by {
        let c = beta(high, i);
        let g = |j: int| t[i * n + j] * beta(low, j);
        let r = |j: int| cell(i, j);
        lemma_sum_scale(n, c, g);
        assert forall|j: int| 0 <= j < n implies #[trigger] r(j) == c * g(j) by {
            let x = g(j);
            assert(x * c == c * x) by (nonlinear_arith);
        }
        lemma_sum_same(n, r, |j: int| c * g(j));
        let x = sum(n, g);
        assert(x * c == c * x) by (nonlinear_arith);
    }
    lemma_sum_same(m, given, rows);
    lemma_sum_swap(m, n, cell);
    let cols = |j: int| sum(m, |i: int| cell(i, j));
    let goal = |j: int| s[j] * beta(low, j);
    assert forall|j: int| 0 <= j < n implies #[trigger] cols(j) == goal(j) by {
        let c = beta(low, j);
        let g = |i: int| t[i * n + j] * beta(high, i);
        let r = |i: int| cell(i, j);
        lemma_sum_scale(m, c, g);
        assert forall|i: int| 0 <= i < m implies #[trigger] r(i) == c * g(i) by {
            let x = t[i * n + j];
            let y = beta(high, i);
            assert((x * c) * y == c * (x * y)) by (nonlinear_arith);
        }
        lemma_sum_same(m, r, |i: int| c * g(i));
        lemma_sum_same(m, g, |i: int| t[i * n as int + j] * beta(high, i));
        let x = sum(m, g);
        assert(x * c == c * x) by (nonlinear_arith);
    }
    lemma_sum_same(n, cols, goal);
}

/// A table with its low coordinates fixed at a point.
pub fn fix_low_variables<F: PrimeField>(evals: &[F], point: &[F], rows: usize) -> (r: Vec<F>)
    requires
        pow2(point@.len()) <= usize::MAX,
        evals@.len() == rows * pow2(point@.len()),
    ensures
        r@.len() == rows,
        forall|i: int|
            0 <= i < rows ==> stands_for(
                #[trigger] r@[i],
                fixed_low(residues(evals@), residues(point@), i),
            ),
{
    let ghost t = residues(evals@);
    let ghost p = residues(point@);
    let weights = compute_betas_eval(point);
    let n: usize = weights.len();
    let mut r: Vec<F> = Vec::new();
    for i in 0..rows
        invariant
            t == residues(evals@),
            p == residues(point@),
            n == pow2(p.len()),
            evals@.len() == rows * n,
            weights@.len() == n,
            all_stand_for(weights@, betas(p)),
            r@.len() == i,
            forall|k: int| 0 <= k < i ==> stands_for(#[trigger] r@[k], fixed_low(t, p, k)),
    {
        let ghost f = |j: int| t[i * pow2(p.len()) + j] * beta(p, j);
        proof {
            assert(0 <= i * n && i * n + n <= rows * n) by (nonlinear_arith)
                requires
                    0 <= i < rows,
            ;
            assert(evals.len() <= usize::MAX);
        }
        let start: usize = i * n;
        let mut acc = Lifted::<F>::zero();
        for j in 0..n
            invariant
                t == residues(evals@),
                n == pow2(p.len()),
                start == i * n,
                start + n <= evals@.len(),
                weights@.len() == n,
                all_stand_for(weights@, betas(p)),
                f == |j: int| t[i * pow2(p.len()) + j] * beta(p, j),
                acc@ == sum(j as nat, f),
        {
            assert(betas(p)[j as int] == beta(p, j as int));
            assert(evals.len() <= usize::MAX);
            let w = Lifted::known(weights[j], Ghost(beta(p, j as int)));
            acc = acc.plus(Lifted::of(evals[start + j]).times(w));
        }
        r.push(acc.get());
    }
    r
}

/// A table with its high coordinates fixed at a point; the rows have `width`
/// values.
pub fn fix_high_variables<F: PrimeField>(evals: &[F], point: &[F], width: usize) -> (r: Vec<F>)
    requires
        pow2(point@.len()) <= usize::MAX,
        evals@.len() == pow2(point@.len()) * width,
    ensures
        r@.len() == width,
        forall|j: int|
            0 <= j < width ==> stands_for(
                #[trigger] r@[j],
                fixed_high(residues(evals@), width as int, residues(point@), j),
            ),
{
    let ghost t = residues(evals@);
    let ghost p = residues(point@);
    let weights = compute_betas_eval(point);
    let n: usize = weights.len();
    let mut r: Vec<F> = Vec::new();
    for j in 0..width
        invariant
            t == residues(evals@),
            p == residues(point@),
            n == pow2(p.len()),
            evals@.len() == n * width,
            weights@.len() == n,
            all_stand_for(weights@, betas(p)),
            r@.len() == j,
            forall|k: int|
                0 <= k < j ==> stands_for(#[trigger] r@[k], fixed_high(t, width as int, p, k)),
    {
        let ghost f = |i: int| t[i * width as int + j] * beta(p, i);
        let mut acc = Lifted::<F>::zero();
        for i in 0..n
            invariant
                t == residues(evals@),
                n == pow2(p.len()),
                0 <= j < width,
                evals@.len() == n * width,
                weights@.len() == n,
                all_stand_for(weights@, betas(p)),
                f == |i: int| t[i * width as int + j] * beta(p, i),
                acc@ == sum(i as nat, f),
        {
            proof {
                assert(betas(p)[i as int] == beta(p, i as int));
                assert(0 <= i * width && i * width + width <= n * width) by (nonlinear_arith)
                    requires
                        0 <= i < n,
                ;
                assert(evals.len() <= usize::MAX);
            }
            let w = Lifted::known(weights[i], Ghost(beta(p, i as int)));
            acc = acc.plus(Lifted::of(evals[i * width + j]).times(w));
        }
        proof {
            lemma_sum_same(
                pow2(p.len()),
                f,
                |i: int| t[i * width as int + j as int] * beta(p, i),
            );
        }
        r.push(acc.get());
    }
    r
}

/// The extension of the factors of a point is how much two points are the same.
pub proof fn lemma_mle_betas(e: Seq<int>, s: Seq<int>)
    requires
        e.len() == s.len(),
    ensures
        mle(betas(e), s) == identity(s, e),
        mle(betas(e), s) == identity(e, s),
{
    let n = pow2(s.len());
    let f = |i: int| betas(e)[i] * beta(s, i);
    let g = |i: int| beta(s, i) * beta(e, i);
    let h = |i: int| beta(e, i) * beta(s, i);
    assert forall|i: int| 0 <= i < n implies #[trigger] f(i) == g(i) && f(i) == h(i) by {
        assert(betas(e)[i] == beta(e, i));
        let (a, b) = (beta(e, i), beta(s, i));
        assert(a * b == b * a) by (nonlinear_arith);
    }
    lemma_sum_same(n, f, g);
    lemma_sum_same(n, f, h);
    lemma_identity(s, e);
    lemma_identity(e, s);
}

} // verus!
