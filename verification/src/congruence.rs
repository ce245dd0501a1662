//! Congruence of integers.
use vstd::prelude::*;
use vstd::arithmetic::div_mod::*;
use vstd::arithmetic::power2::pow2;
use crate::field::{all_stand_for, inverts, residues, stands_for, PrimeField};
use crate::mle::{beta, fixed_high, fixed_low, mle};
use crate::sum::sum;

verus! {

/// `a` and `b` leave the same remainder by `m`.
pub open spec fn cong(a: int, b: int, m: int) -> bool {
    a % m == b % m
}

pub proof fn lemma_cong_plus(a: int, b: int, c: int, d: int, m: int)
    requires
        m > 0,
        cong(a, b, m),
        cong(c, d, m),
    ensures
        cong(a + c, b + d, m),
{
    lemma_add_mod_noop(a, c, m);
    lemma_add_mod_noop(b, d, m);
}

pub proof fn lemma_cong_minus(a: int, b: int, c: int, d: int, m: int)
    requires
        m > 0,
        cong(a, b, m),
        cong(c, d, m),
    ensures
        cong(a - c, b - d, m),
{
    lemma_sub_mod_noop(a, c, m);
    lemma_sub_mod_noop(b, d, m);
}

pub proof fn lemma_cong_times(a: int, b: int, c: int, d: int, m: int)
    requires
        m > 0,
        cong(a, b, m),
        cong(c, d, m),
    ensures
        cong(a * c, b * d, m),
{
    lemma_mul_mod_noop_general(a, c, m);
    lemma_mul_mod_noop_general(b, d, m);
}

pub proof fn lemma_cong_sum(n: nat, f: spec_fn(int) -> int, g: spec_fn(int) -> int, m: int)
    requires
        m > 0,
        forall|i: int| 0 <= i < n ==> cong(#[trigger] f(i), g(i), m),
    ensures
        cong(sum(n, f), sum(n, g), m),
    decreases n,
{
    if n > 0 {
        lemma_cong_sum((n - 1) as nat, f, g, m);
        assert(cong(f(n - 1), g(n - 1), m));
        lemma_cong_plus(sum((n - 1) as nat, f), sum((n - 1) as nat, g), f(n - 1), g(n - 1), m);
    }
}

/// The residue of an element is congruent to every integer that it stands for.
pub proof fn lemma_residue_cong<F: PrimeField>(f: F, x: int)
    requires
        stands_for(f, x),
    ensures
        cong(f.residue(), x, F::modulus()),
        F::modulus() > 1,
{
    f.residue_bounds();
    lemma_mod_twice(x, F::modulus());
}

/// An element that stands for an integer stands for every congruent one.
pub proof fn lemma_stands_cong<F: PrimeField>(f: F, x: int, y: int)
    requires
        cong(x, y, F::modulus()),
    ensures
        stands_for(f, x) == stands_for(f, y),
{
}

/// The extension of a table of elements is congruent to that of the integers that
/// they stand for.
pub proof fn lemma_mle_cong<F: PrimeField>(t: Seq<F>, v: Seq<int>, r: Seq<int>, m: int)
    requires
        all_stand_for(t, v),
        t.len() >= pow2(r.len()),
        m == F::modulus(),
        m > 1,
    ensures
        cong(mle(residues(t), r), mle(v, r), m),
{
    let f = |i: int| residues(t)[i] * beta(r, i);
    let g = |i: int| v[i] * beta(r, i);
    assert forall|i: int| 0 <= i < pow2(r.len()) implies cong(#[trigger] f(i), g(i), m) by {
        lemma_residue_cong(t[i], v[i]);
        lemma_cong_times(residues(t)[i], v[i], beta(r, i), beta(r, i), m);
    }
    lemma_cong_sum(pow2(r.len()), f, g, m);
}

/// A row of elements, weighted by the factors of a point, is congruent to the row
/// of the integers that they stand for.
pub proof fn lemma_fixed_low_cong<F: PrimeField>(
    t: Seq<F>,
    v: Seq<int>,
    low: Seq<int>,
    i: int,
    rows: int,
)
    requires
        all_stand_for(t, v),
        0 <= i < rows,
        t.len() >= rows * pow2(low.len()),
        F::modulus() > 1,
    ensures
        cong(fixed_low(residues(t), low, i), fixed_low(v, low, i), F::modulus()),
{
    let n = pow2(low.len());
    let m = F::modulus();
    let f = |j: int| residues(t)[i * n + j] * beta(low, j);
    let g = |j: int| v[i * n + j] * beta(low, j);
    assert forall|j: int| 0 <= j < n implies cong(#[trigger] f(j), g(j), m) by {
        assert(0 <= i * n + j < rows * n) by (nonlinear_arith)
            requires
                0 <= i < rows,
                0 <= j < n,
        ;
        lemma_residue_cong(t[i * n + j], v[i * n + j]);
        lemma_cong_times(residues(t)[i * n + j], v[i * n + j], beta(low, j), beta(low, j), m);
    }
    lemma_cong_sum(n, f, g, m);
}

/// A column of elements, weighted by the factors of a point, is congruent to the
/// column of the integers that they stand for.
pub proof fn lemma_fixed_high_cong<F: PrimeField>(
    t: Seq<F>,
    v: Seq<int>,
    width: int,
    high: Seq<int>,
    j: int,
)
    requires
        all_stand_for(t, v),
        0 <= j < width,
        t.len() >= pow2(high.len()) * width,
        F::modulus() > 1,
    ensures
        cong(fixed_high(residues(t), width, high, j), fixed_high(v, width, high, j), F::modulus()),
{
    let n = pow2(high.len());
    let m = F::modulus();
    let f = |i: int| residues(t)[i * width + j] * beta(high, i);
    let g = |i: int| v[i * width + j] * beta(high, i);
    assert forall|i: int| 0 <= i < n implies cong(#[trigger] f(i), g(i), m) by {
        assert(0 <= i * width + j < n * width) by (nonlinear_arith)
            requires
                0 <= i < n,
                0 <= j < width,
        ;
        lemma_residue_cong(t[i * width + j], v[i * width + j]);
        lemma_cong_times(
            residues(t)[i * width + j],
            v[i * width + j],
            beta(high, i),
            beta(high, i),
            m,
        );
    }
    lemma_cong_sum(n, f, g, m);
}

/// The evaluation of a table of elements is congruent to that of the integers that they
/// stand for.
pub proof fn lemma_end_cong<F: PrimeField>(end: F, t: Seq<F>, v: Seq<int>, r: Seq<int>)
    requires
        stands_for(end, mle(residues(t), r)),
        all_stand_for(t, v),
        t.len() >= pow2(r.len()),
    ensures
        cong(end.residue(), mle(v, r), F::modulus()),
        F::modulus() > 1,
{
    end.residue_bounds();
    lemma_residue_cong(end, mle(residues(t), r));
    lemma_mle_cong(t, v, r, F::modulus());
}

/// Two residues that invert two are the same.
pub proof fn lemma_one_half(a: int, b: int, m: int)
    requires
        m > 1,
        0 <= a < m,
        0 <= b < m,
        inverts(2, a, m),
        inverts(2, b, m),
    ensures
        a == b,
{
    lemma_small_mod(1, m as nat);
    assert(cong(2 * a, 1, m));
    assert(cong(2 * b, 1, m));
    lemma_cong_times(2 * a, 1, b, b, m);
    lemma_cong_times(2 * b, 1, a, a, m);
    assert((2 * a) * b == (2 * b) * a) by (nonlinear_arith);
    assert(1 * a == a && 1 * b == b);
    lemma_small_mod(a as nat, m as nat);
    lemma_small_mod(b as nat, m as nat);
}

} // verus!
