//! Finite sums of integers.
use vstd::prelude::*;

verus! {

/// The sum of `f(i)` over `0 <= i < n`.
pub open spec fn sum(n: nat, f: spec_fn(int) -> int) -> int
    decreases n,
{
    if n == 0 {
        0
    } else {
        sum((n - 1) as nat, f) + f(n - 1)
    }
}

pub proof fn lemma_sum_same(n: nat, f: spec_fn(int) -> int, g: spec_fn(int) -> int)
    requires
        forall|i: int| 0 <= i < n ==> #[trigger] f(i) == g(i),
    ensures
        sum(n, f) == sum(n, g),
    decreases n,
{
    if n > 0 {
        lemma_sum_same((n - 1) as nat, f, g);
        assert(f(n - 1) == g(n - 1));
    }
}

pub proof fn lemma_sum_zero(n: nat, f: spec_fn(int) -> int)
    requires
        forall|i: int| 0 <= i < n ==> #[trigger] f(i) == 0,
    ensures
        sum(n, f) == 0,
    decreases n,
{
    if n > 0 {
        lemma_sum_zero((n - 1) as nat, f);
        assert(f(n - 1) == 0);
    }
}

pub proof fn lemma_sum_plus(n: nat, f: spec_fn(int) -> int, g: spec_fn(int) -> int)
    ensures
        sum(n, |i: int| f(i) + g(i)) == sum(n, f) + sum(n, g),
    decreases n,
{
    if n > 0 {
        lemma_sum_plus((n - 1) as nat, f, g);
    }
}

pub proof fn lemma_sum_scale(n: nat, c: int, f: spec_fn(int) -> int)
    ensures
        sum(n, |i: int| c * f(i)) == c * sum(n, f),
    decreases n,
{
    if n > 0 {
        lemma_sum_scale((n - 1) as nat, c, f);
        let s = sum((n - 1) as nat, f);
        let l = f(n - 1);
        assert(c * (s + l) == c * s + c * l) by (nonlinear_arith);
    } else {
        assert(c * 0 == 0);
    }
}

/// A sum splits at any place.
pub proof fn lemma_sum_split(m: nat, n: nat, f: spec_fn(int) -> int)
    ensures
        sum(m + n, f) == sum(m, f) + sum(n, |i: int| f(m + i)),
    decreases n,
{
    if n > 0 {
        lemma_sum_split(m, (n - 1) as nat, f);
    }
}

/// A sum with one term that is not zero is that term.
pub proof fn lemma_sum_single(n: nat, k: int, f: spec_fn(int) -> int)
    requires
        0 <= k < n,
        forall|i: int| 0 <= i < n && i != k ==> #[trigger] f(i) == 0,
    ensures
        sum(n, f) == f(k),
    decreases n,
{
    if k == n - 1 {
        lemma_sum_zero((n - 1) as nat, f);
    } else {
        lemma_sum_single((n - 1) as nat, k, f);
        assert(f(n - 1) == 0);
    }
}

/// Two nested sums may be exchanged.
pub proof fn lemma_sum_swap(m: nat, n: nat, f: spec_fn(int, int) -> int)
    ensures
        sum(m, |i: int| sum(n, |j: int| f(i, j))) == sum(n, |j: int| sum(m, |i: int| f(i, j))),
    decreases m,
{
    if m == 0 {
        lemma_sum_zero(n, |j: int| sum(0, |i: int| f(i, j)));
    } else {
        let m1 = (m - 1) as nat;
        lemma_sum_swap(m1, n, f);
        let inner = |j: int| sum(m1, |i: int| f(i, j));
        let last = |j: int| f(m - 1, j);
        lemma_sum_plus(n, inner, last);
        lemma_sum_same(
            n,
            |j: int| inner(j) + last(j),
            |j: int| sum(m, |i: int| f(i, j)),
        );
    }
}

/// The terms of an even sum, taken in pairs.
pub proof fn lemma_sum_pairs(n: nat, f: spec_fn(int) -> int)
    ensures
        sum(2 * n, f) == sum(n, |i: int| f(2 * i) + f(2 * i + 1)),
    decreases n,
{
    if n > 0 {
        lemma_sum_pairs((n - 1) as nat, f);
        assert(sum(2 * n, f) == sum((2 * n - 1) as nat, f) + f(2 * n - 1));
        assert(sum((2 * n - 1) as nat, f) == sum((2 * n - 2) as nat, f) + f(2 * n - 2));
        assert(2 * (n - 1) as nat == (2 * n - 2) as nat);
        assert(2 * (n - 1) + 1 == 2 * n - 1);
    }
}

/// A sum over a grid, taken row by row.
pub proof fn lemma_sum_grid(m: nat, n: nat, f: spec_fn(int) -> int)
    ensures
        sum(m * n, f) == sum(m, |i: int| sum(n, |j: int| f(i * n + j))),
    decreases m,
{
    if m == 0 {
        assert(0 * n == 0);
    } else {
        let m1 = (m - 1) as nat;
        assert(m * n == m1 * n + n) by (nonlinear_arith)
            requires
                m == m1 + 1,
        ;
        lemma_sum_grid(m1, n, f);
        lemma_sum_split(m1 * n, n, f);
        assert((m - 1) * n == m1 * n);
        lemma_sum_same(n, |j: int| f(m1 * n + j), |j: int| f((m - 1) * n + j));
    }
}

} // verus!
