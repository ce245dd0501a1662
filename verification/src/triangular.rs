//! Multilinear extensions of triangular, shifted and bounded matrices.
//!
//! A square matrix of side `2^n` is a table whose index holds the column in its
//! low bits and the row in its high bits.
use vstd::prelude::*;
use vstd::arithmetic::power2::{lemma_pow2_pos, pow2};
use vstd::arithmetic::div_mod::*;
use crate::field::{residues, stands_for, Lifted, PrimeField};
use crate::mle::{beta, bits, identity, lemma_beta_bits, lemma_betas_sum, lemma_bit_residues, lemma_halves, lemma_identity, lemma_mle_bits, lemma_mle_grid, lemma_pow2_unfold_zero, lemma_weighted_high, mle, to_bit_sequence_le};
use crate::sum::{lemma_sum_plus, lemma_sum_same, lemma_sum_scale, lemma_sum_single, lemma_sum_split, lemma_sum_swap, lemma_sum_zero, sum};

verus! {

/// The factors of a point, summed over the indices up to `i`.
pub open spec fn upto(p: Seq<int>, i: int) -> int {
    sum((i + 1) as nat, |j: int| beta(p, j))
}

/// The factors of a point, summed over the indices from `i` on.
pub open spec fn onward(p: Seq<int>, i: int) -> int {
    sum((pow2(p.len()) - i) as nat, |j: int| beta(p, i + j))
}

/// The multilinear extension of the square matrix `m(row, column)`.
pub open spec fn matrix_mle(m: spec_fn(int, int) -> int, row: Seq<int>, col: Seq<int>) -> int {
    sum(
        pow2(row.len()),
        |i: int| sum(pow2(col.len()), |j: int| m(i, j) * beta(col, j)) * beta(row, i),
    )
}

/// The matrix that is one where the column is not above the row.
pub open spec fn lower_triangular(i: int, j: int) -> int {
    if j <= i {
        1
    } else {
        0
    }
}

/// The transpose of the lower triangular matrix.
pub open spec fn upper_triangular(i: int, j: int) -> int {
    if i <= j {
        1
    } else {
        0
    }
}

/// `upto`, split by the highest bit of the index.
pub proof fn lemma_upto_high(p: Seq<int>, i: int)
    requires
        p.len() > 0,
        0 <= i < pow2(p.len()),
    ensures
        i < pow2((p.len() - 1) as nat) ==> upto(p, i) == upto(p.drop_last(), i) * (1 - p.last()),
        i >= pow2((p.len() - 1) as nat) ==> upto(p, i) == upto(
            p.drop_last(),
            i - pow2((p.len() - 1) as nat),
        ) * p.last() + (1 - p.last()),
{
    let h = pow2((p.len() - 1) as nat);
    let p1 = p.drop_last();
    let c = p.last();
    lemma_halves(p.len());
    let f = |j: int| beta(p, j);
    let g = |j: int| beta(p1, j);
    lemma_sum_scale((i + 1) as nat, 1 - c, g);
    if i < h {
        assert forall|j: int| 0 <= j < i + 1 implies #[trigger] f(j) == (1 - c) * g(j) by {
            let x = beta(p1, j);
            assert(x * (1 - c) == (1 - c) * x) by (nonlinear_arith);
        }
        lemma_sum_same((i + 1) as nat, f, |j: int| (1 - c) * g(j));
        let s = upto(p1, i);
        assert((1 - c) * s == s * (1 - c)) by (nonlinear_arith);
    } else {
        let k = (i - h + 1) as nat;
        lemma_sum_split(h, k, f);
        let lo = |j: int| (1 - c) * g(j);
        assert forall|j: int| 0 <= j < h implies #[trigger] f(j) == lo(j) by {
            let x = beta(p1, j);
            assert(x * (1 - c) == (1 - c) * x) by (nonlinear_arith);
        }
        lemma_sum_same(h, f, lo);
        lemma_sum_scale(h, 1 - c, g);
        lemma_betas_sum(p1);
        let hi = |j: int| f(h + j);
        assert forall|j: int| 0 <= j < k implies #[trigger] hi(j) == c * g(j) by {
            let x = beta(p1, j);
            assert(x * c == c * x) by (nonlinear_arith);
        }
        lemma_sum_same(k, hi, |j: int| c * g(j));
        lemma_sum_scale(k, c, g);
        let s = upto(p1, i - h);
        assert(c * s == s * c) by (nonlinear_arith);
        assert((1 - c) * 1 == 1 - c);
    }
}

/// What lies up to an index and what lies from it on share that index alone.
pub proof fn lemma_onward(p: Seq<int>, i: int)
    requires
        0 <= i < pow2(p.len()),
    ensures
        onward(p, i) == 1 - upto(p, i) + beta(p, i),
{
    let f = |j: int| beta(p, j);
    lemma_sum_split(i as nat, (pow2(p.len()) - i) as nat, f);
    lemma_betas_sum(p);
    lemma_sum_same(
        (pow2(p.len()) - i) as nat,
        |j: int| f(i as nat + j),
        |j: int| beta(p, i + j),
    );
}

/// `onward`, split by the highest bit of the index.
pub proof fn lemma_onward_high(p: Seq<int>, i: int)
    requires
        p.len() > 0,
        0 <= i < pow2(p.len()),
    ensures
        i < pow2((p.len() - 1) as nat) ==> onward(p, i) == onward(p.drop_last(), i) * (1 - p.last())
            + p.last(),
        i >= pow2((p.len() - 1) as nat) ==> onward(p, i) == onward(
            p.drop_last(),
            i - pow2((p.len() - 1) as nat),
        ) * p.last(),
{
    let h = pow2((p.len() - 1) as nat);
    let p1 = p.drop_last();
    let c = p.last();
    lemma_halves(p.len());
    lemma_onward(p, i);
    lemma_upto_high(p, i);
    if i < h {
        lemma_onward(p1, i);
        let s = upto(p1, i);
        let b = beta(p1, i);
        assert(1 - s * (1 - c) + b * (1 - c) == (1 - s + b) * (1 - c) + c) by (nonlinear_arith);
    } else {
        lemma_onward(p1, i - h);
        let s = upto(p1, i - h);
        let b = beta(p1, i - h);
        assert(1 - (s * c + (1 - c)) + b * c == (1 - s + b) * c) by (nonlinear_arith);
    }
}

/// The extension of the lower triangular matrix, folded bit by bit.
pub open spec fn zeroifier(col: Seq<int>, row: Seq<int>) -> int
    decreases row.len(),
{
    if row.len() == 0 {
        1
    } else {
        let c = col.last();
        let r = row.last();
        zeroifier(col.drop_last(), row.drop_last()) * (1 - r - c + 2 * r * c) + (1 - c) * r
    }
}

/// A row of the lower triangular matrix sums the factors of the columns up to it.
pub proof fn lemma_lower_row(col: Seq<int>, i: int)
    requires
        0 <= i < pow2(col.len()),
    ensures
        sum(pow2(col.len()), |j: int| lower_triangular(i, j) * beta(col, j)) == upto(col, i),
{
    let f = |j: int| lower_triangular(i, j) * beta(col, j);
    let n = pow2(col.len());
    lemma_sum_split((i + 1) as nat, (n - i - 1) as nat, f);
    assert forall|j: int| 0 <= j < i + 1 implies #[trigger] f(j) == beta(col, j) by {
        assert(1 * beta(col, j) == beta(col, j));
    }
    lemma_sum_same((i + 1) as nat, f, |j: int| beta(col, j));
    let g = |j: int| f((i + 1) as nat + j);
    assert forall|j: int| 0 <= j < n - i - 1 implies #[trigger] g(j) == 0 by {
        assert(0 * beta(col, i + 1 + j) == 0);
    }
    lemma_sum_zero((n - i - 1) as nat, g);
}

/// Folding the bits of two points gives the extension of the lower triangular
/// matrix: the factors of the columns up to each row, weighted by the row.
pub proof fn lemma_zeroifier(col: Seq<int>, row: Seq<int>)
    requires
        col.len() == row.len(),
    ensures
        zeroifier(col, row) == sum(pow2(row.len()), |i: int| upto(col, i) * beta(row, i)),
        zeroifier(col, row) == matrix_mle(
            |i: int, j: int| lower_triangular(i, j),
            row,
            col,
        ),
    decreases row.len(),
{
    let f = |i: int| upto(col, i);
    if row.len() == 0 {
        lemma_pow2_unfold_zero();
        reveal_with_fuel(sum, 2);
        assert(beta(col, 0) == 1 && beta(row, 0) == 1);
        assert(upto(col, 0) == 1);
        let g = |i: int| upto(col, i) * beta(row, i);
        assert(sum(1, g) == g(0));
    } else {
        let n = row.len();
        let h = pow2((n - 1) as nat);
        let c1 = col.drop_last();
        let r1 = row.drop_last();
        let c = col.last();
        let r = row.last();
        lemma_halves(n);
        lemma_zeroifier(c1, r1);
        lemma_weighted_high(row, f);
        lemma_sum_same(
            pow2(n),
            |i: int| upto(col, i) * beta(row, i),
            |i: int| f(i) * beta(row, i),
        );
        let base = |i: int| upto(c1, i) * beta(r1, i);
        let s = sum(h, base);
        let lo = |i: int| f(i) * beta(r1, i);
        assert forall|i: int| 0 <= i < h implies #[trigger] lo(i) == (1 - c) * base(i) by {
            lemma_upto_high(col, i);
            let x = upto(c1, i);
            let y = beta(r1, i);
            assert((x * (1 - c)) * y == (1 - c) * (x * y)) by (nonlinear_arith);
        }
        lemma_sum_same(h, lo, |i: int| (1 - c) * base(i));
        lemma_sum_scale(h, 1 - c, base);
        let hi = |i: int| f(h + i) * beta(r1, i);
        let one = |i: int| beta(r1, i);
        let hc = |i: int| c * base(i);
        let ho = |i: int| (1 - c) * one(i);
        assert forall|i: int| 0 <= i < h implies #[trigger] hi(i) == hc(i) + ho(i) by {
            lemma_upto_high(col, h + i);
            let x = upto(c1, i);
            let y = beta(r1, i);
            assert((x * c + (1 - c)) * y == c * (x * y) + (1 - c) * y) by (nonlinear_arith);
        }
        lemma_sum_same(h, hi, |i: int| hc(i) + ho(i));
        lemma_sum_plus(h, hc, ho);
        lemma_sum_scale(h, c, base);
        lemma_sum_scale(h, 1 - c, one);
        lemma_betas_sum(r1);
        assert((1 - r) * ((1 - c) * s) + r * (c * s + (1 - c) * 1) == s * (1 - r - c + 2 * r * c) + (
        1 - c) * r) by (nonlinear_arith);
    }
    let m = |i: int, j: int| lower_triangular(i, j);
    let g = |i: int| upto(col, i) * beta(row, i);
    let k = |i: int| sum(pow2(col.len()), |j: int| m(i, j) * beta(col, j)) * beta(row, i);
    assert forall|i: int| 0 <= i < pow2(row.len()) implies #[trigger] g(i) == k(i) by {
        lemma_lower_row(col, i);
        lemma_sum_same(
            pow2(col.len()),
            |j: int| m(i, j) * beta(col, j),
            |j: int| lower_triangular(i, j) * beta(col, j),
        );
    }
    lemma_sum_same(pow2(row.len()), g, k);
}

/// At the bits of `n`, the extension of the lower triangular matrix sums the
/// factors of the indices up to `n`.
pub proof fn lemma_zeroifier_bits(p: Seq<int>, n: int)
    requires
        0 <= n < pow2(p.len()),
    ensures
        zeroifier(p, bits(n, p.len())) == upto(p, n),
{
    let b = bits(n, p.len());
    lemma_zeroifier(p, b);
    let t = Seq::new(pow2(p.len()), |i: int| upto(p, i));
    lemma_mle_bits(t, n, p.len());
    lemma_sum_same(pow2(p.len()), |i: int| t[i] * beta(b, i), |i: int| upto(p, i) * beta(b, i));
}

/// A matrix, stored row by row as one table.
pub open spec fn matrix_table(m: spec_fn(int, int) -> int, n: nat) -> Seq<int> {
    Seq::new(n * n, |k: int| m(k / n as int, k % n as int))
}

/// The extension of the table of a matrix, at a point whose low coordinates are
/// the column point, is the extension of the matrix.
pub proof fn lemma_matrix_table(m: spec_fn(int, int) -> int, row: Seq<int>, col: Seq<int>)
    requires
        row.len() == col.len(),
    ensures
        mle(matrix_table(m, pow2(row.len())), col + row) == matrix_mle(m, row, col),
{
    let n = pow2(row.len());
    let t = matrix_table(m, n);
    lemma_pow2_pos(row.len());
    lemma_mle_grid(t, col, row);
    let f = |i: int| sum(n, |j: int| t[i * n + j] * beta(col, j)) * beta(row, i);
    let g = |i: int| sum(n, |j: int| m(i, j) * beta(col, j)) * beta(row, i);
    assert forall|i: int| 0 <= i < n implies #[trigger] f(i) == g(i) by {
        let a = |j: int| t[i * n + j] * beta(col, j);
        let b = |j: int| m(i, j) * beta(col, j);
        assert forall|j: int| 0 <= j < n implies #[trigger] a(j) == b(j) by {
            lemma_fundamental_div_mod_converse(i * n + j, n as int, i, j);
            assert(0 <= i * n + j < n * n) by (nonlinear_arith)
                requires
                    0 <= i < n,
                    0 <= j < n,
            ;
        }
        lemma_sum_same(n, a, b);
    }
    lemma_sum_same(n, f, g);
}

/// The matrix that is one where the row is the column moved by `shift`.
pub open spec fn shift_matrix(shift: int, i: int, j: int) -> int {
    if i == j + shift {
        1
    } else {
        0
    }
}

/// The matrix that is one where the row is at most `window` above the column.
pub open spec fn offset_matrix(window: int, i: int, j: int) -> int {
    if i <= j + window {
        1
    } else {
        0
    }
}

/// At the bits of an index the equality polynomial is the factor of the index.
pub proof fn lemma_identity_bits(p: Seq<int>, n: int)
    requires
        0 <= n < pow2(p.len()),
    ensures
        identity(p, bits(n, p.len())) == beta(p, n),
{
    let b = bits(n, p.len());
    lemma_identity(p, b);
    let f = |i: int| beta(p, i) * beta(b, i);
    assert forall|i: int| 0 <= i < pow2(p.len()) implies #[trigger] f(i) == if i == n {
        beta(p, n)
    } else {
        0
    } by {
        lemma_beta_bits(n, p.len(), i);
    }
    lemma_sum_single(pow2(p.len()), n, f);
}

/// The extension of the shift matrix sums the factors of the pairs that lie
/// `shift` apart.
pub open spec fn shift_sum(row: Seq<int>, col: Seq<int>, shift: int) -> int {
    sum(
        pow2(row.len()),
        |i: int|
            if i < shift {
                0
            } else {
                beta(row, i) * beta(col, i - shift)
            },
    )
}

/// The sum over the pairs is the extension of the shift matrix.
pub proof fn lemma_shift_sum(row: Seq<int>, col: Seq<int>, shift: int)
    requires
        row.len() == col.len(),
        0 <= shift,
    ensures
        shift_sum(row, col, shift) == matrix_mle(
            |i: int, j: int| shift_matrix(shift, i, j),
            row,
            col,
        ),
{
    let n = pow2(row.len());
    let m = |i: int, j: int| shift_matrix(shift, i, j);
    let f = |i: int|
        if i < shift {
            0
        } else {
            beta(row, i) * beta(col, i - shift)
        };
    let g = |i: int| sum(n, |j: int| m(i, j) * beta(col, j)) * beta(row, i);
    assert forall|i: int| 0 <= i < n implies #[trigger] f(i) == g(i) by {
        let h = |j: int| m(i, j) * beta(col, j);
        if i < shift {
            assert forall|j: int| 0 <= j < n implies #[trigger] h(j) == 0 by {
                assert(0 * beta(col, j) == 0);
            }
            lemma_sum_zero(n, h);
            assert(0 * beta(row, i) == 0);
        } else {
            assert forall|j: int| 0 <= j < n && j != i - shift implies #[trigger] h(j) == 0 by {
                assert(0 * beta(col, j) == 0);
            }
            lemma_sum_single(n, i - shift, h);
            let x = beta(col, i - shift);
            let y = beta(row, i);
            assert(1 * x == x);
            assert(x * y == y * x) by (nonlinear_arith);
        }
    }
    lemma_sum_same(n, f, g);
}

/// The shift matrix with its columns fixed at a point.
pub open spec fn shift_column(col: Seq<int>, shift: int, k: int) -> int {
    if k < shift {
        0
    } else {
        beta(col, k - shift)
    }
}

/// The offset matrix is the product of the upper triangular matrix and a shift
/// matrix, with ones added in the last columns: the extension of the offset
/// matrix less that of the added columns is a sum of products over the inner
/// index of the matrix product.
pub proof fn lemma_offset(row: Seq<int>, col: Seq<int>, window: int)
    requires
        row.len() == col.len(),
        0 <= window < pow2(row.len()),
    ensures
        matrix_mle(|i: int, j: int| offset_matrix(window, i, j), row, col) == sum(
            pow2(row.len()),
            |k: int| upto(row, k) * shift_column(col, window, k),
        ) + 1 - upto(col, pow2(row.len()) - window - 1),
{
    let n = pow2(row.len());
    let m = |i: int, j: int| offset_matrix(window, i, j);
    // Exchange the two sums.
    let cell = |i: int, j: int| (m(i, j) * beta(col, j)) * beta(row, i);
    let by_row = |i: int| sum(n, |j: int| cell(i, j));
    let weighted = |i: int| sum(n, |j: int| m(i, j) * beta(col, j)) * beta(row, i);
    assert forall|i: int| 0 <= i < n implies #[trigger] weighted(i) == by_row(i) by {
        let c = beta(row, i);
        let g = |j: int| m(i, j) * beta(col, j);
        lemma_sum_scale(n, c, g);
        let b = |j: int| cell(i, j);
        assert forall|j: int| 0 <= j < n implies #[trigger] b(j) == c * g(j) by {
            let x = g(j);
            assert(x * c == c * x) by (nonlinear_arith);
        }
        lemma_sum_same(n, b, |j: int| c * g(j));
        let s = sum(n, g);
        assert(c * s == s * c) by (nonlinear_arith);
    }
    lemma_sum_same(n, weighted, by_row);
    lemma_sum_swap(n, n, cell);
    // Each column sums the factors of the rows below its bound.
    let by_col = |j: int| sum(n, |i: int| cell(i, j));
    let reach = |j: int|
        if j + window < n {
            upto(row, j + window) * beta(col, j)
        } else {
            beta(col, j)
        };
    assert forall|j: int| 0 <= j < n implies #[trigger] by_col(j) == reach(j) by {
        let c = beta(col, j);
        let b = |i: int| cell(i, j);
        let ones = |i: int| m(i, j) * beta(row, i);
        assert forall|i: int| 0 <= i < n implies #[trigger] b(i) == c * ones(i) by {
            let x = m(i, j);
            let y = beta(row, i);
            assert((x * c) * y == c * (x * y)) by (nonlinear_arith);
        }
        lemma_sum_same(n, b, |i: int| c * ones(i));
        lemma_sum_scale(n, c, ones);
        if j + window < n {
            let t = j + window;
            lemma_lower_row(row, t);
            let low = |i: int| lower_triangular(t, i) * beta(row, i);
            assert forall|i: int| 0 <= i < n implies #[trigger] ones(i) == low(i) by {}
            lemma_sum_same(n, ones, low);
            let s = upto(row, t);
            assert(c * s == s * c) by (nonlinear_arith);
        } else {
            let all = |i: int| beta(row, i);
            assert forall|i: int| 0 <= i < n implies #[trigger] ones(i) == all(i) by {
                assert(1 * beta(row, i) == beta(row, i));
            }
            lemma_sum_same(n, ones, all);
            lemma_betas_sum(row);
            assert(c * 1 == c);
        }
    }
    lemma_sum_same(n, by_col, reach);
    // Split at the first column that is not bounded.
    let s = window as nat;
    let a = (n - s) as nat;
    lemma_sum_split(a, s, reach);
    let tail = |j: int| reach(a + j);
    let cols = |j: int| beta(col, j);
    let cols_tail = |j: int| cols(a + j);
    assert forall|j: int| 0 <= j < s implies #[trigger] tail(j) == cols_tail(j) by {}
    lemma_sum_same(s, tail, cols_tail);
    lemma_sum_split(a, s, cols);
    lemma_betas_sum(col);
    assert(upto(col, n - window - 1) == sum(a, cols));
    // The bounded columns are the products that the shift matrix selects.
    let inner = |k: int| upto(row, k) * shift_column(col, s as int, k);
    lemma_sum_split(s, a, inner);
    assert forall|k: int| 0 <= k < s implies #[trigger] inner(k) == 0 by {
        assert(upto(row, k) * 0 == 0);
    }
    lemma_sum_zero(s, inner);
    let moved = |j: int| inner(s + j);
    assert forall|j: int| 0 <= j < a implies #[trigger] reach(j) == moved(j) by {}
    lemma_sum_same(a, reach, moved);
}

/// The extension of the lower triangular matrix at a column and a row point.
pub fn eval_zeroifier_mle<F: PrimeField>(column_point: &[F], row_point: &[F]) -> (r: F)
    requires
        column_point@.len() == row_point@.len(),
    ensures
        stands_for(
            r,
            matrix_mle(
                |i: int, j: int| lower_triangular(i, j),
                residues(row_point@),
                residues(column_point@),
            ),
        ),
        stands_for(r, zeroifier(residues(column_point@), residues(row_point@))),
{
    let ghost p = residues(column_point@);
    let ghost q = residues(row_point@);
    let one = Lifted::<F>::one();
    let two = Lifted::<F>::of_u64(2);
    let mut acc = Lifted::<F>::one();
    for i in 0..row_point.len()
        invariant
            column_point@.len() == row_point@.len(),
            p == residues(column_point@),
            q == residues(row_point@),
            one@ == 1,
            two@ == 2,
            acc@ == zeroifier(p.take(i as int), q.take(i as int)),
    {
        let c = Lifted::of(column_point[i]);
        let r = Lifted::of(row_point[i]);
        proof {
            assert(p.take(i + 1).drop_last() =~= p.take(i as int));
            assert(q.take(i + 1).drop_last() =~= q.take(i as int));
        }
        acc = acc.times(one.minus(r).minus(c).plus(two.times(r).times(c))).plus(
            one.minus(c).times(r),
        );
    }
    proof {
        assert(p.take(row_point@.len() as int) =~= p);
        assert(q.take(row_point@.len() as int) =~= q);
        lemma_zeroifier(p, q);
    }
    acc.get()
}

/// The factors of a point, summed over the first `n` indices.
pub fn eval_bounded<F: PrimeField>(point: &[F], n: usize) -> (r: F)
    requires
        0 < n <= pow2(point@.len()),
    ensures
        stands_for(r, upto(residues(point@), n - 1)),
{
    let last = to_bit_sequence_le::<F>(n - 1, point.len());
    proof {
        lemma_bit_residues(n - 1, point@.len(), last@);
        lemma_zeroifier(residues(point@), residues(last@));
        lemma_zeroifier_bits(residues(point@), n - 1);
    }
    eval_zeroifier_mle(point, last.as_slice())
}

/// The extension of the table that is one at the first `n` indices and zero after
/// them is the sum of the factors of those indices.
pub proof fn lemma_bounded_table(t: Seq<int>, p: Seq<int>, n: int)
    requires
        0 < n <= pow2(p.len()),
        forall|i: int|
            0 <= i < pow2(p.len()) ==> #[trigger] t[i] == if i < n {
                1int
            } else {
                0
            },
    ensures
        mle(t, p) == upto(p, n - 1),
{
    let f = |i: int| t[i] * beta(p, i);
    let g = |i: int| beta(p, i);
    let rest = (pow2(p.len()) - n) as nat;
    lemma_sum_split(n as nat, rest, f);
    let tail = |i: int| f(n as nat + i);
    assert forall|i: int| 0 <= i < rest implies #[trigger] tail(i) == 0 by {
        assert(t[n + i] == 0);
    }
    lemma_sum_zero(rest, tail);
    lemma_sum_same(n as nat, f, g);
}

/// A matrix that shifts moves each value by the shift, and brings in zeros.
pub proof fn law_shifts(shift: int, n: nat, i: int, x: Seq<int>)
    ensures
        sum(n, |j: int| shift_matrix(shift, i, j) * x[j]) == if 0 <= i - shift < n {
            x[i - shift]
        } else {
            0
        },
{
    let f = |j: int| shift_matrix(shift, i, j) * x[j];
    let k = i - shift;
    assert forall|j: int| 0 <= j < n && j != k implies #[trigger] f(j) == 0 by {
        assert(0 * x[j] == 0);
    }
    if 0 <= k < n {
        lemma_sum_single(n, k, f);
        assert(1 * x[k] == x[k]);
    } else {
        lemma_sum_zero(n, f);
    }
}

} // verus!
