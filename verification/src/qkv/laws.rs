//! What holds of the layer as a whole.
use vstd::prelude::*;
use vstd::arithmetic::div_mod::*;
use vstd::arithmetic::power2::{lemma_pow2_pos, pow2};
use crate::claim::{Claim, SubClaim};
use crate::congruence::{cong, lemma_cong_minus, lemma_cong_plus, lemma_cong_sum, lemma_cong_times, lemma_end_cong, lemma_residue_cong};
use crate::field::{residues, stands_for, PrimeField};
use crate::linear::{affine, affine_data, dot, is_affine, is_matrix};
use crate::logits::witness::element_ints;
use crate::mle::{beta, fixed_high, fixed_low, lemma_betas_sum, lemma_fixed_high, lemma_fixed_low, lemma_mle_grid, mle};
use crate::padding::PaddingMode;
use crate::qkv::cache::{appended, holds_rows, CacheQKV};
use crate::qkv::pad::{bias_is_padded, column_of, heads_padded, holds_column, is_padded_bias, is_padded_weight, is_poly_of, listed, padded_cols};
use crate::qkv::prove::{is_bias_step, is_tables_of, virtual_claim, QKVProof, QKVSumcheck};
use crate::qkv::verify::{bias_entry, derives_bias, is_input_claims};
use crate::qkv::{bias_of, padded_weights, refusal, QKVCtx, QKV};
use crate::shape::{flat, in_bounds, lemma_flat, lemma_log2_floor_pow2, lemma_numel_matrix, log2_ceil, log2_floor, next_pow2, padded, unflat, Shape};
use crate::sum::{lemma_sum_plus, lemma_sum_same, lemma_sum_scale, lemma_sum_split, lemma_sum_swap, lemma_sum_zero, sum};
use crate::tensor::{Element, KeyedTensor, Tensor};

verus! {

/// What the cache holds after each token is what the layer makes of all tokens at
/// once: the rows of the tokens so far, with the row of one more after them, are the
/// product of all tokens and the matrix.
pub proof fn law_cached_rows(
    so_far: Tensor<Element>,
    token: Tensor<Element>,
    all: Tensor<Element>,
    w: Tensor<Element>,
    bias: Option<Seq<Element>>,
)
    requires
        so_far.wf(),
        so_far.shape@.len() == 2,
        token.wf(),
        token.shape@ == seq![1usize, so_far.shape@[1]],
        all.shape@ == seq![(so_far.shape@[0] + 1) as usize, so_far.shape@[1]],
        so_far.shape@[0] < usize::MAX,
        all.data@ == so_far.data@ + token.data@,
    ensures
        affine_data(all, w, bias) == affine_data(so_far, w, bias) + affine_data(token, w, bias),
{
    let n = so_far.shape@[0] as int;
    let inner = so_far.shape@[1] as int;
    let cols = w.shape@[1] as int;
    assert(so_far.shape@ =~= seq![so_far.shape@[0], so_far.shape@[1]]);
    lemma_numel_matrix(so_far.shape@[0], so_far.shape@[1]);
    assert((n + 1) * cols == n * cols + cols) by (nonlinear_arith);
    assert(0 <= n * cols) by (nonlinear_arith)
        requires
            0 <= n,
            0 <= cols,
    ;
    assert(1 * cols == cols);
    let left = affine_data(all, w, bias);
    let right = affine_data(so_far, w, bias) + affine_data(token, w, bias);
    assert forall|p: int| 0 <= p < n * cols + cols implies #[trigger] left[p] == right[p] by {
        let i = p / cols;
        let j = p % cols;
        lemma_fundamental_div_mod(p, cols);
        lemma_mod_bound(p, cols);
        let f = |x: int| all.data@[i * inner + x] * w.data@[x * cols + j];
        if p < n * cols {
            assert(0 <= i < n) by (nonlinear_arith)
                requires
                    p == cols * i + j,
                    0 <= p < n * cols,
                    0 <= j < cols,
            ;
            let g = |x: int| so_far.data@[i * inner + x] * w.data@[x * cols + j];
            assert forall|x: int| 0 <= x < inner implies #[trigger] f(x) == g(x) by {
                assert(0 <= i * inner + x < n * inner) by (nonlinear_arith)
                    requires
                        0 <= i < n,
                        0 <= x < inner,
                ;
            }
            lemma_sum_same(inner as nat, f, g);
        } else {
            assert(i == n) by (nonlinear_arith)
                requires
                    p == cols * i + j,
                    n * cols <= p < n * cols + cols,
                    0 <= j < cols,
            ;
            let q = p - n * cols;
            assert(q == j) by (nonlinear_arith)
                requires
                    q == p - n * cols,
                    p == cols * i + j,
                    i == n,
            ;
            lemma_small_mod(q as nat, cols as nat);
            lemma_basic_div(q, cols);
            let g = |x: int| token.data@[0 * inner + x] * w.data@[x * cols + j];
            assert(0 * inner == 0);
            assert(i * inner == n * inner);
            lemma_numel_matrix(1, so_far.shape@[1]);
            assert(1 * inner == inner);
            assert forall|x: int| 0 <= x < inner implies #[trigger] f(x) == g(x) by {}
            lemma_sum_same(inner as nat, f, g);
            assert(dot(all.data@, w.data@, inner, cols, i, j, inner as nat) == dot(
                token.data@,
                w.data@,
                inner,
                cols,
                0,
                j,
                inner as nat,
            ));
        }
    }
    assert(left =~= right);
}

/// The first rows of a product are the product of the first rows.
proof fn lemma_first_rows(
    whole: Tensor<Element>,
    first: Tensor<Element>,
    w: Tensor<Element>,
    bias: Option<Seq<Element>>,
)
    requires
        is_matrix(whole),
        first.shape@.len() == 2,
        first.shape@[0] <= whole.shape@[0],
        first.shape@[1] == whole.shape@[1],
        first.data@ == whole.data@.take(first.shape@[0] * first.shape@[1]),
    ensures
        first.shape@[0] * w.shape@[1] <= affine_data(whole, w, bias).len(),
        affine_data(first, w, bias) == affine_data(whole, w, bias).take(
            first.shape@[0] * w.shape@[1],
        ),
{
    let n = first.shape@[0] as int;
    let m = whole.shape@[0] as int;
    let inner = whole.shape@[1] as int;
    let cols = w.shape@[1] as int;
    assert(whole.shape@ =~= seq![whole.shape@[0], whole.shape@[1]]);
    lemma_numel_matrix(whole.shape@[0], whole.shape@[1]);
    assert(0 <= n * cols <= m * cols && 0 <= n * inner <= m * inner) by (nonlinear_arith)
        requires
            0 <= n <= m,
            0 <= cols,
            0 <= inner,
    ;
    let left = affine_data(first, w, bias);
    let right = affine_data(whole, w, bias);
    assert forall|p: int| 0 <= p < n * cols implies #[trigger] left[p] == right[p] by {
        let i = p / cols;
        let j = p % cols;
        lemma_fundamental_div_mod(p, cols);
        lemma_mod_bound(p, cols);
        assert(0 <= i < n) by (nonlinear_arith)
            requires
                p == cols * i + j,
                0 <= p < n * cols,
                0 <= j < cols,
        ;
        let f = |x: int| first.data@[i * inner + x] * w.data@[x * cols + j];
        let g = |x: int| whole.data@[i * inner + x] * w.data@[x * cols + j];
        assert forall|x: int| 0 <= x < inner implies #[trigger] f(x) == g(x) by {
            assert(0 <= i * inner + x < n * inner) by (nonlinear_arith)
                requires
                    0 <= i < n,
                    0 <= x < inner,
            ;
        }
        lemma_sum_same(inner as nat, f, g);
    }
    assert(left =~= right.take(n * cols));
}

/// Rows that a tensor holds, padded or not, are its first values, where the columns are
/// not padded.
proof fn lemma_rows_held(t: Tensor<Element>, data: Seq<Element>, n: int, cols: usize, mode: PaddingMode)
    requires
        0 <= n <= usize::MAX,
        holds_rows(t, data, n, cols, mode, 0),
        data.len() == n * cols,
        n <= t.shape@[0],
        mode == PaddingMode::Padding ==> next_pow2(cols as nat) == cols,
    ensures
        t.data@.take(n * cols) == data,
        n * cols <= t.data@.len(),
{
    let d = seq![n as usize, cols];
    let c = cols as int;
    match mode {
        PaddingMode::NoPadding => {
            assert(data.take(n * cols) =~= data);
        },
        PaddingMode::Padding => {
            let to = padded(d);
            let rows = to[0] as int;
            assert(to =~= seq![to[0], cols]);
            lemma_numel_matrix(to[0], cols);
            assert(0 <= n * c <= rows * c) by (nonlinear_arith)
                requires
                    0 <= n <= rows,
                    0 <= c,
            ;
            assert forall|p: int| 0 <= p < n * c implies #[trigger] t.data@[p] == data[p] by {
                lemma_fundamental_div_mod(p, c);
                lemma_mod_bound(p, c);
                let i = p / c;
                let j = p % c;
                assert(0 <= i < n) by (nonlinear_arith)
                    requires
                        p == c * i + j,
                        0 <= p < n * c,
                        0 <= j < c,
                ;
                let idx = seq![i, j];
                lemma_matrix_flat(to, i, j);
                lemma_matrix_flat(d, i, j);
                assert(in_bounds(to, idx));
                assert(in_bounds(d, idx));
                lemma_flat(to, idx);
                assert(i * c == c * i) by (nonlinear_arith);
                assert(unflat(to, p) == idx);
            }
            assert(t.data@.take(n * c) =~= data);
        },
    }
}

/// Where a place of a matrix is stored.
proof fn lemma_matrix_flat(d: Seq<usize>, i: int, j: int)
    requires
        d.len() == 2,
    ensures
        flat(d, seq![i, j]) == i * d[1] + j,
{
    let idx = seq![i, j];
    let d1 = d.drop_last();
    let i1 = idx.drop_last();
    assert(d1.drop_last().len() == 0);
    assert(flat(d1.drop_last(), i1.drop_last()) == 0);
    assert(flat(d1, i1) == 0 * d1.last() + i1.last());
    assert(flat(d1, i1) == i);
}

/// The inputs come one after the other: a first one, of which the unpadded rows count,
/// and after it one token at a time. `so_far` holds the tokens up to each input.
pub open spec fn one_after_the_other(inputs: Seq<Tensor<Element>>, so_far: Seq<Tensor<Element>>) -> bool {
    let inner = inputs[0].shape@[1];
    &&& inputs.len() >= 1
    &&& so_far.len() == inputs.len()
    &&& is_matrix(inputs[0])
    &&& forall|i: int| 0 <= i < inputs.len() ==> is_matrix(#[trigger] so_far[i])
    &&& so_far[0].shape@ == seq![inputs[0].unpadded_shape@[0], inner]
    &&& so_far[0].data@ == inputs[0].data@.take(inputs[0].unpadded_shape@[0] * inner)
    &&& forall|i: int|
        0 < i < inputs.len() ==> {
            &&& is_matrix(#[trigger] inputs[i])
            &&& inputs[i].shape@ == seq![1usize, inner]
            &&& so_far[i - 1].shape@[0] < usize::MAX
            &&& so_far[i].shape@ == seq![(so_far[i - 1].shape@[0] + 1) as usize, inner]
            &&& so_far[i].data@ == so_far[i - 1].data@ + inputs[i].data@
        }
}

/// The layer, evaluated on a first input and then token by token, keeps the keys and
/// values that it would make of all tokens at once: `seq_len` counts the tokens, and the
/// first rows of what is cached are their products with the matrices. From the second
/// input on, what is cached and returned is these rows, padded in padding mode.
pub proof fn law_cached_evaluation(
    layer: QKV<Element>,
    inputs: Seq<Tensor<Element>>,
    caches: Seq<CacheQKV<Element>>,
    so_far: Seq<Tensor<Element>>,
)
    requires
        one_after_the_other(inputs, so_far),
        caches.len() == inputs.len() + 1,
        !caches[0].initialized,
        forall|i: int|
            0 <= i < inputs.len() ==> layer.caches(#[trigger] inputs[i], caches[i], caches[i + 1]),
        caches[0].padding_mode == PaddingMode::Padding ==> next_pow2(
            layer.k.tensor.shape@[1] as nat,
        ) == layer.k.tensor.shape@[1],
    ensures
        ({
            let cols = layer.k.tensor.shape@[1];
            let mode = caches[0].padding_mode;
            let all = so_far.last();
            let n = all.shape@[0] as int;
            let k = affine_data(all, layer.k.tensor, bias_of(layer.k_bias));
            let v = affine_data(all, layer.v.tensor, bias_of(layer.v_bias));
            let cache = caches.last();
            &&& cache.initialized
            &&& cache.wf()
            &&& cache.padding_mode == mode
            &&& cache.seq_len == n
            &&& cache.cache_k.data@.take(n * cols) == k
            &&& cache.cache_v.data@.take(n * cols) == v
            &&& inputs.len() > 1 ==> holds_rows(cache.cache_k, k, n, cols, mode, 0) && holds_rows(
                cache.cache_v,
                v,
                n,
                cols,
                mode,
                0,
            )
        }),
    decreases inputs.len(),
{
    let cols = layer.k.tensor.shape@[1];
    let mode = caches[0].padding_mode;
    let last = inputs.len() - 1;
    let (wk, bk) = (layer.k.tensor, bias_of(layer.k_bias));
    let (wv, bv) = (layer.v.tensor, bias_of(layer.v_bias));
    assert(layer.caches(inputs[last], caches[last], caches[last + 1]));
    if last == 0 {
        assert(inputs[0].unpadded_shape@[0] <= inputs[0].shape@[0]);
        lemma_first_rows(inputs[0], so_far[0], wk, bk);
        lemma_first_rows(inputs[0], so_far[0], wv, bv);
    } else {
        let before = inputs.drop_last();
        let rows = so_far.drop_last();
        let states = caches.drop_last();
        assert forall|i: int| 0 <= i < before.len() implies layer.caches(
            #[trigger] before[i],
            states[i],
            states[i + 1],
        ) by {
            assert(layer.caches(inputs[i], caches[i], caches[i + 1]));
        }
        assert forall|i: int| 0 <= i < before.len() implies is_matrix(#[trigger] rows[i]) by {
            assert(is_matrix(so_far[i]));
        }
        assert forall|i: int| 0 < i < before.len() implies {
            &&& is_matrix(#[trigger] before[i])
            &&& before[i].shape@ == seq![1usize, before[0].shape@[1]]
            &&& rows[i - 1].shape@[0] < usize::MAX
            &&& rows[i].shape@ == seq![(rows[i - 1].shape@[0] + 1) as usize, before[0].shape@[1]]
            &&& rows[i].data@ == rows[i - 1].data@ + before[i].data@
        } by {
            assert(is_matrix(inputs[i]));
        }
        law_cached_evaluation(layer, before, states, rows);
        assert(states.last() == caches[last]);
        assert(rows.last() == so_far[last - 1]);
        assert(is_matrix(so_far[last - 1]));
        assert(is_matrix(inputs[last]));
        let old_rows = so_far[last - 1];
        let all = so_far[last];
        let n = old_rows.shape@[0] as int;
        assert(old_rows.shape@[1] == inputs[0].shape@[1]) by {
            if last - 1 > 0 {
                assert(is_matrix(inputs[last - 1]));
            }
        }
        law_cached_rows(old_rows, inputs[last], all, wk, bk);
        law_cached_rows(old_rows, inputs[last], all, wv, bv);
        let after = caches[last + 1];
        let k = affine_data(all, wk, bk);
        let v = affine_data(all, wv, bv);
        lemma_rows_held(after.cache_k, k, n + 1, cols, mode);
        lemma_rows_held(after.cache_v, v, n + 1, cols, mode);
    }
}

/// A sum of sums, each with a factor, taken the other way round.
proof fn lemma_swap_weighted(m: nat, n: nat, u: spec_fn(int) -> int, g: spec_fn(int, int) -> int)
    ensures
        sum(m, |i: int| sum(n, |x: int| g(i, x)) * u(i)) == sum(
            n,
            |x: int| sum(m, |i: int| g(i, x) * u(i)),
        ),
{
    let cell = |i: int, x: int| g(i, x) * u(i);
    let given = |i: int| sum(n, |x: int| g(i, x)) * u(i);
    let rows = |i: int| sum(n, |x: int| cell(i, x));
    assert forall|i: int| 0 <= i < m implies #[trigger] given(i) == rows(i) by {
        let c = u(i);
        let h = |x: int| g(i, x);
        lemma_sum_scale(n, c, h);
        let r = |x: int| cell(i, x);
        assert forall|x: int| 0 <= x < n implies #[trigger] r(x) == c * h(x) by {
            let y = h(x);
            assert(y * c == c * y) by (nonlinear_arith);
        }
        lemma_sum_same(n, r, |x: int| c * h(x));
        let s = sum(n, h);
        assert(s * c == c * s) by (nonlinear_arith);
    }
    lemma_sum_same(m, given, rows);
    lemma_sum_swap(m, n, cell);
    let cols = |x: int| sum(m, |i: int| cell(i, x));
    let goal = |x: int| sum(m, |i: int| g(i, x) * u(i));
    assert forall|x: int| 0 <= x < n implies #[trigger] cols(x) == goal(x) by {
        lemma_sum_same(m, |i: int| cell(i, x), |i: int| g(i, x) * u(i));
    }
    lemma_sum_same(n, cols, goal);
}

/// The product of two tables, as a table of `rows` rows and `cols` columns.
pub open spec fn product_table(a: Seq<int>, b: Seq<int>, inner: nat, rows: nat, cols: int) -> Seq<int> {
    Seq::new(
        (rows * cols) as nat,
        |p: int| sum(inner, |x: int| a[(p / cols) * inner + x] * b[x * cols + p % cols]),
    )
}

/// What the sumcheck of one output sums is the extension of the product of the input
/// and the matrix at the point of the claim.
pub proof fn law_product_sum(a: Seq<int>, b: Seq<int>, inner: nat, row: Seq<int>, col: Seq<int>)
    ensures
        sum(
            inner,
            |x: int| fixed_high(a, inner as int, row, x) * fixed_low(b, col, x),
        ) == mle(
            product_table(a, b, inner, pow2(row.len()), pow2(col.len()) as int),
            col + row,
        ),
{
    let m = pow2(row.len());
    let n = pow2(col.len());
    lemma_pow2_pos(col.len());
    let p = product_table(a, b, inner, m, n as int);
    lemma_mle_grid(p, col, row);
    let low = |x: int| fixed_low(b, col, x);
    let outer = |i: int| sum(n, |j: int| p[i * n + j] * beta(col, j)) * beta(row, i);
    let weighted = |i: int, x: int| a[i * inner + x] * low(x);
    let step = |i: int| sum(inner, |x: int| weighted(i, x)) * beta(row, i);
    assert forall|i: int| 0 <= i < m implies #[trigger] outer(i) == step(i) by {
        let given = |j: int| p[i * n + j] * beta(col, j);
        let cell = |j: int, x: int| a[i * inner + x] * b[x * n + j];
        let u = |j: int| beta(col, j);
        let open = |j: int| sum(inner, |x: int| cell(j, x)) * u(j);
        assert forall|j: int| 0 <= j < n implies #[trigger] given(j) == open(j) by {
            let q = i * n + j;
            assert(0 <= q < m * n) by (nonlinear_arith)
                requires
                    q == i * n + j,
                    0 <= i < m,
                    0 <= j < n,
            ;
            lemma_fundamental_div_mod_converse(q, n as int, i, j);
            lemma_sum_same(
                inner,
                |x: int| a[(q / n as int) * inner + x] * b[x * n as int + q % n as int],
                |x: int| cell(j, x),
            );
        }
        lemma_sum_same(n, given, open);
        lemma_swap_weighted(n, inner, u, cell);
        let swapped = |x: int| sum(n, |j: int| cell(j, x) * u(j));
        let w = |x: int| weighted(i, x);
        assert forall|x: int| 0 <= x < inner implies #[trigger] swapped(x) == w(x) by {
            let c = a[i * inner + x];
            let h = |j: int| b[x * n + j] * beta(col, j);
            lemma_sum_scale(n, c, h);
            let f = |j: int| cell(j, x) * u(j);
            assert forall|j: int| 0 <= j < n implies #[trigger] f(j) == c * h(j) by {
                let y = b[x * n + j];
                let z = beta(col, j);
                assert((c * y) * z == c * (y * z)) by (nonlinear_arith);
            }
            lemma_sum_same(n, f, |j: int| c * h(j));
            lemma_sum_same(n, h, |j: int| b[x * pow2(col.len()) + j] * beta(col, j));
        }
        lemma_sum_same(inner, swapped, w);
    }
    lemma_sum_same(m, outer, step);
    let ur = |i: int| beta(row, i);
    lemma_sum_same(m, step, |i: int| sum(inner, |x: int| weighted(i, x)) * ur(i));
    lemma_swap_weighted(m, inner, ur, weighted);
    let swapped = |x: int| sum(m, |i: int| weighted(i, x) * ur(i));
    let goal = |x: int| fixed_high(a, inner as int, row, x) * fixed_low(b, col, x);
    assert forall|x: int| 0 <= x < inner implies #[trigger] swapped(x) == goal(x) by {
        let c = low(x);
        let h = |i: int| a[i * inner as int + x] * beta(row, i);
        lemma_sum_scale(m, c, h);
        let f = |i: int| weighted(i, x) * ur(i);
        assert forall|i: int| 0 <= i < m implies #[trigger] f(i) == c * h(i) by {
            let y = a[i * inner + x];
            let z = beta(row, i);
            assert((y * c) * z == c * (y * z)) by (nonlinear_arith);
        }
        lemma_sum_same(m, f, |i: int| c * h(i));
        let s = sum(m, h);
        assert(s * c == c * s) by (nonlinear_arith);
    }
    lemma_sum_same(inner, swapped, goal);
}

/// The sum that the prover's three pairs of tables give is the sum that the verifier
/// starts from, for the extensions of the three products.
pub proof fn law_batched_sum(
    a: Seq<int>,
    b: Seq<Seq<int>>,
    inner: nat,
    rows: Seq<Seq<int>>,
    cols: Seq<Seq<int>>,
    challenges: Seq<int>,
)
    requires
        b.len() == 3,
        rows.len() == 3,
        cols.len() == 3,
        challenges.len() == 3,
    ensures
        sum(
            inner,
            |x: int|
                fixed_high(a, inner as int, rows[0], x) * fixed_low(b[0], cols[0], x)
                    * challenges[0] + fixed_high(a, inner as int, rows[1], x) * fixed_low(
                    b[1],
                    cols[1],
                    x,
                ) * challenges[1] + fixed_high(a, inner as int, rows[2], x) * fixed_low(
                    b[2],
                    cols[2],
                    x,
                ) * challenges[2],
        ) == sum(
            3,
            |i: int|
                mle(
                    product_table(
                        a,
                        b[i],
                        inner,
                        pow2(rows[i].len()),
                        pow2(cols[i].len()) as int,
                    ),
                    cols[i] + rows[i],
                ) * challenges[i],
        ),
{
    let term = |i: int, x: int| fixed_high(a, inner as int, rows[i], x) * fixed_low(b[i], cols[i], x);
    let all = |x: int| term(0, x) * challenges[0] + term(1, x) * challenges[1] + term(2, x)
        * challenges[2];
    let f0 = |x: int| challenges[0] * term(0, x);
    let f1 = |x: int| challenges[1] * term(1, x);
    let f2 = |x: int| challenges[2] * term(2, x);
    let f01 = |x: int| f0(x) + f1(x);
    lemma_sum_plus(inner, f0, f1);
    lemma_sum_plus(inner, f01, f2);
    assert forall|x: int| 0 <= x < inner implies #[trigger] all(x) == f01(x) + f2(x) by {
        let (y, z, w) = (term(0, x), term(1, x), term(2, x));
        let (c, d, e) = (challenges[0], challenges[1], challenges[2]);
        assert(y * c == c * y) by (nonlinear_arith);
        assert(z * d == d * z) by (nonlinear_arith);
        assert(w * e == e * w) by (nonlinear_arith);
    }
    lemma_sum_same(inner, all, |x: int| f01(x) + f2(x));
    lemma_sum_same(
        inner,
        all,
        |x: int|
            fixed_high(a, inner as int, rows[0], x) * fixed_low(b[0], cols[0], x) * challenges[0]
                + fixed_high(a, inner as int, rows[1], x) * fixed_low(b[1], cols[1], x)
                * challenges[1] + fixed_high(a, inner as int, rows[2], x) * fixed_low(
                b[2],
                cols[2],
                x,
            ) * challenges[2],
    );
    let value = |i: int|
        mle(
            product_table(a, b[i], inner, pow2(rows[i].len()), pow2(cols[i].len()) as int),
            cols[i] + rows[i],
        );
    let goal = |i: int| value(i) * challenges[i];
    lemma_sum_same(
        3,
        goal,
        |i: int|
            mle(
                product_table(a, b[i], inner, pow2(rows[i].len()), pow2(cols[i].len()) as int),
                cols[i] + rows[i],
            ) * challenges[i],
    );
    assert(sum(3, goal) == goal(0) + goal(1) + goal(2)) by {
        reveal_with_fuel(sum, 4);
    }
    lemma_one_term(a, b[0], inner, rows[0], cols[0], challenges[0]);
    lemma_one_term(a, b[1], inner, rows[1], cols[1], challenges[1]);
    lemma_one_term(a, b[2], inner, rows[2], cols[2], challenges[2]);
    let t0 = |x: int| fixed_high(a, inner as int, rows[0], x) * fixed_low(b[0], cols[0], x);
    let t1 = |x: int| fixed_high(a, inner as int, rows[1], x) * fixed_low(b[1], cols[1], x);
    let t2 = |x: int| fixed_high(a, inner as int, rows[2], x) * fixed_low(b[2], cols[2], x);
    lemma_sum_same(inner, f0, |x: int| challenges[0] * t0(x));
    lemma_sum_same(inner, f1, |x: int| challenges[1] * t1(x));
    lemma_sum_same(inner, f2, |x: int| challenges[2] * t2(x));
}

/// One term of the batched sum.
proof fn lemma_one_term(a: Seq<int>, b: Seq<int>, inner: nat, row: Seq<int>, col: Seq<int>, c: int)
    ensures
        ({
            let t = |x: int| fixed_high(a, inner as int, row, x) * fixed_low(b, col, x);
            sum(inner, |x: int| c * t(x)) == mle(
                product_table(a, b, inner, pow2(row.len()), pow2(col.len()) as int),
                col + row,
            ) * c
        }),
{
    law_product_sum(a, b, inner, row, col);
    let t = |x: int| fixed_high(a, inner as int, row, x) * fixed_low(b, col, x);
    lemma_sum_scale(inner, c, t);
    let s = sum(inner, t);
    assert(c * s == s * c) by (nonlinear_arith);
}

/// The values of a bias, or zeros.
pub open spec fn bias_ints(bias: Option<Seq<Element>>, cols: nat) -> Seq<int> {
    Seq::new(
        cols,
        |j: int|
            match bias {
                Some(b) => b[j] as int,
                None => 0,
            },
    )
}

/// What evaluation gives is the product that the sumcheck is about, value by value: the
/// full sum over the embedding of input times weight, plus the bias of the column.
pub proof fn law_evaluated_product(
    input: Tensor<Element>,
    w: Tensor<Element>,
    bias: Option<Seq<Element>>,
    r: Tensor<Element>,
    i: int,
    j: int,
)
    requires
        is_matrix(input),
        is_matrix(w),
        w.shape@[0] == input.shape@[1],
        is_affine(input, w, bias, r),
        0 <= i < input.shape@[0],
        0 <= j < w.shape@[1],
    ensures
        ({
            let (a, b) = (element_ints(input.data@), element_ints(w.data@));
            let (inner, cols) = (input.shape@[1] as nat, w.shape@[1] as int);
            let p = i * cols + j;
            r.data@[p] == product_table(a, b, inner, input.shape@[0] as nat, cols)[p] + bias_ints(
                bias,
                cols as nat,
            )[j]
        }),
{
    let (a, b) = (element_ints(input.data@), element_ints(w.data@));
    let inner = input.shape@[1] as int;
    let cols = w.shape@[1] as int;
    let rows = input.shape@[0] as int;
    let p = i * cols + j;
    assert(0 <= p < rows * cols) by (nonlinear_arith)
        requires
            0 <= i < rows,
            0 <= j < cols,
            p == i * cols + j,
    ;
    lemma_fundamental_div_mod_converse(p, cols, i, j);
    assert(r.data@[i * cols + j] == affine(input, w, bias, i, j));
    lemma_product_value(input, w, i, j);
}

/// A value of a product, over the integers that the tables hold.
proof fn lemma_product_value(input: Tensor<Element>, w: Tensor<Element>, i: int, j: int)
    requires
        is_matrix(input),
        is_matrix(w),
        w.shape@[0] == input.shape@[1],
        0 <= i < input.shape@[0],
        0 <= j < w.shape@[1],
    ensures
        ({
            let (a, b) = (element_ints(input.data@), element_ints(w.data@));
            let (inner, cols) = (input.shape@[1] as int, w.shape@[1] as int);
            let p = i * cols + j;
            &&& dot(input.data@, w.data@, inner, cols, i, j, inner as nat) == sum(
                inner as nat,
                |x: int| a[i * inner + x] * b[x * cols + j],
            )
            &&& 0 <= p < input.shape@[0] * cols
            &&& product_table(a, b, inner as nat, input.shape@[0] as nat, cols)[p] == sum(
                inner as nat,
                |x: int| a[i * inner + x] * b[x * cols + j],
            )
        }),
{
    let (a, b) = (element_ints(input.data@), element_ints(w.data@));
    let (inner, cols) = (input.shape@[1] as int, w.shape@[1] as int);
    let rows = input.shape@[0] as int;
    let p = i * cols + j;
    assert(input.shape@ =~= seq![input.shape@[0], input.shape@[1]]);
    assert(w.shape@ =~= seq![w.shape@[0], w.shape@[1]]);
    lemma_numel_matrix(input.shape@[0], input.shape@[1]);
    lemma_numel_matrix(w.shape@[0], w.shape@[1]);
    assert(0 <= p < rows * cols) by (nonlinear_arith)
        requires
            0 <= i < rows,
            0 <= j < cols,
            p == i * cols + j,
    ;
    lemma_fundamental_div_mod_converse(p, cols, i, j);
    let goal = |x: int| a[i * inner + x] * b[x * cols + j];
    assert forall|x: int| 0 <= x < inner implies 0 <= #[trigger] (i * inner + x) < a.len() && 0 <= x
        * cols + j < b.len() by {
        assert(0 <= i * inner + x < rows * inner) by (nonlinear_arith)
            requires
                0 <= i < rows,
                0 <= x < inner,
        ;
        assert(0 <= x * cols + j < inner * cols) by (nonlinear_arith)
            requires
                0 <= x < inner,
                0 <= j < cols,
        ;
    }
    let plain = |x: int| input.data@[i * inner + x] * w.data@[x * cols + j];
    assert forall|x: int| 0 <= x < inner implies #[trigger] plain(x) == goal(x) by {
        assert(0 <= i * inner + x < a.len());
    }
    lemma_sum_same(inner as nat, plain, goal);
    lemma_sum_same(
        inner as nat,
        |x: int| a[(p / cols) * inner as nat + x] * b[x * cols + p % cols],
        goal,
    );
}

/// A claim on what evaluation gives is what the prover's tables sum to, with the extension
/// of the bias beside it: so the sumcheck starts from the claim without the bias.
pub proof fn law_evaluated_claim(
    input: Tensor<Element>,
    w: Tensor<Element>,
    bias: Option<Seq<Element>>,
    r: Tensor<Element>,
    row: Seq<int>,
    col: Seq<int>,
)
    requires
        is_matrix(input),
        is_matrix(w),
        w.shape@[0] == input.shape@[1],
        is_affine(input, w, bias, r),
        input.shape@[0] == pow2(row.len()),
        w.shape@[1] == pow2(col.len()),
    ensures
        ({
            let (a, b) = (element_ints(input.data@), element_ints(w.data@));
            let inner = input.shape@[1] as nat;
            mle(element_ints(r.data@), col + row) == sum(
                inner,
                |x: int| fixed_high(a, inner as int, row, x) * fixed_low(b, col, x),
            ) + mle(bias_ints(bias, pow2(col.len())), col)
        }),
{
    let (a, b) = (element_ints(input.data@), element_ints(w.data@));
    let inner = input.shape@[1] as nat;
    let (m, n) = (pow2(row.len()), pow2(col.len()));
    let t = element_ints(r.data@);
    let p = product_table(a, b, inner, m, n as int);
    let bi = bias_ints(bias, n);
    assert forall|i: int, j: int|
        0 <= i < pow2(row.len()) && 0 <= j < pow2(col.len()) implies #[trigger] t[i * pow2(
        col.len(),
    ) + j] == p[i * pow2(col.len()) + j] + bi[j] by {
        law_evaluated_product(input, w, bias, r, i, j);
        assert(0 <= i * n + j < m * n) by (nonlinear_arith)
            requires
                0 <= i < m,
                0 <= j < n,
        ;
    }
    law_bias(t, p, bi, col, row);
    law_product_sum(a, b, inner, row, col);
}

/// The value of a product that is cached, where it fits into an element.
pub open spec fn full_value(input: Tensor<Element>, w: Tensor<Element>, bias: Option<Seq<Element>>, i: int, j: int) -> int {
    let (inner, cols) = (input.shape@[1] as int, w.shape@[1] as int);
    sum(inner as nat, |x: int| input.data@[i * inner + x] * w.data@[x * cols + j]) + match bias {
        Some(b) => b[j] as int,
        None => 0,
    }
}

/// The keys and values of a first input are cached value by value: the full sum over the
/// embedding of input times weight, plus the bias. Those of a later token are cached
/// behind those of the tokens before it, which stay what they were.
pub proof fn law_cached_values(
    layer: QKV<Element>,
    input: Tensor<Element>,
    before: CacheQKV<Element>,
    after: CacheQKV<Element>,
    i: int,
    j: int,
)
    requires
        layer.caches(input, before, after),
        before.wf(),
        0 <= i < input.shape@[0],
        0 <= j < layer.k.tensor.shape@[1],
        before.initialized ==> input.shape@[0] == 1,
        before.initialized ==> before.cache_k.shape@[1] == layer.k.tensor.shape@[1],
        before.padding_mode == PaddingMode::Padding ==> next_pow2(
            layer.k.tensor.shape@[1] as nat,
        ) == layer.k.tensor.shape@[1],
        Element::MIN <= full_value(input, layer.k.tensor, bias_of(layer.k_bias), i, j)
            <= Element::MAX,
        Element::MIN <= full_value(input, layer.v.tensor, bias_of(layer.v_bias), i, j)
            <= Element::MAX,
    ensures
        ({
            let cols = layer.k.tensor.shape@[1] as int;
            let n = if before.initialized {
                before.seq_len as int
            } else {
                0
            };
            let p = (n + i) * cols + j;
            &&& after.cache_k.data@[p] == full_value(
                input,
                layer.k.tensor,
                bias_of(layer.k_bias),
                i,
                j,
            )
            &&& after.cache_v.data@[p] == full_value(
                input,
                layer.v.tensor,
                bias_of(layer.v_bias),
                i,
                j,
            )
            &&& forall|q: int|
                0 <= q < n * cols ==> #[trigger] after.cache_k.data@[q] == before.cache_k.data@[q]
            &&& forall|q: int|
                0 <= q < n * cols ==> #[trigger] after.cache_v.data@[q] == before.cache_v.data@[q]
        }),
{
    let colz = layer.k.tensor.shape@[1];
    let cols = colz as int;
    let rows = input.shape@[0] as int;
    let (wk, bk) = (layer.k.tensor, bias_of(layer.k_bias));
    let (wv, bv) = (layer.v.tensor, bias_of(layer.v_bias));
    let k = affine_data(input, wk, bk);
    let v = affine_data(input, wv, bv);
    let r = i * cols + j;
    lemma_fundamental_div_mod_converse(r, cols, i, j);
    assert(0 <= r < rows * cols) by (nonlinear_arith)
        requires
            0 <= i < rows,
            0 <= j < cols,
            r == i * cols + j,
    ;
    assert(k[r] == full_value(input, wk, bk, i, j));
    assert(v[r] == full_value(input, wv, bv, i, j));
    if before.initialized {
        let n = before.seq_len as int;
        let mode = before.padding_mode;
        assert(i == 0);
        assert(0 * cols == 0 && 1 * cols == cols);
        assert((n + 1) * cols == n * cols + cols) by (nonlinear_arith);
        assert((n + i) * cols == n * cols);
        let (kt, vt) = (before.cache_k, before.cache_v);
        assert(kt.shape@ =~= seq![kt.shape@[0], colz]);
        assert(vt.shape@ =~= seq![vt.shape@[0], colz]);
        lemma_numel_matrix(kt.shape@[0], colz);
        lemma_numel_matrix(vt.shape@[0], colz);
        let held = kt.shape@[0] as int;
        assert(0 <= n * cols <= held * cols) by (nonlinear_arith)
            requires
                0 <= n <= held,
                0 <= cols,
        ;
        let dk = kt.data@.take(n * cols) + k;
        let dv = vt.data@.take(n * cols) + v;
        lemma_rows_held(after.cache_k, dk, n + 1, colz, mode);
        lemma_rows_held(after.cache_v, dv, n + 1, colz, mode);
        let (ak, av) = (after.cache_k.data@, after.cache_v.data@);
        let len = (n + 1) * cols;
        assert forall|q: int| 0 <= q < len implies #[trigger] ak[q] == dk[q] && av[q]
            == dv[q] by {
            assert(ak.take(len)[q] == ak[q]);
            assert(av.take(len)[q] == av[q]);
        }
        assert(ak[n * cols + j] == dk[n * cols + j]);
        assert forall|q: int| 0 <= q < n * cols implies #[trigger] ak[q] == kt.data@[q] by {
            assert(ak[q] == dk[q]);
        }
        assert forall|q: int| 0 <= q < n * cols implies #[trigger] av[q] == vt.data@[q] by {
            assert(ak[q] == dk[q]);
        }
    } else {
        assert((0 + i) * cols == i * cols);
    }
}

/// A bias adds its own extension to that of a product: what the verifier takes off a
/// claim on an output is the extension of the bias at the columns of the point.
pub proof fn law_bias(t: Seq<int>, p: Seq<int>, b: Seq<int>, col: Seq<int>, row: Seq<int>)
    requires
        forall|i: int, j: int|
            0 <= i < pow2(row.len()) && 0 <= j < pow2(col.len()) ==> #[trigger] t[i * pow2(
                col.len(),
            ) + j] == p[i * pow2(col.len()) + j] + b[j],
    ensures
        mle(t, col + row) == mle(p, col + row) + mle(b, col),
{
    let m = pow2(row.len());
    let n = pow2(col.len());
    lemma_mle_grid(t, col, row);
    lemma_mle_grid(p, col, row);
    let c = mle(b, col);
    let ft = |i: int| sum(n, |j: int| t[i * n + j] * beta(col, j)) * beta(row, i);
    let fp = |i: int| sum(n, |j: int| p[i * n + j] * beta(col, j)) * beta(row, i);
    let fb = |i: int| c * beta(row, i);
    assert forall|i: int| 0 <= i < m implies #[trigger] ft(i) == fp(i) + fb(i) by {
        let gt = |j: int| t[i * n + j] * beta(col, j);
        let gp = |j: int| p[i * n + j] * beta(col, j);
        let gb = |j: int| b[j] * beta(col, j);
        assert forall|j: int| 0 <= j < n implies #[trigger] gt(j) == gp(j) + gb(j) by {
            assert(t[i * pow2(col.len()) + j] == p[i * n + j] + b[j]);
            let (x, y, z) = (p[i * n + j], b[j], beta(col, j));
            assert((x + y) * z == x * z + y * z) by (nonlinear_arith);
        }
        lemma_sum_same(n, gt, |j: int| gp(j) + gb(j));
        lemma_sum_plus(n, gp, gb);
        let (x, z) = (sum(n, gp), beta(row, i));
        assert((x + c) * z == x * z + c * z) by (nonlinear_arith);
    }
    lemma_sum_same(m, ft, |i: int| fp(i) + fb(i));
    lemma_sum_plus(m, fp, fb);
    let weights = |i: int| beta(row, i);
    lemma_sum_scale(m, c, weights);
    lemma_sum_same(m, fb, |i: int| c * weights(i));
    lemma_betas_sum(row);
    lemma_sum_same(m, weights, |i: int| beta(row, i));
}

/// The evaluations of the tables at the point of the sumcheck are those of the input
/// and of the matrix at the points of the claims that are left.
pub proof fn law_claims_left(
    a: Seq<int>,
    b: Seq<int>,
    row: Seq<int>,
    col: Seq<int>,
    point: Seq<int>,
)
    ensures
        mle(
            Seq::new(
                pow2(point.len()),
                |x: int| fixed_high(a, pow2(point.len()) as int, row, x),
            ),
            point,
        ) == mle(a, point + row),
        mle(Seq::new(pow2(point.len()), |x: int| fixed_low(b, col, x)), point) == mle(
            b,
            col + point,
        ),
{
    lemma_fixed_high(a, point, row);
    lemma_fixed_low(b, col, point);
}

/// A value of a matrix that was padded head by head.
proof fn lemma_padded_value(
    w: Seq<Element>,
    rows: int,
    heads: int,
    hd: int,
    prows: int,
    phd: int,
    pcols: int,
    i: int,
    j: int,
)
    requires
        0 <= i < prows,
        0 <= j < pcols,
    ensures
        0 <= i * pcols + j < prows * pcols,
        heads_padded(w, rows, heads, hd, prows, phd, pcols)[i * pcols + j] == if i < rows
            && holds_column(j, heads, hd, phd) {
            w[i * (heads * hd) + column_of(j, hd, phd)]
        } else {
            0
        },
{
    let p = i * pcols + j;
    assert(0 <= p < prows * pcols) by (nonlinear_arith)
        requires
            p == i * pcols + j,
            0 <= i < prows,
            0 <= j < pcols,
    ;
    lemma_fundamental_div_mod_converse(p, pcols, i, j);
}

/// The tensor `t` is the matrix `x` with zeros after its rows and columns.
pub open spec fn zero_padded(x: Tensor<Element>, t: Tensor<Element>) -> bool {
    let cols = t.shape@[1] as int;
    &&& t.shape@.len() == 2
    &&& x.shape@[0] <= t.shape@[0]
    &&& x.shape@[1] <= t.shape@[1]
    &&& forall|i: int, k: int|
        0 <= i < t.shape@[0] && 0 <= k < cols ==> #[trigger] t.data@[i * cols + k] == if i
            < x.shape@[0] && k < x.shape@[1] {
            x.data@[i * x.shape@[1] + k]
        } else {
            0
        }
}

/// The padded layer gives on the padded input what the layer gives on the input: the
/// values of each head in the columns of that head, zeros in the other columns, and
/// the padded bias in the rows after the last token.
pub proof fn law_padded_product(
    x: Tensor<Element>,
    w: Tensor<Element>,
    bias: Option<Tensor<Element>>,
    xp: Tensor<Element>,
    wp: Tensor<Element>,
    biasp: Option<Tensor<Element>>,
    hd: int,
    i: int,
    j: int,
)
    requires
        x.shape@.len() == 2,
        w.shape@.len() == 2,
        x.shape@[1] == w.shape@[0],
        hd > 0,
        w.shape@[1] as int % hd == 0,
        zero_padded(x, xp),
        xp.shape@[1] == wp.shape@[0],
        is_padded_weight(w, hd, wp),
        next_pow2(w.shape@[0] as nat) <= usize::MAX,
        padded_cols(w.shape@[1] as int / hd, hd) <= usize::MAX,
        match (bias, biasp) {
            (Some(b), Some(bp)) => b.shape@.len() == 1 && b.shape@[0] == w.shape@[1]
                && is_padded_bias(b, hd, bp),
            (None, None) => true,
            _ => false,
        },
        0 <= i < xp.shape@[0],
        0 <= j < wp.shape@[1],
    ensures
        ({
            let heads = w.shape@[1] as int / hd;
            let phd = next_pow2(hd as nat) as int;
            let b = match bias {
                Some(t) => Some(t.data@),
                None => None,
            };
            let bp = match biasp {
                Some(t) => Some(t.data@),
                None => None,
            };
            affine(xp, wp, bp, i, j) == if i >= x.shape@[0] {
                match biasp {
                    Some(t) => t.data@[j] as int,
                    None => 0,
                }
            } else if holds_column(j, heads, hd, phd) {
                affine(x, w, b, i, column_of(j, hd, phd))
            } else {
                0
            }
        }),
{
    let e = x.shape@[1] as int;
    let pe = xp.shape@[1] as int;
    let cols = w.shape@[1] as int;
    let heads = cols / hd;
    let phd = next_pow2(hd as nat) as int;
    let pcols = wp.shape@[1] as int;
    let prows = next_pow2(w.shape@[0] as nat) as int;
    let c = column_of(j, hd, phd);
    let in_head = holds_column(j, heads, hd, phd);
    lemma_fundamental_div_mod(cols, hd);
    assert(heads * hd == hd * heads) by (nonlinear_arith);
    assert(pcols == padded_cols(heads, hd));
    assert(pe == prows);
    let f = |k: int| xp.data@[i * pe + k] * wp.data@[k * pcols + j];
    let g = |k: int| x.data@[i * e + k] * w.data@[k * cols + c];
    let kept = i < x.shape@[0] && in_head;
    assert forall|k: int| 0 <= k < pe implies #[trigger] f(k) == if kept && k < e {
        g(k)
    } else {
        0
    } by {
        lemma_padded_value(w.data@, w.shape@[0] as int, heads, hd, prows, phd, pcols, k, j);
        let y = xp.data@[i * pe + k];
        let z = wp.data@[k * pcols + j];
        if !(i < x.shape@[0] && k < e) {
            assert(y == 0);
        } else if !in_head {
            assert(z == 0);
            assert(y * z == 0) by (nonlinear_arith)
                requires
                    z == 0,
            ;
        } else {
            assert(z == w.data@[k * (heads * hd) + c]);
        }
    }
    let tail = |k: int| f(e + k);
    lemma_sum_split(e as nat, (pe - e) as nat, f);
    lemma_sum_same((pe - e) as nat, |k: int| f(e as nat + k), tail);
    assert forall|k: int| 0 <= k < pe - e implies #[trigger] tail(k) == 0 by {
        assert(f(e + k) == 0);
    }
    lemma_sum_zero((pe - e) as nat, tail);
    if kept {
        lemma_sum_same(e as nat, f, g);
    } else {
        lemma_sum_zero(e as nat, f);
    }
    assert(dot(xp.data@, wp.data@, pe, pcols, i, j, pe as nat) == sum(pe as nat, f)) by {
        lemma_sum_same(
            pe as nat,
            f,
            |k: int| xp.data@[i * pe + k] * wp.data@[k * pcols + j],
        );
    }
    assert(dot(x.data@, w.data@, e, cols, i, c, e as nat) == sum(e as nat, g)) by {
        lemma_sum_same(e as nat, g, |k: int| x.data@[i * e + k] * w.data@[k * cols + c]);
    }
    match (bias, biasp) {
        (Some(b), Some(bp)) => {
            lemma_padded_value(b.data@, 1, heads, hd, 1, phd, pcols, 0, j);
            assert(0 * pcols == 0 && 0 * (heads * hd) == 0);
        },
        _ => {},
    }
}

/// Where the sumcheck of an honest prover ends, the verifier accepts: the polynomial at the
/// evaluations of the tables is what the verifier puts together from them.
pub proof fn law_honest_qkv_accepted<F: PrimeField, P, A>(
    proof: QKVProof<F, P, A>,
    ends: Seq<F>,
    challenges: Seq<F>,
    expected: F,
)
    requires
        ends.len() == 6,
        challenges.len() == 3,
        forall|i: int|
            0 <= i < 3 ==> #[trigger] proof.individual_claims@[i] == (ends[2 * i], ends[2 * i + 1]),
        ({
            let w = residues(ends);
            let c = residues(challenges);
            stands_for(expected, w[0] * w[1] * c[0] + w[2] * w[3] * c[1] + w[4] * w[5] * c[2])
        }),
    ensures
        stands_for(expected, virtual_claim(proof.individual_claims@, challenges)),
{
    let claims = proof.individual_claims@;
    let f = |i: int| claims[i].0.residue() * claims[i].1.residue() * challenges[i].residue();
    assert(claims[0] == (ends[0], ends[1]));
    assert(claims[1] == (ends[2], ends[3]));
    assert(claims[2] == (ends[4], ends[5]));
    reveal_with_fuel(sum, 4);
    assert(sum(3, f) == f(0) + f(1) + f(2));
}

/// The verifier accepts what an honest prover shows, and both are left with the same
/// claims: the prover's tables end at `ends`, which are in the proof in pairs. The
/// claims on the biases that the verifier derives are those of the prover.
pub proof fn law_honest_qkv_verified<F: PrimeField, P, A>(
    layer: QKV<Element>,
    ctx: QKVCtx,
    last_claims: Seq<Claim<F>>,
    inputs: Seq<Tensor<Element>>,
    input_shapes: Seq<Shape>,
    output_shapes: Seq<Shape>,
    s: QKVSumcheck<F>,
    proof: QKVProof<F, P, A>,
    ends: Seq<F>,
    challenges: Seq<F>,
    subclaim: SubClaim<F>,
    derived: Seq<Option<Claim<F>>>,
)
    requires
        layer.prove_refusal(last_claims, inputs, output_shapes) is None,
        input_shapes.len() == 1,
        inputs[0].shape@[0] == pow2(log2_ceil(inputs[0].shape@[0] as nat)),
        layer.q.tensor.shape@[1] == pow2(log2_ceil(layer.q.tensor.shape@[1] as nat)),
        forall|i: int| 0 <= i < 3 ==> (#[trigger] ctx.bias_key(i) is Some <==> layer.bias(i) is Some),
        s.bias_claims@.len() == 3,
        s.pre_bias_evals@.len() == 3,
        forall|i: int|
            0 <= i < 3 ==> is_bias_step(
                layer.bias(i),
                last_claims[i],
                log2_ceil(layer.q.tensor.shape@[1] as nat) as int,
                #[trigger] s.bias_claims@[i],
                s.pre_bias_evals@[i],
            ),
        proof.pre_bias_evals@ == s.pre_bias_evals@,
        ends.len() == 6,
        challenges.len() == 3,
        forall|i: int|
            0 <= i < 3 ==> #[trigger] proof.individual_claims@[i] == (ends[2 * i], ends[2 * i + 1]),
        ({
            let w = residues(ends);
            let c = residues(challenges);
            stands_for(
                subclaim.expected_evaluation,
                w[0] * w[1] * c[0] + w[2] * w[3] * c[1] + w[4] * w[5] * c[2],
            )
        }),
        ctx.derived(
            last_claims,
            proof.pre_bias_evals@,
            log2_floor(output_shapes[0]@[1] as nat) as int,
            derived,
        ),
    ensures
        ctx.refusal(proof, last_claims, input_shapes, output_shapes, challenges, subclaim) is None,
        log2_floor(output_shapes[0]@[1] as nat) == log2_ceil(layer.q.tensor.shape@[1] as nat),
        derived.len() == 3,
        forall|i: int|
            0 <= i < 3 ==> match (#[trigger] derived[i], s.bias_claims@[i]) {
                (Some(a), Some(b)) => a.point@ == b.point@ && a.eval.residue() == b.eval.residue(),
                (None, None) => true,
                _ => false,
            },
{
    let rows = inputs[0].shape@[0];
    let cols = layer.q.tensor.shape@[1];
    assert(output_shapes[0]@ == seq![rows, cols]);
    lemma_log2_floor_pow2(log2_ceil(rows as nat));
    lemma_log2_floor_pow2(log2_ceil(cols as nat));
    law_honest_qkv_accepted(proof, ends, challenges, subclaim.expected_evaluation);
    let m = F::modulus();
    assert forall|i: int| 0 <= i < 3 implies match (#[trigger] derived[i], s.bias_claims@[i]) {
        (Some(a), Some(b)) => a.point@ == b.point@ && a.eval.residue() == b.eval.residue(),
        (None, None) => true,
        _ => false,
    } by {
        let claim = last_claims[i];
        let pre = s.pre_bias_evals@[i];
        assert(is_bias_step(
            layer.bias(i),
            claim,
            log2_ceil(cols as nat) as int,
            s.bias_claims@[i],
            pre,
        ));
        assert(ctx.bias_key(i) is Some <==> layer.bias(i) is Some);
        if let (Some(a), Some(b)) = (derived[i], s.bias_claims@[i]) {
            let t = layer.bias(i)->Some_0;
            let e = mle(
                element_ints(t.tensor.data@),
                residues(claim.point@.take(log2_ceil(cols as nat) as int)),
            );
            let x = claim.eval.residue();
            pre.residue_bounds();
            lemma_residue_cong(pre, x - e);
            lemma_cong_minus(x, x, pre.residue(), x - e, m);
            assert(x - (x - e) == e);
            assert(cong(x - pre.residue(), e, m));
        }
    }
}

/// For given claims and evaluations, a proof is accepted at one end of the sumcheck only.
pub proof fn law_one_end<F: PrimeField, P, A>(
    ctx: QKVCtx,
    proof: QKVProof<F, P, A>,
    last_claims: Seq<Claim<F>>,
    padded_input_shapes: Seq<Shape>,
    padded_output_shapes: Seq<Shape>,
    challenges: Seq<F>,
    s: SubClaim<F>,
    t: SubClaim<F>,
)
    requires
        ctx.refusal(
            proof,
            last_claims,
            padded_input_shapes,
            padded_output_shapes,
            challenges,
            s,
        ) is None,
        ctx.refusal(
            proof,
            last_claims,
            padded_input_shapes,
            padded_output_shapes,
            challenges,
            t,
        ) is None,
    ensures
        s.expected_evaluation.residue() == t.expected_evaluation.residue(),
{
}

/// What the verifier takes off a claim for a bias is what the prover added: the claim on the
/// bias and the evaluation without it make up the claim.
pub proof fn law_derived_bias<F: PrimeField>(
    ctx: QKVCtx,
    last_claims: Seq<Claim<F>>,
    pre_bias_evals: Seq<F>,
    cols: int,
    bias_claims: Seq<Option<Claim<F>>>,
    i: int,
)
    requires
        ctx.derived(last_claims, pre_bias_evals, cols, bias_claims),
        0 <= i < bias_claims.len(),
        bias_claims[i] is Some,
    ensures
        i < 3 && i < pre_bias_evals.len(),
        cong(
            bias_claims[i]->Some_0.eval.residue() + pre_bias_evals[i].residue(),
            last_claims[i].eval.residue(),
            F::modulus(),
        ),
        bias_claims[i]->Some_0.point@ == last_claims[i].point@.take(cols),
{
    assert(derives_bias(
        ctx.bias_key(i),
        last_claims[i],
        pre_bias_evals[i],
        cols,
        bias_claims[i],
    ));
    let c = bias_claims[i]->Some_0;
    let (x, y) = (last_claims[i].eval.residue(), pre_bias_evals[i].residue());
    lemma_residue_cong(c.eval, x - y);
    lemma_cong_plus(c.eval.residue(), x - y, y, y, F::modulus());
}

/// The prover's tables of an output sum to the claim on it without its bias, where the claim
/// holds of what evaluation gives.
pub proof fn law_output_is_proved<F: PrimeField>(
    input: Tensor<Element>,
    w: Tensor<Element>,
    bias: Option<KeyedTensor<Element>>,
    r: Tensor<Element>,
    claim: Claim<F>,
    cols: nat,
    bias_claim: Option<Claim<F>>,
    pre_bias: F,
    input_table: Seq<F>,
    weight_table: Seq<F>,
)
    requires
        F::modulus() > 1,
        is_matrix(input),
        is_matrix(w),
        w.shape@[0] == input.shape@[1],
        is_affine(input, w, bias_of(bias), r),
        bias matches Some(t) ==> t.tensor.data@.len() == pow2(cols),
        cols <= claim.point@.len(),
        input.shape@[0] == pow2((claim.point@.len() - cols) as nat),
        w.shape@[1] == pow2(cols),
        stands_for(claim.eval, mle(element_ints(r.data@), residues(claim.point@))),
        is_bias_step(bias, claim, cols as int, bias_claim, pre_bias),
        is_tables_of(input, w, claim.point@, cols as int, input_table, weight_table),
    ensures
        cong(
            sum(
                input.shape@[1] as nat,
                |x: int| input_table[x].residue() * weight_table[x].residue(),
            ),
            pre_bias.residue(),
            F::modulus(),
        ),
        bias_claim matches Some(c) ==> stands_for(
            c.eval,
            mle(element_ints(bias->Some_0.tensor.data@), residues(c.point@)),
        ),
{
    let m = F::modulus();
    let p = residues(claim.point@);
    let (row, col) = (residues(claim.point@.skip(cols as int)), residues(claim.point@.take(cols as int)));
    assert(p =~= col + row);
    let (a, b) = (element_ints(input.data@), element_ints(w.data@));
    let inner = input.shape@[1] as nat;
    law_evaluated_claim(input, w, bias_of(bias), r, row, col);
    let given = |x: int| input_table[x].residue() * weight_table[x].residue();
    let goal = |x: int| fixed_high(a, inner as int, row, x) * fixed_low(b, col, x);
    assert forall|x: int| 0 <= x < inner implies cong(#[trigger] given(x), goal(x), m) by {
        let (f, g) = (input_table[x], weight_table[x]);
        lemma_residue_cong(f, fixed_high(a, inner as int, row, x));
        lemma_residue_cong(g, fixed_low(b, col, x));
        lemma_cong_times(
            f.residue(),
            fixed_high(a, inner as int, row, x),
            g.residue(),
            fixed_low(b, col, x),
            m,
        );
    }
    lemma_cong_sum(inner, given, goal, m);
    let extra = mle(bias_ints(bias_of(bias), pow2(cols)), col);
    let out = mle(element_ints(r.data@), p);
    lemma_residue_cong(claim.eval, out);
    match bias {
        Some(t) => {
            let bt = element_ints(t.tensor.data@);
            assert(bias_ints(bias_of(bias), pow2(cols)) =~= bt);
            let e = mle(bt, col);
            lemma_residue_cong(pre_bias, claim.eval.residue() - e);
            lemma_cong_minus(claim.eval.residue(), out, e, e, m);
        },
        None => {
            let z = bias_ints(bias_of(bias), pow2(cols));
            let f = |j: int| z[j] * beta(col, j);
            assert forall|j: int| 0 <= j < pow2(cols) implies #[trigger] f(j) == 0 by {
                assert(0 * beta(col, j) == 0);
            }
            lemma_sum_zero(pow2(cols), f);
            assert(extra == 0);
        },
    }
}

/// The claims that are left on the input and on the matrix of an output hold of them, where
/// the sumcheck ended on the evaluations of the prover's tables.
pub proof fn law_claims_hold<F: PrimeField>(
    ctx: QKVCtx,
    input: Tensor<Element>,
    weights: Seq<Tensor<Element>>,
    last_claims: Seq<Claim<F>>,
    cols: nat,
    input_tables: Seq<Vec<F>>,
    weight_tables: Seq<Vec<F>>,
    point: Seq<F>,
    pairs: Seq<(F, F)>,
    bias_claims: Seq<Option<Claim<F>>>,
    input_claims: Seq<Claim<F>>,
    i: int,
)
    requires
        F::modulus() > 1,
        0 <= i < 3,
        input.shape@.len() == 2,
        input.shape@[1] == pow2(point.len()),
        weights.len() == 3,
        last_claims.len() == 3,
        pairs.len() == 3,
        is_tables_of(
            input,
            weights[i],
            last_claims[i].point@,
            cols as int,
            input_tables[i]@,
            weight_tables[i]@,
        ),
        cols <= last_claims[i].point@.len(),
        stands_for(pairs[i].0, mle(residues(input_tables[i]@), residues(point))),
        stands_for(pairs[i].1, mle(residues(weight_tables[i]@), residues(point))),
        is_input_claims(input_claims, last_claims, cols as int, point, pairs),
    ensures
        stands_for(
            input_claims[i].eval,
            mle(element_ints(input.data@), residues(input_claims[i].point@)),
        ),
        ({
            let c = ctx.common_claims(last_claims, cols as int, point, pairs, bias_claims)[i];
            let key = if i == 0 {
                ctx.q_weight_key@
            } else if i == 1 {
                ctx.k_weight_key@
            } else {
                ctx.v_weight_key@
            };
            c.0 == key && stands_for(c.2, mle(element_ints(weights[i].data@), residues(c.1)))
        }),
{
    let m = F::modulus();
    let cp = last_claims[i].point@;
    let (row, col) = (residues(cp.skip(cols as int)), residues(cp.take(cols as int)));
    let p = residues(point);
    let (a, b) = (element_ints(input.data@), element_ints(weights[i].data@));
    law_claims_left(a, b, row, col, p);
    assert(residues(point + cp.skip(cols as int)) =~= p + row);
    assert(residues(cp.take(cols as int) + point) =~= col + p);
    let ta = Seq::new(pow2(p.len()), |x: int| fixed_high(a, pow2(p.len()) as int, row, x));
    let tb = Seq::new(pow2(p.len()), |x: int| fixed_low(b, col, x));
    lemma_end_cong(pairs[i].0, input_tables[i]@, ta, p);
    lemma_end_cong(pairs[i].1, weight_tables[i]@, tb, p);
    let (f, g) = (pairs[i].0, pairs[i].1);
    f.residue_bounds();
    g.residue_bounds();
    lemma_small_mod(f.residue() as nat, m as nat);
    lemma_small_mod(g.residue() as nat, m as nat);
    assert(input_claims[i].point@ == point + cp.skip(cols as int));
    assert(input_claims[i].eval == pairs[i].0);
}

/// The claims on the biases are left behind those on the matrices, each under the name of
/// its own bias, in the order of the outputs.
pub proof fn law_bias_claims_left<F: PrimeField>(
    ctx: QKVCtx,
    last_claims: Seq<Claim<F>>,
    cols: int,
    point: Seq<F>,
    pairs: Seq<(F, F)>,
    bias_claims: Seq<Option<Claim<F>>>,
    i: int,
)
    requires
        0 <= i < 3,
        bias_claims.len() == 3,
        ctx.bias_key(i) is Some,
        bias_claims[i] is Some,
    ensures
        ({
            let claims = ctx.common_claims(last_claims, cols, point, pairs, bias_claims);
            let c = bias_claims[i]->Some_0;
            exists|k: int|
                3 <= k <= 3 + i && k < claims.len() && #[trigger] claims[k] == (
                    ctx.bias_key(i)->Some_0@,
                    c.point@,
                    c.eval,
                )
        }),
{
    let claims = ctx.common_claims(last_claims, cols, point, pairs, bias_claims);
    let (a, b) = (
        bias_entry(ctx.q_bias_key, bias_claims, 0),
        bias_entry(ctx.k_bias_key, bias_claims, 1),
    );
    let k: int = if i == 0 {
        3
    } else if i == 1 {
        3 + a.len() as int
    } else {
        3 + a.len() as int + b.len() as int
    };
    let d = bias_claims[i]->Some_0;
    assert(claims[k] == (ctx.bias_key(i)->Some_0@, d.point@, d.eval));
}

/// What a cache holds of keys and values has the shape that the layer announces once the
/// input has been cached: a row for each token so far, padded in padding mode.
pub proof fn law_announced_rows(
    layer: QKV<Element>,
    later: QKV<Element>,
    input: Tensor<Element>,
    before: CacheQKV<Element>,
)
    requires
        layer.caches(input, before, later.cache),
        input.shape@ == input.unpadded_shape@,
        before.initialized ==> input.shape@[0] == 1,
    ensures
        ({
            let cols = layer.k.tensor.shape@[1];
            let n = later.kv_len(input.shape@[0]);
            &&& before.initialized ==> n == before.seq_len + 1
            &&& !before.initialized ==> n == input.shape@[0]
            &&& before.padding_mode == PaddingMode::NoPadding || !before.initialized
                ==> later.cache.cache_k.shape@ == seq![n, cols] && later.cache.cache_v.shape@
                == seq![n, cols]
            &&& before.padding_mode == PaddingMode::Padding && before.initialized
                ==> later.cache.cache_k.shape@ == padded(seq![n, cols])
                && later.cache.cache_v.shape@ == padded(seq![n, cols])
        }),
{
}

/// A matrix that was padded head by head has the shape that the layer announces for it.
pub proof fn law_announced_columns(
    layer: QKV<Element>,
    w: Tensor<Element>,
    r: Tensor<Element>,
)
    requires
        layer.head_dim > 0,
        w.shape@.len() == 2,
        w.shape@[1] == layer.num_heads * layer.head_dim,
        is_padded_weight(w, layer.head_dim as int, r),
    ensures
        r.shape@ == padded_weights(w.shape@[0], layer.num_heads, layer.head_dim),
        r.shape@[1] == layer.out_cols(PaddingMode::Padding),
{
    let (n, hd) = (layer.num_heads as int, layer.head_dim as int);
    lemma_fundamental_div_mod_converse(w.shape@[1] as int, hd, n, 0);
}

/// The row of a new token comes behind those of the tokens so far, which stay.
pub proof fn law_appended<N>(t: Tensor<N>, n: int, new: Tensor<N>, i: int, j: int)
    requires
        t.shape@.len() == 2,
        0 <= n,
        0 <= i <= n,
        0 <= j < t.shape@[1],
        n * t.shape@[1] <= t.data@.len(),
        t.shape@[1] <= new.data@.len(),
    ensures
        appended(t, n, new).len() == (n + 1) * t.shape@[1],
        appended(t, n, new)[i * t.shape@[1] + j] == if i < n {
            t.data@[i * t.shape@[1] + j]
        } else {
            new.data@[j]
        },
{
    let cols = t.shape@[1] as int;
    assert((n + 1) * cols == n * cols + cols) by (nonlinear_arith);
    assert(0 <= n * cols && 0 <= i * cols) by (nonlinear_arith)
        requires
            0 <= n,
            0 <= i,
            0 <= cols,
    ;
    if i < n {
        assert(i * cols + j < n * cols) by (nonlinear_arith)
            requires
                0 <= i < n,
                0 <= j < cols,
        ;
    }
}

/// A layer that has cached tokens takes one more at a time; an input has a value for each
/// row of the matrices.
pub proof fn law_inputs_taken(layer: QKV<Element>, inputs: Seq<Tensor<Element>>)
    ensures
        layer.input_refusal(inputs) is None <==> inputs.len() == 1 && inputs[0].shape@[1]
            == layer.q.tensor.shape@[0] && (layer.cache.initialized ==> inputs[0].shape@[0] == 1),
{
}

/// What is accepted has one input, three outputs and a claim on each, whose points have
/// coordinates for the rows and for the columns of the outputs.
pub proof fn law_accepted<F: PrimeField, P, A>(
    ctx: QKVCtx,
    proof: QKVProof<F, P, A>,
    last_claims: Seq<Claim<F>>,
    padded_input_shapes: Seq<Shape>,
    padded_output_shapes: Seq<Shape>,
    challenges: Seq<F>,
    s: SubClaim<F>,
)
    requires
        ctx.refusal(
            proof,
            last_claims,
            padded_input_shapes,
            padded_output_shapes,
            challenges,
            s,
        ) is None,
    ensures
        padded_input_shapes.len() == 1,
        padded_output_shapes.len() == 3,
        last_claims.len() == 3,
        forall|i: int|
            0 <= i < 3 ==> (#[trigger] last_claims[i]).point@.len() == log2_floor(
                padded_output_shapes[0]@[0] as nat,
            ) + log2_floor(padded_output_shapes[0]@[1] as nat),
{
}

/// The prover takes three claims on outputs of one shape, whose points have coordinates for
/// it, a matrix that fits the weights, and biases as long as the columns.
pub proof fn law_proved<F: PrimeField>(
    layer: QKV<Element>,
    last_claims: Seq<Claim<F>>,
    inputs: Seq<Tensor<Element>>,
    output_shapes: Seq<Shape>,
)
    ensures
        layer.prove_refusal(last_claims, inputs, output_shapes) is None <==> {
            let (rows, cols) = (inputs[0].shape@[0], layer.q.tensor.shape@[1]);
            &&& last_claims.len() == 3 && inputs.len() == 1 && output_shapes.len() == 3
            &&& inputs[0].shape@.len() == 2 && inputs[0].shape@[1] == layer.q.tensor.shape@[0]
            &&& forall|i: int| 0 <= i < 3 ==> (#[trigger] output_shapes[i])@ == seq![rows, cols]
            &&& forall|i: int|
                0 <= i < 3 ==> (#[trigger] last_claims[i]).point@.len() == log2_ceil(rows as nat)
                    + log2_ceil(cols as nat)
            &&& layer.q_bias matches Some(t) ==> log2_floor(t.tensor.data@.len()) == log2_ceil(
                cols as nat,
            )
            &&& layer.k_bias matches Some(t) ==> log2_floor(t.tensor.data@.len()) == log2_ceil(
                cols as nat,
            )
            &&& layer.v_bias matches Some(t) ==> log2_floor(t.tensor.data@.len()) == log2_ceil(
                cols as nat,
            )
        },
{
}

/// What is committed to is the padded values of the three matrices and of each bias that
/// there is, each under its own name.
pub proof fn law_committed(layer: QKV<Element>, t: KeyedTensor<Element>)
    ensures
        layer.committed().contains(t) <==> {
            ||| t == layer.q || t == layer.k || t == layer.v
            ||| layer.q_bias == Some(t) || layer.k_bias == Some(t) || layer.v_bias == Some(t)
        },
{
    let all = layer.committed();
    let (a, b) = (listed(layer.q_bias), listed(layer.k_bias));
    assert(all[0] == layer.q && all[1] == layer.k && all[2] == layer.v);
    if layer.q_bias is Some {
        assert(all[3] == layer.q_bias->Some_0);
    }
    if layer.k_bias is Some {
        assert(all[3 + a.len() as int] == layer.k_bias->Some_0);
    }
    if layer.v_bias is Some {
        assert(all[3 + a.len() as int + b.len() as int] == layer.v_bias->Some_0);
    }
}

/// What is committed to of a tensor is its values in their places, with zeros beside them.
pub proof fn law_committed_values(t: KeyedTensor<Element>, p: (String, Vec<Element>), idx: Seq<int>)
    requires
        is_poly_of(t, p),
        in_bounds(padded(t.tensor.shape@), idx),
    ensures
        p.0@ == t.key@,
        p.1@[flat(padded(t.tensor.shape@), idx)] == if in_bounds(t.tensor.shape@, idx) {
            t.tensor.at(idx)
        } else {
            0
        },
{
    lemma_flat(padded(t.tensor.shape@), idx);
}

/// A padded bias keeps its name and holds the values of each head in the columns of that
/// head, and zeros in the others.
pub proof fn law_padded_bias(
    b: Option<KeyedTensor<Element>>,
    hd: int,
    r: Option<KeyedTensor<Element>>,
    j: int,
)
    requires
        bias_is_padded(b, hd, r),
        b is Some,
        hd > 0,
        b->Some_0.tensor.shape@.len() == 1,
        0 <= j < padded_cols(b->Some_0.tensor.shape@[0] as int / hd, hd),
    ensures
        ({
            let (x, phd) = (b->Some_0.tensor, next_pow2(hd as nat) as int);
            let heads = x.shape@[0] as int / hd;
            &&& r is Some
            &&& r->Some_0.key == b->Some_0.key
            &&& r->Some_0.tensor.data@[j] == if j / phd < heads && j % phd < hd {
                x.data@[(j / phd) * hd + j % phd]
            } else {
                0
            }
        }),
{
    let x = b->Some_0.tensor;
    let heads = x.shape@[0] as int / hd;
    let cols = padded_cols(heads, hd);
    lemma_padded_value(x.data@, 1, heads, hd, 1, next_pow2(hd as nat) as int, cols, 0, j);
    assert(0 * cols == 0 && 0 * (heads * hd) == 0);
}

/// A layer is made of parts that fit: with three biases or none, the keys' and the values' of
/// one shape, of which the queries' is a vector; with heads of whole columns; and, where
/// keys and values are shared by groups, with matrices of the same number of whole heads.
pub proof fn law_parts_fit<N>(
    q: KeyedTensor<N>,
    q_bias: Option<KeyedTensor<N>>,
    k: KeyedTensor<N>,
    k_bias: Option<KeyedTensor<N>>,
    v: KeyedTensor<N>,
    v_bias: Option<KeyedTensor<N>>,
    num_heads: usize,
    num_groups: usize,
    head_dim: int,
    shared_heads: int,
)
    requires
        num_heads > 0,
        head_dim > 0,
    ensures
        refusal(q, q_bias, k, k_bias, v, v_bias, num_heads, num_groups) is None ==> {
            &&& (q_bias is Some <==> k_bias is Some) && (q_bias is Some <==> v_bias is Some)
            &&& q_bias is Some ==> q_bias->Some_0.tensor.shape@.len() == 1
                && k_bias->Some_0.tensor.shape@ == v_bias->Some_0.tensor.shape@
            &&& q.tensor.shape@[1] as int % num_heads as int == 0
            &&& num_groups != num_heads ==> k.tensor.shape@[1] == v.tensor.shape@[1]
            &&& num_groups != num_heads && q.tensor.shape@[1] >= num_heads
                ==> k.tensor.shape@[1] as int % (q.tensor.shape@[1] as int / num_heads as int) == 0
        },
        q_bias is None && k_bias is None && v_bias is None && q.tensor.shape@[1] == num_heads
            * head_dim && k.tensor.shape@[1] == shared_heads * head_dim && v.tensor.shape@[1]
            == k.tensor.shape@[1] ==> refusal(
            q,
            q_bias,
            k,
            k_bias,
            v,
            v_bias,
            num_heads,
            num_groups,
        ) is None,
{
    if q.tensor.shape@[1] >= num_heads {
        let (h, n) = (q.tensor.shape@[1] as int, num_heads as int);
        lemma_fundamental_div_mod(h, n);
        lemma_mod_bound(h, n);
        assert(h / n > 0) by (nonlinear_arith)
            requires
                h == n * (h / n) + h % n,
                h % n < n,
                h >= n,
                n > 0,
        ;
    }
    if q.tensor.shape@[1] == num_heads * head_dim && k.tensor.shape@[1] == shared_heads * head_dim {
        let (h, n) = (q.tensor.shape@[1] as int, num_heads as int);
        assert(h == head_dim * n) by (nonlinear_arith)
            requires
                h == n * head_dim,
        ;
        lemma_fundamental_div_mod_converse(h, n, head_dim, 0);
        lemma_fundamental_div_mod_converse(k.tensor.shape@[1] as int, head_dim, shared_heads, 0);
    }
}

} // verus!
