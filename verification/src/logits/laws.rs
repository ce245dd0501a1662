//! What holds between the evaluation, the prover and the verifier of a logits
//! layer.
use vstd::prelude::*;
use vstd::arithmetic::div_mod::*;
use vstd::arithmetic::power2::{lemma_pow2_adds, lemma_pow2_pos, lemma_pow2_strictly_increases, pow2};
use crate::attention_mask::verify::bounded;
use crate::batching::{all_pow2, lemma_numel_pow2};
use crate::claim::Claim;
use crate::congruence::{cong, lemma_cong_minus, lemma_cong_plus, lemma_cong_sum, lemma_cong_times, lemma_end_cong, lemma_one_half, lemma_residue_cong};
use crate::error::Error;
use crate::field::{inverts, residues, stands_for, PrimeField};
use crate::logits::prove::{averaging_point, hadamard_value, inside_columns, is_hadamard_sumcheck, is_witness_claims, one_hot, HadamardSumcheck, LogitsProof};
use crate::logits::verify::{add_fractions, end_accepted, invertible, lemma_divide, output_columns, output_rows, rest_value, token_factor, token_sum, tokens_valid, LogitsChunk};
use crate::logits::witness::{chunk, chunk_column, chunk_columns, chunk_shift, distance, element_ints, law_chunks_recombine};
use crate::logits::{chunk_count, is_argmax, is_argmax_of, is_chunk_of, larger_magnitude, row_of, ArgmaxHandle, LogitsCtx};
use crate::mle::{beta, betas, identity, lemma_beta_join, lemma_betas_sum, lemma_halves, lemma_mle_betas, lemma_mle_grid, lemma_pow2_unfold_zero, mle};
use crate::shape::{lemma_next_pow2, lemma_num_vars_split, log2_ceil, next_pow2, num_vars, numel};
use crate::sum::{lemma_sum_grid, lemma_sum_plus, lemma_sum_same, lemma_sum_scale, lemma_sum_single, lemma_sum_split, lemma_sum_zero, sum};
use crate::tensor::{Element, KeyedTensor, Tensor};
use crate::triangular::lemma_bounded_table;

verus! {

/// A column that is chosen in a row, weighted by the factors of the columns.
proof fn lemma_one_hot_row(tokens: Seq<Element>, col: Seq<int>, r: int)
    requires
        0 <= r,
        r < tokens.len() ==> 0 <= tokens[r] && tokens[r] < pow2(col.len()),
    ensures
        sum(
            pow2(col.len()),
            |j: int|
                one_hot(tokens, pow2(col.len()) as int, r * pow2(col.len()) + j) * beta(col, j),
        ) == if r < tokens.len() {
            beta(col, tokens[r] as int)
        } else {
            0
        },
{
    let n = pow2(col.len());
    lemma_pow2_pos(col.len());
    let f = |j: int| one_hot(tokens, n as int, r * n + j) * beta(col, j);
    assert forall|j: int| 0 <= j < n implies #[trigger] f(j) == if r < tokens.len() && j
        == tokens[r] {
        beta(col, j)
    } else {
        0
    } by {
        lemma_fundamental_div_mod_converse(r * n + j, n as int, r, j);
        assert(1 * beta(col, j) == beta(col, j) && 0 * beta(col, j) == 0);
    }
    if r < tokens.len() {
        lemma_sum_single(n, tokens[r] as int, f);
    } else {
        lemma_sum_zero(n, f);
    }
}

/// What the verifier computes from the output of the model is the extension of the
/// prover's table of chosen tokens.
pub proof fn law_chosen_tokens(tokens: Seq<Element>, row: Seq<int>, col: Seq<int>)
    requires
        tokens.len() <= pow2(row.len()),
        forall|i: int|
            0 <= i < tokens.len() ==> 0 <= #[trigger] tokens[i] && tokens[i] < pow2(col.len()),
    ensures
        mle(
            Seq::new(
                pow2(col.len() + row.len()),
                |p: int| one_hot(tokens, pow2(col.len()) as int, p),
            ),
            col + row,
        ) == token_sum(tokens, row, col),
{
    let n = pow2(col.len());
    let m = pow2(row.len());
    let t = Seq::new(pow2(col.len() + row.len()), |p: int| one_hot(tokens, n as int, p));
    lemma_mle_grid(t, col, row);
    lemma_pow2_adds(col.len(), row.len());
    lemma_pow2_pos(col.len());
    let rows = |i: int| sum(n, |j: int| t[i * n + j] * beta(col, j)) * beta(row, i);
    let goal = |i: int|
        if i < tokens.len() {
            beta(row, i) * beta(col, tokens[i] as int)
        } else {
            0
        };
    assert forall|i: int| 0 <= i < m implies #[trigger] rows(i) == goal(i) by {
        lemma_one_hot_row(tokens, col, i);
        let a = |j: int| t[i * n + j] * beta(col, j);
        let b = |j: int| one_hot(tokens, n as int, i * n + j) * beta(col, j);
        assert forall|j: int| 0 <= j < n implies #[trigger] a(j) == b(j) by {
            assert(0 <= i * n + j < n * m) by (nonlinear_arith)
                requires
                    0 <= i < m,
                    0 <= j < n,
            ;
        }
        lemma_sum_same(n, a, b);
        if i < tokens.len() {
            let x = beta(col, tokens[i] as int);
            let y = beta(row, i);
            assert(x * y == y * x) by (nonlinear_arith);
        } else {
            assert(0 * beta(row, i) == 0);
        }
    }
    lemma_sum_same(m, rows, goal);
    let k = tokens.len();
    lemma_sum_split(k, (m - k) as nat, goal);
    let tail = |i: int| goal(k + i);
    assert forall|i: int| 0 <= i < m - k implies #[trigger] tail(i) == 0 by {}
    lemma_sum_zero((m - k) as nat, tail);
    lemma_sum_same(k, goal, |i: int| beta(row, i) * beta(col, tokens[i] as int));
}

/// Where every chosen token is the first, the verifier computes the factor of the
/// first column.
pub proof fn law_first_tokens(tokens: Seq<Element>, row: Seq<int>, col: Seq<int>)
    requires
        tokens.len() == pow2(row.len()),
        forall|i: int| 0 <= i < tokens.len() ==> #[trigger] tokens[i] == 0,
    ensures
        token_sum(tokens, row, col) == beta(col, 0),
{
    let c = beta(col, 0);
    let rows = |i: int| beta(row, i);
    let f = |i: int| beta(row, i) * beta(col, tokens[i] as int);
    let g = |i: int| c * rows(i);
    assert forall|i: int| 0 <= i < tokens.len() implies #[trigger] f(i) == g(i) by {
        let x = beta(row, i);
        assert(tokens[i] == 0);
        assert(x * c == c * x) by (nonlinear_arith);
    }
    lemma_sum_same(tokens.len(), f, g);
    lemma_sum_scale(tokens.len(), c, rows);
    lemma_betas_sum(row);
    assert(c * 1 == c);
}

/// Where the prover is honest, the verifier finds at the end of the sumcheck what
/// it asks for: the summed expression, at evaluations that are congruent to what
/// the verifier computes, leaves for the chosen tokens what they are. Their factor
/// has an inverse, or vanishes where the tokens are what the first token would be.
pub proof fn law_honest_logits_accepted(
    w: Seq<int>,
    expected: int,
    challenge: int,
    num_cols: int,
    tokens: int,
    first_token: int,
    average: int,
    lookup_eq: int,
    lt: int,
    m: int,
)
    requires
        m > 1,
        w.len() == 6,
        cong(w[2], tokens, m),
        cong(w[3], average, m),
        cong(w[4], lookup_eq, m),
        cong(w[5], lt, m),
        cong(expected, hadamard_value(w, num_cols % m, challenge), m),
        invertible(token_factor(num_cols, average, w[0]) % m, m) || (cong(
            token_factor(num_cols, average, w[0]),
            0,
            m,
        ) && cong(tokens, first_token, m)),
    ensures
        end_accepted(
            tokens,
            first_token,
            rest_value(expected, challenge, lt, lookup_eq, average, w[0], w[1]),
            token_factor(num_cols, average, w[0]),
            m,
        ),
{
    let input = w[0];
    let max = w[1];
    // The part of the lookup.
    lemma_cong_times(w[4], lookup_eq, w[5], lt, m);
    lemma_cong_times(w[4] * w[5], lookup_eq * lt, max - input, max - input, m);
    let a = (w[4] * w[5]) * (max - input);
    let b = (lookup_eq * lt) * (max - input);
    lemma_cong_times(challenge, challenge, a, b, m);
    let d = max - input;
    assert(challenge * ((lookup_eq * lt) * d) == ((challenge * lt) * lookup_eq) * d)
        by (nonlinear_arith);
    // The part of the maxima.
    lemma_mod_twice(num_cols, m);
    lemma_cong_times(num_cols % m, num_cols, w[2], tokens, m);
    lemma_cong_times((num_cols % m) * w[2], num_cols * tokens, input, input, m);
    let x = ((num_cols % m) * w[2]) * input;
    let y = (num_cols * tokens) * input;
    lemma_cong_minus(max, max, x, y, m);
    lemma_cong_times(w[3], average, max - x, max - y, m);
    lemma_cong_plus(w[3] * (max - x), average * (max - y), challenge * a, challenge * b, m);
    let whole = average * (max - y) + challenge * b;
    assert(cong(expected, whole, m));
    lemma_cong_minus(expected, whole, challenge * b, challenge * b, m);
    lemma_cong_minus(
        expected - challenge * b,
        whole - challenge * b,
        average * max,
        average * max,
        m,
    );
    assert(average * (max - (num_cols * tokens) * input) - average * max == tokens * (((0
        - num_cols) * average) * input)) by (nonlinear_arith);
    let factor = token_factor(num_cols, average, input);
    if !invertible(factor % m, m) {
        lemma_cong_times(tokens, tokens, factor, 0, m);
        assert(tokens * 0 == 0);
    }
}

/// At one half in every coordinate, every index has the same factor, and they add
/// up to one.
pub proof fn lemma_half_beta(half: int, c: nat, j: int, m: int)
    requires
        m > 1,
        inverts(2, half, m),
        0 <= j < pow2(c),
    ensures
        cong(pow2(c) * beta(Seq::new(c, |i: int| half), j), 1, m),
    decreases c,
{
    let p = Seq::new(c, |i: int| half);
    lemma_small_mod(1, m as nat);
    if c == 0 {
        lemma_pow2_unfold_zero();
    } else {
        let c1 = (c - 1) as nat;
        let p1 = Seq::new(c1, |i: int| half);
        let h = pow2(c1) as int;
        lemma_halves(c);
        assert(p.drop_last() =~= p1);
        let k = if j < h {
            j
        } else {
            j - h
        };
        lemma_half_beta(half, c1, k, m);
        let b = beta(p1, k);
        assert(cong(2 * half, 1, m));
        lemma_cong_minus(2, 2, 2 * half, 1, m);
        let e = if j < h {
            1 - half
        } else {
            half
        };
        assert(cong(2 * e, 1, m));
        lemma_cong_times(h * b, 1, 2 * e, 1, m);
        assert((2 * h) * (b * e) == (h * b) * (2 * e)) by (nonlinear_arith);
    }
}

/// The chosen input of a row, averaged over the columns and scaled by their number.
proof fn lemma_average_row(
    half: int,
    c: nat,
    m: int,
    tokens: Seq<Element>,
    input: Seq<int>,
    r: int,
    max: int,
)
    requires
        m > 1,
        inverts(2, half, m),
        0 <= r,
        r < tokens.len() ==> 0 <= tokens[r] && tokens[r] < pow2(c) && cong(
            max,
            input[r * pow2(c) + tokens[r]],
            m,
        ),
        r >= tokens.len() ==> cong(max, 0, m),
    ensures
        cong(
            sum(
                pow2(c),
                |j: int|
                    beta(Seq::new(c, |i: int| half), j) * (max - (pow2(c) * one_hot(
                        tokens,
                        pow2(c) as int,
                        r * pow2(c) + j,
                    )) * input[r * pow2(c) + j]),
            ),
            0,
            m,
        ),
{
    let n = pow2(c);
    let p = Seq::new(c, |i: int| half);
    lemma_pow2_pos(c);
    let f = |j: int|
        beta(p, j) * (max - (n * one_hot(tokens, n as int, r * n + j)) * input[r * n + j]);
    let ones = |j: int| beta(p, j);
    let a = |j: int| max * ones(j);
    let b = |j: int|
        if r < tokens.len() && j == tokens[r] {
            0 - (n * beta(p, j)) * input[r * n + j]
        } else {
            0
        };
    assert forall|j: int| 0 <= j < n implies #[trigger] f(j) == a(j) + b(j) by {
        lemma_fundamental_div_mod_converse(r * n + j, n as int, r, j);
        let x = beta(p, j);
        let y = input[r * n + j];
        let h = one_hot(tokens, n as int, r * n + j);
        if h == 1 {
            assert(x * (max - (n * 1) * y) == max * x + (0 - (n * x) * y)) by (nonlinear_arith);
        } else {
            assert(x * (max - (n * 0) * y) == max * x + 0) by (nonlinear_arith);
        }
    }
    lemma_sum_same(n, f, |j: int| a(j) + b(j));
    lemma_sum_plus(n, a, b);
    lemma_sum_scale(n, max, ones);
    lemma_betas_sum(p);
    assert(max * 1 == max);
    if r < tokens.len() {
        let t = tokens[r] as int;
        lemma_sum_single(n, t, b);
        lemma_half_beta(half, c, t, m);
        let y = input[r * n + t];
        lemma_cong_times(n * beta(p, t), 1, y, y, m);
        assert(1 * y == y);
        lemma_cong_minus(max, y, (n * beta(p, t)) * y, y, m);
    } else {
        lemma_sum_zero(n, b);
    }
}

/// The sumcheck of an honest prover sums to the claim that it starts from: the
/// maxima are the chosen inputs, so that only the looked up distances remain.
pub proof fn law_hadamard_sum(
    half: int,
    row: Seq<int>,
    point: Seq<int>,
    tokens: Seq<Element>,
    input: Seq<int>,
    maxima: Seq<int>,
    width: int,
    challenge: int,
    m: int,
)
    requires
        m > 1,
        inverts(2, half, m),
        row.len() <= point.len(),
        input.len() == pow2(point.len()),
        maxima.len() == pow2(row.len()),
        tokens.len() <= maxima.len(),
        forall|r: int|
            0 <= r < tokens.len() ==> 0 <= #[trigger] tokens[r] && tokens[r] < pow2(
                (point.len() - row.len()) as nat,
            ) && cong(
                maxima[r],
                input[r * pow2((point.len() - row.len()) as nat) + tokens[r]],
                m,
            ),
        forall|r: int|
            tokens.len() <= r < maxima.len() ==> cong(#[trigger] maxima[r], 0, m),
    ensures
        ({
            let c = (point.len() - row.len()) as nat;
            let cols = pow2(c) as int;
            cong(
                sum(
                    pow2(point.len()),
                    |p: int|
                        hadamard_value(
                            seq![
                                input[p],
                                maxima[p / cols],
                                one_hot(tokens, cols, p),
                                beta(averaging_point(half, c, row), p),
                                beta(point, p),
                                inside_columns(width, cols, p),
                            ],
                            cols,
                            challenge,
                        ),
                ),
                challenge * mle(
                    Seq::new(
                        pow2(point.len()),
                        |p: int| inside_columns(width, cols, p) * (maxima[p / cols] - input[p]),
                    ),
                    point,
                ),
                m,
            )
        }),
{
    let c = (point.len() - row.len()) as nat;
    let cols = pow2(c) as int;
    let n = pow2(c);
    let rows = pow2(row.len());
    let all = pow2(point.len());
    let p0 = Seq::new(c, |i: int| half);
    let avg = averaging_point(half, c, row);
    assert(avg =~= p0 + row);
    lemma_pow2_pos(c);
    lemma_pow2_adds(c, row.len());
    let dist = Seq::new(
        all,
        |p: int| inside_columns(width, cols, p) * (maxima[p / cols] - input[p]),
    );
    let whole = |p: int|
        hadamard_value(
            seq![
                input[p],
                maxima[p / cols],
                one_hot(tokens, cols, p),
                beta(avg, p),
                beta(point, p),
                inside_columns(width, cols, p),
            ],
            cols,
            challenge,
        );
    let first = |p: int|
        beta(avg, p) * (maxima[p / cols] - (cols * one_hot(tokens, cols, p)) * input[p]);
    let dists = |p: int| dist[p] * beta(point, p);
    let second = |p: int| challenge * dists(p);
    assert forall|p: int| 0 <= p < all implies #[trigger] whole(p) == first(p) + second(p) by {
        let w = seq![
            input[p],
            maxima[p / cols],
            one_hot(tokens, cols, p),
            beta(avg, p),
            beta(point, p),
            inside_columns(width, cols, p),
        ];
        let b = beta(point, p);
        let l = inside_columns(width, cols, p);
        let d = maxima[p / cols] - input[p];
        assert(w[0] == input[p] && w[1] == maxima[p / cols] && w[3] == beta(avg, p));
        assert((b * l) * d == (l * d) * b) by (nonlinear_arith);
    }
    lemma_sum_same(all, whole, |p: int| first(p) + second(p));
    lemma_sum_plus(all, first, second);
    lemma_sum_scale(all, challenge, dists);
    // The first part vanishes row by row.
    assert(all == rows * n) by {
        assert(n * rows == rows * n) by (nonlinear_arith);
    }
    lemma_sum_grid(rows, n, first);
    let by_row = |r: int| sum(n, |j: int| first(r * n + j));
    let zero = |r: int| 0int;
    assert forall|r: int| 0 <= r < rows implies cong(#[trigger] by_row(r), zero(r), m) by {
        let max = maxima[r];
        let bound = if r < tokens.len() {
            tokens[r] as int
        } else {
            0
        };
        assert(r >= tokens.len() ==> cong(maxima[r], 0, m));
        lemma_average_row(half, c, m, tokens, input, r, max);
        let g = |j: int|
            beta(p0, j) * (max - (n * one_hot(tokens, n as int, r * n + j)) * input[r * n + j]);
        let e = beta(row, r);
        let f = |j: int| first(r * n + j);
        assert forall|j: int| 0 <= j < n implies #[trigger] f(j) == e * g(j) by {
            lemma_fundamental_div_mod_converse(r * n + j, n as int, r, j);
            lemma_beta_join(p0, row, j, r);
            let x = beta(p0, j);
            let y = max - (n * one_hot(tokens, n as int, r * n + j)) * input[r * n + j];
            assert((x * e) * y == e * (x * y)) by (nonlinear_arith);
        }
        lemma_sum_same(n, f, |j: int| e * g(j));
        lemma_sum_scale(n, e, g);
        lemma_cong_times(e, e, sum(n, g), 0, m);
        assert(e * 0 == 0);
    }
    lemma_cong_sum(rows, by_row, zero, m);
    lemma_sum_zero(rows, zero);
    let tail = sum(all, second);
    lemma_cong_plus(sum(all, first), 0, tail, tail, m);
}

/// The extension of the table that is one inside the first `width` columns of every
/// row is the sum of the factors of those columns.
proof fn lemma_inside_columns(width: int, row: Seq<int>, col: Seq<int>)
    requires
        0 < width <= pow2(col.len()),
    ensures
        mle(
            Seq::new(
                pow2(col.len() + row.len()),
                |p: int| inside_columns(width, pow2(col.len()) as int, p),
            ),
            col + row,
        ) == bounded(col, width),
{
    let n = pow2(col.len());
    let m = pow2(row.len());
    let t = Seq::new(pow2(col.len() + row.len()), |p: int| inside_columns(width, n as int, p));
    let first = Seq::new(n, |j: int| inside_columns(width, n as int, j));
    let c = bounded(col, width);
    lemma_mle_grid(t, col, row);
    lemma_pow2_adds(col.len(), row.len());
    lemma_pow2_pos(col.len());
    assert forall|j: int| 0 <= j < n implies #[trigger] first[j] == if j < width {
        1int
    } else {
        0
    } by {
        lemma_small_mod(j as nat, n);
    }
    lemma_bounded_table(first, col, width);
    let rows = |i: int| sum(n, |j: int| t[i * n + j] * beta(col, j)) * beta(row, i);
    let ones = |i: int| beta(row, i);
    let goal = |i: int| c * ones(i);
    assert forall|i: int| 0 <= i < m implies #[trigger] rows(i) == goal(i) by {
        let a = |j: int| t[i * n + j] * beta(col, j);
        let b = |j: int| first[j] * beta(col, j);
        assert forall|j: int| 0 <= j < n implies #[trigger] a(j) == b(j) by {
            lemma_fundamental_div_mod_converse(i * n + j, n as int, i, j);
            assert(0 <= i * n + j < n * m) by (nonlinear_arith)
                requires
                    0 <= i < m,
                    0 <= j < n,
            ;
        }
        lemma_sum_same(n, a, b);
    }
    lemma_sum_same(m, rows, goal);
    lemma_sum_scale(m, c, ones);
    lemma_betas_sum(row);
    assert(c * 1 == c);
}

/// A table of zeros takes zero everywhere.
proof fn lemma_zero_table(t: Seq<int>, r: Seq<int>)
    requires
        forall|p: int| 0 <= p < pow2(r.len()) ==> #[trigger] t[p] == 0,
    ensures
        mle(t, r) == 0,
{
    let f = |p: int| t[p] * beta(r, p);
    assert forall|p: int| 0 <= p < pow2(r.len()) implies #[trigger] f(p) == 0 by {
        assert(0 * beta(r, p) == 0);
    }
    lemma_sum_zero(pow2(r.len()), f);
}

/// The end of the sumcheck can be decided: the factor of the chosen tokens has an
/// inverse, or vanishes where the tokens are what the first token would be in every row.
pub open spec fn decidable_end<F: PrimeField>(
    chunk: LogitsChunk<F>,
    half: int,
    input_eval: int,
) -> bool {
    let m = F::modulus();
    let out = chunk.output();
    let end = chunk.end();
    ||| invertible(chunk.factor(half, input_eval) % m, m)
    ||| {
        &&& cong(chunk.factor(half, input_eval), 0, m)
        &&& cong(
            token_sum(out.data@, output_rows(out, end), output_columns(out, end)),
            beta(output_columns(chunk.outputs@[0], end), 0),
            m,
        )
        &&& all_pow2(chunk.outputs@[0].shape@)
    }
}

/// The tables that the prover sums belong to the chunk that the verifier looks at:
/// to its input, to the tokens of its output and to the claims of its lookup.
pub open spec fn chunk_of_prover<F: PrimeField>(
    chunk: LogitsChunk<F>,
    input: Tensor<Element>,
    claims: Seq<Claim<F>>,
) -> bool {
    let out = chunk.output();
    &&& chunk.padded_input_shapes@.len() == 1
    &&& chunk.outputs@.len() == 1
    &&& input.wf()
    &&& input.shape@ == chunk.padded_input_shapes@[0]@
    &&& input.unpadded_shape@.last() == chunk.width()
    &&& all_pow2(out.shape@)
    &&& log2_ceil(out.shape@[0] as nat) == chunk.end().len() - chunk.col_vars()
    &&& out.data@.len() <= pow2((chunk.end().len() - chunk.col_vars()) as nat)
    &&& forall|i: int|
        0 <= i < out.data@.len() ==> 0 <= #[trigger] out.data@[i] && out.data@[i] < chunk.width()
    &&& claims.len() > 0
    &&& chunk.lookup_evals@.len() == claims.len()
    &&& forall|i: int|
        0 <= i < claims.len() ==> (#[trigger] claims[i]).point@ == chunk.lookup_point@
            && claims[i].eval == chunk.lookup_evals@[i]
}

/// The evaluations of the prover's tables at the end of the sumcheck are what the
/// verifier computes for itself.
proof fn lemma_honest_ends<F: PrimeField>(
    chunk: LogitsChunk<F>,
    input: Tensor<Element>,
    maxima: Seq<F>,
    claims: Seq<Claim<F>>,
    half: int,
    s: HadamardSumcheck<F>,
    ends: Seq<F>,
)
    requires
        chunk.fits(ends[0].residue()),
        chunk_of_prover(chunk, input, claims),
        is_hadamard_sumcheck(
            input,
            maxima,
            chunk.output().data@,
            claims,
            chunk.col_vars(),
            half,
            s,
        ),
        ends.len() == 6,
        forall|t: int|
            0 <= t < 6 ==> stands_for(
                #[trigger] ends[t],
                mle(residues(s.tables@[t]@), chunk.end()),
            ),
    ensures
        ({
            let m = F::modulus();
            let out = chunk.output();
            let w = residues(ends);
            &&& m > 1
            &&& cong(
                w[2],
                token_sum(
                    out.data@,
                    output_rows(out, chunk.end()),
                    output_columns(out, chunk.end()),
                ),
                m,
            )
            &&& cong(w[3], chunk.average(half), m)
            &&& cong(w[4], identity(residues(chunk.lookup_point@), chunk.end()), m)
            &&& cong(
                w[5],
                bounded(chunk.end().take(chunk.col_vars() as int), chunk.width()),
                m,
            )
            &&& (forall|p: int| 0 <= p < input.data@.len() ==> #[trigger] input.data@[p] == 0)
                ==> cong(w[0], 0, m)
            &&& chunk.col_vars() <= chunk.end().len()
            &&& output_rows(out, chunk.end()) == chunk.end().skip(chunk.col_vars() as int)
            &&& output_columns(out, chunk.end()) == chunk.end().take(chunk.col_vars() as int)
        }),
{
    let e = chunk.end();
    let c = chunk.col_vars();
    let out = chunk.output();
    let shape = chunk.padded_input_shapes@[0]@;
    lemma_num_vars_split(shape, shape.len() - 1);
    assert(shape.skip(shape.len() - 1) =~= seq![shape.last()]);
    assert(shape.skip(shape.len() - 1).drop_last() =~= Seq::<usize>::empty());
    assert(num_vars(Seq::<usize>::empty()) == 0);
    assert(shape[shape.len() - 1] == pow2(log2_ceil(shape[shape.len() - 1] as nat)));
    lemma_numel_pow2(shape);
    assert(input.data@.len() == pow2(e.len()));
    let col = e.take(c as int);
    let row = e.skip(c as int);
    assert(col + row =~= e);
    let lookup = residues(chunk.lookup_point@);
    assert(claims[0].point@ == chunk.lookup_point@);
    let rows = residues(claims[0].point@.skip(c as int));
    assert(rows =~= lookup.skip(c as int));
    let chosen = Seq::new(input.data@.len(), |p: int| one_hot(out.data@, pow2(c) as int, p));
    lemma_end_cong(ends[2], s.tables@[2]@, chosen, e);
    law_chosen_tokens(out.data@, row, col);
    assert(chosen =~= Seq::new(
        pow2(col.len() + row.len()),
        |p: int| one_hot(out.data@, pow2(col.len()) as int, p),
    ));
    let avg = averaging_point(half, c, rows);
    lemma_end_cong(ends[3], s.tables@[3]@, betas(avg), e);
    lemma_mle_betas(avg, e);
    lemma_end_cong(ends[4], s.tables@[4]@, betas(lookup), e);
    lemma_mle_betas(lookup, e);
    let inside = Seq::new(
        input.data@.len(),
        |p: int| inside_columns(chunk.width(), pow2(c) as int, p),
    );
    lemma_end_cong(ends[5], s.tables@[5]@, inside, e);
    lemma_inside_columns(chunk.width(), row, col);
    assert(inside =~= Seq::new(
        pow2(col.len() + row.len()),
        |p: int| inside_columns(chunk.width(), pow2(col.len()) as int, p),
    ));
    lemma_end_cong(ends[0], s.tables@[0]@, element_ints(input.data@), e);
    if forall|p: int| 0 <= p < input.data@.len() ==> #[trigger] input.data@[p] == 0 {
        lemma_zero_table(element_ints(input.data@), e);
    }
}

/// The verifier accepts what an honest prover shows. The prover's sumcheck over its
/// tables ends at `ends`, of which the first two are in the proof; the commitments
/// are as many as they should be; and the end can be decided. Then the proof is
/// accepted, with the claims on what was committed to and the claim on the input
/// that the prover itself is left with.
pub proof fn law_honest_chunk_accepted<F: PrimeField, L, C, P>(
    ctx: LogitsCtx,
    chunk: LogitsChunk<F>,
    proof: LogitsProof<F, L, C, P>,
    input: Tensor<Element>,
    maxima: Seq<F>,
    claims: Seq<Claim<F>>,
    proving_half: int,
    s: HadamardSumcheck<F>,
    ends: Seq<F>,
    half: int,
    r: Result<(Vec<Claim<F>>, Claim<F>), Error>,
)
    requires
        chunk.fits(ends[0].residue()),
        chunk_of_prover(chunk, input, claims),
        0 <= proving_half < F::modulus(),
        inverts(2, proving_half, F::modulus()),
        is_hadamard_sumcheck(
            input,
            maxima,
            chunk.output().data@,
            claims,
            chunk.col_vars(),
            proving_half,
            s,
        ),
        ends.len() == 6,
        forall|t: int|
            0 <= t < 6 ==> stands_for(
                #[trigger] ends[t],
                mle(residues(s.tables@[t]@), chunk.end()),
            ),
        stands_for(
            chunk.subclaim.expected_evaluation,
            s.expression.value(residues(ends), seq![chunk.challenge.residue()]),
        ),
        ctx.range_check_chunks == claims.len(),
        proof.sumcheck_evals@ == ends.take(2),
        proof.commitments@.len() == if claims.len() == 1 {
            1
        } else {
            claims.len() + 1
        },
        decidable_end(chunk, proving_half, ends[0].residue()),
        0 <= half < F::modulus(),
        inverts(2, half, F::modulus()),
        chunk.decides(ctx, proof, half, r),
    ensures
        match r {
            Ok((witnesses, input_claim)) => {
                &&& is_witness_claims(
                    witnesses@,
                    chunk.subclaim.point@.skip(chunk.col_vars() as int),
                    ends[1],
                    claims.len() != 1,
                    claims,
                )
                &&& input_claim.point@ == chunk.subclaim.point@
                &&& input_claim.eval == ends[0]
            },
            Err(_) => false,
        },
{
    let m = F::modulus();
    let out = chunk.output();
    let e = chunk.end();
    let w = residues(ends);
    let challenge = chunk.challenge.residue();
    let cols = pow2(chunk.col_vars()) as int;
    let tokens = token_sum(out.data@, output_rows(out, e), output_columns(out, e));
    let first = beta(output_columns(chunk.outputs@[0], e), 0);
    lemma_honest_ends(chunk, input, maxima, claims, proving_half, s, ends);
    lemma_one_half(proving_half, half, m);
    assert(proof.sumcheck_evals@[0] == ends[0]);
    assert(proof.sumcheck_evals@[1] == ends[1]);
    let expected = chunk.subclaim.expected_evaluation;
    lemma_residue_cong(expected, hadamard_value(w, cols % m, challenge));
    law_honest_logits_accepted(
        w,
        expected.residue(),
        challenge,
        cols,
        tokens,
        first,
        chunk.average(half),
        identity(residues(chunk.lookup_point@), e),
        bounded(e.take(chunk.col_vars() as int), chunk.width()),
        m,
    );
    if let Ok((witnesses, _)) = r {
        assert forall|i: int| 0 <= i < witnesses@.len() - 1 implies (#[trigger] witnesses@[i
            + 1]).point@ == claims[i].point@ && witnesses@[i + 1].eval == claims[i].eval by {}
    }
}

/// Where every logit is zero and the first token was chosen in every row, the end of an
/// honest prover's sumcheck can be decided, whatever point it ends at.
pub proof fn law_null_logits_decidable<F: PrimeField>(
    chunk: LogitsChunk<F>,
    input: Tensor<Element>,
    maxima: Seq<F>,
    claims: Seq<Claim<F>>,
    half: int,
    s: HadamardSumcheck<F>,
    ends: Seq<F>,
)
    requires
        chunk.fits(ends[0].residue()),
        chunk_of_prover(chunk, input, claims),
        is_hadamard_sumcheck(
            input,
            maxima,
            chunk.output().data@,
            claims,
            chunk.col_vars(),
            half,
            s,
        ),
        ends.len() == 6,
        forall|t: int|
            0 <= t < 6 ==> stands_for(
                #[trigger] ends[t],
                mle(residues(s.tables@[t]@), chunk.end()),
            ),
        forall|p: int| 0 <= p < input.data@.len() ==> #[trigger] input.data@[p] == 0,
        chunk.output().data@.len() == pow2((chunk.end().len() - chunk.col_vars()) as nat),
        forall|i: int|
            0 <= i < chunk.output().data@.len() ==> #[trigger] chunk.output().data@[i] == 0,
        chunk.outputs@[0].shape@ == chunk.output().shape@,
    ensures
        decidable_end(chunk, half, ends[0].residue()),
{
    let m = F::modulus();
    let out = chunk.output();
    let e = chunk.end();
    let input_eval = ends[0].residue();
    lemma_honest_ends(chunk, input, maxima, claims, half, s, ends);
    law_first_tokens(out.data@, output_rows(out, e), output_columns(out, e));
    let scale = (0 - pow2(chunk.col_vars())) * chunk.average(half);
    lemma_cong_times(scale, scale, input_eval, 0, m);
    assert(scale * 0 == 0);
}

/// The token that is chosen in a row has the largest logit of all tokens of the
/// vocabulary, whatever their number, and is the first that has it: every logit before it
/// is smaller. The maximum is that logit, and there is a token for each row.
pub proof fn law_chosen_is_largest(
    input: Tensor<Element>,
    tokens: Tensor<Element>,
    maxima: Tensor<Element>,
    r: int,
    j: int,
)
    requires
        input.wf(),
        input.shape@.len() >= 1,
        is_argmax_of(input, tokens, maxima),
        0 <= r < numel(input.shape@.drop_last()),
        0 <= j < input.unpadded_shape@.last(),
    ensures
        ({
            let cols = input.shape@.last() as int;
            let t = tokens.data@[r] as int;
            &&& tokens.data@.len() == numel(input.shape@.drop_last())
            &&& maxima.data@.len() == numel(input.shape@.drop_last())
            &&& 0 <= t < input.unpadded_shape@.last()
            &&& maxima.data@[r] == input.data@[r * cols + t]
            &&& input.data@[r * cols + j] <= maxima.data@[r]
            &&& j < t ==> input.data@[r * cols + j] < maxima.data@[r]
        }),
{
    let cols = input.shape@.last() as int;
    let rows = numel(input.shape@.drop_last()) as int;
    let k = input.shape@.len() - 1;
    assert(input.unpadded_shape@[k] <= input.shape@[k]);
    let t = tokens.data@[r] as int;
    let row = row_of(input, r);
    assert(is_argmax(row, input.unpadded_shape@.last() as int, t, maxima.data@[r]));
    assert(0 <= r * cols && (r + 1) * cols <= rows * cols && (r + 1) * cols == r * cols + cols)
        by (nonlinear_arith)
        requires
            0 <= r < rows,
            cols >= 0,
    ;
    assert(row[t] == input.data@[r * cols + t]);
    assert(row[j] == input.data@[r * cols + j]);
}

/// What is chosen does not change where every logit of a row grows by the same amount.
pub proof fn law_shifted_rows(
    a: Tensor<Element>,
    b: Tensor<Element>,
    shift: int,
    tokens_a: Tensor<Element>,
    maxima_a: Tensor<Element>,
    tokens_b: Tensor<Element>,
    maxima_b: Tensor<Element>,
    r: int,
)
    requires
        a.wf(),
        b.wf(),
        a.shape@.len() >= 1,
        b.shape@ == a.shape@,
        b.unpadded_shape@ == a.unpadded_shape@,
        is_argmax_of(a, tokens_a, maxima_a),
        is_argmax_of(b, tokens_b, maxima_b),
        0 <= r < numel(a.shape@.drop_last()),
        forall|j: int|
            0 <= j < a.unpadded_shape@.last() ==> #[trigger] b.data@[r * a.shape@.last() + j]
                == a.data@[r * a.shape@.last() + j] + shift,
    ensures
        tokens_a.data@[r] == tokens_b.data@[r],
        maxima_b.data@[r] == maxima_a.data@[r] + shift,
{
    let (t, u) = (tokens_a.data@[r] as int, tokens_b.data@[r] as int);
    assert(is_argmax(row_of(a, r), a.unpadded_shape@.last() as int, t, maxima_a.data@[r]));
    assert(is_argmax(row_of(b, r), a.unpadded_shape@.last() as int, u, maxima_b.data@[r]));
    law_chosen_is_largest(a, tokens_a, maxima_a, r, t);
    law_chosen_is_largest(a, tokens_a, maxima_a, r, u);
    law_chosen_is_largest(b, tokens_b, maxima_b, r, t);
    law_chosen_is_largest(b, tokens_b, maxima_b, r, u);
    assert(b.data@[r * a.shape@.last() + t] == a.data@[r * a.shape@.last() + t] + shift);
    assert(b.data@[r * a.shape@.last() + u] == a.data@[r * a.shape@.last() + u] + shift);
}

/// What is looked up of an evaluated input: no distance is negative, that of the chosen
/// token is zero, and a distance that fits the chunks is put together again from the
/// columns that are committed to. A distance and its logit make up the maximum.
pub proof fn law_distances(
    input: Tensor<Element>,
    tokens: Tensor<Element>,
    maxima: Tensor<Element>,
    r: int,
    j: int,
    n: nat,
)
    requires
        input.wf(),
        input.shape@.len() >= 1,
        is_argmax_of(input, tokens, maxima),
        0 <= r < numel(input.shape@.drop_last()),
        0 <= j < input.unpadded_shape@.last(),
    ensures
        ({
            let cols = input.shape@.last() as int;
            let d = distance(input, maxima.data@, r * cols + j);
            &&& d >= 0
            &&& d + input.data@[r * cols + j] == maxima.data@[r]
            &&& j == tokens.data@[r] ==> d == 0
            &&& d < pow2(16 * n) ==> sum(
                n,
                |i: int|
                    chunk_column(input, maxima.data@, i)[r * cols + j] * pow2((16 * i) as nat),
            ) == d
        }),
{
    let cols = input.shape@.last() as int;
    let rows = numel(input.shape@.drop_last()) as int;
    let p = r * cols + j;
    let k = input.shape@.len() - 1;
    assert(input.unpadded_shape@[k] <= input.shape@[k]);
    law_chosen_is_largest(input, tokens, maxima, r, j);
    lemma_fundamental_div_mod_converse(p, cols, r, j);
    assert(0 <= p < rows * cols) by (nonlinear_arith)
        requires
            0 <= r < rows,
            0 <= j < cols,
            p == r * cols + j,
    ;
    let d = distance(input, maxima.data@, p);
    if d < pow2(16 * n) {
        assert(chunk_shift(n as int) == 16 * n);
        law_chunks_recombine(d, n);
        let f = |i: int| chunk_column(input, maxima.data@, i)[p] * pow2((16 * i) as nat);
        let g = |i: int| chunk(d, i) * pow2(chunk_shift(i));
        assert forall|i: int| 0 <= i < n implies #[trigger] f(i) == g(i) by {
            let c = (d / pow2(chunk_shift(i)) as int);
            lemma_mod_bound(c, 0x1_0000);
        }
        lemma_sum_same(n, f, g);
        let h = |i: int| chunk(d, i);
        lemma_sum_same(
            n,
            g,
            |i: int| h(i) * pow2(chunk_shift(i)),
        );
    }
}

/// The distances of logits that lie in the domain a layer was quantised for fit the chunks
/// of the layer: they have one bit more than the larger of its bounds.
pub proof fn law_distances_fit(min: int, max: int, x: int, y: int)
    requires
        min <= x <= y,
        y <= max,
    ensures
        ({
            let bits = log2_ceil(larger_magnitude(min, max) as nat) as int;
            let n = chunk_count(bits);
            &&& n >= 1
            &&& 0 <= y - x <= pow2((16 * n) as nat)
            &&& pow2(bits as nat) >= max && pow2(bits as nat) >= -min
        }),
{
    let m = larger_magnitude(min, max);
    let bits = log2_ceil(m as nat);
    let n = chunk_count(bits as int);
    lemma_next_pow2(m as nat);
    lemma_halves(bits + 1);
    lemma_pow2_pos(bits);
    let b = if bits + 1 < 16 {
        16int
    } else {
        bits as int + 1
    };
    lemma_fundamental_div_mod(b + 15, 16);
    lemma_mod_bound(b + 15, 16);
    assert(16 * n >= bits + 1);
    if 16 * n > bits + 1 {
        lemma_pow2_strictly_increases(bits + 1, (16 * n) as nat);
    }
}

/// The distances that are looked up are those that the sumcheck is about: inside the
/// columns that are not padding, the maximum of the row less the logit, and zero outside.
pub proof fn law_distances_are_proved(
    input: Tensor<Element>,
    tokens: Tensor<Element>,
    maxima: Tensor<Element>,
    padded_maxima: Seq<int>,
    p: int,
)
    requires
        input.wf(),
        input.shape@.len() >= 1,
        input.shape@.last() > 0,
        is_argmax_of(input, tokens, maxima),
        0 <= p < input.data@.len(),
        padded_maxima.len() >= maxima.data@.len(),
        forall|r: int|
            0 <= r < maxima.data@.len() ==> #[trigger] padded_maxima[r] == maxima.data@[r],
    ensures
        distance(input, maxima.data@, p) == inside_columns(
            input.unpadded_shape@.last() as int,
            input.shape@.last() as int,
            p,
        ) * (padded_maxima[p / input.shape@.last() as int] - input.data@[p]),
{
    let cols = input.shape@.last() as int;
    let rows = numel(input.shape@.drop_last()) as int;
    let (r, j) = (p / cols, p % cols);
    lemma_fundamental_div_mod(p, cols);
    lemma_mod_bound(p, cols);
    assert(0 <= r < rows) by (nonlinear_arith)
        requires
            p == cols * r + j,
            0 <= p < rows * cols,
            0 <= j < cols,
    ;
    let x = padded_maxima[r] - input.data@[p];
    assert(1 * x == x && 0 * x == 0);
}

/// Columns of chunks, one after the other, hold each chunk in its place.
pub proof fn law_chunk_columns(input: Tensor<Element>, maxima: Seq<Element>, n: nat, i: int, p: int)
    requires
        0 <= i < n,
        0 <= p < input.data@.len(),
    ensures
        chunk_columns(input, maxima, n).len() == n * input.data@.len(),
        0 <= i * input.data@.len() + p < n * input.data@.len(),
        chunk_columns(input, maxima, n)[i * input.data@.len() + p] == chunk_column(
            input,
            maxima,
            i,
        )[p],
    decreases n,
{
    let l = input.data@.len();
    let m = (n - 1) as nat;
    assert(n * l == m * l + l) by (nonlinear_arith)
        requires
            n == m + 1,
    ;
    assert(0 <= i * l + p < n * l) by (nonlinear_arith)
        requires
            0 <= i < n,
            0 <= p < l,
    ;
    if m > 0 {
        law_chunk_columns(input, maxima, m, if i < m { i } else { 0 }, p);
    } else {
        assert(0 * l == 0);
        assert(chunk_columns(input, maxima, 0).len() == 0);
    }
    if i < m {
        assert(i * l + p < m * l) by (nonlinear_arith)
            requires
                0 <= i < m,
                0 <= p < l,
        ;
    } else {
        assert(i == m);
    }
}

/// An honest evaluation meets what the sumcheck of the layer needs: modulo the prime, too,
/// the maximum of a row is the logit of its token.
pub proof fn law_evaluation_is_proved(
    input: Tensor<Element>,
    tokens: Tensor<Element>,
    maxima: Tensor<Element>,
    m: int,
    r: int,
)
    requires
        m > 1,
        input.wf(),
        input.shape@.len() >= 1,
        input.unpadded_shape@.last() > 0,
        is_argmax_of(input, tokens, maxima),
        0 <= r < numel(input.shape@.drop_last()),
    ensures
        0 <= tokens.data@[r] < input.shape@.last(),
        cong(
            maxima.data@[r] as int,
            element_ints(input.data@)[r * input.shape@.last() + tokens.data@[r]],
            m,
        ),
{
    let cols = input.shape@.last() as int;
    let rows = numel(input.shape@.drop_last()) as int;
    let k = input.shape@.len() - 1;
    assert(input.unpadded_shape@[k] <= input.shape@[k]);
    law_chosen_is_largest(input, tokens, maxima, r, 0);
    let t = tokens.data@[r] as int;
    assert(0 <= r * cols + t < rows * cols) by (nonlinear_arith)
        requires
            0 <= r < rows,
            0 <= t < cols,
    ;
}

/// For given evaluations, points and tokens, a proof is accepted at one end of the sumcheck
/// only.
pub proof fn law_one_end<F: PrimeField, L, C, P>(
    ctx: LogitsCtx,
    a: LogitsChunk<F>,
    b: LogitsChunk<F>,
    proof: LogitsProof<F, L, C, P>,
    half: int,
    ra: (Vec<Claim<F>>, Claim<F>),
    rb: (Vec<Claim<F>>, Claim<F>),
)
    requires
        a.decides(ctx, proof, half, Ok(ra)),
        b.decides(ctx, proof, half, Ok(rb)),
        a.padded_input_shapes == b.padded_input_shapes,
        a.unpadded_input_shapes == b.unpadded_input_shapes,
        a.lookup_point == b.lookup_point,
        a.challenge == b.challenge,
        a.outputs == b.outputs,
        a.split_outputs == b.split_outputs,
        a.chunk_number == b.chunk_number,
        a.subclaim.point@ == b.subclaim.point@,
    ensures
        a.subclaim.expected_evaluation.residue() == b.subclaim.expected_evaluation.residue(),
{
    let m = F::modulus();
    let input = proof.sumcheck_evals@[0].residue();
    let max = proof.sumcheck_evals@[1].residue();
    let (x, y) = (a.rest(half, input, max), b.rest(half, input, max));
    let (s, t) = (
        a.subclaim.expected_evaluation.residue(),
        b.subclaim.expected_evaluation.residue(),
    );
    a.subclaim.expected_evaluation.residue_bounds();
    b.subclaim.expected_evaluation.residue_bounds();
    assert(cong(x, y, m));
    lemma_cong_plus(x, y, s - x, s - x, m);
    assert(y + (s - x) == t);
    lemma_small_mod(s as nat, m as nat);
    lemma_small_mod(t as nat, m as nat);
}

/// Where the chosen tokens have a factor with an inverse, an end is accepted for one
/// weighted choice of tokens only: a verifier that knows the end knows the tokens.
pub proof fn law_one_choice(tokens: int, others: int, first: int, rest: int, factor: int, m: int)
    requires
        m > 1,
        invertible(factor % m, m),
        end_accepted(tokens, first, rest, factor, m),
        end_accepted(others, first, rest, factor, m),
    ensures
        cong(tokens, others, m),
{
    let inverse = choose|y: int| #[trigger] inverts(y, factor % m, m);
    lemma_divide(tokens, factor, inverse, rest, m);
    lemma_divide(others, factor, inverse, rest, m);
}

/// The product of the first `k` of some numbers.
pub open spec fn product(v: Seq<int>, k: nat) -> int
    decreases k,
{
    if k == 0 {
        1
    } else {
        product(v, (k - 1) as nat) * v[k - 1]
    }
}

/// Fractions are added as numbers are: where each stands for a number, their sum stands for
/// the sum of the numbers, and its denominator is the product of theirs.
pub proof fn law_fractions_add(
    start: (int, int),
    value: int,
    numerators: Seq<int>,
    denominators: Seq<int>,
    values: Seq<int>,
    k: nat,
)
    requires
        start.0 == value * start.1,
        k <= numerators.len(),
        k <= denominators.len(),
        k <= values.len(),
        forall|i: int|
            0 <= i < k ==> #[trigger] numerators[i] == values[i] * denominators[i],
    ensures
        ({
            let f = add_fractions(start, numerators, denominators, k);
            &&& f.1 == start.1 * product(denominators, k)
            &&& f.0 == (value + sum(k, |i: int| values[i])) * f.1
        }),
    decreases k,
{
    let g = |i: int| values[i];
    if k == 0 {
        assert(start.1 * 1 == start.1);
        assert(sum(0, g) == 0);
    } else {
        let j = (k - 1) as nat;
        law_fractions_add(start, value, numerators, denominators, values, j);
        let f = add_fractions(start, numerators, denominators, j);
        let (n, d, v) = (numerators[k - 1], denominators[k - 1], values[k - 1]);
        let (a, s, p) = (f.1, value + sum(j, g), product(denominators, j));
        assert(sum(k, g) == sum(j, g) + g(k - 1));
        assert(n == v * d);
        assert((v * d) * a + (s * a) * d == (s + v) * (a * d)) by (nonlinear_arith);
        assert((start.1 * p) * d == start.1 * (p * d)) by (nonlinear_arith);
    }
}

/// A model's maxima are split into chunks with none left out: each is in one chunk, in the
/// place of its handle.
pub proof fn law_chunks_hold_all(
    parts: Seq<KeyedTensor<Element>>,
    num_chunks: int,
    num_handles: int,
    chunks: Seq<ArgmaxHandle>,
    p: int,
)
    requires
        num_chunks > 0,
        chunks.len() == num_chunks,
        forall|c: int|
            0 <= c < num_chunks ==> is_chunk_of(
                parts,
                num_chunks,
                num_handles,
                c,
                #[trigger] chunks[c],
            ),
        0 <= p < num_handles * num_chunks,
    ensures
        0 <= p / num_chunks < chunks[p % num_chunks].max_values@.len(),
        chunks[p % num_chunks].max_values@[p / num_chunks] == parts[p],
{
    lemma_fundamental_div_mod(p, num_chunks);
    lemma_mod_bound(p, num_chunks);
    lemma_div_pos_is_pos(p, num_chunks);
    let (h, c) = (p / num_chunks, p % num_chunks);
    assert(num_chunks * h == h * num_chunks) by (nonlinear_arith);
    assert(h < num_handles) by (nonlinear_arith)
        requires
            p == h * num_chunks + c,
            0 <= c,
            p < num_handles * num_chunks,
            num_chunks > 0,
    ;
    assert(is_chunk_of(parts, num_chunks, num_handles, c, chunks[c]));
    assert(chunks[c].max_values@[h] == parts[h * num_chunks + c]);
}

/// Distances are looked up in as few chunks of 16 bits as hold a bit more than the logits
/// have, and in at least one; the bits of the logits are counted from the larger of the
/// two ends of their range.
pub proof fn law_chunk_count(bits: int, a: int, b: int)
    requires
        bits >= 0,
    ensures
        chunk_count(bits) >= 1,
        16 * chunk_count(bits) >= bits + 1,
        chunk_count(bits) == 1 || 16 * (chunk_count(bits) - 1) < bits + 1,
        larger_magnitude(a, b) >= a && larger_magnitude(a, b) >= -a,
        larger_magnitude(a, b) >= b && larger_magnitude(a, b) >= -b,
        larger_magnitude(a, b) == a || larger_magnitude(a, b) == -a || larger_magnitude(a, b) == b
            || larger_magnitude(a, b) == -b,
{
}

/// What is accepted is one output of tokens of the vocabulary, with a commitment to the
/// maxima and, where there are several, to each chunk; and the claims that are left are on
/// the maxima at the rows of the end, on the chunks at the point of the lookup and on the
/// input at the end.
pub proof fn law_accepted<F: PrimeField, L, C, P>(
    ctx: LogitsCtx,
    chunk: LogitsChunk<F>,
    proof: LogitsProof<F, L, C, P>,
    half: int,
    claims: Vec<Claim<F>>,
    input_claim: Claim<F>,
)
    requires
        chunk.decides(ctx, proof, half, Ok((claims, input_claim))),
    ensures
        chunk.outputs@.len() == 1,
        chunk.padded_input_shapes@.len() == 1,
        chunk.lookup_evals@.len() == ctx.range_check_chunks,
        ctx.range_check_chunks >= 1,
        ({
            let out = match chunk.split_outputs {
                Some(v) => v@[chunk.chunk_number as int],
                None => chunk.outputs@[0],
            };
            forall|i: int|
                0 <= i < out.data@.len() && i < next_pow2(out.shape@[0] as nat) && log2_ceil(
                    out.shape@[0] as nat,
                ) <= chunk.subclaim.point@.len() ==> 0 <= #[trigger] out.data@[i]
                    && out.data@[i] < chunk.unpadded_input_shapes@[0]@.last()
        }),
        claims@.len() == proof.commitments@.len(),
        proof.commitments@.len() == 1 + if ctx.range_check_chunks == 1 {
            0
        } else {
            ctx.range_check_chunks as int
        },
        claims@[0].eval == proof.sumcheck_evals@[1],
        claims@[0].point@ == chunk.subclaim.point@.skip(
            log2_ceil(chunk.padded_input_shapes@[0]@.last() as nat) as int,
        ),
        forall|i: int|
            1 <= i < claims@.len() ==> (#[trigger] claims@[i]).point@ == chunk.lookup_point@
                && claims@[i].eval == chunk.lookup_evals@[i - 1],
        input_claim.point@ == chunk.subclaim.point@,
        input_claim.eval == proof.sumcheck_evals@[0],
{
    assert forall|i: int| 1 <= i < claims@.len() implies (#[trigger] claims@[i]).point@
        == chunk.lookup_point@ && claims@[i].eval == chunk.lookup_evals@[i - 1] by {
        let k = i - 1;
        assert(claims@[k + 1].point@ == chunk.lookup_point@);
    }
    let out = chunk.output();
    assert(tokens_valid(
        out.data@,
        pow2(output_rows(out, chunk.end()).len()),
        chunk.width(),
    ));
}

} // verus!
