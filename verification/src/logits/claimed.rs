//! The sumcheck of a logits layer proves the chosen tokens.
use vstd::prelude::*;
use vstd::arithmetic::div_mod::*;
use vstd::arithmetic::power2::{lemma_pow2_adds, lemma_pow2_pos, pow2};
use crate::claim::Claim;
use crate::congruence::{cong, lemma_cong_minus, lemma_cong_plus, lemma_cong_sum, lemma_cong_times, lemma_residue_cong};
use crate::field::{all_stand_for, inverts, residues, stands_for, PrimeField};
use crate::logits::is_argmax_of;
use crate::logits::laws::{law_distances_are_proved, law_evaluation_is_proved, law_hadamard_sum};
use crate::logits::prove::{averaging_point, hadamard_value, inside_columns, is_hadamard_sumcheck, is_lookup_input, one_hot, HadamardSumcheck};
use crate::logits::witness::{chunk, chunk_column, chunk_shift, distance, element_ints, law_chunks_recombine, recombined};
use crate::lookup::SHIFT_CHECK_TABLE_SIZE;
use crate::mle::{beta, betas, lemma_pow2_unfold_zero, mle};
use crate::shape::numel;
use crate::sum::{lemma_sum_same, lemma_sum_scale, lemma_sum_swap, sum};
use crate::tensor::{Element, Tensor};

verus! {

/// What is summed at a place depends on residues alone.
proof fn lemma_hadamard_cong(v: Seq<int>, w: Seq<int>, a: int, b: int, c: int, m: int)
    requires
        m > 1,
        v.len() == 6,
        w.len() == 6,
        forall|i: int| 0 <= i < 6 ==> cong(#[trigger] v[i], w[i], m),
        cong(a, b, m),
    ensures
        cong(hadamard_value(v, a, c), hadamard_value(w, b, c), m),
{
    assert(cong(v[0], w[0], m) && cong(v[1], w[1], m) && cong(v[2], w[2], m) && cong(v[3], w[3], m)
        && cong(v[4], w[4], m) && cong(v[5], w[5], m));
    lemma_cong_times(a, b, v[2], w[2], m);
    lemma_cong_times(a * v[2], b * w[2], v[0], w[0], m);
    lemma_cong_minus(v[1], w[1], (a * v[2]) * v[0], (b * w[2]) * w[0], m);
    let (x, y) = (v[1] - (a * v[2]) * v[0], w[1] - (b * w[2]) * w[0]);
    lemma_cong_times(v[3], w[3], x, y, m);
    lemma_cong_times(v[4], w[4], v[5], w[5], m);
    lemma_cong_minus(v[1], w[1], v[0], w[0], m);
    let (p, q) = (v[1] - v[0], w[1] - w[0]);
    lemma_cong_times(v[4] * v[5], w[4] * w[5], p, q, m);
    lemma_cong_times(c, c, (v[4] * v[5]) * p, (w[4] * w[5]) * q, m);
    lemma_cong_plus(v[3] * x, w[3] * y, c * ((v[4] * v[5]) * p), c * ((w[4] * w[5]) * q), m);
}

/// Claims on the columns of chunks, put together, are a claim on the distances.
pub proof fn law_recombined_claim(
    input: Tensor<Element>,
    maxima: Seq<Element>,
    evals: Seq<int>,
    point: Seq<int>,
    m: int,
)
    requires
        m > 1,
        input.data@.len() == pow2(point.len()),
        forall|p: int|
            0 <= p < input.data@.len() ==> 0 <= #[trigger] distance(input, maxima, p) < pow2(
                chunk_shift(evals.len() as int),
            ),
        forall|i: int|
            0 <= i < evals.len() ==> cong(
                #[trigger] evals[i],
                mle(element_ints(chunk_column(input, maxima, i)), point),
                m,
            ),
    ensures
        cong(
            recombined(|i: int| evals[i], evals.len()),
            mle(Seq::new(input.data@.len(), |p: int| distance(input, maxima, p)), point),
            m,
        ),
{
    let n = evals.len();
    let len = input.data@.len();
    let given = |i: int| evals[i] * pow2(chunk_shift(i));
    let cell = |i: int, p: int| chunk(distance(input, maxima, p), i) * pow2(chunk_shift(i)) * beta(point, p);
    let by_chunk = |i: int| sum(len, |p: int| cell(i, p));
    assert forall|i: int| 0 <= i < n implies cong(#[trigger] given(i), by_chunk(i), m) by {
        let column = element_ints(chunk_column(input, maxima, i));
        let w = pow2(chunk_shift(i)) as int;
        assert(cong(evals[i], mle(column, point), m));
        lemma_cong_times(evals[i], mle(column, point), w, w, m);
        let f = |p: int| column[p] * beta(point, p);
        lemma_sum_scale(len, w, f);
        let row = |p: int| cell(i, p);
        assert forall|p: int| 0 <= p < len implies #[trigger] row(p) == w * f(p) by {
            let (c, y) = (chunk(distance(input, maxima, p), i), beta(point, p));
            lemma_mod_bound(
                distance(input, maxima, p) / pow2(chunk_shift(i)) as int,
                SHIFT_CHECK_TABLE_SIZE as int,
            );
            assert(column[p] == c);
            assert(c * w * y == w * (c * y)) by (nonlinear_arith);
        }
        lemma_sum_same(len, row, |p: int| w * f(p));
        let s = sum(len, f);
        lemma_sum_same(len, f, |p: int| column[p] * beta(point, p));
        assert(s * w == w * s) by (nonlinear_arith);
    }
    lemma_cong_sum(n, given, by_chunk, m);
    let e = |i: int| evals[i];
    lemma_sum_same(n, given, |i: int| e(i) * pow2(chunk_shift(i)));
    lemma_sum_swap(n, len, cell);
    lemma_sum_same(n, by_chunk, |i: int| sum(len, |p: int| cell(i, p)));
    let t = Seq::new(len, |p: int| distance(input, maxima, p));
    let by_place = |p: int| sum(n, |i: int| cell(i, p));
    let goal = |p: int| t[p] * beta(point, p);
    assert forall|p: int| 0 <= p < len implies #[trigger] by_place(p) == goal(p) by {
        let v = distance(input, maxima, p);
        law_chunks_recombine(v, n);
        let y = beta(point, p);
        let parts = |i: int| chunk(v, i) * pow2(chunk_shift(i));
        let c = |i: int| chunk(v, i);
        lemma_sum_same(n, parts, |i: int| c(i) * pow2(chunk_shift(i)));
        lemma_sum_scale(n, y, parts);
        let row = |i: int| cell(i, p);
        assert forall|i: int| 0 <= i < n implies #[trigger] row(i) == y * parts(i) by {
            let q = parts(i);
            assert(q * y == y * q) by (nonlinear_arith);
        }
        lemma_sum_same(n, row, |i: int| y * parts(i));
        assert(y * v == v * y) by (nonlinear_arith);
    }
    lemma_sum_same(len, by_place, goal);
    lemma_sum_same(len, by_place, |p: int| sum(n, |i: int| cell(i, p)));
}

/// Where the claims that the lookup left are on the chunks of the distances between the
/// maximum of a row and its values, the prover's tables sum to the recombined claim, times
/// the challenge: the chosen tokens are those of the maxima.
pub proof fn law_output_is_proved<F: PrimeField>(
    input: Tensor<Element>,
    tokens: Tensor<Element>,
    maxima: Tensor<Element>,
    field_maxima: Seq<F>,
    claims: Seq<Claim<F>>,
    col_vars: nat,
    half: int,
    s: HadamardSumcheck<F>,
    challenge: int,
)
    requires
        F::modulus() > 1,
        inverts(2, half, F::modulus()),
        input.wf(),
        input.shape@.len() >= 1,
        input.unpadded_shape@.last() > 0,
        input.shape@.last() == pow2(col_vars),
        is_argmax_of(input, tokens, maxima),
        claims.len() >= 1,
        col_vars <= claims[0].point@.len(),
        numel(input.shape@.drop_last()) == pow2((claims[0].point@.len() - col_vars) as nat),
        all_stand_for(field_maxima, element_ints(maxima.data@)),
        is_hadamard_sumcheck(input, field_maxima, tokens.data@, claims, col_vars, half, s),
        forall|p: int|
            0 <= p < input.data@.len() ==> 0 <= #[trigger] distance(input, maxima.data@, p) < pow2(
                chunk_shift(claims.len() as int),
            ),
        forall|i: int|
            0 <= i < claims.len() ==> stands_for(
                (#[trigger] claims[i]).eval,
                mle(
                    element_ints(chunk_column(input, maxima.data@, i)),
                    residues(claims[0].point@),
                ),
            ),
    ensures
        cong(
            sum(
                input.data@.len(),
                |p: int|
                    s.expression.value(
                        Seq::new(6, |t: int| s.tables@[t]@[p].residue()),
                        seq![challenge],
                    ),
            ),
            challenge * s.diff_claim.eval.residue(),
            F::modulus(),
        ),
{
    let m = F::modulus();
    let point = residues(claims[0].point@);
    let row = residues(claims[0].point@.skip(col_vars as int));
    let cols = pow2(col_vars) as int;
    let len = input.data@.len();
    let width = input.unpadded_shape@.last() as int;
    let (e, mx, tk) = (element_ints(input.data@), element_ints(maxima.data@), tokens.data@);
    lemma_pow2_pos(col_vars);
    lemma_pow2_adds(col_vars, row.len());
    assert(numel(input.shape@) == numel(input.shape@.drop_last()) * input.shape@.last() as nat);
    assert(len == pow2(point.len())) by {
        let (a, b) = (pow2(col_vars), pow2(row.len()));
        assert(b * a == a * b) by (nonlinear_arith);
    }
    let rows = pow2(row.len()) as int;
    assert forall|r: int| 0 <= r < tk.len() implies 0 <= #[trigger] tk[r] && tk[r] < pow2(
        (point.len() - row.len()) as nat,
    ) && cong(mx[r], e[r * pow2((point.len() - row.len()) as nat) + tk[r]], m) by {
        law_evaluation_is_proved(input, tokens, maxima, m, r);
    }
    law_hadamard_sum(half, row, point, tk, e, mx, width, challenge, m);
    let avg = averaging_point(half, col_vars, row);
    let given = |p: int|
        s.expression.value(Seq::new(6, |t: int| s.tables@[t]@[p].residue()), seq![challenge]);
    let plain = |p: int|
        hadamard_value(
            seq![
                e[p],
                mx[p / cols],
                one_hot(tk, cols, p),
                beta(averaging_point(half, col_vars, row), p),
                beta(point, p),
                inside_columns(width, cols, p),
            ],
            cols,
            challenge,
        );
    lemma_mod_twice(cols, m);
    assert forall|p: int| 0 <= p < len implies cong(#[trigger] given(p), plain(p), m) by {
        let v = Seq::new(6, |t: int| s.tables@[t]@[p].residue());
        let w = seq![
            e[p],
            mx[p / cols],
            one_hot(tk, cols, p),
            beta(avg, p),
            beta(point, p),
            inside_columns(width, cols, p),
        ];
        lemma_fundamental_div_mod(p, cols);
        lemma_mod_bound(p, cols);
        lemma_div_pos_is_pos(p, cols);
        let r = p / cols;
        assert(r < rows) by (nonlinear_arith)
            requires
                p == cols * r + p % cols,
                0 <= p % cols,
                p < cols * rows,
                cols > 0,
        ;
        lemma_residue_cong(s.tables@[0]@[p], w[0]);
        assert(s.tables@[1]@[p] == field_maxima[r]);
        lemma_residue_cong(field_maxima[r], w[1]);
        lemma_residue_cong(s.tables@[2]@[p], w[2]);
        assert(betas(avg)[p] == w[3]);
        lemma_residue_cong(s.tables@[3]@[p], w[3]);
        assert(betas(point)[p] == w[4]);
        lemma_residue_cong(s.tables@[4]@[p], w[4]);
        lemma_residue_cong(s.tables@[5]@[p], w[5]);
        lemma_hadamard_cong(v, w, cols % m, cols, challenge, m);
    }
    lemma_cong_sum(len, given, plain, m);
    // The claim that the sumcheck starts from.
    let t = Seq::new(len, |p: int| distance(input, maxima.data@, p));
    let dist = Seq::new(
        pow2(point.len()),
        |p: int| inside_columns(width, cols, p) * (mx[p / cols] - e[p]),
    );
    assert forall|p: int| 0 <= p < len implies t[p] == dist[p] by {
        law_distances_are_proved(input, tokens, maxima, mx, p);
    }
    assert(t =~= dist);
    let evals = Seq::new(claims.len(), |i: int| claims[i].eval.residue());
    assert forall|i: int| 0 <= i < evals.len() implies cong(
        #[trigger] evals[i],
        mle(element_ints(chunk_column(input, maxima.data@, i)), point),
        m,
    ) by {
        lemma_residue_cong(
            claims[i].eval,
            mle(element_ints(chunk_column(input, maxima.data@, i)), point),
        );
    }
    law_recombined_claim(input, maxima.data@, evals, point, m);
    let (f, g) = (|i: int| evals[i], |i: int| claims[i].eval.residue());
    lemma_sum_same(
        claims.len(),
        |i: int| f(i) * pow2(chunk_shift(i)),
        |i: int| g(i) * pow2(chunk_shift(i)),
    );
    let start = recombined(|i: int| claims[i].eval.residue(), claims.len());
    lemma_residue_cong(s.diff_claim.eval, start);
    lemma_cong_times(challenge, challenge, s.diff_claim.eval.residue(), mle(t, point), m);
    lemma_sum_same(
        len,
        plain,
        |p: int|
            hadamard_value(
                seq![
                    e[p],
                    mx[p / cols],
                    one_hot(tk, cols, p),
                    beta(averaging_point(half, col_vars, row), p),
                    beta(point, p),
                    inside_columns(width, cols, p),
                ],
                cols,
                challenge,
            ),
    );
    assert((point.len() - row.len()) as nat == col_vars);
}

/// What is looked up is the chunks of the distances: with several chunks the columns that
/// are committed to, and with one the distances themselves.
pub proof fn law_lookup_input<F: PrimeField>(
    input: Tensor<Element>,
    maxima: Seq<Element>,
    field_input: Tensor<F>,
    committed: Seq<Vec<F>>,
    r: Seq<Vec<F>>,
    i: int,
    p: int,
)
    requires
        F::modulus() > 1,
        input.wf(),
        input.shape@.len() >= 1,
        input.shape@.last() > 0,
        input.data@.len() == maxima.len() * input.shape@.last(),
        field_input.shape@ == input.shape@,
        all_stand_for(field_input.data@, element_ints(input.data@)),
        committed.len() >= 1,
        maxima.len() <= committed[0]@.len(),
        forall|k: int|
            0 <= k < maxima.len() ==> stands_for(#[trigger] committed[0]@[k], maxima[k] as int),
        forall|k: int|
            0 <= k < committed.len() - 1 ==> all_stand_for(
                (#[trigger] committed[k + 1])@,
                element_ints(chunk_column(input, maxima, k)),
            ),
        committed.len() == 1 ==> forall|q: int|
            0 <= q < input.data@.len() ==> 0 <= #[trigger] distance(input, maxima, q) < pow2(
                chunk_shift(1),
            ),
        is_lookup_input(committed, field_input, input.unpadded_shape@.last() as int, r),
        0 <= i < r.len(),
        0 <= p < input.data@.len(),
    ensures
        r.len() == if committed.len() == 1 {
            1
        } else {
            committed.len() - 1
        },
        r[i]@.len() == input.data@.len(),
        stands_for(r[i]@[p], chunk(distance(input, maxima, p), i)),
{
    let m = F::modulus();
    let cols = input.shape@.last() as int;
    let v = distance(input, maxima, p);
    if committed.len() > 1 {
        let column = chunk_column(input, maxima, i);
        assert(r[i]@ == committed[i + 1]@);
        assert(all_stand_for(committed[i + 1]@, element_ints(column)));
        assert(stands_for(r[i]@[p], element_ints(column)[p]));
        lemma_mod_bound(v / pow2(chunk_shift(i)) as int, SHIFT_CHECK_TABLE_SIZE as int);
    } else {
        let (a, b) = (maxima.len() as int, committed[0]@.len() as int);
        assert(a * cols <= b * cols) by (nonlinear_arith)
            requires
                a <= b,
                cols > 0,
        ;
        lemma_fundamental_div_mod(p, cols);
        lemma_mod_bound(p, cols);
        lemma_div_pos_is_pos(p, cols);
        let k = p / cols;
        assert(k < a) by (nonlinear_arith)
            requires
                p == cols * k + p % cols,
                0 <= p % cols,
                p < a * cols,
                cols > 0,
        ;
        let (f, g) = (committed[0]@[k], field_input.data@[p]);
        assert(stands_for(f, maxima[k] as int));
        lemma_residue_cong(f, maxima[k] as int);
        lemma_residue_cong(g, input.data@[p] as int);
        lemma_cong_minus(f.residue(), maxima[k] as int, g.residue(), input.data@[p] as int, m);
        law_chunks_recombine(v, 1);
        let c = |j: int| chunk(v, j);
        let h = |j: int| c(j) * pow2(chunk_shift(j));
        lemma_sum_same(1, h, |j: int| c(j) * pow2(chunk_shift(j)));
        assert(sum(1, h) == sum(0, h) + h(0));
        lemma_pow2_unfold_zero();
        assert(chunk(v, 0) * 1 == chunk(v, 0));
        assert(chunk(v, 0) == v);
        assert(stands_for(r[0]@[p], v));
    }
}

} // verus!
