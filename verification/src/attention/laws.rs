//! What holds of a mask as a whole.
use vstd::prelude::*;
use vstd::arithmetic::div_mod::{lemma_fundamental_div_mod, lemma_fundamental_div_mod_converse, lemma_mod_bound, lemma_mod_twice};
use vstd::arithmetic::power2::{lemma_pow2_adds, pow2};
use crate::attention::attention_mask::{batch_refusal, batch_used, batch_width, drawn_count, is_input_claims, law_full_mask, lt_table, places, preamble_refusal, row_places, same_point, split_points, summand, two_vars, AttentionMask, AttentionMaskCtx, AttentionMaskProof, AttentionSpan, MaskProvingData, MaskVerifyingData};
use crate::attention::protocol::is_mask_tables;
use crate::attention_mask::prove::weighted;
use crate::batching::part_of;
use crate::claim::{Claim, SubClaim};
use crate::congruence::{cong, lemma_cong_minus, lemma_cong_plus, lemma_cong_sum, lemma_cong_times, lemma_end_cong, lemma_residue_cong, lemma_stands_cong};
use crate::field::{all_stand_for, residues, stands_for, PrimeField};
use crate::mle::{beta, betas, identity, lemma_mle_betas, lemma_mle_grid, mle};
use crate::shape::{lemma_log2_pow2, lemma_next_pow2, num_vars, numel, Shape};
use crate::sum::{lemma_sum_plus, lemma_sum_same, lemma_sum_scale, lemma_sum_single, lemma_sum_split, lemma_sum_swap, lemma_sum_zero, sum};
use crate::tensor::{Element, Tensor};
use crate::triangular::{lower_triangular, matrix_mle};

verus! {

/// The masked matrix: the values of `t` where the mask is one, and `neg` where it is zero.
pub open spec fn masked_matrix(lt: Seq<int>, t: Seq<int>, neg: int) -> Seq<int> {
    Seq::new(t.len(), |x: int| lt[x] * t[x] + neg * (1 - lt[x]))
}

/// What the sumcheck makes of a matrix is the matrix with what the mask hides replaced.
pub proof fn law_masked_matrix(span: AttentionSpan, n: nat, t: Seq<int>, neg: int, x: int)
    requires
        t.len() == n * n,
        0 <= x < n * n,
    ensures
        masked_matrix(lt_table(span, n), t, neg)[x] == if span.keeps(x / n as int, x % n as int) {
            t[x]
        } else {
            neg
        },
{
    let lt = lt_table(span, n)[x];
    assert(lt == 0 || lt == 1);
    assert(1 * t[x] + neg * (1 - 1) == t[x]) by (nonlinear_arith);
    assert(0 * t[x] + neg * (1 - 0) == neg) by (nonlinear_arith);
}

/// The values that the tables of the sumcheck have at place `x`.
pub open spec fn at_place(eq: Seq<int>, lt: Seq<int>, inputs: Seq<Seq<int>>, x: int) -> Seq<int> {
    seq![eq[x], lt[x]] + Seq::new(inputs.len(), |k: int| inputs[k][x])
}

/// The sumcheck sums to the batched extensions of the masked matrices.
pub proof fn law_mask_sum(
    point: Seq<int>,
    lt: Seq<int>,
    inputs: Seq<Seq<int>>,
    challenges: Seq<int>,
    neg: int,
)
    requires
        inputs.len() == challenges.len(),
        forall|k: int| 0 <= k < inputs.len() ==> (#[trigger] inputs[k]).len() == pow2(point.len()),
    ensures
        sum(
            pow2(point.len()),
            |x: int|
                sum(
                    inputs.len(),
                    |k: int|
                        summand(at_place(betas(point), lt, inputs, x), challenges, true, neg, k),
                ),
        ) == sum(
            inputs.len(),
            |k: int| challenges[k] * mle(masked_matrix(lt, inputs[k], neg), point),
        ),
{
    let n = pow2(point.len());
    let count = inputs.len();
    let cell = |x: int, k: int|
        summand(at_place(betas(point), lt, inputs, x), challenges, true, neg, k);
    lemma_sum_swap(n, count, cell);
    let outer = |x: int| sum(count, |k: int| cell(x, k));
    let written = |x: int|
        sum(
            count,
            |k: int| summand(at_place(betas(point), lt, inputs, x), challenges, true, neg, k),
        );
    assert forall|x: int| 0 <= x < n implies #[trigger] outer(x) == written(x) by {
        lemma_sum_same(
            count,
            |k: int| cell(x, k),
            |k: int| summand(at_place(betas(point), lt, inputs, x), challenges, true, neg, k),
        );
    }
    lemma_sum_same(n, outer, written);
    let left = |k: int| sum(n, |x: int| cell(x, k));
    let right = |k: int| challenges[k] * mle(masked_matrix(lt, inputs[k], neg), point);
    assert forall|k: int| 0 <= k < count implies #[trigger] left(k) == right(k) by {
        let t = masked_matrix(lt, inputs[k], neg);
        let f = |x: int| t[x] * beta(point, x);
        let c = challenges[k];
        lemma_sum_scale(n, c, f);
        let g = |x: int| cell(x, k);
        let h = |x: int| c * f(x);
        assert forall|x: int| 0 <= x < n implies #[trigger] g(x) == h(x) by {
            let w = at_place(betas(point), lt, inputs, x);
            assert(w[0] == betas(point)[x]);
            assert(w[0] == beta(point, x));
            assert(w[1] == lt[x]);
            assert(w[2 + k] == inputs[k][x]);
            let b = w[0];
            let v = t[x];
            assert(v == w[1] * w[2 + k] + neg * (1 - w[1]));
            assert(b * c * v == c * (v * b)) by (nonlinear_arith);
        }
        lemma_sum_same(n, g, h);
    }
    lemma_sum_same(count, left, right);
}

/// A claim on an output whose matrices from `count` on are zero is the claim batched over
/// the others.
pub proof fn law_batched_output(out: Seq<int>, point: Seq<int>, batch: Seq<int>, count: nat)
    requires
        count <= pow2(batch.len()),
        forall|p: int| count * pow2(point.len()) <= p ==> #[trigger] out[p] == 0,
    ensures
        mle(out, point + batch) == sum(
            count,
            |k: int|
                beta(batch, k) * mle(
                    Seq::new(pow2(point.len()), |x: int| out[k * pow2(point.len()) + x]),
                    point,
                ),
        ),
{
    let n = pow2(point.len());
    let m = pow2(batch.len());
    lemma_mle_grid(out, point, batch);
    let f = |k: int| sum(n, |x: int| out[k * n + x] * beta(point, x)) * beta(batch, k);
    lemma_sum_split(count, (m - count) as nat, f);
    let rest = |k: int| f(count as nat + k);
    assert forall|k: int| 0 <= k < m - count implies #[trigger] rest(k) == 0 by {
        let i = count + k;
        let g = |x: int| out[i * n + x] * beta(point, x);
        assert forall|x: int| 0 <= x < n implies #[trigger] g(x) == 0 by {
            let p = i * n + x;
            assert(count * n <= p) by (nonlinear_arith)
                requires
                    p == i * n + x,
                    i >= count,
                    x >= 0,
                    n >= 0,
            ;
            assert(out[p] == 0);
            assert(0 * beta(point, x) == 0);
        }
        lemma_sum_zero(n, g);
        assert(0 * beta(batch, i) == 0);
    }
    lemma_sum_zero((m - count) as nat, rest);
    let goal = |k: int| beta(batch, k) * mle(Seq::new(n, |x: int| out[k * n + x]), point);
    assert forall|k: int| 0 <= k < count implies #[trigger] f(k) == goal(k) by {
        let t = Seq::new(n, |x: int| out[k * n + x]);
        let g = |x: int| out[k * n + x] * beta(point, x);
        let h = |x: int| t[x] * beta(point, x);
        lemma_sum_same(n, g, h);
        let (a, b) = (sum(n, g), beta(batch, k));
        assert(a * b == b * a) by (nonlinear_arith);
    }
    lemma_sum_same(count, f, goal);
}

/// The matrices in a list are batched in order, each by the factor of its own index.
pub proof fn law_list_places(n: nat, len: int)
    requires
        n <= len,
    ensures
        places(n, 1, 1, len).len() == n,
        forall|k: int| 0 <= k < n ==> #[trigger] places(n, 1, 1, len)[k] == k,
    decreases n,
{
    if n > 0 {
        law_list_places((n - 1) as nat, len);
        let i = n - 1;
        assert(i * 1 + 1 - 1 == i);
        assert(row_places(i, 1, 0, len) =~= Seq::<int>::empty());
        assert(row_places(i, 1, 1, len) =~= seq![i]);
    }
}

/// The prover and the verifier batch the matrices by the same challenges.
pub proof fn law_same_challenges<F: PrimeField>(
    claims: Seq<Claim<F>>,
    input: Tensor<F>,
    u: Seq<usize>,
    drawn: Seq<F>,
    data: MaskProvingData<F>,
    verifying: MaskVerifyingData<F>,
)
    requires
        2 <= input.shape@.len() <= 4,
        data.belongs_to(claims, input, u, drawn),
        verifying.belongs_to(claims, input.shape@, u, drawn),
    ensures
        residues(data.batching_challenges@) == residues(verifying.batching_challenges@),
        data.batching_point@ == verifying.batching_point@,
{
    assert forall|k: int| 0 <= k < data.batching_challenges@.len() implies residues(
        data.batching_challenges@,
    )[k] == residues(verifying.batching_challenges@)[k] by {
        let x = data.batching_challenges@[k];
        let y = verifying.batching_challenges@[k];
        assert(x.residue() == y.residue());
    }
    assert(residues(data.batching_challenges@) =~= residues(verifying.batching_challenges@));
}

/// Where the sumcheck of an honest prover ends, the verifier of a full mask accepts.
pub proof fn law_honest_mask_accepted<F: PrimeField>(
    mask: AttentionMask<Element>,
    data: MaskProvingData<F>,
    tables: Seq<Vec<F>>,
    verifying: MaskVerifyingData<F>,
    point: Seq<F>,
    ends: Seq<F>,
    expected: F,
)
    requires
        F::modulus() > 1,
        mask.span == AttentionSpan::Full,
        is_mask_tables(mask, data, tables),
        verifying.eq_point@.len() % 2 == 0,
        point.len() == verifying.eq_point@.len(),
        all_stand_for(data.eq_evals@, betas(residues(verifying.eq_point@))),
        residues(verifying.batching_challenges@) == residues(data.batching_challenges@),
        data.input_polys@.len() == data.batching_challenges@.len(),
        ends.len() == tables.len(),
        forall|t: int|
            0 <= t < ends.len() ==> stands_for(
                #[trigger] ends[t],
                mle(residues(tables[t]@), residues(point)),
            ),
        stands_for(
            expected,
            sum(
                data.input_polys@.len(),
                |k: int|
                    summand(
                        residues(ends),
                        residues(data.batching_challenges@),
                        true,
                        mask.negative_infinity as int % F::modulus(),
                        k,
                    ),
            ),
        ),
    ensures
        stands_for(expected, mask.computed(verifying, ends.skip(2), point)),
{
    let m = F::modulus();
    let s = residues(point);
    let e = residues(verifying.eq_point@);
    let v = e.len();
    let h = v / 2;
    let w = residues(ends);
    let c = residues(data.batching_challenges@);
    let neg = mask.negative_infinity as int;
    let negm = neg % m;
    let count = data.input_polys@.len();
    // The factors of the point.
    assert(data.eq_evals@.len() == pow2(v));
    lemma_log2_pow2(v);
    lemma_end_cong(ends[0], tables[0]@, betas(e), s);
    lemma_mle_betas(e, s);
    // The mask.
    let col = s.take(h as int);
    let row = s.skip(h as int);
    assert(col + row =~= s);
    lemma_pow2_adds(h, h);
    assert(h + h == v);
    law_full_mask(row, col);
    lemma_end_cong(ends[1], tables[1]@, lt_table(AttentionSpan::Full, pow2(h)), s);
    let lt = matrix_mle(|i: int, j: int| lower_triangular(i, j), row, col);
    let eq = identity(s, e);
    assert(cong(w[0], eq, m));
    assert(cong(w[1], lt, m));
    lemma_mod_twice(neg, m);
    assert(cong(negm, neg, m));
    let vals = AttentionMask::<Element>::masked_evals(lt, neg, residues(ends.skip(2)));
    let f = |k: int| summand(w, c, true, negm, k);
    let inner = |k: int| c[k] * vals[k];
    let g = |k: int| eq * inner(k);
    assert(ends.skip(2).len() == count);
    assert forall|k: int| 0 <= k < count implies cong(#[trigger] f(k), g(k), m) by {
        assert(residues(ends.skip(2))[k] == w[2 + k]);
        let x = w[2 + k];
        lemma_cong_times(w[1], lt, x, x, m);
        lemma_cong_minus(1, 1, w[1], lt, m);
        lemma_cong_times(negm, neg, 1 - w[1], 1 - lt, m);
        lemma_cong_plus(w[1] * x, lt * x, negm * (1 - w[1]), neg * (1 - lt), m);
        let a = w[1] * x + negm * (1 - w[1]);
        let b = vals[k];
        assert(cong(a, b, m));
        lemma_cong_times(w[0], eq, c[k], c[k], m);
        lemma_cong_times(w[0] * c[k], eq * c[k], a, b, m);
        let ck = c[k];
        assert(eq * ck * b == eq * (ck * b)) by (nonlinear_arith);
    }
    lemma_cong_sum(count, f, g, m);
    lemma_sum_scale(count, eq, inner);
    assert(weighted(c, vals) == sum(count, inner));
    lemma_stands_cong(expected, sum(count, f), mask.computed(verifying, ends.skip(2), point));
}

/// The verifier does not refuse what an honest prover of a full mask shows: whatever data
/// the claims and the shapes fix, the sumcheck ends on what is computed from it.
pub proof fn law_honest_mask_not_refused<F: PrimeField, P>(
    ctx: AttentionMaskCtx<F>,
    claims: Seq<Claim<F>>,
    input: Tensor<F>,
    u: Seq<usize>,
    drawn: Seq<F>,
    data: MaskProvingData<F>,
    tables: Seq<Vec<F>>,
    ends: Seq<F>,
    proof: AttentionMaskProof<F, P>,
    subclaim: SubClaim<F>,
)
    requires
        F::modulus() > 1,
        ctx.op.span == AttentionSpan::Full,
        2 <= input.shape@.len() <= 4,
        data.belongs_to(claims, input, u, drawn),
        ({
            let eq = split_points(claims, input.shape@, drawn).0;
            eq.len() % 2 == 0 && subclaim.point@.len() == eq.len()
        }),
        is_mask_tables(ctx.op, data, tables),
        ends.len() == tables.len(),
        forall|t: int|
            0 <= t < ends.len() ==> stands_for(
                #[trigger] ends[t],
                mle(residues(tables[t]@), residues(subclaim.point@)),
            ),
        stands_for(
            subclaim.expected_evaluation,
            sum(
                data.input_polys@.len(),
                |k: int|
                    summand(
                        residues(ends),
                        residues(data.batching_challenges@),
                        true,
                        ctx.op.negative_infinity as int % F::modulus(),
                        k,
                    ),
            ),
        ),
        proof.evaluations@ == ends.skip(2),
    ensures
        !ctx.fails(proof, claims, subclaim, input.shape@, u, drawn),
{
    assert forall|verifying: MaskVerifyingData<F>|
        verifying.belongs_to(claims, input.shape@, u, drawn) implies !(
    #[trigger] ctx.ends_elsewhere(verifying, proof, subclaim)) by {
        law_same_challenges(claims, input, u, drawn, data, verifying);
        law_honest_mask_accepted(
            ctx.op,
            data,
            tables,
            verifying,
            subclaim.point@,
            ends,
            subclaim.expected_evaluation,
        );
    }
}

/// Masking is causal in each of the matrices that are masked: a token never sees a token
/// that comes after it, and with a window none that lies further back; what it sees stays
/// what it is. A single row is that of the last unpadded token. The matrices after those
/// that are masked stay as they are.
pub proof fn law_causal<N: Copy>(
    mask: AttentionMask<N>,
    input: Tensor<N>,
    u: Seq<usize>,
    out: Tensor<N>,
    k: int,
    i: int,
    j: int,
)
    requires
        input.wf(),
        input.shape@.len() >= 2,
        u.len() == input.shape@.len(),
        mask.masks(input, u, out),
        0 <= k,
        0 <= i < input.shape@[input.shape@.len() - 2],
        0 <= j < input.shape@.last(),
        (k * input.shape@[input.shape@.len() - 2] + i) * input.shape@.last() + j
            < input.data@.len(),
    ensures
        ({
            let d = input.shape@;
            let rows = d[d.len() - 2];
            let p = (k * rows + i) * d.last() + j;
            let token = if rows == 1 {
                u.last() - 1
            } else {
                i
            };
            &&& 0 <= p < out.data@.len()
            &&& k >= numel(u.take(u.len() - 2)) ==> out.data@[p] == input.data@[p]
            &&& k < numel(u.take(u.len() - 2)) && j > token ==> out.data@[p]
                == mask.negative_infinity
            &&& k < numel(u.take(u.len() - 2)) && j <= token ==> match mask.span {
                AttentionSpan::Full => out.data@[p] == input.data@[p],
                AttentionSpan::Local(n) => out.data@[p] == if token - j <= n {
                    input.data@[p]
                } else {
                    mask.negative_infinity
                },
            }
        }),
{
    let d = input.shape@;
    let (rows, cols) = (d[d.len() - 2] as int, d.last() as int);
    let p = (k * rows + i) * cols + j;
    lemma_fundamental_div_mod_converse(p, cols, k * rows + i, j);
    lemma_fundamental_div_mod_converse(k * rows + i, rows, k, i);
    assert(p == k * (rows * cols) + (i * cols + j)) by (nonlinear_arith)
        requires
            p == (k * rows + i) * cols + j,
    ;
    assert(0 <= i * cols + j < rows * cols) by (nonlinear_arith)
        requires
            0 <= i < rows,
            0 <= j < cols,
    ;
    lemma_fundamental_div_mod_converse(p, rows * cols, k, i * cols + j);
    assert(0 <= p) by (nonlinear_arith)
        requires
            p == (k * rows + i) * cols + j,
            k >= 0,
            i >= 0,
            j >= 0,
            rows >= 0,
            cols >= 0,
    ;
}

/// What evaluation gives, matrix by matrix, is what the sumcheck is about: the matrix of
/// the input, masked by the table of the prover.
pub proof fn law_evaluation_is_proved(
    mask: AttentionMask<Element>,
    input: Tensor<Element>,
    u: Seq<usize>,
    out: Tensor<Element>,
    n: nat,
    k: int,
)
    requires
        input.wf(),
        input.shape@.len() >= 2,
        u.len() == input.shape@.len(),
        mask.masks(input, u, out),
        n > 1,
        input.shape@.last() == n,
        input.shape@[input.shape@.len() - 2] == n,
        0 <= k < numel(u.take(u.len() - 2)),
        (k + 1) * (n * n) <= input.data@.len(),
    ensures
        masked_matrix(
            lt_table(mask.span, n),
            Seq::new(n * n, |x: int| input.data@[k * (n * n) + x] as int),
            mask.negative_infinity as int,
        ) == Seq::new(n * n, |x: int| out.data@[k * (n * n) + x] as int),
{
    let t = Seq::new(n * n, |x: int| input.data@[k * (n * n) + x] as int);
    let neg = mask.negative_infinity as int;
    let left = masked_matrix(lt_table(mask.span, n), t, neg);
    let right = Seq::new(n * n, |x: int| out.data@[k * (n * n) + x] as int);
    assert((k + 1) * (n * n) == k * (n * n) + n * n) by (nonlinear_arith);
    assert forall|x: int| 0 <= x < n * n implies #[trigger] left[x] == right[x] by {
        let (i, j) = (x / n as int, x % n as int);
        lemma_fundamental_div_mod(x, n as int);
        lemma_mod_bound(x, n as int);
        assert(0 <= i < n) by (nonlinear_arith)
            requires
                x == n * i + j,
                0 <= x < n * n,
                0 <= j < n,
        ;
        assert((k * n + i) * n + j == k * (n * n) + x) by (nonlinear_arith)
            requires
                x == n * i + j,
        ;
        law_masked_matrix(mask.span, n, t, neg, x);
        law_causal(mask, input, u, out, k, i, j);
    }
    assert(left =~= right);
}

/// For given claims and evaluations, a mask is accepted at one end of the sumcheck only.
pub proof fn law_one_end<F: PrimeField, P>(
    ctx: AttentionMaskCtx<F>,
    data: MaskVerifyingData<F>,
    proof: AttentionMaskProof<F, P>,
    s: SubClaim<F>,
    t: SubClaim<F>,
)
    requires
        !ctx.ends_elsewhere(data, proof, s),
        !ctx.ends_elsewhere(data, proof, t),
        s.point@ == t.point@,
    ensures
        s.expected_evaluation.residue() == t.expected_evaluation.residue(),
{
}

/// A sum of which only some places count is the sum over these places.
proof fn lemma_sum_listed(n: nat, f: spec_fn(int) -> int, at: Seq<int>)
    requires
        at.no_duplicates(),
        forall|k: int| 0 <= k < at.len() ==> 0 <= #[trigger] at[k] < n,
        forall|h: int| 0 <= h < n && !at.contains(h) ==> #[trigger] f(h) == 0,
    ensures
        sum(n, f) == sum(at.len(), |k: int| f(at[k])),
    decreases at.len(),
{
    if at.len() == 0 {
        lemma_sum_zero(n, f);
    } else {
        let rest = at.drop_last();
        let last = at.last();
        let g = |h: int|
            if h == last {
                0
            } else {
                f(h)
            };
        let s = |h: int|
            if h == last {
                f(h)
            } else {
                0
            };
        lemma_sum_same(n, f, |h: int| g(h) + s(h));
        lemma_sum_plus(n, g, s);
        lemma_sum_single(n, last, s);
        assert forall|h: int| 0 <= h < n && !rest.contains(h) implies #[trigger] g(h) == 0 by {
            if h != last && at.contains(h) {
                let k = choose|k: int| 0 <= k < at.len() && at[k] == h;
                assert(rest[k] == h);
            }
        }
        assert forall|k: int| 0 <= k < rest.len() implies 0 <= #[trigger] rest[k] < n by {
            assert(rest[k] == at[k]);
        }
        lemma_sum_listed(n, g, rest);
        let k = (at.len() - 1) as nat;
        let fa = |k: int| f(at[k]);
        lemma_sum_same(k, |k: int| g(rest[k]), fa);
        assert(sum(at.len(), fa) == sum(k, fa) + fa(k as int));
    }
}

/// The extension of a list of matrices, of which all but some are zero, is that of these
/// matrices, each weighted by the factor of its place.
pub proof fn law_listed(t: Seq<int>, at: Seq<int>, point: Seq<int>, batch: Seq<int>)
    requires
        at.no_duplicates(),
        forall|k: int| 0 <= k < at.len() ==> 0 <= #[trigger] at[k] < pow2(batch.len()),
        forall|h: int, x: int|
            0 <= h < pow2(batch.len()) && !at.contains(h) && 0 <= x < pow2(point.len())
                ==> #[trigger] t[h * pow2(point.len()) + x] == 0,
    ensures
        mle(t, point + batch) == sum(
            at.len(),
            |k: int| beta(batch, at[k]) * mle(part_of(t, pow2(point.len()), at[k]), point),
        ),
{
    let (n, size) = (pow2(batch.len()), pow2(point.len()));
    lemma_mle_grid(t, point, batch);
    let f = |h: int| sum(size, |x: int| t[h * size + x] * beta(point, x)) * beta(batch, h);
    assert forall|h: int| 0 <= h < n && !at.contains(h) implies #[trigger] f(h) == 0 by {
        let g = |x: int| t[h * size + x] * beta(point, x);
        assert forall|x: int| 0 <= x < size implies #[trigger] g(x) == 0 by {
            assert(t[h * pow2(point.len()) + x] == 0);
            assert(0 * beta(point, x) == 0);
        }
        lemma_sum_zero(size, g);
        assert(0 * beta(batch, h) == 0);
    }
    lemma_sum_listed(n, f, at);
    let goal = |k: int| beta(batch, at[k]) * mle(part_of(t, pow2(point.len()), at[k]), point);
    let listed = |k: int| f(at[k]);
    assert forall|k: int| 0 <= k < at.len() implies #[trigger] listed(k) == goal(k) by {
        let h = at[k];
        let part = part_of(t, size, h);
        lemma_sum_same(
            size,
            |x: int| part[x] * beta(point, x),
            |x: int| t[h * size + x] * beta(point, x),
        );
        let (x, y) = (beta(batch, h), mle(part, point));
        assert(x * y == y * x) by (nonlinear_arith);
    }
    lemma_sum_same(at.len(), listed, goal);
}

/// The claims that are left on the input hold of it, where the evaluations are those of its
/// matrices: a single claim on all of it, whose other matrices are zero, or a claim on each
/// matrix.
pub proof fn law_input_claims_hold<F: PrimeField>(
    num_claims: int,
    t: Seq<int>,
    at: Seq<int>,
    challenges: Seq<F>,
    batch: Seq<F>,
    point: Seq<F>,
    evaluations: Seq<F>,
    r: Seq<Claim<F>>,
)
    requires
        F::modulus() > 1,
        is_input_claims(num_claims, challenges, batch, point, evaluations, r),
        at.no_duplicates(),
        forall|k: int| 0 <= k < at.len() ==> 0 <= #[trigger] at[k] < pow2(batch.len()),
        challenges.len() == at.len(),
        evaluations.len() == at.len(),
        forall|k: int|
            0 <= k < at.len() ==> stands_for(
                #[trigger] challenges[k],
                beta(residues(batch), at[k]),
            ),
        forall|k: int|
            0 <= k < at.len() ==> stands_for(
                #[trigger] evaluations[k],
                mle(part_of(t, pow2(point.len()), at[k]), residues(point)),
            ),
        forall|h: int, x: int|
            0 <= h < pow2(batch.len()) && !at.contains(h) && 0 <= x < pow2(point.len())
                ==> #[trigger] t[h * pow2(point.len()) + x] == 0,
    ensures
        num_claims == 1 ==> r.len() == 1 && stands_for(
            r[0].eval,
            mle(t, residues(r[0].point@)),
        ),
        num_claims != 1 ==> r.len() == at.len() && forall|k: int|
            0 <= k < at.len() ==> stands_for(
                (#[trigger] r[k]).eval,
                mle(part_of(t, pow2(point.len()), at[k]), residues(r[k].point@)),
            ),
{
    let m = F::modulus();
    if num_claims == 1 {
        let (p, b) = (residues(point), residues(batch));
        let size = pow2(point.len());
        assert(residues(r[0].point@) =~= p + b);
        law_listed(t, at, p, b);
        let goal = |k: int| beta(b, at[k]) * mle(part_of(t, size, at[k]), p);
        let (c, e) = (residues(challenges), residues(evaluations));
        let given = |k: int| c[k] * e[k];
        assert forall|k: int| 0 <= k < at.len() implies cong(#[trigger] given(k), goal(k), m) by {
            let (x, y) = (
                beta(b, at[k]),
                mle(part_of(t, pow2(point.len()), at[k]), residues(point)),
            );
            assert(stands_for(challenges[k], x));
            lemma_residue_cong(challenges[k], x);
            lemma_residue_cong(evaluations[k], y);
            lemma_cong_times(c[k], x, e[k], y, m);
        }
        lemma_cong_sum(at.len(), given, goal, m);
        lemma_sum_same(at.len(), given, |k: int| c[k] * e[k]);
        lemma_sum_same(
            at.len(),
            goal,
            |k: int| beta(b, at[k]) * mle(part_of(t, pow2(p.len()), at[k]), p),
        );
    } else {
        assert forall|k: int| 0 <= k < at.len() implies stands_for(
            (#[trigger] r[k]).eval,
            mle(part_of(t, pow2(point.len()), at[k]), residues(r[k].point@)),
        ) by {
            assert(stands_for(
                evaluations[k],
                mle(part_of(t, pow2(point.len()), at[k]), residues(point)),
            ));
        }
    }
}

/// The places of a row are its first ones, in their order.
proof fn lemma_row_places(i: int, width: int, used: nat, len: int)
    requires
        0 <= i,
        used <= width,
    ensures
        row_places(i, width, used, len).len() == if len <= i * width {
            0
        } else if len - i * width < used {
            len - i * width
        } else {
            used as int
        },
        forall|k: int|
            0 <= k < row_places(i, width, used, len).len() ==> #[trigger] row_places(
                i,
                width,
                used,
                len,
            )[k] == i * width + k,
    decreases used,
{
    if used > 0 {
        lemma_row_places(i, width, (used - 1) as nat, len);
    }
}

/// The matrices that are batched are those that are not padding, each once: the first of
/// each of the first rows.
pub proof fn law_places(rows: nat, width: int, used: nat, len: int)
    requires
        used <= width,
        width > 0,
    ensures
        places(rows, width, used, len).no_duplicates(),
        forall|p: int| #[trigger]
            places(rows, width, used, len).contains(p) <==> 0 <= p < len && p / width < rows && p
                % width < used,
    decreases rows,
{
    let all = places(rows, width, used, len);
    if rows > 0 {
        let r = (rows - 1) as nat;
        let i = rows - 1;
        law_places(r, width, used, len);
        let rest = places(r, width, used, len);
        let row = row_places(i, width, used, len);
        lemma_row_places(i, width, used, len);
        assert forall|k: int| 0 <= k < row.len() implies (#[trigger] row[k]) / width == i && row[k]
            % width == k by {
            lemma_fundamental_div_mod_converse(row[k], width, i, k);
        }
        assert forall|k: int| 0 <= k < rest.len() implies (#[trigger] rest[k]) / width < i by {
            assert(rest.contains(rest[k]));
        }
        assert(all.no_duplicates()) by {
            assert forall|a: int, b: int| 0 <= a < b < all.len() implies all[a] != all[b] by {
                if b < rest.len() {
                    assert(rest[a] != rest[b]);
                } else if a < rest.len() {
                    assert(all[a] == rest[a]);
                    assert(all[b] == row[b - rest.len()]);
                } else {
                    assert(all[a] == row[a - rest.len()]);
                    assert(all[b] == row[b - rest.len()]);
                    assert(row[a - rest.len()] % width == a - rest.len());
                    assert(row[b - rest.len()] % width == b - rest.len());
                }
            }
        }
        assert forall|p: int| #[trigger]
            all.contains(p) <==> 0 <= p < len && p / width < rows && p % width < used by {
            if all.contains(p) {
                let k = choose|k: int| 0 <= k < all.len() && all[k] == p;
                if k < rest.len() {
                    assert(rest[k] == p);
                    assert(rest.contains(p));
                } else {
                    assert(row[k - rest.len()] == p);
                    assert(0 <= i * width) by (nonlinear_arith)
                        requires
                            i >= 0,
                            width > 0,
                    ;
                }
            }
            if 0 <= p < len && p / width < rows && p % width < used {
                if p / width < i {
                    assert(rest.contains(p));
                    let k = choose|k: int| 0 <= k < rest.len() && rest[k] == p;
                    assert(all[k] == p);
                } else {
                    lemma_fundamental_div_mod(p, width);
                    lemma_mod_bound(p, width);
                    let j = p % width;
                    assert(p / width == i);
                    assert(width * i == i * width) by (nonlinear_arith);
                    assert(row[j] == i * width + j);
                    assert(all[rest.len() + j] == p);
                }
            }
        }
    }
}

/// The prover's tables sum to the batched extensions of the masked matrices.
pub proof fn law_tables_sum<F: PrimeField>(
    mask: AttentionMask<Element>,
    data: MaskProvingData<F>,
    tables: Seq<Vec<F>>,
    eq: Seq<int>,
    h: nat,
)
    requires
        F::modulus() > 1,
        is_mask_tables(mask, data, tables),
        eq.len() == 2 * h,
        all_stand_for(data.eq_evals@, betas(eq)),
        data.batching_challenges@.len() == data.input_polys@.len(),
        forall|k: int|
            0 <= k < data.input_polys@.len() ==> (#[trigger] data.input_polys@[k])@.len() == pow2(
                eq.len(),
            ),
    ensures
        cong(
            sum(
                pow2(eq.len()),
                |x: int|
                    sum(
                        data.input_polys@.len(),
                        |k: int|
                            summand(
                                Seq::new(tables.len(), |t: int| tables[t]@[x].residue()),
                                residues(data.batching_challenges@),
                                true,
                                mask.negative_infinity as int % F::modulus(),
                                k,
                            ),
                    ),
            ),
            sum(
                data.input_polys@.len(),
                |k: int|
                    residues(data.batching_challenges@)[k] * mle(
                        masked_matrix(
                            lt_table(mask.span, pow2(h)),
                            residues(data.input_polys@[k]@),
                            mask.negative_infinity as int,
                        ),
                        eq,
                    ),
            ),
            F::modulus(),
        ),
{
    let m = F::modulus();
    let n = pow2(eq.len());
    let count = data.input_polys@.len();
    let neg = mask.negative_infinity as int;
    let c = residues(data.batching_challenges@);
    lemma_log2_pow2(eq.len());
    assert((2 * h) / 2 == h);
    lemma_pow2_adds(h, h);
    let lt = lt_table(mask.span, pow2(h));
    let inputs = Seq::new(count, |k: int| residues(data.input_polys@[k]@));
    let given = |x: int|
        sum(
            count,
            |k: int|
                summand(
                    Seq::new(tables.len(), |t: int| tables[t]@[x].residue()),
                    residues(data.batching_challenges@),
                    true,
                    mask.negative_infinity as int % F::modulus(),
                    k,
                ),
        );
    let plain = |x: int|
        sum(
            inputs.len(),
            |k: int| summand(at_place(betas(eq), lt, inputs, x), c, true, neg, k),
        );
    lemma_mod_twice(neg, m);
    assert forall|x: int| 0 <= x < n implies cong(#[trigger] given(x), plain(x), m) by {
        let v = Seq::new(tables.len(), |t: int| tables[t]@[x].residue());
        let w = at_place(betas(eq), lt, inputs, x);
        lemma_residue_cong(tables[0]@[x], betas(eq)[x]);
        lemma_residue_cong(tables[1]@[x], lt[x]);
        let a = |k: int| summand(v, c, true, neg % m, k);
        let b = |k: int| summand(w, c, true, neg, k);
        assert forall|k: int| 0 <= k < count implies cong(#[trigger] a(k), b(k), m) by {
            assert(tables[2 + k]@ == data.input_polys@[k]@);
            let i = v[2 + k];
            assert(w[2 + k] == i);
            let (p, q) = (v[1], w[1]);
            lemma_cong_times(p, q, i, i, m);
            lemma_cong_minus(1, 1, p, q, m);
            lemma_cong_times(neg % m, neg, 1 - p, 1 - q, m);
            lemma_cong_plus(p * i, q * i, (neg % m) * (1 - p), neg * (1 - q), m);
            lemma_cong_times(v[0], w[0], c[k], c[k], m);
            lemma_cong_times(
                v[0] * c[k],
                w[0] * c[k],
                p * i + (neg % m) * (1 - p),
                q * i + neg * (1 - q),
                m,
            );
        }
        lemma_cong_sum(count, a, b, m);
        lemma_sum_same(
            count,
            a,
            |k: int|
                summand(
                    Seq::new(tables.len(), |t: int| tables[t]@[x].residue()),
                    residues(data.batching_challenges@),
                    true,
                    mask.negative_infinity as int % F::modulus(),
                    k,
                ),
        );
        lemma_sum_same(
            count,
            b,
            |k: int| summand(at_place(betas(eq), lt, inputs, x), c, true, neg, k),
        );
    }
    lemma_cong_sum(n, given, plain, m);
    law_mask_sum(eq, lt, inputs, c, neg);
    lemma_sum_same(
        count,
        |k: int| c[k] * mle(masked_matrix(lt, inputs[k], neg), eq),
        |k: int|
            residues(data.batching_challenges@)[k] * mle(
                masked_matrix(
                    lt_table(mask.span, pow2(h)),
                    residues(data.input_polys@[k]@),
                    mask.negative_infinity as int,
                ),
                eq,
            ),
    );
    lemma_sum_same(
        n,
        plain,
        |x: int|
            sum(
                inputs.len(),
                |k: int| summand(at_place(betas(eq), lt, inputs, x), c, true, neg, k),
            ),
    );
}

/// Claims are taken where they are all at one point and there is one for each output, or,
/// for a single output, one for each of its matrices.
pub proof fn law_claims_taken<F: PrimeField>(claims: Seq<Claim<F>>, shapes: Seq<Shape>)
    requires
        shapes.len() == 1 ==> shapes[0]@.len() >= 2,
    ensures
        preamble_refusal(claims, shapes) is None <==> {
            &&& forall|k: int|
                0 <= k < claims.len() ==> residues((#[trigger] claims[k]).point@) == residues(
                    claims[0].point@,
                )
            &&& claims.len() == shapes.len() || (claims.len() != 1 && shapes.len() == 1
                && claims.len() == numel(shapes[0]@.take(shapes[0]@.len() - 2)))
        },
{
    if preamble_refusal(claims, shapes) is None {
        assert forall|k: int| 0 <= k < claims.len() implies residues((#[trigger] claims[k]).point@)
            == residues(claims[0].point@) by {
            assert(same_point(claims[k], claims[0]));
        }
    }
}

/// Claims fit an input of up to four dimensions: a matrix has a single claim; a list or a
/// table of matrices has one claim on all of it or one claim on each matrix that is not
/// padding.
pub proof fn law_claims_fit<F: PrimeField>(claims: Seq<Claim<F>>, d: Seq<usize>, u: Seq<usize>)
    requires
        d.len() == u.len(),
    ensures
        batch_refusal(claims, d, u) is None <==> {
            ||| d.len() == 2 && claims.len() == 1
            ||| (d.len() == 3 || d.len() == 4) && claims.len() == 1 && claims[0].point@.len()
                == num_vars(d)
            ||| d.len() == 3 && claims.len() != 1 && claims.len() == u[0]
            ||| d.len() == 4 && claims.len() != 1 && claims.len() == u[0] * u[1]
        },
{
}

/// Where the matrices of an input that are not padding lie: those of a list from its front,
/// those of a table in the first columns of its first rows.
pub open spec fn counts_for(d: Seq<usize>, u: Seq<usize>, h: int) -> bool {
    if d.len() == 4 {
        (h / d[1] as int) < u[0] && (h % d[1] as int) < u[1]
    } else {
        h < u[0]
    }
}

/// What the prover's tables sum to is the claim on the output: the extension, at the point of
/// the claim, of the matrices that are not padding, masked, and of zeros elsewhere.
pub proof fn law_output_is_proved<F: PrimeField>(
    mask: AttentionMask<Element>,
    claim: Claim<F>,
    input: Tensor<F>,
    u: Seq<usize>,
    drawn: Seq<F>,
    data: MaskProvingData<F>,
    tables: Seq<Vec<F>>,
    h: nat,
    t: Seq<int>,
)
    requires
        F::modulus() > 1,
        3 <= input.shape@.len() <= 4,
        u.len() == input.shape@.len(),
        input.shape@.last() == pow2(h),
        input.shape@[input.shape@.len() - 2] == pow2(h),
        two_vars(input.shape@) == 2 * h,
        claim.point@.len() >= 2 * h,
        input.shape@.len() == 4 ==> u[1] <= input.shape@[1] && input.shape@[1] > 0,
        input.data@.len() == pow2(claim.point@.len()),
        data.belongs_to(seq![claim], input, u, drawn),
        is_mask_tables(mask, data, tables),
        forall|g: int|
            0 <= g < pow2((claim.point@.len() - 2 * h) as nat) && counts_for(input.shape@, u, g)
                ==> #[trigger] part_of(t, pow2(2 * h), g) == masked_matrix(
                lt_table(mask.span, pow2(h)),
                part_of(residues(input.data@), pow2(2 * h), g),
                mask.negative_infinity as int,
            ),
        forall|g: int, x: int|
            0 <= g < pow2((claim.point@.len() - 2 * h) as nat) && !counts_for(input.shape@, u, g)
                && 0 <= x < pow2(2 * h) ==> #[trigger] t[g * pow2(2 * h) + x] == 0,
    ensures
        cong(
            sum(
                pow2(2 * h),
                |x: int|
                    sum(
                        data.input_polys@.len(),
                        |k: int|
                            summand(
                                Seq::new(tables.len(), |i: int| tables[i]@[x].residue()),
                                residues(data.batching_challenges@),
                                true,
                                mask.negative_infinity as int % F::modulus(),
                                k,
                            ),
                    ),
            ),
            mle(t, residues(claim.point@)),
            F::modulus(),
        ),
{
    let m = F::modulus();
    let d = input.shape@;
    let v = (2 * h) as int;
    let (eq, batch) = (residues(claim.point@.take(v)), residues(claim.point@.skip(v)));
    assert(residues(claim.point@) =~= eq + batch);
    lemma_pow2_adds(h, h);
    lemma_pow2_adds(2 * h, batch.len());
    let size = pow2(2 * h) as int;
    let n = pow2(batch.len()) as int;
    let (rows, width, used) = (u[0] as nat, batch_width(d), batch_used(d, u));
    let at = places(rows, width, used, n);
    law_places(rows, width, used, n);
    assert forall|g: int| 0 <= g < n implies (#[trigger] at.contains(g) <==> counts_for(d, u, g)) by {
        if d.len() == 3 {
            lemma_fundamental_div_mod_converse(g, 1, g, 0);
        }
    }
    assert forall|k: int| 0 <= k < at.len() implies 0 <= #[trigger] at[k] < n by {
        assert(at.contains(at[k]));
    }
    assert forall|k: int| 0 <= k < data.input_polys@.len() implies (
    #[trigger] data.input_polys@[k])@.len() == pow2(eq.len()) by {
        let g = at[k];
        assert(0 <= g * size && g * size + size <= n * size) by (nonlinear_arith)
            requires
                0 <= g < n,
                size >= 0,
        ;
        assert(n * size == size * n) by (nonlinear_arith);
    }
    law_tables_sum(mask, data, tables, eq, h);
    assert forall|g: int, x: int|
        0 <= g < pow2(batch.len()) && !at.contains(g) && 0 <= x < pow2(eq.len())
            implies #[trigger] t[g * pow2(eq.len()) + x] == 0 by {
        assert(t[g * pow2(2 * h) + x] == 0);
    }
    law_listed(t, at, eq, batch);
    let c = residues(data.batching_challenges@);
    let lt = lt_table(mask.span, pow2(h));
    let neg = mask.negative_infinity as int;
    let left = |k: int|
        residues(data.batching_challenges@)[k] * mle(
            masked_matrix(
                lt_table(mask.span, pow2(h)),
                residues(data.input_polys@[k]@),
                mask.negative_infinity as int,
            ),
            eq,
        );
    let right = |k: int| beta(batch, at[k]) * mle(part_of(t, pow2(eq.len()), at[k]), eq);
    assert forall|k: int| 0 <= k < at.len() implies cong(#[trigger] left(k), right(k), m) by {
        let g = at[k];
        assert(at.contains(g));
        assert(0 <= g * size && g * size + size <= n * size) by (nonlinear_arith)
            requires
                0 <= g < n,
                size >= 0,
        ;
        assert(n * size == size * n) by (nonlinear_arith);
        let poly = data.input_polys@[k]@;
        assert(poly == input.data@.subrange(g * size, g * size + size));
        assert(residues(poly) =~= part_of(residues(input.data@), pow2(2 * h), g));
        assert(part_of(t, pow2(2 * h), g) == masked_matrix(lt, residues(poly), neg));
        let f = data.batching_challenges@[k];
        assert(stands_for(f, beta(batch, g)));
        lemma_residue_cong(f, beta(batch, g));
        let y = mle(masked_matrix(lt, residues(poly), neg), eq);
        lemma_cong_times(c[k], beta(batch, g), y, y, m);
    }
    lemma_cong_sum(at.len(), left, right, m);
    lemma_sum_same(
        at.len(),
        right,
        |k: int| beta(batch, at[k]) * mle(part_of(t, pow2(eq.len()), at[k]), eq),
    );
}

/// As many coordinates are drawn as tell the matrices apart that are not padding, where
/// there is a claim on each; for a single claim none is drawn.
pub proof fn law_drawn(num_claims: int, d: Seq<usize>, u: Seq<usize>)
    requires
        d.len() == u.len(),
        d.len() == 3 || d.len() == 4,
    ensures
        num_claims == 1 ==> drawn_count(num_claims, d, u) == 0,
        num_claims != 1 && d.len() == 3 ==> pow2(drawn_count(num_claims, d, u)) >= u[0],
        num_claims != 1 && d.len() == 3 && u[0] > 0 ==> pow2(drawn_count(num_claims, d, u)) < 2
            * u[0],
        num_claims != 1 && d.len() == 4 ==> pow2(drawn_count(num_claims, d, u)) >= u[0] * u[1],
        num_claims != 1 && d.len() == 4 && u[0] * u[1] > 0 ==> pow2(drawn_count(num_claims, d, u))
            < 2 * (u[0] * u[1]),
{
    let n = if d.len() == 4 {
        u[0] as nat * u[1] as nat
    } else {
        u[0] as nat
    };
    lemma_next_pow2(n);
    assert(u[0] as nat * 1 == u[0]);
}

/// An input is masked where it is no wider than the mask and its rank is that of a matrix, or
/// of a list or a table of matrices; what comes of it has its shape.
pub proof fn law_taken(
    mask: AttentionMask<Element>,
    input: Tensor<Element>,
    u: Seq<usize>,
    out: Tensor<Element>,
)
    ensures
        mask.refusal(input, u) is None <==> input.shape@.last() <= mask.dim_size && (u.len() == 2
            || u.len() == 3 || u.len() == 4),
        mask.accepts(input, u, out) ==> mask.refusal(input, u) is None && out.shape@
            == input.shape@ && out.data@.len() == input.data@.len(),
        mask.accepts(input, u, out) <==> mask.refusal(input, u) is None && mask.masks(
            input,
            u,
            out,
        ),
{
}

} // verus!
