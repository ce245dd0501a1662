//! What holds between the evaluation, the prover and the verifier of a mask.
use vstd::prelude::*;
use vstd::arithmetic::power2::{lemma_pow2_adds, pow2};
use vstd::arithmetic::div_mod::*;
use crate::attention_mask::prove::{batch_dims, column_bound, decomposed, is_mask_sumcheck, lemma_padded_dim, matrix_vars, provable, weighted, window, MaskProvingData, MaskSumcheck};
use crate::attention_mask::verify::{bounded, column_part, local_product, padding_columns, row_part, MaskVerifyingData};
use crate::attention_mask::{input_offset, mask_summand, mask_value, masked_value, AttentionMask, AttentionMaskProof, AttentionSpan};
use crate::batching::{dim_points, factors};
use crate::claim::{Claim, SubClaim};
use crate::congruence::{cong, lemma_cong_minus, lemma_cong_plus, lemma_cong_sum, lemma_cong_times, lemma_mle_cong, lemma_residue_cong, lemma_stands_cong};
use crate::error::Error;
use crate::field::{all_stand_for, residues, stands_for, PrimeField};
use crate::mle::{beta, betas, identity, lemma_betas_sum, lemma_identity, mle};
use crate::shape::{in_bounds, lemma_next_pow2, lemma_num_vars_skip, lemma_num_vars_split, lemma_unflat, log2_ceil, next_pow2, num_vars, numel, unflat};
use crate::sum::{lemma_sum_same, lemma_sum_scale, lemma_sum_split, lemma_sum_swap, lemma_sum_zero, sum};
use crate::tensor::{Element, Tensor};
use crate::triangular::{lemma_lower_row, lemma_matrix_table, lemma_offset, lemma_zeroifier, lower_triangular, matrix_mle, matrix_table, offset_matrix, onward, shift_column, upper_triangular, upto, zeroifier};

verus! {

/// The tables of a mask, multiplied entry by entry, are one where the mask keeps
/// a value and zero where it replaces it.
pub proof fn law_mask_polys(span: AttentionSpan, seq_len: int, i: int, j: int)
    requires
        0 <= i < seq_len,
        0 <= j < seq_len,
    ensures
        lower_triangular(i, j) * (if decomposed(span, seq_len) {
            offset_matrix(window(span), i, j)
        } else {
            1
        }) == if span.keeps(i, j) {
            1int
        } else {
            0int
        },
{
}

/// The sumcheck on the second matrix of a local mask sums to the claim that it
/// starts from: the extension of the matrix, less that of its added columns.
pub proof fn law_local_mask_sum(span: AttentionSpan, row: Seq<int>, col: Seq<int>)
    requires
        row.len() == col.len(),
        span is Local,
        window(span) < pow2(row.len()),
    ensures
        sum(pow2(row.len()), |k: int| upto(row, k) * shift_column(col, window(span), k))
            == matrix_mle(|i: int, j: int| offset_matrix(window(span), i, j), row, col)
            - padding_columns(span, col),
{
    lemma_offset(row, col, window(span));
}

/// At the end of the sumcheck on the second matrix, the extensions of its two
/// tables multiply to what the verifier computes.
pub proof fn law_local_mask_end(
    span: AttentionSpan,
    row: Seq<int>,
    col: Seq<int>,
    end: Seq<int>,
    upper: Seq<int>,
    shift: Seq<int>,
)
    requires
        row.len() == col.len(),
        end.len() == row.len(),
        span is Local,
        upper.len() == pow2(row.len()),
        shift.len() == pow2(row.len()),
        forall|k: int| 0 <= k < upper.len() ==> #[trigger] upper[k] == upto(row, k),
        forall|k: int|
            0 <= k < shift.len() ==> #[trigger] shift[k] == shift_column(col, window(span), k),
    ensures
        mle(upper, end) * mle(shift, end) == local_product(span, row, col, end),
{
    let n = pow2(row.len());
    lemma_zeroifier(row, end);
    lemma_sum_same(n, |k: int| upper[k] * beta(end, k), |k: int| upto(row, k) * beta(end, k));
    let s = window(span);
    let f = |k: int| shift[k] * beta(end, k);
    let g = |k: int|
        if k < s {
            0
        } else {
            beta(end, k) * beta(col, k - s)
        };
    assert forall|k: int| 0 <= k < n implies #[trigger] f(k) == g(k) by {
        assert(shift[k] == shift_column(col, s, k));
        let x = shift[k];
        let y = beta(end, k);
        assert(x * y == y * x) by (nonlinear_arith);
    }
    lemma_sum_same(n, f, g);
}

/// The indices below `n`, weighted by the factors of a point.
proof fn lemma_bounded(p: Seq<int>, n: int)
    requires
        1 <= n <= pow2(p.len()),
    ensures
        sum(pow2(p.len()), |j: int| column_bound(n, j) * beta(p, j)) == bounded(p, n),
{
    let m = pow2(p.len());
    let f = |j: int| column_bound(n, j) * beta(p, j);
    lemma_sum_split(n as nat, (m - n) as nat, f);
    assert forall|j: int| 0 <= j < n implies #[trigger] f(j) == beta(p, j) by {
        assert(1 * beta(p, j) == beta(p, j));
    }
    lemma_sum_same(n as nat, f, |j: int| beta(p, j));
    let g = |j: int| f(n as nat + j);
    assert forall|j: int| 0 <= j < m - n implies #[trigger] g(j) == 0 by {
        assert(0 * beta(p, n + j) == 0);
    }
    lemma_sum_zero((m - n) as nat, g);
}

/// The extensions of the two bounds are what the verifier computes for them.
pub proof fn law_bounds(row: Seq<int>, col: Seq<int>, n: int)
    requires
        row.len() == col.len(),
        1 <= n <= pow2(row.len()),
    ensures
        mle(matrix_table(|i: int, j: int| column_bound(n, j), pow2(row.len())), col + row)
            == bounded(col, n),
        mle(matrix_table(|i: int, j: int| column_bound(n, i), pow2(row.len())), col + row)
            == bounded(row, n),
{
    let m = pow2(row.len());
    let by_col = |i: int, j: int| column_bound(n, j);
    let by_row = |i: int, j: int| column_bound(n, i);
    lemma_matrix_table(by_col, row, col);
    lemma_matrix_table(by_row, row, col);
    lemma_bounded(col, n);
    lemma_bounded(row, n);
    let ones = |i: int| beta(row, i);
    let f = |i: int| sum(m, |j: int| by_col(i, j) * beta(col, j)) * beta(row, i);
    let c = bounded(col, n);
    assert forall|i: int| 0 <= i < m implies #[trigger] f(i) == c * ones(i) by {
        lemma_sum_same(
            m,
            |j: int| by_col(i, j) * beta(col, j),
            |j: int| column_bound(n, j) * beta(col, j),
        );
    }
    lemma_sum_same(m, f, |i: int| c * ones(i));
    lemma_sum_scale(m, c, ones);
    lemma_betas_sum(row);
    assert(c * 1 == c);
    let g = |i: int| sum(m, |j: int| by_row(i, j) * beta(col, j)) * beta(row, i);
    let h = |i: int| column_bound(n, i) * beta(row, i);
    assert forall|i: int| 0 <= i < m implies #[trigger] g(i) == h(i) by {
        let b = column_bound(n, i);
        let cols = |j: int| beta(col, j);
        lemma_sum_scale(m, b, cols);
        lemma_sum_same(m, |j: int| by_row(i, j) * beta(col, j), |j: int| b * cols(j));
        lemma_betas_sum(col);
        assert(b * 1 == b);
    }
    lemma_sum_same(m, g, h);
}

/// A masked value is congruent where the mask and the value for minus infinity are.
proof fn lemma_masked_cong(a: int, b: int, input: int, neg: int, neg2: int, m: int)
    requires
        m > 0,
        cong(a, b, m),
        cong(neg, neg2, m),
    ensures
        cong(masked_value(a, input, neg), masked_value(b, input, neg2), m),
{
    lemma_cong_times(a, b, input, input, m);
    lemma_cong_minus(1, 1, a, b, m);
    lemma_cong_times(neg, neg2, 1 - a, 1 - b, m);
    lemma_cong_plus(a * input, b * input, neg * (1 - a), neg2 * (1 - b), m);
}

/// The tables of an honest prover, evaluated at the end of the sumcheck, are
/// congruent to what the verifier computes for them.
proof fn lemma_honest_tables<F: PrimeField>(
    mask: AttentionMask<Element>,
    data: MaskProvingData<F>,
    s: MaskSumcheck<F>,
    n: nat,
    h: nat,
    point: Seq<F>,
    eq_point: Seq<F>,
    w: Seq<int>,
)
    requires
        n >= 1,
        h == log2_ceil(n),
        is_mask_sumcheck(mask, data, n, pow2(h), s),
        point.len() == 2 * h,
        eq_point.len() == 2 * h,
        all_stand_for(data.eq_evals@, betas(residues(eq_point))),
        w.len() == s.tables@.len(),
        forall|t: int|
            0 <= t < w.len() ==> cong(
                #[trigger] w[t],
                mle(residues(s.tables@[t]@), residues(point)),
                F::modulus(),
            ),
        F::modulus() > 1,
    ensures
        cong(w[0], identity(residues(point), residues(eq_point)), F::modulus()),
        cong(w[1], zeroifier(column_part(point), row_part(point)), F::modulus()),
        cong(w[2], bounded(column_part(point), n as int), F::modulus()),
        cong(w[3], bounded(row_part(point), n as int), F::modulus()),
{
    let m = F::modulus();
    let p = residues(point);
    let q = residues(eq_point);
    let col = column_part(point);
    let row = row_part(point);
    assert(p =~= col + row);
    lemma_next_pow2(n);
    lemma_pow2_adds(h, h);
    assert(h + h == 2 * h);
    let side = pow2(h);
    assert(next_pow2(n) == side);
    // The equality table.
    assert(cong(w[0], mle(residues(s.tables@[0]@), p), m));
    lemma_mle_cong(s.tables@[0]@, betas(q), p, m);
    lemma_identity(p, q);
    let f = |i: int| betas(q)[i] * beta(p, i);
    let g = |i: int| beta(p, i) * beta(q, i);
    assert forall|i: int| 0 <= i < pow2(p.len()) implies #[trigger] f(i) == g(i) by {
        let x = beta(q, i);
        let y = beta(p, i);
        assert(betas(q)[i] == x);
        assert(x * y == y * x) by (nonlinear_arith);
    }
    lemma_sum_same(pow2(p.len()), f, g);
    // The lower triangular matrix.
    let lower = |i: int, j: int| lower_triangular(i, j);
    assert(cong(w[1], mle(residues(s.tables@[1]@), p), m));
    lemma_mle_cong(s.tables@[1]@, matrix_table(lower, side), p, m);
    lemma_matrix_table(lower, row, col);
    lemma_zeroifier(col, row);
    // The bounds.
    assert(cong(w[2], mle(residues(s.tables@[2]@), p), m));
    assert(cong(w[3], mle(residues(s.tables@[3]@), p), m));
    lemma_mle_cong(
        s.tables@[2]@,
        matrix_table(|i: int, j: int| column_bound(n as int, j), side),
        p,
        m,
    );
    lemma_mle_cong(
        s.tables@[3]@,
        matrix_table(|i: int, j: int| column_bound(n as int, i), side),
        p,
        m,
    );
    law_bounds(row, col, n as int);
}

/// The lower triangular matrix with its columns fixed at a point takes, in row `r`, the
/// sum of its row weighted by the factors of the point. That is the sum of the column `r`
/// of the upper triangular matrix.
pub proof fn law_fixed_columns(p: Seq<int>, r: int)
    requires
        0 <= r < pow2(p.len()),
    ensures
        upto(p, r) == sum(pow2(p.len()), |c: int| lower_triangular(r, c) * beta(p, c)),
        upto(p, r) == sum(pow2(p.len()), |c: int| upper_triangular(c, r) * beta(p, c)),
{
    lemma_lower_row(p, r);
    lemma_sum_same(
        pow2(p.len()),
        |c: int| upper_triangular(c, r) * beta(p, c),
        |c: int| lower_triangular(r, c) * beta(p, c),
    );
}

/// The lower triangular matrix with its rows fixed at a point takes, in column `c`, the
/// sum of its column weighted by the factors of the point.
pub proof fn law_fixed_rows(p: Seq<int>, c: int)
    requires
        0 <= c < pow2(p.len()),
    ensures
        onward(p, c) == sum(pow2(p.len()), |r: int| lower_triangular(r, c) * beta(p, r)),
{
    let n = pow2(p.len());
    let f = |r: int| lower_triangular(r, c) * beta(p, r);
    lemma_sum_split(c as nat, (n - c) as nat, f);
    assert forall|r: int| 0 <= r < c implies #[trigger] f(r) == 0 by {
        assert(0 * beta(p, r) == 0);
    }
    lemma_sum_zero(c as nat, f);
    let tail = |j: int| f(c as nat + j);
    let g = |j: int| beta(p, c + j);
    assert forall|j: int| 0 <= j < n - c implies #[trigger] tail(j) == g(j) by {
        let x = beta(p, c + j);
        assert(1 * x == x);
    }
    lemma_sum_same((n - c) as nat, tail, g);
}

/// The prover and the verifier of a claim batch the same matrices, those that are not
/// padding, by the same challenges: they have the same data of it. A single matrix has
/// the challenge one.
pub proof fn law_same_data<F: PrimeField>(
    point: Seq<F>,
    input: Tensor<F>,
    data: MaskProvingData<F>,
    verifying: MaskVerifyingData<F>,
)
    requires
        input.unpadded_shape@.len() >= 2,
        data.belongs_to(point, input),
        verifying.belongs_to(point, input.shape@, input.unpadded_shape@),
    ensures
        residues(data.batching_challenges@) == residues(verifying.batching_challenges@),
        data.batching_point@ == verifying.batching_point@,
        all_stand_for(data.eq_evals@, betas(residues(verifying.eq_point@))),
        data.batching_challenges@.len() == numel(batch_dims(input.unpadded_shape@)),
        data.input_polys@.len() == data.batching_challenges@.len(),
        input.unpadded_shape@.len() == 2 ==> data.batching_challenges@.len() == 1 && stands_for(
            data.batching_challenges@[0],
            1,
        ),
{
    let a = residues(data.batching_challenges@);
    let b = residues(verifying.batching_challenges@);
    assert forall|k: int| 0 <= k < a.len() implies #[trigger] a[k] == b[k] by {
        let x = data.batching_challenges@[k];
        let y = verifying.batching_challenges@[k];
        assert(x.residue() == y.residue());
    }
    assert(a =~= b);
    if input.unpadded_shape@.len() == 2 {
        let none = batch_dims(input.unpadded_shape@);
        assert(none.len() == 0);
        assert(unflat(none, 0).len() == 0);
        let x = data.batching_challenges@[0];
        assert(stands_for(x, factors(dim_points(input.shape@, residues(point)), unflat(none, 0))));
    }
}

/// Where the prover is honest, the verifier finds at the end of the sumcheck what
/// it computes: the expressions, at the evaluations of the prover's tables, sum to
/// the value that the verifier asks for.
pub proof fn law_honest_mask_accepted<F: PrimeField, P>(
    mask: AttentionMask<Element>,
    data: MaskProvingData<F>,
    s: MaskSumcheck<F>,
    n: nat,
    h: nat,
    verifying: MaskVerifyingData<F>,
    proof: AttentionMaskProof<F, P>,
    point: Seq<F>,
    ends: Seq<F>,
    expected: F,
)
    requires
        n >= 1,
        h == log2_ceil(n),
        is_mask_sumcheck(mask, data, n, pow2(h), s),
        point.len() == 2 * h,
        verifying.eq_point@.len() == 2 * h,
        all_stand_for(data.eq_evals@, betas(residues(verifying.eq_point@))),
        residues(verifying.batching_challenges@) == residues(data.batching_challenges@),
        data.input_polys@.len() == data.batching_challenges@.len(),
        data.input_shape@.len() > 2 || (data.batching_challenges@.len() == 1
            && data.batching_challenges@[0].residue() == 1),
        ends.len() == s.tables@.len(),
        forall|t: int|
            0 <= t < ends.len() ==> stands_for(
                #[trigger] ends[t],
                mle(residues(s.tables@[t]@), residues(point)),
            ),
        stands_for(
            expected,
            sum(
                s.expressions@.len(),
                |k: int| s.expressions@[k].value(residues(ends), residues(s.challenges@)),
            ),
        ),
        proof.evaluations@ == ends.skip(4),
        proof.local_mask_proof is Some <==> decomposed(mask.span, pow2(h) as int),
    ensures
        stands_for(expected, mask.computed(proof, verifying, n as int, point)),
{
    let m = F::modulus();
    expected.residue_bounds();
    let w = residues(ends);
    let c = residues(s.challenges@);
    let dec = decomposed(mask.span, pow2(h) as int);
    let off = input_offset(dec);
    let col = column_part(point);
    let row = row_part(point);
    assert forall|t: int| 0 <= t < w.len() implies cong(
        #[trigger] w[t],
        mle(residues(s.tables@[t]@), residues(point)),
        m,
    ) by {
        lemma_residue_cong(ends[t], mle(residues(s.tables@[t]@), residues(point)));
    }
    lemma_honest_tables(mask, data, s, n, h, point, verifying.eq_point@, w);
    let eq = identity(residues(point), residues(verifying.eq_point@));
    let br = bounded(row, n as int);
    let bc = bounded(col, n as int);
    let z = mask.mask_at(proof, point);
    let neg = mask.negative_infinity as int;
    // The mask, the bounds and the equality table.
    if dec {
        assert(proof.evaluations@[0] == ends[4]);
        lemma_cong_times(w[1], zeroifier(col, row), w[4], w[4], m);
    }
    assert(cong(mask_value(w, dec), z, m));
    lemma_cong_times(w[2], bc, w[3], br, m);
    assert(bc * br == br * bc) by (nonlinear_arith);
    lemma_cong_times(w[0], eq, w[2] * w[3], br * bc, m);
    let head = w[0] * (w[2] * w[3]);
    let lead = eq * (br * bc);
    lemma_mod_twice(neg, m);
    // Each summand.
    let inputs = residues(AttentionMask::<Element>::input_evals(proof));
    let count = s.expressions@.len();
    assert(inputs.len() == count);
    let f = |k: int| s.expressions@[k].value(w, c);
    let g = |k: int| c[k] * masked_value(z, inputs[k], neg);
    let lg = |k: int| lead * g(k);
    assert forall|k: int| 0 <= k < count implies cong(#[trigger] f(k), lg(k), m) by {
        let batched = data.input_shape@.len() > 2;
        assert(f(k) == mask_summand(w, c, dec, batched, neg % m, k));
        assert(inputs[k] == w[off + k]);
        let a = masked_value(mask_value(w, dec), w[off + k], neg % m);
        let b = masked_value(z, inputs[k], neg);
        lemma_masked_cong(mask_value(w, dec), z, w[off + k], neg % m, neg, m);
        let ck = c[k];
        if batched {
            lemma_cong_times(head, lead, ck, ck, m);
            lemma_cong_times(head * ck, lead * ck, a, b, m);
            assert((lead * ck) * b == lead * (ck * b)) by (nonlinear_arith);
        } else {
            lemma_cong_times(head, lead, a, b, m);
            assert(ck == 1);
            assert(ck * b == b) by (nonlinear_arith)
                requires
                    ck == 1,
            ;
        }
    }
    lemma_cong_sum(count, f, lg, m);
    lemma_sum_scale(count, lead, g);
}

/// The sumcheck on the second matrix of a local mask ends, for an honest prover, on what
/// the verifier computes.
proof fn lemma_honest_local<F: PrimeField>(
    mask: AttentionMask<Element>,
    point: Seq<F>,
    upper: Seq<F>,
    shift: Seq<F>,
    subclaim: SubClaim<F>,
)
    requires
        F::modulus() > 1,
        mask.span is Local,
        point.len() % 2 == 0,
        subclaim.point@.len() == point.len() / 2,
        upper.len() == pow2(point.len() / 2),
        shift.len() == pow2(point.len() / 2),
        forall|k: int|
            0 <= k < upper.len() ==> stands_for(#[trigger] upper[k], upto(row_part(point), k)),
        forall|k: int|
            0 <= k < shift.len() ==> stands_for(
                #[trigger] shift[k],
                shift_column(column_part(point), window(mask.span), k),
            ),
        stands_for(
            subclaim.expected_evaluation,
            mle(residues(upper), residues(subclaim.point@)) * mle(
                residues(shift),
                residues(subclaim.point@),
            ),
        ),
    ensures
        mask.local_accepted(point, subclaim),
{
    let m = F::modulus();
    let row = row_part(point);
    let col = column_part(point);
    let end = residues(subclaim.point@);
    let a = Seq::new(pow2(row.len()), |k: int| upto(row, k));
    let b = Seq::new(pow2(row.len()), |k: int| shift_column(col, window(mask.span), k));
    law_local_mask_end(mask.span, row, col, end, a, b);
    lemma_mle_cong(upper, a, end, m);
    lemma_mle_cong(shift, b, end, m);
    let (x, y) = (mle(residues(upper), end), mle(residues(shift), end));
    lemma_cong_times(x, mle(a, end), y, mle(b, end), m);
    lemma_stands_cong(
        subclaim.expected_evaluation,
        x * y,
        local_product(mask.span, row, col, end),
    );
}

/// The verifier accepts what an honest prover shows of a claim on the output of a mask,
/// and both are left with the same claim on its input. The sumcheck on the mask ends at
/// `ends`; that on the second matrix of a local mask, over the tables `upper` and
/// `shift`, ends at `local_subclaim`.
pub proof fn law_honest_mask_verified<F: PrimeField, P>(
    mask: AttentionMask<Element>,
    claim_point: Seq<F>,
    input: Tensor<F>,
    data: MaskProvingData<F>,
    s: MaskSumcheck<F>,
    proof: AttentionMaskProof<F, P>,
    ends: Seq<F>,
    upper: Seq<F>,
    shift: Seq<F>,
    proved: Claim<F>,
    verifying: MaskVerifyingData<F>,
    subclaim: SubClaim<F>,
    local_subclaim: Option<SubClaim<F>>,
    r: Result<Vec<Claim<F>>, Error>,
)
    requires
        provable(input),
        data.belongs_to(claim_point, input),
        verifying.belongs_to(claim_point, input.shape@, input.unpadded_shape@),
        claim_point.len() == num_vars(input.shape@),
        is_mask_sumcheck(
            mask,
            data,
            input.unpadded_shape@.last() as nat,
            pow2(matrix_vars(input.shape@) / 2),
            s,
        ),
        subclaim.point@.len() == matrix_vars(input.shape@),
        ends.len() == s.tables@.len(),
        forall|t: int|
            0 <= t < ends.len() ==> stands_for(
                #[trigger] ends[t],
                mle(residues(s.tables@[t]@), residues(subclaim.point@)),
            ),
        stands_for(
            subclaim.expected_evaluation,
            sum(
                s.expressions@.len(),
                |k: int| s.expressions@[k].value(residues(ends), residues(s.challenges@)),
            ),
        ),
        proof.evaluations@ == ends.skip(4),
        proof.local_mask_proof is Some <==> decomposed(
            mask.span,
            pow2(matrix_vars(input.shape@) / 2) as int,
        ),
        proof.local_mask_proof is Some ==> (local_subclaim matches Some(c) && {
            let half = subclaim.point@.len() / 2;
            &&& c.point@.len() == half
            &&& upper.len() == pow2(half)
            &&& shift.len() == pow2(half)
            &&& forall|k: int|
                0 <= k < upper.len() ==> stands_for(
                    #[trigger] upper[k],
                    upto(row_part(subclaim.point@), k),
                )
            &&& forall|k: int|
                0 <= k < shift.len() ==> stands_for(
                    #[trigger] shift[k],
                    shift_column(column_part(subclaim.point@), window(mask.span), k),
                )
            &&& stands_for(
                c.expected_evaluation,
                mle(residues(upper), residues(c.point@)) * mle(residues(shift), residues(c.point@)),
            )
        }),
        proved.point@ == subclaim.point@ + data.batching_point@,
        stands_for(
            proved.eval,
            weighted(
                residues(data.batching_challenges@),
                residues(ends.skip(input_offset(proof.local_mask_proof is Some))),
            ),
        ),
        mask.decides(
            proof,
            verifying,
            input.unpadded_shape@.last() as nat,
            subclaim,
            local_subclaim,
            r,
        ),
    ensures
        match r {
            Ok(claims) => {
                &&& claims@.len() == 1
                &&& claims@[0].point@ == proved.point@
                &&& claims@[0].eval.residue() == proved.eval.residue()
            },
            Err(_) => false,
        },
{
    let u = input.unpadded_shape@;
    let n = u.last() as nat;
    let h = log2_ceil(n);
    let point = subclaim.point@;
    proved.eval.residue_bounds();
    assert(u[u.len() - 1] > 0);
    lemma_padded_dim(u, u.len() - 1);
    lemma_padded_dim(u, u.len() - 2);
    assert(matrix_vars(input.shape@) == 2 * h);
    lemma_num_vars_split(input.shape@, u.len() - 2);
    lemma_num_vars_skip(input.shape@, u.len() - 2);
    lemma_num_vars_skip(input.shape@, u.len() - 1);
    assert(num_vars(input.shape@.skip(u.len() as int)) == 0);
    law_same_data(claim_point, input, data, verifying);
    lemma_small_mod(1, F::modulus() as nat);
    law_honest_mask_accepted(
        mask,
        data,
        s,
        n,
        h,
        verifying,
        proof,
        point,
        ends,
        subclaim.expected_evaluation,
    );
    let local = proof.local_mask_proof is Some;
    if local {
        lemma_honest_local(mask, point, upper, shift, local_subclaim->Some_0);
    }
    assert(AttentionMask::<Element>::input_evals(proof) =~= ends.skip(input_offset(local)));
}

/// The values of several tables at a place.
pub open spec fn at_place(tables: Seq<Seq<int>>, x: int) -> Seq<int> {
    Seq::new(tables.len(), |t: int| tables[t][x])
}

/// What a mask sumcheck says of the output: inside the bounds the masked input,
/// and zero outside.
pub open spec fn masked_table(tables: Seq<Seq<int>>, dec: bool, neg: int, k: int, n: nat) -> Seq<
    int,
> {
    Seq::new(
        n,
        |x: int|
            (tables[2][x] * tables[3][x]) * masked_value(
                mask_value(at_place(tables, x), dec),
                tables[input_offset(dec) + k][x],
                neg,
            ),
    )
}

/// A mask sumcheck sums to the batched claim on the masked inputs.
pub proof fn law_mask_sum(
    tables: Seq<Seq<int>>,
    eq_point: Seq<int>,
    challenges: Seq<int>,
    dec: bool,
    neg: int,
)
    requires
        tables.len() == input_offset(dec) + challenges.len(),
        tables[0] == betas(eq_point),
    ensures
        sum(
            pow2(eq_point.len()),
            |x: int|
                sum(
                    challenges.len(),
                    |k: int| mask_summand(at_place(tables, x), challenges, dec, true, neg, k),
                ),
        ) == sum(
            challenges.len(),
            |k: int|
                challenges[k] * mle(
                    masked_table(tables, dec, neg, k, pow2(eq_point.len())),
                    eq_point,
                ),
        ),
{
    let n = pow2(eq_point.len());
    let count = challenges.len();
    let cell = |x: int, k: int|
        mask_summand(at_place(tables, x), challenges, dec, true, neg, k);
    lemma_sum_swap(n, count, cell);
    let left = |k: int| sum(n, |x: int| cell(x, k));
    let right = |k: int| challenges[k] * mle(masked_table(tables, dec, neg, k, n), eq_point);
    assert forall|k: int| 0 <= k < count implies #[trigger] left(k) == right(k) by {
        let t = masked_table(tables, dec, neg, k, n);
        let f = |x: int| t[x] * beta(eq_point, x);
        let c = challenges[k];
        let g = |x: int| cell(x, k);
        assert forall|x: int| 0 <= x < n implies #[trigger] g(x) == c * f(x) by {
            let w = at_place(tables, x);
            let b = tables[2][x] * tables[3][x];
            let e = beta(eq_point, x);
            let value = masked_value(mask_value(w, dec), tables[input_offset(dec) + k][x], neg);
            assert(w[0] == e);
            assert(((e * b) * c) * value == c * ((b * value) * e)) by (nonlinear_arith);
        }
        lemma_sum_same(n, g, |x: int| c * f(x));
        lemma_sum_scale(n, c, f);
    }
    lemma_sum_same(count, left, right);
    let rows = |x: int| sum(count, |k: int| cell(x, k));
    let same = |x: int|
        sum(count, |k: int| mask_summand(at_place(tables, x), challenges, dec, true, neg, k));
    assert forall|x: int| 0 <= x < n implies #[trigger] rows(x) == same(x) by {
        lemma_sum_same(
            count,
            |k: int| cell(x, k),
            |k: int| mask_summand(at_place(tables, x), challenges, dec, true, neg, k),
        );
    }
    lemma_sum_same(n, rows, same);
}

/// What the prover's tables say of the output is what evaluation gives: the input
/// where the mask keeps it, the value for minus infinity where it does not, and
/// zero in the padding.
pub proof fn law_masked_table(
    span: AttentionSpan,
    side: nat,
    n: int,
    tables: Seq<Seq<int>>,
    neg: int,
    k: int,
    i: int,
    j: int,
)
    requires
        0 <= i < side,
        0 <= j < side,
        0 <= n <= side,
        tables.len() > input_offset(decomposed(span, side as int)) + k,
        k >= 0,
        tables[1] == matrix_table(|i: int, j: int| lower_triangular(i, j), side),
        tables[2] == matrix_table(|i: int, j: int| column_bound(n, j), side),
        tables[3] == matrix_table(|i: int, j: int| column_bound(n, i), side),
        decomposed(span, side as int) ==> tables[4] == matrix_table(
            |i: int, j: int| offset_matrix(window(span), i, j),
            side,
        ),
    ensures
        masked_table(tables, decomposed(span, side as int), neg, k, side * side)[i * side + j]
            == if i >= n || j >= n {
            0
        } else if span.keeps(i, j) {
            tables[input_offset(decomposed(span, side as int)) + k][i * side + j]
        } else {
            neg
        },
{
    let x = i * side + j;
    let dec = decomposed(span, side as int);
    assert(0 <= x < side * side) by (nonlinear_arith)
        requires
            0 <= i < side,
            0 <= j < side,
            x == i * side + j,
    ;
    lemma_fundamental_div_mod_converse(x, side as int, i, j);
    law_mask_polys(span, side as int, i, j);
    let mask = mask_value(at_place(tables, x), dec);
    let input = tables[input_offset(dec) + k][x];
    assert(mask == if span.keeps(i, j) {
        1int
    } else {
        0int
    });
    let value = masked_value(mask, input, neg);
    assert(value == if span.keeps(i, j) {
        input
    } else {
        neg
    }) by {
        assert(1 * input == input && neg * 0 == 0 && 0 * input == 0 && neg * 1 == neg);
    }
    let b = tables[2][x] * tables[3][x];
    assert(b == if i >= n || j >= n {
        0int
    } else {
        1int
    });
    assert(0 * value == 0 && 1 * value == value);
}

/// Masking is causal: in a square matrix of any size a token never sees a token that comes
/// after it, and with a window none that lies further back; what it sees stays what it is.
/// Padding is replaced by the padding value.
pub proof fn law_causal<N>(
    mask: AttentionMask<N>,
    input: Tensor<N>,
    padding: N,
    out: Tensor<N>,
    idx: Seq<int>,
)
    requires
        mask.masks(input, padding, out),
        input.unpadded_shape@.len() >= 2,
        input.unpadded_shape@.last() == input.unpadded_shape@[input.unpadded_shape@.len() - 2],
        in_bounds(out.shape@, idx),
    ensures
        ({
            let u = input.unpadded_shape@;
            let (i, j) = (idx[idx.len() - 2], idx.last());
            &&& out.unpadded_shape@ == u
            &&& !in_bounds(u, idx) ==> out.at(idx) == padding
            &&& in_bounds(u, idx) && j > i ==> out.at(idx) == mask.negative_infinity
            &&& in_bounds(u, idx) && j <= i ==> match mask.span {
                AttentionSpan::Full => out.at(idx) == input.at(idx),
                AttentionSpan::Local(n) => out.at(idx) == if i - j <= n {
                    input.at(idx)
                } else {
                    mask.negative_infinity
                },
            }
        }),
{
    let u = input.unpadded_shape@;
    let r = u.len();
    if in_bounds(u, idx) {
        assert(0 <= idx[r - 1] < u[r - 1]);
        assert(0 <= idx[r - 2] < u[r - 2]);
    }
}

/// What a token is shown does not depend on the tokens after it: two inputs that agree on
/// every place up to the diagonal have the same output.
pub proof fn law_future_not_seen<N>(
    mask: AttentionMask<N>,
    a: Tensor<N>,
    b: Tensor<N>,
    padding: N,
    out_a: Tensor<N>,
    out_b: Tensor<N>,
)
    requires
        mask.masks(a, padding, out_a),
        mask.masks(b, padding, out_b),
        a.shape@ == b.shape@,
        a.unpadded_shape@ == b.unpadded_shape@,
        a.unpadded_shape@.len() >= 2,
        a.unpadded_shape@.last() == a.unpadded_shape@[a.unpadded_shape@.len() - 2],
        forall|idx: Seq<int>|
            in_bounds(a.unpadded_shape@, idx) && idx.last() <= idx[idx.len() - 2]
                ==> #[trigger] a.at(idx) == b.at(idx),
    ensures
        out_a.data@ == out_b.data@,
        out_a.shape@ == out_b.shape@,
{
    let d = out_a.shape@;
    assert forall|p: int| 0 <= p < numel(d) implies #[trigger] out_a.data@[p]
        == out_b.data@[p] by {
        let idx = unflat(d, p);
        lemma_unflat(d, p);
        law_causal(mask, a, padding, out_a, idx);
        law_causal(mask, b, padding, out_b, idx);
        assert(out_a.at(idx) == out_a.data@[p]);
        assert(out_b.at(idx) == out_b.data@[p]);
        if in_bounds(a.unpadded_shape@, idx) && idx.last() <= idx[idx.len() - 2] {
            assert(a.at(idx) == b.at(idx));
        }
    }
    assert(out_a.data@ =~= out_b.data@);
}

/// A single row, for the last of several tokens, keeps all tokens, or the last ones of a
/// window, and hides no other.
pub proof fn law_last_token<N>(
    mask: AttentionMask<N>,
    input: Tensor<N>,
    padding: N,
    out: Tensor<N>,
    idx: Seq<int>,
)
    requires
        mask.masks(input, padding, out),
        input.unpadded_shape@.len() >= 2,
        input.unpadded_shape@[input.unpadded_shape@.len() - 2] == 1,
        input.unpadded_shape@.last() > 1,
        in_bounds(out.shape@, idx),
        in_bounds(input.unpadded_shape@, idx),
    ensures
        ({
            let back = input.unpadded_shape@.last() - idx.last();
            match mask.span {
                AttentionSpan::Full => out.at(idx) == input.at(idx),
                AttentionSpan::Local(n) => out.at(idx) == if back <= n {
                    input.at(idx)
                } else {
                    mask.negative_infinity
                },
            }
        }),
{
}

/// What evaluation gives is what the tables of the prover say of the output: inside the
/// unpadded matrix the value of the output, and zero outside.
pub proof fn law_evaluation_is_proved(
    mask: AttentionMask<Element>,
    input: Tensor<Element>,
    padding: Element,
    out: Tensor<Element>,
    side: nat,
    tables: Seq<Seq<int>>,
    batch: Seq<int>,
    k: int,
    i: int,
    j: int,
)
    requires
        mask.masks(input, padding, out),
        input.unpadded_shape@.len() >= 2,
        input.unpadded_shape@.last() == input.unpadded_shape@[input.unpadded_shape@.len() - 2],
        input.unpadded_shape@.last() <= side,
        0 <= i < side,
        0 <= j < side,
        k >= 0,
        tables.len() > input_offset(decomposed(mask.span, side as int)) + k,
        tables[1] == matrix_table(|i: int, j: int| lower_triangular(i, j), side),
        tables[2] == matrix_table(
            |i: int, j: int| column_bound(input.unpadded_shape@.last() as int, j),
            side,
        ),
        tables[3] == matrix_table(
            |i: int, j: int| column_bound(input.unpadded_shape@.last() as int, i),
            side,
        ),
        decomposed(mask.span, side as int) ==> tables[4] == matrix_table(
            |i: int, j: int| offset_matrix(window(mask.span), i, j),
            side,
        ),
        ({
            let n = input.unpadded_shape@.last();
            let idx = batch.push(i).push(j);
            i < n && j < n ==> {
                &&& in_bounds(input.unpadded_shape@, idx)
                &&& in_bounds(out.shape@, idx)
                &&& tables[input_offset(decomposed(mask.span, side as int)) + k][i * side + j]
                    == input.at(idx)
            }
        }),
    ensures
        ({
            let n = input.unpadded_shape@.last();
            masked_table(
                tables,
                decomposed(mask.span, side as int),
                mask.negative_infinity as int,
                k,
                side * side,
            )[i * side + j] == if i < n && j < n {
                out.at(batch.push(i).push(j)) as int
            } else {
                0
            }
        }),
{
    let n = input.unpadded_shape@.last();
    law_masked_table(
        mask.span,
        side,
        n as int,
        tables,
        mask.negative_infinity as int,
        k,
        i,
        j,
    );
    if i < n && j < n {
        law_causal(mask, input, padding, out, batch.push(i).push(j));
    }
}

/// For a given proof, a mask is accepted at one end of each sumcheck only, and leaves one
/// claim.
pub proof fn law_one_end<F: PrimeField, P>(
    op: AttentionMask<Element>,
    proof: AttentionMaskProof<F, P>,
    data: MaskVerifyingData<F>,
    len: nat,
    s: SubClaim<F>,
    t: SubClaim<F>,
    local_s: Option<SubClaim<F>>,
    local_t: Option<SubClaim<F>>,
    a: Vec<Claim<F>>,
    b: Vec<Claim<F>>,
)
    requires
        op.decides(proof, data, len, s, local_s, Ok(a)),
        op.decides(proof, data, len, t, local_t, Ok(b)),
        s.point@ == t.point@,
        proof.local_mask_proof is Some ==> local_s->Some_0.point@ == local_t->Some_0.point@,
    ensures
        s.expected_evaluation.residue() == t.expected_evaluation.residue(),
        proof.local_mask_proof is Some ==> local_s->Some_0.expected_evaluation.residue()
            == local_t->Some_0.expected_evaluation.residue(),
        a@.len() == 1 && b@.len() == 1,
        a@[0].point@ == b@[0].point@,
        a@[0].eval.residue() == b@[0].eval.residue(),
{
}

/// What is accepted has a second matrix where its mask is local alone, with a window that
/// fits the matrix; the end has coordinates for the rows and for the columns of the
/// matrix; and the claim that is left is on the input, at the end and the point that
/// batches the matrices.
pub proof fn law_accepted<F: PrimeField, P>(
    op: AttentionMask<Element>,
    proof: AttentionMaskProof<F, P>,
    data: MaskVerifyingData<F>,
    len: nat,
    s: SubClaim<F>,
    local: Option<SubClaim<F>>,
    claims: Vec<Claim<F>>,
)
    requires
        op.decides(proof, data, len, s, local, Ok(claims)),
    ensures
        s.point@.len() / 2 == log2_ceil(len),
        proof.local_mask_proof is Some ==> (op.span matches AttentionSpan::Local(n) && n
            < next_pow2(len)),
        claims@.len() == 1,
        claims@[0].point@ == s.point@ + data.batching_point@,
{
}

} // verus!
