//! What holds of the layer as a whole.
use vstd::prelude::*;
use vstd::arithmetic::div_mod::*;
use vstd::arithmetic::power2::{lemma_pow2_adds, lemma_pow2_pos, pow2};
use crate::claim::SubClaim;
use crate::error::Error;
use crate::congruence::{cong, lemma_cong_minus, lemma_cong_plus, lemma_cong_sum, lemma_cong_times, lemma_end_cong, lemma_one_half, lemma_residue_cong};
use crate::field::{all_stand_for, inverts, residues, stands_for, PrimeField};
use crate::layernorm::{LayerNorm, QuantisedLayerNormData};
use crate::layernorm::prove::{first_value, is_layernorm_sumcheck, is_mean_expression, mean_value, LayerNormClaims, LayerNormCtx, LayerNormSumcheck};
use crate::layernorm::verify::{io_ends, LayerNormEnds};
use crate::logits::laws::lemma_half_beta;
use crate::logits::prove::averaging_point;
use crate::logits::verify::invertible;
use crate::logits::witness::element_ints;
use crate::mle::{beta, betas, identity, lemma_beta_join, lemma_betas_sum, lemma_mle_betas, lemma_mle_grid, mle};
use crate::normalisation::laws::law_row_sums_split;
use crate::normalisation::{row_squares, row_total};
use crate::positional::absolute::is_quotient;
use crate::shape::log2_ceil;
use crate::sum::{lemma_sum_grid, lemma_sum_plus, lemma_sum_same, lemma_sum_scale, sum};
use crate::tensor::Element;

verus! {

/// The sum of row `i`.
pub open spec fn int_row(x: Seq<int>, w: nat, i: int) -> int {
    sum(w, |j: int| x[i * w + j])
}

/// The sum of the squares of row `i`.
pub open spec fn int_squares(x: Seq<int>, w: nat, i: int) -> int {
    sum(w, |j: int| x[i * w + j] * x[i * w + j])
}

/// A sum weighted by the factors of an averaging point, scaled by the number of columns,
/// is the sum of the rows weighted by the factors of the rows.
proof fn lemma_average_rows(half: int, c: nat, g: spec_fn(int) -> int, row: Seq<int>, m: int)
    requires
        m > 1,
        inverts(2, half, m),
    ensures
        cong(
            sum(
                pow2(c + row.len()),
                |p: int| (pow2(c) * beta(averaging_point(half, c, row), p)) * g(p),
            ),
            sum(
                pow2(row.len()),
                |i: int| beta(row, i) * sum(pow2(c), |j: int| g(i * pow2(c) + j)),
            ),
            m,
        ),
{
    let w = pow2(c);
    let n = pow2(row.len());
    let halves = Seq::new(c, |i: int| half);
    let point = averaging_point(half, c, row);
    let f = |p: int| (pow2(c) * beta(point, p)) * g(p);
    lemma_pow2_adds(c, row.len());
    assert(n * w == w * n) by (nonlinear_arith);
    lemma_sum_grid(n, w, f);
    let rows = |i: int| sum(w, |j: int| f(i * w + j));
    let goal = |i: int| beta(row, i) * sum(pow2(c), |j: int| g(i * pow2(c) + j));
    assert forall|i: int| 0 <= i < n implies cong(#[trigger] rows(i), goal(i), m) by {
        let b = beta(row, i);
        let fr = |j: int| f(i * w + j);
        let gr = |j: int| g(i * pow2(c) + j);
        let target = |j: int| b * gr(j);
        assert forall|j: int| 0 <= j < w implies cong(#[trigger] fr(j), target(j), m) by {
            lemma_beta_join(halves, row, j, i);
            lemma_half_beta(half, c, j, m);
            let h = beta(halves, j);
            let y = gr(j);
            let by = b * y;
            lemma_cong_times(w * h, 1, by, by, m);
            assert((w * (h * b)) * y == (w * h) * (b * y)) by (nonlinear_arith);
            assert(1 * by == by);
        }
        lemma_cong_sum(w, fr, target, m);
        lemma_sum_scale(w, b, gr);
        lemma_sum_same(w, target, |j: int| b * gr(j));
    }
    lemma_cong_sum(n, rows, goal, m);
}

/// What the first sumcheck sums of the input is the extension of the values whose inverse
/// roots are looked up: the number of values of a row times their squares, less the
/// square of their sum, scaled.
pub proof fn law_variance(
    x: Seq<int>,
    c: nat,
    multiplier: int,
    n: int,
    row: Seq<int>,
    half: int,
    m: int,
)
    requires
        m > 1,
        inverts(2, half, m),
    ensures
        cong(
            sum(
                pow2(c + row.len()),
                |p: int|
                    beta(averaging_point(half, c, row), p) * (multiplier * ((n * pow2(c)) * x[p]
                        * x[p] - int_row(x, pow2(c), p / pow2(c) as int) * int_row(
                        x,
                        pow2(c),
                        p / pow2(c) as int,
                    ))),
            ),
            sum(
                pow2(row.len()),
                |i: int|
                    beta(row, i) * (multiplier * (n * int_squares(x, pow2(c), i) - int_row(
                        x,
                        pow2(c),
                        i,
                    ) * int_row(x, pow2(c), i))),
            ),
            m,
        ),
{
    let w = pow2(c);
    let rows = pow2(row.len());
    let total = pow2(c + row.len());
    lemma_pow2_pos(c);
    lemma_pow2_adds(c, row.len());
    assert(rows * w == w * rows) by (nonlinear_arith);
    let point = averaging_point(half, c, row);
    let halves = Seq::new(c, |i: int| half);
    let square = |p: int| (multiplier * n) * (x[p] * x[p]);
    let mean = |p: int| int_row(x, w, p / w as int);
    let f = |p: int|
        beta(point, p) * (multiplier * ((n * pow2(c)) * x[p] * x[p] - int_row(
            x,
            pow2(c),
            p / pow2(c) as int,
        ) * int_row(x, pow2(c), p / pow2(c) as int)));
    let a = |p: int| (pow2(c) * beta(point, p)) * square(p);
    let b = |p: int| beta(point, p) * (-(multiplier * (mean(p) * mean(p))));
    assert forall|p: int| 0 <= p < total implies #[trigger] f(p) == a(p) + b(p) by {
        let (t, y, z, q) = (beta(point, p), x[p], mean(p), w as int);
        let yy = y * y;
        let zz = z * z;
        let mm = multiplier;
        assert((n * q) * y * y == n * (q * yy)) by (nonlinear_arith)
            requires
                yy == y * y,
        ;
        let qy = q * yy;
        assert(mm * (n * qy - zz) == (mm * n) * qy - mm * zz) by (nonlinear_arith);
        let mn = mm * n;
        assert(t * (mn * qy - mm * zz) == t * (mn * qy) + t * (-(mm * zz))) by (nonlinear_arith);
        assert(t * (mn * (q * yy)) == (q * t) * (mn * yy)) by (nonlinear_arith);
    }
    lemma_sum_same(total, f, |p: int| a(p) + b(p));
    lemma_sum_plus(total, a, b);
    lemma_average_rows(half, c, square, row, m);
    // The sums of the rows do not depend on the column.
    lemma_sum_grid(rows, w, b);
    let b_rows = |i: int| sum(w, |j: int| b(i * w + j));
    let b_goal = |i: int| beta(row, i) * (-(multiplier * (int_row(x, w, i) * int_row(x, w, i))));
    assert forall|i: int| 0 <= i < rows implies #[trigger] b_rows(i) == b_goal(i) by {
        let s = -(multiplier * (int_row(x, w, i) * int_row(x, w, i)));
        let k = beta(row, i) * s;
        let br = |j: int| b(i * w + j);
        let hb = |j: int| beta(halves, j);
        assert forall|j: int| 0 <= j < w implies #[trigger] br(j) == k * hb(j) by {
            lemma_beta_join(halves, row, j, i);
            lemma_fundamental_div_mod_converse(i * w + j, w as int, i, j);
            let (h, r) = (hb(j), beta(row, i));
            assert((h * r) * s == (r * s) * h) by (nonlinear_arith);
        }
        lemma_sum_same(w, br, |j: int| k * hb(j));
        lemma_sum_scale(w, k, hb);
        lemma_betas_sum(halves);
        lemma_sum_same(w, hb, |j: int| beta(halves, j));
        assert(k * 1 == k);
    }
    lemma_sum_same(rows, b_rows, b_goal);
    let a_goal = |i: int| beta(row, i) * sum(pow2(c), |j: int| square(i * pow2(c) + j));
    let goal = |i: int|
        beta(row, i) * (multiplier * (n * int_squares(x, pow2(c), i) - int_row(x, pow2(c), i)
            * int_row(x, pow2(c), i)));
    assert forall|i: int| 0 <= i < rows implies #[trigger] goal(i) == a_goal(i) + b_goal(i) by {
        let sq = |j: int| x[i * w + j] * x[i * w + j];
        let mn = multiplier * n;
        lemma_sum_scale(w, mn, sq);
        lemma_sum_same(w, |j: int| square(i * pow2(c) + j), |j: int| mn * sq(j));
        lemma_sum_same(w, sq, |j: int| x[i * w + j] * x[i * w + j]);
        let (t, y, s, mm) = (
            beta(row, i),
            int_squares(x, w, i),
            int_row(x, w, i) * int_row(x, w, i),
            multiplier,
        );
        assert(mm * (n * y - s) == (mm * n) * y - mm * s) by (nonlinear_arith);
        let u = (mm * n) * y;
        let v = mm * s;
        assert(t * (u - v) == t * u + t * (-v)) by (nonlinear_arith);
    }
    lemma_sum_same(rows, goal, |i: int| a_goal(i) + b_goal(i));
    lemma_sum_plus(rows, a_goal, b_goal);
    let (sa, sg, sb) = (sum(total, a), sum(rows, a_goal), sum(rows, b_goal));
    assert(sum(total, b) == sb);
    lemma_sum_same(
        total,
        a,
        |p: int| (pow2(c) * beta(averaging_point(half, c, row), p)) * square(p),
    );
    lemma_cong_plus(sa, sg, sb, sb, m);
    lemma_sum_same(
        total,
        f,
        |p: int|
            beta(averaging_point(half, c, row), p) * (multiplier * ((n * pow2(c)) * x[p] * x[p]
                - int_row(x, pow2(c), p / pow2(c) as int) * int_row(
                x,
                pow2(c),
                p / pow2(c) as int,
            ))),
    );
}

/// What the second sumcheck sums beside the input is the extension of the sums of the
/// rows, which is that of the table that holds the sum of its row at every place.
pub proof fn law_row_sums(
    x: Seq<int>,
    c: nat,
    low: Seq<int>,
    row: Seq<int>,
    half: int,
    m: int,
)
    requires
        m > 1,
        inverts(2, half, m),
        low.len() == c,
    ensures
        cong(
            sum(
                pow2(c + row.len()),
                |p: int| (pow2(c) * beta(averaging_point(half, c, row), p)) * x[p],
            ),
            mle(
                Seq::new(
                    pow2(c + row.len()),
                    |p: int| int_row(x, pow2(c), p / pow2(c) as int),
                ),
                low + row,
            ),
            m,
        ),
{
    let w = pow2(c);
    let rows = pow2(row.len());
    lemma_pow2_pos(c);
    lemma_pow2_adds(c, row.len());
    assert(rows * w == w * rows) by (nonlinear_arith);
    let g = |p: int| x[p];
    lemma_average_rows(half, c, g, row, m);
    lemma_sum_same(
        pow2(c + row.len()),
        |p: int| (pow2(c) * beta(averaging_point(half, c, row), p)) * g(p),
        |p: int| (pow2(c) * beta(averaging_point(half, c, row), p)) * x[p],
    );
    let t = Seq::new(pow2(c + row.len()), |p: int| int_row(x, pow2(c), p / pow2(c) as int));
    lemma_mle_grid(t, low, row);
    let given = |i: int| sum(w, |j: int| t[i * w + j] * beta(low, j)) * beta(row, i);
    let goal = |i: int| beta(row, i) * sum(pow2(c), |j: int| g(i * pow2(c) + j));
    assert forall|i: int| 0 <= i < rows implies #[trigger] given(i) == goal(i) by {
        let s = int_row(x, w, i);
        let tr = |j: int| t[i * w + j] * beta(low, j);
        let hb = |j: int| beta(low, j);
        assert forall|j: int| 0 <= j < w implies #[trigger] tr(j) == s * hb(j) by {
            let p = i * w + j;
            lemma_fundamental_div_mod_converse(p, w as int, i, j);
            assert(0 <= p < rows * w) by (nonlinear_arith)
                requires
                    p == i * w + j,
                    0 <= i < rows,
                    0 <= j < w,
            ;
        }
        lemma_sum_same(w, tr, |j: int| s * hb(j));
        lemma_sum_scale(w, s, hb);
        lemma_betas_sum(low);
        lemma_sum_same(w, hb, |j: int| beta(low, j));
        lemma_sum_same(w, |j: int| g(i * pow2(c) + j), |j: int| x[i * w + j]);
        let b = beta(row, i);
        assert(s * 1 == s);
        assert(s * b == b * s) by (nonlinear_arith);
    }
    lemma_sum_same(rows, given, goal);
}

/// Where the first sumcheck of an honest prover ends, the verifier accepts.
pub proof fn law_honest_layernorm_accepted<F: PrimeField>(
    ctx: LayerNormCtx<F>,
    x: Seq<Element>,
    k: nat,
    inv: Seq<Element>,
    gamma: Seq<Element>,
    beta_values: Seq<Element>,
    lookup: Seq<F>,
    last: Seq<F>,
    prover_half: F,
    half: F,
    s: LayerNormSumcheck<F>,
    alpha: F,
    ends: Seq<F>,
    subclaim: SubClaim<F>,
)
    requires
        inverts(2, prover_half.residue(), F::modulus()),
        inverts(2, half.residue(), F::modulus()),
        is_layernorm_sumcheck(
            x,
            k,
            inv,
            gamma,
            beta_values,
            residues(lookup),
            residues(last),
            prover_half.residue(),
            s,
        ),
        subclaim.point@.len() == k + lookup.len(),
        last.len() == k + lookup.len(),
        ends.len() == 7,
        stands_for(ends[5], mle(residues(s.input_eq@), residues(subclaim.point@))),
        stands_for(ends[6], mle(residues(s.last_claim_eq@), residues(subclaim.point@))),
        stands_for(
            subclaim.expected_evaluation,
            ctx.first_sumcheck_expression.value(residues(ends), seq![alpha.residue()]),
        ),
    ensures
        io_ends(ctx, ends.take(5), alpha, lookup, last, subclaim, half),
{
    let m = F::modulus();
    half.residue_bounds();
    prover_half.residue_bounds();
    lemma_one_half(prover_half.residue(), half.residue(), m);
    let t = residues(subclaim.point@);
    let e5 = averaging_point(half.residue(), k, residues(lookup));
    let e6 = residues(last);
    lemma_end_cong(ends[5], s.input_eq@, betas(e5), t);
    lemma_mle_betas(e5, t);
    lemma_end_cong(ends[6], s.last_claim_eq@, betas(e6), t);
    lemma_mle_betas(e6, t);
    let (a, b) = (ends[5], ends[6]);
    a.residue_bounds();
    b.residue_bounds();
    lemma_small_mod(a.residue() as nat, m as nat);
    lemma_small_mod(b.residue() as nat, m as nat);
    assert(residues(ends) =~= residues(ends.take(5)) + seq![
        identity(e5, t) % m,
        identity(e6, t) % m,
    ]);
    assert((t.len() - residues(lookup).len()) as nat == k);
}

/// Where the second sumcheck of an honest prover ends, the verifier finds the evaluation of
/// the input that the prover has.
pub proof fn law_honest_mean_found<F: PrimeField>(
    io_point: Seq<F>,
    cols: nat,
    prover_half: F,
    half: F,
    input_eq: Seq<F>,
    mean_eq: Seq<F>,
    alpha: F,
    point: Seq<F>,
    ends: Seq<F>,
    expected: F,
    found: F,
)
    requires
        cols <= io_point.len(),
        point.len() == io_point.len(),
        inverts(2, prover_half.residue(), F::modulus()),
        inverts(2, half.residue(), F::modulus()),
        all_stand_for(input_eq, betas(residues(io_point))),
        all_stand_for(
            mean_eq,
            betas(
                averaging_point(
                    prover_half.residue(),
                    cols,
                    residues(io_point).skip(cols as int),
                ),
            ),
        ),
        ends.len() == 3,
        stands_for(ends[1], mle(residues(input_eq), residues(point))),
        stands_for(ends[2], mle(residues(mean_eq), residues(point))),
        ({
            let w = residues(ends);
            let two = pow2(cols) as int % F::modulus();
            stands_for(expected, w[0] * (w[1] + (alpha.residue() * two) * w[2]))
        }),
        is_quotient(
            found,
            expected.residue(),
            LayerNormCtx::<F>::mean_factor(
                alpha.residue(),
                residues(io_point),
                cols,
                residues(point),
                half.residue(),
            ),
        ),
    ensures
        found.residue() == ends[0].residue(),
{
    let m = F::modulus();
    half.residue_bounds();
    prover_half.residue_bounds();
    lemma_one_half(prover_half.residue(), half.residue(), m);
    let t = residues(point);
    let io = residues(io_point);
    let mean = averaging_point(half.residue(), cols, io.skip(cols as int));
    lemma_end_cong(ends[1], input_eq, betas(io), t);
    lemma_mle_betas(io, t);
    lemma_end_cong(ends[2], mean_eq, betas(mean), t);
    lemma_mle_betas(mean, t);
    let (x, a, b) = (ends[0].residue(), ends[1].residue(), ends[2].residue());
    let (p, q) = (identity(io, t), identity(mean, t));
    let c = alpha.residue();
    let two = pow2(cols) as int;
    lemma_mod_twice(two, m);
    assert(cong(two % m, two, m));
    lemma_cong_times(c, c, two % m, two, m);
    lemma_cong_times(c * (two % m), c * two, b, q, m);
    lemma_cong_plus(a, p, (c * (two % m)) * b, (c * two) * q, m);
    lemma_cong_times(x, x, a + (c * (two % m)) * b, p + (c * two) * q, m);
    lemma_residue_cong(expected, x * (a + (c * (two % m)) * b));
    assert(c * two == two * c) by (nonlinear_arith);
    assert(cong(x * (p + (two * c) * q), expected.residue(), m));
    assert(stands_for(found, x));
    ends[0].residue_bounds();
    lemma_small_mod(x as nat, m as nat);
}

/// The verifier accepts what an honest prover shows, and both are left with the same
/// claims. The first sumcheck, over the prover's tables, ends at `io_ends`, of which the
/// first five are in the proof; the second ends at `mean_ends`. The factor that the
/// evaluation of the input is found by has an inverse.
pub proof fn law_honest_layernorm_verified<F: PrimeField>(
    ctx: LayerNormCtx<F>,
    x: Seq<Element>,
    inv: Seq<Element>,
    gamma: Seq<Element>,
    beta_values: Seq<Element>,
    prover_half: F,
    s: LayerNormSumcheck<F>,
    io_ends: Seq<F>,
    mean_half: F,
    input_eq: Seq<F>,
    mean_eq: Seq<F>,
    mean_ends: Seq<F>,
    proved: LayerNormClaims<F>,
    ends: LayerNormEnds<F>,
    half: F,
    r: Result<LayerNormClaims<F>, Error>,
)
    requires
        ends.fits(ctx),
        ends.last_claims@.len() == 1,
        ends.cols() == log2_ceil(ctx.dim_size as nat),
        is_mean_expression(ctx.mean_sumcheck_expression, ctx.dim_size as int),
        inverts(2, prover_half.residue(), F::modulus()),
        is_layernorm_sumcheck(
            x,
            ends.cols(),
            inv,
            gamma,
            beta_values,
            residues(ends.lookup_point@),
            residues(ends.last_claims@[0].point@),
            prover_half.residue(),
            s,
        ),
        io_ends.len() == 7,
        stands_for(io_ends[5], mle(residues(s.input_eq@), residues(ends.io_subclaim.point@))),
        stands_for(io_ends[6], mle(residues(s.last_claim_eq@), residues(ends.io_subclaim.point@))),
        stands_for(
            ends.io_subclaim.expected_evaluation,
            ctx.first_sumcheck_expression.value(residues(io_ends), seq![ends.alpha.residue()]),
        ),
        inverts(2, mean_half.residue(), F::modulus()),
        all_stand_for(input_eq, betas(residues(ends.io_subclaim.point@))),
        all_stand_for(
            mean_eq,
            betas(
                averaging_point(
                    mean_half.residue(),
                    ends.cols(),
                    residues(ends.io_subclaim.point@).skip(ends.cols() as int),
                ),
            ),
        ),
        mean_ends.len() == 3,
        stands_for(mean_ends[1], mle(residues(input_eq), residues(ends.mean_subclaim.point@))),
        stands_for(mean_ends[2], mle(residues(mean_eq), residues(ends.mean_subclaim.point@))),
        stands_for(
            ends.mean_subclaim.expected_evaluation,
            ctx.mean_sumcheck_expression.value(
                residues(mean_ends),
                seq![ends.mean_alpha.residue()],
            ),
        ),
        proved.input.point@ == ends.mean_subclaim.point@,
        proved.input.eval == mean_ends[0],
        proved.are_left(
            ctx.gamma_key@,
            ctx.beta_key@,
            io_ends.take(5),
            ends.poly_evals@,
            ends.lookup_point@,
            ends.io_subclaim.point@,
        ),
        inverts(2, half.residue(), F::modulus()),
        invertible(ends.factor(half) % F::modulus(), F::modulus()),
        ends.decides(ctx, io_ends.take(5), half, r),
    ensures
        match r {
            Ok(c) => {
                &&& c.input.point@ == proved.input.point@
                &&& c.input.eval.residue() == proved.input.eval.residue()
                &&& c.are_left(
                    ctx.gamma_key@,
                    ctx.beta_key@,
                    io_ends.take(5),
                    ends.poly_evals@,
                    ends.lookup_point@,
                    ends.io_subclaim.point@,
                )
            },
            Err(_) => false,
        },
{
    law_honest_layernorm_accepted(
        ctx,
        x,
        ends.cols(),
        inv,
        gamma,
        beta_values,
        ends.lookup_point@,
        ends.last_claims@[0].point@,
        prover_half,
        half,
        s,
        ends.alpha,
        io_ends,
        ends.io_subclaim,
    );
    if let Ok(c) = r {
        let w = residues(mean_ends);
        let cols = pow2(ends.cols()) as int;
        assert(mean_value(w, ends.mean_alpha.residue(), cols % F::modulus()) == w[0] * (w[1] + (
        ends.mean_alpha.residue() * (cols % F::modulus())) * w[2]));
        law_honest_mean_found(
            ends.io_subclaim.point@,
            ends.cols(),
            mean_half,
            half,
            input_eq,
            mean_eq,
            ends.mean_alpha,
            ends.mean_subclaim.point@,
            mean_ends,
            ends.mean_subclaim.expected_evaluation,
            c.input.eval,
        );
    }
}

/// The value that is looked up for a row is the number of columns times the squares of the
/// row, less the square of its sum, scaled.
pub proof fn law_full_value(q: QuantisedLayerNormData, x: Seq<Element>, w: nat, i: int)
    requires
        0 <= i,
        (i + 1) * w <= x.len(),
    ensures
        q.full(x, w as int, i) == q.multiplier * (q.dim_size * int_squares(element_ints(x), w, i)
            - int_row(element_ints(x), w, i) * int_row(element_ints(x), w, i)),
{
    let e = element_ints(x);
    lemma_row_ints(x, w, i);
    let (a, t, n, k) = (
        int_squares(e, w, i),
        int_row(e, w, i),
        q.dim_size as int,
        q.multiplier as int,
    );
    assert(a * (n * k) == k * (n * a)) by (nonlinear_arith);
    let tt = t * t;
    assert(tt * k == k * tt) by (nonlinear_arith);
    let na = n * a;
    assert(k * (na - tt) == k * na - k * tt) by (nonlinear_arith);
}

/// The sums of a row, over the elements and over the integers that they are.
proof fn lemma_row_ints(x: Seq<Element>, w: nat, i: int)
    requires
        0 <= i,
        (i + 1) * w <= x.len(),
    ensures
        row_total(x, w as int, i, w) == int_row(element_ints(x), w, i),
        row_squares(x, w as int, i, w) == int_squares(element_ints(x), w, i),
{
    let e = element_ints(x);
    let (f, g) = (|j: int| x[i * w + j] as int, |j: int| e[i * w + j]);
    let (f2, g2) = (
        |j: int| x[i * w + j] * x[i * w + j],
        |j: int| e[i * w + j] * e[i * w + j],
    );
    assert forall|j: int| 0 <= j < w implies #[trigger] f(j) == g(j) && f2(j) == g2(j) by {
        assert(0 <= i * w + j < (i + 1) * w) by (nonlinear_arith)
            requires
                0 <= i,
                0 <= j < w,
        ;
    }
    lemma_sum_same(w, f, g);
    assert forall|j: int| 0 <= j < w implies #[trigger] f2(j) == g2(j) by {
        assert(f(j) == g(j));
    }
    lemma_sum_same(w, f2, g2);
}

/// What is looked up does not change when the same number is added to every value of a
/// row, where the rows are as long as the layer counts them; and the output does not
/// change either.
pub proof fn law_shifted_row(
    layer: LayerNorm<Element>,
    x: Seq<Element>,
    y: Seq<Element>,
    w: nat,
    inv: Seq<Element>,
    i: int,
    j: int,
    d: int,
)
    requires
        layer.quant_info is Some,
        layer.quant_info->Some_0.dim_size == w,
        0 <= j < w,
        forall|k: int| 0 <= k < w ==> #[trigger] y[i * w + k] == x[i * w + k] + d,
    ensures
        layer.quant_info->Some_0.full(y, w as int, i) == layer.quant_info->Some_0.full(
            x,
            w as int,
            i,
        ),
        layer.value(y, w as int, inv, i, j) == layer.value(x, w as int, inv, i, j),
{
    let q = layer.quant_info->Some_0;
    lemma_shifted_sums(x, y, w as int, i, d, w);
    let (s, t) = (row_squares(x, w as int, i, w), row_total(x, w as int, i, w));
    let (n, k) = (w as int, q.multiplier as int);
    let nk = n * k;
    let nd = n * d;
    let (td, ndd) = (t * d, nd * d);
    assert((s + 2 * td + ndd) * nk == s * nk + 2 * (td * nk) + ndd * nk) by (nonlinear_arith);
    assert((t + nd) * (t + nd) == t * t + 2 * (t * nd) + nd * nd) by (nonlinear_arith);
    assert(t * nd == n * td) by (nonlinear_arith)
        requires
            nd == n * d,
            td == t * d,
    ;
    assert(nd * nd == n * ndd) by (nonlinear_arith)
        requires
            ndd == nd * d,
            nd == n * d,
    ;
    let tt = t * t;
    assert((tt + 2 * (n * td) + n * ndd) * k == tt * k + 2 * (td * nk) + ndd * nk)
        by (nonlinear_arith)
        requires
            nk == n * k,
    ;
    assert(y[i * w + j] == x[i * w + j] + d);
    let v = x[i * w + j] as int;
    assert((v + d) * n == v * n + n * d) by (nonlinear_arith);
}

/// The sums of a row to which a number was added.
proof fn lemma_shifted_sums(x: Seq<Element>, y: Seq<Element>, w: int, i: int, d: int, n: nat)
    requires
        forall|k: int| 0 <= k < n ==> #[trigger] y[i * w + k] == x[i * w + k] + d,
    ensures
        row_total(y, w, i, n) == row_total(x, w, i, n) + n * d,
        row_squares(y, w, i, n) == row_squares(x, w, i, n) + 2 * (row_total(x, w, i, n) * d) + (n
            * d) * d,
    decreases n,
{
    if n == 0 {
        let t = row_total(x, w, i, 0);
        assert(t == 0);
        assert(t * d == 0) by (nonlinear_arith)
            requires
                t == 0,
        ;
        assert((0 * d) * d == 0) by (nonlinear_arith);
        assert(row_squares(x, w, i, 0) == 0 && row_squares(y, w, i, 0) == 0);
        assert(row_total(y, w, i, 0) == 0);
    } else {
        let k = (n - 1) as nat;
        lemma_shifted_sums(x, y, w, i, d, k);
        law_row_sums_split(x, w, i, k);
        law_row_sums_split(y, w, i, k);
        assert(y[i * w + k as int] == x[i * w + k as int] + d);
        let v = x[i * w + k as int] as int;
        let t = row_total(x, w, i, k);
        assert((v + d) * (v + d) == v * v + 2 * (v * d) + d * d) by (nonlinear_arith);
        assert((t + v) * d == t * d + v * d) by (nonlinear_arith);
        let kd = k as int * d;
        assert(n as int * d == kd + d) by (nonlinear_arith)
            requires
                n as int == k as int + 1,
                kd == k as int * d,
        ;
        assert((kd + d) * d == kd * d + d * d) by (nonlinear_arith);
    }
}

/// The average over the columns of what depends on the row alone is what it is.
proof fn lemma_rows_alone(half: int, c: nat, h: spec_fn(int) -> int, row: Seq<int>)
    ensures
        sum(
            pow2(c + row.len()),
            |p: int| beta(averaging_point(half, c, row), p) * h(p / pow2(c) as int),
        ) == sum(pow2(row.len()), |i: int| h(i) * beta(row, i)),
{
    let w = pow2(c);
    let rows = pow2(row.len());
    lemma_pow2_pos(c);
    lemma_pow2_adds(c, row.len());
    assert(rows * w == w * rows) by (nonlinear_arith);
    let halves = Seq::new(c, |i: int| half);
    let b = |p: int| beta(averaging_point(half, c, row), p) * h(p / pow2(c) as int);
    lemma_sum_grid(rows, w, b);
    let b_rows = |i: int| sum(w, |j: int| b(i * w + j));
    let goal = |i: int| h(i) * beta(row, i);
    assert forall|i: int| 0 <= i < rows implies #[trigger] b_rows(i) == goal(i) by {
        let s = h(i);
        let k = beta(row, i) * s;
        let br = |j: int| b(i * w + j);
        let hb = |j: int| beta(halves, j);
        assert forall|j: int| 0 <= j < w implies #[trigger] br(j) == k * hb(j) by {
            lemma_beta_join(halves, row, j, i);
            lemma_fundamental_div_mod_converse(i * w + j, w as int, i, j);
            let (u, r) = (hb(j), beta(row, i));
            assert((u * r) * s == (r * s) * u) by (nonlinear_arith);
        }
        lemma_sum_same(w, br, |j: int| k * hb(j));
        lemma_sum_scale(w, k, hb);
        lemma_betas_sum(halves);
        lemma_sum_same(w, hb, |j: int| beta(halves, j));
        assert(k * 1 == k);
        assert(beta(row, i) * s == s * beta(row, i)) by (nonlinear_arith);
    }
    lemma_sum_same(rows, b_rows, goal);
}

/// What the first sumcheck sums at a place depends on the residues alone.
proof fn lemma_first_cong(v: Seq<int>, u: Seq<int>, c: int, a: (int, int, int), b: (int, int, int), m: int)
    requires
        m > 1,
        v.len() == 7,
        u.len() == 7,
        forall|i: int| 0 <= i < 7 ==> cong(#[trigger] v[i], u[i], m),
        cong(a.0, b.0, m),
        cong(a.1, b.1, m),
        cong(a.2, b.2, m),
    ensures
        cong(first_value(v, c, a.0, a.1, a.2), first_value(u, c, b.0, b.1, b.2), m),
{
    assert(cong(v[0], u[0], m) && cong(v[1], u[1], m) && cong(v[2], u[2], m) && cong(v[3], u[3], m)
        && cong(v[4], u[4], m) && cong(v[5], u[5], m) && cong(v[6], u[6], m));
    lemma_cong_times(a.2, b.2, v[0], u[0], m);
    lemma_cong_times(a.2 * v[0], b.2 * u[0], v[0], u[0], m);
    lemma_cong_times(v[1], u[1], v[1], u[1], m);
    let (s, t) = (a.2 * v[0] * v[0] - v[1] * v[1], b.2 * u[0] * u[0] - u[1] * u[1]);
    lemma_cong_minus(a.2 * v[0] * v[0], b.2 * u[0] * u[0], v[1] * v[1], u[1] * u[1], m);
    lemma_cong_times(a.0, b.0, s, t, m);
    lemma_cong_times(c, c, v[2], u[2], m);
    let (s2, t2) = (a.0 * s + c * v[2], b.0 * t + c * u[2]);
    lemma_cong_plus(a.0 * s, b.0 * t, c * v[2], c * u[2], m);
    lemma_cong_times(v[5], u[5], s2, t2, m);
    lemma_cong_times(a.1, b.1, v[0], u[0], m);
    let (s3, t3) = (a.1 * v[0] - v[1], b.1 * u[0] - u[1]);
    lemma_cong_minus(a.1 * v[0], b.1 * u[0], v[1], u[1], m);
    lemma_cong_times(v[3], u[3], v[2], u[2], m);
    lemma_cong_times(v[3] * v[2], u[3] * u[2], s3, t3, m);
    let (s4, t4) = (v[3] * v[2] * s3 + v[4], u[3] * u[2] * t3 + u[4]);
    lemma_cong_plus(v[3] * v[2] * s3, u[3] * u[2] * t3, v[4], u[4], m);
    lemma_cong_times(c * c, c * c, v[6], u[6], m);
    lemma_cong_times(c * c * v[6], c * c * u[6], s4, t4, m);
    lemma_cong_plus(v[5] * s2, u[5] * t2, c * c * v[6] * s4, c * c * u[6] * t4, m);
}

/// The values of the tables of the first sumcheck at a place.
pub open spec fn first_place<F: PrimeField>(s: LayerNormSumcheck<F>, p: int) -> Seq<int> {
    seq![
        s.input@[p].residue(),
        s.mean@[p].residue(),
        s.inv_sqrt@[p].residue(),
        s.gamma@[p].residue(),
        s.beta@[p].residue(),
        s.input_eq@[p].residue(),
        s.last_claim_eq@[p].residue(),
    ]
}

/// The first sumcheck proves the evaluation: over the prover's tables, its polynomial sums
/// to what was looked up, at the point of the lookup, and to the output, at the point of
/// the claim on it, batched. What is looked up is the full values and their inverse roots.
pub proof fn law_evaluation_is_proved<F: PrimeField>(
    layer: LayerNorm<Element>,
    ctx: LayerNormCtx<F>,
    x: Seq<Element>,
    k: nat,
    inv: Seq<Element>,
    out: Seq<Element>,
    full: Seq<Element>,
    lookup: Seq<int>,
    last: Seq<int>,
    half: int,
    s: LayerNormSumcheck<F>,
    alpha: int,
)
    requires
        F::modulus() > 1,
        inverts(2, half, F::modulus()),
        layer.quant_info is Some,
        ctx.is_for(layer.quant_info->Some_0),
        log2_ceil(layer.quant_info->Some_0.dim_size as nat) == k,
        x.len() == pow2(k + lookup.len()),
        last.len() == k + lookup.len(),
        inv.len() == pow2(lookup.len()),
        full.len() == pow2(lookup.len()),
        out.len() == x.len(),
        forall|i: int|
            0 <= i < full.len() ==> #[trigger] full[i] == layer.quant_info->Some_0.full(
                x,
                pow2(k) as int,
                i,
            ),
        forall|i: int, j: int|
            0 <= i < pow2(lookup.len()) && 0 <= j < pow2(k) ==> #[trigger] out[i * pow2(k) + j]
                == layer.value(x, pow2(k) as int, inv, i, j),
        is_layernorm_sumcheck(
            x,
            k,
            inv,
            layer.gamma.tensor.data@,
            layer.beta.tensor.data@,
            lookup,
            last,
            half,
            s,
        ),
    ensures
        cong(
            sum(
                x.len(),
                |p: int| ctx.first_sumcheck_expression.value(first_place(s, p), seq![alpha]),
            ),
            mle(element_ints(full), lookup) + alpha * mle(element_ints(inv), lookup) + alpha * alpha
                * mle(element_ints(out), last),
            F::modulus(),
        ),
{
    let m = F::modulus();
    let q = layer.quant_info->Some_0;
    let (mult, n) = (q.multiplier as int, q.dim_size as int);
    let w = pow2(k);
    let rows = pow2(lookup.len());
    let total = x.len();
    let e = element_ints(x);
    let point = averaging_point(half, k, lookup);
    let n_cols = n * w;
    lemma_pow2_pos(k);
    lemma_pow2_adds(k, lookup.len());
    assert(rows * w == w * rows) by (nonlinear_arith);
    let given = |p: int| ctx.first_sumcheck_expression.value(first_place(s, p), seq![alpha]);
    let a = |p: int|
        beta(averaging_point(half, k, lookup), p) * (mult * ((n * pow2(k)) * e[p] * e[p] - int_row(
            e,
            pow2(k),
            p / pow2(k) as int,
        ) * int_row(e, pow2(k), p / pow2(k) as int)));
    let h = |i: int| alpha * inv[i];
    let b = |p: int| beta(averaging_point(half, k, lookup), p) * h(p / pow2(k) as int);
    let o = |p: int| element_ints(out)[p] * beta(last, p);
    let c = |p: int| (alpha * alpha) * o(p);
    let whole = |p: int| (a(p) + b(p)) + c(p);
    assert forall|p: int| 0 <= p < total implies cong(#[trigger] given(p), whole(p), m) by {
        let (i, j) = (p / w as int, p % w as int);
        lemma_fundamental_div_mod(p, w as int);
        lemma_mod_bound(p, w as int);
        lemma_div_pos_is_pos(p, w as int);
        let wi = w as int;
        assert(wi * i == i * wi) by (nonlinear_arith);
        assert(i < rows && (i + 1) * wi <= rows * wi) by (nonlinear_arith)
            requires
                p == i * wi + j,
                0 <= j < wi,
                p < rows * wi,
        ;
        lemma_row_ints(x, w, i);
        let u = seq![
            e[p],
            int_row(e, w, i),
            inv[i] as int,
            layer.gamma.tensor.data@[j] as int,
            layer.beta.tensor.data@[j] as int,
            beta(point, p),
            beta(last, p),
        ];
        let v = first_place(s, p);
        lemma_residue_cong(s.input@[p], u[0]);
        assert(stands_for(s.mean@[p], row_total(x, wi, p / wi, wi as nat)));
        lemma_residue_cong(s.mean@[p], u[1]);
        lemma_residue_cong(s.inv_sqrt@[p], u[2]);
        lemma_residue_cong(s.gamma@[p], u[3]);
        lemma_residue_cong(s.beta@[p], u[4]);
        assert(betas(point)[p] == u[5]);
        lemma_residue_cong(s.input_eq@[p], u[5]);
        assert(betas(last)[p] == u[6]);
        lemma_residue_cong(s.last_claim_eq@[p], u[6]);
        lemma_mod_twice(mult, m);
        lemma_mod_twice(n, m);
        lemma_mod_twice(n_cols, m);
        lemma_first_cong(
            v,
            u,
            alpha,
            (mult % m, n % m, n_cols % m),
            (mult, n, n_cols),
            m,
        );
        assert(given(p) == first_value(v, alpha, mult % m, n % m, n_cols % m));
        assert(out[i * pow2(k) + j] == layer.value(x, wi, inv, i, j));
        let (g, r, y, be) = (u[3], u[2], n * u[0] - u[1], u[4]);
        assert(u[0] * n == n * u[0]) by (nonlinear_arith);
        assert(y * g * r == g * r * y) by (nonlinear_arith);
        assert(element_ints(out)[p] == g * r * y + be);
        let (t, l, x1, x2) = (u[5], u[6], mult * (n_cols * e[p] * e[p] - u[1] * u[1]), g * r * y
            + be);
        let aa = alpha * alpha;
        assert(t * (x1 + alpha * r) == t * x1 + t * (alpha * r)) by (nonlinear_arith);
        assert(aa * l * x2 == aa * (x2 * l)) by (nonlinear_arith);
        assert(first_value(u, alpha, mult, n, n_cols) == whole(p));
    }
    lemma_cong_sum(total, given, whole, m);
    let ab = |p: int| a(p) + b(p);
    lemma_sum_same(total, whole, |p: int| ab(p) + c(p));
    lemma_sum_plus(total, ab, c);
    lemma_sum_plus(total, a, b);
    lemma_sum_scale(total, alpha * alpha, o);
    lemma_sum_same(total, c, |p: int| (alpha * alpha) * o(p));
    lemma_sum_same(total, o, |p: int| element_ints(out)[p] * beta(last, p));
    // The full values.
    law_variance(e, k, mult, n, lookup, half, m);
    let fulls = |i: int| element_ints(full)[i] * beta(lookup, i);
    let a_goal = |i: int|
        beta(lookup, i) * (mult * (n * int_squares(e, pow2(k), i) - int_row(e, pow2(k), i) * int_row(
            e,
            pow2(k),
            i,
        )));
    assert forall|i: int| 0 <= i < rows implies #[trigger] a_goal(i) == fulls(i) by {
        let wi = w as int;
        assert((i + 1) * wi <= rows * wi) by (nonlinear_arith)
            requires
                i < rows,
                wi > 0,
        ;
        law_full_value(q, x, w, i);
        let (f, r) = (full[i] as int, beta(lookup, i));
        assert(r * f == f * r) by (nonlinear_arith);
    }
    lemma_sum_same(rows, a_goal, fulls);
    // Their inverse roots.
    lemma_rows_alone(half, k, h, lookup);
    let roots = |i: int| element_ints(inv)[i] * beta(lookup, i);
    let b_goal = |i: int| h(i) * beta(lookup, i);
    assert forall|i: int| 0 <= i < rows implies #[trigger] b_goal(i) == alpha * roots(i) by {
        let (f, r) = (inv[i] as int, beta(lookup, i));
        assert((alpha * f) * r == alpha * (f * r)) by (nonlinear_arith);
    }
    lemma_sum_same(rows, b_goal, |i: int| alpha * roots(i));
    lemma_sum_scale(rows, alpha, roots);
    let (sa, sf) = (sum(total, a), sum(rows, fulls));
    let sb = sum(total, b);
    let sc = sum(total, c);
    assert(sb == alpha * mle(element_ints(inv), lookup));
    assert(sc == (alpha * alpha) * mle(element_ints(out), last));
    lemma_cong_plus(sa, sf, sb, sb, m);
    lemma_cong_plus(sa + sb, sf + sb, sc, sc, m);
    assert(sf == mle(element_ints(full), lookup));
}

} // verus!
