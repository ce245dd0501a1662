//! What the sumchecks of the layer start from and end on.
use vstd::prelude::*;
use vstd::arithmetic::div_mod::*;
use vstd::arithmetic::power2::{lemma_pow2_adds, lemma_pow2_pos, pow2};
use crate::congruence::{cong, lemma_cong_plus, lemma_cong_sum, lemma_cong_times, lemma_end_cong, lemma_residue_cong};
use crate::error::Error;
use crate::field::{all_stand_for, inverts, residues, stands_for, PrimeField};
use crate::layernorm::laws::{int_row, law_row_sums};
use crate::layernorm::prove::{is_layernorm_sumcheck, LayerNormClaims, LayerNormCtx, LayerNormSumcheck};
use crate::layernorm::verify::{mean_sum, recombined_evals, scaled_by, LayerNormEnds};
use crate::layernorm::witness::{bit_chunk, checked_chunk, is_chunk_column, law_value_recombines, num_range_checks};
use crate::layernorm::{top_exponent, LayerNorm, QuantisedLayerNormData};
use crate::logits::prove::averaging_point;
use crate::logits::witness::element_ints;
use crate::mle::{beta, betas, lemma_betas_sum, lemma_mle_grid, lemma_pow2_unfold_zero, mle};
use crate::shape::log2_ceil;
use crate::sum::{lemma_sum_plus, lemma_sum_same, lemma_sum_scale, lemma_sum_swap, sum};
use crate::tensor::{Element, Tensor};

verus! {

/// Powers of the size of a chunk.
proof fn lemma_chunk_powers(b: nat, n: nat)
    ensures
        scaled_by(1, pow2(b) as int, n) == pow2(b * n),
    decreases n,
{
    if n == 0 {
        assert(b * 0 == 0) by (nonlinear_arith);
        lemma_pow2_unfold_zero();
    } else {
        let k = (n - 1) as nat;
        lemma_chunk_powers(b, k);
        assert(b * n == b * k + b) by (nonlinear_arith)
            requires
                n == k + 1,
        ;
        lemma_pow2_adds(b * k, b);
    }
}

/// A base can be multiplied at the end.
proof fn lemma_scaled_apart(base: int, f: int, n: nat)
    ensures
        scaled_by(base, f, n) == base * scaled_by(1, f, n),
    decreases n,
{
    if n > 0 {
        let k = (n - 1) as nat;
        lemma_scaled_apart(base, f, k);
        let s = scaled_by(1, f, k);
        assert((base * s) * f == base * (s * f)) by (nonlinear_arith);
    }
}

/// Halves undo a power of two.
proof fn lemma_halved(half: int, n: nat, m: int)
    requires
        m > 1,
        inverts(2, half, m),
    ensures
        cong(pow2(n) * scaled_by(1, half, n), 1, m),
    decreases n,
{
    lemma_small_mod(1, m as nat);
    if n == 0 {
        lemma_pow2_unfold_zero();
    } else {
        let k = (n - 1) as nat;
        lemma_halved(half, k, m);
        lemma_pow2_adds(k, 1);
        vstd::arithmetic::power2::lemma2_to64();
        let (p, s) = (pow2(k) as int, scaled_by(1, half, k));
        lemma_cong_times(p * s, 1, 2 * half, 1, m);
        assert((p * 2) * (s * half) == (p * s) * (2 * half)) by (nonlinear_arith);
    }
}

/// The chunk `j` of the low bits of a value, without its scale.
pub open spec fn low_chunk(v: int, bits: nat, b: nat, j: int) -> int {
    bit_chunk(v % pow2(bits) as int, b as int, j)
}

/// Where the evaluations are those of the columns that are looked up and range checked,
/// they recombine to the extension of the values whose inverse roots are looked up.
pub proof fn law_recombined(
    q: QuantisedLayerNormData,
    full: Seq<Element>,
    b: nat,
    inputs: Seq<Element>,
    columns: Seq<Vec<Element>>,
    range: Seq<int>,
    input: int,
    point: Seq<int>,
    half: int,
    m: int,
)
    requires
        m > 1,
        inverts(2, half, m),
        b >= 1,
        q.range_check_bits >= 1,
        q.top_chunk_scalar_log == top_exponent(q.range_check_bits as int, b as int),
        full.len() == pow2(point.len()),
        inputs.len() == full.len(),
        forall|i: int|
            0 <= i < full.len() ==> #[trigger] inputs[i] == full[i] as int / pow2(
                q.range_check_bits as nat,
            ) as int,
        columns.len() == num_range_checks(q.range_check_bits as int, b as int),
        forall|j: int|
            0 <= j < columns.len() ==> is_chunk_column(
                q,
                full,
                b as int,
                j,
                (#[trigger] columns[j])@,
            ),
        range.len() == columns.len(),
        forall|j: int|
            0 <= j < range.len() ==> cong(
                #[trigger] range[j],
                mle(element_ints(columns[j]@), point),
                m,
            ),
        cong(input, mle(element_ints(inputs), point), m),
    ensures
        cong(
            recombined_evals(
                range,
                input,
                q.range_check_bits as nat,
                q.top_chunk_scalar_log as nat,
                pow2(b) as int,
                half,
            ),
            mle(element_ints(full), point),
            m,
        ),
{
    let bits = q.range_check_bits as nat;
    let top = q.top_chunk_scalar_log as nat;
    let chunk = pow2(b) as int;
    let len = full.len();
    let n = columns.len();
    lemma_div_pos_is_pos(bits - 1, b as int);
    let n1 = (n - 1) as nat;
    let weight = |j: int| pow2((b * j) as nat) as int;
    // One chunk of each value.
    let s = |j: int| sum(len, |i: int| low_chunk(full[i] as int, bits, b, j) * beta(point, i));
    let target = |j: int| s(j) * weight(j);
    let given = |j: int| range[j] * scaled_by(1, chunk, j as nat);
    assert forall|j: int| 0 <= j < n1 implies cong(#[trigger] given(j), target(j), m) by {
        lemma_chunk_powers(b, j as nat);
        let column = element_ints(columns[j]@);
        let f = |i: int| low_chunk(full[i] as int, bits, b, j) * beta(point, i);
        assert(is_chunk_column(q, full, b as int, j, columns[j]@));
        lemma_sum_same(len, |i: int| column[i] * beta(point, i), f);
        assert(cong(range[j], mle(column, point), m));
        lemma_cong_times(range[j], s(j), weight(j), weight(j), m);
    }
    lemma_cong_sum(n1, given, target, m);
    lemma_sum_same(n1, given, |j: int| range[j] * scaled_by(1, chunk, j as nat));
    // The highest chunk.
    let last = n - 1;
    let column = element_ints(columns[last]@);
    let h = scaled_by(1, half, top);
    lemma_scaled_apart(range.last(), half, top);
    assert(cong(range[last], mle(column, point), m));
    lemma_cong_times(range[last], mle(column, point), h, h, m);
    let raw = |i: int| column[i] * beta(point, i);
    let scaled = |i: int| h * raw(i);
    let plain = |i: int| low_chunk(full[i] as int, bits, b, last) * beta(point, i);
    lemma_sum_scale(len, h, raw);
    lemma_sum_same(len, raw, |i: int| column[i] * beta(point, i));
    assert(is_chunk_column(q, full, b as int, last, columns[last]@));
    lemma_halved(half, top, m);
    assert forall|i: int| 0 <= i < len implies cong(#[trigger] scaled(i), plain(i), m) by {
        let (c, y, t) = (
            low_chunk(full[i] as int, bits, b, last),
            beta(point, i),
            pow2(top) as int,
        );
        assert(columns[last]@[i] == checked_chunk(full[i] as int, bits as int, b as int, top as int, last));
        let cy = c * y;
        lemma_cong_times(t * h, 1, cy, cy, m);
        assert(h * ((c * t) * y) == (t * h) * (c * y)) by (nonlinear_arith);
        assert(1 * cy == cy);
    }
    lemma_cong_sum(len, scaled, plain, m);
    let ml = mle(column, point);
    assert(ml * h == h * ml) by (nonlinear_arith);
    assert(cong(range[last] * h, s(last), m));
    lemma_chunk_powers(b, n1);
    lemma_cong_times(range[last] * h, s(last), weight(last), weight(last), m);
    // What was looked up.
    let p = pow2(bits) as int;
    lemma_cong_times(input, mle(element_ints(inputs), point), p, p, m);
    let (a0, a1, a2) = (
        mle(element_ints(inputs), point) * p,
        sum(n1, target),
        s(last) * weight(last),
    );
    lemma_cong_plus(input * p, a0, sum(n1, given), a1, m);
    lemma_cong_plus(
        input * p + sum(n1, given),
        a0 + a1,
        (range[last] * h) * weight(last),
        a2,
        m,
    );
    assert(sum(n, target) == a1 + a2);
    // All of it.
    let cell = |i: int, j: int| low_chunk(full[i] as int, bits, b, j) * weight(j) * beta(point, i);
    let by_chunk = |j: int| sum(len, |i: int| cell(i, j));
    assert forall|j: int| 0 <= j < n implies #[trigger] target(j) == by_chunk(j) by {
        let f = |i: int| low_chunk(full[i] as int, bits, b, j) * beta(point, i);
        let w = weight(j);
        lemma_sum_scale(len, w, f);
        assert forall|i: int| 0 <= i < len implies #[trigger] cell(i, j) == w * f(i) by {
            let (c, y) = (low_chunk(full[i] as int, bits, b, j), beta(point, i));
            assert(c * w * y == w * (c * y)) by (nonlinear_arith);
        }
        lemma_sum_same(len, |i: int| cell(i, j), |i: int| w * f(i));
        let sf = sum(len, f);
        assert(sf * w == w * sf) by (nonlinear_arith);
    }
    lemma_sum_same(n, target, by_chunk);
    lemma_sum_swap(len, n, cell);
    let by_value = |i: int| sum(n, |j: int| cell(i, j));
    let high = |i: int| element_ints(inputs)[i] * beta(point, i);
    let high_p = |i: int| p * high(i);
    lemma_sum_scale(len, p, high);
    lemma_sum_same(len, high, |i: int| element_ints(inputs)[i] * beta(point, i));
    let hm = mle(element_ints(inputs), point);
    assert(hm * p == p * hm) by (nonlinear_arith);
    let goal = |i: int| element_ints(full)[i] * beta(point, i);
    assert forall|i: int| 0 <= i < len implies #[trigger] goal(i) == high_p(i) + by_value(i) by {
        let v = full[i] as int;
        let y = beta(point, i);
        law_value_recombines(v, bits, b);
        let low = v % p;
        let parts = |j: int| bit_chunk(low, b as int, j) * pow2((b * j) as nat);
        let both = |j: int| y * parts(j);
        lemma_sum_scale(n, y, parts);
        lemma_sum_same(n, parts, |j: int| bit_chunk(low, b as int, j) * pow2((b * j) as nat));
        assert forall|j: int| 0 <= j < n implies #[trigger] both(j) == cell(i, j) by {
            let pj = parts(j);
            assert(y * pj == pj * y) by (nonlinear_arith);
        }
        lemma_sum_same(n, both, |j: int| cell(i, j));
        let (d, sp) = (v / p, sum(n, parts));
        assert((d * p + sp) * y == p * (d * y) + y * sp) by (nonlinear_arith);
        assert(inputs[i] == d);
    }
    lemma_sum_same(len, goal, |i: int| high_p(i) + by_value(i));
    lemma_sum_plus(len, high_p, by_value);
    lemma_sum_same(len, high_p, |i: int| p * high(i));
    lemma_sum_same(len, by_value, |i: int| sum(n, |j: int| cell(i, j)));
    lemma_sum_same(n, by_chunk, |j: int| sum(len, |i: int| cell(i, j)));
    lemma_sum_same(len, goal, |i: int| element_ints(full)[i] * beta(point, i));
}

/// The first sumcheck starts from the sum that it proves: where the evaluations are those
/// of what the lookup covers, and the claim is on the output, it is the extension of the
/// full values, of their inverse roots and of the output, batched.
pub proof fn law_first_sum<F: PrimeField>(
    ctx: LayerNormCtx<F>,
    q: QuantisedLayerNormData,
    full: Seq<Element>,
    b: nat,
    inputs: Seq<Element>,
    columns: Seq<Vec<Element>>,
    inv: Seq<Element>,
    out: Seq<Element>,
    evals: Seq<int>,
    lookup: Seq<int>,
    last: Seq<int>,
    last_eval: int,
    alpha: int,
    half: int,
)
    requires
        F::modulus() > 1,
        inverts(2, half, F::modulus()),
        b >= 1,
        q.range_check_bits >= 1,
        q.top_chunk_scalar_log == top_exponent(q.range_check_bits as int, b as int),
        ctx.range_check_bits == q.range_check_bits,
        ctx.top_chunk_scalar_log == q.top_chunk_scalar_log,
        full.len() == pow2(lookup.len()),
        inputs.len() == full.len(),
        forall|i: int|
            0 <= i < full.len() ==> #[trigger] inputs[i] == full[i] as int / pow2(
                q.range_check_bits as nat,
            ) as int,
        columns.len() == num_range_checks(q.range_check_bits as int, b as int),
        forall|j: int|
            0 <= j < columns.len() ==> is_chunk_column(
                q,
                full,
                b as int,
                j,
                (#[trigger] columns[j])@,
            ),
        evals.len() == columns.len() + 2,
        forall|j: int|
            0 <= j < columns.len() ==> cong(
                #[trigger] evals[j],
                mle(element_ints(columns[j]@), lookup),
                F::modulus(),
            ),
        cong(evals[evals.len() - 2], mle(element_ints(inputs), lookup), F::modulus()),
        cong(evals[evals.len() - 1], mle(element_ints(inv), lookup), F::modulus()),
        cong(last_eval, mle(element_ints(out), last), F::modulus()),
    ensures
        cong(
            ctx.first_sum(evals, alpha, last_eval, b, half),
            mle(element_ints(full), lookup) + alpha * mle(element_ints(inv), lookup) + alpha * alpha
                * mle(element_ints(out), last),
            F::modulus(),
        ),
{
    let m = F::modulus();
    let n = evals.len() - 2;
    let range = evals.take(n);
    assert forall|j: int| 0 <= j < range.len() implies cong(
        #[trigger] range[j],
        mle(element_ints(columns[j]@), lookup),
        m,
    ) by {
        assert(cong(evals[j], mle(element_ints(columns[j]@), lookup), m));
    }
    law_recombined(q, full, b, inputs, columns, range, evals[n], lookup, half, m);
    let (x, y, a) = (
        mle(element_ints(inv), lookup),
        mle(element_ints(out), last),
        alpha,
    );
    lemma_cong_times(a, a, last_eval, y, m);
    lemma_cong_plus(evals[n + 1], x, a * last_eval, a * y, m);
    lemma_cong_times(a, a, evals[n + 1] + a * last_eval, x + a * y, m);
    let f = mle(element_ints(full), lookup);
    let r = recombined_evals(
        range,
        evals[n],
        ctx.range_check_bits as nat,
        ctx.top_chunk_scalar_log as nat,
        pow2(b) as int,
        half,
    );
    lemma_cong_plus(r, f, a * (evals[n + 1] + a * last_eval), a * (x + a * y), m);
    assert(a * (x + a * y) == a * x + (a * a) * y) by (nonlinear_arith);
}

/// The sums of the rows of elements, at every place of the row.
pub open spec fn sums_of_rows(x: Seq<Element>, k: nat) -> Seq<int> {
    Seq::new(x.len(), |p: int| int_row(element_ints(x), pow2(k), p / pow2(k) as int))
}

/// The second sumcheck proves the sums of the rows, and starts from them: over its tables,
/// its polynomial sums to what it starts from, where the evaluations are those of the
/// input and of the sums of its rows.
pub proof fn law_mean_sum<F: PrimeField>(
    ctx: LayerNormCtx<F>,
    q: QuantisedLayerNormData,
    x: Seq<Element>,
    k: nat,
    io: Seq<int>,
    input: Seq<F>,
    input_eq: Seq<F>,
    mean_eq: Seq<F>,
    evals: Seq<int>,
    alpha: int,
    half: int,
)
    requires
        F::modulus() > 1,
        inverts(2, half, F::modulus()),
        ctx.is_for(q),
        log2_ceil(q.dim_size as nat) == k,
        k <= io.len(),
        x.len() == pow2(io.len()),
        all_stand_for(input, element_ints(x)),
        all_stand_for(input_eq, betas(io)),
        all_stand_for(mean_eq, betas(averaging_point(half, k, io.skip(k as int)))),
        cong(evals[0], mle(element_ints(x), io), F::modulus()),
        cong(evals[1], mle(sums_of_rows(x, k), io), F::modulus()),
    ensures
        cong(
            sum(
                x.len(),
                |p: int|
                    ctx.mean_sumcheck_expression.value(
                        seq![input[p].residue(), input_eq[p].residue(), mean_eq[p].residue()],
                        seq![alpha],
                    ),
            ),
            mean_sum(evals, alpha),
            F::modulus(),
        ),
{
    let m = F::modulus();
    let e = element_ints(x);
    let (low, row) = (io.take(k as int), io.skip(k as int));
    assert(io =~= low + row);
    let point = averaging_point(half, k, row);
    let total = x.len();
    let cols = pow2(k) as int;
    law_row_sums(e, k, low, row, half, m);
    assert(sums_of_rows(x, k) =~= Seq::new(
        pow2(k + row.len()),
        |p: int| int_row(e, pow2(k), p / pow2(k) as int),
    ));
    let given = |p: int|
        ctx.mean_sumcheck_expression.value(
            seq![input[p].residue(), input_eq[p].residue(), mean_eq[p].residue()],
            seq![alpha],
        );
    let a = |p: int| e[p] * beta(io, p);
    let b = |p: int| (pow2(k) * beta(averaging_point(half, k, row), p)) * e[p];
    let ab = |p: int| alpha * b(p);
    let whole = |p: int| a(p) + ab(p);
    assert forall|p: int| 0 <= p < total implies cong(#[trigger] given(p), whole(p), m) by {
        assert(betas(io)[p] == beta(io, p));
        assert(betas(point)[p] == beta(point, p));
        let (u, v, w) = (input[p].residue(), input_eq[p].residue(), mean_eq[p].residue());
        lemma_residue_cong(input[p], e[p]);
        lemma_residue_cong(input_eq[p], beta(io, p));
        lemma_residue_cong(mean_eq[p], beta(point, p));
        lemma_mod_twice(cols, m);
        lemma_cong_times(alpha, alpha, cols % m, cols, m);
        lemma_cong_times(alpha * (cols % m), alpha * cols, w, beta(point, p), m);
        lemma_cong_plus(
            v,
            beta(io, p),
            (alpha * (cols % m)) * w,
            (alpha * cols) * beta(point, p),
            m,
        );
        lemma_cong_times(
            u,
            e[p],
            v + (alpha * (cols % m)) * w,
            beta(io, p) + (alpha * cols) * beta(point, p),
            m,
        );
        let (y, s, t) = (e[p], beta(io, p), beta(point, p));
        assert(y * (s + (alpha * cols) * t) == y * s + alpha * ((cols * t) * y))
            by (nonlinear_arith);
    }
    lemma_cong_sum(total, given, whole, m);
    lemma_sum_plus(total, a, ab);
    lemma_sum_scale(total, alpha, b);
    lemma_sum_same(total, ab, |p: int| alpha * b(p));
    let (sa, sb) = (mle(e, io), mle(sums_of_rows(x, k), io));
    lemma_sum_same(total, a, |p: int| e[p] * beta(io, p));
    lemma_cong_times(alpha, alpha, sum(total, b), sb, m);
    lemma_cong_times(alpha, alpha, evals[1], sb, m);
    lemma_cong_plus(evals[0], sa, alpha * evals[1], alpha * sb, m);
    lemma_cong_plus(sum(total, a), sa, alpha * sum(total, b), alpha * sb, m);
}

/// At given evaluations, points and challenges, the verifier accepts the first sumcheck at
/// one end only; and the ends of two second sumchecks from which it finds the same
/// evaluation of the input are the same.
pub proof fn law_one_end<F: PrimeField>(
    ctx: LayerNormCtx<F>,
    a: LayerNormEnds<F>,
    b: LayerNormEnds<F>,
    evals: Seq<F>,
    half: F,
    ra: Result<LayerNormClaims<F>, Error>,
    rb: Result<LayerNormClaims<F>, Error>,
)
    requires
        a.decides(ctx, evals, half, ra),
        b.decides(ctx, evals, half, rb),
        ra is Ok && rb is Ok,
        a.alpha == b.alpha && a.mean_alpha == b.mean_alpha,
        a.lookup_point@ == b.lookup_point@,
        a.last_claims@[0].point@ == b.last_claims@[0].point@,
        a.io_subclaim.point@ == b.io_subclaim.point@,
        a.mean_subclaim.point@ == b.mean_subclaim.point@,
    ensures
        a.io_subclaim.expected_evaluation.residue() == b.io_subclaim.expected_evaluation.residue(),
        (ra->Ok_0.input.eval.residue() == rb->Ok_0.input.eval.residue()) == (
        a.mean_subclaim.expected_evaluation.residue()
            == b.mean_subclaim.expected_evaluation.residue()),
{
    let m = F::modulus();
    let (x, y) = (ra->Ok_0.input.eval, rb->Ok_0.input.eval);
    let (s, t) = (a.mean_subclaim.expected_evaluation, b.mean_subclaim.expected_evaluation);
    s.residue_bounds();
    t.residue_bounds();
    x.residue_bounds();
    y.residue_bounds();
    lemma_small_mod(x.residue() as nat, m as nat);
    lemma_small_mod(y.residue() as nat, m as nat);
    lemma_small_mod(s.residue() as nat, m as nat);
    lemma_small_mod(t.residue() as nat, m as nat);
    assert(stands_for(x, x.residue()));
    assert(stands_for(y, y.residue()));
    if s.residue() == t.residue() {
        assert(stands_for(y, x.residue()));
    }
}

/// The evaluation of the input that the verifier finds, times its factor, is what the
/// second sumcheck ended on.
pub proof fn law_found_input<F: PrimeField>(
    ctx: LayerNormCtx<F>,
    ends: LayerNormEnds<F>,
    evals: Seq<F>,
    half: F,
    c: LayerNormClaims<F>,
)
    requires
        ends.decides(ctx, evals, half, Ok(c)),
    ensures
        cong(
            c.input.eval.residue() * ends.factor(half),
            ends.mean_subclaim.expected_evaluation.residue(),
            F::modulus(),
        ),
{
    c.input.eval.residue_bounds();
    lemma_small_mod(c.input.eval.residue() as nat, F::modulus() as nat);
    assert(stands_for(c.input.eval, c.input.eval.residue()));
}

/// The extension of a table that holds a value for each row, and of one that holds a value
/// for each column, is that of the values.
proof fn lemma_spread(v: Seq<int>, c: nat, low: Seq<int>, row: Seq<int>)
    requires
        low.len() == c,
    ensures
        mle(Seq::new(pow2(c + row.len()), |p: int| v[p / pow2(c) as int]), low + row) == mle(v, row),
        mle(Seq::new(pow2(c + row.len()), |p: int| v[p % pow2(c) as int]), low + row) == mle(v, low),
{
    let (w, rows) = (pow2(c), pow2(row.len()));
    lemma_pow2_pos(c);
    lemma_pow2_adds(c, row.len());
    assert(rows * w == w * rows) by (nonlinear_arith);
    let a = Seq::new(pow2(c + row.len()), |p: int| v[p / pow2(c) as int]);
    let b = Seq::new(pow2(c + row.len()), |p: int| v[p % pow2(c) as int]);
    lemma_mle_grid(a, low, row);
    lemma_mle_grid(b, low, row);
    let by_row = |i: int| sum(w, |j: int| a[i * w + j] * beta(low, j)) * beta(row, i);
    let by_col = |i: int| sum(w, |j: int| b[i * w + j] * beta(low, j)) * beta(row, i);
    let at_row = |i: int| v[i] * beta(row, i);
    let high = |i: int| beta(row, i);
    let t = mle(v, low);
    assert forall|i: int| 0 <= i < rows implies #[trigger] by_row(i) == at_row(i) && by_col(i) == t
        * high(i) by {
        let f = |j: int| a[i * w + j] * beta(low, j);
        let g = |j: int| b[i * w + j] * beta(low, j);
        let hb = |j: int| beta(low, j);
        let vb = |j: int| v[j] * beta(low, j);
        let vi = v[i];
        assert forall|j: int| 0 <= j < w implies #[trigger] f(j) == vi * hb(j) && g(j) == vb(j) by {
            let p = i * w + j;
            lemma_fundamental_div_mod_converse(p, w as int, i, j);
            assert(0 <= p < rows * w) by (nonlinear_arith)
                requires
                    p == i * w + j,
                    0 <= i < rows,
                    0 <= j < w,
            ;
        }
        lemma_sum_same(w, f, |j: int| vi * hb(j));
        lemma_sum_scale(w, vi, hb);
        lemma_betas_sum(low);
        lemma_sum_same(w, hb, |j: int| beta(low, j));
        assert(vi * 1 == vi);
        assert forall|j: int| 0 <= j < w implies #[trigger] g(j) == vb(j) by {
            assert(f(j) == vi * hb(j));
        }
        lemma_sum_same(w, g, vb);
    }
    lemma_sum_same(rows, by_row, at_row);
    assert forall|i: int| 0 <= i < rows implies #[trigger] by_col(i) == t * high(i) by {
        assert(by_row(i) == at_row(i));
    }
    lemma_sum_same(rows, by_col, |i: int| t * high(i));
    lemma_sum_scale(rows, t, high);
    lemma_betas_sum(row);
    lemma_sum_same(rows, high, |i: int| beta(row, i));
    assert(t * 1 == t);
}

/// The claims that are left on the inverse roots, the factors and the biases hold of them,
/// where the first sumcheck ended on the evaluations of the prover's tables.
pub proof fn law_claims_hold<F: PrimeField>(
    x: Seq<Element>,
    k: nat,
    inv: Seq<Element>,
    gamma: Seq<Element>,
    beta_values: Seq<Element>,
    lookup_point: Seq<F>,
    last: Seq<int>,
    half: int,
    s: LayerNormSumcheck<F>,
    io_point: Seq<F>,
    io_ends: Seq<F>,
    keys: (Seq<char>, Seq<char>),
    poly_evals: Seq<F>,
    c: LayerNormClaims<F>,
)
    requires
        is_layernorm_sumcheck(
            x,
            k,
            inv,
            gamma,
            beta_values,
            residues(lookup_point),
            last,
            half,
            s,
        ),
        io_point.len() == k + lookup_point.len(),
        x.len() == pow2(io_point.len()),
        inv.len() == pow2(lookup_point.len()),
        gamma.len() == pow2(k),
        beta_values.len() == pow2(k),
        io_ends.len() == 5,
        stands_for(io_ends[2], mle(residues(s.inv_sqrt@), residues(io_point))),
        stands_for(io_ends[3], mle(residues(s.gamma@), residues(io_point))),
        stands_for(io_ends[4], mle(residues(s.beta@), residues(io_point))),
        c.are_left(keys.0, keys.1, io_ends, poly_evals, lookup_point, io_point),
    ensures
        stands_for(c.inv_sqrt.eval, mle(element_ints(inv), residues(c.inv_sqrt.point@))),
        stands_for(c.gamma.1.eval, mle(element_ints(gamma), residues(c.gamma.1.point@))),
        stands_for(c.beta.1.eval, mle(element_ints(beta_values), residues(c.beta.1.point@))),
        c.gamma.0@ == keys.0,
        c.beta.0@ == keys.1,
{
    let r = residues(io_point);
    let (low, row) = (r.take(k as int), r.skip(k as int));
    assert(r =~= low + row);
    assert(residues(io_point.take(k as int)) =~= low);
    assert(residues(io_point.skip(k as int)) =~= row);
    let (w, rows) = (pow2(k) as int, pow2(row.len()) as int);
    lemma_pow2_pos(k);
    lemma_pow2_adds(k, row.len());
    let total = pow2(k + row.len());
    let (vi, vg, vb) = (element_ints(inv), element_ints(gamma), element_ints(beta_values));
    lemma_spread(vi, k, low, row);
    lemma_spread(vg, k, low, row);
    lemma_spread(vb, k, low, row);
    let ti = Seq::new(total, |p: int| vi[p / pow2(k) as int]);
    let tg = Seq::new(total, |p: int| vg[p % pow2(k) as int]);
    let tb = Seq::new(total, |p: int| vb[p % pow2(k) as int]);
    assert forall|p: int| 0 <= p < total implies stands_for(#[trigger] s.inv_sqrt@[p], ti[p])
        && stands_for(s.gamma@[p], tg[p]) && stands_for(s.beta@[p], tb[p]) by {
        lemma_fundamental_div_mod(p, w);
        lemma_mod_bound(p, w);
        lemma_div_pos_is_pos(p, w);
        let i = p / w;
        assert(i < rows) by (nonlinear_arith)
            requires
                p == w * i + p % w,
                0 <= p % w,
                p < w * rows,
                w > 0,
        ;
        assert(stands_for(s.gamma@[p], gamma[p % w] as int));
        assert(stands_for(s.beta@[p], beta_values[p % w] as int));
    }
    assert forall|p: int| 0 <= p < total implies stands_for(#[trigger] s.gamma@[p], tg[p]) by {
        assert(stands_for(s.inv_sqrt@[p], ti[p]));
    }
    assert forall|p: int| 0 <= p < total implies stands_for(#[trigger] s.beta@[p], tb[p]) by {
        assert(stands_for(s.inv_sqrt@[p], ti[p]));
    }
    lemma_end_cong(io_ends[2], s.inv_sqrt@, ti, r);
    lemma_end_cong(io_ends[3], s.gamma@, tg, r);
    lemma_end_cong(io_ends[4], s.beta@, tb, r);
    lemma_residue_is(io_ends[2], mle(vi, row));
    lemma_residue_is(io_ends[3], mle(vg, low));
    lemma_residue_is(io_ends[4], mle(vb, low));
}

/// An element whose residue is congruent to an integer stands for it.
proof fn lemma_residue_is<F: PrimeField>(f: F, x: int)
    requires
        cong(f.residue(), x, F::modulus()),
    ensures
        stands_for(f, x),
{
    f.residue_bounds();
    lemma_small_mod(f.residue() as nat, F::modulus() as nat);
}

/// A layer takes a single input, once it has been quantised.
pub proof fn law_inputs_taken(layer: LayerNorm<Element>, inputs: Seq<Tensor<Element>>)
    ensures
        layer.input_refusal(inputs) is None <==> inputs.len() == 1 && layer.quant_info is Some,
        layer.quant_info is None ==> layer.input_refusal(inputs) == Some(Error::NotQuantised),
{
}

/// What is accepted has one claim on the output and the evaluations of the five tables, and
/// the claim on the input is at the end of the second sumcheck.
pub proof fn law_accepted<F: PrimeField>(
    ctx: LayerNormCtx<F>,
    ends: LayerNormEnds<F>,
    evals: Seq<F>,
    half: F,
    c: LayerNormClaims<F>,
)
    requires
        ends.decides(ctx, evals, half, Ok(c)),
    ensures
        ends.last_claims@.len() == 1,
        evals.len() >= 5,
        c.input.point@ == ends.mean_subclaim.point@,
        c.lookup.0@ == ends.lookup_point@,
        c.lookup.1@ + seq![ends.poly_evals@.last()] == ends.poly_evals@ || ends.poly_evals@.len()
            == 0,
{
    if ends.poly_evals@.len() > 0 {
        assert(c.lookup.1@ + seq![ends.poly_evals@.last()] =~= ends.poly_evals@);
    }
}

} // verus!
