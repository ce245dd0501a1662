//! What holds of normalised rows as a whole.
use vstd::prelude::*;
use vstd::arithmetic::div_mod::*;
use vstd::arithmetic::power2::{lemma_pow2_adds, lemma_pow2_pos, pow2};
use crate::attention_mask::prove::lemma_padded_dim;
use crate::batching::lemma_numel_pow2;
use crate::claim::Claim;
use crate::congruence::{lemma_cong_minus, lemma_cong_times, lemma_residue_cong};
use crate::counting::entry_total;
use crate::error::Error;
use crate::field::{residues, stands_for, PrimeField};
use crate::logits::witness::element_ints;
use crate::mle::{lemma_halves, lemma_mle_combine, mle};
use crate::normalisation::layernorm::{broadcast_bias, is_bias_free, is_weight_claims, law_row_bias, row_factor, turned, LayerNorm};
use crate::normalisation::lookup::{all_entries, is_scaled, matrix_count};
use crate::normalisation::rmsnorm::{is_alpha_claim, longest, rms_output, row_scales, tokens_of, RMSNorm};
use crate::normalisation::{aligned, column_count, domain_of, is_affine_rows, is_normalised, mean_of, padded_columns, rounding_of, row_count, row_squares, row_total, RowScale};
use crate::shape::{flat, in_bounds, lemma_flat, lemma_next_pow2, lemma_numel_matrix, lemma_unflat, log2_ceil, next_pow2, num_vars, numel, padded, unflat, Shape};
use crate::sum::sum;
use crate::tensor::{can_pad, resized, Element, Tensor};

verus! {

/// `v` is the integer nearest to the quotient of `y` and a power of two, a tie going up,
/// as far as the bounds let it: it is never further off than half of what is divided by,
/// but where a bound holds it back.
pub open spec fn rounds(y: int, shift: nat, lo: int, hi: int, v: int) -> bool {
    let d = pow2(shift) as int;
    &&& lo <= v <= hi
    &&& v > lo ==> 2 * (y - v * d) >= -d
    &&& v < hi ==> 2 * (y - v * d) < d
}

/// There is one value that a quotient is rounded to.
pub proof fn law_rounds_once(y: int, shift: nat, lo: int, hi: int, a: int, b: int)
    requires
        rounds(y, shift, lo, hi, a),
        rounds(y, shift, lo, hi, b),
    ensures
        a == b,
{
    let d = pow2(shift) as int;
    lemma_pow2_pos(shift);
    if a < b {
        assert((a + 1) * d <= b * d) by (nonlinear_arith)
            requires
                a + 1 <= b,
                d > 0,
        ;
        assert((a + 1) * d == a * d + d) by (nonlinear_arith);
    } else if b < a {
        assert((b + 1) * d <= a * d) by (nonlinear_arith)
            requires
                b + 1 <= a,
                d > 0,
        ;
        assert((b + 1) * d == b * d + d) by (nonlinear_arith);
    }
}

/// A normalised value is the nearest to the rescaled one that the values allow, in every
/// place of every row.
pub proof fn law_normalised_nearest(
    input: Tensor<Element>,
    mult: Seq<Element>,
    mean: Option<Seq<Element>>,
    shift: int,
    domain: (Element, Element),
    r: Tensor<Element>,
    p: int,
)
    requires
        shift >= 1,
        domain.0 <= domain.1,
        is_normalised(input, mult, mean, rounding_of(shift), shift as nat, domain, r),
        0 <= p < input.data@.len(),
    ensures
        rounds(
            input.data@[p] * mult[p / input.shape@.last() as int] - match mean {
                Some(m) => m[p / input.shape@.last() as int] as int,
                None => 0,
            },
            shift as nat,
            domain.0 as int,
            domain.1 as int,
            r.data@[p] as int,
        ),
{
    let s = shift as nat;
    let d = pow2(s) as int;
    let h = pow2((s - 1) as nat) as int;
    let i = p / input.shape@.last() as int;
    let y = input.data@[p] * mult[i] - mean_of(mean, i);
    lemma_halves(s);
    lemma_pow2_pos(s);
    let q = (y + h) / d;
    lemma_fundamental_div_mod(y + h, d);
    lemma_mod_bound(y + h, d);
    let v = r.data@[p] as int;
    assert(d * q == q * d) by (nonlinear_arith);
    if q < v {
        assert(q * d + d <= v * d) by (nonlinear_arith)
            requires
                q + 1 <= v,
                d > 0,
        ;
    } else if v < q {
        assert(v * d + d <= q * d) by (nonlinear_arith)
            requires
                v + 1 <= q,
                d > 0,
        ;
    }
}

/// What is looked up is what normalisation rounds: the rescaled values of the lookup,
/// divided by the shift and rounded, are the normalised ones.
pub proof fn law_looked_up_is_rounded(
    input: Tensor<Element>,
    mult: Seq<Element>,
    mean: Option<Seq<Element>>,
    shift: int,
    domain: (Element, Element),
    scaled: Tensor<Element>,
    r: Tensor<Element>,
    p: int,
)
    requires
        shift >= 1,
        domain.0 <= domain.1,
        is_scaled(input, mult, mean, scaled),
        is_normalised(input, mult, mean, rounding_of(shift), shift as nat, domain, r),
        0 <= p < input.data@.len(),
    ensures
        rounds(
            scaled.data@[p] as int,
            shift as nat,
            domain.0 as int,
            domain.1 as int,
            r.data@[p] as int,
        ),
{
    law_normalised_nearest(input, mult, mean, shift, domain, r, p);
}

/// What the factors and biases do to normalised rows: with no biases each value is
/// multiplied by the factor of its column, and biases add to every row the whole vector
/// of them.
pub proof fn law_bias_is_added(
    t: Tensor<Element>,
    gamma: Seq<Element>,
    bias: Seq<Element>,
    scaled: Tensor<Element>,
    out: Tensor<Element>,
    i: int,
    j: int,
)
    requires
        t.wf(),
        t.shape@.len() >= 1,
        is_affine_rows(t, gamma, None, scaled),
        is_affine_rows(t, gamma, Some(bias), out),
        0 <= i < numel(t.shape@.drop_last()),
        0 <= j < t.shape@.last(),
    ensures
        ({
            let p = i * t.shape@.last() + j;
            &&& 0 <= p < out.data@.len()
            &&& scaled.data@[p] == t.data@[p] * gamma[j]
            &&& out.data@[p] - scaled.data@[p] == bias[j]
        }),
{
    let w = t.shape@.last() as int;
    let p = i * w + j;
    let rows = numel(t.shape@.drop_last()) as int;
    lemma_fundamental_div_mod_converse(p, w, i, j);
    assert(0 <= p < rows * w) by (nonlinear_arith)
        requires
            0 <= i < rows,
            0 <= j < w,
            p == i * w + j,
    ;
}

/// Where the last place of a position, and the rest of it, are stored.
proof fn lemma_row_and_column(d: Seq<usize>, idx: Seq<int>)
    requires
        d.len() >= 1,
        in_bounds(d, idx),
    ensures
        flat(d, idx) / d.last() as int == flat(d.drop_last(), idx.drop_last()),
        flat(d, idx) % d.last() as int == idx.last(),
        in_bounds(d.drop_last(), idx.drop_last()),
        0 <= flat(d, idx) < numel(d),
        unflat(d, flat(d, idx)) == idx,
{
    let n = d.len() - 1;
    assert(0 <= idx[n] < d[n]);
    let w = d.last() as int;
    lemma_fundamental_div_mod_converse(
        flat(d, idx),
        w,
        flat(d.drop_last(), idx.drop_last()),
        idx.last(),
    );
    assert forall|k: int| 0 <= k < n implies 0 <= #[trigger] idx.drop_last()[k]
        < d.drop_last()[k] by {
        assert(0 <= idx[k] < d[k]);
    }
    lemma_flat(d, idx);
}

/// The value at a position of a tensor that was padded with zeros.
proof fn lemma_resized_at(data: Seq<Element>, d: Seq<usize>, e: Seq<usize>, idx: Seq<int>)
    requires
        in_bounds(e, idx),
    ensures
        0 <= flat(e, idx) < numel(e),
        resized(data, d, e, 0)[flat(e, idx)] == if in_bounds(d, idx) {
            data[flat(d, idx)]
        } else {
            0
        },
{
    lemma_flat(e, idx);
}

/// What the layer makes of an input, value by value: the input of a token, rescaled by the
/// multiplier of its row and less the mean of its row, rounded to the values that the
/// layer has for normalised rows; that times the factor of its column, plus the bias of
/// its column. The padding of a padded output is zero.
pub proof fn law_layernorm_values(
    layer: LayerNorm<Element>,
    input: Tensor<Element>,
    mult: Seq<Element>,
    mean: Seq<Element>,
    max_shift: Element,
    out: Tensor<Element>,
    idx: Seq<int>,
)
    requires
        layer.normalisation_scaling_factor matches Some(s) && s.bit_size <= 62,
        layer.outputs(input, mult, mean, max_shift, out),
        input.wf(),
        input.unpadded_shape@.len() >= 1,
        max_shift >= 1,
        layer.gamma.tensor.unpadded_shape@ == seq![input.unpadded_shape@.last()],
        layer.beta.tensor.unpadded_shape@ == seq![input.unpadded_shape@.last()],
        in_bounds(out.shape@, idx),
    ensures
        ({
            let d = input.unpadded_shape@;
            let row = flat(d.drop_last(), idx.drop_last());
            let bound = pow2(layer.normalisation_scaling_factor->Some_0.bit_size as nat) as int;
            &&& out.unpadded_shape@ == d
            &&& in_bounds(d, idx) ==> exists|v: int|
                {
                    &&& #[trigger] rounds(
                        input.at(idx) * mult[row] - mean[row],
                        max_shift as nat,
                        -bound,
                        bound - 1,
                        v,
                    )
                    &&& out.at(idx) == v * layer.gamma.tensor.at(seq![idx.last()])
                        + layer.beta.tensor.at(seq![idx.last()])
                }
            &&& !in_bounds(d, idx) ==> out.at(idx) == 0
        }),
{
    let d = input.unpadded_shape@;
    let bits = layer.normalisation_scaling_factor->Some_0.bit_size as nat;
    let domain = layer.domain();
    lemma_small_domain(bits);
    let (x, plain) = choose|x: Tensor<Element>, plain: Tensor<Element>|
        {
            &&& #[trigger] layer.plain_output(input, mult, mean, max_shift, x, plain)
            &&& out.wf()
            &&& out.unpadded_shape@ == d
            &&& if input.spec_is_padded() {
                &&& out.shape@ == padded(d)
                &&& out.data@ == resized(plain.data@, d, padded(d), 0)
            } else {
                &&& out.shape@ == d
                &&& out.data@ == plain.data@
            }
        };
    let gamma = layer.gamma.tensor.unpadded_data();
    let bias = layer.beta.tensor.unpadded_data();
    let t = choose|t: Tensor<Element>| #[trigger]
        is_normalised(
            x,
            mult,
            Some(mean),
            rounding_of(max_shift as int),
            max_shift as nat,
            domain,
            t,
        ) && is_affine_rows(t, gamma, Some(bias), plain);
    lemma_resized_at(plain.data@, d, out.shape@, idx);
    if in_bounds(d, idx) {
        let p = flat(d, idx);
        lemma_row_and_column(d, idx);
        lemma_flat(d, idx);
        law_normalised_nearest(x, mult, Some(mean), max_shift as int, domain, t, p);
        assert(x.data@[p] == input.at(idx));
        let j = idx.last();
        lemma_vector_value(layer.gamma.tensor, j);
        lemma_vector_value(layer.beta.tensor, j);
        let row = flat(d.drop_last(), idx.drop_last());
        let v = t.data@[p] as int;
        let bound = pow2(bits) as int;
        assert(rounds(
            input.at(idx) * mult[row] - mean[row],
            max_shift as nat,
            -bound,
            bound - 1,
            v,
        ));
        assert(plain.data@[p] == v * gamma[j] + bias[j]);
    }
}

/// The values of a vector.
proof fn lemma_vector_value(t: Tensor<Element>, j: int)
    requires
        t.unpadded_shape@.len() == 1,
        0 <= j < t.unpadded_shape@[0],
    ensures
        t.unpadded_data()[j] == t.at(seq![j]),
        t.unpadded_data().len() == t.unpadded_shape@[0],
{
    let u = t.unpadded_shape@;
    assert(u =~= seq![u[0]]);
    lemma_numel_matrix(u[0], 1);
    lemma_small_mod(j as nat, u[0] as nat);
    assert(unflat(u.drop_last(), j / u.last() as int) =~= Seq::<int>::empty());
    assert(unflat(u, j) =~= seq![j]);
}

/// The values that a layer with few enough bits clamps to.
proof fn lemma_small_domain(bits: nat)
    requires
        bits <= 62,
    ensures
        pow2(bits) <= 0x4000_0000_0000_0000,
        pow2(bits) >= 1,
{
    vstd::arithmetic::power2::lemma2_to64();
    vstd::arithmetic::power2::lemma2_to64_rest();
    lemma_pow2_pos(bits);
    if bits < 62 {
        vstd::arithmetic::power2::lemma_pow2_strictly_increases(bits, 62);
    }
}

/// What the layer that scales rows makes of an input, value by value: the input, rescaled
/// by the multiplier of its row and rounded to the values that the layer has for
/// normalised rows, times the factor of its column where the layer has factors.
pub proof fn law_rmsnorm_values(
    layer: RMSNorm<Element>,
    input: Tensor<Element>,
    mult: Seq<Element>,
    max_shift: Element,
    out: Tensor<Element>,
    idx: Seq<int>,
)
    requires
        layer.normalisation_scaling_factor matches Some(s) && s.bit_size <= 62,
        rms_output(
            input,
            mult,
            rounding_of(max_shift as int),
            max_shift as nat,
            layer.domain(),
            layer.alpha,
            out,
        ),
        input.wf(),
        input.shape@.len() >= 1,
        max_shift >= 1,
        in_bounds(input.shape@, idx),
    ensures
        ({
            let d = input.shape@;
            let row = flat(d.drop_last(), idx.drop_last());
            let bound = pow2(layer.normalisation_scaling_factor->Some_0.bit_size as nat) as int;
            &&& out.shape@ == d
            &&& exists|v: int|
                {
                    &&& #[trigger] rounds(
                        input.at(idx) * mult[row],
                        max_shift as nat,
                        -bound,
                        bound - 1,
                        v,
                    )
                    &&& out.at(idx) == match layer.alpha {
                        Some(a) => v * a.tensor.data@[idx.last()],
                        None => v,
                    }
                }
        }),
{
    let d = input.shape@;
    let bits = layer.normalisation_scaling_factor->Some_0.bit_size as nat;
    let domain = layer.domain();
    lemma_small_domain(bits);
    let p = flat(d, idx);
    lemma_row_and_column(d, idx);
    lemma_flat(d, idx);
    let row = flat(d.drop_last(), idx.drop_last());
    let bound = pow2(bits) as int;
    let t = match layer.alpha {
        None => out,
        Some(a) => choose|t: Tensor<Element>| #[trigger]
            is_normalised(
                input,
                mult,
                None,
                rounding_of(max_shift as int),
                max_shift as nat,
                domain,
                t,
            ) && is_affine_rows(t, a.tensor.data@, None, out),
    };
    law_normalised_nearest(input, mult, None, max_shift as int, domain, t, p);
    let v = t.data@[p] as int;
    assert(rounds(input.at(idx) * mult[row], max_shift as nat, -bound, bound - 1, v));
    assert(out.at(idx) == match layer.alpha {
        Some(a) => v * a.tensor.data@[idx.last()],
        None => v,
    });
}

/// Multipliers that were brought to one shift stand for the same factors: what each is
/// multiplied by makes up for what it is shifted by.
pub proof fn law_aligned(scales: Seq<RowScale>, shift: Element, i: int)
    requires
        0 <= i < scales.len(),
        0 <= scales[i].shift <= shift,
    ensures
        aligned(scales, shift)[i] * pow2(scales[i].shift as nat) == scales[i].multiplier * pow2(
            shift as nat,
        ),
{
    let s = scales[i];
    lemma_pow2_adds((shift - s.shift) as nat, s.shift as nat);
    let (a, b, m) = (pow2((shift - s.shift) as nat) as int, pow2(s.shift as nat) as int, s.multiplier as int);
    assert((m * a) * b == m * (a * b)) by (nonlinear_arith);
}

/// Values in columns are all there, in their order, and the rest of the columns is zero.
pub proof fn law_columns(v: Seq<Element>, n: int, k: int, i: int)
    requires
        n > 0,
        0 <= k < column_count(v.len() as int, n),
        0 <= i < next_pow2(n as nat),
    ensures
        padded_columns(v, n, k).len() == next_pow2(n as nat),
        i < n && k * n + i < v.len() ==> padded_columns(v, n, k)[i] == v[k * n + i],
        i >= n || k * n + i >= v.len() ==> padded_columns(v, n, k)[i] == 0,
        forall|p: int|
            0 <= p < v.len() ==> 0 <= #[trigger] (p / n) < column_count(v.len() as int, n)
                && padded_columns(v, n, p / n)[p % n] == v[p],
{
    let len = v.len() as int;
    lemma_next_pow2(n as nat);
    lemma_fundamental_div_mod(len, n);
    lemma_mod_bound(len, n);
    assert forall|p: int| 0 <= p < v.len() implies 0 <= #[trigger] (p / n) < column_count(len, n)
        && padded_columns(v, n, p / n)[p % n] == v[p] by {
        lemma_fundamental_div_mod(p, n);
        lemma_mod_bound(p, n);
        lemma_div_pos_is_pos(p, n);
        let (q, s) = (p / n, len / n);
        if q > s {
            assert(n * q >= n * s + n) by (nonlinear_arith)
                requires
                    q >= s + 1,
                    n > 0,
            ;
        }
        if q == s {
            assert(n * q == n * s);
        }
        assert(n * q == q * n) by (nonlinear_arith);
    }
}

/// The sum of a row, and that of its squares, over the values of two rows that were added:
/// the sum is the sum of both, and the squares add twice the products.
pub proof fn law_row_sums_add(
    x: Seq<Element>,
    y: Seq<Element>,
    z: Seq<Element>,
    w: int,
    i: int,
    n: nat,
)
    requires
        forall|j: int|
            0 <= j < n ==> #[trigger] z[i * w + j] == x[i * w + j] + y[i * w + j],
    ensures
        row_total(z, w, i, n) == row_total(x, w, i, n) + row_total(y, w, i, n),
        row_squares(z, w, i, n) == row_squares(x, w, i, n) + row_squares(y, w, i, n) + 2 * sum(
            n,
            |j: int| x[i * w + j] * y[i * w + j],
        ),
    decreases n,
{
    if n > 0 {
        let k = n - 1;
        law_row_sums_add(x, y, z, w, i, k as nat);
        let (a, b) = (x[i * w + k] as int, y[i * w + k] as int);
        let f = |j: int| x[i * w + j] * y[i * w + j];
        assert(sum(n, f) == sum(k as nat, f) + f(k));
        assert(z[i * w + k] == a + b);
        assert((a + b) * (a + b) == a * a + b * b + 2 * (a * b)) by (nonlinear_arith);
        let (fx, fy, fz) = (
            |j: int| x[i * w + j] as int,
            |j: int| y[i * w + j] as int,
            |j: int| z[i * w + j] as int,
        );
        assert(sum(n, fx) == sum(k as nat, fx) + fx(k));
        assert(sum(n, fy) == sum(k as nat, fy) + fy(k));
        assert(sum(n, fz) == sum(k as nat, fz) + fz(k));
        let (gx, gy, gz) = (
            |j: int| x[i * w + j] * x[i * w + j],
            |j: int| y[i * w + j] * y[i * w + j],
            |j: int| z[i * w + j] * z[i * w + j],
        );
        assert(sum(n, gx) == sum(k as nat, gx) + gx(k));
        assert(sum(n, gy) == sum(k as nat, gy) + gy(k));
        assert(sum(n, gz) == sum(k as nat, gz) + gz(k));
    }
}

/// The sum of a row is that of its first values and of the rest, and so is the sum of its
/// squares; that of a single value is the value, and its square.
pub proof fn law_row_sums_split(x: Seq<Element>, w: int, i: int, n: nat)
    ensures
        row_total(x, w, i, 0) == 0,
        row_squares(x, w, i, 0) == 0,
        row_total(x, w, i, n + 1) - row_total(x, w, i, n) == x[i * w + n],
        row_squares(x, w, i, n + 1) - row_squares(x, w, i, n) == x[i * w + n] * x[i * w + n],
{
    let f = |j: int| x[i * w + j] as int;
    let g = |j: int| x[i * w + j] * x[i * w + j];
    assert(sum(n + 1, f) == sum(n, f) + f(n as int));
    assert(sum(n + 1, g) == sum(n, g) + g(n as int));
}

/// A tensor is its slices along the first dimension, one after the other.
proof fn lemma_first_dimension(d: Seq<usize>, idx: Seq<int>)
    requires
        d.len() >= 1,
        idx.len() == d.len(),
    ensures
        flat(d, idx) == idx[0] * numel(d.skip(1)) + flat(d.skip(1), idx.skip(1)),
        numel(d) == d[0] * numel(d.skip(1)),
    decreases d.len(),
{
    let (e, i) = (d.skip(1), idx.skip(1));
    if d.len() == 1 {
        assert(e.len() == 0 && i.len() == 0);
        assert(numel(e) == 1 && flat(e, i) == 0);
        assert(numel(d.drop_last()) == 1);
        assert(flat(d.drop_last(), idx.drop_last()) == 0);
        assert(d.last() == d[0] && idx.last() == idx[0]);
        let (x, y) = (idx[0], d[0] as int);
        assert(0 * y == 0 && x * 1 == x && y * 1 == y && 1 * y == y);
    } else {
        let (d1, i1) = (d.drop_last(), idx.drop_last());
        lemma_first_dimension(d1, i1);
        assert(e.drop_last() =~= d1.skip(1));
        assert(i.drop_last() =~= i1.skip(1));
        let l = d.last() as int;
        let (n, f, x, y) = (
            numel(d1.skip(1)) as int,
            flat(d1.skip(1), i1.skip(1)),
            idx[0],
            d[0] as int,
        );
        assert((x * n + f) * l == x * (n * l) + f * l) by (nonlinear_arith);
        assert((y * n) * l == y * (n * l)) by (nonlinear_arith);
        assert(e.last() == l && i.last() == idx.last());
        assert(numel(e) == n * l);
        assert(flat(e, i) == f * l + i.last());
    }
}

/// The bias that is added to each row, at a position.
proof fn lemma_broadcast_at(d: Seq<usize>, u: Seq<usize>, b: Seq<int>, idx: Seq<int>)
    requires
        d.len() >= 1,
        u.len() == d.len(),
        b.len() == d.last(),
        in_bounds(d, idx),
    ensures
        broadcast_bias(d, u, b).len() == numel(d),
        broadcast_bias(d, u, b)[flat(d, idx)] == if forall|k: int|
            0 <= k < d.len() - 1 ==> #[trigger] idx[k] < u[k] {
            b[idx.last()]
        } else {
            0
        },
    decreases d.len(),
{
    lemma_flat(d, idx);
    lemma_first_dimension(d, idx);
    let (e, v, i) = (d.skip(1), u.skip(1), idx.skip(1));
    if d.len() == 1 {
        assert(flat(e, i) == 0);
        assert(numel(e) == 1);
        assert(idx[0] * 1 == idx[0] && d[0] * 1 == d[0]);
    } else {
        assert(d[0] * numel(e) >= 0) by (nonlinear_arith);
        assert forall|k: int| 0 <= k < e.len() implies 0 <= #[trigger] i[k] < e[k] by {
            assert(0 <= idx[k + 1] < d[k + 1]);
        }
        lemma_broadcast_at(e, v, b, i);
        lemma_flat(e, i);
        let n = numel(e) as int;
        let p = flat(d, idx);
        lemma_fundamental_div_mod_converse(p, n, idx[0], flat(e, i));
        let all = forall|k: int| 0 <= k < d.len() - 1 ==> #[trigger] idx[k] < u[k];
        let rest = forall|k: int| 0 <= k < e.len() - 1 ==> #[trigger] i[k] < v[k];
        if all {
            assert forall|k: int| 0 <= k < e.len() - 1 implies #[trigger] i[k] < v[k] by {
                assert(idx[k + 1] < u[k + 1]);
            }
            assert(idx[0] < u[0]);
        }
        if rest && idx[0] < u[0] {
            assert forall|k: int| 0 <= k < d.len() - 1 implies #[trigger] idx[k] < u[k] by {
                if k > 0 {
                    assert(i[k - 1] < v[k - 1]);
                }
            }
        }
        assert(all == (rest && idx[0] < u[0]));
        assert(0 <= p < numel(d));
    }
}

/// What the prover and the verifier take off a claim on the output is what evaluation
/// added: at every point the extension of the padded output, less that of the rows times
/// their factors, is the extension of the padded biases times the factor of the rows.
pub proof fn law_bias_claim(
    t: Tensor<Element>,
    gamma: Seq<Element>,
    bias: Seq<Element>,
    scaled: Tensor<Element>,
    out: Tensor<Element>,
    point: Seq<int>,
)
    requires
        t.wf(),
        t.shape@.len() >= 1,
        can_pad(t.shape@),
        forall|k: int| 0 <= k < t.shape@.len() ==> #[trigger] t.shape@[k] > 0,
        bias.len() == t.shape@.last(),
        is_affine_rows(t, gamma, None, scaled),
        is_affine_rows(t, gamma, Some(bias), out),
        point.len() == num_vars(padded(t.shape@)),
    ensures
        ({
            let u = t.shape@;
            let d = padded(u);
            let w = seq![u.last()];
            mle(element_ints(resized(out.data@, u, d, 0)), point) == mle(
                element_ints(resized(scaled.data@, u, d, 0)),
                point,
            ) + row_factor(d, u, point) * mle(
                element_ints(resized(bias, w, padded(w), 0)),
                point.take(log2_ceil(d.last() as nat) as int),
            )
        }),
{
    let u = t.shape@;
    let d = padded(u);
    let w = seq![u.last()];
    let o = element_ints(resized(out.data@, u, d, 0));
    let s = element_ints(resized(scaled.data@, u, d, 0));
    let bp = element_ints(resized(bias, w, padded(w), 0));
    let b = broadcast_bias(d, u, bp);
    let last = u.len() - 1;
    assert forall|k: int| 0 <= k < d.len() implies #[trigger] d[k] == pow2(
        log2_ceil(d[k] as nat),
    ) && 0 < u[k] && u[k] <= d[k] by {
        lemma_padded_dim(u, k);
        assert(u[k] > 0);
    }
    assert(u[last] > 0 && d[last] == next_pow2(u[last] as nat)) by {
        lemma_padded_dim(u, last);
    }
    assert(padded(w) =~= seq![d[last]]);
    lemma_numel_matrix(d[last], 1);
    lemma_numel_matrix(u[last], 1);
    assert(bp.len() == d.last());
    lemma_numel_pow2(d);
    law_row_bias(d, u, bp, point);
    assert forall|p: int| 0 <= p < pow2(point.len()) implies #[trigger] o[p] == 1 * s[p] + 1
        * b[p] by {
        let idx = unflat(d, p);
        lemma_unflat(d, p);
        lemma_broadcast_at(d, u, bp, idx);
        let j = idx.last();
        assert(0 <= idx[last] < d[last]);
        lemma_vector_place(d[last], j);
        if j < u[last] {
            lemma_vector_place(u[last], j);
        }
        if in_bounds(u, idx) {
            lemma_row_and_column(u, idx);
            assert(0 <= idx[last] < u[last]);
            assert forall|k: int| 0 <= k < d.len() - 1 implies #[trigger] idx[k] < u[k] by {
                assert(0 <= idx[k] < u[k]);
            }
            assert(in_bounds(w, seq![j]));
        } else {
            if forall|k: int| 0 <= k < d.len() - 1 ==> #[trigger] idx[k] < u[k] {
                assert(j >= u[last]) by {
                    if j < u[last] {
                        assert forall|k: int| 0 <= k < u.len() implies 0 <= #[trigger] idx[k]
                            < u[k] by {
                            assert(0 <= idx[k] < d[k]);
                        }
                    }
                }
                assert(!in_bounds(w, seq![j])) by {
                    assert(seq![j][0] == j);
                }
            }
        }
    }
    lemma_mle_combine(1, s, 1, b, o, point);
}

/// Where the value of a vector is stored.
proof fn lemma_vector_place(n: usize, j: int)
    requires
        0 <= j < n,
    ensures
        unflat(seq![n], j) == seq![j],
        flat(seq![n], seq![j]) == j,
        in_bounds(seq![n], seq![j]),
        numel(seq![n]) == n,
{
    lemma_numel_matrix(n, 1);
    let d = seq![n];
    lemma_small_mod(j as nat, n as nat);
    assert(d.drop_last() =~= Seq::<usize>::empty());
    assert(unflat(d.drop_last(), j / n as int) =~= Seq::<int>::empty());
    assert(unflat(d, j) =~= seq![j]);
    assert(flat(d.drop_last(), seq![j].drop_last()) == 0);
    assert(0 * n == 0);
}

/// A tensor is its matrices, each of as many rows as there are tokens, each of as many
/// values as a row has.
pub proof fn law_shape_counts(d: Seq<usize>)
    requires
        d.len() >= 1,
    ensures
        row_count(d) == matrix_count(d) * tokens_of(d),
        numel(d) == row_count(d) * d.last(),
        d.len() == 1 ==> row_count(d) == 1,
{
    if d.len() == 1 {
        assert(d.drop_last() =~= Seq::<usize>::empty());
        assert(numel(Seq::<usize>::empty()) == 1);
    } else {
        let e = d.drop_last();
        assert(e.drop_last() =~= d.take(d.len() - 2));
        assert(numel(e) == numel(e.drop_last()) * e.last() as nat);
    }
}

/// How much a row is multiplied by, as a fraction of the power of two that it is shifted by,
/// is what was asked for its row; a row of zeros is multiplied by zero, and shifted by one bit
/// more than the scale.
pub proof fn law_row_multipliers(
    sums: Seq<Element>,
    scales: Seq<RowScale>,
    fixed_point_scale: int,
    shift: Element,
    i: int,
)
    requires
        0 <= i < sums.len(),
        0 <= fixed_point_scale < Element::MAX,
        sums[i] != 0 ==> -shift <= scales[i].shift && scales[i].shift < 0,
    ensures
        sums[i] == 0 ==> aligned(row_scales(sums, scales, fixed_point_scale), shift)[i] == 0,
        sums[i] == 0 ==> row_scales(sums, scales, fixed_point_scale)[i].shift - 1
            == fixed_point_scale,
        sums[i] != 0 ==> aligned(row_scales(sums, scales, fixed_point_scale), shift)[i] * pow2(
            (-scales[i].shift) as nat,
        ) == scales[i].multiplier * pow2(shift as nat),
{
    let rows = row_scales(sums, scales, fixed_point_scale);
    if sums[i] != 0 {
        law_aligned(rows, shift, i);
    } else {
        let p = pow2((shift - rows[i].shift) as nat) as int;
        assert(0 * p == 0);
    }
}

/// The longest of some shapes is as long as each of them, and is one of them or the length
/// that it starts from.
pub proof fn law_longest(shapes: Seq<Shape>, start: nat)
    ensures
        longest(shapes, start) >= start,
        forall|i: int|
            0 <= i < shapes.len() ==> numel(padded((#[trigger] shapes[i])@)) <= longest(
                shapes,
                start,
            ),
        longest(shapes, start) == start || exists|i: int|
            0 <= i < shapes.len() && numel(padded((#[trigger] shapes[i])@)) == longest(
                shapes,
                start,
            ),
    decreases shapes.len(),
{
    if shapes.len() > 0 {
        let s = shapes.drop_last();
        law_longest(s, start);
        assert forall|i: int| 0 <= i < shapes.len() implies numel(padded((#[trigger] shapes[i])@))
            <= longest(shapes, start) by {
            if i < s.len() {
                assert(s[i] == shapes[i]);
            }
        }
        if longest(shapes, start) != start {
            if longest(shapes, start) == longest(s, start) {
                let i = choose|i: int|
                    0 <= i < s.len() && numel(padded((#[trigger] s[i])@)) == longest(s, start);
                assert(shapes[i] == s[i]);
            } else {
                assert(shapes[shapes.len() - 1] == shapes.last());
            }
        }
    }
}

/// What lists count together is the sum of what each counts.
pub proof fn law_all_entries(a: Seq<Vec<(Element, u64)>>, b: Seq<Vec<(Element, u64)>>, l: Vec<(Element, u64)>, v: Element)
    ensures
        all_entries(a + b, v) == all_entries(a, v) + all_entries(b, v),
        all_entries(seq![l], v) == entry_total(l@, v),
    decreases b.len(),
{
    reveal_with_fuel(all_entries, 2);
    assert(seq![l].drop_last() =~= Seq::<Vec<(Element, u64)>>::empty());
    if b.len() == 0 {
        assert(a + b =~= a);
    } else {
        law_all_entries(a, b.drop_last(), l, v);
        assert((a + b).drop_last() =~= a + b.drop_last());
        assert((a + b).last() == b.last());
    }
}

/// A claim that holds of the output, less the biases, holds of the rows without the biases,
/// where the evaluation of the biases is theirs.
pub proof fn law_bias_free_holds<F: PrimeField>(
    t: Tensor<Element>,
    gamma: Seq<Element>,
    bias: Seq<Element>,
    scaled: Tensor<Element>,
    out: Tensor<Element>,
    claim: Claim<F>,
    beta_eval: F,
    r: Claim<F>,
    beta_point: Seq<F>,
)
    requires
        F::modulus() > 1,
        t.wf(),
        t.shape@.len() >= 1,
        can_pad(t.shape@),
        forall|k: int| 0 <= k < t.shape@.len() ==> #[trigger] t.shape@[k] > 0,
        bias.len() == t.shape@.last(),
        is_affine_rows(t, gamma, None, scaled),
        is_affine_rows(t, gamma, Some(bias), out),
        claim.point@.len() == num_vars(padded(t.shape@)),
        stands_for(
            claim.eval,
            mle(
                element_ints(resized(out.data@, t.shape@, padded(t.shape@), 0)),
                residues(claim.point@),
            ),
        ),
        is_bias_free(claim, padded(t.shape@), t.shape@, beta_eval, r, beta_point),
        stands_for(
            beta_eval,
            mle(
                element_ints(
                    resized(bias, seq![t.shape@.last()], padded(seq![t.shape@.last()]), 0),
                ),
                residues(beta_point),
            ),
        ),
    ensures
        r.point@ == claim.point@,
        stands_for(
            r.eval,
            mle(
                element_ints(resized(scaled.data@, t.shape@, padded(t.shape@), 0)),
                residues(r.point@),
            ),
        ),
{
    let m = F::modulus();
    let u = t.shape@;
    let d = padded(u);
    let w = seq![u.last()];
    let point = residues(claim.point@);
    law_bias_claim(t, gamma, bias, scaled, out, point);
    let k = log2_ceil(d.last() as nat) as int;
    assert(residues(claim.point@.take(k)) =~= point.take(k));
    let (o, s, b, f) = (
        mle(element_ints(resized(out.data@, u, d, 0)), point),
        mle(element_ints(resized(scaled.data@, u, d, 0)), point),
        mle(element_ints(resized(bias, w, padded(w), 0)), point.take(k)),
        row_factor(d, u, point),
    );
    lemma_residue_cong(claim.eval, o);
    lemma_residue_cong(beta_eval, b);
    lemma_cong_times(beta_eval.residue(), b, f, f, m);
    lemma_cong_minus(claim.eval.residue(), o, beta_eval.residue() * f, b * f, m);
    assert(o - b * f == s) by (nonlinear_arith)
        requires
            o == s + f * b,
    ;
}

/// The claims on the factors and on the biases hold of them, where their evaluations do.
pub proof fn law_weight_claims_hold<F: PrimeField>(
    gamma_key: Seq<char>,
    beta_key: Seq<char>,
    gamma: Seq<int>,
    bias: Seq<int>,
    gamma_point: Seq<F>,
    gamma_eval: F,
    beta_point: Seq<F>,
    beta_eval: F,
    r: Seq<(String, Claim<F>)>,
)
    requires
        stands_for(gamma_eval, mle(gamma, residues(gamma_point))),
        stands_for(beta_eval, mle(bias, residues(beta_point))),
        is_weight_claims(
            gamma_key,
            beta_key,
            gamma_point,
            gamma_eval,
            beta_point,
            beta_eval,
            r,
        ),
    ensures
        r.len() == 2,
        r[0].0@ == gamma_key,
        r[1].0@ == beta_key,
        stands_for(r[0].1.eval, mle(gamma, residues(r[0].1.point@))),
        stands_for(r[1].1.eval, mle(bias, residues(r[1].1.point@))),
        residues(r[0].1.point@) == residues(gamma_point),
        residues(r[1].1.point@) == residues(beta_point),
{
}

/// How much a row is multiplied by, as a fraction of the power of two that it is shifted by,
/// is what was asked for its row.
pub proof fn law_multipliers(scales: Seq<RowScale>, shift: Element, i: int)
    requires
        0 <= i < scales.len(),
        -shift <= scales[i].shift <= 0,
        scales[i].shift > Element::MIN,
    ensures
        turned(scales).len() == scales.len(),
        aligned(turned(scales), shift)[i] * pow2((-scales[i].shift) as nat)
            == scales[i].multiplier * pow2(shift as nat),
{
    law_aligned(turned(scales), shift, i);
}

/// A layer takes a single input, once it has been quantised, of at most four dimensions and
/// at least one.
pub proof fn law_layernorm_takes(layer: LayerNorm<Element>, inputs: Seq<Tensor<Element>>)
    ensures
        layer.input_refusal(inputs) is None <==> inputs.len() == 1
            && layer.mean_scaling_factor is Some && layer.normalisation_scaling_factor is Some && 0
            < inputs[0].unpadded_shape@.len() < 5,
        inputs.len() != 1 ==> layer.input_refusal(inputs) == Some(Error::WrongNumberOfInputs),
{
}

/// A layer takes a single input, once it has been quantised; where it has factors, of at
/// most four dimensions and at least one.
pub proof fn law_rmsnorm_takes(layer: RMSNorm<Element>, inputs: Seq<Tensor<Element>>)
    ensures
        layer.input_refusal(inputs) is None <==> inputs.len() == 1
            && layer.input_scaling_factor is Some && layer.normalisation_scaling_factor is Some && (
        layer.alpha is Some ==> 0 < inputs[0].shape@.len() < 5),
        inputs.len() != 1 ==> layer.input_refusal(inputs) == Some(Error::WrongNumberOfInputs),
{
}

/// Normalised rows are clamped to as many values as their bits tell apart, half of them
/// negative.
pub proof fn law_domain(bits: int)
    requires
        1 <= bits <= 63,
    ensures
        domain_of(bits).1 - domain_of(bits).0 + 1 == pow2(bits as nat),
        domain_of(bits).0 + domain_of(bits).1 == -1,
{
    let k = (bits - 1) as nat;
    lemma_small_domain(k);
    lemma_halves(bits as nat);
}

/// A claim on the factors of the columns is left where there are factors, and holds of them
/// where its evaluation does.
pub proof fn law_alpha_claim_holds<F: PrimeField>(
    alpha: Seq<int>,
    eval: Option<F>,
    point: Option<Vec<F>>,
    key: Option<String>,
    r: Result<Option<(String, Claim<F>)>, Error>,
)
    requires
        is_alpha_claim(eval, point, key, r),
        eval is Some && point is Some ==> stands_for(
            eval->Some_0,
            mle(alpha, residues(point->Some_0@)),
        ),
    ensures
        r is Ok <==> (eval is Some <==> key is Some) && (point is Some <==> key is Some),
        r matches Ok(c) ==> (c is Some <==> key is Some),
        r matches Ok(Some(c)) ==> c.0@ == key->Some_0@ && residues(c.1.point@) == residues(
            point->Some_0@,
        ) && stands_for(c.1.eval, mle(alpha, residues(c.1.point@))),
{
}

} // verus!
