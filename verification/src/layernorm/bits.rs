//! How many bits the values of the layer need, and how they are told apart.
use vstd::prelude::*;
use vstd::arithmetic::div_mod::*;
use vstd::arithmetic::power2::{lemma_pow2_adds, lemma_pow2_pos, lemma_pow2_strictly_increases, pow2};
use crate::layernorm::witness::{flattened, num_range_checks, root_keys};
use crate::layernorm::{output_bits, table_bits, top_exponent, LayerNorm, QuantisedLayerNormData};
use crate::linear::fits;
use crate::normalisation::laws::law_row_sums_split;
use crate::normalisation::{row_squares, row_total};
use crate::shape::{lemma_next_pow2, log2_ceil};
use crate::tensor::Element;

verus! {

/// The values of row `i` lie within `bound`.
pub open spec fn row_within(x: Seq<Element>, w: int, i: int, n: nat, bound: int) -> bool {
    forall|j: int| 0 <= j < n ==> -bound <= #[trigger] x[i * w + j] <= bound
}

/// The sums of a row of bounded values.
proof fn lemma_row_bounds(x: Seq<Element>, w: int, i: int, n: nat, bound: int)
    requires
        bound >= 0,
        row_within(x, w, i, n, bound),
    ensures
        -(n * bound) <= row_total(x, w, i, n) <= n * bound,
        0 <= row_squares(x, w, i, n) <= n * (bound * bound),
    decreases n,
{
    if n == 0 {
        assert(0 * bound == 0 && 0 * (bound * bound) == 0) by (nonlinear_arith);
        law_row_sums_split(x, w, i, 0);
    } else {
        let k = (n - 1) as nat;
        lemma_row_bounds(x, w, i, k, bound);
        law_row_sums_split(x, w, i, k);
        let v = x[i * w + k as int] as int;
        assert(-bound <= v <= bound);
        assert(0 <= v * v && v * v <= bound * bound) by (nonlinear_arith)
            requires
                -bound <= v <= bound,
                bound >= 0,
        ;
        let (kb, kbb, bb) = (k as int * bound, k as int * (bound * bound), bound * bound);
        assert(n as int * bound == kb + bound) by (nonlinear_arith)
            requires
                n as int == k as int + 1,
                kb == k as int * bound,
        ;
        assert(n as int * bb == kbb + bb) by (nonlinear_arith)
            requires
                n as int == k as int + 1,
                kbb == k as int * bb,
        ;
    }
}

/// A product is bounded by the product of the bounds.
proof fn lemma_times_bound(a: int, b: int, x: int, y: int)
    requires
        -x <= a <= x,
        -y <= b <= y,
    ensures
        -(x * y) <= a * b <= x * y,
{
    assert(-(x * y) <= a * b <= x * y) by (nonlinear_arith)
        requires
            -x <= a <= x,
            -y <= b <= y,
    ;
}

/// A product of two numbers is below the product of their powers of two.
proof fn lemma_pow2_product(a: nat, b: nat, p: nat, q: nat)
    requires
        a <= pow2(p),
        b <= pow2(q),
    ensures
        a * b <= pow2(p + q),
{
    lemma_pow2_adds(p, q);
    let (x, y) = (pow2(p), pow2(q));
    assert(a * b <= x * y) by (nonlinear_arith)
        requires
            a <= x,
            b <= y,
    ;
}

/// The values whose inverse roots are looked up fit into the bits that the table has for
/// them, one of which is for the sign.
pub proof fn law_full_fits_table(
    q: QuantisedLayerNormData,
    x: Seq<Element>,
    w: nat,
    i: int,
    bit_len: nat,
)
    requires
        bit_len >= 1,
        q.dim_size == w,
        q.multiplier >= 0,
        row_within(x, w as int, i, w, pow2((bit_len - 1) as nat) as int),
    ensures
        ({
            let bits = table_bits(w, q.multiplier as nat, bit_len as int);
            let bound = pow2((bits - 1) as nat) as int;
            bits >= 1 && -bound <= q.full(x, w as int, i) <= bound
        }),
{
    let k = (bit_len - 1) as nat;
    let b = pow2(k) as int;
    let (n, m) = (w as int, q.multiplier as int);
    let (ln, lm) = (log2_ceil(w), log2_ceil(q.multiplier as nat));
    lemma_next_pow2(w);
    lemma_next_pow2(q.multiplier as nat);
    lemma_row_bounds(x, n, i, w, b);
    let (s, t) = (row_squares(x, n, i, w), row_total(x, n, i, w));
    let (nb, bb) = (n * b, b * b);
    lemma_times_bound(t, t, nb, nb);
    assert(0 <= t * t) by (nonlinear_arith);
    assert(0 <= n * s && n * s <= n * (n * bb)) by (nonlinear_arith)
        requires
            0 <= s <= n * bb,
            n >= 0,
    ;
    assert(n * (n * bb) == nb * nb) by (nonlinear_arith)
        requires
            nb == n * b,
            bb == b * b,
    ;
    let (core, top) = (n * s - t * t, nb * nb);
    let (ns, tt) = (n * s, t * t);
    assert(s * (n * m) - tt * m == m * (ns - tt)) by (nonlinear_arith)
        requires
            ns == n * s,
    ;
    lemma_times_bound(m, core, m, top);
    lemma_pow2_pos(k);
    assert(nb >= 0) by (nonlinear_arith)
        requires
            nb == n * b,
            n >= 0,
            b >= 0,
    ;
    lemma_pow2_product(w, b as nat, ln, k);
    lemma_pow2_product(nb as nat, nb as nat, ln + k, ln + k);
    assert(nb * nb >= 0) by (nonlinear_arith)
        requires
            nb >= 0,
    ;
    lemma_pow2_product(m as nat, (nb * nb) as nat, lm, (ln + k) + (ln + k));
    let bits = table_bits(w, q.multiplier as nat, bit_len as int);
    assert((bits - 1) as nat == lm + ((ln + k) + (ln + k)));
}

/// Twice as long rows need two more bits, twice the multiplier needs one more, and a bit
/// more of the input two more; a row of one value of one bit needs the sign alone.
pub proof fn law_table_bits(dim_size: nat, multiplier: nat, bit_len: int)
    requires
        dim_size >= 1,
        multiplier >= 1,
    ensures
        table_bits(2 * dim_size, multiplier, bit_len) == table_bits(dim_size, multiplier, bit_len)
            + 2,
        table_bits(dim_size, 2 * multiplier, bit_len) == table_bits(dim_size, multiplier, bit_len)
            + 1,
        table_bits(dim_size, multiplier, bit_len + 1) == table_bits(dim_size, multiplier, bit_len)
            + 2,
        table_bits(1, 1, 1) == 1,
{
    reveal_with_fuel(log2_ceil, 2);
}

/// The outputs fit into the bits that the layer announces, for factors and an input of
/// `bit_len` bits, inverse roots up to the largest that is looked up and biases up to the
/// largest bias.
pub proof fn law_output_fits(
    layer: LayerNorm<Element>,
    x: Seq<Element>,
    w: nat,
    inv: Seq<Element>,
    i: int,
    j: int,
    max_lut_value: nat,
    bias_max: int,
    bit_len: nat,
)
    requires
        bit_len >= 1,
        layer.quant_info is Some,
        layer.quant_info->Some_0.dim_size == w,
        0 <= j < w,
        row_within(x, w as int, i, w, pow2((bit_len - 1) as nat) as int),
        -pow2((bit_len - 1) as nat) <= layer.gamma.tensor.data@[j] <= pow2((bit_len - 1) as nat),
        0 <= inv[i] <= max_lut_value,
        bias_max >= 0,
        -bias_max <= layer.beta.tensor.data@[j] <= bias_max,
    ensures
        ({
            let bits = output_bits(w, max_lut_value, bias_max, bit_len as int);
            let bound = pow2(bits as nat) as int;
            bits >= 1 && -bound <= layer.value(x, w as int, inv, i, j) <= bound
        }),
{
    let k = (bit_len - 1) as nat;
    let b = pow2(k) as int;
    let n = w as int;
    let (ln, ll, lb) = (log2_ceil(w), log2_ceil(max_lut_value), log2_ceil(bias_max as nat));
    lemma_next_pow2(w);
    lemma_next_pow2(max_lut_value);
    lemma_next_pow2(bias_max as nat);
    lemma_pow2_pos(k);
    lemma_row_bounds(x, n, i, w, b);
    let (v, g, r, t) = (
        x[i * n + j] as int,
        layer.gamma.tensor.data@[j] as int,
        inv[i] as int,
        row_total(x, n, i, w),
    );
    assert(-b <= v <= b);
    lemma_times_bound(v, n, b, n);
    let nb = n * b;
    assert(b * n == nb) by (nonlinear_arith)
        requires
            nb == n * b,
    ;
    let c = v * n - t;
    let two = 2 * nb;
    lemma_times_bound(c, g, two, b);
    let l = max_lut_value as int;
    lemma_times_bound(c * g, r, two * b, l);
    vstd::arithmetic::power2::lemma2_to64();
    assert(nb >= 0) by (nonlinear_arith)
        requires
            nb == n * b,
            n >= 0,
            b >= 0,
    ;
    lemma_pow2_product(w, b as nat, ln, k);
    lemma_pow2_product(2, nb as nat, 1, ln + k);
    lemma_pow2_product(two as nat, b as nat, 1 + (ln + k), k);
    assert(two * b >= 0) by (nonlinear_arith)
        requires
            two >= 0,
            b >= 0,
    ;
    lemma_pow2_product((two * b) as nat, l as nat, 1 + (ln + k) + k, ll);
    let lhs = 1 + (ln + k) + k + ll;
    assert(lhs == 2 * (bit_len - 1) + ln + 1 + ll);
    let big = if lb > lhs {
        lb
    } else {
        lhs
    };
    if lb < big {
        lemma_pow2_strictly_increases(lb, big);
    }
    if lhs < big {
        lemma_pow2_strictly_increases(lhs, big);
    }
    lemma_pow2_adds(big, 1);
    if bias_max == 0 {
        assert(output_bits(w, max_lut_value, bias_max, bit_len as int) == lhs + 1);
        lemma_pow2_adds(lhs, 1);
    } else {
        assert(output_bits(w, max_lut_value, bias_max, bit_len as int) == big + 1);
    }
}

/// An input and its inverse root are told apart from any other by their key, where the
/// inputs lie closer together than the separator.
pub proof fn law_keys_differ(
    inputs: Seq<Element>,
    outputs: Seq<Element>,
    separator: int,
    n: nat,
    i: int,
    j: int,
)
    requires
        0 <= i < n,
        0 <= j < n,
        separator > 0,
        fits(inputs[i] + outputs[i] * separator),
        fits(inputs[j] + outputs[j] * separator),
        -separator < inputs[i] - inputs[j] < separator,
        root_keys(inputs, outputs, separator, n)[i] == root_keys(inputs, outputs, separator, n)[j],
    ensures
        inputs[i] == inputs[j],
        outputs[i] == outputs[j],
{
    let (a, b, s) = (outputs[i] as int, outputs[j] as int, separator);
    let d = inputs[i] - inputs[j];
    assert(d == (b - a) * s) by (nonlinear_arith)
        requires
            inputs[i] + a * s == inputs[j] + b * s,
            d == inputs[i] - inputs[j],
    ;
    let e = b - a;
    assert(e == 0) by (nonlinear_arith)
        requires
            -s < e * s < s,
            s > 0,
    ;
    assert(0 * s == 0);
}

/// Columns one after the other hold every value of every column.
pub proof fn law_flattened(columns: Seq<Vec<Element>>, n: int, len: int, k: int, i: int)
    requires
        0 <= k < n <= columns.len(),
        0 <= i < len,
        forall|c: int| 0 <= c < n ==> (#[trigger] columns[c])@.len() == len,
    ensures
        flattened(columns, n).len() == n * len,
        0 <= k * len + i < n * len,
        flattened(columns, n)[k * len + i] == columns[k]@[i],
    decreases n,
{
    lemma_flattened_len(columns, n, len);
    lemma_flattened_len(columns, n - 1, len);
    assert(0 <= k * len + i < n * len && n * len == (n - 1) * len + len) by (nonlinear_arith)
        requires
            0 <= k < n,
            0 <= i < len,
    ;
    if k < n - 1 {
        law_flattened(columns, n - 1, len, k, i);
    }
}

/// The length of columns one after the other.
proof fn lemma_flattened_len(columns: Seq<Vec<Element>>, n: int, len: int)
    requires
        0 <= n <= columns.len(),
        forall|c: int| 0 <= c < n ==> (#[trigger] columns[c])@.len() == len,
    ensures
        flattened(columns, n).len() == n * len,
    decreases n,
{
    if n > 0 {
        lemma_flattened_len(columns, n - 1, len);
        assert(columns[n - 1]@.len() == len);
        assert(n * len == (n - 1) * len + len) by (nonlinear_arith);
    } else {
        assert(0 * len == 0);
    }
}

/// The range checked bits fill their chunks, with none to spare: once the highest is scaled
/// up, they are whole chunks.
pub proof fn law_chunks_filled(bits: int, bit_len: int)
    requires
        bits >= 1,
        bit_len >= 1,
    ensures
        0 <= top_exponent(bits, bit_len) < bit_len,
        bits + top_exponent(bits, bit_len) == num_range_checks(bits, bit_len) * bit_len,
{
    let (q, r) = (bits / bit_len, bits % bit_len);
    lemma_fundamental_div_mod(bits, bit_len);
    lemma_mod_bound(bits, bit_len);
    assert(bit_len * q == q * bit_len) by (nonlinear_arith);
    if r == 0 {
        assert(bits - 1 == (q - 1) * bit_len + (bit_len - 1)) by (nonlinear_arith)
            requires
                bits == q * bit_len,
        ;
        lemma_fundamental_div_mod_converse(bits - 1, bit_len, q - 1, bit_len - 1);
    } else {
        lemma_fundamental_div_mod_converse(bits - 1, bit_len, q, r - 1);
        assert((q + 1) * bit_len == q * bit_len + bit_len) by (nonlinear_arith);
    }
}

} // verus!
