//! What the layer looks up and range checks.
use std::collections::HashMap;
use vstd::prelude::*;
use vstd::arithmetic::div_mod::*;
use vstd::arithmetic::power2::{lemma2_to64, lemma2_to64_rest, lemma_pow2_adds, lemma_pow2_pos, lemma_pow2_strictly_increases, pow2};
use crate::counting::{count_value, counts};
use crate::error::Error;
use crate::layernorm::{top_exponent, LayerNorm, LayerNormData, QuantisedLayerNormData};
use crate::linear::fits;
use crate::mle::lemma_pow2_unfold_zero;
use crate::normalisation::{floor_shift, small_power};
use crate::sum::{lemma_sum_same, sum};
use crate::tensor::Element;

verus! {

broadcast use vstd::std_specs::hash::group_hash_axioms;

/// What is looked up and range checked, and how often each value is.
#[derive(Debug)]
pub struct LayerNormWitness {
    /// The values whose inverse roots are looked up.
    pub lookup_input: Vec<Element>,
    /// The chunks that are range checked, the lowest first.
    pub range_checks: Vec<Vec<Element>>,
    pub range_elements_count: HashMap<Element, u64>,
    pub inv_sqrt_element_count: HashMap<Element, u64>,
}

/// The number of chunks of `bit_len` bits that `bits` bits fill.
pub open spec fn num_range_checks(bits: int, bit_len: int) -> int {
    (bits - 1) / bit_len + 1
}

/// The chunk `j`, of `bit_len` bits, of a value.
pub open spec fn bit_chunk(v: int, bit_len: int, j: int) -> int {
    (v / pow2((bit_len * j) as nat) as int) % pow2(bit_len as nat) as int
}

/// The chunk `j` of the low bits of a value, as it is range checked: the highest is
/// scaled up to fill its chunk.
pub open spec fn checked_chunk(v: int, bits: int, bit_len: int, top: int, j: int) -> int {
    let c = bit_chunk(v % pow2(bits as nat) as int, bit_len, j);
    if j == num_range_checks(bits, bit_len) - 1 {
        c * pow2(top as nat)
    } else {
        c
    }
}

/// The first `n` columns of chunks, one after the other.
pub open spec fn flattened(columns: Seq<Vec<Element>>, n: int) -> Seq<Element>
    decreases n,
{
    if n <= 0 {
        Seq::empty()
    } else {
        flattened(columns, n - 1) + columns[n - 1]@
    }
}

/// The keys under which inverse roots are looked up.
pub open spec fn root_keys(inputs: Seq<Element>, outputs: Seq<Element>, separator: int, n: nat) -> Seq<
    Element,
> {
    Seq::new(n, |i: int| (inputs[i] + outputs[i] * separator) as Element)
}

/// A power of two that fits into an element is below `2^63`.
proof fn lemma_small_pow2(a: nat, b: nat)
    requires
        a <= b <= 62,
    ensures
        0 < pow2(a) <= pow2(b),
        pow2(b) <= Element::MAX,
{
    lemma2_to64();
    lemma2_to64_rest();
    lemma_pow2_pos(a);
    if a < b {
        lemma_pow2_strictly_increases(a, b);
    }
    if b < 62 {
        lemma_pow2_strictly_increases(b, 62);
    }
}

/// The first chunks of a value make up its remainder.
proof fn lemma_bit_chunks(v: int, b: nat, n: nat)
    requires
        v >= 0,
    ensures
        sum(n, |j: int| bit_chunk(v, b as int, j) * pow2((b * j) as nat)) == v % pow2(
            b * n,
        ) as int,
    decreases n,
{
    let f = |j: int| bit_chunk(v, b as int, j) * pow2((b * j) as nat);
    if n == 0 {
        assert(b * 0 == 0) by (nonlinear_arith);
        lemma_pow2_unfold_zero();
    } else {
        let m = (n - 1) as nat;
        lemma_bit_chunks(v, b, m);
        assert(b * n == b * m + b) by (nonlinear_arith)
            requires
                n == m + 1,
        ;
        lemma_pow2_adds(b * m, b);
        lemma_pow2_pos(b * m);
        lemma_pow2_pos(b);
        let (p, q) = (pow2(b * m) as int, pow2(b) as int);
        lemma_mod_breakdown(v, p, q);
        assert(p * ((v / p) % q) == ((v / p) % q) * p) by (nonlinear_arith);
        lemma_sum_same(m, f, |j: int| bit_chunk(v, b as int, j) * pow2((b * j) as nat));
    }
}

/// A value is put together again from what is looked up and what is range checked: the
/// highest chunk counts without its scale.
pub proof fn law_value_recombines(v: int, bits: nat, b: nat)
    requires
        bits >= 1,
        b >= 1,
    ensures
        ({
            let n = num_range_checks(bits as int, b as int) as nat;
            let low = v % pow2(bits) as int;
            v == (v / pow2(bits) as int) * pow2(bits) + sum(
                n,
                |j: int| bit_chunk(low, b as int, j) * pow2((b * j) as nat),
            )
        }),
{
    let n = num_range_checks(bits as int, b as int) as nat;
    let m = pow2(bits) as int;
    lemma_pow2_pos(bits);
    lemma_fundamental_div_mod(v, m);
    lemma_mod_bound(v, m);
    assert(m * (v / m) == (v / m) * m) by (nonlinear_arith);
    let low = v % m;
    lemma_bit_chunks(low, b, n);
    lemma_fundamental_div_mod(bits - 1, b as int);
    lemma_mod_bound(bits - 1, b as int);
    assert(b * n >= bits) by (nonlinear_arith)
        requires
            n == (bits - 1) / b as int + 1,
            bits - 1 == b * ((bits - 1) / b as int) + (bits - 1) % b as int,
            (bits - 1) % (b as int) < b,
            b >= 1,
    ;
    if bits < b * n {
        lemma_pow2_strictly_increases(bits, b * n);
    }
    lemma_small_mod(low as nat, pow2(b * n));
}

/// The highest chunk, scaled up, still fits its chunk: it passes the range check.
pub proof fn law_top_chunk_fits(v: int, bits: nat, b: nat)
    requires
        bits >= 1,
        b >= 1,
    ensures
        ({
            let n = num_range_checks(bits as int, b as int);
            let c = checked_chunk(v, bits as int, b as int, top_exponent(bits as int, b as int), n - 1);
            0 <= c && c < pow2(b)
        }),
{
    let n = num_range_checks(bits as int, b as int);
    let low = v % pow2(bits) as int;
    lemma_pow2_pos(bits);
    lemma_mod_bound(v, pow2(bits) as int);
    let q = (bits - 1) / b as int;
    let r = (bits - 1) % b as int;
    lemma_fundamental_div_mod(bits - 1, b as int);
    lemma_mod_bound(bits - 1, b as int);
    lemma_div_pos_is_pos(bits - 1, b as int);
    let s = (b * q) as nat;
    assert(0 <= b * q) by (nonlinear_arith)
        requires
            q >= 0,
    ;
    let rest = (r + 1) as nat;
    assert(bits == s + rest);
    lemma_pow2_adds(s, rest);
    lemma_pow2_pos(s);
    lemma_pow2_pos(rest);
    let top = top_exponent(bits as int, b as int);
    assert(top == b - rest) by {
        if rest == b {
            assert(bits == b * (q + 1)) by (nonlinear_arith)
                requires
                    bits == b * q + b,
            ;
            lemma_fundamental_div_mod_converse(bits as int, b as int, q + 1, 0);
        } else {
            assert(bits as int == q * b + rest) by (nonlinear_arith)
                requires
                    bits == b * q + rest,
            ;
            lemma_fundamental_div_mod_converse(bits as int, b as int, q, rest as int);
        }
    }
    let x = low / pow2(s) as int;
    lemma_div_pos_is_pos(low, pow2(s) as int);
    lemma_fundamental_div_mod(low, pow2(s) as int);
    lemma_mod_bound(low, pow2(s) as int);
    let (ps, pr) = (pow2(s) as int, pow2(rest) as int);
    assert(x < pr) by (nonlinear_arith)
        requires
            low < ps * pr,
            ps * x <= low,
            ps > 0,
    ;
    lemma_pow2_adds(rest, (b - rest) as nat);
    lemma_pow2_pos((b - rest) as nat);
    if rest < b {
        lemma_pow2_strictly_increases(rest, b);
    }
    lemma_small_mod(x as nat, pow2(b));
    let k = pow2((b - rest) as nat) as int;
    assert(0 <= x * k && x * k < pr * k) by (nonlinear_arith)
        requires
            0 <= x < pr,
            k > 0,
    ;
}

impl QuantisedLayerNormData {
    /// The chunk `j` of the low bits of a value, as it is range checked.
    fn chunk_of(&self, full: Element, bit_len: usize, j: usize, count: usize) -> (r: Element)
        requires
            1 <= self.range_check_bits <= 62,
            1 <= bit_len <= 62,
            self.top_chunk_scalar_log == top_exponent(
                self.range_check_bits as int,
                bit_len as int,
            ),
            count == num_range_checks(self.range_check_bits as int, bit_len as int),
            j < count,
        ensures
            r == checked_chunk(
                full as int,
                self.range_check_bits as int,
                bit_len as int,
                self.top_chunk_scalar_log as int,
                j as int,
            ),
    {
        let bits = self.range_check_bits;
        let ghost m = pow2(bits as nat) as int;
        let q = floor_shift(full, bits);
        let d = small_power(bits);
        proof {
            lemma_fundamental_div_mod(full as int, m);
            lemma_mod_bound(full as int, m);
            lemma_small_pow2(0, bits as nat);
            assert(m * q == q * m) by (nonlinear_arith);
        }
        let cleared = self.cleared(full);
        let low: Element = full - cleared;
        assert(low == full as int % m);
        proof {
            let (bl, k) = (bit_len as int, self.range_check_bits - 1);
            lemma_fundamental_div_mod(k, bl);
            lemma_mod_bound(k, bl);
            assert(bl * j <= k) by (nonlinear_arith)
                requires
                    j <= k / bl,
                    k == bl * (k / bl) + k % bl,
                    0 <= k % bl,
                    bl >= 1,
            ;
            assert(0 <= bl * j) by (nonlinear_arith)
                requires
                    bl >= 1,
                    j >= 0,
            ;
            lemma_small_pow2(0, (bl * j) as nat);
            lemma_small_pow2(0, bit_len as nat);
        }
        let shifted = low as u64 / small_power(bit_len * j) as u64;
        let c = (shifted % small_power(bit_len) as u64) as Element;
        if j == count - 1 {
            proof {
                law_top_chunk_fits(full as int, bits as nat, bit_len as nat);
                lemma_small_pow2(0, self.top_chunk_scalar_log as nat);
            }
            c * small_power(self.top_chunk_scalar_log)
        } else {
            c
        }
    }
}

impl LayerNorm<Element> {
    /// The values that are looked up and the chunks that are range checked, with how often
    /// each occurs. An input and its inverse root share a key, with the root times
    /// `separator`. A layer that has not been quantised is refused.
    pub fn lookup_witness(&self, data: &LayerNormData, bit_len: usize, separator: Element) -> (r: Result<
        LayerNormWitness,
        Error,
    >)
        requires
            self.quant_info matches Some(q) ==> {
                let n = num_range_checks(q.range_check_bits as int, bit_len as int);
                &&& 1 <= q.range_check_bits <= 62
                &&& 1 <= bit_len <= 62
                &&& q.top_chunk_scalar_log == top_exponent(
                    q.range_check_bits as int,
                    bit_len as int,
                )
                &&& data.lookup_output@.len() == data.full_value@.len()
                &&& n * data.full_value@.len() < u64::MAX
                &&& forall|i: int|
                    0 <= i < data.full_value@.len() ==> {
                        &&& fits(#[trigger] data.lookup_output@[i] * separator)
                        &&& fits(
                            data.full_value@[i] as int / pow2(q.range_check_bits as nat) as int
                                + data.lookup_output@[i] * separator,
                        )
                    }
            },
        ensures
            match r {
                Ok(w) => self.quant_info matches Some(q) && {
                    let n = num_range_checks(q.range_check_bits as int, bit_len as int);
                    let len = data.full_value@.len();
                    &&& w.lookup_input@.len() == len
                    &&& forall|i: int|
                        0 <= i < len ==> #[trigger] w.lookup_input@[i] == data.full_value@[i] as int
                            / pow2(q.range_check_bits as nat) as int
                    &&& w.range_checks@.len() == n
                    &&& forall|j: int|
                        0 <= j < n ==> is_chunk_column(
                            q,
                            data.full_value@,
                            bit_len as int,
                            j,
                            (#[trigger] w.range_checks@[j])@,
                        )
                    &&& counts(w.range_elements_count@, flattened(w.range_checks@, n))
                    &&& counts(
                        w.inv_sqrt_element_count@,
                        root_keys(
                            w.lookup_input@,
                            data.lookup_output@,
                            separator as int,
                            len,
                        ),
                    )
                },
                Err(e) => e == Error::NotQuantised && self.quant_info is None,
            },
    {
        let info = match self.quant_info {
            Some(q) => q,
            None => {
                return Err(Error::NotQuantised);
            },
        };
        let bits = info.range_check_bits;
        let len: usize = data.full_value.len();
        let count: usize = (bits - 1) / bit_len + 1;
        let mut lookup_input: Vec<Element> = Vec::new();
        let mut inv_sqrt_element_count: HashMap<Element, u64> = HashMap::new();
        let ghost sep = separator as int;
        proof {
            assert(count >= 1);
            assert(len <= count * len) by (nonlinear_arith)
                requires
                    count >= 1,
            ;
            assert(root_keys(lookup_input@, data.lookup_output@, sep, 0) =~= Seq::<Element>::empty());
        }
        for i in 0..len
            invariant
                len == data.full_value@.len(),
                len < u64::MAX,
                data.lookup_output@.len() == len,
                bits <= 62,
                sep == separator,
                forall|i: int|
                    0 <= i < len ==> {
                        &&& fits(#[trigger] data.lookup_output@[i] * separator)
                        &&& fits(
                            data.full_value@[i] as int / pow2(bits as nat) as int
                                + data.lookup_output@[i] * separator,
                        )
                    },
                lookup_input@.len() == i,
                forall|k: int|
                    0 <= k < i ==> #[trigger] lookup_input@[k] == data.full_value@[k] as int / pow2(
                        bits as nat,
                    ) as int,
                counts(
                    inv_sqrt_element_count@,
                    root_keys(lookup_input@, data.lookup_output@, sep, i as nat),
                ),
        {
            let input = floor_shift(data.full_value[i], bits);
            assert(fits(data.lookup_output@[i as int] * separator));
            let key: Element = input + data.lookup_output[i] * separator;
            let ghost before = root_keys(lookup_input@, data.lookup_output@, sep, i as nat);
            lookup_input.push(input);
            count_value(&mut inv_sqrt_element_count, key, Ghost(before));
            assert(before.push(key) =~= root_keys(
                lookup_input@,
                data.lookup_output@,
                sep,
                (i + 1) as nat,
            ));
        }
        let mut range_checks: Vec<Vec<Element>> = Vec::new();
        let mut range_elements_count: HashMap<Element, u64> = HashMap::new();
        let ghost mut seen: Seq<Element> = Seq::empty();
        proof {
            assert(0 * len == 0);
        }
        for j in 0..count
            invariant
                len == data.full_value@.len(),
                count == num_range_checks(bits as int, bit_len as int),
                count * len < u64::MAX,
                bits == info.range_check_bits,
                1 <= bits <= 62,
                1 <= bit_len <= 62,
                info.top_chunk_scalar_log == top_exponent(bits as int, bit_len as int),
                range_checks@.len() == j,
                forall|k: int|
                    0 <= k < j ==> is_chunk_column(
                        info,
                        data.full_value@,
                        bit_len as int,
                        k,
                        (#[trigger] range_checks@[k])@,
                    ),
                seen == flattened(range_checks@, j as int),
                seen.len() == j * len,
                counts(range_elements_count@, seen),
        {
            let mut column: Vec<Element> = Vec::new();
            let ghost start = seen;
            proof {
                assert(j * len + len <= count * len) by (nonlinear_arith)
                    requires
                        j < count,
                ;
                assert(start + column@ =~= start);
            }
            for i in 0..len
                invariant
                    len == data.full_value@.len(),
                    count == num_range_checks(bits as int, bit_len as int),
                    j < count,
                    bits == info.range_check_bits,
                    1 <= bits <= 62,
                    1 <= bit_len <= 62,
                    info.top_chunk_scalar_log == top_exponent(bits as int, bit_len as int),
                    start.len() + len < u64::MAX,
                    column@.len() == i,
                    forall|k: int|
                        0 <= k < i ==> #[trigger] column@[k] == checked_chunk(
                            data.full_value@[k] as int,
                            bits as int,
                            bit_len as int,
                            info.top_chunk_scalar_log as int,
                            j as int,
                        ),
                    seen == start + column@,
                    counts(range_elements_count@, seen),
            {
                let c = info.chunk_of(data.full_value[i], bit_len, j, count);
                count_value(&mut range_elements_count, c, Ghost(seen));
                column.push(c);
                proof {
                    assert(seen.push(c) =~= start + column@);
                    seen = start + column@;
                }
            }
            let ghost old_columns = range_checks@;
            range_checks.push(column);
            proof {
                lemma_flattened_same(old_columns, range_checks@, j as int);
                assert((j + 1) * len == j * len + len) by (nonlinear_arith);
                assert(flattened(range_checks@, j + 1) =~= seen);
            }
        }
        Ok(
            LayerNormWitness {
                lookup_input,
                range_checks,
                range_elements_count,
                inv_sqrt_element_count,
            },
        )
    }
}

/// The column of the chunks `j` of the values.
pub open spec fn is_chunk_column(
    q: QuantisedLayerNormData,
    full: Seq<Element>,
    bit_len: int,
    j: int,
    column: Seq<Element>,
) -> bool {
    &&& column.len() == full.len()
    &&& forall|i: int|
        0 <= i < full.len() ==> #[trigger] column[i] == checked_chunk(
            full[i] as int,
            q.range_check_bits as int,
            bit_len,
            q.top_chunk_scalar_log as int,
            j,
        )
}

/// Only the first columns matter.
proof fn lemma_flattened_same(a: Seq<Vec<Element>>, b: Seq<Vec<Element>>, n: int)
    requires
        0 <= n <= a.len(),
        n <= b.len(),
        forall|k: int| 0 <= k < n ==> a[k] == b[k],
    ensures
        flattened(a, n) == flattened(b, n),
    decreases n,
{
    if n > 0 {
        lemma_flattened_same(a, b, n - 1);
    }
}

} // verus!
