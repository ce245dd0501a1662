//! The values that a logits layer looks up: the distances of the inputs to the
//! maximum of their row, cut into chunks that fit the lookup table.
use std::collections::HashMap;
use vstd::prelude::*;
use vstd::arithmetic::div_mod::*;
use vstd::arithmetic::power2::{lemma2_to64, lemma2_to64_rest, lemma_pow2_adds, lemma_pow2_pos, pow2};
use crate::counting::{count_value, counts};
use crate::error::Error;
use crate::field::{all_stand_for, stands_for, Lifted, PrimeField};
use crate::logits::{chunk_count, count_rows, rows_fit, rows_of, ArgmaxData, Logits};
use crate::lookup::{SHIFT_CHECK_TABLE_BIT_SIZE, SHIFT_CHECK_TABLE_SIZE};
use crate::mle::lemma_pow2_unfold_zero;
use crate::shape::padded;
use crate::sum::{lemma_sum_same, sum};
use crate::tensor::{can_pad, resized, Element, Tensor};

verus! {

/// The number of bits below the `i`-th chunk of a value.
pub open spec fn chunk_shift(i: int) -> nat {
    (SHIFT_CHECK_TABLE_BIT_SIZE * i) as nat
}

/// The `i`-th chunk of a value, the lowest first.
pub open spec fn chunk(v: int, i: int) -> int {
    (v / pow2(chunk_shift(i)) as int) % SHIFT_CHECK_TABLE_SIZE as int
}

/// A value, put together from its first `n` chunks.
pub open spec fn recombined(chunks: spec_fn(int) -> int, n: nat) -> int {
    sum(n, |i: int| chunks(i) * pow2(chunk_shift(i)))
}

/// A value that fits `n` chunks is put together again from them.
pub proof fn law_chunks_recombine(v: int, n: nat)
    requires
        0 <= v < pow2(chunk_shift(n as int)),
    ensures
        recombined(|i: int| chunk(v, i), n) == v,
{
    lemma_chunks(v, n);
    let p = pow2(chunk_shift(n as int)) as int;
    lemma_small_mod(v as nat, p as nat);
    let c = |i: int| chunk(v, i);
    lemma_sum_same(
        n,
        |i: int| chunk(v, i) * pow2(chunk_shift(i)),
        |i: int| c(i) * pow2(chunk_shift(i)),
    );
}

/// The first `n` chunks of a value make up its remainder.
proof fn lemma_chunks(v: int, n: nat)
    ensures
        sum(n, |i: int| chunk(v, i) * pow2(chunk_shift(i))) == v % pow2(
            chunk_shift(n as int),
        ) as int,
    decreases n,
{
    let f = |i: int| chunk(v, i) * pow2(chunk_shift(i));
    if n == 0 {
        lemma_pow2_unfold_zero();
    } else {
        let m = (n - 1) as nat;
        lemma_chunks(v, m);
        let a = pow2(chunk_shift(m as int)) as int;
        let b = SHIFT_CHECK_TABLE_SIZE as int;
        lemma_pow2_adds(chunk_shift(m as int), 16);
        lemma2_to64();
        lemma_pow2_pos(chunk_shift(m as int));
        assert(pow2(chunk_shift(n as int)) == a * b);
        let q = v / a;
        lemma_fundamental_div_mod(v, a);
        lemma_fundamental_div_mod(q, b);
        lemma_mod_bound(v, a);
        lemma_mod_bound(q, b);
        let r = v % a;
        let s = q % b;
        let t = q / b;
        assert(v == (a * b) * t + (s * a + r)) by (nonlinear_arith)
            requires
                v == a * q + r,
                q == b * t + s,
        ;
        assert(0 <= s * a + r < a * b) by (nonlinear_arith)
            requires
                0 <= r < a,
                0 <= s < b,
        ;
        lemma_fundamental_div_mod_converse(v, a * b, t, s * a + r);
        assert(f(n - 1) == s * a);
    }
}

/// A value and the unsigned value with the same bits have the same chunks.
proof fn lemma_chunk_wraps(v: int, i: int)
    requires
        0 <= i < 4,
    ensures
        chunk(v + 0x1_0000_0000_0000_0000, i) == chunk(v, i),
{
    let a = pow2(chunk_shift(i)) as int;
    let rest = (48 - 16 * i) as nat;
    let c = pow2(rest) as int;
    lemma_pow2_pos(chunk_shift(i));
    lemma_pow2_adds(chunk_shift(i), 16);
    lemma_pow2_adds((16 * i + 16) as nat, rest);
    lemma2_to64();
    lemma2_to64_rest();
    let b = SHIFT_CHECK_TABLE_SIZE as int;
    assert(pow2(64) == (a * b) * c);
    assert((a * b) * c == a * (b * c)) by (nonlinear_arith);
    assert(0x1_0000_0000_0000_0000 == pow2(64));
    lemma_hoist_over_denominator(v, b * c, a as nat);
    assert((b * c) * a == a * (b * c)) by (nonlinear_arith);
    assert((v + pow2(64)) / a == v / a + b * c);
    lemma_mod_multiples_vanish(c, v / a, b);
    assert(b * c + v / a == v / a + b * c);
}

/// The `i`-th chunk of a value.
pub fn chunk_of(v: Element, i: usize) -> (r: Element)
    requires
        i < 4,
    ensures
        r == chunk(v as int, i as int),
        0 <= r < SHIFT_CHECK_TABLE_SIZE,
{
    let bits: u64 = if v >= 0 {
        v as u64
    } else {
        u64::MAX - (-(v + 1)) as u64
    };
    let divisor: u64 = if i == 0 {
        1
    } else if i == 1 {
        0x1_0000
    } else if i == 2 {
        0x1_0000_0000
    } else {
        0x1_0000_0000_0000
    };
    proof {
        lemma2_to64();
        lemma2_to64_rest();
        lemma_pow2_unfold_zero();
        assert(divisor == pow2(chunk_shift(i as int)));
        if v < 0 {
            assert(bits == v + 0x1_0000_0000_0000_0000);
            lemma_chunk_wraps(v as int, i as int);
        }
    }
    ((bits / divisor) % SHIFT_CHECK_TABLE_SIZE) as Element
}

/// How far the value at the place `p` lies below the maximum of its row; zero in
/// the padding.
pub open spec fn distance(input: Tensor<Element>, maxima: Seq<Element>, p: int) -> int {
    let cols = input.shape@.last() as int;
    let r = p / cols;
    let j = p % cols;
    if r < maxima.len() && j < input.unpadded_shape@.last() {
        maxima[r] - input.data@[p]
    } else {
        0
    }
}

/// The `i`-th chunk of every distance.
pub open spec fn chunk_column(input: Tensor<Element>, maxima: Seq<Element>, i: int) -> Seq<Element> {
    Seq::new(
        input.data@.len(),
        |p: int| chunk(distance(input, maxima, p), i) as Element,
    )
}

/// The first `n` chunks of all distances, one column after the other.
pub open spec fn chunk_columns(input: Tensor<Element>, maxima: Seq<Element>, n: nat) -> Seq<Element>
    decreases n,
{
    if n == 0 {
        Seq::empty()
    } else {
        chunk_columns(input, maxima, (n - 1) as nat) + chunk_column(input, maxima, n - 1)
    }
}

proof fn lemma_chunk_columns_len(input: Tensor<Element>, maxima: Seq<Element>, n: nat)
    ensures
        chunk_columns(input, maxima, n).len() == n * input.data@.len(),
    decreases n,
{
    if n > 0 {
        lemma_chunk_columns_len(input, maxima, (n - 1) as nat);
        let l = input.data@.len();
        assert(n * l == (n - 1) * l + l) by (nonlinear_arith)
            requires
                n >= 1,
        ;
    } else {
        assert(0 * input.data@.len() == 0);
    }
}

/// What a logits layer commits to and looks up.
#[derive(Debug)]
pub struct LogitsWitness<F> {
    /// The maxima and, where a distance takes several chunks, the chunks.
    pub polys: Vec<Vec<F>>,
    /// How often each value is looked up.
    pub element_count: HashMap<Element, u64>,
}

/// The integers that some elements are.
pub open spec fn element_ints(s: Seq<Element>) -> Seq<int> {
    Seq::new(s.len(), |i: int| s[i] as int)
}

/// Elements as field elements.
pub fn to_field<F: PrimeField>(s: &Vec<Element>) -> (r: Vec<F>)
    ensures
        all_stand_for(r@, element_ints(s@)),
{
    let mut r: Vec<F> = Vec::new();
    for i in 0..s.len()
        invariant
            r@.len() == i,
            forall|j: int| 0 <= j < i ==> stands_for(#[trigger] r@[j], s@[j] as int),
    {
        r.push(Lifted::<F>::of_i64(s[i]).get());
    }
    r
}

/// The distances of all values to the maximum of their row.
fn distances(input: &Tensor<Element>, maxima: &Vec<Element>) -> (r: Vec<Element>)
    requires
        input.wf(),
        input.shape@.len() >= 1,
        input.shape@.last() > 0,
        forall|p: int|
            0 <= p < input.data@.len() ==> Element::MIN <= #[trigger] distance(*input, maxima@, p)
                && distance(*input, maxima@, p) <= Element::MAX,
    ensures
        r@.len() == input.data@.len(),
        forall|p: int|
            0 <= p < r@.len() ==> #[trigger] r@[p] == distance(*input, maxima@, p),
{
    let rank = input.shape.rank();
    let cols: usize = input.shape.dims[rank - 1];
    let width: usize = input.unpadded_shape.dims[rank - 1];
    let mut r: Vec<Element> = Vec::new();
    for p in 0..input.data.len()
        invariant
            input.wf(),
            rank == input.shape@.len(),
            rank >= 1,
            cols == input.shape@.last(),
            width == input.unpadded_shape@.last(),
            cols > 0,
            forall|p: int|
                0 <= p < input.data@.len() ==> Element::MIN <= #[trigger] distance(
                    *input,
                    maxima@,
                    p,
                ) && distance(*input, maxima@, p) <= Element::MAX,
            r@.len() == p,
            forall|q: int| 0 <= q < p ==> #[trigger] r@[q] == distance(*input, maxima@, q),
    {
        assert(Element::MIN <= distance(*input, maxima@, p as int));
        if p / cols < maxima.len() && p % cols < width {
            r.push(maxima[p / cols] - input.data[p]);
        } else {
            r.push(0);
        }
    }
    r
}

impl Logits {
    /// The committed tables and the lookups of the layer, for its input and the
    /// maxima that evaluation found. It takes a single input and the maxima of a
    /// single input, with as many of them as the input has rows, and only a
    /// quantised layer has a witness.
    pub fn gen_lookup_witness<F: PrimeField>(
        &self,
        inputs: &Vec<Tensor<Element>>,
        argmax_data: &ArgmaxData,
    ) -> (r: Result<LogitsWitness<F>, Error>)
        requires
            inputs@.len() == 1 ==> {
                &&& inputs@[0].wf()
                &&& inputs@[0].shape@.len() >= 1
                &&& inputs@[0].shape@.last() > 0
                &&& rows_fit(inputs@[0].unpadded_shape@)
                &&& 4 * inputs@[0].data@.len() <= u64::MAX
            },
            inputs@.len() == 1 && argmax_data.max_values@.len() == 1 ==> {
                let maxima = argmax_data.max_values@[0];
                &&& maxima.wf()
                &&& maxima.shape@.len() >= 1
                &&& can_pad(maxima.shape@)
                &&& forall|p: int|
                    0 <= p < inputs@[0].data@.len() ==> Element::MIN <= #[trigger] distance(
                        inputs@[0],
                        maxima.data@,
                        p,
                    ) && distance(inputs@[0], maxima.data@, p) <= Element::MAX
            },
            self->Argmax_0 is Some ==> self->Argmax_0->Some_0.input_bit_size < 64,
        ensures
            match r {
                Ok(w) => {
                    let maxima = argmax_data.max_values@[0];
                    let n = chunk_count(self->Argmax_0->Some_0.input_bit_size as int);
                    &&& inputs@.len() == 1
                    &&& self->Argmax_0 is Some
                    &&& argmax_data.max_values@.len() == 1
                    &&& maxima.shape@[0] == rows_of(inputs@[0].unpadded_shape@)
                    &&& w.polys@.len() == if n == 1 {
                        1
                    } else {
                        1 + n
                    }
                    &&& all_stand_for(
                        w.polys@[0]@,
                        element_ints(
                            resized(maxima.data@, maxima.shape@, padded(maxima.shape@), 0),
                        ),
                    )
                    &&& forall|i: int|
                        0 <= i < w.polys@.len() - 1 ==> all_stand_for(
                            (#[trigger] w.polys@[i + 1])@,
                            element_ints(chunk_column(inputs@[0], maxima.data@, i)),
                        )
                    &&& counts(
                        w.element_count@,
                        chunk_columns(inputs@[0], maxima.data@, n as nat),
                    )
                },
                Err(e) => if inputs@.len() != 1 {
                    e == Error::WrongNumberOfInputs
                } else if self->Argmax_0 is None {
                    e == Error::NotQuantised
                } else if argmax_data.max_values@.len() != 1 {
                    e == Error::WrongNumberOfInputs
                } else {
                    &&& e == Error::InvalidShape
                    &&& argmax_data.max_values@[0].shape@[0] != rows_of(inputs@[0].unpadded_shape@)
                },
            },
    {
        if inputs.len() != 1 {
            return Err(Error::WrongNumberOfInputs);
        }
        let input = &inputs[0];
        match self {
            Logits::Argmax(Some(_)) => {},
            Logits::Argmax(None) => {
                return Err(Error::NotQuantised);
            },
        }
        if argmax_data.max_values.len() != 1 {
            return Err(Error::WrongNumberOfInputs);
        }
        let maxima = &argmax_data.max_values[0];
        if maxima.shape.dims[0] != count_rows(&input.unpadded_shape) {
            return Err(Error::InvalidShape);
        }
        let n = self.range_check_chunks();
        let diffs = distances(input, &maxima.data);
        let mut polys: Vec<Vec<F>> = Vec::new();
        polys.push(to_field(&maxima.pad_next_power_of_two(0).data));
        let ghost first = polys@[0];
        let mut element_count: HashMap<Element, u64> = HashMap::new();
        for i in 0..n
            invariant
                n <= 4,
                n >= 1,
                input.wf(),
                4 * input.data@.len() <= u64::MAX,
                diffs@.len() == input.data@.len(),
                forall|p: int|
                    0 <= p < diffs@.len() ==> #[trigger] diffs@[p] == distance(
                        *input,
                        maxima.data@,
                        p,
                    ),
                polys@.len() == if n == 1 {
                    1
                } else {
                    1 + i as int
                },
                polys@[0] == first,
                forall|k: int|
                    0 <= k < polys@.len() - 1 ==> all_stand_for(
                        (#[trigger] polys@[k + 1])@,
                        element_ints(chunk_column(*input, maxima.data@, k)),
                    ),
                counts(element_count@, chunk_columns(*input, maxima.data@, i as nat)),
        {
            let ghost done = chunk_columns(*input, maxima.data@, i as nat);
            let ghost column = chunk_column(*input, maxima.data@, i as int);
            proof {
                lemma_chunk_columns_len(*input, maxima.data@, i as nat);
            }
            let mut values: Vec<Element> = Vec::new();
            assert(done + column.take(0) =~= done);
            for p in 0..diffs.len()
                invariant
                    0 <= i < n,
                    n <= 4,
                    input.wf(),
                    4 * input.data@.len() <= u64::MAX,
                    diffs@.len() == input.data@.len(),
                    forall|p: int|
                        0 <= p < diffs@.len() ==> #[trigger] diffs@[p] == distance(
                            *input,
                            maxima.data@,
                            p,
                        ),
                    done.len() == i * input.data@.len(),
                    column == chunk_column(*input, maxima.data@, i as int),
                    values@ == column.take(p as int),
                    counts(element_count@, done + column.take(p as int)),
            {
                let c = chunk_of(diffs[p], i);
                proof {
                    let l = input.data@.len() as int;
                    let ii = i as int;
                    assert(ii * l <= 3 * l) by (nonlinear_arith)
                        requires
                            ii <= 3,
                            l >= 0,
                    ;
                    assert(column[p as int] == c);
                    assert(column.take(p + 1) =~= column.take(p as int).push(c));
                    assert(done + column.take(p + 1) =~= (done + column.take(p as int)).push(c));
                }
                count_value(&mut element_count, c, Ghost(done + column.take(p as int)));
                values.push(c);
            }
            proof {
                assert(column.take(column.len() as int) =~= column);
            }
            if n > 1 {
                polys.push(to_field(&values));
            }
        }
        Ok(LogitsWitness { polys, element_count })
    }
}

} // verus!
