//! Rows brought to mean zero and divided by their deviation, with the inverse of the
//! deviation looked up.
use vstd::prelude::*;
use vstd::arithmetic::div_mod::*;
use vstd::arithmetic::power2::{lemma2_to64, lemma2_to64_rest, lemma_pow2_adds, lemma_pow2_pos, pow2};
use crate::error::Error;
use crate::linear::{fits, is_matrix};
use crate::normalisation::{floor_shift, row_count, row_squares, row_square_sums, row_sums, row_total, small_power};
use crate::positional::rope::is_padded_from;
use crate::shape::{ceil_log2, ceil_log2_u64, copy_shapes, lemma_numel_matrix, log2_ceil, same_shapes, Shape};
use crate::tensor::{can_pad, Element, KeyedTensor, Tensor};

pub mod bits;
pub mod laws;
pub mod prove;
pub mod sums;
pub mod verify;
pub mod witness;

verus! {

/// The exponent of the scale of the values whose inverse root is looked up.
pub const LOG_LAYERNORM_SCALE_FACTOR: usize = 20;

/// The scale of the values whose inverse root is looked up.
pub const LAYERNORM_SCALE_FACTOR: usize = 0x10_0000;

/// The scale of the inverse roots.
pub const LAYERNORM_OUTPUT_SCALE_FACTOR: usize = 0x10_0000;

/// What it takes to evaluate a quantised layer.
#[derive(Clone, Copy, Debug, PartialEq, Eq, Structural)]
pub struct QuantisedLayerNormData {
    /// What the values are multiplied by before they are looked up.
    pub multiplier: Element,
    /// The low bits that are not looked up but range checked.
    pub range_check_bits: usize,
    /// The size of a row.
    pub dim_size: usize,
    /// The exponent of what the highest range checked chunk is multiplied by.
    pub top_chunk_scalar_log: usize,
}

/// What the evaluation of a quantised layer leaves for the prover.
#[derive(Debug)]
pub struct LayerNormData {
    /// The inverse roots that were looked up.
    pub lookup_output: Vec<Element>,
    /// The values whose inverse roots were looked up, with the bits that were range
    /// checked.
    pub full_value: Vec<Element>,
}

/// A layer that normalises rows, with a factor and a bias for each column.
#[derive(Debug)]
pub struct LayerNorm<N> {
    pub gamma: KeyedTensor<N>,
    pub beta: KeyedTensor<N>,
    pub quant_info: Option<QuantisedLayerNormData>,
}

/// The bits of the values whose inverse roots the layer needs.
pub open spec fn table_bits(dim_size: nat, multiplier: nat, bit_len: int) -> int {
    2 * (log2_ceil(dim_size) + bit_len - 1) + log2_ceil(multiplier) + 1
}

/// How many low bits of a value are range checked: all but the precision of the input,
/// which is twice that of a value without its sign.
pub fn range_checked_bits(dim_size: usize, multiplier: Element, bit_len: usize) -> (r: usize)
    requires
        multiplier >= 0,
        1 <= bit_len <= 64,
    ensures
        r == table_bits(dim_size as nat, multiplier as nat, bit_len as int) - 2 * (bit_len - 1),
{
    2 * ceil_log2(dim_size) + ceil_log2_u64(multiplier as u64) + 1
}

/// The bound of the values whose inverse roots are looked up, without their low bits:
/// they lie from its negative up to it.
pub fn looked_up_bound(bit_len: usize) -> (r: Element)
    requires
        1 <= bit_len <= 32,
    ensures
        r == pow2((2 * (bit_len - 1)) as nat),
{
    small_power(2 * (bit_len - 1))
}

/// The exponent of what the highest chunk of `bits` bits is multiplied by to fill a
/// chunk of `bit_len` bits.
pub open spec fn top_exponent(bits: int, bit_len: int) -> int {
    if bits % bit_len == 0 {
        0
    } else {
        bit_len - bits % bit_len
    }
}

impl<N> LayerNorm<N> {
    /// A layer that has not been quantised.
    pub fn new(gamma: KeyedTensor<N>, beta: KeyedTensor<N>) -> (r: Self)
        requires
            gamma.tensor.shape@ == beta.tensor.shape@,
            gamma.tensor.shape@.len() == 1,
        ensures
            r.gamma == gamma,
            r.beta == beta,
            r.quant_info is None,
    {
        LayerNorm { gamma, beta, quant_info: None }
    }

    /// A layer made of factors and biases that were loaded, where they were found.
    pub fn from_json(gamma: Option<KeyedTensor<N>>, beta: Option<KeyedTensor<N>>) -> (r: Result<
        Self,
        Error,
    >)
        requires
            gamma is Some && beta is Some ==> gamma->Some_0.tensor.shape@
                == beta->Some_0.tensor.shape@ && gamma->Some_0.tensor.shape@.len() == 1,
        ensures
            match (gamma, beta) {
                (Some(g), Some(b)) => r matches Ok(l) && l.gamma == g && l.beta == b
                    && l.quant_info is None,
                _ => r matches Err(e) && e == Error::MissingTensor,
            },
    {
        match (gamma, beta) {
            (Some(g), Some(b)) => Ok(Self::new(g, b)),
            _ => Err(Error::MissingTensor),
        }
    }

    /// A layer made of factors and biases that were loaded; each has to be a vector of
    /// the size of an embedding.
    pub fn from_gguf(
        gamma: Option<KeyedTensor<N>>,
        beta: Option<KeyedTensor<N>>,
        embedding_size: usize,
    ) -> (r: Result<Self, Error>)
        ensures
            match (gamma, beta) {
                (Some(g), Some(b)) => {
                    let ok = g.tensor.shape@ == seq![embedding_size] && b.tensor.shape@
                        == seq![embedding_size];
                    match r {
                        Ok(l) => ok && l.gamma == g && l.beta == b && l.quant_info is None,
                        Err(e) => e == Error::InvalidShape && !ok,
                    }
                },
                _ => r matches Err(e) && e == Error::MissingTensor,
            },
    {
        match (gamma, beta) {
            (Some(g), Some(b)) => {
                if g.tensor.shape.rank() != 1 || g.tensor.shape.dims[0] != embedding_size {
                    assert(g.tensor.shape@ != seq![embedding_size]);
                    return Err(Error::InvalidShape);
                }
                if b.tensor.shape.rank() != 1 || b.tensor.shape.dims[0] != embedding_size {
                    assert(b.tensor.shape@ != seq![embedding_size]);
                    return Err(Error::InvalidShape);
                }
                assert(g.tensor.shape@ =~= seq![embedding_size]);
                assert(b.tensor.shape@ =~= seq![embedding_size]);
                Ok(Self::new(g, b))
            },
            _ => Err(Error::MissingTensor),
        }
    }

    /// A layer made of factors and biases that were loaded; each has to be a vector of
    /// the size of an embedding.
    pub fn from_safetensors(
        gamma: Option<KeyedTensor<N>>,
        beta: Option<KeyedTensor<N>>,
        embedding_size: usize,
    ) -> (r: Result<Self, Error>)
        ensures
            match (gamma, beta) {
                (Some(g), Some(b)) => {
                    let ok = g.tensor.shape@ == seq![embedding_size] && b.tensor.shape@
                        == seq![embedding_size];
                    match r {
                        Ok(l) => ok && l.gamma == g && l.beta == b && l.quant_info is None,
                        Err(e) => e == Error::InvalidShape && !ok,
                    }
                },
                _ => r matches Err(e) && e == Error::MissingTensor,
            },
    {
        Self::from_gguf(gamma, beta, embedding_size)
    }

    /// The size of a row.
    pub fn normalisation_dim_size(&self) -> (r: usize)
        requires
            self.gamma.tensor.shape@.len() >= 1,
        ensures
            r == self.gamma.tensor.shape@[0],
    {
        self.gamma.tensor.shape.dims[0]
    }

    /// What it takes to evaluate the layer, where it has been quantised.
    pub fn quant_info(&self) -> (r: Option<QuantisedLayerNormData>)
        ensures
            r == self.quant_info,
    {
        self.quant_info
    }

    /// The shapes of the outputs are those of the inputs.
    pub fn output_shapes(&self, input_shapes: &Vec<Shape>) -> (r: Vec<Shape>)
        ensures
            same_shapes(r@, input_shapes@),
    {
        copy_shapes(input_shapes)
    }

    /// The quantised layer and the number of bits of its output, for the multiplier of
    /// its input, its quantised factors and biases, the largest inverse root that is
    /// looked up and the largest quantised bias. Factors and biases that are not vectors
    /// of one shape are refused.
    pub fn quantise(
        self,
        multiplier: Element,
        quant_gamma: KeyedTensor<Element>,
        quant_beta: KeyedTensor<Element>,
        max_lut_value: usize,
        quant_bias_max: Element,
        bit_len: usize,
    ) -> (r: Result<(LayerNorm<Element>, usize), Error>)
        requires
            self.gamma.tensor.shape@.len() >= 1,
            multiplier >= 0,
            1 <= bit_len <= 64,
        ensures
            ({
                let n = self.gamma.tensor.shape@[0];
                let ok = quant_gamma.tensor.shape@ == quant_beta.tensor.shape@
                    && quant_gamma.tensor.shape@.len() == 1;
                let bits = table_bits(n as nat, multiplier as nat, bit_len as int) - 2 * (bit_len
                    - 1);
                match r {
                    Ok((l, size)) => {
                        &&& ok
                        &&& l.gamma == quant_gamma
                        &&& l.beta == quant_beta
                        &&& l.quant_info matches Some(q) && q.multiplier == multiplier
                            && q.range_check_bits == bits && q.dim_size == n
                            && q.top_chunk_scalar_log == top_exponent(bits, bit_len as int)
                        &&& size == output_bits(
                            n as nat,
                            max_lut_value as nat,
                            quant_bias_max as int,
                            bit_len as int,
                        )
                    },
                    Err(e) => e == Error::InvalidShape && !ok,
                }
            }),
    {
        let dim_size = self.normalisation_dim_size();
        let dim_bits = ceil_log2(dim_size);
        let range_check_bits = range_checked_bits(dim_size, multiplier, bit_len);
        let remainder: usize = range_check_bits % bit_len;
        let top_chunk_scalar_log: usize = if remainder != 0 {
            bit_len - remainder
        } else {
            0
        };
        if !quant_gamma.tensor.shape.same(&quant_beta.tensor.shape) {
            return Err(Error::InvalidShape);
        }
        if quant_gamma.tensor.shape.rank() != 1 {
            return Err(Error::InvalidShape);
        }
        let lhs: usize = 2 * (bit_len - 1) + dim_bits + 1 + ceil_log2(max_lut_value);
        let size: usize = if quant_bias_max > 0 {
            let bias_bits = ceil_log2_u64(quant_bias_max as u64);
            if bias_bits > lhs {
                bias_bits + 1
            } else {
                lhs + 1
            }
        } else {
            lhs + 1
        };
        let info = QuantisedLayerNormData {
            multiplier,
            range_check_bits,
            dim_size,
            top_chunk_scalar_log,
        };
        Ok((LayerNorm { gamma: quant_gamma, beta: quant_beta, quant_info: Some(info) }, size))
    }
}

/// The bits of the output: those of the normalised value, times its factor, plus its
/// bias.
pub open spec fn output_bits(dim_size: nat, max_lut_value: nat, bias_max: int, bit_len: int) -> int {
    let lhs = 2 * (bit_len - 1) + log2_ceil(dim_size) + 1 + log2_ceil(max_lut_value);
    if bias_max > 0 && log2_ceil(bias_max as nat) > lhs {
        log2_ceil(bias_max as nat) as int + 1
    } else {
        lhs + 1
    }
}

/// How a layer that only shifts requantises: the extra bits and the multiplier that
/// bring a shift of `int_part` bits to whole chunks. More than 63 bits in all are
/// refused.
pub fn new_shift(int_part: usize, intermediate_bit_size: usize, bit_len: usize) -> (r: Result<
    (usize, Element),
    Error,
>)
    requires
        1 <= bit_len <= 63,
        intermediate_bit_size + bit_len <= usize::MAX,
    ensures
        ({
            let fp_scale = top_exponent(int_part as int, bit_len as int);
            match r {
                Ok((scale, multiplier)) => {
                    &&& scale == fp_scale
                    &&& multiplier == pow2(fp_scale as nat)
                    &&& intermediate_bit_size + fp_scale <= 63
                },
                Err(e) => e == Error::InvalidScaling && intermediate_bit_size + fp_scale > 63,
            }
        }),
{
    let remainder: usize = int_part % bit_len;
    let fp_scale: usize = if remainder != 0 {
        bit_len - remainder
    } else {
        0
    };
    if intermediate_bit_size + fp_scale > 63 {
        return Err(Error::InvalidScaling);
    }
    Ok((fp_scale, small_power(fp_scale)))
}

impl QuantisedLayerNormData {
    /// The value whose inverse root is looked up for a row: the squares of its values, less
    /// the square of its sum.
    pub open spec fn full(&self, x: Seq<Element>, w: int, i: int) -> int {
        let squares = row_squares(x, w, i, w as nat);
        let total = row_total(x, w, i, w as nat);
        squares * (self.dim_size * self.multiplier) - (total * total) * self.multiplier
    }

    /// No value on the way to the full values overflows.
    pub open spec fn full_fits(&self, input: Tensor<Element>) -> bool {
        let x = input.data@;
        let w = input.shape@.last() as int;
        &&& fits(self.dim_size as int)
        &&& fits(self.dim_size * self.multiplier)
        &&& forall|p: int| 0 <= p < x.len() ==> fits(#[trigger] x[p] * x[p])
        &&& forall|i: int, n: nat|
            0 <= i < row_count(input.shape@) && n <= w ==> fits(#[trigger] row_total(x, w, i, n))
        &&& forall|i: int, n: nat|
            0 <= i < row_count(input.shape@) && n <= w ==> fits(#[trigger] row_squares(x, w, i, n))
        &&& forall|i: int|
            0 <= i < row_count(input.shape@) ==> {
                let squares = row_squares(x, w, i, w as nat);
                let total = row_total(x, w, i, w as nat);
                &&& fits(squares * (self.dim_size * self.multiplier))
                &&& fits(total * total)
                &&& fits((total * total) * self.multiplier)
                &&& fits(#[trigger] self.full(x, w, i))
            }
    }

    /// The values whose inverse roots are looked up, one for each row.
    pub fn full_values(&self, input: &Tensor<Element>) -> (r: Vec<Element>)
        requires
            input.wf(),
            input.shape@.len() >= 1,
            input.shape@.last() > 0,
            self.full_fits(*input),
        ensures
            r@.len() == row_count(input.shape@),
            forall|i: int|
                0 <= i < r@.len() ==> #[trigger] r@[i] == self.full(
                    input.data@,
                    input.shape@.last() as int,
                    i,
                ),
    {
        let sums = row_sums(input);
        let squares = row_square_sums(input);
        let ghost x = input.data@;
        let ghost w = input.shape@.last() as int;
        let factor: Element = self.dim_size as Element * self.multiplier;
        let mut r: Vec<Element> = Vec::new();
        for i in 0..sums.len()
            invariant
                x == input.data@,
                w == input.shape@.last(),
                self.full_fits(*input),
                factor == self.dim_size * self.multiplier,
                sums@.len() == row_count(input.shape@),
                squares@.len() == sums@.len(),
                forall|k: int|
                    0 <= k < sums@.len() ==> #[trigger] sums@[k] == row_total(x, w, k, w as nat),
                forall|k: int|
                    0 <= k < squares@.len() ==> #[trigger] squares@[k] == row_squares(
                        x,
                        w,
                        k,
                        w as nat,
                    ),
                r@.len() == i,
                forall|k: int| 0 <= k < i ==> #[trigger] r@[k] == self.full(x, w, k),
        {
            proof {
                assert(fits(self.full(x, w, i as int)));
                assert(sums@[i as int] == row_total(x, w, i as int, w as nat));
                assert(squares@[i as int] == row_squares(x, w, i as int, w as nat));
            }
            let s: Element = sums[i];
            let a: Element = squares[i] * factor;
            let b: Element = (s * s) * self.multiplier;
            r.push(a - b);
        }
        r
    }

    /// A value without the bits that are range checked.
    pub fn cleared(&self, full_value: Element) -> (r: Element)
        requires
            self.range_check_bits <= 62,
        ensures
            r == (full_value as int / pow2(self.range_check_bits as nat) as int) * pow2(
                self.range_check_bits as nat,
            ),
    {
        let q = floor_shift(full_value, self.range_check_bits);
        let d = small_power(self.range_check_bits);
        proof {
            let m = pow2(self.range_check_bits as nat) as int;
            lemma_fundamental_div_mod(full_value as int, m);
            lemma_mod_bound(full_value as int, m);
            let x = full_value as int;
            assert(q * m == m * q) by (nonlinear_arith);
            assert(x - m < m * q && m * q <= x);
            if x < 0 {
                lemma_cleared(x, m, q as int, self.range_check_bits as nat);
            }
        }
        q * d
    }
}

/// A negative value without its low bits still fits.
proof fn lemma_cleared(x: int, m: int, q: int, s: nat)
    requires
        Element::MIN <= x < 0,
        s <= 62,
        m == pow2(s),
        x - m < m * q,
    ensures
        m * q >= Element::MIN,
{
    let t = (63 - s) as nat;
    lemma_pow2_adds(s, t);
    lemma2_to64_rest();
    lemma2_to64();
    let k = pow2(t) as int;
    lemma_pow2_pos(s);
    assert(m * k == 0x8000_0000_0000_0000int);
    assert(q >= -k) by (nonlinear_arith)
        requires
            m > 0,
            m * k == 0x8000_0000_0000_0000int,
            x >= -0x8000_0000_0000_0000int,
            x - m < m * q,
    ;
    assert(m * q >= -(m * k)) by (nonlinear_arith)
        requires
            m > 0,
            q >= -k,
    ;
}

impl LayerNorm<Element> {
    /// Why an input is refused, if it is.
    pub open spec fn input_refusal(&self, inputs: Seq<Tensor<Element>>) -> Option<Error> {
        if self.quant_info is None {
            Some(Error::NotQuantised)
        } else if inputs.len() != 1 {
            Some(Error::WrongNumberOfInputs)
        } else {
            None
        }
    }

    /// The value of the output at row `i` and column `j`.
    pub open spec fn value(&self, x: Seq<Element>, w: int, inv: Seq<Element>, i: int, j: int) -> int {
        let n = self.quant_info->Some_0.dim_size as int;
        (x[i * w + j] * n - row_total(x, w, i, w as nat)) * self.gamma.tensor.data@[j] * inv[i]
            + self.beta.tensor.data@[j]
    }

    /// No value on the way to the output overflows.
    pub open spec fn value_fits(&self, x: Seq<Element>, w: int, inv: Seq<Element>, i: int, j: int) -> bool {
        let n = self.quant_info->Some_0.dim_size as int;
        let a = x[i * w + j] * n;
        let b = a - row_total(x, w, i, w as nat);
        let c = b * self.gamma.tensor.data@[j];
        fits(a) && fits(b) && fits(c) && fits(c * inv[i]) && fits(
            c * inv[i] + self.beta.tensor.data@[j],
        )
    }

    /// The normalised rows, with each column multiplied by its factor and its bias added,
    /// for the inverse roots that were looked up.
    pub fn evaluate(&self, inputs: &Vec<Tensor<Element>>, inv_sqrt: Vec<Element>) -> (r: Result<
        (Tensor<Element>, LayerNormData),
        Error,
    >)
        requires
            self.input_refusal(inputs@) is None ==> {
                let input = inputs@[0];
                let w = input.shape@[1] as int;
                &&& is_matrix(input)
                &&& w > 0
                &&& self.gamma.tensor.data@.len() == w
                &&& self.beta.tensor.data@.len() == w
                &&& inv_sqrt@.len() == input.shape@[0]
                &&& self.quant_info->Some_0.full_fits(input)
                &&& forall|i: int, j: int|
                    0 <= i < input.shape@[0] && 0 <= j < w ==> #[trigger] self.value_fits(
                        input.data@,
                        w,
                        inv_sqrt@,
                        i,
                        j,
                    )
            },
        ensures
            match r {
                Ok((out, data)) => {
                    let input = inputs@[0];
                    let w = input.shape@[1] as int;
                    let q = self.quant_info->Some_0;
                    &&& self.input_refusal(inputs@) is None
                    &&& out.wf()
                    &&& out.shape@ == input.shape@
                    &&& forall|i: int, j: int|
                        0 <= i < input.shape@[0] && 0 <= j < w ==> #[trigger] out.data@[i * w + j]
                            == self.value(input.data@, w, inv_sqrt@, i, j)
                    &&& data.lookup_output == inv_sqrt
                    &&& data.full_value@.len() == input.shape@[0]
                    &&& forall|i: int|
                        0 <= i < data.full_value@.len() ==> #[trigger] data.full_value@[i]
                            == q.full(input.data@, w, i)
                },
                Err(e) => self.input_refusal(inputs@) == Some(e),
            },
    {
        let info = match self.quant_info {
            Some(q) => q,
            None => {
                return Err(Error::NotQuantised);
            },
        };
        if inputs.len() != 1 {
            return Err(Error::WrongNumberOfInputs);
        }
        let input = &inputs[0];
        let rows: usize = input.shape.dims[0];
        let w: usize = input.shape.dims[1];
        let ghost x = input.data@;
        proof {
            assert(input.shape@ =~= seq![rows, w]);
            lemma_numel_matrix(rows, w);
            assert(input.shape@.drop_last() =~= seq![rows]);
            lemma_numel_matrix(rows, 1);
        }
        let full_value = info.full_values(input);
        let sums = row_sums(input);
        let n: Element = info.dim_size as Element;
        let mut data: Vec<Element> = Vec::new();
        proof {
            assert(0 * w == 0);
        }
        for i in 0..rows
            invariant
                x == input.data@,
                x.len() == rows * w,
                self.quant_info == Some(info),
                n == info.dim_size,
                self.gamma.tensor.data@.len() == w,
                self.beta.tensor.data@.len() == w,
                inv_sqrt@.len() == rows,
                sums@.len() == rows,
                forall|k: int|
                    0 <= k < rows ==> #[trigger] sums@[k] == row_total(x, w as int, k, w as nat),
                forall|i: int, j: int|
                    0 <= i < rows && 0 <= j < w ==> #[trigger] self.value_fits(
                        x,
                        w as int,
                        inv_sqrt@,
                        i,
                        j,
                    ),
                data@.len() == i * w,
                forall|k: int, j: int|
                    0 <= k < i && 0 <= j < w ==> #[trigger] data@[k * w as int + j] == self.value(
                        x,
                        w as int,
                        inv_sqrt@,
                        k,
                        j,
                    ),
        {
            for j in 0..w
                invariant
                    x == input.data@,
                    x.len() == rows * w,
                    0 <= i < rows,
                    self.quant_info == Some(info),
                    n == info.dim_size,
                    self.gamma.tensor.data@.len() == w,
                    self.beta.tensor.data@.len() == w,
                    inv_sqrt@.len() == rows,
                    sums@.len() == rows,
                    forall|k: int|
                        0 <= k < rows ==> #[trigger] sums@[k] == row_total(
                            x,
                            w as int,
                            k,
                            w as nat,
                        ),
                    forall|i: int, j: int|
                        0 <= i < rows && 0 <= j < w ==> #[trigger] self.value_fits(
                            x,
                            w as int,
                            inv_sqrt@,
                            i,
                            j,
                        ),
                    data@.len() == i * w + j,
                    forall|k: int, l: int|
                        0 <= k < i && 0 <= l < w ==> #[trigger] data@[k * w as int + l]
                            == self.value(x, w as int, inv_sqrt@, k, l),
                    forall|l: int|
                        0 <= l < j ==> #[trigger] data@[i * w as int + l] == self.value(
                            x,
                            w as int,
                            inv_sqrt@,
                            i as int,
                            l,
                        ),
            {
                proof {
                    assert(0 <= i * w && i * w + w <= rows * w) by (nonlinear_arith)
                        requires
                            0 <= i < rows,
                    ;
                    assert(input.data.len() <= usize::MAX);
                    assert(self.value_fits(x, w as int, inv_sqrt@, i as int, j as int));
                    assert(sums@[i as int] == row_total(x, w as int, i as int, w as nat));
                }
                let a: Element = input.data[i * w + j] * n;
                let b: Element = a - sums[i];
                let c: Element = b * self.gamma.tensor.data[j];
                let v: Element = c * inv_sqrt[i] + self.beta.tensor.data[j];
                let ghost before = data@;
                data.push(v);
                proof {
                    let c = w as int;
                    assert forall|k: int, l: int| 0 <= k < i && 0 <= l < w implies #[trigger] data@[k
                        * w as int + l] == self.value(x, w as int, inv_sqrt@, k, l) by {
                        assert(0 <= k * c + l < i * c) by (nonlinear_arith)
                            requires
                                0 <= k < i,
                                0 <= l < c,
                        ;
                        assert(before[k * w as int + l] == self.value(x, w as int, inv_sqrt@, k, l));
                    }
                    assert forall|l: int| 0 <= l < j + 1 implies #[trigger] data@[i * w as int + l]
                        == self.value(x, w as int, inv_sqrt@, i as int, l) by {
                        if l < j {
                            assert(before[i * w as int + l] == self.value(
                                x,
                                w as int,
                                inv_sqrt@,
                                i as int,
                                l,
                            ));
                        }
                    }
                }
            }
            proof {
                let c = w as int;
                assert((i + 1) * c == i * c + c) by (nonlinear_arith);
                assert forall|k: int, l: int| 0 <= k < i + 1 && 0 <= l < w implies #[trigger] data@[k
                    * w as int + l] == self.value(x, w as int, inv_sqrt@, k, l) by {
                    if k == i {
                        assert(data@[i * w as int + l] == self.value(
                            x,
                            w as int,
                            inv_sqrt@,
                            i as int,
                            l,
                        ));
                    }
                }
            }
        }
        let out = Tensor { data, shape: input.shape.clone(), unpadded_shape: input.shape.clone() };
        Ok((out, LayerNormData { lookup_output: inv_sqrt, full_value }))
    }

    /// The layer with its factors and biases padded.
    pub fn pad_node(self) -> (r: Self)
        requires
            self.gamma.tensor.wf() && can_pad(self.gamma.tensor.shape@),
            self.beta.tensor.wf() && can_pad(self.beta.tensor.shape@),
        ensures
            is_padded_from(self.gamma, r.gamma),
            is_padded_from(self.beta, r.beta),
            r.quant_info == self.quant_info,
    {
        let gamma = self.gamma.tensor.pad_next_power_of_two(0);
        let beta = self.beta.tensor.pad_next_power_of_two(0);
        LayerNorm {
            gamma: KeyedTensor { key: self.gamma.key, tensor: gamma },
            beta: KeyedTensor { key: self.beta.key, tensor: beta },
            quant_info: self.quant_info,
        }
    }
}

} // verus!
