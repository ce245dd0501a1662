//! Rows brought to mean zero and divided by their deviation.
use vstd::prelude::*;
use vstd::arithmetic::div_mod::*;
use vstd::arithmetic::power2::{lemma_pow2_adds, lemma_pow2_pos, pow2};
use crate::batching::{all_pow2, lemma_numel_pow2};
use crate::claim::{part, Claim};
use crate::congruence::{lemma_mle_cong, lemma_stands_cong};
use crate::error::Error;
use crate::field::{residues, stands_for, Lifted, PrimeField};
use crate::logits::witness::{element_ints, to_field};
use crate::lookup::Table;
use crate::mle::{beta, lemma_mle_grid, mle, mle_evaluate};
use crate::normalisation::rmsnorm::{longest, longest_padded, tokens_of, ChunkingInfo, LookupVariant};
use crate::normalisation::{align, aligned, can_align, can_rescale, can_scale_columns, column_count, domain_of, is_affine_rows, is_normalised, normalisation_domain, normalise_rows, padded_columns, rounding_for, rounding_of, row_count, scale_columns, shifts_of, to_columns, NormalisationCache, RowScale, Scaling};
use crate::shape::{ceil_log2, copy_shapes, lemma_num_vars_skip, lemma_num_vars_split, lemma_numel_matrix, log2_ceil, next_pow2, num_vars, numel, padded, same_shapes, Shape};
use crate::sum::{lemma_sum_same, lemma_sum_scale, lemma_sum_split, lemma_sum_zero, sum};
use crate::tensor::{can_pad, copied, resized, Element, KeyedTensor, Tensor};
use crate::triangular::{eval_bounded, upto};

verus! {

/// A layer that normalises rows, with a factor and a bias for each column.
#[derive(Debug)]
pub struct LayerNorm<N> {
    pub gamma: KeyedTensor<N>,
    pub beta: KeyedTensor<N>,
    /// The unpadded size of a row.
    pub normalisation_dim_size: usize,
    pub mean_scaling_factor: Option<Scaling>,
    /// The quantised values of normalised rows.
    pub normalisation_scaling_factor: Option<Scaling>,
    pub cache: NormalisationCache,
}

/// What the verifier knows of the layer.
#[derive(Debug)]
pub struct LayerNormCtx {
    /// The unpadded size of a row.
    pub normalisation_dim_size: usize,
    pub gamma_key: String,
    pub beta_key: String,
    pub mean_scaling: Scaling,
    pub normalisation_scaling: Scaling,
}

/// How the normalisation of a layer is looked up.
#[derive(Clone, Copy, Debug, PartialEq, Eq, Structural)]
pub struct LayerNormLookupVerifier {
    pub right_shift: Element,
    pub normalisation_sumsq: Element,
    pub magnitude_error_bound: Element,
    pub normalisation_sum: Element,
    pub sum_error_bound: Element,
    pub intermediate_bit_size: usize,
}

/// The means and multipliers of the rows and how the normalisation is looked up, to be
/// proved.
#[derive(Debug)]
pub struct LayerNormProvingData {
    pub mean: Tensor<Element>,
    pub std_dev: Tensor<Element>,
    pub lookup_verifier: LayerNormLookupVerifier,
}

/// The data to be proved, under the names by which it is stored.
#[derive(Debug)]
pub struct LayerNormHandle {
    pub mean: KeyedTensor<Element>,
    pub std_dev: KeyedTensor<Element>,
    pub lookup_verifier: LayerNormLookupVerifier,
}

/// The proof of the layer. The lookup, the commitments and the sumcheck are carried as
/// they come.
#[derive(Debug)]
pub struct LayerNormProof<F, L, C, P> {
    pub logup_proof: L,
    pub right_shift: usize,
    pub commitments: C,
    /// The sumcheck that links the claims to the input.
    pub io_proof: P,
    pub io_evaluations: Vec<F>,
    pub mean_evals: Vec<F>,
    pub gamma_eval: F,
    pub beta_eval: F,
}

impl LayerNormLookupVerifier {
    /// How the normalisation is looked up, for the values that a scale gives. Rows sum to
    /// zero, up to one for each value of a row.
    pub fn new(
        ctx: &LayerNormCtx,
        right_shift: usize,
        normalisation_sumsq: Element,
        magnitude_error_bound: Element,
    ) -> (r: Self)
        requires
            ctx.mean_scaling.bit_size < usize::MAX,
            right_shift <= Element::MAX,
            ctx.normalisation_dim_size <= Element::MAX,
        ensures
            r.right_shift == right_shift,
            r.normalisation_sumsq == normalisation_sumsq,
            r.magnitude_error_bound == magnitude_error_bound,
            r.normalisation_sum == 0,
            r.sum_error_bound == ctx.normalisation_dim_size,
            r.intermediate_bit_size == ctx.mean_scaling.bit_size + 1,
    {
        Self::new_from_parts(
            right_shift as Element,
            normalisation_sumsq,
            magnitude_error_bound,
            ctx.normalisation_dim_size as Element,
            ctx.mean_scaling.bit_size + 1,
        )
    }

    pub fn new_from_parts(
        right_shift: Element,
        normalisation_sumsq: Element,
        magnitude_error_bound: Element,
        sum_error_bound: Element,
        intermediate_bit_size: usize,
    ) -> (r: Self)
        ensures
            r.right_shift == right_shift,
            r.normalisation_sumsq == normalisation_sumsq,
            r.magnitude_error_bound == magnitude_error_bound,
            r.normalisation_sum == 0,
            r.sum_error_bound == sum_error_bound,
            r.intermediate_bit_size == intermediate_bit_size,
    {
        LayerNormLookupVerifier {
            right_shift,
            normalisation_sumsq,
            magnitude_error_bound,
            normalisation_sum: 0,
            sum_error_bound,
            intermediate_bit_size,
        }
    }

    /// The shift, whatever its sign.
    pub fn right_shift(&self) -> (r: usize)
        requires
            self.right_shift > Element::MIN,
            self.right_shift <= usize::MAX,
            -self.right_shift <= usize::MAX,
        ensures
            r == if self.right_shift < 0 {
                -self.right_shift
            } else {
                self.right_shift as int
            },
    {
        if self.right_shift < 0 {
            (-self.right_shift) as usize
        } else {
            self.right_shift as usize
        }
    }

    /// What the check of the normalisation compares with: the squares of a row and its
    /// sum.
    pub fn variant(&self) -> (r: LookupVariant)
        ensures
            r.normalised_magnitude_value == self.normalisation_sumsq,
            r.magnitude_error_bound == self.magnitude_error_bound,
            r.normalised_sum_value == Some((self.normalisation_sum, self.sum_error_bound)),
            r.has_weight,
    {
        LookupVariant {
            normalised_magnitude_value: self.normalisation_sumsq,
            magnitude_error_bound: self.magnitude_error_bound,
            normalised_sum_value: Some((self.normalisation_sum, self.sum_error_bound)),
            has_weight: true,
        }
    }

    /// How values are cut into chunks, for multipliers of the given number of bits.
    pub fn chunking_info(&self, table: Table, fixed_point_scale: usize) -> (r: ChunkingInfo)
        requires
            self.right_shift > Element::MIN,
            self.right_shift <= usize::MAX,
            -self.right_shift <= usize::MAX,
            self.intermediate_bit_size + fixed_point_scale <= usize::MAX,
        ensures
            r.right_shift == if self.right_shift < 0 {
                -self.right_shift
            } else {
                self.right_shift as int
            },
            r.table == table,
            r.max_bit_size == self.intermediate_bit_size + fixed_point_scale,
            r.multiplier == 1,
    {
        ChunkingInfo {
            right_shift: self.right_shift(),
            table,
            max_bit_size: self.intermediate_bit_size + fixed_point_scale,
            multiplier: 1,
        }
    }
}

impl LayerNormProvingData {
    /// The data to be proved, for the values that a scale gives. Rows may be off their
    /// sum by one for each value.
    pub fn new(
        mean: Tensor<Element>,
        std_dev: Tensor<Element>,
        right_shift: usize,
        dim_size: usize,
        normalised_sumsq: Element,
        magnitude_error_bound: Element,
        intermediate_bit_size: usize,
    ) -> (r: Self)
        requires
            right_shift <= Element::MAX,
            dim_size <= Element::MAX,
        ensures
            r.mean == mean,
            r.std_dev == std_dev,
            r.lookup_verifier.right_shift == right_shift,
            r.lookup_verifier.normalisation_sumsq == normalised_sumsq,
            r.lookup_verifier.magnitude_error_bound == magnitude_error_bound,
            r.lookup_verifier.normalisation_sum == 0,
            r.lookup_verifier.sum_error_bound == dim_size,
            r.lookup_verifier.intermediate_bit_size == intermediate_bit_size,
    {
        LayerNormProvingData {
            mean,
            std_dev,
            lookup_verifier: LayerNormLookupVerifier::new_from_parts(
                right_shift as Element,
                normalised_sumsq,
                magnitude_error_bound,
                dim_size as Element,
                intermediate_bit_size,
            ),
        }
    }

    /// The normalised rows: each value is multiplied, less the mean of its row, rounded,
    /// shifted and clamped to the values of the table.
    pub fn apply(&self, input: &Tensor<Element>, domain: (Element, Element)) -> (r: Tensor<Element>)
        requires
            input.wf(),
            input.shape@.len() >= 1,
            self.std_dev.data@.len() == row_count(input.shape@),
            self.mean.data@.len() == row_count(input.shape@),
            1 <= self.lookup_verifier.right_shift <= 62,
            can_rescale(
                input.data@,
                input.shape@.last() as int,
                self.std_dev.data@,
                Some(self.mean.data@),
                rounding_of(self.lookup_verifier.right_shift as int),
            ),
        ensures
            is_normalised(
                *input,
                self.std_dev.data@,
                Some(self.mean.data@),
                rounding_of(self.lookup_verifier.right_shift as int),
                self.lookup_verifier.right_shift as nat,
                domain,
                r,
            ),
    {
        normalise_rows(
            input,
            &self.std_dev.data,
            Some(&self.mean.data),
            self.rounding_constant(),
            self.lookup_verifier.right_shift as usize,
            domain,
        )
    }

    /// The multipliers and the means of the rows, in columns of one token each row, padded
    /// with zeros.
    pub fn columns(&self, input_shape: &Shape) -> (r: (Vec<Vec<Element>>, Vec<Vec<Element>>))
        requires
            tokens_of(input_shape@) > 0,
            next_pow2(tokens_of(input_shape@) as nat) <= usize::MAX,
        ensures
            ({
                let n = tokens_of(input_shape@) as int;
                &&& r.0@.len() == column_count(self.std_dev.data@.len() as int, n)
                &&& forall|k: int|
                    0 <= k < r.0@.len() ==> (#[trigger] r.0@[k])@ == padded_columns(
                        self.std_dev.data@,
                        n,
                        k,
                    )
                &&& r.1@.len() == column_count(self.mean.data@.len() as int, n)
                &&& forall|k: int|
                    0 <= k < r.1@.len() ==> (#[trigger] r.1@[k])@ == padded_columns(
                        self.mean.data@,
                        n,
                        k,
                    )
            }),
    {
        let rank: usize = input_shape.rank();
        let n: usize = if rank >= 2 {
            input_shape.dims[rank - 2]
        } else {
            1
        };
        (to_columns(&self.std_dev.data, n), to_columns(&self.mean.data, n))
    }

    /// What is added before the shift.
    pub fn rounding_constant(&self) -> (r: Element)
        requires
            1 <= self.lookup_verifier.right_shift <= 62,
        ensures
            r == rounding_of(self.lookup_verifier.right_shift as int),
    {
        rounding_for(self.lookup_verifier.right_shift)
    }
}

impl LayerNormHandle {
    /// Stores the data under two names.
    pub fn new(mean_key: String, std_dev_key: String, data: LayerNormProvingData) -> (r: Self)
        ensures
            r.mean.key == mean_key,
            r.mean.tensor == data.mean,
            r.std_dev.key == std_dev_key,
            r.std_dev.tensor == data.std_dev,
            r.lookup_verifier == data.lookup_verifier,
    {
        LayerNormHandle {
            mean: KeyedTensor { key: mean_key, tensor: data.mean },
            std_dev: KeyedTensor { key: std_dev_key, tensor: data.std_dev },
            lookup_verifier: data.lookup_verifier,
        }
    }

    /// The data that was stored.
    pub fn to_proving_data(&self) -> (r: LayerNormProvingData)
        ensures
            r.mean.equals(&self.mean.tensor),
            r.std_dev.equals(&self.std_dev.tensor),
            r.lookup_verifier == self.lookup_verifier,
    {
        LayerNormProvingData {
            mean: self.mean.tensor.duplicate(),
            std_dev: self.std_dev.tensor.duplicate(),
            lookup_verifier: self.lookup_verifier,
        }
    }
}

impl<N> LayerNorm<N> {
    /// A layer that has not been quantised. Factors and biases of different shapes are
    /// refused, and so are those that are no vectors.
    pub fn new(gamma: KeyedTensor<N>, beta: KeyedTensor<N>) -> (r: Result<Self, Error>)
        ensures
            ({
                let ok = gamma.tensor.shape@ == beta.tensor.shape@ && gamma.tensor.shape@.len() == 1;
                match r {
                    Ok(l) => {
                        &&& ok
                        &&& l.gamma == gamma
                        &&& l.beta == beta
                        &&& l.normalisation_dim_size == gamma.tensor.shape@[0]
                        &&& l.mean_scaling_factor is None
                        &&& l.normalisation_scaling_factor is None
                        &&& l.cache == (NormalisationCache { max_shift: 0, initialized: false })
                    },
                    Err(e) => e == Error::InvalidShape && !ok,
                }
            }),
    {
        if !gamma.tensor.shape.same(&beta.tensor.shape) {
            return Err(Error::InvalidShape);
        }
        if gamma.tensor.shape.rank() != 1 {
            return Err(Error::InvalidShape);
        }
        let normalisation_dim_size: usize = gamma.tensor.shape.dims[0];
        Ok(
            LayerNorm {
                gamma,
                beta,
                normalisation_dim_size,
                mean_scaling_factor: None,
                normalisation_scaling_factor: None,
                cache: NormalisationCache::new(),
            },
        )
    }

    /// A layer made of factors and biases that were loaded, where they were found. Those
    /// that do not fit together are refused.
    pub fn from_json(gamma: Option<KeyedTensor<N>>, beta: Option<KeyedTensor<N>>) -> (r: Result<
        Self,
        Error,
    >)
        ensures
            match (gamma, beta) {
                (Some(g), Some(b)) => {
                    let ok = g.tensor.shape@ == b.tensor.shape@ && g.tensor.shape@.len() == 1;
                    match r {
                        Ok(l) => ok && l.gamma == g && l.beta == b && l.normalisation_dim_size
                            == g.tensor.shape@[0] && l.mean_scaling_factor is None
                            && l.normalisation_scaling_factor is None,
                        Err(e) => e == Error::InvalidShape && !ok,
                    }
                },
                _ => r matches Err(e) && e == Error::MissingTensor,
            },
    {
        match (gamma, beta) {
            (Some(g), Some(b)) => Self::new(g, b),
            _ => Err(Error::MissingTensor),
        }
    }

    /// A layer made of factors and biases that were loaded; each has to be a vector of
    /// the size of an embedding.
    pub fn from_gguf(
        gamma: Option<KeyedTensor<N>>,
        beta: Option<KeyedTensor<N>>,
        embedding_size: usize,
    ) -> (r: Result<Self, Error>)
        ensures
            match (gamma, beta) {
                (Some(g), Some(b)) => {
                    let ok = g.tensor.shape@ == seq![embedding_size] && b.tensor.shape@
                        == seq![embedding_size];
                    match r {
                        Ok(l) => ok && l.gamma == g && l.beta == b && l.normalisation_dim_size
                            == embedding_size && l.mean_scaling_factor is None
                            && l.normalisation_scaling_factor is None,
                        Err(e) => e == Error::InvalidShape && !ok,
                    }
                },
                _ => r matches Err(e) && e == Error::MissingTensor,
            },
    {
        match (gamma, beta) {
            (Some(g), Some(b)) => {
                if g.tensor.shape.rank() != 1 || g.tensor.shape.dims[0] != embedding_size {
                    assert(g.tensor.shape@ != seq![embedding_size]);
                    return Err(Error::InvalidShape);
                }
                if b.tensor.shape.rank() != 1 || b.tensor.shape.dims[0] != embedding_size {
                    assert(b.tensor.shape@ != seq![embedding_size]);
                    return Err(Error::InvalidShape);
                }
                assert(g.tensor.shape@ =~= seq![embedding_size]);
                assert(b.tensor.shape@ =~= seq![embedding_size]);
                Self::new(g, b)
            },
            _ => Err(Error::MissingTensor),
        }
    }

    /// A layer made of factors and biases that were loaded; each has to be a vector of
    /// the size of an embedding.
    pub fn from_safetensors(
        gamma: Option<KeyedTensor<N>>,
        beta: Option<KeyedTensor<N>>,
        embedding_size: usize,
    ) -> (r: Result<Self, Error>)
        ensures
            match (gamma, beta) {
                (Some(g), Some(b)) => {
                    let ok = g.tensor.shape@ == seq![embedding_size] && b.tensor.shape@
                        == seq![embedding_size];
                    match r {
                        Ok(l) => ok && l.gamma == g && l.beta == b && l.normalisation_dim_size
                            == embedding_size && l.mean_scaling_factor is None
                            && l.normalisation_scaling_factor is None,
                        Err(e) => e == Error::InvalidShape && !ok,
                    }
                },
                _ => r matches Err(e) && e == Error::MissingTensor,
            },
    {
        Self::from_gguf(gamma, beta, embedding_size)
    }

    /// The size of a row.
    pub fn normalisation_dim_size(&self) -> (r: usize)
        ensures
            r == self.normalisation_dim_size,
    {
        self.normalisation_dim_size
    }

    /// The scalings of the means and of the normalised rows, where both are set.
    pub fn get_quantisation_scaling_factors(&self) -> (r: Option<(Scaling, Scaling)>)
        ensures
            match (self.mean_scaling_factor, self.normalisation_scaling_factor) {
                (Some(a), Some(b)) => r == Some((a, b)),
                _ => r is None,
            },
    {
        match (self.mean_scaling_factor, self.normalisation_scaling_factor) {
            (Some(a), Some(b)) => Some((a, b)),
            _ => None,
        }
    }

    /// Forgets the shifts that were seen.
    pub fn reset_cache(&mut self)
        ensures
            final(self).cache == (NormalisationCache { max_shift: 0, initialized: false }),
            final(self).gamma == old(self).gamma,
            final(self).beta == old(self).beta,
            final(self).normalisation_dim_size == old(self).normalisation_dim_size,
            final(self).mean_scaling_factor == old(self).mean_scaling_factor,
            final(self).normalisation_scaling_factor == old(self).normalisation_scaling_factor,
    {
        self.cache.reset();
    }

    /// The shapes of the outputs are those of the inputs.
    pub fn output_shapes(&self, input_shapes: &Vec<Shape>) -> (r: Vec<Shape>)
        ensures
            same_shapes(r@, input_shapes@),
    {
        copy_shapes(input_shapes)
    }

    /// The quantised layer, for its quantised factors and biases.
    pub fn quantise(
        self,
        quantised_gamma: KeyedTensor<Element>,
        quantised_beta: KeyedTensor<Element>,
        input_scaling: Scaling,
        normalisation_scaling: Scaling,
    ) -> (r: LayerNorm<Element>)
        ensures
            r.gamma == quantised_gamma,
            r.beta == quantised_beta,
            r.normalisation_dim_size == self.normalisation_dim_size,
            r.mean_scaling_factor == Some(input_scaling),
            r.normalisation_scaling_factor == Some(normalisation_scaling),
            r.cache == (NormalisationCache { max_shift: 0, initialized: false }),
    {
        LayerNorm {
            gamma: quantised_gamma,
            beta: quantised_beta,
            normalisation_dim_size: self.normalisation_dim_size,
            mean_scaling_factor: Some(input_scaling),
            normalisation_scaling_factor: Some(normalisation_scaling),
            cache: NormalisationCache::new(),
        }
    }

    /// The layer, which has seen no shift.
    pub fn pad_node(self) -> (r: Self)
        ensures
            r.gamma == self.gamma,
            r.beta == self.beta,
            r.normalisation_dim_size == self.normalisation_dim_size,
            r.mean_scaling_factor == self.mean_scaling_factor,
            r.normalisation_scaling_factor == self.normalisation_scaling_factor,
            r.cache == (NormalisationCache { max_shift: 0, initialized: false }),
    {
        LayerNorm {
            gamma: self.gamma,
            beta: self.beta,
            normalisation_dim_size: self.normalisation_dim_size,
            mean_scaling_factor: self.mean_scaling_factor,
            normalisation_scaling_factor: self.normalisation_scaling_factor,
            cache: NormalisationCache::new(),
        }
    }
}

/// The number of bits of the biases and of the values before they are requantised, for
/// the number of bits of the factors and of the normalised rows.
pub fn beta_bit_sizes(gamma_bits: usize, normalisation_bits: usize) -> (r: (usize, usize))
    requires
        gamma_bits + normalisation_bits + 2 <= usize::MAX,
    ensures
        r.0 == gamma_bits + normalisation_bits + 1,
        r.1 == gamma_bits + normalisation_bits + 2,
{
    let bits: usize = gamma_bits + normalisation_bits + 1;
    (bits, bits + 1)
}

/// How the rows are rescaled: shifts come as negative exponents of two.
pub open spec fn turned(scales: Seq<RowScale>) -> Seq<RowScale> {
    Seq::new(
        scales.len(),
        |i: int|
            RowScale { multiplier: scales[i].multiplier, shift: (-scales[i].shift) as Element },
    )
}

/// The output of the layer on the unpadded input.
pub open spec fn layer_output(
    input: Tensor<Element>,
    mult: Seq<Element>,
    mean: Seq<Element>,
    rounding: int,
    shift: nat,
    domain: (Element, Element),
    gamma: Seq<Element>,
    beta_values: Seq<Element>,
    out: Tensor<Element>,
) -> bool {
    exists|t: Tensor<Element>| #[trigger]
        is_normalised(input, mult, Some(mean), rounding, shift, domain, t) && is_affine_rows(
            t,
            gamma,
            Some(beta_values),
            out,
        )
}

impl LayerNorm<Element> {
    /// The multipliers of the rows and the shift that they have in common, for what each
    /// row is multiplied by and shifted. Shifts come as negative exponents of two.
    pub fn multipliers(&mut self, scales: &Vec<RowScale>) -> (r: (Vec<Element>, Element))
        requires
            forall|i: int|
                0 <= i < scales@.len() ==> Element::MIN < (#[trigger] scales@[i]).shift
                    && scales@[i].shift < 0,
            can_align(
                turned(scales@),
                old(self).cache.after(shifts_of(turned(scales@))).max_shift,
            ),
        ensures
            final(self).cache == old(self).cache.after(shifts_of(turned(scales@))),
            r.1 == final(self).cache.max_shift,
            r.0@.len() == scales@.len(),
            forall|i: int|
                0 <= i < scales@.len() ==> #[trigger] r.0@[i] == aligned(turned(scales@), r.1)[i],
            final(self).gamma == old(self).gamma,
            final(self).beta == old(self).beta,
            final(self).normalisation_dim_size == old(self).normalisation_dim_size,
            final(self).mean_scaling_factor == old(self).mean_scaling_factor,
            final(self).normalisation_scaling_factor == old(self).normalisation_scaling_factor,
    {
        let ghost goal = turned(scales@);
        let mut rows: Vec<RowScale> = Vec::new();
        for i in 0..scales.len()
            invariant
                goal == turned(scales@),
                forall|i: int|
                    0 <= i < scales@.len() ==> Element::MIN < (#[trigger] scales@[i]).shift
                        && scales@[i].shift < 0,
                rows@ == goal.take(i as int),
        {
            let s = scales[i];
            assert(scales@[i as int] == s);
            rows.push(RowScale { multiplier: s.multiplier, shift: -s.shift });
            assert(goal.take(i + 1) =~= goal.take(i as int).push(goal[i as int]));
        }
        assert(goal.take(goal.len() as int) =~= goal);
        align(&mut self.cache, &rows)
    }

    /// Why an input is refused, if it is.
    pub open spec fn input_refusal(&self, inputs: Seq<Tensor<Element>>) -> Option<Error> {
        if inputs.len() != 1 {
            Some(Error::WrongNumberOfInputs)
        } else if self.mean_scaling_factor is None || self.normalisation_scaling_factor is None {
            Some(Error::NotQuantised)
        } else if !(1 <= inputs[0].unpadded_shape@.len() <= 4) {
            Some(Error::InvalidShape)
        } else {
            None
        }
    }

    /// The values that normalised rows are clamped to.
    pub open spec fn domain(&self) -> (Element, Element) {
        domain_of(self.normalisation_scaling_factor->Some_0.bit_size + 1)
    }

    /// The layer can take the input without overflow.
    pub open spec fn can_evaluate(
        &self,
        input: Tensor<Element>,
        mult: Seq<Element>,
        mean: Seq<Element>,
        max_shift: Element,
    ) -> bool {
        let d = input.unpadded_shape@;
        let w = d.last() as int;
        &&& mult.len() == row_count(d)
        &&& mean.len() == row_count(d)
        &&& 1 <= max_shift <= 62
        &&& self.gamma.tensor.wf()
        &&& self.beta.tensor.wf()
        &&& self.gamma.tensor.unpadded_data().len() == w
        &&& self.beta.tensor.unpadded_data().len() == w
        &&& can_rescale(input.unpadded_data(), w, mult, Some(mean), rounding_of(max_shift as int))
        &&& forall|x: Tensor<Element>, t: Tensor<Element>|
            x.shape@ == d && x.data@ == input.unpadded_data() && #[trigger] is_normalised(
                x,
                mult,
                Some(mean),
                rounding_of(max_shift as int),
                max_shift as nat,
                self.domain(),
                t,
            ) ==> can_scale_columns(
                t.data@,
                w,
                self.gamma.tensor.unpadded_data(),
                Some(self.beta.tensor.unpadded_data()),
            )
        &&& input.spec_is_padded() ==> can_pad(d)
    }

    /// The normalised input, with each column multiplied by its factor and its bias
    /// added, padded where the input is padded, and the data to be proved. The multipliers
    /// of the rows and their shift are those that `multipliers` gives; the means, what
    /// the squares of a row sum to and how far they may be off come from their scales. The
    /// values are clamped to one bit more than the scaling of normalised rows has.
    pub fn evaluate_quantised_internal(
        &self,
        inputs: &Vec<Tensor<Element>>,
        multipliers: Tensor<Element>,
        means: Tensor<Element>,
        max_shift: Element,
        normalised_sumsq: Element,
        magnitude_error_bound: Element,
    ) -> (r: Result<(Tensor<Element>, LayerNormProvingData), Error>)
        requires
            self.mean_scaling_factor matches Some(s) ==> s.bit_size < usize::MAX,
            self.normalisation_scaling_factor matches Some(s) ==> s.bit_size <= 62,
            self.normalisation_dim_size <= Element::MAX,
            self.input_refusal(inputs@) is None ==> inputs@[0].wf() && self.can_evaluate(
                inputs@[0],
                multipliers.data@,
                means.data@,
                max_shift,
            ),
        ensures
            match r {
                Ok((out, data)) => {
                    &&& self.input_refusal(inputs@) is None
                    &&& data.mean == means
                    &&& data.std_dev == multipliers
                    &&& data.lookup_verifier.right_shift == max_shift
                    &&& data.lookup_verifier.normalisation_sumsq == normalised_sumsq
                    &&& data.lookup_verifier.magnitude_error_bound == magnitude_error_bound
                    &&& data.lookup_verifier.normalisation_sum == 0
                    &&& data.lookup_verifier.sum_error_bound == self.normalisation_dim_size
                    &&& data.lookup_verifier.intermediate_bit_size
                        == self.mean_scaling_factor->Some_0.bit_size + 1
                    &&& self.outputs(
                        inputs@[0],
                        multipliers.data@,
                        means.data@,
                        max_shift,
                        out,
                    )
                },
                Err(e) => self.input_refusal(inputs@) == Some(e),
            },
    {
        if inputs.len() != 1 {
            return Err(Error::WrongNumberOfInputs);
        }
        let (mean_scaling, normalisation_scaling) = match self.get_quantisation_scaling_factors() {
            Some(s) => s,
            None => {
                return Err(Error::NotQuantised);
            },
        };
        let rank: usize = inputs[0].unpadded_shape.rank();
        if rank < 1 || rank > 4 {
            return Err(Error::InvalidShape);
        }
        let input = inputs[0].reduce_to_unpadded_shape();
        let data = LayerNormProvingData::new(
            means,
            multipliers,
            max_shift as usize,
            self.normalisation_dim_size,
            normalised_sumsq,
            magnitude_error_bound,
            mean_scaling.bit_size + 1,
        );
        let gamma = self.gamma.tensor.reduce_to_unpadded_shape();
        let beta_tensor = self.beta.tensor.reduce_to_unpadded_shape();
        let domain = normalisation_domain(normalisation_scaling.bit_size + 1);
        let normalised = data.apply(&input, domain);
        assert(is_normalised(
            input,
            data.std_dev.data@,
            Some(data.mean.data@),
            rounding_of(max_shift as int),
            max_shift as nat,
            self.domain(),
            normalised,
        ));
        let out = scale_columns(&normalised, &gamma.data, Some(&beta_tensor.data));
        assert(layer_output(
            input,
            data.std_dev.data@,
            data.mean.data@,
            rounding_of(max_shift as int),
            max_shift as nat,
            self.domain(),
            gamma.data@,
            beta_tensor.data@,
            out,
        ));
        assert(self.plain_output(
            inputs@[0],
            data.std_dev.data@,
            data.mean.data@,
            max_shift,
            input,
            out,
        ));
        if inputs[0].is_padded() {
            Ok((out.pad_next_power_of_two(0), data))
        } else {
            Ok((out, data))
        }
    }

    /// The tensor `plain` is the output for the input without its padding, `x`.
    pub open spec fn plain_output(
        &self,
        input: Tensor<Element>,
        mult: Seq<Element>,
        mean: Seq<Element>,
        max_shift: Element,
        x: Tensor<Element>,
        plain: Tensor<Element>,
    ) -> bool {
        &&& x.shape@ == input.unpadded_shape@
        &&& x.data@ == input.unpadded_data()
        &&& layer_output(
            x,
            mult,
            mean,
            rounding_of(max_shift as int),
            max_shift as nat,
            self.domain(),
            self.gamma.tensor.unpadded_data(),
            self.beta.tensor.unpadded_data(),
            plain,
        )
    }

    /// The tensor `out` is the output for the input, padded where the input is padded.
    pub open spec fn outputs(
        &self,
        input: Tensor<Element>,
        mult: Seq<Element>,
        mean: Seq<Element>,
        max_shift: Element,
        out: Tensor<Element>,
    ) -> bool {
        let d = input.unpadded_shape@;
        exists|x: Tensor<Element>, plain: Tensor<Element>|
            {
                &&& #[trigger] self.plain_output(
                    input,
                    mult,
                    mean,
                    max_shift,
                    x,
                    plain,
                )
                &&& out.wf()
                &&& out.unpadded_shape@ == d
                &&& if input.spec_is_padded() {
                    &&& out.shape@ == padded(d)
                    &&& out.data@ == resized(plain.data@, d, padded(d), 0)
                } else {
                    &&& out.shape@ == d
                    &&& out.data@ == plain.data@
                }
            }
    }

    /// The context of the layer, the padded factors and biases to commit to, and the
    /// largest number of values of a polynomial. A layer that has not been quantised is
    /// refused.
    pub fn step_info(&self, last_output_shapes: &Vec<Shape>, max_poly_len: usize) -> (r: Result<
        (LayerNormCtx, Vec<(String, Vec<Element>)>, usize),
        Error,
    >)
        requires
            self.gamma.tensor.wf() && can_pad(self.gamma.tensor.shape@),
            self.beta.tensor.wf() && can_pad(self.beta.tensor.shape@),
            forall|i: int|
                0 <= i < last_output_shapes@.len() ==> can_pad(
                    (#[trigger] last_output_shapes@[i])@,
                ),
        ensures
            match r {
                Ok((ctx, polys, len)) => {
                    let (g, b) = (self.gamma.tensor, self.beta.tensor);
                    &&& self.mean_scaling_factor == Some(ctx.mean_scaling)
                    &&& self.normalisation_scaling_factor == Some(ctx.normalisation_scaling)
                    &&& ctx.normalisation_dim_size == self.normalisation_dim_size
                    &&& ctx.gamma_key@ == self.gamma.key@
                    &&& ctx.beta_key@ == self.beta.key@
                    &&& len == longest(last_output_shapes@, max_poly_len as nat)
                    &&& polys@.len() == 2
                    &&& polys@[0].0@ == self.gamma.key@
                    &&& polys@[0].1@ == resized(g.data@, g.shape@, padded(g.shape@), 0)
                    &&& polys@[1].0@ == self.beta.key@
                    &&& polys@[1].1@ == resized(b.data@, b.shape@, padded(b.shape@), 0)
                },
                Err(e) => {
                    &&& e == Error::NotQuantised
                    &&& self.mean_scaling_factor is None || self.normalisation_scaling_factor is None
                },
            },
    {
        let (mean_scaling, normalisation_scaling) = match self.get_quantisation_scaling_factors() {
            Some(s) => s,
            None => {
                return Err(Error::NotQuantised);
            },
        };
        let mut polys: Vec<(String, Vec<Element>)> = Vec::new();
        polys.push((self.gamma.key.clone(), self.gamma.tensor.pad_next_power_of_two(0).data));
        polys.push((self.beta.key.clone(), self.beta.tensor.pad_next_power_of_two(0).data));
        let len = longest_padded(last_output_shapes, max_poly_len);
        let ctx = LayerNormCtx {
            normalisation_dim_size: self.normalisation_dim_size,
            gamma_key: self.gamma.key.clone(),
            beta_key: self.beta.key.clone(),
            mean_scaling,
            normalisation_scaling,
        };
        Ok((ctx, polys, len))
    }
}

/// What a bias that is added to each row contributes at a point, beside its own
/// extension: the factors of the places that are not padding, in all dimensions but the
/// last.
pub open spec fn row_factor(d: Seq<usize>, u: Seq<usize>, point: Seq<int>) -> int
    decreases d.len(),
{
    if d.len() <= 1 {
        1
    } else {
        let n = num_vars(d.skip(1)) as int;
        row_factor(d.skip(1), u.skip(1), point.take(n)) * upto(point.skip(n), u[0] - 1)
    }
}

/// The bias `b`, added to each row of zeros and padded.
pub open spec fn broadcast_bias(d: Seq<usize>, u: Seq<usize>, b: Seq<int>) -> Seq<int>
    decreases d.len(),
{
    if d.len() <= 1 {
        b
    } else {
        let n = numel(d.skip(1)) as int;
        let t = broadcast_bias(d.skip(1), u.skip(1), b);
        Seq::new(
            (d[0] * n) as nat,
            |p: int|
                if p / n < u[0] {
                    t[p % n]
                } else {
                    0
                },
        )
    }
}

/// A bias that is added to each row adds its own extension, times the factor of the
/// rows, to the extension of the output: that is what is taken off the claim.
pub proof fn law_row_bias(d: Seq<usize>, u: Seq<usize>, b: Seq<int>, point: Seq<int>)
    requires
        d.len() >= 1,
        u.len() == d.len(),
        all_pow2(d),
        forall|k: int| 0 <= k < d.len() ==> 0 < #[trigger] u[k] && u[k] <= d[k],
        b.len() == d.last(),
        point.len() == num_vars(d),
    ensures
        broadcast_bias(d, u, b).len() == numel(d),
        mle(broadcast_bias(d, u, b), point) == row_factor(d, u, point) * mle(
            b,
            point.take(log2_ceil(d.last() as nat) as int),
        ),
    decreases d.len(),
{
    lemma_numel_pow2(d);
    if d.len() == 1 {
        assert(d.drop_last().len() == 0);
        assert(num_vars(d.drop_last()) == 0);
        assert(point.take(log2_ceil(d.last() as nat) as int) =~= point);
        assert(numel(d) == numel(d.drop_last()) * d.last());
    } else {
        let e = d.skip(1);
        let v = u.skip(1);
        assert forall|k: int| 0 <= k < e.len() implies #[trigger] e[k] == pow2(
            log2_ceil(e[k] as nat),
        ) by {
            assert(d[k + 1] == e[k]);
        }
        assert forall|k: int| 0 <= k < e.len() implies 0 < #[trigger] v[k] && v[k] <= e[k] by {
            assert(u[k + 1] == v[k]);
        }
        lemma_numel_pow2(e);
        assert(d.skip(0) =~= d);
        lemma_num_vars_skip(d, 0);
        let nv = num_vars(e) as int;
        let low = point.take(nv);
        let high = point.skip(nv);
        assert(low + high =~= point);
        law_row_bias(e, v, b, low);
        let t = broadcast_bias(e, v, b);
        let all = broadcast_bias(d, u, b);
        let n = numel(e);
        let m = pow2(high.len());
        lemma_pow2_pos(num_vars(e));
        lemma_pow2_adds(num_vars(e), high.len());
        assert(d[0] == m);
        assert(d[0] * n == n * m) by (nonlinear_arith)
            requires
                d[0] == m,
        ;
        lemma_mle_grid(all, low, high);
        let c = mle(t, low);
        let f = |i: int| sum(n, |j: int| all[i * n + j] * beta(low, j)) * beta(high, i);
        let g = |i: int| beta(high, i);
        let bound = u[0] as int;
        assert forall|i: int| 0 <= i < m implies #[trigger] f(i) == if i < bound {
            c * g(i)
        } else {
            0
        } by {
            let h = |j: int| all[i * n + j] * beta(low, j);
            let k = |j: int| t[j] * beta(low, j);
            assert forall|j: int| 0 <= j < n implies #[trigger] h(j) == if i < bound {
                k(j)
            } else {
                0
            } by {
                let p = i * n + j;
                lemma_fundamental_div_mod_converse(p, n as int, i, j);
                assert(0 <= p < m * n) by (nonlinear_arith)
                    requires
                        p == i * n + j,
                        0 <= i < m,
                        0 <= j < n,
                ;
                assert(m * n == n * m) by (nonlinear_arith);
            }
            if i < bound {
                lemma_sum_same(n, h, k);
            } else {
                lemma_sum_zero(n, h);
            }
        }
        let rest = (m - bound) as nat;
        lemma_sum_split(bound as nat, rest, f);
        let tail = |i: int| f(bound as nat + i);
        lemma_sum_zero(rest, tail);
        lemma_sum_same(bound as nat, f, |i: int| c * g(i));
        lemma_sum_scale(bound as nat, c, g);
        lemma_sum_same(bound as nat, g, |i: int| beta(high, i));
        let lv = log2_ceil(d.last() as nat) as int;
        assert(e.last() == d.last());
        lemma_last_vars(e);
        assert(low.take(lv) =~= point.take(lv));
        let (x, y, z) = (
            row_factor(e, v, low),
            mle(b, point.take(lv)),
            upto(high, bound - 1),
        );
        assert((x * y) * z == (x * z) * y) by (nonlinear_arith);
        assert(row_factor(d, u, point) == x * z);
    }
}

/// The variables of the last dimension are among those of the shape.
proof fn lemma_last_vars(d: Seq<usize>)
    requires
        d.len() >= 1,
    ensures
        log2_ceil(d.last() as nat) <= num_vars(d),
{
}

/// What a bias that is added to each row contributes at a point, beside its own
/// extension.
pub fn eval_row_factor<F: PrimeField>(padded_shape: &Shape, unpadded_shape: &Shape, point: &[F]) -> (r: F)
    requires
        padded_shape@.len() >= 1,
        unpadded_shape@.len() == padded_shape@.len(),
        point@.len() == num_vars(padded_shape@),
        forall|k: int|
            0 <= k < padded_shape@.len() ==> 0 < #[trigger] unpadded_shape@[k] && unpadded_shape@[k]
                <= pow2(log2_ceil(padded_shape@[k] as nat)),
    ensures
        stands_for(r, row_factor(padded_shape@, unpadded_shape@, residues(point@))),
{
    let ghost d = padded_shape@;
    let ghost u = unpadded_shape@;
    let ghost p = residues(point@);
    let rank: usize = padded_shape.rank();
    let mut acc = Lifted::<F>::one();
    let mut k: usize = rank - 1;
    let mut used: usize = ceil_log2(padded_shape.dims[rank - 1]);
    proof {
        let e = d.skip(d.len() - 1);
        assert(d.skip(d.len() as int).len() == 0);
        lemma_num_vars_skip(d, d.len() - 1);
        assert(num_vars(d.skip(d.len() as int)) == 0);
    }
    while k > 0
        invariant
            k < rank,
            rank == d.len(),
            rank == u.len(),
            d == padded_shape@,
            u == unpadded_shape@,
            p == residues(point@),
            point@.len() == num_vars(d),
            forall|k: int|
                0 <= k < d.len() ==> 0 < #[trigger] u[k] && u[k] <= pow2(log2_ceil(d[k] as nat)),
            used == num_vars(d.skip(k as int)),
            acc@ == row_factor(d.skip(k as int), u.skip(k as int), p.take(used as int)),
        decreases k,
    {
        let vars = ceil_log2(padded_shape.dims[k - 1]);
        let ghost e = d.skip(k - 1);
        let ghost v = u.skip(k - 1);
        proof {
            lemma_num_vars_skip(d, k - 1);
            lemma_num_vars_split(d, k - 1);
            assert(e.skip(1) =~= d.skip(k as int));
            assert(v.skip(1) =~= u.skip(k as int));
            assert(point.len() <= usize::MAX);
        }
        let coords = part(point, used, used + vars);
        let ghost whole = p.take((used + vars) as int);
        proof {
            assert(residues(coords@) =~= whole.skip(used as int));
            assert(whole.take(used as int) =~= p.take(used as int));
            assert(v[0] == u[k - 1]);
            assert(u[k - 1] <= pow2(log2_ceil(d[k - 1] as nat)));
        }
        let bound = eval_bounded(coords.as_slice(), unpadded_shape.dims[k - 1]);
        acc = acc.times(Lifted::known(bound, Ghost(upto(whole.skip(used as int), v[0] - 1))));
        used = used + vars;
        k = k - 1;
    }
    proof {
        assert(d.skip(0) =~= d);
        assert(u.skip(0) =~= u);
        assert(p.take(p.len() as int) =~= p);
    }
    acc.get()
}

/// The claim without the bias, and the point of the claim on the bias.
pub open spec fn is_bias_free<F: PrimeField>(
    claim: Claim<F>,
    d: Seq<usize>,
    u: Seq<usize>,
    beta_eval: F,
    r: Claim<F>,
    beta_point: Seq<F>,
) -> bool {
    &&& r.point@ == claim.point@
    &&& stands_for(
        r.eval,
        claim.eval.residue() - beta_eval.residue() * row_factor(d, u, residues(claim.point@)),
    )
    &&& beta_point == claim.point@.take(log2_ceil(d.last() as nat) as int)
}

/// Takes the bias off a claim on the output. A claim at a point with another number of
/// coordinates than the shape has variables is refused.
fn take_bias_off<F: PrimeField>(
    claim: &Claim<F>,
    padded_shape: &Shape,
    unpadded_shape: &Shape,
    beta_eval: F,
) -> (r: Result<(Claim<F>, Vec<F>), Error>)
    requires
        padded_shape@.len() >= 1,
        unpadded_shape@.len() == padded_shape@.len(),
        forall|k: int|
            0 <= k < padded_shape@.len() ==> 0 < #[trigger] unpadded_shape@[k] && unpadded_shape@[k]
                <= pow2(log2_ceil(padded_shape@[k] as nat)),
    ensures
        match r {
            Ok((c, beta_point)) => {
                &&& claim.point@.len() == num_vars(padded_shape@)
                &&& is_bias_free(
                    *claim,
                    padded_shape@,
                    unpadded_shape@,
                    beta_eval,
                    c,
                    beta_point@,
                )
            },
            Err(e) => e == Error::WrongPointLength && claim.point@.len() != num_vars(padded_shape@),
        },
{
    match padded_shape.split_point(claim.point.as_slice()) {
        Ok(_) => {},
        Err(e) => {
            return Err(e);
        },
    }
    let factor = eval_row_factor(padded_shape, unpadded_shape, claim.point.as_slice());
    let ghost f = row_factor(padded_shape@, unpadded_shape@, residues(claim.point@));
    let bias = Lifted::of(beta_eval).times(Lifted::known(factor, Ghost(f)));
    let eval = Lifted::of(claim.eval).minus(bias).get();
    let vars = ceil_log2(padded_shape.dims[padded_shape.rank() - 1]);
    proof {
        lemma_last_vars(padded_shape@);
    }
    let beta_point = part(claim.point.as_slice(), 0, vars);
    assert(beta_point@ =~= claim.point@.take(vars as int));
    Ok((Claim::new(copied(&claim.point), eval), beta_point))
}

/// The claims on the factors and on the biases.
pub open spec fn is_weight_claims<F>(
    gamma_key: Seq<char>,
    beta_key: Seq<char>,
    gamma_point: Seq<F>,
    gamma_eval: F,
    beta_point: Seq<F>,
    beta_eval: F,
    r: Seq<(String, Claim<F>)>,
) -> bool {
    &&& r.len() == 2
    &&& r[0].0@ == gamma_key
    &&& r[0].1.point@ == gamma_point
    &&& r[0].1.eval == gamma_eval
    &&& r[1].0@ == beta_key
    &&& r[1].1.point@ == beta_point
    &&& r[1].1.eval == beta_eval
}

/// The claims on the factors and on the biases.
fn weight_claims<F>(
    gamma_key: &String,
    beta_key: &String,
    gamma_point: Vec<F>,
    gamma_eval: F,
    beta_point: Vec<F>,
    beta_eval: F,
) -> (r: Vec<(String, Claim<F>)>)
    ensures
        is_weight_claims(
            gamma_key@,
            beta_key@,
            gamma_point@,
            gamma_eval,
            beta_point@,
            beta_eval,
            r@,
        ),
{
    let mut r: Vec<(String, Claim<F>)> = Vec::new();
    r.push((gamma_key.clone(), Claim::new(gamma_point, gamma_eval)));
    r.push((beta_key.clone(), Claim::new(beta_point, beta_eval)));
    r
}

impl LayerNorm<Element> {
    /// The claim that the lookup is proved for: the claim on the output without the
    /// biases. With it come the point and the value of the claim on the biases.
    pub fn prove_bias<F: PrimeField>(
        &self,
        last_claim: &Claim<F>,
        padded_shape: &Shape,
        unpadded_shape: &Shape,
    ) -> (r: Result<(Claim<F>, Vec<F>, F), Error>)
        requires
            self.beta.tensor.wf(),
            self.beta.tensor.shape@.len() == 1,
            can_pad(self.beta.tensor.shape@),
            padded_shape@.len() >= 1,
            unpadded_shape@.len() == padded_shape@.len(),
            next_pow2(self.beta.tensor.shape@[0] as nat) == pow2(
                log2_ceil(padded_shape@.last() as nat),
            ),
            forall|k: int|
                0 <= k < padded_shape@.len() ==> 0 < #[trigger] unpadded_shape@[k]
                    && unpadded_shape@[k] <= pow2(log2_ceil(padded_shape@[k] as nat)),
        ensures
            match r {
                Ok((c, beta_point, beta_eval)) => {
                    let b = self.beta.tensor;
                    let table = resized(b.data@, b.shape@, padded(b.shape@), 0);
                    &&& last_claim.point@.len() == num_vars(padded_shape@)
                    &&& stands_for(beta_eval, mle(element_ints(table), residues(beta_point@)))
                    &&& is_bias_free(
                        *last_claim,
                        padded_shape@,
                        unpadded_shape@,
                        beta_eval,
                        c,
                        beta_point@,
                    )
                },
                Err(e) => e == Error::WrongPointLength && last_claim.point@.len() != num_vars(
                    padded_shape@,
                ),
            },
    {
        match padded_shape.split_point(last_claim.point.as_slice()) {
            Ok(_) => {},
            Err(e) => {
                return Err(e);
            },
        }
        let vars = ceil_log2(padded_shape.dims[padded_shape.rank() - 1]);
        proof {
            lemma_last_vars(padded_shape@);
        }
        let low = part(last_claim.point.as_slice(), 0, vars);
        assert(low@ =~= last_claim.point@.take(vars as int));
        let beta_table = self.beta.tensor.pad_next_power_of_two(0);
        proof {
            let d = self.beta.tensor.shape@;
            assert(next_pow2(d[0] as nat) <= usize::MAX);
            assert(padded(d) =~= seq![padded(d)[0]]);
            lemma_numel_matrix(padded(d)[0], 1);
        }
        let values = to_field::<F>(&beta_table.data);
        let beta_eval = mle_evaluate(values.as_slice(), low.as_slice());
        proof {
            beta_eval.residue_bounds();
            let v = element_ints(beta_table.data@);
            lemma_mle_cong(values@, v, residues(low@), F::modulus());
            lemma_stands_cong(beta_eval, mle(residues(values@), residues(low@)), mle(v, residues(low@)));
        }
        match take_bias_off(last_claim, padded_shape, unpadded_shape, beta_eval) {
            Ok((c, beta_point)) => Ok((c, beta_point, beta_eval)),
            Err(e) => Err(e),
        }
    }

    /// The proof and the claims on the factors and biases, once the lookup has been
    /// proved. What it left has to have an evaluation of the factors, evaluations of the
    /// means and a point for the factors.
    pub fn finish_proof<F: PrimeField, L, C, P>(
        &self,
        logup_proof: L,
        commitments: C,
        io_proof: P,
        io_evaluations: Vec<F>,
        right_shift: usize,
        weight_evaluation: Option<F>,
        shift_evaluations: Option<Vec<F>>,
        weight_point: Option<Vec<F>>,
        beta_point: Vec<F>,
        beta_eval: F,
    ) -> (r: Result<(LayerNormProof<F, L, C, P>, Vec<(String, Claim<F>)>), Error>)
        ensures
            match (weight_evaluation, shift_evaluations, weight_point) {
                (Some(g), Some(m), Some(p)) => r matches Ok((proof, claims)) && {
                    &&& proof.logup_proof == logup_proof
                    &&& proof.right_shift == right_shift
                    &&& proof.commitments == commitments
                    &&& proof.io_proof == io_proof
                    &&& proof.io_evaluations == io_evaluations
                    &&& proof.mean_evals == m
                    &&& proof.gamma_eval == g
                    &&& proof.beta_eval == beta_eval
                    &&& is_weight_claims(
                        self.gamma.key@,
                        self.beta.key@,
                        p@,
                        g,
                        beta_point@,
                        beta_eval,
                        claims@,
                    )
                },
                _ => r matches Err(e) && e == Error::UnexpectedProof,
            },
    {
        match (weight_evaluation, shift_evaluations, weight_point) {
            (Some(gamma_eval), Some(mean_evals), Some(gamma_point)) => {
                let claims = weight_claims(
                    &self.gamma.key,
                    &self.beta.key,
                    gamma_point,
                    gamma_eval,
                    beta_point,
                    beta_eval,
                );
                let proof = LayerNormProof {
                    logup_proof,
                    right_shift,
                    commitments,
                    io_proof,
                    io_evaluations,
                    mean_evals,
                    gamma_eval,
                    beta_eval,
                };
                Ok((proof, claims))
            },
            _ => Err(Error::UnexpectedProof),
        }
    }
}

impl LayerNormCtx {
    /// The tables that the layer looks up.
    pub fn lookup_tables(&self) -> (r: Vec<Table>)
        requires
            self.normalisation_scaling.bit_size < usize::MAX,
        ensures
            r@ == seq![
                Table::ShiftCheck,
                Table::Normalisation((self.normalisation_scaling.bit_size + 1) as usize),
                Table::SignedZeroCheck,
            ],
    {
        let mut r: Vec<Table> = Vec::new();
        r.push(Table::new_shift_check());
        r.push(Table::new_normalisation(self.normalisation_scaling.bit_size + 1));
        r.push(Table::new_signed_zero_check());
        r
    }

    /// The claim that the lookup is verified for: the claim on the output without the
    /// biases, at the evaluation that the proof gives for them.
    pub fn verify_bias<F: PrimeField, L, C, P>(
        &self,
        proof: &LayerNormProof<F, L, C, P>,
        last_claim: &Claim<F>,
        padded_shape: &Shape,
        unpadded_shape: &Shape,
    ) -> (r: Result<(Claim<F>, Vec<F>), Error>)
        requires
            padded_shape@.len() >= 1,
            unpadded_shape@.len() == padded_shape@.len(),
            forall|k: int|
                0 <= k < padded_shape@.len() ==> 0 < #[trigger] unpadded_shape@[k]
                    && unpadded_shape@[k] <= pow2(log2_ceil(padded_shape@[k] as nat)),
        ensures
            match r {
                Ok((c, beta_point)) => {
                    &&& last_claim.point@.len() == num_vars(padded_shape@)
                    &&& is_bias_free(
                        *last_claim,
                        padded_shape@,
                        unpadded_shape@,
                        proof.beta_eval,
                        c,
                        beta_point@,
                    )
                },
                Err(e) => e == Error::WrongPointLength && last_claim.point@.len() != num_vars(
                    padded_shape@,
                ),
            },
    {
        take_bias_off(last_claim, padded_shape, unpadded_shape, proof.beta_eval)
    }

    /// The claims on the factors and biases that the lookup leaves. One that leaves no
    /// point for the factors is refused.
    pub fn verify_weights<F: PrimeField, L, C, P>(
        &self,
        proof: &LayerNormProof<F, L, C, P>,
        weight_point: Option<Vec<F>>,
        beta_point: Vec<F>,
    ) -> (r: Result<Vec<(String, Claim<F>)>, Error>)
        ensures
            match weight_point {
                Some(p) => r matches Ok(claims) && is_weight_claims(
                    self.gamma_key@,
                    self.beta_key@,
                    p@,
                    proof.gamma_eval,
                    beta_point@,
                    proof.beta_eval,
                    claims@,
                ),
                None => r matches Err(e) && e == Error::UnexpectedProof,
            },
    {
        match weight_point {
            Some(p) => Ok(
                weight_claims(
                    &self.gamma_key,
                    &self.beta_key,
                    p,
                    proof.gamma_eval,
                    beta_point,
                    proof.beta_eval,
                ),
            ),
            None => Err(Error::UnexpectedProof),
        }
    }
}

} // verus!
