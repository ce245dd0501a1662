//! Rows divided by the root of the mean of their squares.
use vstd::prelude::*;
use crate::claim::Claim;
use crate::error::Error;
use crate::lookup::Table;
use crate::normalisation::{align, aligned, can_align, can_rescale, can_scale_columns, column_count, domain_of, is_affine_rows, is_normalised, normalisation_domain, normalise_rows, padded_columns, rounding_for, rounding_of, row_count, scale_columns, shifts_of, to_columns, NormalisationCache, RowScale, Scaling};
use crate::shape::{copy_shapes, next_pow2, numel, padded, same_shapes, Shape};
use crate::tensor::{can_pad, count_values, resized, Element, KeyedTensor, Tensor};

verus! {

/// A layer that normalises rows, with a factor for each column where there are any.
#[derive(Debug)]
pub struct RMSNorm<N> {
    /// The factors of the columns. There are none where all would be one.
    pub alpha: Option<KeyedTensor<N>>,
    /// The unpadded size of a row.
    pub normalisation_dim_size: usize,
    pub input_scaling_factor: Option<Scaling>,
    /// The quantised values of normalised rows.
    pub normalisation_scaling_factor: Option<Scaling>,
    pub cache: NormalisationCache,
}

/// What the verifier knows of the layer.
#[derive(Debug)]
pub struct RMSNormCtx {
    pub node_id: usize,
    /// The unpadded size of a row.
    pub normalisation_dim_size: usize,
    pub alpha_key: Option<String>,
    pub input_scaling: Scaling,
    pub normalisation_scaling: Scaling,
}

/// What a check of a normalisation compares with.
#[derive(Debug)]
pub struct LookupVariant {
    /// What the squares of a row sum to.
    pub normalised_magnitude_value: Element,
    pub magnitude_error_bound: Element,
    /// What a row sums to and how far it may be off, where that is checked.
    pub normalised_sum_value: Option<(Element, Element)>,
    pub has_weight: bool,
}

/// How values are cut into chunks to be looked up.
#[derive(Clone, Copy, Debug, PartialEq, Eq, Structural)]
pub struct ChunkingInfo {
    pub right_shift: usize,
    pub table: Table,
    pub max_bit_size: usize,
    pub multiplier: usize,
}

/// How the normalisation of a layer is looked up.
#[derive(Clone, Copy, Debug, PartialEq, Eq, Structural)]
pub struct RMSNormLookupVerifier {
    pub right_shift: Element,
    pub normalisation_sum_sq: Element,
    pub error_bound: Element,
    pub intermediate_bit_size: usize,
    pub has_weight: bool,
}

/// The multipliers of the rows and how the normalisation is looked up, to be proved.
#[derive(Debug)]
pub struct RMSNormProvingData {
    pub normalisation: Tensor<Element>,
    pub lookup_verifier: RMSNormLookupVerifier,
}

/// The data to be proved, under the name by which it is stored.
#[derive(Debug)]
pub struct RMSNormHandle {
    pub normalisation: KeyedTensor<Element>,
    pub lookup_verifier: RMSNormLookupVerifier,
}

/// The proof of the layer. The lookup, the commitment and the sumcheck are carried as
/// they come.
#[derive(Debug)]
pub struct RMSNormProof<F, L, C, P> {
    pub logup_proof: L,
    pub right_shift: Element,
    pub commitment: C,
    /// The sumcheck that links the claims to the input.
    pub io_proof: P,
    pub io_evaluations: Vec<F>,
    /// The evaluation of the factors of the columns, where there are any.
    pub alpha_evaluation: Option<F>,
}

impl RMSNormLookupVerifier {
    /// How the normalisation is looked up, for the values that a scale gives.
    pub fn new(ctx: &RMSNormCtx, right_shift: Element, normalisation_sum_sq: Element, error_bound: Element) -> (r:
        Self)
        requires
            ctx.input_scaling.bit_size < usize::MAX,
        ensures
            r.right_shift == right_shift,
            r.normalisation_sum_sq == normalisation_sum_sq,
            r.error_bound == error_bound,
            r.intermediate_bit_size == ctx.input_scaling.bit_size + 1,
            r.has_weight == ctx.alpha_key is Some,
    {
        RMSNormLookupVerifier {
            right_shift,
            normalisation_sum_sq,
            error_bound,
            intermediate_bit_size: ctx.input_scaling.bit_size + 1,
            has_weight: ctx.alpha_key.is_some(),
        }
    }

    pub fn new_from_parts(
        right_shift: Element,
        normalisation_sum_sq: Element,
        error_bound: Element,
        intermediate_bit_size: usize,
        has_weight: bool,
    ) -> (r: Self)
        ensures
            r.right_shift == right_shift,
            r.normalisation_sum_sq == normalisation_sum_sq,
            r.error_bound == error_bound,
            r.intermediate_bit_size == intermediate_bit_size,
            r.has_weight == has_weight,
    {
        RMSNormLookupVerifier {
            right_shift,
            normalisation_sum_sq,
            error_bound,
            intermediate_bit_size,
            has_weight,
        }
    }

    /// The shift, whatever its sign.
    pub fn right_shift(&self) -> (r: usize)
        requires
            self.right_shift > Element::MIN,
            self.right_shift <= usize::MAX,
            -self.right_shift <= usize::MAX,
        ensures
            r == if self.right_shift < 0 {
                -self.right_shift
            } else {
                self.right_shift as int
            },
    {
        if self.right_shift < 0 {
            (-self.right_shift) as usize
        } else {
            self.right_shift as usize
        }
    }

    /// What the check of the normalisation compares with: the squares of a row.
    pub fn variant(&self) -> (r: LookupVariant)
        ensures
            r.normalised_magnitude_value == self.normalisation_sum_sq,
            r.magnitude_error_bound == self.error_bound,
            r.normalised_sum_value is None,
            r.has_weight == self.has_weight,
    {
        LookupVariant {
            normalised_magnitude_value: self.normalisation_sum_sq,
            magnitude_error_bound: self.error_bound,
            normalised_sum_value: None,
            has_weight: self.has_weight,
        }
    }

    /// How values are cut into chunks, for multipliers of the given number of bits.
    pub fn chunking_info(&self, table: Table, fixed_point_scale: usize) -> (r: ChunkingInfo)
        requires
            self.right_shift > Element::MIN,
            self.right_shift <= usize::MAX,
            -self.right_shift <= usize::MAX,
            self.intermediate_bit_size + fixed_point_scale <= usize::MAX,
        ensures
            r.right_shift == if self.right_shift < 0 {
                -self.right_shift
            } else {
                self.right_shift as int
            },
            r.table == table,
            r.max_bit_size == self.intermediate_bit_size + fixed_point_scale,
            r.multiplier == 1,
    {
        ChunkingInfo {
            right_shift: self.right_shift(),
            table,
            max_bit_size: self.intermediate_bit_size + fixed_point_scale,
            multiplier: 1,
        }
    }
}

impl RMSNormProvingData {
    pub fn new(
        normalisation: Tensor<Element>,
        right_shift: usize,
        normalised_sumsq: Element,
        error_bound: Element,
        intermediate_bit_size: usize,
        has_weight: bool,
    ) -> (r: Self)
        requires
            right_shift <= Element::MAX,
        ensures
            r.normalisation == normalisation,
            r.lookup_verifier.right_shift == right_shift,
            r.lookup_verifier.normalisation_sum_sq == normalised_sumsq,
            r.lookup_verifier.error_bound == error_bound,
            r.lookup_verifier.intermediate_bit_size == intermediate_bit_size,
            r.lookup_verifier.has_weight == has_weight,
    {
        RMSNormProvingData {
            normalisation,
            lookup_verifier: RMSNormLookupVerifier::new_from_parts(
                right_shift as Element,
                normalised_sumsq,
                error_bound,
                intermediate_bit_size,
                has_weight,
            ),
        }
    }

    /// The normalised rows: each value is multiplied, rounded, shifted and clamped to
    /// the values of the table.
    pub fn apply(&self, input: &Tensor<Element>, domain: (Element, Element)) -> (r: Tensor<Element>)
        requires
            input.wf(),
            input.shape@.len() >= 1,
            self.normalisation.data@.len() == row_count(input.shape@),
            1 <= self.lookup_verifier.right_shift <= 62,
            can_rescale(
                input.data@,
                input.shape@.last() as int,
                self.normalisation.data@,
                None,
                rounding_of(self.lookup_verifier.right_shift as int),
            ),
        ensures
            is_normalised(
                *input,
                self.normalisation.data@,
                None,
                rounding_of(self.lookup_verifier.right_shift as int),
                self.lookup_verifier.right_shift as nat,
                domain,
                r,
            ),
    {
        normalise_rows(
            input,
            &self.normalisation.data,
            None,
            self.rounding_constant(),
            self.lookup_verifier.right_shift as usize,
            domain,
        )
    }

    /// What is added before the shift.
    pub fn rounding_constant(&self) -> (r: Element)
        requires
            1 <= self.lookup_verifier.right_shift <= 62,
        ensures
            r == rounding_of(self.lookup_verifier.right_shift as int),
    {
        rounding_for(self.lookup_verifier.right_shift)
    }
}

impl RMSNormHandle {
    /// Stores the data under a name.
    pub fn new(key: String, data: RMSNormProvingData) -> (r: Self)
        ensures
            r.normalisation.key == key,
            r.normalisation.tensor == data.normalisation,
            r.lookup_verifier == data.lookup_verifier,
    {
        RMSNormHandle {
            normalisation: KeyedTensor { key, tensor: data.normalisation },
            lookup_verifier: data.lookup_verifier,
        }
    }

    /// The data that was stored.
    pub fn to_proving_data(&self) -> (r: RMSNormProvingData)
        ensures
            r.normalisation.equals(&self.normalisation.tensor),
            r.lookup_verifier == self.lookup_verifier,
    {
        RMSNormProvingData {
            normalisation: self.normalisation.tensor.duplicate(),
            lookup_verifier: self.lookup_verifier,
        }
    }
}

impl RMSNormCtx {
    /// The tables that the layer looks up.
    pub fn lookup_tables(&self) -> (r: Vec<Table>)
        requires
            self.normalisation_scaling.bit_size < usize::MAX,
        ensures
            r@ == seq![
                Table::ShiftCheck,
                Table::Normalisation((self.normalisation_scaling.bit_size + 1) as usize),
                Table::SignedZeroCheck,
            ],
    {
        let mut r: Vec<Table> = Vec::new();
        r.push(Table::new_shift_check());
        r.push(Table::new_normalisation(self.normalisation_scaling.bit_size + 1));
        r.push(Table::new_signed_zero_check());
        r
    }

    pub fn normalisation_dim_size(&self) -> (r: usize)
        ensures
            r == self.normalisation_dim_size,
    {
        self.normalisation_dim_size
    }

    pub fn input_scaling(&self) -> (r: &Scaling)
        ensures
            *r == self.input_scaling,
    {
        &self.input_scaling
    }

    pub fn normalisation_scaling(&self) -> (r: &Scaling)
        ensures
            *r == self.normalisation_scaling,
    {
        &self.normalisation_scaling
    }

    pub fn alpha_key(&self) -> (r: Option<&String>)
        ensures
            match (r, self.alpha_key) {
                (Some(a), Some(b)) => *a == b,
                (None, None) => true,
                _ => false,
            },
    {
        match &self.alpha_key {
            Some(k) => Some(k),
            None => None,
        }
    }

    /// The shapes of the outputs are those of the inputs.
    pub fn output_shapes(&self, input_shapes: &Vec<Shape>) -> (r: Vec<Shape>)
        ensures
            same_shapes(r@, input_shapes@),
    {
        copy_shapes(input_shapes)
    }

    /// The claim on the factors of the columns that the lookup leaves, where there are
    /// factors. A proof that has part of it is refused.
    pub fn verify_alpha<F: Copy>(&self, alpha_evaluation: Option<F>, point: Option<Vec<F>>) -> (r: Result<
        Option<(String, Claim<F>)>,
        Error,
    >)
        ensures
            is_alpha_claim(alpha_evaluation, point, self.alpha_key, r),
    {
        alpha_claim(alpha_evaluation, point, self.alpha_key())
    }
}

/// The claim on the factors of the columns: there is one where there are factors, with
/// an evaluation and a point, and none where there is nothing of the three.
pub open spec fn is_alpha_claim<F>(
    eval: Option<F>,
    point: Option<Vec<F>>,
    key: Option<String>,
    r: Result<Option<(String, Claim<F>)>, Error>,
) -> bool {
    match (eval, point, key) {
        (Some(e), Some(p), Some(k)) => r matches Ok(Some((name, claim))) && name@ == k@
            && claim.point@ == p@ && claim.eval == e,
        (None, None, None) => r matches Ok(None),
        _ => r matches Err(e) && e == Error::UnexpectedProof,
    }
}

/// The claim on the factors of the columns, where there are any.
fn alpha_claim<F: Copy>(eval: Option<F>, point: Option<Vec<F>>, key: Option<&String>) -> (r: Result<
    Option<(String, Claim<F>)>,
    Error,
>)
    ensures
        is_alpha_claim(
            eval,
            point,
            match key {
                Some(k) => Some(*k),
                None => None,
            },
            r,
        ),
{
    match (eval, point, key) {
        (Some(e), Some(p), Some(k)) => Ok(Some((k.clone(), Claim::new(p, e)))),
        (None, None, None) => Ok(None),
        _ => Err(Error::UnexpectedProof),
    }
}

/// The layer is made of loaded factors, which are left out where they are trivial.
pub open spec fn is_loaded<N>(
    alpha: Option<KeyedTensor<N>>,
    trivial: bool,
    r: Result<RMSNorm<N>, Error>,
) -> bool {
    match (alpha, r) {
        (Some(a), Ok(l)) => {
            let d = a.tensor.shape@;
            &&& l.alpha == if trivial {
                None
            } else {
                Some(a)
            }
            &&& l.normalisation_dim_size == if trivial {
                d.last()
            } else {
                d[0]
            }
            &&& l.input_scaling_factor is None
            &&& l.normalisation_scaling_factor is None
            &&& l.cache == (NormalisationCache { max_shift: 0, initialized: false })
        },
        (None, Err(e)) => e == Error::MissingTensor,
        _ => false,
    }
}

impl<N> RMSNorm<N> {
    /// A layer that has not been quantised. The size of a row is taken from the factors
    /// where it is not given; where there is neither, the layer is refused.
    pub fn new(alpha: Option<KeyedTensor<N>>, normalisation_dim_size: Option<usize>) -> (r: Result<
        Self,
        Error,
    >)
        requires
            normalisation_dim_size is None ==> (alpha matches Some(a) ==> a.tensor.shape@.len() >= 1),
        ensures
            match r {
                Ok(l) => {
                    &&& alpha is Some || normalisation_dim_size is Some
                    &&& l.alpha == alpha
                    &&& l.normalisation_dim_size == match normalisation_dim_size {
                        Some(n) => n,
                        None => alpha->Some_0.tensor.shape@[0],
                    }
                    &&& l.input_scaling_factor is None
                    &&& l.normalisation_scaling_factor is None
                    &&& l.cache == (NormalisationCache { max_shift: 0, initialized: false })
                },
                Err(e) => {
                    &&& e == Error::InvalidShape
                    &&& alpha is None
                    &&& normalisation_dim_size is None
                },
            },
    {
        let size: usize = match (&normalisation_dim_size, &alpha) {
            (Some(n), _) => *n,
            (None, Some(a)) => a.tensor.shape.dims[0],
            (None, None) => {
                return Err(Error::InvalidShape);
            },
        };
        Ok(
            RMSNorm {
                alpha,
                normalisation_dim_size: size,
                input_scaling_factor: None,
                normalisation_scaling_factor: None,
                cache: NormalisationCache::new(),
            },
        )
    }

    /// The layer for loaded factors, where they were found. Factors that are `trivial` are
    /// left out: all their values are one.
    pub fn from_json(alpha: Option<KeyedTensor<N>>, trivial: bool) -> (r: Result<Self, Error>)
        requires
            alpha matches Some(a) ==> a.tensor.shape@.len() >= 1,
        ensures
            is_loaded(alpha, trivial, r),
    {
        match alpha {
            Some(a) => if trivial {
                let size: usize = a.tensor.shape.dims[a.tensor.shape.rank() - 1];
                Self::new(None, Some(size))
            } else {
                Self::new(Some(a), None)
            },
            None => Err(Error::MissingTensor),
        }
    }

    /// The layer for loaded factors, where they were found. Factors that are `trivial` are
    /// left out: all their values are one or zero.
    pub fn from_gguf(alpha: Option<KeyedTensor<N>>, trivial: bool) -> (r: Result<Self, Error>)
        requires
            alpha matches Some(a) ==> a.tensor.shape@.len() >= 1,
        ensures
            is_loaded(alpha, trivial, r),
    {
        Self::from_json(alpha, trivial)
    }

    /// The layer for loaded factors, where they were found. Factors that are `trivial` are
    /// left out: all their values are one or zero.
    pub fn from_safetensors(alpha: Option<KeyedTensor<N>>, trivial: bool) -> (r: Result<Self, Error>)
        requires
            alpha matches Some(a) ==> a.tensor.shape@.len() >= 1,
        ensures
            is_loaded(alpha, trivial, r),
    {
        Self::from_json(alpha, trivial)
    }

    /// The size of a row.
    pub fn normalisation_dim_size(&self) -> (r: usize)
        ensures
            r == self.normalisation_dim_size,
    {
        self.normalisation_dim_size
    }

    /// The scalings of the input and of the normalised rows, where both are set.
    pub fn get_quantisation_scaling_factors(&self) -> (r: Option<(Scaling, Scaling)>)
        ensures
            match (self.input_scaling_factor, self.normalisation_scaling_factor) {
                (Some(a), Some(b)) => r == Some((a, b)),
                _ => r is None,
            },
    {
        match (self.input_scaling_factor, self.normalisation_scaling_factor) {
            (Some(a), Some(b)) => Some((a, b)),
            _ => None,
        }
    }

    /// Forgets the shifts that were seen.
    pub fn reset_cache(&mut self)
        ensures
            final(self).cache == (NormalisationCache { max_shift: 0, initialized: false }),
            final(self).alpha == old(self).alpha,
            final(self).normalisation_dim_size == old(self).normalisation_dim_size,
            final(self).input_scaling_factor == old(self).input_scaling_factor,
            final(self).normalisation_scaling_factor == old(self).normalisation_scaling_factor,
    {
        self.cache.reset();
    }

    /// The shapes of the outputs are those of the inputs.
    pub fn output_shapes(&self, input_shapes: &Vec<Shape>) -> (r: Vec<Shape>)
        ensures
            same_shapes(r@, input_shapes@),
    {
        copy_shapes(input_shapes)
    }

    /// The quantised layer, for its quantised factors and their number of bits. With it
    /// the number of bits that values have before they are requantised, where they are:
    /// without factors the normalised rows are the output.
    pub fn quantise(
        self,
        quantised_alpha: Option<(KeyedTensor<Element>, usize)>,
        input_scaling: Scaling,
        normalisation_scaling: Scaling,
        output_scaling: Scaling,
    ) -> (r: (RMSNorm<Element>, Option<usize>, Scaling))
        requires
            quantised_alpha matches Some((_, bits)) ==> normalisation_scaling.bit_size + bits
                < usize::MAX,
        ensures
            r.0.normalisation_dim_size == self.normalisation_dim_size,
            r.0.input_scaling_factor == Some(input_scaling),
            r.0.normalisation_scaling_factor == Some(normalisation_scaling),
            r.0.cache == (NormalisationCache { max_shift: 0, initialized: false }),
            match quantised_alpha {
                Some((a, bits)) => {
                    &&& r.0.alpha == Some(a)
                    &&& r.1 == Some((normalisation_scaling.bit_size + bits + 1) as usize)
                    &&& r.2 == output_scaling
                },
                None => r.0.alpha is None && r.1 is None && r.2 == normalisation_scaling,
            },
    {
        let (alpha, bits, scaling) = match quantised_alpha {
            Some((a, bits)) => (
                Some(a),
                Some(normalisation_scaling.bit_size + bits + 1),
                output_scaling,
            ),
            None => (None, None, normalisation_scaling),
        };
        let layer = RMSNorm {
            alpha,
            normalisation_dim_size: self.normalisation_dim_size,
            input_scaling_factor: Some(input_scaling),
            normalisation_scaling_factor: Some(normalisation_scaling),
            cache: NormalisationCache::new(),
        };
        (layer, bits, scaling)
    }

    /// The layer, which has seen no shift.
    pub fn pad_node(self) -> (r: Self)
        ensures
            r.alpha == self.alpha,
            r.normalisation_dim_size == self.normalisation_dim_size,
            r.input_scaling_factor == self.input_scaling_factor,
            r.normalisation_scaling_factor == self.normalisation_scaling_factor,
            r.cache == (NormalisationCache { max_shift: 0, initialized: false }),
    {
        RMSNorm {
            alpha: self.alpha,
            normalisation_dim_size: self.normalisation_dim_size,
            input_scaling_factor: self.input_scaling_factor,
            normalisation_scaling_factor: self.normalisation_scaling_factor,
            cache: NormalisationCache::new(),
        }
    }
}

/// How a row is rescaled whose squares sum to `sumsq`: as `scale` says, the shift
/// without its sign, or to zero where all its values are zero.
pub open spec fn row_scale(sumsq: Element, scale: RowScale, fixed_point_scale: int) -> RowScale {
    if sumsq != 0 {
        RowScale { multiplier: scale.multiplier, shift: (-scale.shift) as Element }
    } else {
        RowScale { multiplier: 0, shift: (fixed_point_scale + 1) as Element }
    }
}

/// How the rows are rescaled.
pub open spec fn row_scales(sums: Seq<Element>, scales: Seq<RowScale>, fixed_point_scale: int) -> Seq<
    RowScale,
> {
    Seq::new(sums.len(), |i: int| row_scale(sums[i], scales[i], fixed_point_scale))
}

impl RMSNorm<Element> {
    /// The multipliers of the rows and the shift that they have in common, for the sums
    /// of the squares of the rows and what each row is multiplied by and shifted. Shifts
    /// come as negative exponents of two.
    pub fn multipliers(
        &mut self,
        square_sums: &Vec<Element>,
        scales: &Vec<RowScale>,
        fixed_point_scale: usize,
    ) -> (r: (Vec<Element>, Element))
        requires
            square_sums@.len() == scales@.len(),
            fixed_point_scale < Element::MAX,
            forall|i: int|
                0 <= i < scales@.len() && #[trigger] square_sums@[i] != 0 ==> Element::MIN
                    < scales@[i].shift && scales@[i].shift < 0,
            can_align(
                row_scales(square_sums@, scales@, fixed_point_scale as int),
                old(self).cache.after(
                    shifts_of(row_scales(square_sums@, scales@, fixed_point_scale as int)),
                ).max_shift,
            ),
        ensures
            ({
                let rows = row_scales(square_sums@, scales@, fixed_point_scale as int);
                &&& final(self).cache == old(self).cache.after(shifts_of(rows))
                &&& r.1 == final(self).cache.max_shift
                &&& r.0@.len() == rows.len()
                &&& forall|i: int|
                    0 <= i < rows.len() ==> #[trigger] r.0@[i] == aligned(rows, r.1)[i]
            }),
            final(self).alpha == old(self).alpha,
            final(self).normalisation_dim_size == old(self).normalisation_dim_size,
            final(self).input_scaling_factor == old(self).input_scaling_factor,
            final(self).normalisation_scaling_factor == old(self).normalisation_scaling_factor,
    {
        let ghost goal = row_scales(square_sums@, scales@, fixed_point_scale as int);
        let mut rows: Vec<RowScale> = Vec::new();
        for i in 0..square_sums.len()
            invariant
                square_sums@.len() == scales@.len(),
                fixed_point_scale < Element::MAX,
                goal == row_scales(square_sums@, scales@, fixed_point_scale as int),
                forall|i: int|
                    0 <= i < scales@.len() && #[trigger] square_sums@[i] != 0 ==> Element::MIN
                        < scales@[i].shift && scales@[i].shift < 0,
                rows@ == goal.take(i as int),
        {
            let s = scales[i];
            let row = if square_sums[i] != 0 {
                RowScale { multiplier: s.multiplier, shift: -s.shift }
            } else {
                RowScale { multiplier: 0, shift: fixed_point_scale as Element + 1 }
            };
            rows.push(row);
            assert(goal.take(i + 1) =~= goal.take(i as int).push(goal[i as int]));
        }
        assert(goal.take(goal.len() as int) =~= goal);
        align(&mut self.cache, &rows)
    }

    /// Why an input is refused, if it is.
    pub open spec fn input_refusal(&self, inputs: Seq<Tensor<Element>>) -> Option<Error> {
        if inputs.len() != 1 {
            Some(Error::WrongNumberOfInputs)
        } else if self.input_scaling_factor is None || self.normalisation_scaling_factor is None {
            Some(Error::NotQuantised)
        } else if self.alpha is Some && !(1 <= inputs[0].shape@.len() <= 4) {
            Some(Error::InvalidShape)
        } else {
            None
        }
    }

    /// The values that normalised rows are clamped to.
    pub open spec fn domain(&self) -> (Element, Element) {
        domain_of(self.normalisation_scaling_factor->Some_0.bit_size + 1)
    }

    /// The normalised input, with each column multiplied by its factor where there are
    /// factors, and the data to be proved. The multipliers of the rows and their shift
    /// are those that `multipliers` gives; what the squares of a row sum to and how far
    /// they may be off come from their scales. The values are clamped to one bit more than
    /// the scaling of normalised rows has.
    pub fn evaluate_quantised_internal(
        &self,
        inputs: &Vec<Tensor<Element>>,
        multipliers: Tensor<Element>,
        max_shift: Element,
        normalised_sum_sq: Element,
        error_bound: Element,
    ) -> (r: Result<(Tensor<Element>, RMSNormProvingData), Error>)
        requires
            self.input_scaling_factor matches Some(s) ==> s.bit_size < usize::MAX,
            self.normalisation_scaling_factor matches Some(s) ==> s.bit_size <= 62,
            self.input_refusal(inputs@) is None ==> {
                let input = inputs@[0];
                let w = input.shape@.last() as int;
                &&& input.wf()
                &&& input.shape@.len() >= 1
                &&& multipliers.data@.len() == row_count(input.shape@)
                &&& 1 <= max_shift <= 62
                &&& can_rescale(input.data@, w, multipliers.data@, None, rounding_of(max_shift as int))
                &&& self.alpha matches Some(a) ==> a.tensor.data@.len() == w
                    && forall|t: Tensor<Element>| #[trigger]
                    is_normalised(
                        input,
                        multipliers.data@,
                        None,
                        rounding_of(max_shift as int),
                        max_shift as nat,
                        self.domain(),
                        t,
                    ) ==> can_scale_columns(t.data@, w, a.tensor.data@, None)
            },
        ensures
            match r {
                Ok((out, data)) => {
                    let input = inputs@[0];
                    &&& self.input_refusal(inputs@) is None
                    &&& data.normalisation == multipliers
                    &&& data.lookup_verifier.right_shift == max_shift
                    &&& data.lookup_verifier.normalisation_sum_sq == normalised_sum_sq
                    &&& data.lookup_verifier.error_bound == error_bound
                    &&& data.lookup_verifier.intermediate_bit_size
                        == self.input_scaling_factor->Some_0.bit_size + 1
                    &&& data.lookup_verifier.has_weight == self.alpha is Some
                    &&& rms_output(
                        input,
                        multipliers.data@,
                        rounding_of(max_shift as int),
                        max_shift as nat,
                        self.domain(),
                        self.alpha,
                        out,
                    )
                },
                Err(e) => self.input_refusal(inputs@) == Some(e),
            },
    {
        if inputs.len() != 1 {
            return Err(Error::WrongNumberOfInputs);
        }
        let input = &inputs[0];
        let (input_scaling, normalisation_scaling) = match self.get_quantisation_scaling_factors() {
            Some(s) => s,
            None => {
                return Err(Error::NotQuantised);
            },
        };
        let rank: usize = input.shape.rank();
        if self.alpha.is_some() && (rank < 1 || rank > 4) {
            return Err(Error::InvalidShape);
        }
        let data = RMSNormProvingData::new(
            multipliers,
            max_shift as usize,
            normalised_sum_sq,
            error_bound,
            input_scaling.bit_size + 1,
            self.alpha.is_some(),
        );
        let domain = normalisation_domain(normalisation_scaling.bit_size + 1);
        let normalised = data.apply(input, domain);
        assert(is_normalised(
            *input,
            data.normalisation.data@,
            None,
            rounding_of(max_shift as int),
            max_shift as nat,
            self.domain(),
            normalised,
        ));
        match &self.alpha {
            Some(a) => {
                let out = scale_columns(&normalised, &a.tensor.data, None);
                Ok((out, data))
            },
            None => Ok((normalised, data)),
        }
    }

    /// The context of the layer, the padded factors to commit to where there are any, and
    /// the largest number of values of a polynomial. A layer that has not been quantised
    /// is refused.
    pub fn step_info(&self, node_id: usize, last_output_shapes: &Vec<Shape>, max_poly_len: usize) -> (r:
        Result<(RMSNormCtx, Option<(String, Vec<Element>)>, usize), Error>)
        requires
            self.alpha matches Some(a) ==> a.tensor.wf() && can_pad(a.tensor.shape@),
            forall|i: int|
                0 <= i < last_output_shapes@.len() ==> can_pad(
                    (#[trigger] last_output_shapes@[i])@,
                ),
        ensures
            match r {
                Ok((ctx, poly, len)) => {
                    &&& self.input_scaling_factor == Some(ctx.input_scaling)
                    &&& self.normalisation_scaling_factor == Some(ctx.normalisation_scaling)
                    &&& ctx.node_id == node_id
                    &&& ctx.normalisation_dim_size == self.normalisation_dim_size
                    &&& len == longest(last_output_shapes@, max_poly_len as nat)
                    &&& match (self.alpha, ctx.alpha_key, poly) {
                        (Some(a), Some(k), Some((name, values))) => {
                            &&& k@ == a.key@
                            &&& name@ == a.key@
                            &&& values@ == resized(
                                a.tensor.data@,
                                a.tensor.shape@,
                                padded(a.tensor.shape@),
                                0,
                            )
                        },
                        (None, None, None) => true,
                        _ => false,
                    }
                },
                Err(e) => {
                    &&& e == Error::NotQuantised
                    &&& self.input_scaling_factor is None || self.normalisation_scaling_factor is None
                },
            },
    {
        let (input_scaling, normalisation_scaling) = match self.get_quantisation_scaling_factors() {
            Some(s) => s,
            None => {
                return Err(Error::NotQuantised);
            },
        };
        let (alpha_key, poly) = match &self.alpha {
            Some(a) => (
                Some(a.key.clone()),
                Some((a.key.clone(), a.tensor.pad_next_power_of_two(0).data)),
            ),
            None => (None, None),
        };
        let len = longest_padded(last_output_shapes, max_poly_len);
        Ok(
            (
                RMSNormCtx {
                    node_id,
                    normalisation_dim_size: self.normalisation_dim_size,
                    alpha_key,
                    input_scaling,
                    normalisation_scaling,
                },
                poly,
                len,
            ),
        )
    }

    /// The claim on the factors of the columns that the lookup leaves, where there are
    /// factors.
    pub fn prove_alpha<F: Copy>(&self, weight_evaluation: Option<F>, point: Option<Vec<F>>) -> (r: Result<
        Option<(String, Claim<F>)>,
        Error,
    >)
        ensures
            is_alpha_claim(
                weight_evaluation,
                point,
                match self.alpha {
                    Some(a) => Some(a.key),
                    None => None,
                },
                r,
            ),
    {
        let key = match &self.alpha {
            Some(a) => Some(&a.key),
            None => None,
        };
        alpha_claim(weight_evaluation, point, key)
    }

    /// The multipliers of the rows, in columns of one token each row, padded with zeros.
    pub fn multiplier_columns(data: &RMSNormProvingData, input_shape: &Shape) -> (r: Vec<Vec<Element>>)
        requires
            tokens_of(input_shape@) > 0,
            next_pow2(tokens_of(input_shape@) as nat) <= usize::MAX,
        ensures
            r@.len() == column_count(
                data.normalisation.data@.len() as int,
                tokens_of(input_shape@) as int,
            ),
            forall|k: int|
                0 <= k < r@.len() ==> (#[trigger] r@[k])@ == padded_columns(
                    data.normalisation.data@,
                    tokens_of(input_shape@) as int,
                    k,
                ),
    {
        let rank: usize = input_shape.rank();
        let n: usize = if rank >= 2 {
            input_shape.dims[rank - 2]
        } else {
            1
        };
        to_columns(&data.normalisation.data, n)
    }
}

/// The tokens of a matrix of the last two dimensions.
pub open spec fn tokens_of(d: Seq<usize>) -> usize {
    if d.len() >= 2 {
        d[d.len() - 2]
    } else {
        1
    }
}

/// The output of the layer.
pub open spec fn rms_output(
    input: Tensor<Element>,
    mult: Seq<Element>,
    rounding: int,
    shift: nat,
    domain: (Element, Element),
    alpha: Option<KeyedTensor<Element>>,
    out: Tensor<Element>,
) -> bool {
    match alpha {
        None => is_normalised(input, mult, None, rounding, shift, domain, out),
        Some(a) => exists|t: Tensor<Element>| #[trigger]
            is_normalised(input, mult, None, rounding, shift, domain, t) && is_affine_rows(
                t,
                a.tensor.data@,
                None,
                out,
            ),
    }
}

/// The largest number of values of a padded shape, or of what was the largest before.
pub open spec fn longest(shapes: Seq<Shape>, start: nat) -> nat
    decreases shapes.len(),
{
    if shapes.len() == 0 {
        start
    } else {
        let a = longest(shapes.drop_last(), start);
        let b = numel(padded(shapes.last()@));
        if a >= b {
            a
        } else {
            b
        }
    }
}

/// The largest number of values of a padded shape, or of what was the largest before.
pub fn longest_padded(shapes: &Vec<Shape>, start: usize) -> (r: usize)
    requires
        forall|i: int| 0 <= i < shapes@.len() ==> can_pad((#[trigger] shapes@[i])@),
    ensures
        r == longest(shapes@, start as nat),
{
    let mut r: usize = start;
    assert(shapes@.take(0) =~= Seq::<Shape>::empty());
    for i in 0..shapes.len()
        invariant
            forall|i: int| 0 <= i < shapes@.len() ==> can_pad((#[trigger] shapes@[i])@),
            r == longest(shapes@.take(i as int), start as nat),
    {
        assert(can_pad(shapes@[i as int]@));
        let p = shapes[i].next_power_of_two();
        let n = count_values(&p, Ghost(p@));
        proof {
            let s = shapes@.take(i + 1);
            assert(s.drop_last() =~= shapes@.take(i as int));
            assert(s.last() == shapes@[i as int]);
        }
        if n > r {
            r = n;
        }
    }
    assert(shapes@.take(shapes@.len() as int) =~= shapes@);
    r
}

} // verus!
