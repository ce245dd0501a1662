//! A layer that adds learned vectors to the tokens of any number of inputs.
use vstd::prelude::*;
use vstd::arithmetic::power2::pow2;
use crate::claim::Claim;
use crate::embeddings::cell;
use crate::error::Error;
use crate::field::PrimeField;
use crate::linear::is_matrix;
use crate::padding::PaddingMode;
use crate::positional::absolute::{rows_of, slice_rows};
use crate::positional::binding::{bind_sub_claim_to_positional_matrix, build_positional_matrix_claim, is_matrix_claim, is_part_evals, matrix_num_vars};
use crate::positional::laws::law_rows;
use crate::positional::{in_mode, inputs_fit, output_shapes};
use crate::shape::{ceil_log2, lemma_matrix_place, padded, same_shapes, Shape};
use crate::tensor::{can_pad, copied, resized, Element, Tensor};

verus! {

/// How many tokens a layer has seen.
#[derive(Clone, Copy, Debug, PartialEq, Eq, Structural)]
pub struct LearnedCache {
    pub seq_len: usize,
    pub initialized: bool,
}

impl LearnedCache {
    /// The number of tokens can become `n`: any number at first, and one more after
    /// that.
    pub open spec fn takes(self, n: int) -> bool {
        !self.initialized || self.seq_len + 1 == n
    }

    pub fn new() -> (r: Self)
        ensures
            r.seq_len == 0,
            !r.initialized,
    {
        LearnedCache { seq_len: 0, initialized: false }
    }

    /// Sets the number of tokens. After the first time it has to grow by one.
    pub fn set_seq_len(&mut self, seq_len: usize) -> (r: Result<(), Error>)
        requires
            old(self).seq_len < usize::MAX,
        ensures
            match r {
                Ok(_) => {
                    &&& old(self).takes(seq_len as int)
                    &&& final(self).initialized
                    &&& final(self).seq_len == seq_len
                },
                Err(e) => {
                    &&& e == Error::WrongSequenceLength
                    &&& !old(self).takes(seq_len as int)
                    &&& *final(self) == *old(self)
                },
            },
    {
        if !self.initialized {
            self.seq_len = seq_len;
            self.initialized = true;
        } else {
            if self.seq_len + 1 != seq_len {
                return Err(Error::WrongSequenceLength);
            }
            self.seq_len = seq_len;
        }
        Ok(())
    }

    /// Forgets the tokens.
    pub fn reset(&mut self)
        ensures
            final(self).seq_len == 0,
            !final(self).initialized,
    {
        self.seq_len = 0;
        self.initialized = false;
    }
}

/// A matrix with a vector for each position, and the tokens seen so far.
#[derive(Debug)]
pub struct Learned<N> {
    pub positional: Tensor<N>,
    /// The shape of the matrix before padding.
    pub unpadded_shape: Shape,
    pub past_length: LearnedCache,
}

/// The proof for one input. The proof of the addition is carried as it comes.
#[derive(Debug)]
pub struct SinglePositionalProof<F, A> {
    /// The evaluations of the further parts of the matrix.
    pub sub_matrix_evals: Vec<F>,
    /// The proof of the addition.
    pub add_proof: A,
}

/// The proofs for all inputs.
#[derive(Debug)]
pub struct PositionalProof<F, A> {
    pub proofs: Vec<SinglePositionalProof<F, A>>,
}

/// What the verifier knows of the layer.
#[derive(Debug)]
pub struct PositionalCtx {
    pub unpadded_shape: Shape,
    pub num_vars_positional_matrix: usize,
    pub node_id: usize,
}

/// The ways in which a layer can tell the position of a token.
#[derive(Debug)]
pub enum Positional<N> {
    Learned(Learned<N>),
    /// A rotation, which the layer does not perform.
    Rope,
}

impl<N> Learned<N> {
    /// The variables of the matrix.
    pub fn num_vars(&self) -> (r: usize)
        requires
            self.positional.shape@.len() == 2,
        ensures
            r == matrix_num_vars(self.positional.shape@),
    {
        ceil_log2(self.positional.shape.dims[0]) + ceil_log2(self.positional.shape.dims[1])
    }

    /// Forgets the tokens that were seen.
    pub fn reset_cache(&mut self)
        ensures
            final(self).positional == old(self).positional,
            final(self).unpadded_shape == old(self).unpadded_shape,
            final(self).past_length.seq_len == 0,
            !final(self).past_length.initialized,
    {
        self.past_length.reset();
    }
}

impl<N> Positional<N> {
    /// The shape of the matrix.
    pub fn shape(&self) -> (r: Shape)
        requires
            self is Learned,
        ensures
            r@ == self->Learned_0.positional.shape@,
    {
        match self {
            Positional::Learned(pos) => pos.positional.shape.clone(),
            Positional::Rope => Shape::new(Vec::new()),
        }
    }

    /// A layer that adds the rows of a matrix and has seen no token.
    pub fn new_learned(matrix: Tensor<N>) -> (r: Self)
        ensures
            r matches Positional::Learned(l) && l.positional == matrix && l.unpadded_shape@
                == matrix.shape@ && l.past_length.seq_len == 0 && !l.past_length.initialized,
    {
        let unpadded_shape = matrix.shape.clone();
        Positional::Learned(
            Learned { positional: matrix, unpadded_shape, past_length: LearnedCache::new() },
        )
    }

    /// The quantised layer, for its quantised matrix, which has seen no token. It takes the
    /// scale of one input.
    pub fn quantize_op<M>(self, num_input_scalings: usize, positional: Tensor<M>) -> (r: Result<
        Positional<M>,
        Error,
    >)
        requires
            num_input_scalings == 1 ==> self is Learned,
        ensures
            match r {
                Ok(p) => {
                    &&& num_input_scalings == 1
                    &&& p matches Positional::Learned(l) && l.positional == positional
                        && l.unpadded_shape == self->Learned_0.unpadded_shape
                        && l.past_length.seq_len == 0 && !l.past_length.initialized
                },
                Err(e) => e == Error::InvalidScaling && num_input_scalings != 1,
            },
    {
        if num_input_scalings != 1 {
            return Err(Error::InvalidScaling);
        }
        match self {
            Positional::Learned(l) => Ok(
                Positional::Learned(
                    Learned {
                        positional,
                        unpadded_shape: l.unpadded_shape,
                        past_length: LearnedCache::new(),
                    },
                ),
            ),
            Positional::Rope => Ok(Positional::Rope),
        }
    }

    /// A layer made of a matrix that was loaded. A matrix that was not found is refused,
    /// and so is one whose shape is not that of the configuration.
    pub fn from_json(
        position_embd: Option<Tensor<N>>,
        context_length: usize,
        embedding_size: usize,
    ) -> (r: Result<Self, Error>)
        ensures
            match r {
                Ok(p) => position_embd matches Some(t) && {
                    &&& t.shape@ == seq![context_length, embedding_size]
                    &&& p matches Positional::Learned(l) && l.positional == t && l.unpadded_shape@
                        == t.shape@ && l.past_length.seq_len == 0 && !l.past_length.initialized
                },
                Err(e) => match position_embd {
                    None => e == Error::MissingTensor,
                    Some(t) => {
                        &&& e == Error::InvalidShape
                        &&& t.shape@ != seq![context_length, embedding_size]
                    },
                },
            },
    {
        let t = match position_embd {
            Some(t) => t,
            None => {
                return Err(Error::MissingTensor);
            },
        };
        if t.shape.rank() != 2 || t.shape.dims[0] != context_length || t.shape.dims[1]
            != embedding_size {
            assert(t.shape@ != seq![context_length, embedding_size]);
            return Err(Error::InvalidShape);
        }
        assert(t.shape@ =~= seq![context_length, embedding_size]);
        Ok(Self::new_learned(t))
    }

    /// A layer made of a matrix that was loaded for a model that adds learned vectors;
    /// `learned` says whether the model does. Another model is refused.
    pub fn from_loader(
        learned: bool,
        position_embd: Option<Tensor<N>>,
        context_length: usize,
        embedding_size: usize,
    ) -> (r: Result<Self, Error>)
        requires
            learned && position_embd is Some ==> position_embd->Some_0.shape@.len() >= 2,
        ensures
            match r {
                Ok(p) => learned && (position_embd matches Some(t) && {
                    &&& t.shape@[0] == context_length
                    &&& t.shape@[1] == embedding_size
                    &&& p matches Positional::Learned(l) && l.positional == t && l.unpadded_shape@
                        == t.shape@ && l.past_length.seq_len == 0 && !l.past_length.initialized
                }),
                Err(e) => if !learned {
                    e == Error::NotSupported
                } else {
                    match position_embd {
                        None => e == Error::MissingTensor,
                        Some(t) => {
                            &&& e == Error::InvalidShape
                            &&& t.shape@[0] != context_length || t.shape@[1] != embedding_size
                        },
                    }
                },
            },
    {
        if !learned {
            return Err(Error::NotSupported);
        }
        let t = match position_embd {
            Some(t) => t,
            None => {
                return Err(Error::MissingTensor);
            },
        };
        if t.shape.dims[0] != context_length {
            return Err(Error::InvalidShape);
        }
        if t.shape.dims[1] != embedding_size {
            return Err(Error::InvalidShape);
        }
        Ok(Self::new_learned(t))
    }

    /// The shapes of the outputs are those of the inputs.
    pub fn output_shapes(&self, input_shapes: &Vec<Shape>, padding_mode: PaddingMode) -> (r: Vec<Shape>)
        requires
            self matches Positional::Learned(l) && inputs_fit(
                input_shapes@,
                in_mode(l.unpadded_shape@, padding_mode),
            ),
        ensures
            same_shapes(r@, input_shapes@),
    {
        match self {
            Positional::Learned(pos) => output_shapes(
                input_shapes,
                &pos.unpadded_shape,
                padding_mode,
            ),
            Positional::Rope => Vec::new(),
        }
    }
}

impl Positional<Element> {
    /// What comes of inputs, of which `unpadded_rows` tokens count as seen.
    pub open spec fn evaluates(
        self,
        after: Self,
        inputs: Seq<Tensor<Element>>,
        unpadded_rows: int,
        r: Result<Tensor<Element>, Error>,
    ) -> bool {
        if inputs.len() != 1 {
            r == Err::<Tensor<Element>, Error>(Error::WrongNumberOfInputs) && after == self
        } else if inputs[0].shape@.len() != 2 {
            r == Err::<Tensor<Element>, Error>(Error::InvalidShape) && after == self
        } else {
            match (self, after) {
                (Positional::Learned(a), Positional::Learned(b)) => {
                    let past = a.past_length.seq_len as int;
                    let n = inputs[0].shape@[0];
                    let cols = a.positional.shape@[1];
                    &&& a.positional == b.positional
                    &&& a.unpadded_shape == b.unpadded_shape
                    &&& match r {
                        Ok(t) => {
                            &&& a.past_length.takes(past + unpadded_rows)
                            &&& b.past_length.initialized
                            &&& b.past_length.seq_len == past + unpadded_rows
                            &&& t.wf()
                            &&& t.shape@ == seq![n, cols]
                            &&& t.data@ == rows_of(
                                a.positional.data@,
                                cols as int,
                                past,
                                past + n,
                            )
                        },
                        Err(e) => {
                            &&& e == Error::WrongSequenceLength
                            &&& !a.past_length.takes(past + unpadded_rows)
                            &&& b.past_length == a.past_length
                        },
                    }
                },
                (Positional::Rope, Positional::Rope) => r == Err::<Tensor<Element>, Error>(
                    Error::NotSupported,
                ),
                _ => false,
            }
        }
    }

    /// The rows that are added to the single input, from the position after the tokens
    /// seen so far, one for each row of the input. Only the tokens of the unpadded input
    /// count as seen.
    pub fn evaluate(&mut self, inputs: &Vec<Tensor<Element>>, unpadded_rows: usize) -> (r: Result<
        Tensor<Element>,
        Error,
    >)
        requires
            inputs@.len() == 1 && inputs@[0].shape@.len() == 2 ==> (*old(self) matches Positional::Learned(
                l,
            ) ==> {
                &&& is_matrix(l.positional)
                &&& l.past_length.seq_len < usize::MAX
                &&& l.past_length.seq_len + unpadded_rows <= usize::MAX
                &&& l.past_length.seq_len + inputs@[0].shape@[0] <= l.positional.shape@[0]
            }),
        ensures
            old(self).evaluates(*final(self), inputs@, unpadded_rows as int, r),
    {
        if inputs.len() != 1 {
            return Err(Error::WrongNumberOfInputs);
        }
        if inputs[0].shape.rank() != 2 {
            return Err(Error::InvalidShape);
        }
        match self {
            Positional::Learned(pos) => {
                let past: usize = pos.past_length.seq_len;
                let n: usize = inputs[0].shape.dims[0];
                let sub_pos = slice_rows(&pos.positional, past, past + n);
                match pos.past_length.set_seq_len(past + unpadded_rows) {
                    Ok(_) => Ok(sub_pos),
                    Err(e) => Err(e),
                }
            },
            Positional::Rope => Err(Error::NotSupported),
        }
    }

    /// The layer with its matrix padded.
    pub fn pad_node(self) -> (r: Self)
        requires
            self matches Positional::Learned(l) ==> l.positional.wf() && can_pad(l.positional.shape@),
        ensures
            match (self, r) {
                (Positional::Learned(a), Positional::Learned(b)) => {
                    let d = a.positional.shape@;
                    &&& b.positional.wf()
                    &&& b.positional.shape@ == padded(d)
                    &&& b.positional.data@ == resized(a.positional.data@, d, padded(d), 0)
                    &&& b.unpadded_shape == a.unpadded_shape
                    &&& b.past_length == a.past_length
                },
                (Positional::Rope, Positional::Rope) => true,
                _ => false,
            },
    {
        match self {
            Positional::Learned(pos) => {
                let positional = pos.positional.pad_next_power_of_two(0);
                Positional::Learned(
                    Learned {
                        positional,
                        unpadded_shape: pos.unpadded_shape,
                        past_length: pos.past_length,
                    },
                )
            },
            Positional::Rope => Positional::Rope,
        }
    }

    /// The context of the layer and the padded matrix that it commits to.
    pub fn step_info(&self, node_id: usize) -> (r: (PositionalCtx, Vec<Element>))
        requires
            self matches Positional::Learned(l) && is_matrix(l.positional) && can_pad(
                l.positional.shape@,
            ),
        ensures
            ({
                let l = self->Learned_0;
                &&& r.0.unpadded_shape@ == l.unpadded_shape@
                &&& r.0.num_vars_positional_matrix == matrix_num_vars(l.positional.shape@)
                &&& r.0.node_id == node_id
                &&& r.1@ == resized(
                    l.positional.data@,
                    l.positional.shape@,
                    padded(l.positional.shape@),
                    0,
                )
            }),
    {
        match self {
            Positional::Learned(pos) => {
                let ctx = PositionalCtx {
                    unpadded_shape: pos.unpadded_shape.clone(),
                    num_vars_positional_matrix: pos.num_vars(),
                    node_id,
                };
                (ctx, pos.positional.pad_next_power_of_two(0).data)
            },
            Positional::Rope => (
                PositionalCtx {
                    unpadded_shape: Shape::new(Vec::new()),
                    num_vars_positional_matrix: 0,
                    node_id,
                },
                Vec::new(),
            ),
        }
    }
}

/// What the prover gets for one input: the evaluations of the further parts of the
/// matrix, the claim on the input and the claim on the matrix.
#[derive(Debug)]
pub struct LearnedStep<F> {
    pub sub_matrix_evals: Vec<F>,
    pub input_claim: Claim<F>,
    pub positional_claim: Claim<F>,
}

/// The claims that the addition left can be bound to the matrix.
pub open spec fn can_bind<F>(
    matrix: Tensor<Element>,
    rows: usize,
    add_claims: Seq<Claim<F>>,
    extra: Seq<F>,
) -> bool {
    add_claims.len() == 2 ==> {
        &&& add_claims[1].point@.len() + extra.len() == matrix_num_vars(matrix.shape@)
        &&& rows * pow2(extra.len()) <= matrix.shape@[0]
        &&& rows * matrix.shape@[1] == pow2(add_claims[1].point@.len())
    }
}

/// Why the claims that the addition left are refused, if they are.
pub open spec fn bind_refusal<F>(
    matrix: Tensor<Element>,
    rows: usize,
    add_claims: Seq<Claim<F>>,
    extra: Seq<F>,
) -> Option<Error> {
    if add_claims.len() != 2 {
        Some(Error::WrongNumberOfClaims)
    } else if rows * pow2(extra.len()) != matrix.shape@[0] {
        Some(Error::InvalidShape)
    } else {
        None
    }
}

/// The step follows from the claims that the addition left.
pub open spec fn is_learned_step<F: PrimeField>(
    matrix: Tensor<Element>,
    rows: usize,
    add_claims: Seq<Claim<F>>,
    extra: Seq<F>,
    s: LearnedStep<F>,
) -> bool {
    &&& bind_refusal(matrix, rows, add_claims, extra) is None
    &&& s.input_claim.point@ == add_claims[0].point@
    &&& s.input_claim.eval == add_claims[0].eval
    &&& s.sub_matrix_evals@.len() == extra.len()
    &&& is_part_evals(
        matrix,
        add_claims[1].point@ + extra,
        add_claims[1].point@.len(),
        s.sub_matrix_evals@,
    )
    &&& is_matrix_claim(add_claims[1], extra, s.sub_matrix_evals@, s.positional_claim)
}

impl Learned<Element> {
    /// Binds the claims that the additions left to the matrix, input by input: there
    /// are two for each input, one on it and one on the rows that were added to it. The
    /// first input that cannot be bound is refused.
    pub fn prove<F: PrimeField>(
        &self,
        num_claims: usize,
        input_rows: &Vec<usize>,
        add_claims: &Vec<Vec<Claim<F>>>,
        extra_coordinates: &Vec<Vec<F>>,
    ) -> (r: Result<Vec<LearnedStep<F>>, Error>)
        requires
            is_matrix(self.positional),
            add_claims@.len() == input_rows@.len(),
            extra_coordinates@.len() == input_rows@.len(),
            forall|i: int|
                0 <= i < input_rows@.len() ==> can_bind(
                    self.positional,
                    #[trigger] input_rows@[i],
                    add_claims@[i]@,
                    extra_coordinates@[i]@,
                ),
        ensures
            match r {
                Ok(steps) => {
                    &&& num_claims == input_rows@.len()
                    &&& forall|i: int|
                        0 <= i < input_rows@.len() ==> bind_refusal(
                            self.positional,
                            #[trigger] input_rows@[i],
                            add_claims@[i]@,
                            extra_coordinates@[i]@,
                        ) is None
                    &&& steps@.len() == input_rows@.len()
                    &&& forall|i: int|
                        0 <= i < steps@.len() ==> is_learned_step(
                            self.positional,
                            input_rows@[i],
                            add_claims@[i]@,
                            extra_coordinates@[i]@,
                            #[trigger] steps@[i],
                        )
                },
                Err(e) => if num_claims != input_rows@.len() {
                    e == Error::WrongNumberOfClaims
                } else {
                    exists|i: int|
                        {
                            &&& 0 <= i < input_rows@.len()
                            &&& bind_refusal(
                                self.positional,
                                #[trigger] input_rows@[i],
                                add_claims@[i]@,
                                extra_coordinates@[i]@,
                            ) == Some(e)
                            &&& forall|j: int|
                                0 <= j < i ==> bind_refusal(
                                    self.positional,
                                    #[trigger] input_rows@[j],
                                    add_claims@[j]@,
                                    extra_coordinates@[j]@,
                                ) is None
                        }
                },
            },
    {
        if num_claims != input_rows.len() {
            return Err(Error::WrongNumberOfClaims);
        }
        let mut steps: Vec<LearnedStep<F>> = Vec::new();
        for i in 0..input_rows.len()
            invariant
                is_matrix(self.positional),
                num_claims == input_rows@.len(),
                add_claims@.len() == input_rows@.len(),
                extra_coordinates@.len() == input_rows@.len(),
                forall|i: int|
                    0 <= i < input_rows@.len() ==> can_bind(
                        self.positional,
                        #[trigger] input_rows@[i],
                        add_claims@[i]@,
                        extra_coordinates@[i]@,
                    ),
                forall|j: int|
                    0 <= j < i ==> bind_refusal(
                        self.positional,
                        #[trigger] input_rows@[j],
                        add_claims@[j]@,
                        extra_coordinates@[j]@,
                    ) is None,
                steps@.len() == i,
                forall|k: int|
                    0 <= k < i ==> is_learned_step(
                        self.positional,
                        input_rows@[k],
                        add_claims@[k]@,
                        extra_coordinates@[k]@,
                        #[trigger] steps@[k],
                    ),
        {
            assert(can_bind(
                self.positional,
                input_rows@[i as int],
                add_claims@[i as int]@,
                extra_coordinates@[i as int]@,
            ));
            let claims = &add_claims[i];
            if claims.len() != 2 {
                return Err(Error::WrongNumberOfClaims);
            }
            let input_claim = Claim::new(copied(&claims[0].point), claims[0].eval);
            match bind_sub_claim_to_positional_matrix(
                &claims[1],
                extra_coordinates[i].as_slice(),
                &self.positional,
                input_rows[i],
            ) {
                Ok((sub_matrix_evals, positional_claim)) => {
                    steps.push(LearnedStep { sub_matrix_evals, input_claim, positional_claim });
                },
                Err(e) => {
                    return Err(e);
                },
            }
        }
        Ok(steps)
    }
}

/// The proof for one input fits the claims that the addition left, and the drawn
/// coordinates fill the claim on the matrix up to its variables.
pub open spec fn can_check<F>(
    add_claims: Seq<Claim<F>>,
    extra: Seq<F>,
    sub_evals: Seq<F>,
    num_vars: int,
) -> bool {
    add_claims.len() == 2 ==> {
        &&& add_claims[1].point@.len() + extra.len() == num_vars
        &&& sub_evals.len() <= num_vars
    }
}

impl PositionalCtx {
    /// The shapes of the outputs are those of the inputs.
    pub fn output_shapes(&self, input_shapes: &Vec<Shape>, padding_mode: PaddingMode) -> (r: Vec<Shape>)
        requires
            inputs_fit(input_shapes@, in_mode(self.unpadded_shape@, padding_mode)),
        ensures
            same_shapes(r@, input_shapes@),
    {
        output_shapes(input_shapes, &self.unpadded_shape, padding_mode)
    }

    /// The claims on the inputs and the claims on the matrix, for the claims that the
    /// additions left. Another number of shapes or proofs than claims is refused, and so
    /// are additions that did not leave two claims.
    pub fn verify<F: PrimeField, A>(
        &self,
        proof: &PositionalProof<F, A>,
        num_claims: usize,
        num_output_shapes: (usize, usize),
        num_input_shapes: (usize, usize),
        add_claims: &Vec<Vec<Claim<F>>>,
        extra_coordinates: &Vec<Vec<F>>,
    ) -> (r: Result<(Vec<Claim<F>>, Vec<Claim<F>>), Error>)
        requires
            add_claims@.len() == num_claims,
            extra_coordinates@.len() == num_claims,
            proof.proofs@.len() == num_claims ==> forall|i: int|
                0 <= i < num_claims ==> can_check(
                    (#[trigger] add_claims@[i])@,
                    extra_coordinates@[i]@,
                    proof.proofs@[i].sub_matrix_evals@,
                    self.num_vars_positional_matrix as int,
                ),
        ensures
            ({
                let n = num_claims;
                let outputs = num_output_shapes.0 == n && num_output_shapes.1 == n;
                let inputs = num_input_shapes.0 == n && num_input_shapes.1 == n;
                match r {
                    Ok((input_claims, positional_claims)) => {
                        &&& outputs && inputs && proof.proofs@.len() == n
                        &&& input_claims@.len() == n
                        &&& positional_claims@.len() == n
                        &&& forall|i: int|
                            0 <= i < n ==> (#[trigger] add_claims@[i])@.len() == 2
                                && input_claims@[i].point@ == add_claims@[i]@[0].point@
                                && input_claims@[i].eval == add_claims@[i]@[0].eval
                                && is_matrix_claim(
                                add_claims@[i]@[1],
                                extra_coordinates@[i]@,
                                proof.proofs@[i].sub_matrix_evals@,
                                positional_claims@[i],
                            )
                    },
                    Err(e) => if !outputs {
                        e == Error::WrongNumberOfOutputs
                    } else if !inputs {
                        e == Error::WrongNumberOfInputs
                    } else if proof.proofs@.len() != n {
                        e == Error::UnexpectedProof
                    } else {
                        e == Error::WrongNumberOfClaims && exists|i: int|
                            0 <= i < n && (#[trigger] add_claims@[i])@.len() != 2
                    },
                }
            }),
    {
        if num_output_shapes.0 != num_claims || num_output_shapes.1 != num_claims {
            return Err(Error::WrongNumberOfOutputs);
        }
        if num_input_shapes.0 != num_claims || num_input_shapes.1 != num_claims {
            return Err(Error::WrongNumberOfInputs);
        }
        if proof.proofs.len() != num_claims {
            return Err(Error::UnexpectedProof);
        }
        let mut input_claims: Vec<Claim<F>> = Vec::new();
        let mut positional_claims: Vec<Claim<F>> = Vec::new();
        for i in 0..num_claims
            invariant
                num_output_shapes.0 == num_claims && num_output_shapes.1 == num_claims,
                num_input_shapes.0 == num_claims && num_input_shapes.1 == num_claims,
                proof.proofs@.len() == num_claims,
                add_claims@.len() == num_claims,
                extra_coordinates@.len() == num_claims,
                forall|i: int|
                    0 <= i < num_claims ==> can_check(
                        (#[trigger] add_claims@[i])@,
                        extra_coordinates@[i]@,
                        proof.proofs@[i].sub_matrix_evals@,
                        self.num_vars_positional_matrix as int,
                    ),
                input_claims@.len() == i,
                positional_claims@.len() == i,
                forall|k: int|
                    0 <= k < i ==> (#[trigger] add_claims@[k])@.len() == 2
                        && input_claims@[k].point@ == add_claims@[k]@[0].point@
                        && input_claims@[k].eval == add_claims@[k]@[0].eval && is_matrix_claim(
                        add_claims@[k]@[1],
                        extra_coordinates@[k]@,
                        proof.proofs@[k].sub_matrix_evals@,
                        positional_claims@[k],
                    ),
        {
            let claims = &add_claims[i];
            assert(can_check(
                add_claims@[i as int]@,
                extra_coordinates@[i as int]@,
                proof.proofs@[i as int].sub_matrix_evals@,
                self.num_vars_positional_matrix as int,
            ));
            if claims.len() != 2 {
                return Err(Error::WrongNumberOfClaims);
            }
            input_claims.push(
                Claim::new(copied(&claims[0].point), claims[0].eval),
            );
            positional_claims.push(
                build_positional_matrix_claim(
                    &claims[1],
                    extra_coordinates[i].as_slice(),
                    proof.proofs[i].sub_matrix_evals.as_slice(),
                ),
            );
        }
        Ok((input_claims, positional_claims))
    }
}

/// A learned layer gives each row of an input the row of its position, and counts the tokens
/// that are not padding: the positions of the next input go on from them. Once tokens have
/// been seen, it takes one token at a time.
pub proof fn law_learned_rows(
    layer: Learned<Element>,
    after: Learned<Element>,
    input: Tensor<Element>,
    unpadded_rows: int,
    r: Result<Tensor<Element>, Error>,
    i: int,
    j: int,
)
    requires
        Positional::Learned(layer).evaluates(
            Positional::Learned(after),
            seq![input],
            unpadded_rows,
            r,
        ),
        input.shape@.len() == 2,
        is_matrix(layer.positional),
        layer.past_length.seq_len + input.shape@[0] <= layer.positional.shape@[0],
        0 <= i < input.shape@[0],
        0 <= j < layer.positional.shape@[1],
    ensures
        after.positional == layer.positional,
        r is Ok <==> !layer.past_length.initialized || unpadded_rows == 1,
        match r {
            Ok(t) => {
                &&& cell(t, i, j) == cell(layer.positional, layer.past_length.seq_len + i, j)
                &&& after.past_length.seq_len - layer.past_length.seq_len == unpadded_rows
            },
            Err(_) => after.past_length == layer.past_length,
        },
{
    let past = layer.past_length.seq_len as int;
    if let Ok(t) = r {
        let m = layer.positional.shape@;
        let (n, cols) = (input.shape@[0], m[1]);
        assert(m =~= seq![m[0], cols]);
        lemma_matrix_place(n, cols, i, j);
        lemma_matrix_place(m[0], cols, past + i, j);
        let (a, b) = ((past + n) * cols, m[0] * cols);
        assert(a <= b) by (nonlinear_arith)
            requires
                past + n <= m[0],
                a == (past + n) * cols,
                b == m[0] * cols,
                cols >= 0,
        ;
        law_rows(layer.positional.data@, cols as int, past, past + n, i, j);
    }
}

} // verus!
