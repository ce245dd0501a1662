//! Layers that tell a model the position of each token.
use vstd::prelude::*;
use crate::error::Error;
use crate::padding::PaddingMode;
use crate::positional::absolute::{Absolute, AbsoluteCtx, AbsoluteProof};
use crate::positional::rope::layout::RopeLayout;
use crate::positional::rope::prove::RopeProof;
use crate::positional::rope::{Rope, RopeCtx};
use crate::shape::{copy_shapes, next_pow2, padded, same_shapes, Shape};
use crate::tensor::{can_pad, Element, KeyedTensor, Tensor};

pub mod absolute;
pub mod binding;
pub mod laws;
pub mod learned;
pub mod rope;

verus! {

/// How many tokens a layer has seen.
#[derive(Clone, Copy, Debug, PartialEq, Eq, Structural)]
pub struct PositionalCache {
    pub seq_len: usize,
    pub initialized: bool,
}

impl PositionalCache {
    /// The number of tokens can become `n`: any number at first, and one more after
    /// that.
    pub open spec fn takes(self, n: int) -> bool {
        !self.initialized || self.seq_len + 1 == n
    }

    pub fn new() -> (r: Self)
        ensures
            r.seq_len == 0,
            !r.initialized,
    {
        PositionalCache { seq_len: 0, initialized: false }
    }

    /// Sets the number of tokens. After the first time it has to grow by one.
    pub fn set_seq_len(&mut self, seq_len: usize) -> (r: Result<(), Error>)
        requires
            old(self).seq_len < usize::MAX,
        ensures
            match r {
                Ok(_) => {
                    &&& old(self).takes(seq_len as int)
                    &&& final(self).initialized
                    &&& final(self).seq_len == seq_len
                },
                Err(e) => {
                    &&& e == Error::WrongSequenceLength
                    &&& !old(self).takes(seq_len as int)
                    &&& *final(self) == *old(self)
                },
            },
    {
        if self.initialized && self.seq_len + 1 != seq_len {
            return Err(Error::WrongSequenceLength);
        }
        self.seq_len = seq_len;
        self.initialized = true;
        Ok(())
    }

    /// Forgets the tokens.
    pub fn reset(&mut self)
        ensures
            final(self).seq_len == 0,
            !final(self).initialized,
    {
        self.seq_len = 0;
        self.initialized = false;
    }
}

/// The ways in which a layer can tell the position of a token.
#[derive(Debug)]
pub enum PositionalVariant<N> {
    Absolute(Absolute<N>),
    Rope(Rope<N>),
}

/// A layer that tells the position of each token, and the tokens that it has seen.
#[derive(Debug)]
pub struct Positional<N> {
    pub cache: Option<PositionalCache>,
    pub variant: PositionalVariant<N>,
}

/// What the verifier knows of the layer.
#[derive(Debug)]
pub enum PositionalCtx {
    Absolute(AbsoluteCtx),
    Rope(RopeCtx),
}

/// The proof of the layer.
#[derive(Debug)]
pub enum PositionalProof<F, P, A> {
    Absolute(AbsoluteProof<F, P, A>),
    Rope(RopeProof<F, P>),
}

/// What comes of an input: the output, or the matrix that is added to the input.
#[derive(Debug)]
pub enum Positioned {
    ToAdd(Tensor<Element>),
    Output(Tensor<Element>),
}

impl<N> Positional<N> {
    /// The shape of the matrix, or of both matrices.
    pub fn shape(&self) -> (r: Shape)
        ensures
            r@ == match self.variant {
                PositionalVariant::Absolute(a) => a.positional.tensor.shape@,
                PositionalVariant::Rope(l) => l.cosine_matrix.tensor.shape@,
            },
    {
        match &self.variant {
            PositionalVariant::Absolute(a) => a.positional.tensor.shape.clone(),
            PositionalVariant::Rope(l) => l.cosine_matrix.tensor.shape.clone(),
        }
    }

    /// Forgets the tokens that were seen.
    pub fn reset_cache(&mut self)
        ensures
            final(self).variant == old(self).variant,
            match (old(self).cache, final(self).cache) {
                (Some(_), Some(c)) => c.seq_len == 0 && !c.initialized,
                (None, None) => true,
                _ => false,
            },
    {
        match self.cache {
            Some(_) => {
                self.cache = Some(PositionalCache::new());
            },
            None => {},
        }
    }

    /// A layer that has seen no token.
    pub fn new_from_variant(variant: PositionalVariant<N>) -> (r: Self)
        ensures
            r.variant == variant,
            r.cache matches Some(c) && c.seq_len == 0 && !c.initialized,
    {
        Positional { cache: Some(PositionalCache::new()), variant }
    }

    /// A layer that adds the rows of a matrix.
    pub fn new_absolute(matrix: KeyedTensor<N>) -> (r: Self)
        ensures
            r.cache matches Some(c) && c.seq_len == 0 && !c.initialized,
            r.variant matches PositionalVariant::Absolute(a) && a.positional == matrix
                && a.unpadded_shape@ == matrix.tensor.shape@,
    {
        Self::new_from_variant(PositionalVariant::Absolute(Absolute::new(matrix)))
    }

    /// A layer that rotates by the given cosines and sines.
    pub fn new_rope_from_matrices(
        cosine_matrix: KeyedTensor<N>,
        sine_matrix: KeyedTensor<N>,
        layout: RopeLayout,
    ) -> (r: Result<Self, Error>)
        requires
            layout == RopeLayout::RotateHalf ==> cosine_matrix.tensor.shape@.len() >= 1,
        ensures
            ({
                let d = cosine_matrix.tensor.shape@;
                let ok = d == sine_matrix.tensor.shape@ && (layout == RopeLayout::RotateHalf
                    ==> d.last() == next_pow2(d.last() as nat));
                match r {
                    Ok(p) => {
                        &&& ok
                        &&& p.cache matches Some(c) && c.seq_len == 0 && !c.initialized
                        &&& p.variant matches PositionalVariant::Rope(l) && l.cosine_matrix
                            == cosine_matrix && l.sine_matrix == sine_matrix && l.layout == layout
                            && l.unpadded_shape@ == d && l.concatenation_cache is None
                    },
                    Err(e) => e == Error::InvalidShape && !ok,
                }
            }),
    {
        match Rope::new(cosine_matrix, sine_matrix, layout) {
            Ok(l) => Ok(Self::new_from_variant(PositionalVariant::Rope(l))),
            Err(e) => Err(e),
        }
    }

    /// The layer without the tokens that it has seen: each input starts anew.
    pub fn with_no_cache(self) -> (r: Self)
        ensures
            r.cache is None,
            r.variant == self.variant,
    {
        Positional { cache: None, variant: self.variant }
    }

    /// The quantised layer, for its quantised matrices, which has seen no token. It takes
    /// the scale of one input.
    pub fn quantize_op<M>(self, num_input_scalings: usize, variant: PositionalVariant<M>) -> (r: Result<
        Positional<M>,
        Error,
    >)
        ensures
            match r {
                Ok(p) => {
                    &&& num_input_scalings == 1
                    &&& p.variant == variant
                    &&& match (self.cache, p.cache) {
                        (Some(_), Some(c)) => c.seq_len == 0 && !c.initialized,
                        (None, None) => true,
                        _ => false,
                    }
                },
                Err(e) => e == Error::InvalidScaling && num_input_scalings != 1,
            },
    {
        if num_input_scalings != 1 {
            return Err(Error::InvalidScaling);
        }
        let cache = match self.cache {
            Some(_) => Some(PositionalCache::new()),
            None => None,
        };
        Ok(Positional { cache, variant })
    }

    /// A layer made of what a file holds for a model. A model that rotates has a rotation
    /// for one head; its matrices come repeated for every head, and its rows grow by the
    /// number of heads. A model that adds rows has a matrix whose shape is that of the
    /// configuration. What was not found is refused.
    pub fn from_loader(
        loaded: LoadedPositional<N>,
        context_length: usize,
        embedding_size: usize,
    ) -> (r: Result<Self, Error>)
        requires
            loaded matches LoadedPositional::Rope { rope: Some(rope), num_heads, .. } ==> {
                &&& rope.unpadded_shape@.len() >= 1
                &&& rope.unpadded_shape@.last() * num_heads <= usize::MAX
            },
            loaded matches LoadedPositional::Absolute(Some(t)) ==> t.tensor.shape@.len() >= 2,
        ensures
            match r {
                Ok(p) => {
                    &&& p.cache matches Some(c) && c.seq_len == 0 && !c.initialized
                    &&& match loaded {
                        LoadedPositional::Rope { rope, cosine, sine, num_heads } => {
                            let from = rope->Some_0;
                            let d = from.unpadded_shape@;
                            &&& rope is Some
                            &&& p.variant matches PositionalVariant::Rope(to) && {
                                &&& to.cosine_matrix.key == from.cosine_matrix.key
                                &&& to.cosine_matrix.tensor == cosine
                                &&& to.sine_matrix.key == from.sine_matrix.key
                                &&& to.sine_matrix.tensor == sine
                                &&& to.unpadded_shape@ == d.update(
                                    d.len() - 1,
                                    (d.last() * num_heads) as usize,
                                )
                                &&& to.layout == from.layout
                                &&& to.concatenation_cache == from.concatenation_cache
                            }
                        },
                        LoadedPositional::Absolute(matrix) => matrix matches Some(t) && {
                            &&& t.tensor.shape@[0] == context_length
                            &&& t.tensor.shape@[1] == embedding_size
                            &&& p.variant matches PositionalVariant::Absolute(a) && a.positional
                                == t && a.unpadded_shape@ == t.tensor.shape@
                        },
                    }
                },
                Err(e) => match loaded {
                    LoadedPositional::Rope { rope, .. } => e == Error::MissingTensor && rope is None,
                    LoadedPositional::Absolute(None) => e == Error::MissingTensor,
                    LoadedPositional::Absolute(Some(t)) => {
                        &&& e == Error::InvalidShape
                        &&& t.tensor.shape@[0] != context_length || t.tensor.shape@[1]
                            != embedding_size
                    },
                },
            },
    {
        match loaded {
            LoadedPositional::Rope { rope: Some(rope), cosine, sine, num_heads } => {
                let mut unpadded_shape = rope.unpadded_shape;
                let last: usize = unpadded_shape.rank() - 1;
                let cols: usize = unpadded_shape.dims[last] * num_heads;
                unpadded_shape.dims.set(last, cols);
                let rope = Rope {
                    cosine_matrix: KeyedTensor { key: rope.cosine_matrix.key, tensor: cosine },
                    sine_matrix: KeyedTensor { key: rope.sine_matrix.key, tensor: sine },
                    unpadded_shape,
                    layout: rope.layout,
                    concatenation_cache: rope.concatenation_cache,
                };
                Ok(Self::new_from_variant(PositionalVariant::Rope(rope)))
            },
            LoadedPositional::Absolute(Some(t)) => {
                if t.tensor.shape.dims[0] != context_length {
                    return Err(Error::InvalidShape);
                }
                if t.tensor.shape.dims[1] != embedding_size {
                    return Err(Error::InvalidShape);
                }
                Ok(Self::new_absolute(t))
            },
            _ => Err(Error::MissingTensor),
        }
    }

    /// A layer that adds the rows of a matrix which was loaded. A matrix that was not
    /// found is refused, and so is one whose shape is not that of the configuration.
    pub fn from_json(
        position_embd: Option<KeyedTensor<N>>,
        context_length: usize,
        embedding_size: usize,
    ) -> (r: Result<Self, Error>)
        ensures
            match r {
                Ok(p) => position_embd matches Some(t) && {
                    &&& t.tensor.shape@ == seq![context_length, embedding_size]
                    &&& p.cache matches Some(c) && c.seq_len == 0 && !c.initialized
                    &&& p.variant matches PositionalVariant::Absolute(a) && a.positional == t
                        && a.unpadded_shape@ == t.tensor.shape@
                },
                Err(e) => match position_embd {
                    None => e == Error::MissingTensor,
                    Some(t) => {
                        &&& e == Error::InvalidShape
                        &&& t.tensor.shape@ != seq![context_length, embedding_size]
                    },
                },
            },
    {
        let t = match position_embd {
            Some(t) => t,
            None => {
                return Err(Error::MissingTensor);
            },
        };
        if t.tensor.shape.rank() != 2 || t.tensor.shape.dims[0] != context_length
            || t.tensor.shape.dims[1] != embedding_size {
            assert(t.tensor.shape@ != seq![context_length, embedding_size]);
            return Err(Error::InvalidShape);
        }
        assert(t.tensor.shape@ =~= seq![context_length, embedding_size]);
        Ok(Self::new_absolute(t))
    }
}

/// What a file holds for a model that tells the position of a token.
#[derive(Debug)]
pub enum LoadedPositional<N> {
    /// The rotation of one head, where the file holds its frequency, and its cosines and
    /// sines repeated for every head.
    Rope { rope: Option<Rope<N>>, cosine: Tensor<N>, sine: Tensor<N>, num_heads: usize },
    /// The matrix whose rows are added.
    Absolute(Option<KeyedTensor<N>>),
}

/// The shape of a matrix in a padding mode.
pub open spec fn in_mode(d: Seq<usize>, mode: PaddingMode) -> Seq<usize> {
    match mode {
        PaddingMode::NoPadding => d,
        PaddingMode::Padding => padded(d),
    }
}

/// Each input is a matrix with the columns of the positional matrix and no more rows.
pub open spec fn inputs_fit(input_shapes: Seq<Shape>, d: Seq<usize>) -> bool {
    forall|i: int|
        0 <= i < input_shapes.len() ==> {
            let s = (#[trigger] input_shapes[i])@;
            s.len() == 2 && s[0] <= d[0] && s[1] == d[1]
        }
}

/// The shapes of the outputs are those of the inputs.
pub fn output_shapes(input_shapes: &Vec<Shape>, unpadded_shape: &Shape, padding_mode: PaddingMode) -> (r:
    Vec<Shape>)
    requires
        inputs_fit(input_shapes@, in_mode(unpadded_shape@, padding_mode)),
    ensures
        same_shapes(r@, input_shapes@),
{
    copy_shapes(input_shapes)
}

/// The last two dimensions of each input are those of a matrix that fits.
pub open spec fn last_dims_fit(input_shapes: Seq<Shape>, d: Seq<usize>) -> bool {
    forall|i: int|
        0 <= i < input_shapes.len() ==> {
            let s = (#[trigger] input_shapes[i])@;
            s.len() >= 2 && s[s.len() - 2] <= d[0] && s.last() == d[1]
        }
}

impl<N> Positional<N> {
    /// The shape of the matrices before padding.
    pub open spec fn unpadded(&self) -> Seq<usize> {
        match self.variant {
            PositionalVariant::Absolute(a) => a.unpadded_shape@,
            PositionalVariant::Rope(l) => l.unpadded_shape@,
        }
    }

    /// The shapes of the outputs are those of the inputs.
    pub fn output_shapes(&self, input_shapes: &Vec<Shape>, padding_mode: PaddingMode) -> (r: Vec<Shape>)
        requires
            match self.variant {
                PositionalVariant::Absolute(a) => inputs_fit(
                    input_shapes@,
                    in_mode(self.unpadded(), padding_mode),
                ),
                PositionalVariant::Rope(l) => last_dims_fit(
                    input_shapes@,
                    in_mode(self.unpadded(), padding_mode),
                ),
            },
        ensures
            same_shapes(r@, input_shapes@),
    {
        match &self.variant {
            PositionalVariant::Absolute(a) => output_shapes(
                input_shapes,
                &a.unpadded_shape,
                padding_mode,
            ),
            PositionalVariant::Rope(_) => copy_shapes(input_shapes),
        }
    }
}

impl Positional<Element> {
    /// The tokens that count as seen.
    pub open spec fn seen(&self) -> PositionalCache {
        match self.cache {
            Some(c) => c,
            None => PositionalCache { seq_len: 0, initialized: false },
        }
    }

    /// The layer can take the input without overflow.
    pub open spec fn can_evaluate(&self, input: Tensor<Element>) -> bool {
        match self.variant {
            PositionalVariant::Absolute(a) => a.can_add(input, self.seen()),
            PositionalVariant::Rope(l) => l.can_evaluate(input, self.seen()),
        }
    }

    /// What comes of an input.
    pub open spec fn evaluates(
        &self,
        after: Self,
        input: Tensor<Element>,
        r: Result<Positioned, Error>,
    ) -> bool {
        exists|seen_after: PositionalCache|
            {
                &&& after.cache == match self.cache {
                    Some(_) => Some(seen_after),
                    None => None,
                }
                &&& #[trigger] self.evaluates_to(after, seen_after, input, r)
            }
    }

    /// What comes of an input, with the tokens seen after it.
    pub open spec fn evaluates_to(
        &self,
        after: Self,
        seen_after: PositionalCache,
        input: Tensor<Element>,
        r: Result<Positioned, Error>,
    ) -> bool {
        match (self.variant, after.variant) {
            (PositionalVariant::Absolute(a), PositionalVariant::Absolute(b)) => {
                &&& a == b
                &&& match r {
                    Ok(Positioned::ToAdd(t)) => a.adds(self.seen(), seen_after, input, Ok(t)),
                    Ok(_) => false,
                    Err(e) => a.adds(self.seen(), seen_after, input, Err(e)),
                }
            },
            (PositionalVariant::Rope(a), PositionalVariant::Rope(b)) => match r {
                Ok(Positioned::Output(t)) => a.evaluates(b, self.seen(), seen_after, input, Ok(t)),
                Ok(_) => false,
                Err(e) => a.evaluates(b, self.seen(), seen_after, input, Err(e)),
            },
            _ => false,
        }
    }

    /// The layer takes inputs of the rank: a matrix of added rows takes matrices, and a
    /// rotation takes what it can rotate.
    pub open spec fn takes_rank(&self, rank: int) -> bool {
        self.variant is Absolute ==> rank == 2
    }

    /// What comes of the single input: the rotated input, or the matrix that is added
    /// to it. Another number of inputs is refused, and rows are only added to a matrix.
    pub fn evaluate(&mut self, inputs: &Vec<Tensor<Element>>) -> (r: Result<Positioned, Error>)
        requires
            inputs@.len() == 1 && old(self).takes_rank(inputs@[0].shape@.len() as int)
                ==> inputs@[0].wf() && old(self).can_evaluate(inputs@[0]),
        ensures
            if inputs@.len() != 1 {
                r == Err::<Positioned, Error>(Error::WrongNumberOfInputs) && *final(self) == *old(self)
            } else if !old(self).takes_rank(inputs@[0].shape@.len() as int) {
                r == Err::<Positioned, Error>(Error::InvalidShape) && *final(self) == *old(self)
            } else {
                old(self).evaluates(*final(self), inputs@[0], r)
            },
    {
        if inputs.len() != 1 {
            return Err(Error::WrongNumberOfInputs);
        }
        let input = &inputs[0];
        let adds_rows = match &self.variant {
            PositionalVariant::Absolute(_) => true,
            PositionalVariant::Rope(_) => false,
        };
        if adds_rows && input.shape.rank() != 2 {
            return Err(Error::InvalidShape);
        }
        let mut seen: PositionalCache = match self.cache {
            Some(c) => c,
            None => PositionalCache::new(),
        };
        assert(seen == self.seen());
        let r = match &mut self.variant {
            PositionalVariant::Absolute(a) => match a.added_rows(input, &mut seen) {
                Ok(t) => Ok(Positioned::ToAdd(t)),
                Err(e) => Err(e),
            },
            PositionalVariant::Rope(l) => match l.evaluate(input, &mut seen) {
                Ok(t) => Ok(Positioned::Output(t)),
                Err(e) => Err(e),
            },
        };
        if self.cache.is_some() {
            self.cache = Some(seen);
        }
        assert(old(self).evaluates_to(*self, seen, *input, r));
        r
    }

    /// The layer with its matrices padded, which has seen no token.
    pub fn pad_node(self) -> (r: Self)
        requires
            match self.variant {
                PositionalVariant::Absolute(a) => a.positional.tensor.wf() && can_pad(
                    a.positional.tensor.shape@,
                ),
                PositionalVariant::Rope(l) => l.wf() && can_pad(l.cosine_matrix.tensor.shape@),
            },
        ensures
            match (self.cache, r.cache) {
                (Some(_), Some(c)) => c.seq_len == 0 && !c.initialized,
                (None, None) => true,
                _ => false,
            },
            match (self.variant, r.variant) {
                (PositionalVariant::Absolute(a), PositionalVariant::Absolute(b)) => {
                    &&& rope::is_padded_from(a.positional, b.positional)
                    &&& a.unpadded_shape == b.unpadded_shape
                },
                (PositionalVariant::Rope(a), PositionalVariant::Rope(b)) => {
                    &&& rope::is_padded_from(a.cosine_matrix, b.cosine_matrix)
                    &&& rope::is_padded_from(a.sine_matrix, b.sine_matrix)
                    &&& a.unpadded_shape == b.unpadded_shape
                    &&& a.layout == b.layout
                    &&& match (a.concatenation_cache, b.concatenation_cache) {
                        (Some(x), Some(y)) => y.cached_tensor is None && y.caching_info
                            == x.caching_info && y.padding_mode == PaddingMode::Padding,
                        (None, None) => true,
                        _ => false,
                    }
                },
                _ => false,
            },
    {
        let cache = match self.cache {
            Some(_) => Some(PositionalCache::new()),
            None => None,
        };
        let variant = match self.variant {
            PositionalVariant::Absolute(a) => PositionalVariant::Absolute(a.pad_node()),
            PositionalVariant::Rope(l) => PositionalVariant::Rope(l.pad_node()),
        };
        Positional { cache, variant }
    }
}

impl PositionalCtx {
    /// The shape of the matrices before padding.
    pub fn unpadded_shape(&self) -> (r: &Shape)
        ensures
            r@ == match *self {
                PositionalCtx::Absolute(a) => a.unpadded_shape@,
                PositionalCtx::Rope(l) => l.unpadded_shape@,
            },
    {
        match self {
            PositionalCtx::Absolute(a) => &a.unpadded_shape,
            PositionalCtx::Rope(l) => &l.unpadded_shape,
        }
    }

    /// Whether there is one claim, with a shape for each of its inputs and outputs, and
    /// a proof of the kind of the layer.
    pub fn check_step<F, P, A>(
        &self,
        proof: &PositionalProof<F, P, A>,
        num_claims: usize,
        unpadded_output_shapes: &Vec<Shape>,
        padded_output_shapes: &Vec<Shape>,
        unpadded_input_shapes: &Vec<Shape>,
        padded_input_shapes: &Vec<Shape>,
    ) -> (r: Result<(), Error>)
        ensures
            ({
                let n = num_claims as nat;
                match r {
                    Ok(_) => {
                        &&& num_claims == 1
                        &&& unpadded_output_shapes@.len() == n && padded_output_shapes@.len() == n
                        &&& unpadded_input_shapes@.len() == n && padded_input_shapes@.len() == n
                        &&& self is Absolute == proof is Absolute
                    },
                    Err(e) => if unpadded_output_shapes@.len() != n || padded_output_shapes@.len()
                        != n {
                        e == Error::WrongNumberOfOutputs
                    } else if unpadded_input_shapes@.len() != n || padded_input_shapes@.len() != n {
                        e == Error::WrongNumberOfInputs
                    } else if n != 1 {
                        e == Error::WrongNumberOfClaims
                    } else {
                        e == Error::UnexpectedProof && self is Absolute != proof is Absolute
                    },
                }
            }),
    {
        if unpadded_output_shapes.len() != num_claims || padded_output_shapes.len() != num_claims {
            return Err(Error::WrongNumberOfOutputs);
        }
        if unpadded_input_shapes.len() != num_claims || padded_input_shapes.len() != num_claims {
            return Err(Error::WrongNumberOfInputs);
        }
        if num_claims != 1 {
            return Err(Error::WrongNumberOfClaims);
        }
        match (self, proof) {
            (PositionalCtx::Absolute(_), PositionalProof::Absolute(_)) => Ok(()),
            (PositionalCtx::Rope(_), PositionalProof::Rope(_)) => Ok(()),
            _ => Err(Error::UnexpectedProof),
        }
    }
}

} // verus!
