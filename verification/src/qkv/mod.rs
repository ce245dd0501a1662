//! The layer that makes queries, keys and values of the tokens.
use vstd::prelude::*;
use vstd::arithmetic::power2::lemma_pow2_adds;
use crate::error::Error;
use crate::padding::PaddingMode;
use crate::qkv::cache::CacheQKV;
use crate::shape::{lemma_log2_pow2, log2_ceil, next_pow2, next_power_of_two, padded, Shape};
use crate::tensor::KeyedTensor;

pub mod cache;
pub mod evaluate;
pub mod laws;
pub mod pad;
pub mod prove;
pub mod verify;

verus! {

/// The matrices that make queries, keys and values, and the cache of the keys and
/// values so far.
#[derive(Debug)]
pub struct QKV<N> {
    pub q: KeyedTensor<N>,
    pub q_bias: Option<KeyedTensor<N>>,
    pub k: KeyedTensor<N>,
    pub k_bias: Option<KeyedTensor<N>>,
    pub v: KeyedTensor<N>,
    pub v_bias: Option<KeyedTensor<N>>,
    /// The shape of the three matrices before padding.
    pub weights_unpadded_shape: Shape,
    pub cache: CacheQKV<N>,
    pub num_heads: usize,
    pub head_dim: usize,
    pub num_groups: usize,
}

/// What the verifier knows of the layer.
#[derive(Debug)]
pub struct QKVCtx {
    pub node_id: usize,
    pub unpadded_shape: Shape,
    pub num_heads: usize,
    pub head_dim: usize,
    pub q_weight_key: String,
    pub k_weight_key: String,
    pub v_weight_key: String,
    pub q_bias_key: Option<String>,
    pub k_bias_key: Option<String>,
    pub v_bias_key: Option<String>,
}

/// The values of a bias.
pub open spec fn bias_of<N>(b: Option<KeyedTensor<N>>) -> Option<Seq<N>> {
    match b {
        Some(t) => Some(t.tensor.data@),
        None => None,
    }
}

/// The values of a bias.
pub(crate) fn bias_values<N>(b: &Option<KeyedTensor<N>>) -> (r: Option<&Vec<N>>)
    ensures
        match r {
            Some(v) => bias_of(*b) == Some(v@),
            None => bias_of(*b) is None,
        },
{
    match b {
        Some(t) => Some(&t.tensor.data),
        None => None,
    }
}

/// The biases fit together: there are none, or the first is a vector and the
/// others have the same shape.
pub open spec fn biases_agree<N>(
    q: Option<KeyedTensor<N>>,
    k: Option<KeyedTensor<N>>,
    v: Option<KeyedTensor<N>>,
) -> bool {
    match (q, k, v) {
        (Some(a), Some(b), Some(c)) => a.tensor.shape@.len() == 1 && b.tensor.shape@
            == c.tensor.shape@,
        (None, None, None) => true,
        _ => false,
    }
}

/// `a` is a multiple of `b`.
pub open spec fn is_multiple(a: int, b: int) -> bool {
    if b == 0 {
        a == 0
    } else {
        a % b == 0
    }
}

/// The shape of the matrices, with the columns padded head by head.
pub open spec fn padded_weights(rows: usize, num_heads: usize, head_dim: usize) -> Seq<usize> {
    seq![
        next_pow2(rows as nat) as usize,
        (next_pow2(head_dim as nat) * next_pow2(num_heads as nat)) as usize,
    ]
}

/// The shape of the matrices, with the columns padded head by head.
pub fn padded_weight_shape(unpadded_shape: &Shape, num_heads: usize, head_dim: usize) -> (r: Shape)
    requires
        unpadded_shape@.len() >= 1,
        next_pow2(unpadded_shape@[0] as nat) <= usize::MAX,
        next_pow2(num_heads as nat) <= usize::MAX,
        next_pow2(head_dim as nat) <= usize::MAX,
        next_pow2(head_dim as nat) * next_pow2(num_heads as nat) <= usize::MAX,
    ensures
        r@ == padded_weights(unpadded_shape@[0], num_heads, head_dim),
{
    let mut dims: Vec<usize> = Vec::new();
    dims.push(next_power_of_two(unpadded_shape.dims[0]));
    dims.push(next_power_of_two(head_dim) * next_power_of_two(num_heads));
    assert(dims@ =~= padded_weights(unpadded_shape@[0], num_heads, head_dim));
    Shape::new(dims)
}

/// A shape with two dimensions.
fn matrix_shape(rows: usize, cols: usize) -> (r: Shape)
    ensures
        r@ == seq![rows, cols],
{
    let mut dims: Vec<usize> = Vec::new();
    dims.push(rows);
    dims.push(cols);
    assert(dims@ =~= seq![rows, cols]);
    Shape::new(dims)
}

/// Whether `a` is a multiple of `b`.
fn multiple(a: usize, b: usize) -> (r: bool)
    ensures
        r == is_multiple(a as int, b as int),
{
    if b == 0 {
        a == 0
    } else {
        a % b == 0
    }
}

/// Why the parts of a layer do not fit together, if they do not.
pub open spec fn refusal<N>(
    q: KeyedTensor<N>,
    q_bias: Option<KeyedTensor<N>>,
    k: KeyedTensor<N>,
    k_bias: Option<KeyedTensor<N>>,
    v: KeyedTensor<N>,
    v_bias: Option<KeyedTensor<N>>,
    num_heads: usize,
    num_groups: usize,
) -> Option<Error> {
    let hidden = q.tensor.shape@[1] as int;
    if !biases_agree(q_bias, k_bias, v_bias) {
        Some(Error::InvalidBias)
    } else if !is_multiple(hidden, num_heads as int) {
        Some(Error::InvalidHeads)
    } else if num_groups != num_heads && (k.tensor.shape@[1] != v.tensor.shape@[1] || !is_multiple(
        k.tensor.shape@[1] as int,
        hidden / num_heads as int,
    )) {
        Some(Error::InvalidShape)
    } else {
        None
    }
}

/// The shapes of the parts can be compared, as far as the layer compares them: once the
/// biases agree, the matrix of the queries has columns, as many as its bias has values,
/// and there are heads or columns; where keys and values are grouped, their matrices have
/// columns.
pub open spec fn can_compare<N>(
    q: KeyedTensor<N>,
    q_bias: Option<KeyedTensor<N>>,
    k: KeyedTensor<N>,
    k_bias: Option<KeyedTensor<N>>,
    v: KeyedTensor<N>,
    v_bias: Option<KeyedTensor<N>>,
    num_heads: usize,
    num_groups: usize,
) -> bool {
    biases_agree(q_bias, k_bias, v_bias) ==> {
        &&& q.tensor.shape@.len() >= 2
        &&& q_bias matches Some(b) ==> b.tensor.shape@[0] == q.tensor.shape@[1]
        &&& num_heads > 0 || q.tensor.shape@[1] > 0
        &&& is_multiple(q.tensor.shape@[1] as int, num_heads as int) && num_groups != num_heads
            ==> k.tensor.shape@.len() >= 2 && v.tensor.shape@.len() >= 2
    }
}

impl<N> QKV<N> {
    /// A layer with an empty cache. It is refused where the biases do not fit
    /// together, where the heads do not divide the columns, and where grouped keys
    /// and values have different columns or columns that the heads do not divide.
    pub fn new(
        q: KeyedTensor<N>,
        q_bias: Option<KeyedTensor<N>>,
        k: KeyedTensor<N>,
        k_bias: Option<KeyedTensor<N>>,
        v: KeyedTensor<N>,
        v_bias: Option<KeyedTensor<N>>,
        num_heads: usize,
        num_groups: usize,
    ) -> (r: Result<Self, Error>)
        requires
            can_compare(q, q_bias, k, k_bias, v, v_bias, num_heads, num_groups),
        ensures
            match r {
                Ok(l) => {
                    &&& refusal(q, q_bias, k, k_bias, v, v_bias, num_heads, num_groups) is None
                    &&& l.q == q && l.k == k && l.v == v
                    &&& l.q_bias == q_bias && l.k_bias == k_bias && l.v_bias == v_bias
                    &&& l.weights_unpadded_shape@ == q.tensor.shape@
                    &&& l.cache.is_new()
                    &&& l.num_heads == num_heads
                    &&& l.num_groups == num_groups
                    &&& l.head_dim == q.tensor.shape@[1] as int / num_heads as int
                },
                Err(e) => refusal(q, q_bias, k, k_bias, v, v_bias, num_heads, num_groups) == Some(e),
            },
    {
        match (&q_bias, &k_bias, &v_bias) {
            (Some(a), Some(b), Some(c)) => {
                if a.tensor.shape.rank() != 1 {
                    return Err(Error::InvalidBias);
                }
                if !b.tensor.shape.same(&c.tensor.shape) {
                    return Err(Error::InvalidBias);
                }
            },
            (None, None, None) => {},
            _ => {
                return Err(Error::InvalidBias);
            },
        }
        let hidden_size: usize = q.tensor.shape.dims[1];
        if !multiple(hidden_size, num_heads) {
            return Err(Error::InvalidHeads);
        }
        let head_dim: usize = hidden_size / num_heads;
        if num_groups != num_heads {
            if k.tensor.shape.dims[1] != v.tensor.shape.dims[1] {
                return Err(Error::InvalidShape);
            }
            if !multiple(k.tensor.shape.dims[1], head_dim) {
                return Err(Error::InvalidShape);
            }
        }
        let weights_unpadded_shape = q.tensor.shape.clone();
        Ok(
            QKV {
                q,
                q_bias,
                k,
                k_bias,
                v,
                v_bias,
                weights_unpadded_shape,
                cache: CacheQKV::new(),
                num_heads,
                head_dim,
                num_groups,
            },
        )
    }

    /// The quantised layer, for its quantised matrices and biases. It takes the scale of
    /// one input and those of three outputs.
    pub fn quantize_from_scalings<M>(
        self,
        num_input_scalings: usize,
        num_output_scalings: usize,
        q: (KeyedTensor<M>, Option<KeyedTensor<M>>),
        k: (KeyedTensor<M>, Option<KeyedTensor<M>>),
        v: (KeyedTensor<M>, Option<KeyedTensor<M>>),
    ) -> (r: Result<QKV<M>, Error>)
        requires
            num_input_scalings == 1 && num_output_scalings == 3 ==> can_compare(
                q.0,
                q.1,
                k.0,
                k.1,
                v.0,
                v.1,
                self.num_heads,
                self.num_groups,
            ),
        ensures
            ({
                let scaled = num_input_scalings == 1 && num_output_scalings == 3;
                let refused = refusal(
                    q.0,
                    q.1,
                    k.0,
                    k.1,
                    v.0,
                    v.1,
                    self.num_heads,
                    self.num_groups,
                );
                match r {
                    Ok(l) => {
                        &&& scaled
                        &&& refused is None
                        &&& l.q == q.0 && l.k == k.0 && l.v == v.0
                        &&& l.q_bias == q.1 && l.k_bias == k.1 && l.v_bias == v.1
                        &&& l.weights_unpadded_shape@ == q.0.tensor.shape@
                        &&& l.cache.is_new()
                        &&& l.num_heads == self.num_heads
                        &&& l.num_groups == self.num_groups
                        &&& l.head_dim == q.0.tensor.shape@[1] as int / self.num_heads as int
                    },
                    Err(e) => if !scaled {
                        e == Error::InvalidScaling
                    } else {
                        refused == Some(e)
                    },
                }
            }),
    {
        if num_input_scalings != 1 {
            return Err(Error::InvalidScaling);
        }
        if num_output_scalings != 3 {
            return Err(Error::InvalidScaling);
        }
        QKV::new(q.0, q.1, k.0, k.1, v.0, v.1, self.num_heads, self.num_groups)
    }

    /// Empties the cache, which then does not pad.
    pub fn reset_cache(&mut self)
        ensures
            final(self).cache.is_new(),
            final(self).q == old(self).q,
            final(self).k == old(self).k,
            final(self).v == old(self).v,
            final(self).q_bias == old(self).q_bias,
            final(self).k_bias == old(self).k_bias,
            final(self).v_bias == old(self).v_bias,
            final(self).weights_unpadded_shape == old(self).weights_unpadded_shape,
            final(self).num_heads == old(self).num_heads,
            final(self).head_dim == old(self).head_dim,
            final(self).num_groups == old(self).num_groups,
    {
        self.cache.reset();
    }

    /// The number of tokens that the keys and values of the output are of.
    pub open spec fn kv_len(&self, input_rows: usize) -> usize {
        if self.cache.initialized {
            self.cache.seq_len
        } else {
            input_rows
        }
    }

    /// The columns of the output.
    pub open spec fn out_cols(&self, mode: PaddingMode) -> usize {
        match mode {
            PaddingMode::NoPadding => self.weights_unpadded_shape@[1],
            PaddingMode::Padding => (next_pow2(self.head_dim as nat) * next_pow2(
                self.num_heads as nat,
            )) as usize,
        }
    }

    /// The shapes of the queries, keys and values for the shape of the input. The
    /// cache already holds what was made of the input.
    pub fn output_shapes(&self, input_shapes: &Vec<Shape>, padding_mode: PaddingMode) -> (r: Vec<
        Shape,
    >)
        requires
            input_shapes@.len() == 1,
            input_shapes@[0]@.len() >= 1,
            self.weights_unpadded_shape@.len() >= 2,
            padding_mode == PaddingMode::Padding ==> {
                &&& next_pow2(input_shapes@[0]@[0] as nat) <= usize::MAX
                &&& next_pow2(self.kv_len(input_shapes@[0]@[0]) as nat) <= usize::MAX
                &&& next_pow2(self.weights_unpadded_shape@[0] as nat) <= usize::MAX
                &&& next_pow2(self.num_heads as nat) <= usize::MAX
                &&& next_pow2(self.head_dim as nat) <= usize::MAX
                &&& next_pow2(self.head_dim as nat) * next_pow2(self.num_heads as nat) <= usize::MAX
            },
        ensures
            r@.len() == 3,
            ({
                let rows = input_shapes@[0]@[0];
                let all = self.kv_len(rows);
                let cols = self.out_cols(padding_mode);
                match padding_mode {
                    PaddingMode::NoPadding => {
                        &&& r@[0]@ == seq![rows, cols]
                        &&& r@[1]@ == seq![all, cols]
                        &&& r@[2]@ == seq![all, cols]
                    },
                    PaddingMode::Padding => {
                        &&& r@[0]@ == seq![next_pow2(rows as nat) as usize, cols]
                        &&& r@[1]@ == seq![next_pow2(all as nat) as usize, cols]
                        &&& r@[2]@ == seq![next_pow2(all as nat) as usize, cols]
                    },
                }
            }),
    {
        let rows: usize = input_shapes[0].dims[0];
        let full_seq_len: usize = if self.cache.is_initialized() {
            self.cache.full_seq_len()
        } else {
            rows
        };
        let mut r: Vec<Shape> = Vec::new();
        match padding_mode {
            PaddingMode::NoPadding => {
                let cols: usize = self.weights_unpadded_shape.dims[1];
                r.push(matrix_shape(rows, cols));
                r.push(matrix_shape(full_seq_len, cols));
                r.push(matrix_shape(full_seq_len, cols));
            },
            PaddingMode::Padding => {
                let weights = padded_weight_shape(
                    &self.weights_unpadded_shape,
                    self.num_heads,
                    self.head_dim,
                );
                proof {
                    lemma_product_pow2(self.head_dim as nat, self.num_heads as nat);
                }
                let cols = next_power_of_two(weights.dims[1]);
                r.push(matrix_shape(next_power_of_two(rows), cols));
                r.push(matrix_shape(next_power_of_two(full_seq_len), cols));
                r.push(matrix_shape(next_power_of_two(full_seq_len), cols));
            },
        }
        r
    }
}

/// A product of powers of two is its own next power of two.
pub proof fn lemma_product_pow2(a: nat, b: nat)
    ensures
        next_pow2(next_pow2(a) * next_pow2(b)) == next_pow2(a) * next_pow2(b),
{
    lemma_pow2_adds(
        log2_ceil(a),
        log2_ceil(b),
    );
    lemma_log2_pow2(log2_ceil(a) + log2_ceil(b));
}

impl QKVCtx {
    /// The shapes of the output for the shape of the single input.
    pub fn output_shapes(&self, input_shapes: &Vec<Shape>, padding_mode: PaddingMode) -> (r: Vec<
        Shape,
    >)
        requires
            input_shapes@.len() == 1,
            input_shapes@[0]@.len() >= 2,
            self.unpadded_shape@.len() >= 2,
            padding_mode == PaddingMode::NoPadding ==> input_shapes@[0]@[1]
                == self.unpadded_shape@[0],
            padding_mode == PaddingMode::Padding ==> {
                &&& next_pow2(self.unpadded_shape@[0] as nat) <= usize::MAX
                &&& next_pow2(self.num_heads as nat) <= usize::MAX
                &&& next_pow2(self.head_dim as nat) <= usize::MAX
                &&& next_pow2(self.head_dim as nat) * next_pow2(self.num_heads as nat) <= usize::MAX
                &&& input_shapes@[0]@[1] == next_pow2(self.unpadded_shape@[0] as nat)
            },
        ensures
            r@.len() == 3,
            forall|k: int|
                0 <= k < 3 ==> (#[trigger] r@[k])@ == seq![
                    input_shapes@[0]@[0],
                    match padding_mode {
                        PaddingMode::NoPadding => self.unpadded_shape@[1],
                        PaddingMode::Padding => padded_weights(
                            self.unpadded_shape@[0],
                            self.num_heads,
                            self.head_dim,
                        )[1],
                    },
                ],
    {
        let cols: usize = match padding_mode {
            PaddingMode::NoPadding => self.unpadded_shape.dims[1],
            PaddingMode::Padding => padded_weight_shape(
                &self.unpadded_shape,
                self.num_heads,
                self.head_dim,
            ).dims[1],
        };
        let rows: usize = input_shapes[0].dims[0];
        let mut r: Vec<Shape> = Vec::new();
        r.push(matrix_shape(rows, cols));
        r.push(matrix_shape(rows, cols));
        r.push(matrix_shape(rows, cols));
        r
    }
}

} // verus!
