//! The queries, keys and values of tokens.
use vstd::prelude::*;
use crate::error::Error;
use crate::linear::{affine_data, affine_fits, bias_matches, is_affine, is_matrix, matmul_bias};
use crate::padding::PaddingMode;
use crate::qkv::cache::{holds_rows, CacheQKV};
use crate::qkv::{bias_of, bias_values, QKV};
use crate::tensor::{can_pad, Element, KeyedTensor, Tensor};

verus! {

/// The product of the input and a matrix with its bias can be taken.
pub open spec fn can_multiply(
    input: Tensor<Element>,
    w: KeyedTensor<Element>,
    bias: Option<KeyedTensor<Element>>,
) -> bool {
    &&& is_matrix(w.tensor)
    &&& w.tensor.shape@[0] == input.shape@[1]
    &&& bias_matches(w.tensor, bias_of(bias))
    &&& affine_fits(input, w.tensor, bias_of(bias))
    &&& input.shape@[0] * w.tensor.shape@[1] <= usize::MAX
}

impl QKV<Element> {
    /// Why an input is refused, if it is.
    pub open spec fn input_refusal(&self, inputs: Seq<Tensor<Element>>) -> Option<Error> {
        if self.cache.initialized && inputs[0].shape@[0] != 1 {
            Some(Error::WrongSequenceLength)
        } else if inputs.len() != 1 {
            Some(Error::WrongNumberOfInputs)
        } else if inputs[0].shape@[1] != self.q.tensor.shape@[0] {
            Some(Error::InvalidShape)
        } else {
            None
        }
    }

    /// The layer can take the input without overflow.
    pub open spec fn can_evaluate(&self, input: Tensor<Element>) -> bool {
        let cols = self.k.tensor.shape@[1];
        let n = self.cache.seq_len;
        &&& can_multiply(input, self.q, self.q_bias)
        &&& can_multiply(input, self.k, self.k_bias)
        &&& can_multiply(input, self.v, self.v_bias)
        &&& cols == self.v.tensor.shape@[1]
        &&& self.cache.initialized ==> {
            &&& input.unpadded_shape@[0] == 1
            &&& cols == self.cache.cache_k.shape@[1]
            &&& n < usize::MAX
            &&& (n + 1) * cols <= usize::MAX
            &&& self.cache.padding_mode == PaddingMode::Padding ==> can_pad(
                seq![(n + 1) as usize, cols],
            )
        }
    }

    /// The cache `after` holds the keys and values of an input besides what the cache
    /// `before` holds.
    pub open spec fn caches(
        &self,
        input: Tensor<Element>,
        before: CacheQKV<Element>,
        after: CacheQKV<Element>,
    ) -> bool {
        let k = affine_data(input, self.k.tensor, bias_of(self.k_bias));
        let v = affine_data(input, self.v.tensor, bias_of(self.v_bias));
        let cols = self.k.tensor.shape@[1];
        let mode = before.padding_mode;
        &&& after.wf()
        &&& after.initialized
        &&& after.padding_mode == mode
        &&& self.v.tensor.shape@[1] == cols
        &&& if before.initialized {
            let n = before.seq_len as int;
            &&& after.seq_len == n + 1
            &&& holds_rows(
                after.cache_k,
                before.cache_k.data@.take(n * cols) + k,
                n + 1,
                cols,
                mode,
                0,
            )
            &&& holds_rows(
                after.cache_v,
                before.cache_v.data@.take(n * cols) + v,
                n + 1,
                cols,
                mode,
                0,
            )
        } else {
            &&& after.seq_len == input.unpadded_shape@[0]
            &&& after.cache_k.shape@ == seq![input.shape@[0], cols]
            &&& after.cache_v.shape@ == seq![input.shape@[0], cols]
            &&& after.cache_k.data@ == k
            &&& after.cache_v.data@ == v
        }
    }

    /// The queries of the input, and the keys and values of all tokens so far. The
    /// first input is taken whole; after it one token is taken at a time.
    pub fn evaluate(&mut self, inputs: &Vec<Tensor<Element>>) -> (r: Result<
        Vec<Tensor<Element>>,
        Error,
    >)
        requires
            old(self).cache.wf(),
            old(self).cache.initialized ==> inputs@.len() >= 1,
            inputs@.len() >= 1 ==> is_matrix(inputs@[0]),
            old(self).q.tensor.shape@.len() >= 1,
            old(self).input_refusal(inputs@) is None ==> old(self).can_evaluate(inputs@[0]),
        ensures
            final(self).q == old(self).q,
            final(self).k == old(self).k,
            final(self).v == old(self).v,
            final(self).q_bias == old(self).q_bias,
            final(self).k_bias == old(self).k_bias,
            final(self).v_bias == old(self).v_bias,
            final(self).weights_unpadded_shape == old(self).weights_unpadded_shape,
            final(self).num_heads == old(self).num_heads,
            final(self).head_dim == old(self).head_dim,
            final(self).num_groups == old(self).num_groups,
            match r {
                Ok(out) => {
                    let input = inputs@[0];
                    &&& old(self).input_refusal(inputs@) is None
                    &&& out@.len() == 3
                    &&& is_affine(
                        input,
                        old(self).q.tensor,
                        bias_of(old(self).q_bias),
                        out@[0],
                    )
                    &&& out@[1].equals(&final(self).cache.cache_k)
                    &&& out@[2].equals(&final(self).cache.cache_v)
                    &&& old(self).caches(input, old(self).cache, final(self).cache)
                },
                Err(e) => old(self).input_refusal(inputs@) == Some(e) && final(self).cache == old(
                    self,
                ).cache,
            },
    {
        if self.cache.is_initialized() {
            if inputs[0].shape.dims[0] != 1 {
                return Err(Error::WrongSequenceLength);
            }
        }
        if inputs.len() != 1 {
            return Err(Error::WrongNumberOfInputs);
        }
        let input = &inputs[0];
        let emb_size: usize = input.shape.dims[1];
        if self.q.tensor.shape.dims[0] != emb_size {
            return Err(Error::InvalidShape);
        }
        let seq_len: usize = input.unpadded_shape.dims[0];
        let q = matmul_bias(input, &self.q.tensor, bias_values(&self.q_bias));
        let k = matmul_bias(input, &self.k.tensor, bias_values(&self.k_bias));
        let v = matmul_bias(input, &self.v.tensor, bias_values(&self.v_bias));
        proof {
            assert(input.unpadded_shape@[0] <= input.shape@[0]);
            let cols = k.shape@[1] as int;
            if self.cache.initialized {
                assert(1 * cols == cols);
                assert(k.data@.take(cols) =~= k.data@);
                assert(v.data@.take(cols) =~= v.data@);
            }
        }
        match self.cache.stack(k, v, seq_len, 0) {
            Ok(_) => {},
            Err(e) => {
                return Err(e);
            },
        }
        let mut out: Vec<Tensor<Element>> = Vec::new();
        out.push(q);
        out.push(self.cache.k());
        out.push(self.cache.v());
        Ok(out)
    }
}

} // verus!
