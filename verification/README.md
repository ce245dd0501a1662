# zkml

Transformer layers of a prover for neural network inference, verified with Verus.

Each layer has four sides, and each stands in `src/` with its contract:

- evaluation on quantised integers, with the caches that token-by-token inference needs;
- padding to powers of two;
- the tables and polynomials that the prover hands to a sumcheck, and the claims that are
  left once it has been run;
- the decisions of the verifier on the end of a sumcheck.

The sumcheck, the lookup argument, the commitments and the transcript are not part of the
library. What they give (challenges, points, evaluations) comes in as arguments, and proofs
carry their parts as type parameters.

## Layout

- `src/field.rs`, `goldilocks.rs`, `congruence.rs`: prime fields. Contracts are stated over
  integers; an element stands for an integer modulo the prime.
- `src/sum.rs`, `mle.rs`, `triangular.rs`, `batching.rs`, `expression.rs`: sums, multilinear
  extensions and the polynomials of sumchecks.
- `src/shape.rs`, `tensor.rs`, `padding.rs`, `cache/`, `linear.rs`, `counting.rs`,
  `lookup.rs`, `claim.rs`: tensors and what the layers share.
- `src/attention_mask/`, `attention/`: causal masks, full or with a window of the tokens before;
  the second is proved for one claim or for one claim for each matrix.
- `src/qkv/`: queries, keys and values.
- `src/positional/`: positions of tokens, as added rows or as rotations.
- `src/normalisation/`, `layernorm/`: normalised rows, by multipliers or by looked up inverse
  roots.
- `src/embeddings.rs`, `logits/`: from tokens to vectors and back.
- `app/`: what floating point decides (evaluation on floats, scales and angles), and proofs of
  layers run over a sumcheck, a lookup argument and a transcript that the caller brings.
- `tests/`: whole proofs with an honest sumcheck, and the layers one by one.

Functions whose names start with `law_` state what holds of a layer as a whole: that tokens which
come one at a time are cached as if they had come together, that the sumcheck of an honest prover
sums to the claim that it starts from, and that the verifier accepts where it ends and is left
with the claims of the prover.
