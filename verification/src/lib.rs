//! Transformer layers of a zero-knowledge inference prover.
//!
//! The modules hold the integer evaluation of each layer, the tables that its
//! prover hands to a sumcheck, and the decisions that its verifier takes.
pub mod attention;
pub mod attention_mask;
pub mod batching;
pub mod cache;
pub mod claim;
pub mod congruence;
pub mod counting;
pub mod embeddings;
pub mod error;
pub mod expression;
pub mod field;
pub mod goldilocks;
pub mod layernorm;
pub mod linear;
pub mod logits;
pub mod lookup;
pub mod mle;
pub mod normalisation;
pub mod padding;
pub mod positional;
pub mod qkv;
pub mod shape;
pub mod sum;
pub mod tensor;
pub mod triangular;
