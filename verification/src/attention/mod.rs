//! Masks of up to four dimensions, proved claim by claim.
pub mod attention_mask;
pub mod laws;
pub mod protocol;
