//! The ways in which an operation can be refused.
use vstd::prelude::*;

verus! {

/// Why an operation was refused.
#[derive(Clone, Copy, Debug, PartialEq, Eq, Structural)]
pub enum Error {
    /// The number of values does not match the shape.
    WrongNumberOfValues,
    /// A tensor or shape has a rank or a dimension that the operation does not take.
    InvalidShape,
    /// A layer got another number of inputs than it takes.
    WrongNumberOfInputs,
    /// A layer got another number of claims than it has outputs.
    WrongNumberOfClaims,
    /// A layer got another number of outputs than it has.
    WrongNumberOfOutputs,
    /// A proof has another number of commitments than the layer makes.
    WrongNumberOfCommitments,
    /// A dimension index lies outside the rank.
    DimensionOutOfBounds,
    /// A cache holds nothing yet.
    NotInitialized,
    /// A layer got another number of tokens than it takes.
    WrongSequenceLength,
    /// A point has another number of coordinates than there are variables.
    WrongPointLength,
    /// The span of a mask is not smaller than its dimension.
    SpanTooLarge,
    /// A tensor that a model needs was not found.
    MissingTensor,
    /// The biases of a layer do not fit together.
    InvalidBias,
    /// The heads of a layer do not divide its columns.
    InvalidHeads,
    /// There is no scaling factor, or the factors do not fit together.
    InvalidScaling,
    /// A denominator of a fractional sum is zero.
    ZeroDenominator,
    /// Claims that belong together are not at the same point.
    DifferentPoints,
    /// A token lies outside the vocabulary.
    TokenOutOfRange,
    /// The layer does not support what the model asks for.
    NotSupported,
    /// The layer has not been quantised.
    NotQuantised,
    /// A proof has a part that the layer does not call for, or lacks one that it does.
    UnexpectedProof,
    /// A sumcheck ended on another value than the one that was computed.
    EvaluationMismatch,
}

} // verus!
