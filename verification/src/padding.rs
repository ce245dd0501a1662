//! Whether a layer works on padded tensors.
use vstd::prelude::*;
use crate::shape::Shape;

verus! {

/// Whether tensors are padded to powers of two.
#[derive(Clone, Copy, Debug, PartialEq, Eq, Structural)]
pub enum PaddingMode {
    NoPadding,
    Padding,
}

/// The shapes of a tensor that goes from one layer to the next.
#[derive(Debug)]
pub struct ShapeData {
    pub input_shape_padded: Shape,
    /// Whether part of the padding holds values that are to be ignored.
    pub ignore_garbage_pad: bool,
    pub input_shape_og: Shape,
}

} // verus!
