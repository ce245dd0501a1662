//! Lookup tables that layers range-check their values against.
use vstd::prelude::*;

verus! {

/// The number of bits of the values in the shift check table.
pub const SHIFT_CHECK_TABLE_BIT_SIZE: usize = 16;

/// The number of values in the shift check table.
pub const SHIFT_CHECK_TABLE_SIZE: u64 = 0x1_0000;

/// A lookup table.
#[derive(Clone, Copy, Debug, PartialEq, Eq, Structural)]
pub enum Table {
    /// The values of `SHIFT_CHECK_TABLE_BIT_SIZE` bits.
    ShiftCheck,
    /// The signed values of the given number of bits, clamped.
    Normalisation(usize),
    /// The value zero.
    ZeroCheck,
    /// The value zero, with its sign.
    SignedZeroCheck,
}

impl Table {
    pub fn new_shift_check() -> (r: Table)
        ensures
            r == Table::ShiftCheck,
    {
        Table::ShiftCheck
    }

    pub fn new_normalisation(bit_size: usize) -> (r: Table)
        ensures
            r == Table::Normalisation(bit_size),
    {
        Table::Normalisation(bit_size)
    }

    pub fn new_zero_check() -> (r: Table)
        ensures
            r == Table::ZeroCheck,
    {
        Table::ZeroCheck
    }

    pub fn new_signed_zero_check() -> (r: Table)
        ensures
            r == Table::SignedZeroCheck,
    {
        Table::SignedZeroCheck
    }
}

} // verus!
