//! The byte packing of the sieve, and the records that the wheel tables and
//! the sieving cursors are made of.
use vstd::prelude::*;

verus! {

/// Bits in one byte of the sieve.
pub const BYTE_SIZE: usize = 8;

/// Consecutive integers that one byte of the sieve covers: its bits stand,
/// in order, for the residues 1, 7, 11, 13, 17, 19, 23 and 29 modulo 30.
pub const BYTE_MODULO: usize = 30;

/// A sieving cursor: where the next multiple of a prime lies in the segment.
#[derive(Clone, Copy, Debug, PartialEq, Eq, Structural)]
pub struct WheelInfo {
    /// The prime itself.
    pub true_prime: usize,
    /// The prime divided by `BYTE_MODULO`: how many whole bytes one multiple
    /// of the prime spans.
    pub prime: usize,
    /// Byte of the segment that holds the next multiple.
    pub sieve_index: usize,
    /// State of the transition table that clears that multiple.
    pub wheel_index: usize,
}

/// Entry of the cursor initialisation table, one per residue modulo 210.
#[derive(Clone, Copy, Debug, PartialEq, Eq, Structural)]
pub struct WheelInit {
    /// Steps from the residue up to the nearest representable one; zero
    /// exactly for representable residues.
    pub next_mult_factor: u8,
    /// Number of representable residues below this one.
    pub wheel_index: u8,
}

/// State of the transition table.
#[derive(Clone, Copy, Debug, PartialEq, Eq, Structural)]
pub struct WheelElem {
    /// Mask of the bit to clear in the current byte.
    pub unset_bit: u8,
    /// Multiplier of the prime's byte count to the next multiple.
    pub next_mult_factor: u8,
    /// Bytes to add on top of that.
    pub correction: u8,
    /// Offset to the next state.
    pub next: i8,
}

} // verus!
