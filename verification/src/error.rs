use vstd::prelude::*;

verus! {

/// Every way in which an operation of this library can refuse its input.
#[derive(Debug, Clone, Copy, PartialEq, Eq, Structural)]
pub enum NttError {
    /// The ring dimension `N` is not a power of two.
    NotPowerOfTwo,
    /// The requested modulus width lies outside `[4, 62]`.
    ModulusBitsOutOfRange,
    /// No prime `q ≡ 1 (mod 2N)` of the requested width was found.
    NoNttPrime,
    /// No element of order `2N` was found modulo `q`.
    NoPrimitiveRoot,
    /// A fault names a slot past the end of the vector it targets.
    FaultSlotOutOfRange { slot: usize, len: usize },
    /// A fault names a bit at or above the width of the modulus.
    FaultBitOutOfRange { bit: u32, modulus_bits: u32 },
    /// A vector does not have the length that the ring dimension asks for.
    LengthMismatch { expected: usize, got: usize },
    /// The direct (quadratic) transform has only one logical stage, stage 0.
    NaiveStageUnsupported,
}

} // verus!
