use vstd::prelude::*;

verus! {

/// The ways an operation of this library can refuse its inputs.
#[derive(Debug, Clone, Copy, PartialEq, Eq, Structural)]
pub enum FheError {
    /// A length that does not match the configured size, or a size that is
    /// not a power of two (or of four, for the radix-4 path).
    InvalidSize,
    /// A modulus that cannot carry the requested arithmetic.
    InvalidModulus,
    /// A root whose multiplicative order is not exactly twice the size.
    InvalidRoot,
    /// An element that shares a factor with the modulus.
    NotInvertible,
    /// Operands of differing lengths passed to a binary operation.
    SizeMismatch,
}

} // verus!
