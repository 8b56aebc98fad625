use vstd::prelude::*;

pub mod number_theory;
pub mod fermat;
pub mod prime_field_element;
pub mod fft;
pub mod inversion;

verus! {

/// Ways an arithmetic operation or a transform can fail.
#[derive(Debug, Clone, Copy, PartialEq, Eq, Structural)]
pub enum TransformError {
    /// The operands belong to fields with different moduli.
    FieldMismatch,
    /// The sequence length is not a power of two of at least two.
    InvalidLength,
    /// The element has no multiplicative inverse modulo the field modulus.
    NotInvertible,
    /// A negative exponent was passed to modular exponentiation.
    InvalidExponent,
}

} // verus!
