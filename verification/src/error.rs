//! The errors that field arithmetic and secret sharing report.

use vstd::prelude::*;

verus! {

/// What can go wrong when building or combining field elements.
#[derive(Debug, Clone, Copy, PartialEq, Eq, Structural)]
pub enum FieldError {
    /// The proposed modulus is not a prime number.
    NotPrime(u64),
    /// The value is not below the modulus.
    OutOfRange { value: u64, prime: u64 },
    /// The two operands belong to fields of different moduli.
    FieldMismatch { left: u64, right: u64 },
    /// Zero has no multiplicative inverse.
    DivisionByZero,
}

/// What can go wrong when setting up a sharing or reconstructing a secret.
#[derive(Debug, Clone, Copy, PartialEq, Eq, Structural)]
pub enum ShamirError {
    /// The threshold exceeds the number of shares.
    InvalidThreshold { threshold: u64, total_shares: u64 },
    /// The threshold is below 1.
    ThresholdTooSmall(u64),
    /// Fewer shares than the threshold were given: (threshold, count).
    InsufficientShares(u64, usize),
    /// The shares do not all belong to the same field.
    ShareFieldMismatch { left: u64, right: u64 },
    /// The underlying field could not be built.
    FieldError(FieldError),
}

impl From<FieldError> for ShamirError {
    fn from(err: FieldError) -> (r: ShamirError) {
        ShamirError::FieldError(err)
    }
}

impl vstd::std_specs::convert::FromSpecImpl<FieldError> for ShamirError {
    open spec fn obeys_from_spec() -> bool {
        true
    }

    open spec fn from_spec(v: FieldError) -> ShamirError {
        ShamirError::FieldError(v)
    }
}

} // verus!
