//! The ways in which an operation of the scheme can fail.
use vstd::prelude::*;

verus! {

/// Why an operation was refused. A share that does not match its commitments
/// is no error: `verify` answers `false` for it.
#[derive(Clone, Copy, Debug, PartialEq, Eq, Structural)]
pub enum VssError {
    /// The threshold is zero or exceeds the number of shares.
    Configuration,
    /// The number of shares handed to `recover` is not the threshold.
    ShareCountMismatch,
    /// Two shares carry the same index.
    DuplicateIndex,
    /// The number of commitments is not the threshold (or, when dealing from
    /// given coefficients, the number of coefficients is not).
    CommitmentLengthMismatch,
    /// The random source gave no bytes.
    RandomSource,
    /// A share's index lies outside `1..=share_amount`.
    IndexOutOfRange,
}

} // verus!
