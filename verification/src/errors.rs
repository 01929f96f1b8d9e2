//! The errors that the library reports.
use vstd::prelude::*;

verus! {

/// Why a proof was not accepted.
#[derive(Clone, Copy, Debug, PartialEq, Eq, Structural)]
pub enum ProofError {
    /// The proof does not verify.
    VerificationError,
}

/// Why bytes could not be read as a value.
#[derive(Clone, Copy, Debug, PartialEq, Eq, Structural)]
pub enum SerializationError {
    /// There is no room for the extra information bits.
    NotEnoughSpace,
    /// The bytes encode no value.
    InvalidData,
    /// The flag bits are not those of the expected encoding.
    UnexpectedFlags,
    /// The input ended before the value did.
    IoError,
}

} // verus!
