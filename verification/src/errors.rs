//! The errors that the G60 codec reports.

use vstd::prelude::*;

verus! {

/// A wrapping error of all possible errors of the G60 encoding library.
#[derive(Debug, PartialEq, Eq, Structural, Clone, Copy)]
pub enum Error {
    Encoding(EncodingError),
    Decoding(DecodingError),
    Verification(VerificationError),
}

/// An error returned during the encoding process.
#[derive(Debug, PartialEq, Eq, Structural, Clone, Copy)]
pub enum EncodingError {
    /// The result buffer has not enough space to hold the encoding result.
    NotEnoughSpaceInSlice { actual: usize, required: usize },
}

/// An error returned during the decoding process.
#[derive(Debug, PartialEq, Eq, Structural, Clone, Copy)]
pub enum DecodingError {
    /// A verification error over the encoded string.
    Verification(VerificationError),
    /// The result buffer has not enough space to hold the decoding result.
    NotEnoughSpaceInSlice { actual: usize, required: usize },
}

/// An error returned during the verification process.
#[derive(Debug, PartialEq, Eq, Structural, Clone, Copy)]
pub enum VerificationError {
    /// The length of the encoded string is incorrect.
    InvalidLength,
    /// Invalid byte in the encoded string.
    InvalidByte { index: usize, byte: u8 },
    /// The encoded string is not canonical.
    NotCanonical,
}

impl From<EncodingError> for Error {
    fn from(v: EncodingError) -> (r: Self) {
        Self::Encoding(v)
    }
}

impl vstd::std_specs::convert::FromSpecImpl<EncodingError> for Error {
    open spec fn obeys_from_spec() -> bool {
        true
    }

    open spec fn from_spec(v: EncodingError) -> Self {
        Self::Encoding(v)
    }
}

impl From<DecodingError> for Error {
    fn from(v: DecodingError) -> (r: Self) {
        Self::Decoding(v)
    }
}

impl vstd::std_specs::convert::FromSpecImpl<DecodingError> for Error {
    open spec fn obeys_from_spec() -> bool {
        true
    }

    open spec fn from_spec(v: DecodingError) -> Self {
        Self::Decoding(v)
    }
}

impl From<VerificationError> for Error {
    fn from(v: VerificationError) -> (r: Self) {
        Self::Verification(v)
    }
}

impl vstd::std_specs::convert::FromSpecImpl<VerificationError> for Error {
    open spec fn obeys_from_spec() -> bool {
        true
    }

    open spec fn from_spec(v: VerificationError) -> Self {
        Self::Verification(v)
    }
}

impl From<VerificationError> for DecodingError {
    fn from(v: VerificationError) -> (r: Self) {
        Self::Verification(v)
    }
}

impl vstd::std_specs::convert::FromSpecImpl<VerificationError> for DecodingError {
    open spec fn obeys_from_spec() -> bool {
        true
    }

    open spec fn from_spec(v: VerificationError) -> Self {
        Self::Verification(v)
    }
}

} // verus!
