use vstd::prelude::*;

verus! {

/// Errors that construction of a store can return.
#[derive(Debug)]
pub enum Error {
    Config(ConfigError),
    BadInnerLen,
    Io(std::io::Error),
}

/// A configuration that is out of range.
#[derive(Debug, Clone, Copy, PartialEq, Eq)]
pub enum ConfigError {
    Seg(LenError),
    Buf(LenError),
}

/// What is wrong with a configured length.
#[derive(Debug, Clone, Copy, PartialEq, Eq)]
pub enum LenError {
    TooSmall,
    TooLarge,
    NotPow2,
}

/// Errors that validation of a store can return.
#[derive(Debug)]
pub enum ValidateError {
    /// Indices of the segments whose stored checksum does not match, ascending.
    Checksum(Vec<u64>),
    /// A trailing segment too short to hold a body byte and a checksum.
    SegTooShort(u64),
    Io(std::io::Error),
}

/// `std::io::Error` is carried through the library as an opaque value.
#[verifier::external_type_specification]
#[verifier::external_body]
pub struct ExIoError(std::io::Error);

} // verus!
