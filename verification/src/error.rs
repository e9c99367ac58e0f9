//! Error values reported by the fixed-capacity containers.
use core::char::DecodeUtf16Error;
use core::str::Utf8Error;
use vstd::prelude::*;

verus! {

/// The standard library's report of bytes that are not UTF-8.
#[verifier::external_type_specification]
#[verifier::external_body]
pub struct ExUtf8Error(core::str::Utf8Error);

/// The standard library's report of a byte vector that is not UTF-8.
#[verifier::external_type_specification]
#[verifier::external_body]
pub struct ExFromUtf8Error(std::string::FromUtf8Error);

/// The standard library's report of an unpaired UTF-16 surrogate.
#[verifier::external_type_specification]
#[verifier::external_body]
pub struct ExDecodeUtf16Error(core::char::DecodeUtf16Error);

/// The requested length does not fit into the fixed capacity.
#[derive(Copy, Clone, Debug, PartialEq, Eq)]
pub struct OutOfMemoryError(pub(crate) ());

impl OutOfMemoryError {
    /// The text shown for this error.
    pub fn message(&self) -> (text: &'static str)
        ensures
            text@ == "static length struct does not have enough memory"@,
    {
        "static length struct does not have enough memory"
    }
}

/// A write that was asked to take a whole buffer took only its first
/// `written` bytes, because the container was full then.
#[derive(Copy, Clone, Debug, PartialEq, Eq)]
pub struct WriteZeroError {
    /// The number of bytes that were taken.
    pub written: usize,
}

impl WriteZeroError {
    /// The text shown for this error.
    pub fn message(&self) -> (text: &'static str)
        ensures
            text@ == "failed to write whole buffer"@,
    {
        "failed to write whole buffer"
    }
}

/// Why bytes could not become a fixed-capacity string.
#[derive(Debug)]
pub enum FromUtf8Error {
    /// The text does not fit into the capacity.
    OutOfMemory(OutOfMemoryError),
    /// The bytes are not UTF-8.
    Utf8(Utf8Error),
}

/// Why UTF-16 code units could not become a fixed-capacity string.
#[derive(Debug)]
pub enum FromUtf16Error {
    /// The text does not fit into the capacity.
    OutOfMemory(OutOfMemoryError),
    /// A surrogate stands without its partner.
    DecodeUtf16(DecodeUtf16Error),
}

} // verus!
