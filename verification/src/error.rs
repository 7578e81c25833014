//! Errors of the library.
use vstd::prelude::*;

verus! {

/// Why an operation was refused.
#[derive(Debug, PartialEq, Eq)]
pub enum Error {
    /// A cryptographic operation could not be carried out.
    CryptoError(String),
    /// A parameter is out of its range.
    InvalidParams(String),
    /// A public key does not decode to a usable group element.
    InvalidPublicKey(String),
    /// A ring or a candidate set has the wrong number of members.
    InvalidRingSize { expected: usize, got: usize },
    /// A signature cannot be made or read.
    InvalidSignature(String),
    /// A value cannot be written or read in its wire format.
    SerializationError(String),
    /// A range proof was refused.
    RangeProofInvalid,
    /// An operation is not allowed in the current state.
    InvalidState(String),
    /// A set of cut-through kernels was refused.
    MwCutthroughVerifyFailed,
    /// An amount does not fit.
    AmountOverflow,
    /// A transaction part is malformed.
    InvalidTransaction(String),
    /// A shielded proof was refused.
    SparkVerifyFailed,
    /// The operation has no implementation.
    NotImplemented(String),
}

/// The result of an operation that may be refused.
pub type Result<T> = core::result::Result<T, Error>;

/// Whether `e` is the cryptographic error with this text.
pub open spec fn is_crypto(e: Error, text: Seq<char>) -> bool {
    e matches Error::CryptoError(m) && m@ == text
}

/// The cryptographic error with this text.
pub fn crypto(text: &str) -> (e: Error)
    ensures
        is_crypto(e, text@),
{
    Error::CryptoError(text.to_owned())
}

/// Whether `e` is the state error with this text.
pub open spec fn is_state(e: Error, text: Seq<char>) -> bool {
    e matches Error::InvalidState(m) && m@ == text
}

/// The state error with this text.
pub fn state(text: &str) -> (e: Error)
    ensures
        is_state(e, text@),
{
    Error::InvalidState(text.to_owned())
}

/// Whether `e` is the parameter error with this text.
pub open spec fn is_params(e: Error, text: Seq<char>) -> bool {
    e matches Error::InvalidParams(m) && m@ == text
}

/// The parameter error with this text.
pub fn params(text: &str) -> (e: Error)
    ensures
        is_params(e, text@),
{
    Error::InvalidParams(text.to_owned())
}

/// Whether `e` is the public-key error with this text.
pub open spec fn is_public_key(e: Error, text: Seq<char>) -> bool {
    e matches Error::InvalidPublicKey(m) && m@ == text
}

/// The public-key error with this text.
pub fn public_key(text: &str) -> (e: Error)
    ensures
        is_public_key(e, text@),
{
    Error::InvalidPublicKey(text.to_owned())
}

/// Whether `e` is the signature error with this text.
pub open spec fn is_signature(e: Error, text: Seq<char>) -> bool {
    e matches Error::InvalidSignature(m) && m@ == text
}

/// The signature error with this text.
pub fn signature(text: &str) -> (e: Error)
    ensures
        is_signature(e, text@),
{
    Error::InvalidSignature(text.to_owned())
}

/// Whether `e` is the wire-format error with this text.
pub open spec fn is_serialization(e: Error, text: Seq<char>) -> bool {
    e matches Error::SerializationError(m) && m@ == text
}

/// The wire-format error with this text.
pub fn serialization(text: &str) -> (e: Error)
    ensures
        is_serialization(e, text@),
{
    Error::SerializationError(text.to_owned())
}

} // verus!
