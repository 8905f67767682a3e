//! The error type of the library.
use vstd::prelude::*;

verus! {

/// An HTTP client error, carried through unchanged.
#[verifier::external_type_specification]
#[verifier::external_body]
pub struct ExReqwestError(reqwest::Error);

/// What a library call fails with.
#[derive(Debug)]
pub enum SerafortError {
    /// The token, the credentials or the token endpoint refused the request.
    Authentication(String),
    /// The token endpoint answered 429 or a server error. The number is room
    /// for a delay in seconds; the library reports none.
    RateLimit(Option<u64>),
    /// The request could not be sent or answered.
    Network(reqwest::Error),
    /// Anything else that went wrong inside the library.
    Internal(String),
}

} // verus!
