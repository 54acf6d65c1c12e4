//! The error taxonomy surfaced to callers. Authentication failures are a
//! distinct variant so a user interface can prompt for new credentials
//! instead of retrying blindly.

use vstd::prelude::*;

verus! {

/// A terminal failure of one fetch or completion call.
#[derive(Debug)]
pub enum FetchError {
    /// Connection or transport failure.
    Network(String),
    /// Credential rejection, distinguished from transport trouble.
    Authentication(String),
    /// An unexpected server response, with its status and body.
    Protocol { status: u16, body: String },
    /// A malformed response body.
    Parse(String),
    /// Rate limiting that survived the bounded retry budget.
    RateLimited { status: u16, body: String },
    /// A technically successful call with no usable content.
    EmptyResult,
}

impl FetchError {
    /// True exactly for the credential-rejection variant, the one a UI
    /// reacts to by prompting for re-authentication.
    pub fn is_authentication(&self) -> (r: bool)
        ensures
            r == (self is Authentication),
    {
        match self {
            FetchError::Authentication(_) => true,
            _ => false,
        }
    }
}

} // verus!
