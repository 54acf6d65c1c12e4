//! Authentication helpers for the IMAP session: the SASL PLAIN initial
//! response, and the distinguished error raised when both PLAIN and the
//! LOGIN fallback are rejected.

use vstd::prelude::*;

verus! {

use crate::error::FetchError;
use crate::strutil::{concat_strs, push_range};
use vstd::string::StringSliceAdditionalSpecFns;

/// The SASL PLAIN initial response `\0user\0password`, as bytes.
pub fn plain_auth_response(username: &str, password: &str) -> (r: Vec<u8>)
    ensures
        r@ == seq![0u8] + username.spec_bytes() + seq![0u8] + password.spec_bytes(),
{
    let mut v: Vec<u8> = Vec::new();
    v.push(0);
    let ub = username.as_bytes();
    let un = ub.len();
    push_range(&mut v, ub, 0, un);
    v.push(0);
    let pb = password.as_bytes();
    let pn = pb.len();
    push_range(&mut v, pb, 0, pn);
    proof {
        assert(ub@.subrange(0, un as int) =~= ub@);
        assert(pb@.subrange(0, pn as int) =~= pb@);
        assert(v@ =~= seq![0u8] + username.spec_bytes() + seq![0u8] + password.spec_bytes());
    }
    v
}

/// The distinguished credential-rejection error raised when the PLAIN
/// attempt failed and the LOGIN fallback failed too; it carries the original
/// PLAIN failure detail.
pub fn auth_failed_error(plain_error: &str) -> (r: FetchError)
    ensures
        r matches FetchError::Authentication(m) && m@ == "AUTH_FAILED: "@ + plain_error@,
{
    FetchError::Authentication(concat_strs("AUTH_FAILED: ", plain_error))
}

} // verus!
