//! Fresh values the core draws from outside: identifiers, per-login
//! secrets and the clock. Nothing can be promised of their values, so
//! every function that consumes one takes it as an argument and is
//! verified for all values.

use vstd::prelude::*;

verus! {

/// Relies on cuid2::create_id: a fresh random identifier. Nothing is
/// promised of its value beyond being nonempty.
#[verifier::external_body]
pub(crate) fn new_record_id() -> (r: String)
    ensures
        r@.len() >= 1,
{
    cuid2::create_id()
}

/// Relies on chrono's Utc::now: the wall clock, as unix seconds. Nothing
/// is promised of the value.
#[verifier::external_body]
pub(crate) fn current_unix_time() -> i64 {
    chrono::Utc::now().timestamp()
}

/// Relies on openidconnect's CsrfToken::new_random: 16 random bytes as
/// unpadded base64url, 22 characters.
#[verifier::external_body]
pub(crate) fn new_csrf_token() -> (r: String)
    ensures
        r@.len() == 22,
{
    openidconnect::CsrfToken::new_random().secret().clone()
}

/// Relies on openidconnect's Nonce::new_random: 16 random bytes as
/// unpadded base64url, 22 characters.
#[verifier::external_body]
pub(crate) fn new_nonce() -> (r: String)
    ensures
        r@.len() == 22,
{
    openidconnect::Nonce::new_random().secret().clone()
}

/// Relies on openidconnect's PkceCodeChallenge::new_random_sha256: a
/// random 32-byte verifier and its S256 challenge, each 43 characters of
/// unpadded base64url. Returns (challenge, verifier).
#[verifier::external_body]
pub(crate) fn new_pkce_pair() -> (r: (String, String))
    ensures
        r.0@.len() == 43,
        r.1@.len() == 43,
{
    let (challenge, verifier) = openidconnect::PkceCodeChallenge::new_random_sha256();
    (challenge.as_str().to_string(), verifier.secret().clone())
}

} // verus!
