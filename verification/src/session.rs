//! The OIDC session broker: the ephemeral per-login secrets and the
//! cookie that carries them across the redirect round trip.
//!
//! The cookie value is base64 of the canonical session JSON; decoding
//! accepts exactly what encoding writes. The cookie is the sole carrier:
//! nothing is kept server-side, so a lost cookie means retrying from the
//! start of the login flow.

use vstd::prelude::*;

use crate::encoding::b64_std;
use crate::encoding::b64_std_decode;
use crate::encoding::b64_std_encode;
use crate::gen::new_csrf_token;
use crate::gen::new_nonce;
use crate::gen::new_pkce_pair;
use crate::json::parse_session_json;
use crate::json::session_json;
use crate::json::session_to_json;
use crate::models::OidcSession;
use crate::models::OidcSessionView;

verus! {

/// The cookie value that carries a session.
pub open spec fn session_cookie_of(s: OidcSessionView) -> Seq<char> {
    b64_std(session_json(s))
}

/// Encode the ephemeral session for the login cookie.
pub fn encode_session_cookie(s: &OidcSession) -> (r: String)
    ensures
        r@ == session_cookie_of(s@),
{
    let json = session_to_json(s);
    b64_std_encode(json.as_slice())
}

/// Decode the login cookie; exactly what `encode_session_cookie` writes is
/// accepted, and decoding inverts it.
pub fn decode_session_cookie(value: &str) -> (r: Option<OidcSession>)
    ensures
        r matches Some(s) ==> value@ == session_cookie_of(s@),
        r matches Some(s) ==> forall|s0: OidcSessionView|
            value@ == session_cookie_of(s0) ==> s@ == s0,
        r is None ==> forall|s0: OidcSessionView| value@ != session_cookie_of(s0),
{
    let bytes = match b64_std_decode(value) {
        Some(v) => v,
        None => {
            return None;
        },
    };
    match parse_session_json(&bytes) {
        Some(s) => Some(s),
        None => None,
    }
}

/// Begin a login: draw the PKCE pair, CSRF token and nonce, and build the
/// cookie payload. Returns the session, the PKCE challenge for the
/// authorization URL, and the cookie value.
pub fn begin_login() -> (r: (OidcSession, String, String))
    ensures
        r.2@ == session_cookie_of(r.0@),
        r.0@.pkce_verifier.len() == 43,
        r.0@.csrf_token.len() == 22,
        r.0@.nonce.len() == 22,
        r.1@.len() == 43,
{
    let (challenge, verifier) = new_pkce_pair();
    let csrf = new_csrf_token();
    let nonce = new_nonce();
    let session = OidcSession { pkce_verifier: verifier, csrf_token: csrf, nonce };
    let cookie = encode_session_cookie(&session);
    (session, challenge, cookie)
}

} // verus!
