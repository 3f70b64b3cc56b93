//! Fixed lifetimes and bounds of the session model.

use vstd::prelude::*;

verus! {

/// Lifetime of the ephemeral login cookie, in seconds.
pub const OIDC_SESSION_EXPIRY_SECS: i64 = 300;

/// Lifetime of a signed access token, in seconds.
pub const JWT_ACCESS_TOKEN_EXPIRY_SECS: i64 = 900;

/// Lifetime of a refresh token, in seconds.
pub const REFRESH_TOKEN_EXPIRY_SECS: i64 = 604800;

/// Most unexpired refresh tokens a single user may hold at once.
pub const MAX_REFRESH_TOKENS_PER_USER: usize = 5;

/// Name of the cookie that carries the ephemeral login session.
pub const OIDC_SESSION_COOKIE_NAME: &'static str = "oidc_session";

/// Name of the cookie that carries the raw refresh secret.
pub const REFRESH_TOKEN_COOKIE_NAME: &'static str = "refresh_token";

} // verus!
