//! The callback/verification pipeline and the refresh and logout flows:
//! every decision of the authenticated session lifecycle, as functions of
//! plain values. The network calls around them - code exchange, ID-token
//! verification, userinfo - stay with the caller, which feeds their
//! results in; each step here is a hard gate, and the first failure
//! answers with one terminal error.

use vstd::prelude::*;

use crate::constants::JWT_ACCESS_TOKEN_EXPIRY_SECS;
use crate::constants::MAX_REFRESH_TOKENS_PER_USER;
use crate::constants::REFRESH_TOKEN_EXPIRY_SECS;
use crate::crypto::constant_time_compare;
use crate::crypto::hash_token;
use crate::crypto::sha256_hex;
use crate::directory::UserDirectory;
use crate::errors::AppError;
use crate::gen::current_unix_time;
use crate::gen::new_record_id;
use crate::jwt::encode_claims;
use crate::jwt::jwt_token;
use crate::models::AuthResponse;
use crate::models::Claims;
use crate::models::ClaimsView;
use crate::models::OidcSession;
use crate::models::OidcSessionView;
use crate::models::RefreshTokenRequest;
use crate::models::RefreshTokenView;
use crate::models::TokenResponse;
use crate::models::User;
use crate::models::UserView;
use crate::roles::Role;
use crate::session::decode_session_cookie;
use crate::session::session_cookie_of;
use crate::store::live_for;
use crate::store::RefreshTokenStore;

verus! {

use vstd::utf8::encode_utf8;

/// The claims the issuer mints for `u` at `now`.
pub open spec fn minted_claims(u: UserView, now: int) -> ClaimsView {
    ClaimsView {
        sub: u.oidc_sub,
        user_id: u.id,
        email: u.email,
        role: u.role,
        exp: now + JWT_ACCESS_TOKEN_EXPIRY_SECS,
        iat: now,
    }
}

/// The token issuer: pure and deterministic given its inputs.
pub fn mint_claims(user: &User, now: i64) -> (r: Claims)
    requires
        now <= i64::MAX - JWT_ACCESS_TOKEN_EXPIRY_SECS,
    ensures
        r@ == minted_claims(user@, now as int),
{
    Claims {
        sub: user.oidc_sub.clone(),
        user_id: user.id.clone(),
        email: user.email.clone(),
        role: user.role,
        exp: now + JWT_ACCESS_TOKEN_EXPIRY_SECS,
        iat: now,
    }
}

/// The first two gates of the callback: recover the session from the
/// cookie, then hold the state parameter against the stored CSRF token in
/// constant time. The callback proceeds exactly when the cookie decodes
/// and the state matches byte for byte - any difference, length included,
/// stops the flow.
pub fn begin_callback(cookie_value: Option<&String>, state: &str) -> (r: Result<
    OidcSession,
    AppError,
>)
    ensures
        r matches Ok(s) ==> cookie_value matches Some(cv) && cv@ == session_cookie_of(s@)
            && state@ == s@.csrf_token,
        r matches Err(e) ==> e is BadRequest,
        forall|s0: OidcSessionView|
            (cookie_value matches Some(cv) && cv@ == #[trigger] session_cookie_of(s0) && state@
                == s0.csrf_token) ==> (r matches Ok(s) && s@ == s0),
{
    let cv = match cookie_value {
        Some(c) => c,
        None => {
            return Err(
                AppError::BadRequest(
                    String::from_str("OIDC session not found. Please try logging in again."),
                ),
            );
        },
    };
    let sess = match decode_session_cookie(cv.as_str()) {
        Some(s) => s,
        None => {
            return Err(AppError::BadRequest(String::from_str("Invalid session data")));
        },
    };
    if !constant_time_compare(state, sess.csrf_token.as_str()) {
        return Err(AppError::BadRequest(String::from_str("Invalid state parameter")));
    }
    Ok(sess)
}

/// The token-substitution defense: when the ID token exposes an
/// access-token hash, the hash recomputed from the issued access token
/// must match it exactly, compared in constant time. An absent claim is
/// not an error.
pub fn check_access_token_hash(expected: Option<&String>, actual: &String) -> (r: Result<
    (),
    AppError,
>)
    ensures
        r is Ok <==> (expected is None || (expected matches Some(e) && e@ == actual@)),
        r matches Err(e) ==> e is Unauthorized,
{
    match expected {
        None => Ok(()),
        Some(e) => {
            if constant_time_compare(e.as_str(), actual.as_str()) {
                Ok(())
            } else {
                Err(AppError::Unauthorized(String::from_str("Invalid access token")))
            }
        },
    }
}

/// The tail of the callback, once the provider's answers are in: require
/// an email, resolve or create the local account, enforce that it is
/// active, mint the access token and persist a fresh refresh secret.
#[verifier::rlimit(100)]
#[verifier::spinoff_prover]
pub fn complete_callback(
    dir: &mut UserDirectory,
    store: &mut RefreshTokenStore,
    subject: &String,
    email: Option<String>,
    name: Option<String>,
    secret: &str,
    now: i64,
) -> (r: Result<AuthResponse, AppError>)
    requires
        now <= i64::MAX - REFRESH_TOKEN_EXPIRY_SECS,
    ensures
        email is None ==> ({
            &&& r matches Err(e) && e is BadRequest
            &&& final(dir)@ == old(dir)@
            &&& final(store)@ == old(store)@
        }),
        r matches Err(e) ==> e is BadRequest || e is Forbidden,
        (r matches Err(e) && e is Forbidden) ==> final(store)@ == old(store)@,
        (email is Some && (forall|i: int|
            0 <= i < old(dir)@.len() ==> (#[trigger] old(dir)@[i]).oidc_sub != subject@)) ==> {
            &&& r matches Err(e) && e is Forbidden
            &&& final(dir)@.len() == old(dir)@.len() + 1
            &&& final(dir)@.last().oidc_sub == subject@
            &&& final(dir)@.last().role == Role::Editor
            &&& !final(dir)@.last().active
            &&& final(store)@ == old(store)@
        },
        (email is Some && (exists|i: int|
            {
                &&& 0 <= i < old(dir)@.len()
                &&& (#[trigger] old(dir)@[i]).oidc_sub == subject@
                &&& old(dir)@[i].active
                &&& forall|j: int| 0 <= j < i ==> (#[trigger] old(dir)@[j]).oidc_sub != subject@
            })) ==> (r is Ok),
        r matches Ok(resp) ==> {
            &&& resp.user.active
            &&& resp.user@.oidc_sub == subject@
            &&& resp.token_type@ == "Bearer"@
            &&& resp.expires_in == JWT_ACCESS_TOKEN_EXPIRY_SECS
            &&& resp.access_token@ == jwt_token(
                minted_claims(resp.user@, now as int),
                encode_utf8(secret@),
            )
            &&& final(store)@.len() >= 1
            &&& final(store)@.last().user == resp.user@.id
            &&& final(store)@.last().token_hash == sha256_hex(resp.refresh_token@)
            &&& final(store)@.last().created_at == now as int
            &&& final(store)@.last().expires_at == now + REFRESH_TOKEN_EXPIRY_SECS
            &&& live_for(final(store)@, resp.user@.id, now as int).len()
                <= MAX_REFRESH_TOKENS_PER_USER as int
        },
{
    let em = match email {
        Some(e) => e,
        None => {
            return Err(
                AppError::BadRequest(String::from_str("Email not provided by OIDC provider")),
            );
        },
    };
    let user = dir.resolve_or_create(subject, &em, name, now);
    if !user.active {
        return Err(AppError::Forbidden(String::from_str("User account is inactive")));
    }
    let claims = mint_claims(&user, now);
    let token = encode_claims(&claims, secret);
    let refresh_secret = new_record_id();
    let _rec = store.create_refresh_token(&user.id, &refresh_secret, now);
    let resp = AuthResponse {
        access_token: token,
        refresh_token: refresh_secret,
        expires_in: JWT_ACCESS_TOKEN_EXPIRY_SECS,
        token_type: String::from_str("Bearer"),
        user,
    };
    Ok(resp)
}

/// The refresh secret a request presents: the body wins, the cookie is
/// the fallback.
pub open spec fn presented_secret(
    body: Option<&RefreshTokenRequest>,
    cookie: Option<&String>,
) -> Option<Seq<char>> {
    match body {
        Some(b) => Some(b.refresh_token@),
        None => match cookie {
            Some(c) => Some(c@),
            None => None,
        },
    }
}

/// The first stored record that is live at `now` and carries this digest.
pub open spec fn first_live_match(
    s: Seq<RefreshTokenView>,
    hash: Seq<char>,
    now: int,
    rec: RefreshTokenView,
) -> bool {
    exists|i: int|
        {
            &&& 0 <= i < s.len()
            &&& #[trigger] s[i] == rec
            &&& rec.token_hash == hash
            &&& rec.live_at(now)
            &&& forall|j: int|
                0 <= j < i ==> !(#[trigger] s[j].token_hash == hash && s[j].live_at(now))
        }
}

/// The first account with this id.
pub open spec fn first_with_id(d: Seq<UserView>, id: Seq<char>, u: UserView) -> bool {
    exists|i: int|
        {
            &&& 0 <= i < d.len()
            &&& #[trigger] d[i] == u
            &&& u.id == id
            &&& forall|j: int| 0 <= j < i ==> (#[trigger] d[j]).id != id
        }
}

/// Exchange a live refresh record for a fresh access token. An unknown,
/// expired or revoked secret is refused without saying which it was; an
/// inactive account is forbidden; on success the record's `last_used_at`
/// is stamped and nothing else about it moves - refresh does not rotate
/// the secret.
#[verifier::rlimit(100)]
#[verifier::spinoff_prover]
pub fn refresh_session(
    store: &mut RefreshTokenStore,
    dir: &UserDirectory,
    body: Option<&RefreshTokenRequest>,
    cookie: Option<&String>,
    secret: &str,
    now: i64,
) -> (r: Result<TokenResponse, AppError>)
    requires
        now <= i64::MAX - JWT_ACCESS_TOKEN_EXPIRY_SECS,
    ensures
        presented_secret(body, cookie) is None ==> (r matches Err(e) && e is Unauthorized),
        r is Err ==> final(store)@ == old(store)@,
        r matches Err(e) ==> e is Unauthorized || e is Forbidden || e is NotFound,
        forall|tok: Seq<char>|
            (#[trigger] presented_secret(body, cookie) == Some(tok) && (forall|i: int|
                0 <= i < old(store)@.len() ==> !((#[trigger] old(store)@[i]).token_hash
                    == sha256_hex(tok) && old(store)@[i].live_at(now as int)))) ==> (r matches Err(
                e,
            ) && e is Unauthorized),
        r matches Ok(t) ==> t.token_type@ == "Bearer"@ && t.expires_in
            == JWT_ACCESS_TOKEN_EXPIRY_SECS,
        r matches Ok(t) ==> exists|tok: Seq<char>, rec: RefreshTokenView, u: UserView|
            {
                &&& presented_secret(body, cookie) == Some(tok)
                &&& #[trigger] first_live_match(old(store)@, sha256_hex(tok), now as int, rec)
                &&& #[trigger] first_with_id(dir@, rec.user, u)
                &&& u.active
                &&& t.access_token@ == jwt_token(
                    minted_claims(u, now as int),
                    encode_utf8(secret@),
                )
            },
        forall|tok: Seq<char>, rec: RefreshTokenView, u: UserView|
            (presented_secret(body, cookie) == Some(tok) && #[trigger] first_live_match(
                old(store)@,
                sha256_hex(tok),
                now as int,
                rec,
            ) && #[trigger] first_with_id(dir@, rec.user, u) && !u.active) ==> (r matches Err(e)
                && e is Forbidden),
        forall|tok: Seq<char>, rec: RefreshTokenView, u: UserView|
            (presented_secret(body, cookie) == Some(tok) && #[trigger] first_live_match(
                old(store)@,
                sha256_hex(tok),
                now as int,
                rec,
            ) && #[trigger] first_with_id(dir@, rec.user, u) && u.active) ==> (r is Ok),
        final(store)@.len() == old(store)@.len(),
        forall|i: int|
            0 <= i < old(store)@.len() ==> ({
                ||| #[trigger] final(store)@[i] == old(store)@[i]
                ||| final(store)@[i] == (RefreshTokenView {
                    last_used_at: Some(now as int),
                    ..old(store)@[i]
                })
            }),
{
    let raw: &String = match body {
        Some(b) => &b.refresh_token,
        None => match cookie {
            Some(c) => c,
            None => {
                return Err(AppError::Unauthorized(String::from_str("Missing refresh token")));
            },
        },
    };
    let hash = hash_token(raw.as_str());
    let rec = match store.lookup_by_hash(&hash, now) {
        Some(rc) => rc,
        None => {
            return Err(
                AppError::Unauthorized(String::from_str("Invalid or expired refresh token")),
            );
        },
    };
    proof {
        assert(first_live_match(store@, sha256_hex(raw@), now as int, rec@));
    }
    let user = match dir.get_user(&rec.user) {
        Ok(u) => u,
        Err(e) => {
            return Err(e);
        },
    };
    proof {
        assert(first_with_id(dir@, rec@.user, user@));
        lemma_first_live_match_unique(store@, sha256_hex(raw@), now as int);
        lemma_first_with_id_unique(dir@);
    }
    if !user.active {
        return Err(AppError::Forbidden(String::from_str("User account is inactive")));
    }
    store.update_last_used(&rec.id, now);
    let claims = mint_claims(&user, now);
    let token = encode_claims(&claims, secret);
    proof {
        lemma_first_live_match_unique(old(store)@, sha256_hex(raw@), now as int);
        lemma_first_with_id_unique(dir@);
    }
    Ok(
        TokenResponse {
            access_token: token,
            expires_in: JWT_ACCESS_TOKEN_EXPIRY_SECS,
            token_type: String::from_str("Bearer"),
        },
    )
}

/// There is at most one first live match.
proof fn lemma_first_live_match_unique(s: Seq<RefreshTokenView>, hash: Seq<char>, now: int)
    ensures
        forall|r1: RefreshTokenView, r2: RefreshTokenView|
            #[trigger] first_live_match(s, hash, now, r1) && #[trigger] first_live_match(
                s,
                hash,
                now,
                r2,
            ) ==> r1 == r2,
{
    assert forall|r1: RefreshTokenView, r2: RefreshTokenView|
        #[trigger] first_live_match(s, hash, now, r1) && #[trigger] first_live_match(
            s,
            hash,
            now,
            r2,
        ) implies r1 == r2 by {
        let i1 = choose|i: int|
            {
                &&& 0 <= i < s.len()
                &&& #[trigger] s[i] == r1
                &&& r1.token_hash == hash
                &&& r1.live_at(now)
                &&& forall|j: int|
                    0 <= j < i ==> !(#[trigger] s[j].token_hash == hash && s[j].live_at(now))
            };
        let i2 = choose|i: int|
            {
                &&& 0 <= i < s.len()
                &&& #[trigger] s[i] == r2
                &&& r2.token_hash == hash
                &&& r2.live_at(now)
                &&& forall|j: int|
                    0 <= j < i ==> !(#[trigger] s[j].token_hash == hash && s[j].live_at(now))
            };
        if i1 < i2 {
            assert(!(s[i1].token_hash == hash && s[i1].live_at(now)));
        }
        if i2 < i1 {
            assert(!(s[i2].token_hash == hash && s[i2].live_at(now)));
        }
    }
}

/// There is at most one first account per id.
proof fn lemma_first_with_id_unique(d: Seq<UserView>)
    ensures
        forall|id: Seq<char>, u1: UserView, u2: UserView|
            #[trigger] first_with_id(d, id, u1) && #[trigger] first_with_id(d, id, u2) ==> u1
                == u2,
{
    assert forall|id: Seq<char>, u1: UserView, u2: UserView|
        #[trigger] first_with_id(d, id, u1) && #[trigger] first_with_id(d, id, u2) implies u1
        == u2 by {
        let i1 = choose|i: int|
            {
                &&& 0 <= i < d.len()
                &&& #[trigger] d[i] == u1
                &&& u1.id == id
                &&& forall|j: int| 0 <= j < i ==> (#[trigger] d[j]).id != id
            };
        let i2 = choose|i: int|
            {
                &&& 0 <= i < d.len()
                &&& #[trigger] d[i] == u2
                &&& u2.id == id
                &&& forall|j: int| 0 <= j < i ==> (#[trigger] d[j]).id != id
            };
        if i1 < i2 {
            assert(d[i1].id != id);
        }
        if i2 < i1 {
            assert(d[i2].id != id);
        }
    }
}

/// The refresh flow against the wall clock. Whatever instant the clock
/// answered: a failure moves nothing, and a success changes no record's
/// identity, digest or expiry.
pub fn refresh_session_now(
    store: &mut RefreshTokenStore,
    dir: &UserDirectory,
    body: Option<&RefreshTokenRequest>,
    cookie: Option<&String>,
    secret: &str,
) -> (r: Result<TokenResponse, AppError>)
    ensures
        r is Err ==> final(store)@ == old(store)@,
        r matches Ok(t) ==> t.token_type@ == "Bearer"@ && t.expires_in
            == JWT_ACCESS_TOKEN_EXPIRY_SECS,
        final(store)@.len() == old(store)@.len(),
        forall|i: int|
            0 <= i < old(store)@.len() ==> {
                &&& (#[trigger] final(store)@[i]).id == old(store)@[i].id
                &&& final(store)@[i].user == old(store)@[i].user
                &&& final(store)@[i].token_hash == old(store)@[i].token_hash
                &&& final(store)@[i].expires_at == old(store)@[i].expires_at
                &&& final(store)@[i].created_at == old(store)@[i].created_at
            },
{
    let now = current_unix_time();
    if now > i64::MAX - JWT_ACCESS_TOKEN_EXPIRY_SECS {
        return Err(AppError::InternalError(String::from_str("clock out of range")));
    }
    refresh_session(store, dir, body, cookie, secret, now)
}

/// Logout: revoke every refresh record of the caller, when the request
/// carried verified claims; the answer is success either way.
pub fn logout_user(store: &mut RefreshTokenStore, claims: Option<&Claims>)
    ensures
        claims matches Some(c) ==> final(store)@ == old(store)@.filter(
            (|r: RefreshTokenView| r.user != c.user_id@),
        ),
        claims matches Some(c) ==> forall|i: int|
            0 <= i < final(store)@.len() ==> (#[trigger] final(store)@[i]).user != c.user_id@,
        claims is None ==> final(store)@ == old(store)@,
{
    match claims {
        Some(c) => {
            store.revoke_all_user_tokens(&c.user_id);
            proof {
                broadcast use vstd::seq_lib::group_filter_ensures;

            }
        },
        None => {},
    }
}

/// The hourly reaper's action against the wall clock. Whatever instant
/// the clock answered, it only removes records, and says how many went.
pub fn reap_expired_now(store: &mut RefreshTokenStore) -> (count: usize)
    ensures
        final(store)@.len() <= old(store)@.len(),
        count == old(store)@.len() - final(store)@.len(),
{
    let now = current_unix_time();
    let count = store.reap_expired(now);
    proof {
        old(store)@.lemma_filter_len((|r: RefreshTokenView| r.live_at(now as int)));
    }
    count
}

} // verus!
