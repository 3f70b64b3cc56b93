//! The callback, refresh and logout flows end to end, and the
//! per-request authorization gates.

use auth_core::directory::{UserDirectory, UserUpdateInput};
use auth_core::errors::AppError;
use auth_core::jwt::encode_claims;
use auth_core::middleware::{
    authenticate, bearer_token, can_modify_directly, require_admin, require_editor_or_above,
    require_moderator_or_admin,
};
use auth_core::models::{Claims, RefreshTokenRequest};
use auth_core::pipeline::{
    begin_callback, check_access_token_hash, complete_callback, logout_user, mint_claims,
    refresh_session,
};
use auth_core::roles::Role;
use auth_core::session::begin_login;
use auth_core::store::RefreshTokenStore;
use auth_core::listing::{Pagination, PaginationParams};

const SECRET: &str = "server-secret";
const NOW: i64 = 1_700_000_000;

fn status(e: AppError) -> u16 {
    e.status_code()
}

#[test]
fn callback_accepts_exactly_the_stored_csrf_token() {
    let (sess, _challenge, cookie) = begin_login();
    let ok = begin_callback(Some(&cookie), &sess.csrf_token);
    let got = ok.expect("matching state passes");
    assert_eq!(got.pkce_verifier, sess.pkce_verifier);
    assert_eq!(got.nonce, sess.nonce);
}

#[test]
fn callback_refuses_any_byte_difference_in_state() {
    let (sess, _challenge, cookie) = begin_login();
    // one byte changed
    let mut wrong = sess.csrf_token.clone().into_bytes();
    wrong[0] = if wrong[0] == b'A' { b'B' } else { b'A' };
    let wrong = String::from_utf8(wrong).unwrap();
    let r = begin_callback(Some(&cookie), &wrong);
    assert_eq!(status(r.unwrap_err()), 400);
    // a prefix of the right token
    let prefix = &sess.csrf_token[..sess.csrf_token.len() - 1];
    let r = begin_callback(Some(&cookie), prefix);
    assert_eq!(status(r.unwrap_err()), 400);
    // the right token with one byte appended
    let longer = format!("{}A", sess.csrf_token);
    let r = begin_callback(Some(&cookie), &longer);
    assert_eq!(status(r.unwrap_err()), 400);
    // empty state
    let r = begin_callback(Some(&cookie), "");
    assert_eq!(status(r.unwrap_err()), 400);
}

#[test]
fn callback_refuses_missing_or_broken_cookie() {
    let r = begin_callback(None, "whatever");
    assert_eq!(status(r.unwrap_err()), 400);
    let garbage = "not-base64!".to_string();
    let r = begin_callback(Some(&garbage), "whatever");
    assert_eq!(status(r.unwrap_err()), 400);
}

#[test]
fn token_substitution_defense() {
    let actual = "the-hash".to_string();
    assert!(check_access_token_hash(None, &actual).is_ok());
    let same = "the-hash".to_string();
    assert!(check_access_token_hash(Some(&same), &actual).is_ok());
    let other = "the-hash2".to_string();
    let r = check_access_token_hash(Some(&other), &actual);
    assert_eq!(status(r.unwrap_err()), 401);
}

#[test]
fn first_login_creates_an_inactive_editor() {
    let mut dir = UserDirectory::new();
    let mut store = RefreshTokenStore::new();
    let r = complete_callback(
        &mut dir,
        &mut store,
        &"abc123".to_string(),
        Some("new@example.org".to_string()),
        Some("New Person".to_string()),
        SECRET,
        NOW,
    );
    // the account exists now, as an inactive editor, so no tokens come out
    assert_eq!(status(r.unwrap_err()), 403);
    let user = dir.get_user_by_oidc_sub(&"abc123".to_string()).expect("created");
    assert!(matches!(user.role, Role::Editor));
    assert!(!user.active);
    assert_eq!(user.email, "new@example.org");
    assert_eq!(store.records().len(), 0);
    // an admin-gated action with this user's claims is forbidden
    let claims = mint_claims(&user, NOW);
    assert_eq!(status(require_admin(&claims).unwrap_err()), 403);

    // once an administrator activates the account, the callback completes
    let patch = UserUpdateInput { role: None, active: Some(true) };
    dir.update_user(&user.id, &patch, NOW + 5).expect("known id");
    let r = complete_callback(
        &mut dir,
        &mut store,
        &"abc123".to_string(),
        Some("new@example.org".to_string()),
        None,
        SECRET,
        NOW + 10,
    );
    let resp = r.expect("active account gets tokens");
    assert_eq!(resp.token_type, "Bearer");
    assert_eq!(resp.expires_in, 900);
    assert!(resp.user.active);
    assert_eq!(store.count_live(&user.id, NOW + 10), 1);
    // and the refresh secret it returned is immediately usable
    let body = RefreshTokenRequest { refresh_token: resp.refresh_token.clone() };
    let t = refresh_session(&mut store, &dir, Some(&body), None, SECRET, NOW + 20)
        .expect("live secret refreshes");
    assert_eq!(t.token_type, "Bearer");
    assert_eq!(t.expires_in, 900);
}

#[test]
fn callback_requires_an_email() {
    let mut dir = UserDirectory::new();
    let mut store = RefreshTokenStore::new();
    let r = complete_callback(
        &mut dir,
        &mut store,
        &"abc123".to_string(),
        None,
        None,
        SECRET,
        NOW,
    );
    assert_eq!(status(r.unwrap_err()), 400);
    assert!(dir.get_user_by_oidc_sub(&"abc123".to_string()).is_none());
}

fn active_user(dir: &mut UserDirectory, sub: &str, now: i64) -> auth_core::models::User {
    let created = dir.create_user(
        &sub.to_string(),
        &"a@example.org".to_string(),
        None,
        Role::Editor,
        now,
    );
    let patch = UserUpdateInput { role: None, active: Some(true) };
    dir.update_user(&created.id, &patch, now).expect("just created")
}

#[test]
fn refresh_refuses_unknown_expired_and_revoked_secrets() {
    let mut dir = UserDirectory::new();
    let mut store = RefreshTokenStore::new();
    let user = active_user(&mut dir, "sub-1", NOW);

    // nothing presented
    let r = refresh_session(&mut store, &dir, None, None, SECRET, NOW);
    assert_eq!(status(r.unwrap_err()), 401);

    // unknown secret
    let body = RefreshTokenRequest { refresh_token: "never-issued".to_string() };
    let r = refresh_session(&mut store, &dir, Some(&body), None, SECRET, NOW);
    assert_eq!(status(r.unwrap_err()), 401);

    // expired secret
    store.create_refresh_token(&user.id, &"old-secret".to_string(), 0);
    let body = RefreshTokenRequest { refresh_token: "old-secret".to_string() };
    let r = refresh_session(
        &mut store,
        &dir,
        Some(&body),
        None,
        SECRET,
        auth_core::constants::REFRESH_TOKEN_EXPIRY_SECS + 1,
    );
    assert_eq!(status(r.unwrap_err()), 401);

    // revoked secret
    store.create_refresh_token(&user.id, &"revoked-secret".to_string(), NOW);
    let claims = mint_claims(&user, NOW);
    logout_user(&mut store, Some(&claims));
    let body = RefreshTokenRequest { refresh_token: "revoked-secret".to_string() };
    let r = refresh_session(&mut store, &dir, Some(&body), None, SECRET, NOW);
    assert_eq!(status(r.unwrap_err()), 401);
}

#[test]
fn refresh_forbids_an_inactive_account() {
    let mut dir = UserDirectory::new();
    let mut store = RefreshTokenStore::new();
    let user = dir.create_user(
        &"sub-2".to_string(),
        &"b@example.org".to_string(),
        None,
        Role::Editor,
        NOW,
    );
    assert!(!user.active);
    store.create_refresh_token(&user.id, &"valid-but-useless".to_string(), NOW);
    let body = RefreshTokenRequest { refresh_token: "valid-but-useless".to_string() };
    let r = refresh_session(&mut store, &dir, Some(&body), None, SECRET, NOW + 1);
    assert_eq!(status(r.unwrap_err()), 403);
    // the record itself was structurally valid and unexpired
    let hash = auth_core::crypto::hash_token("valid-but-useless");
    assert!(store.lookup_by_hash(&hash, NOW + 1).is_some());
}

#[test]
fn refresh_takes_the_cookie_when_the_body_is_empty() {
    let mut dir = UserDirectory::new();
    let mut store = RefreshTokenStore::new();
    let user = active_user(&mut dir, "sub-3", NOW);
    store.create_refresh_token(&user.id, &"cookie-secret".to_string(), NOW);
    let cookie = "cookie-secret".to_string();
    let t = refresh_session(&mut store, &dir, None, Some(&cookie), SECRET, NOW + 1)
        .expect("cookie fallback works");
    assert_eq!(t.expires_in, 900);
    // the record was stamped, not rotated
    let hash = auth_core::crypto::hash_token("cookie-secret");
    let rec = store.lookup_by_hash(&hash, NOW + 2).expect("still there");
    assert_eq!(rec.last_used_at, Some(NOW + 1));
}

#[test]
fn logout_empties_the_callers_records_and_repeats_quietly() {
    let mut dir = UserDirectory::new();
    let mut store = RefreshTokenStore::new();
    let user = active_user(&mut dir, "sub-4", NOW);
    for k in 0..3i64 {
        store.create_refresh_token(&user.id, &format!("live-{}", k), NOW + k);
    }
    assert_eq!(store.count_live(&user.id, NOW + 3), 3);
    let claims = mint_claims(&user, NOW);
    logout_user(&mut store, Some(&claims));
    assert_eq!(store.count_live(&user.id, NOW + 3), 0);
    // a second logout changes nothing and raises nothing
    logout_user(&mut store, Some(&claims));
    assert_eq!(store.count_live(&user.id, NOW + 3), 0);
    // logout without claims leaves the store alone
    logout_user(&mut store, None);
}

#[test]
fn authenticate_round_trip_and_failures() {
    let claims = Claims {
        sub: "s".to_string(),
        user_id: "u".to_string(),
        email: "e@example.org".to_string(),
        role: Role::Admin,
        exp: NOW + 900,
        iat: NOW,
    };
    let token = encode_claims(&claims, SECRET);
    let header = format!("Bearer {}", token);
    let got = authenticate(Some(&header), SECRET, NOW).expect("verifies");
    assert_eq!(got, claims);

    assert_eq!(status(authenticate(None, SECRET, NOW).unwrap_err()), 401);
    let bad = format!("Token {}", token);
    assert_eq!(status(authenticate(Some(&bad), SECRET, NOW).unwrap_err()), 401);
    let wrong = format!("Bearer {}", encode_claims(&claims, "other-secret"));
    assert_eq!(status(authenticate(Some(&wrong), SECRET, NOW).unwrap_err()), 401);
    assert_eq!(status(authenticate(Some(&header), SECRET, NOW + 10_000).unwrap_err()), 401);
}

#[test]
fn bearer_extraction() {
    assert_eq!(bearer_token("Bearer abc.def.ghi"), Some("abc.def.ghi"));
    assert_eq!(bearer_token("Bearer "), Some(""));
    assert_eq!(bearer_token("bearer abc"), None);
    assert_eq!(bearer_token("Basic abc"), None);
    assert_eq!(bearer_token(""), None);
}

#[test]
fn role_gates() {
    let mk = |role: Role| Claims {
        sub: "s".to_string(),
        user_id: "u".to_string(),
        email: "e@example.org".to_string(),
        role,
        exp: NOW + 900,
        iat: NOW,
    };
    let admin = mk(Role::Admin);
    let moderator = mk(Role::Moderator);
    let editor = mk(Role::Editor);

    assert!(require_admin(&admin).is_ok());
    assert_eq!(status(require_admin(&moderator).unwrap_err()), 403);
    assert_eq!(status(require_admin(&editor).unwrap_err()), 403);

    assert!(require_moderator_or_admin(&admin).is_ok());
    assert!(require_moderator_or_admin(&moderator).is_ok());
    assert_eq!(status(require_moderator_or_admin(&editor).unwrap_err()), 403);

    assert!(require_editor_or_above(&admin).is_ok());
    assert!(require_editor_or_above(&editor).is_ok());

    assert!(can_modify_directly(&admin));
    assert!(can_modify_directly(&moderator));
    assert!(!can_modify_directly(&editor));

    assert!(admin.can_manage_roles());
    assert!(!moderator.can_manage_roles());
    assert!(!editor.can_manage_roles());
}

#[test]
fn error_taxonomy_maps_to_statuses() {
    assert_eq!(AppError::NotFound("x".to_string()).status_code(), 404);
    assert_eq!(AppError::Unauthorized("x".to_string()).status_code(), 401);
    assert_eq!(AppError::Forbidden("x".to_string()).status_code(), 403);
    assert_eq!(AppError::BadRequest("x".to_string()).status_code(), 400);
    assert_eq!(AppError::ValidationError("x".to_string()).status_code(), 400);
    assert_eq!(AppError::Conflict("x".to_string()).status_code(), 409);
    assert_eq!(AppError::InternalError("x".to_string()).status_code(), 500);
    assert_eq!(AppError::Unauthorized("why".to_string()).error_label(), "Unauthorized");
    assert_eq!(AppError::Unauthorized("why".to_string()).client_message(), "why");
    // internal detail stays server-side
    assert_eq!(
        AppError::InternalError("secret detail".to_string()).client_message(),
        "An unexpected error occurred"
    );
}

#[test]
fn pagination_rules() {
    let p = Pagination::new(2, 20, 41);
    assert_eq!(p.total_pages, 3);
    assert_eq!(Pagination::new(1, 20, 40).total_pages, 2);
    assert_eq!(Pagination::new(1, 20, 0).total_pages, 0);

    assert!(PaginationParams { page: 1, page_size: 20 }.validate().is_ok());
    assert!(PaginationParams { page: 1, page_size: 100 }.validate().is_ok());
    let e = PaginationParams { page: 0, page_size: 20 }.validate().unwrap_err();
    assert_eq!(e, "Page must be at least 1");
    let e = PaginationParams { page: 1, page_size: 0 }.validate().unwrap_err();
    assert_eq!(e, "Page size must be between 1 and 100");
    let e = PaginationParams { page: 1, page_size: 101 }.validate().unwrap_err();
    assert_eq!(e, "Page size must be between 1 and 100");
}

#[test]
fn resolver_stamps_last_login_on_return_visits() {
    let mut dir = UserDirectory::new();
    let first = dir.resolve_or_create(
        &"sub-5".to_string(),
        &"c@example.org".to_string(),
        None,
        NOW,
    );
    assert_eq!(first.last_login, None);
    let again = dir.resolve_or_create(
        &"sub-5".to_string(),
        &"other@example.org".to_string(),
        None,
        NOW + 100,
    );
    // the same account comes back, keyed by subject alone
    assert_eq!(again.id, first.id);
    assert_eq!(again.email, "c@example.org");
    // and the stored row now carries the login stamp
    let stored = dir.get_user(&first.id).expect("known");
    assert_eq!(stored.last_login, Some(NOW + 100));
}

#[test]
fn refresh_against_the_wall_clock() {
    let mut dir = UserDirectory::new();
    let mut store = RefreshTokenStore::new();
    let now = chrono::Utc::now().timestamp();
    let user = active_user(&mut dir, "sub-6", now);
    store.create_refresh_token(&user.id, &"wall-clock-secret".to_string(), now);
    let body = RefreshTokenRequest { refresh_token: "wall-clock-secret".to_string() };
    let t = auth_core::pipeline::refresh_session_now(&mut store, &dir, Some(&body), None, SECRET)
        .expect("fresh record refreshes");
    assert_eq!(t.token_type, "Bearer");
    // the minted token passes the middleware right away
    let header = format!("Bearer {}", t.access_token);
    let claims = authenticate(Some(&header), SECRET, chrono::Utc::now().timestamp())
        .expect("just minted");
    assert_eq!(claims.user_id, user.id);
}

#[test]
fn reaper_runs_against_the_wall_clock() {
    let mut store = RefreshTokenStore::new();
    store.create_refresh_token(&"u".to_string(), &"ancient".to_string(), 0);
    let now = chrono::Utc::now().timestamp();
    store.create_refresh_token(&"u".to_string(), &"current".to_string(), now);
    let reaped = auth_core::pipeline::reap_expired_now(&mut store);
    assert_eq!(reaped, 1);
    assert_eq!(store.records().len(), 1);
}

#[test]
fn update_user_refuses_an_unknown_id() {
    let mut dir = UserDirectory::new();
    let patch = UserUpdateInput { role: Some(Role::Admin), active: Some(true) };
    let r = dir.update_user(&"nobody".to_string(), &patch, NOW);
    assert_eq!(status(r.unwrap_err()), 404);
}

#[test]
fn update_user_patches_role_and_active() {
    let mut dir = UserDirectory::new();
    let u = dir.create_user(
        &"sub-7".to_string(),
        &"d@example.org".to_string(),
        None,
        Role::Editor,
        NOW,
    );
    let patch = UserUpdateInput { role: Some(Role::Moderator), active: Some(true) };
    let after = dir.update_user(&u.id, &patch, NOW + 1).expect("known id");
    assert!(matches!(after.role, Role::Moderator));
    assert!(after.active);
    assert_eq!(after.updated_at, NOW + 1);
    // an absent field keeps the stored value
    let patch = UserUpdateInput { role: None, active: None };
    let same = dir.update_user(&u.id, &patch, NOW + 2).expect("known id");
    assert!(matches!(same.role, Role::Moderator));
    assert!(same.active);
}
