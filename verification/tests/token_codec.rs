//! The access-token and session-cookie codecs, held against their
//! round-trip contracts and against the outside crates they rely on.

use auth_core::jwt::{decode_token, encode_claims};
use auth_core::models::{Claims, OidcSession};
use auth_core::roles::Role;
use auth_core::session::{begin_login, decode_session_cookie, encode_session_cookie};

fn sample_claims(now: i64) -> Claims {
    Claims {
        sub: "oidc|abc123".to_string(),
        user_id: "u-42".to_string(),
        email: "someone@example.org".to_string(),
        role: Role::Moderator,
        exp: now + 900,
        iat: now,
    }
}

#[test]
fn claims_round_trip_all_fields() {
    let now = 1_700_000_000;
    let claims = sample_claims(now);
    let token = encode_claims(&claims, "server-secret");
    let back = decode_token(&token, "server-secret", now).expect("fresh token decodes");
    assert_eq!(back, claims);
}

#[test]
fn claims_round_trip_with_awkward_text() {
    let now = 1_700_000_000;
    let claims = Claims {
        sub: "s\"ub\\with\nquotes\tand controls\u{1}".to_string(),
        user_id: "id-\u{00e9}\u{6f22}".to_string(),
        email: "weird\"@example.org".to_string(),
        role: Role::Editor,
        exp: now + 900,
        iat: now,
    };
    let token = encode_claims(&claims, "server-secret");
    let back = decode_token(&token, "server-secret", now).expect("decodes");
    assert_eq!(back, claims);
}

#[test]
fn decoding_fails_under_a_different_secret() {
    let now = 1_700_000_000;
    let token = encode_claims(&sample_claims(now), "secret-one");
    let r = decode_token(&token, "secret-two", now);
    assert!(r.is_err());
    assert_eq!(r.unwrap_err().status_code(), 401);
}

#[test]
fn decoding_fails_once_expired() {
    let now = 1_700_000_000;
    let claims = sample_claims(now);
    // just inside the 60s leeway still passes, one second further fails
    assert!(decode_token(&encode_claims(&claims, "k"), "k", claims.exp + 60).is_ok());
    let r = decode_token(&encode_claims(&claims, "k"), "k", claims.exp + 61);
    assert!(r.is_err());
    assert_eq!(r.unwrap_err().status_code(), 401);
}

#[test]
fn decoding_fails_on_tampered_token() {
    let now = 1_700_000_000;
    let token = encode_claims(&sample_claims(now), "k");
    let mut tampered = token.clone();
    tampered.push('x');
    assert!(decode_token(&tampered, "k", now).is_err());
    assert!(decode_token("", "k", now).is_err());
    assert!(decode_token("a.b", "k", now).is_err());
    assert!(decode_token("a.b.c.d", "k", now).is_err());
}

#[test]
fn token_carries_the_standard_jose_header() {
    let now = 1_700_000_000;
    let token = encode_claims(&sample_claims(now), "k");
    let parts: Vec<&str> = token.split('.').collect();
    assert_eq!(parts.len(), 3);
    // base64url of {"typ":"JWT","alg":"HS256"}
    assert_eq!(parts[0], "eyJ0eXAiOiJKV1QiLCJhbGciOiJIUzI1NiJ9");
}

#[test]
fn jsonwebtoken_accepts_our_tokens() {
    let now = chrono::Utc::now().timestamp();
    let claims = sample_claims(now);
    let token = encode_claims(&claims, "interop-secret");
    // the signature is exactly the HS256 tag jsonwebtoken computes
    let parts: Vec<&str> = token.split('.').collect();
    let message = format!("{}.{}", parts[0], parts[1]);
    let ok = jsonwebtoken::crypto::verify(
        parts[2],
        message.as_bytes(),
        &jsonwebtoken::DecodingKey::from_secret(b"interop-secret"),
        jsonwebtoken::Algorithm::HS256,
    )
    .unwrap();
    assert!(ok);
    // and jsonwebtoken's own decoder takes the whole token
    let data = jsonwebtoken::decode::<serde_json::Value>(
        &token,
        &jsonwebtoken::DecodingKey::from_secret(b"interop-secret"),
        &jsonwebtoken::Validation::new(jsonwebtoken::Algorithm::HS256),
    )
    .unwrap();
    assert_eq!(data.claims.get("sub").unwrap().as_str().unwrap(), "oidc|abc123");
    assert_eq!(data.claims.get("user_id").unwrap().as_str().unwrap(), "u-42");
    assert_eq!(data.claims.get("role").unwrap().as_str().unwrap(), "Moderator");
    assert_eq!(data.claims.get("iat").unwrap().as_i64().unwrap(), now);
    assert_eq!(data.claims.get("exp").unwrap().as_i64().unwrap(), now + 900);
}

#[test]
fn session_cookie_round_trip() {
    let sess = OidcSession {
        pkce_verifier: "verifier-123".to_string(),
        csrf_token: "csrf-456".to_string(),
        nonce: "nonce-789".to_string(),
    };
    let cookie = encode_session_cookie(&sess);
    let back = decode_session_cookie(&cookie).expect("own cookie decodes");
    assert_eq!(back.pkce_verifier, sess.pkce_verifier);
    assert_eq!(back.csrf_token, sess.csrf_token);
    assert_eq!(back.nonce, sess.nonce);
}

#[test]
fn session_cookie_is_base64_of_plain_json() {
    let sess = OidcSession {
        pkce_verifier: "ver".to_string(),
        csrf_token: "csrf".to_string(),
        nonce: "non".to_string(),
    };
    let cookie = encode_session_cookie(&sess);
    let json = base64::Engine::decode(&base64::engine::general_purpose::STANDARD, &cookie)
        .expect("valid base64");
    let v: serde_json::Value = serde_json::from_slice(&json).expect("valid JSON");
    assert_eq!(v.get("pkce_verifier").unwrap().as_str().unwrap(), "ver");
    assert_eq!(v.get("csrf_token").unwrap().as_str().unwrap(), "csrf");
    assert_eq!(v.get("nonce").unwrap().as_str().unwrap(), "non");
}

#[test]
fn tampered_cookie_is_rejected() {
    let sess = OidcSession {
        pkce_verifier: "ver".to_string(),
        csrf_token: "csrf".to_string(),
        nonce: "non".to_string(),
    };
    let cookie = encode_session_cookie(&sess);
    let mut tampered = cookie.clone();
    tampered.push('!');
    assert!(decode_session_cookie(&tampered).is_none());
    assert!(decode_session_cookie("").is_none());
    assert!(decode_session_cookie("bm90IGpzb24=").is_none());
}

#[test]
fn begin_login_draws_fresh_secrets() {
    let (s1, challenge1, cookie1) = begin_login();
    let (s2, _challenge2, _cookie2) = begin_login();
    assert_eq!(s1.pkce_verifier.len(), 43);
    assert_eq!(challenge1.len(), 43);
    assert_eq!(s1.csrf_token.len(), 22);
    assert_eq!(s1.nonce.len(), 22);
    assert_ne!(s1.pkce_verifier, s2.pkce_verifier);
    assert_ne!(s1.csrf_token, s2.csrf_token);
    assert_ne!(s1.nonce, s2.nonce);
    // the cookie carries exactly the session that was drawn
    let back = decode_session_cookie(&cookie1).expect("decodes");
    assert_eq!(back.pkce_verifier, s1.pkce_verifier);
    assert_eq!(back.csrf_token, s1.csrf_token);
    assert_eq!(back.nonce, s1.nonce);
    // the challenge is the S256 challenge of the verifier
    let mut hasher = sha2::Sha256::default();
    sha2::Digest::update(&mut hasher, s1.pkce_verifier.as_bytes());
    let digest = sha2::Digest::finalize(hasher);
    let expect = base64::Engine::encode(
        &base64::engine::general_purpose::URL_SAFE_NO_PAD,
        digest,
    );
    assert_eq!(challenge1, expect);
}

#[test]
fn non_canonical_session_json_is_rejected() {
    // semantically equal JSON, but with whitespace the encoder never writes
    let spaced = "{\"pkce_verifier\": \"v\",\"csrf_token\":\"c\",\"nonce\":\"n\"}";
    let cookie = base64::Engine::encode(
        &base64::engine::general_purpose::STANDARD,
        spaced.as_bytes(),
    );
    assert!(decode_session_cookie(&cookie).is_none());
    // the canonical form of the same object decodes
    let canon = "{\"pkce_verifier\":\"v\",\"csrf_token\":\"c\",\"nonce\":\"n\"}";
    let cookie = base64::Engine::encode(
        &base64::engine::general_purpose::STANDARD,
        canon.as_bytes(),
    );
    let s = decode_session_cookie(&cookie).expect("canonical decodes");
    assert_eq!(s.pkce_verifier, "v");
}
