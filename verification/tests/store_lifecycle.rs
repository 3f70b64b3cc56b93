//! The refresh-token store's lifecycle rules, exercised on concrete data.

use auth_core::constants::REFRESH_TOKEN_EXPIRY_SECS;
use auth_core::store::RefreshTokenStore;

fn uid() -> String {
    "user-1".to_string()
}

#[test]
fn create_stores_digest_not_secret() {
    let mut store = RefreshTokenStore::new();
    let rec = store.create_refresh_token(&uid(), &"raw-secret".to_string(), 1_000);
    assert_eq!(rec.user, "user-1");
    assert_eq!(rec.created_at, 1_000);
    assert_eq!(rec.expires_at, 1_000 + REFRESH_TOKEN_EXPIRY_SECS);
    assert_eq!(rec.last_used_at, None);
    assert_ne!(rec.token_hash, "raw-secret");
    assert_eq!(rec.token_hash, auth_core::crypto::hash_token("raw-secret"));
    assert!(!rec.id.is_empty());
}

#[test]
fn cap_holds_after_seven_creates_and_two_oldest_go() {
    let mut store = RefreshTokenStore::new();
    for k in 0..7i64 {
        store.create_refresh_token(&uid(), &format!("secret-{}", k), 100 + k);
    }
    let now = 106;
    assert_eq!(store.count_live(&uid(), now), 5);
    // the two oldest by created_at are gone
    for rec in store.records() {
        assert!(rec.created_at != 100 && rec.created_at != 101);
    }
    // the five newest remain
    let mut seen: Vec<i64> = store.records().iter().map(|r| r.created_at).collect();
    seen.sort();
    assert_eq!(seen, vec![102, 103, 104, 105, 106]);
}

#[test]
fn cap_does_not_count_other_users() {
    let mut store = RefreshTokenStore::new();
    for k in 0..5i64 {
        store.create_refresh_token(&"someone-else".to_string(), &format!("o-{}", k), 10 + k);
    }
    for k in 0..5i64 {
        store.create_refresh_token(&uid(), &format!("m-{}", k), 10 + k);
    }
    assert_eq!(store.count_live(&"someone-else".to_string(), 20), 5);
    assert_eq!(store.count_live(&uid(), 20), 5);
    assert_eq!(store.records().len(), 10);
}

#[test]
fn lookup_respects_expiry_to_the_second() {
    let mut store = RefreshTokenStore::new();
    let created = 1_000;
    store.create_refresh_token(&uid(), &"tick".to_string(), created);
    let hash = auth_core::crypto::hash_token("tick");
    let expires = created + REFRESH_TOKEN_EXPIRY_SECS;
    assert!(store.lookup_by_hash(&hash, expires - 1).is_some());
    assert!(store.lookup_by_hash(&hash, expires).is_none());
    assert!(store.lookup_by_hash(&hash, expires + 1).is_none());
}

#[test]
fn lookup_misses_unknown_hash() {
    let mut store = RefreshTokenStore::new();
    store.create_refresh_token(&uid(), &"known".to_string(), 0);
    let hash = auth_core::crypto::hash_token("unknown");
    assert!(store.lookup_by_hash(&hash, 1).is_none());
}

#[test]
fn touch_stamps_only_last_used() {
    let mut store = RefreshTokenStore::new();
    let rec = store.create_refresh_token(&uid(), &"stamp-me".to_string(), 50);
    store.update_last_used(&rec.id, 75);
    let hash = auth_core::crypto::hash_token("stamp-me");
    let seen = store.lookup_by_hash(&hash, 60).expect("still live");
    assert_eq!(seen.last_used_at, Some(75));
    assert_eq!(seen.expires_at, rec.expires_at);
    assert_eq!(seen.created_at, rec.created_at);
}

#[test]
fn revoke_all_removes_every_record_of_the_user() {
    let mut store = RefreshTokenStore::new();
    for k in 0..3i64 {
        store.create_refresh_token(&uid(), &format!("r-{}", k), k);
    }
    store.create_refresh_token(&"other".to_string(), &"keep".to_string(), 0);
    store.revoke_all_user_tokens(&uid());
    assert_eq!(store.count_live(&uid(), 1), 0);
    assert_eq!(store.records().len(), 1);
    assert_eq!(store.records()[0].user, "other");
    // revoking again is harmless
    store.revoke_all_user_tokens(&uid());
    assert_eq!(store.records().len(), 1);
}

#[test]
fn reap_removes_exactly_the_expired() {
    let mut store = RefreshTokenStore::new();
    store.create_refresh_token(&uid(), &"early".to_string(), 0);
    store.create_refresh_token(&uid(), &"late".to_string(), 1_000);
    let reaped = store.reap_expired(REFRESH_TOKEN_EXPIRY_SECS);
    assert_eq!(reaped, 1);
    assert_eq!(store.records().len(), 1);
    assert_eq!(store.records()[0].created_at, 1_000);
}

#[test]
fn hash_token_is_deterministic_and_spreads() {
    let a1 = auth_core::crypto::hash_token("secret-a");
    let a2 = auth_core::crypto::hash_token("secret-a");
    assert_eq!(a1, a2);
    // a known digest: SHA-256 of "abc" in lowercase hex
    assert_eq!(
        auth_core::crypto::hash_token("abc"),
        "ba7816bf8f01cfea414140de5dae2223b00361a396177a9cb410ff61f20015ad"
    );
    // no collisions over a small corpus of distinct secrets
    let mut seen: Vec<String> = Vec::new();
    for k in 0..256 {
        let h = auth_core::crypto::hash_token(&format!("corpus-{}", k));
        assert_eq!(h.len(), 64);
        assert!(!seen.contains(&h));
        seen.push(h);
    }
}

#[test]
fn constant_time_compare_answers_exact_equality() {
    assert!(auth_core::crypto::constant_time_compare("state-123", "state-123"));
    assert!(!auth_core::crypto::constant_time_compare("state-123", "state-124"));
    assert!(!auth_core::crypto::constant_time_compare("state-123", "state-12"));
    assert!(!auth_core::crypto::constant_time_compare("", "x"));
    assert!(auth_core::crypto::constant_time_compare("", ""));
}

#[test]
fn lookup_finds_the_first_of_equal_digests() {
    let mut store = RefreshTokenStore::new();
    // two different users happen to hold the same raw secret
    let first = store.create_refresh_token(&"user-a".to_string(), &"shared".to_string(), 10);
    let _second = store.create_refresh_token(&"user-b".to_string(), &"shared".to_string(), 20);
    let hash = auth_core::crypto::hash_token("shared");
    let found = store.lookup_by_hash(&hash, 30).expect("live");
    assert_eq!(found.id, first.id);
    assert_eq!(found.user, "user-a");
}
