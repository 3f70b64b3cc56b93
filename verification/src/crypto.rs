//! The cryptographic calls the core relies on: token digesting, HMAC
//! signing of access tokens, and constant-time comparison.

use vstd::prelude::*;

verus! {

/// What sha2 returns for the given text: the SHA-256 digest of its UTF-8
/// bytes, printed as 64 lowercase hex digits.
pub uninterp spec fn sha256_hex(s: Seq<char>) -> Seq<char>;

/// What jsonwebtoken's HS256 signing returns for the given message and key:
/// the HMAC-SHA256 tag, as unpadded url-safe base64 text.
pub uninterp spec fn hs256_sig(message: Seq<u8>, key: Seq<u8>) -> Seq<char>;

/// Relies on sha2's SHA-256: the digest is a function of the input alone,
/// and `{:x}` prints it as 64 lowercase hex digits.
#[verifier::external_body]
pub fn hash_token(token: &str) -> (r: String)
    ensures
        r@ == sha256_hex(token@),
        r@.len() == 64,
{
    let mut hasher = <sha2::Sha256 as sha2::Digest>::new();
    sha2::Digest::update(&mut hasher, token.as_bytes());
    format!("{:x}", sha2::Digest::finalize(hasher))
}

/// Relies on jsonwebtoken::crypto::sign with HS256: it returns the
/// base64url (unpadded) HMAC-SHA256 tag, a function of message and key
/// alone; for HMAC algorithms it never fails, and its alphabet holds
/// no dot.
#[verifier::external_body]
pub(crate) fn hs256_sign(message: &[u8], key: &[u8]) -> (r: String)
    ensures
        r@ == hs256_sig(message@, key@),
        !r@.contains('.'),
{
    jsonwebtoken::crypto::sign(
        message,
        &jsonwebtoken::EncodingKey::from_secret(key),
        jsonwebtoken::Algorithm::HS256,
    ).unwrap()
}

/// Relies on jsonwebtoken::crypto::verify with HS256: it re-signs the
/// message with the key and compares the tags in constant time, answering
/// whether `signature` is exactly the tag of `message` under `key`.
#[verifier::external_body]
pub(crate) fn hs256_verify(signature: &str, message: &[u8], key: &[u8]) -> (r: bool)
    ensures
        r == (signature@ == hs256_sig(message@, key@)),
{
    jsonwebtoken::crypto::verify(
        signature,
        message,
        &jsonwebtoken::DecodingKey::from_secret(key),
        jsonwebtoken::Algorithm::HS256,
    ).unwrap_or(false)
}

/// Relies on subtle's ConstantTimeEq for byte slices: the answer is exact
/// equality, reached in time independent of where the contents differ.
#[verifier::external_body]
fn ct_eq_bytes(a: &[u8], b: &[u8]) -> (r: bool)
    ensures
        r == (a@ == b@),
{
    subtle::ConstantTimeEq::ct_eq(a, b).into()
}

/// Equality of two secrets without leaking, through timing, how long a
/// prefix of them agrees.
pub fn constant_time_compare(a: &str, b: &str) -> (r: bool)
    ensures
        r == (a@ == b@),
{
    let r = ct_eq_bytes(a.as_bytes(), b.as_bytes());
    proof {
        vstd::utf8::encode_utf8_decode_utf8(a@);
        vstd::utf8::encode_utf8_decode_utf8(b@);
    }
    r
}

} // verus!
