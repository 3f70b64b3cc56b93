//! Byte/text encodings the core relies on: base64 (two fixed engines)
//! and UTF-8 recovery of strings from parsed bytes.

use vstd::prelude::*;

verus! {

/// What base64's STANDARD engine returns for the given bytes.
pub uninterp spec fn b64_std(bytes: Seq<u8>) -> Seq<char>;

/// What base64's URL_SAFE_NO_PAD engine returns for the given bytes.
pub uninterp spec fn b64_url_nopad(bytes: Seq<u8>) -> Seq<char>;

/// Relies on base64's STANDARD engine: the canonical padded encoding,
/// a function of the input bytes alone.
#[verifier::external_body]
pub(crate) fn b64_std_encode(bytes: &[u8]) -> (r: String)
    ensures
        r@ == b64_std(bytes@),
{
    base64::Engine::encode(&base64::engine::general_purpose::STANDARD, bytes)
}

/// Relies on base64's STANDARD engine: decoding requires canonical padding
/// and zero trailing bits, so it accepts exactly the encoder's outputs and
/// inverts them.
#[verifier::external_body]
pub(crate) fn b64_std_decode(s: &str) -> (r: Option<Vec<u8>>)
    ensures
        r matches Some(v) ==> s@ == b64_std(v@),
        r matches Some(v) ==> forall|bs: Seq<u8>| s@ == b64_std(bs) ==> v@ == bs,
        r is None ==> forall|bs: Seq<u8>| s@ != b64_std(bs),
{
    base64::Engine::decode(&base64::engine::general_purpose::STANDARD, s).ok()
}

/// Relies on base64's URL_SAFE_NO_PAD engine: the canonical unpadded
/// url-safe encoding, a function of the input bytes alone; its alphabet
/// (A-Z, a-z, 0-9, -, _) holds no dot.
#[verifier::external_body]
pub(crate) fn b64_url_nopad_encode(bytes: &[u8]) -> (r: String)
    ensures
        r@ == b64_url_nopad(bytes@),
        !r@.contains('.'),
{
    base64::Engine::encode(&base64::engine::general_purpose::URL_SAFE_NO_PAD, bytes)
}

/// Relies on base64's URL_SAFE_NO_PAD engine: decoding requires no padding
/// and zero trailing bits, so it accepts exactly the encoder's outputs and
/// inverts them.
#[verifier::external_body]
pub(crate) fn b64_url_nopad_decode(s: &str) -> (r: Option<Vec<u8>>)
    ensures
        r matches Some(v) ==> s@ == b64_url_nopad(v@),
        r matches Some(v) ==> forall|bs: Seq<u8>| s@ == b64_url_nopad(bs) ==> v@ == bs,
        r is None ==> forall|bs: Seq<u8>| s@ != b64_url_nopad(bs),
{
    base64::Engine::decode(&base64::engine::general_purpose::URL_SAFE_NO_PAD, s).ok()
}

/// Relies on String::from_utf8: it succeeds exactly on valid UTF-8 and
/// returns the string those bytes encode.
#[verifier::external_body]
pub(crate) fn string_from_utf8(bytes: Vec<u8>) -> (r: Option<String>)
    ensures
        r matches Some(s) ==> vstd::utf8::valid_utf8(bytes@) && s@ == vstd::utf8::decode_utf8(
            bytes@,
        ),
        r is None ==> !vstd::utf8::valid_utf8(bytes@),
{
    String::from_utf8(bytes).ok()
}

} // verus!
