//! Signed access tokens: canonical JWS framing over the claims codec,
//! with HMAC-SHA256 through jsonwebtoken.
//!
//! Encoding is exact: the token is the base64url header and payload,
//! dot-joined and signed. Decoding accepts a token exactly when it is the
//! canonical encoding of some claims value under the given secret and its
//! expiry has not passed (with the standard 60s leeway); it then returns
//! exactly that value.

use vstd::prelude::*;

use crate::crypto::hs256_sig;
use crate::crypto::hs256_sign;
use crate::crypto::hs256_verify;
use crate::encoding::b64_url_nopad;
use crate::encoding::b64_url_nopad_decode;
use crate::encoding::b64_url_nopad_encode;
use crate::errors::AppError;
use crate::json::claims_in_range;
use crate::json::claims_json;
use crate::json::claims_to_json;
use crate::json::parse_claims_json;
use crate::models::Claims;
use crate::models::ClaimsView;

verus! {

use vstd::utf8::encode_utf8;

/// Clock skew allowed when judging expiry, as jsonwebtoken's default does.
pub const JWT_LEEWAY_SECS: i64 = 60;

/// The fixed JOSE header of every token this library mints.
pub open spec fn header_json() -> Seq<u8> {
    encode_utf8("{\"typ\":\"JWT\",\"alg\":\"HS256\"}"@)
}

pub open spec fn jwt_header_b64() -> Seq<char> {
    b64_url_nopad(header_json())
}

pub open spec fn jwt_payload_b64(c: ClaimsView) -> Seq<char> {
    b64_url_nopad(claims_json(c))
}

/// The signing input: base64url header, a dot, base64url payload.
pub open spec fn jwt_message(c: ClaimsView) -> Seq<u8> {
    encode_utf8(jwt_header_b64() + seq!['.'] + jwt_payload_b64(c))
}

pub open spec fn jwt_signature(c: ClaimsView, key: Seq<u8>) -> Seq<char> {
    hs256_sig(jwt_message(c), key)
}

/// The canonical signed token for the given claims under the given key.
pub open spec fn jwt_token(c: ClaimsView, key: Seq<u8>) -> Seq<char> {
    jwt_header_b64() + seq!['.'] + jwt_payload_b64(c) + seq!['.'] + jwt_signature(c, key)
}

/// Not yet expired at `now`, within the allowed skew.
pub open spec fn token_fresh_at(c: ClaimsView, now: int) -> bool {
    c.exp >= now - JWT_LEEWAY_SECS
}

/// Equality of text, decided on the UTF-8 bytes.
pub fn str_eq(a: &str, b: &str) -> (r: bool)
    ensures
        r == (a@ == b@),
{
    let ab = a.as_bytes();
    let bb = b.as_bytes();
    proof {
        vstd::utf8::encode_utf8_decode_utf8(a@);
        vstd::utf8::encode_utf8_decode_utf8(b@);
    }
    if ab.len() != bb.len() {
        return false;
    }
    let n = ab.len();
    let mut k: usize = 0;
    while k < n
        invariant
            k <= n,
            n == ab@.len() == bb@.len(),
            ab@ == encode_utf8(a@),
            bb@ == encode_utf8(b@),
            vstd::utf8::decode_utf8(encode_utf8(a@)) == a@,
            vstd::utf8::decode_utf8(encode_utf8(b@)) == b@,
            forall|w: int| 0 <= w < k as int ==> ab@[w] == bb@[w],
        decreases n - k,
    {
        if ab[k] != bb[k] {
            return false;
        }
        k = k + 1;
    }
    proof {
        assert(ab@ =~= bb@);
    }
    true
}

/// Mint the canonical token for `claims`, signed with `secret`.
pub fn encode_claims(claims: &Claims, secret: &str) -> (r: String)
    ensures
        r@ == jwt_token(claims@, encode_utf8(secret@)),
        !jwt_header_b64().contains('.'),
        !jwt_payload_b64(claims@).contains('.'),
        !jwt_signature(claims@, encode_utf8(secret@)).contains('.'),
{
    let payload = claims_to_json(claims);
    let p64 = b64_url_nopad_encode(payload.as_slice());
    let mut header: Vec<u8> = Vec::new();
    header.extend_from_slice("{\"typ\":\"JWT\",\"alg\":\"HS256\"}".as_bytes());
    proof {
        assert(header@ =~= header_json());
    }
    let h64 = b64_url_nopad_encode(header.as_slice());
    proof {
        reveal_strlit(".");
        assert("."@ =~= seq!['.']);
    }
    let mut msg = h64;
    msg.append(".");
    msg.append(p64.as_str());
    proof {
        assert(msg@ == jwt_header_b64() + seq!['.'] + jwt_payload_b64(claims@));
        assert(encode_utf8(msg@) == jwt_message(claims@));
    }
    let sig = hs256_sign(msg.as_str().as_bytes(), secret.as_bytes());
    let mut token = msg;
    token.append(".");
    token.append(sig.as_str());
    proof {
        assert(token@ == jwt_token(claims@, encode_utf8(secret@)));
    }
    token
}

/// Split a token at its two dots; the three parts hold none.
fn split_token<'a>(token: &'a str) -> (r: Option<(&'a str, &'a str, &'a str)>)
    ensures
        r matches Some(t) ==> token@ == t.0@ + seq!['.'] + t.1@ + seq!['.'] + t.2@ && !t.0@.contains(
            '.',
        ) && !t.1@.contains('.') && !t.2@.contains('.'),
        r is None ==> forall|a: Seq<char>, b: Seq<char>, c: Seq<char>|
            !a.contains('.') && !b.contains('.') && !c.contains('.') ==> token@ != a + seq!['.'] + b
                + seq!['.'] + c,
{
    let n = token.unicode_len();
    let mut i: usize = 0;
    let mut d1: usize = 0;
    let mut found1 = false;
    while i < n
        invariant_except_break
            !found1,
        invariant
            i <= n,
            n == token@.len(),
            forall|j: int| 0 <= j < i as int ==> token@[j] != '.',
            found1 ==> d1 == i && i < n && token@[d1 as int] == '.',
        ensures
            found1 || i == n,
        decreases n - i,
    {
        if token.get_char(i) == '.' {
            d1 = i;
            found1 = true;
            break ;
        }
        i = i + 1;
    }
    if !found1 {
        proof {
            assert forall|a: Seq<char>, b: Seq<char>, c: Seq<char>|
                !a.contains('.') && !b.contains('.') && !c.contains('.') implies token@ != a + seq![
                '.',
            ] + b + seq!['.'] + c by {
                if token@ == a + seq!['.'] + b + seq!['.'] + c {
                    let w = a + seq!['.'];
                    assert(w[a.len() as int] == '.');
                    assert((w + b)[a.len() as int] == '.');
                    assert((w + b + seq!['.'])[a.len() as int] == '.');
                    assert(token@[a.len() as int] == '.');
                    assert(token@.len() == a.len() + 1 + b.len() + 1 + c.len());
                    assert((a.len() as int) < (n as int));
                    assert(i == n);
                    assert(token@[a.len() as int] != '.');
                    assert(false);
                }
            }
        }
        return None;
    }
    let mut k: usize = d1 + 1;
    let mut d2: usize = 0;
    let mut found2 = false;
    while k < n
        invariant_except_break
            !found2,
        invariant
            d1 + 1 <= k <= n,
            n == token@.len(),
            d1 < n,
            token@[d1 as int] == '.',
            forall|j: int| 0 <= j < d1 as int ==> token@[j] != '.',
            forall|j: int| (d1 as int) < j < (k as int) ==> token@[j] != '.',
            found2 ==> d2 == k && k < n && token@[d2 as int] == '.',
        ensures
            found2 || k == n,
        decreases n - k,
    {
        if token.get_char(k) == '.' {
            d2 = k;
            found2 = true;
            break ;
        }
        k = k + 1;
    }
    if !found2 {
        proof {
            assert forall|a: Seq<char>, b: Seq<char>, c: Seq<char>|
                !a.contains('.') && !b.contains('.') && !c.contains('.') implies token@ != a + seq![
                '.',
            ] + b + seq!['.'] + c by {
                if token@ == a + seq!['.'] + b + seq!['.'] + c {
                    assert(token@[a.len() as int] == '.');
                    assert(forall|j: int| 0 <= j < a.len() ==> token@[j] == a[j]);
                    assert(a.len() == d1) by {
                        if a.len() < d1 as int {
                            assert(token@[a.len() as int] != '.');
                        }
                        if a.len() > d1 as int {
                            assert(a[d1 as int] == token@[d1 as int]);
                            assert(a.contains(token@[d1 as int])) by {
                                assert(a[d1 as int] == '.');
                            }
                        }
                    }
                    let w = a + seq!['.'] + b + seq!['.'];
                    assert(w[a.len() as int + 1 + b.len()] == '.');
                    assert(token@[a.len() as int + 1 + b.len()] == '.');
                    assert(token@.len() == a.len() + 1 + b.len() + 1 + c.len());
                    assert(k == n);
                    assert(token@[a.len() as int + 1 + b.len()] != '.') by {
                        let j = a.len() as int + 1 + b.len();
                        assert((d1 as int) < j < (n as int));
                        assert((d1 as int) < j < (k as int));
                    }
                }
            }
        }
        return None;
    }
    // no third dot may follow
    let mut m: usize = d2 + 1;
    while m < n
        invariant
            d2 + 1 <= m <= n,
            n == token@.len(),
            d1 < d2 < n,
            token@[d1 as int] == '.',
            token@[d2 as int] == '.',
            forall|j: int| 0 <= j < d1 as int ==> token@[j] != '.',
            forall|j: int| (d1 as int) < j < (d2 as int) ==> token@[j] != '.',
            forall|j: int| (d2 as int) < j < (m as int) ==> token@[j] != '.',
        decreases n - m,
    {
        if token.get_char(m) == '.' {
            proof {
                assert forall|a: Seq<char>, b: Seq<char>, c: Seq<char>|
                    !a.contains('.') && !b.contains('.') && !c.contains('.') implies token@ != a
                    + seq!['.'] + b + seq!['.'] + c by {
                    if token@ == a + seq!['.'] + b + seq!['.'] + c {
                        assert(token@[a.len() as int] == '.');
                        assert(a.len() == d1) by {
                            if a.len() < d1 as int {
                                assert(token@[a.len() as int] != '.');
                            }
                            if a.len() > d1 as int {
                                assert(a[d1 as int] == token@[d1 as int]);
                                assert(a.contains(token@[d1 as int]));
                            }
                        }
                        let j2 = a.len() as int + 1 + b.len();
                        assert(token@[j2] == '.');
                        assert(j2 == d2) by {
                            if j2 < d2 as int {
                                assert(b[j2 - d1 - 1] == token@[j2]);
                                assert(b.contains('.'));
                            }
                            if j2 > d2 as int {
                                assert(b[d2 - d1 - 1] == token@[d2 as int]);
                                assert(b.contains('.'));
                            }
                        }
                        assert(c[m - d2 - 1] == token@[m as int]);
                        assert(c.contains('.'));
                    }
                }
            }
            return None;
        }
        m = m + 1;
    }
    let h = token.substring_char(0, d1);
    let p = token.substring_char(d1 + 1, d2);
    let sg = token.substring_char(d2 + 1, n);
    proof {
        assert(token@ =~= h@ + seq!['.'] + p@ + seq!['.'] + sg@);
        assert(!h@.contains('.')) by {
            if h@.contains('.') {
                let j = choose|j: int| 0 <= j < h@.len() && h@[j] == '.';
                assert(token@[j] == '.');
            }
        }
        assert(!p@.contains('.')) by {
            if p@.contains('.') {
                let j = choose|j: int| 0 <= j < p@.len() && p@[j] == '.';
                assert(token@[d1 + 1 + j] == '.');
            }
        }
        assert(!sg@.contains('.')) by {
            if sg@.contains('.') {
                let j = choose|j: int| 0 <= j < sg@.len() && sg@[j] == '.';
                assert(token@[d2 + 1 + j] == '.');
            }
        }
    }
    Some((h, p, sg))
}

/// What `decode_token` owes: any canonical, unexpired token under this
/// secret is accepted and yields exactly its claims.
pub open spec fn canonical_token_for(c0: ClaimsView, t: Seq<char>, key: Seq<u8>, now: int) -> bool {
    &&& claims_in_range(c0)
    &&& t == jwt_token(c0, key)
    &&& !jwt_payload_b64(c0).contains('.')
    &&& !jwt_signature(c0, key).contains('.')
    &&& token_fresh_at(c0, now)
}

/// Decode and check a bearer token: canonical framing, our header, a valid
/// signature under `secret`, and freshness at `now`. Any failure is the
/// same `Unauthorized` answer.
#[verifier::rlimit(100)]
#[verifier::spinoff_prover]
pub fn decode_token(token: &str, secret: &str, now: i64) -> (r: Result<Claims, AppError>)
    ensures
        r matches Ok(c) ==> token@ == jwt_token(c@, encode_utf8(secret@)) && token_fresh_at(
            c@,
            now as int,
        ),
        r matches Err(e) ==> e is Unauthorized,
        forall|c0: ClaimsView|
            #![auto]
            canonical_token_for(c0, token@, encode_utf8(secret@), now as int) ==> (r matches Ok(c)
                && c@ == c0),
{
    let ghost key = encode_utf8(secret@);
    let mut header: Vec<u8> = Vec::new();
    header.extend_from_slice("{\"typ\":\"JWT\",\"alg\":\"HS256\"}".as_bytes());
    proof {
        assert(header@ =~= header_json());
    }
    let h64 = b64_url_nopad_encode(header.as_slice());
    let parts = match split_token(token) {
        Some(t) => t,
        None => {
            proof {
                assert forall|c0: ClaimsView|
                    #![auto]
                    !canonical_token_for(c0, token@, key, now as int) by {
                    if canonical_token_for(c0, token@, key, now as int) {
                        assert(token@ == jwt_header_b64() + seq!['.'] + jwt_payload_b64(c0) + seq![
                            '.',
                        ] + jwt_signature(c0, key));
                        assert(!jwt_header_b64().contains('.'));
                        assert(false);
                    }
                }
            }
            return Err(AppError::Unauthorized(String::from_str("Invalid token")));
        },
    };
    let (h, p, sg) = parts;
    // the header must be ours
    if !str_eq(h, h64.as_str()) {
        proof {
            lemma_parts_pin(token@, h@, p@, sg@);
            assert forall|c0: ClaimsView|
                #![auto]
                !canonical_token_for(c0, token@, key, now as int) by {
                if canonical_token_for(c0, token@, key, now as int) {
                    assert(h@ == jwt_header_b64());
                    assert(false);
                }
            }
        }
        return Err(AppError::Unauthorized(String::from_str("Invalid token")));
    }
    // the signature must be the tag of the first two parts
    proof {
        reveal_strlit(".");
        assert("."@ =~= seq!['.']);
    }
    let mut msg = h.to_owned();
    msg.append(".");
    msg.append(p);
    if !hs256_verify(sg, msg.as_str().as_bytes(), secret.as_bytes()) {
        proof {
            lemma_parts_pin(token@, h@, p@, sg@);
            assert forall|c0: ClaimsView|
                #![auto]
                !canonical_token_for(c0, token@, key, now as int) by {
                if canonical_token_for(c0, token@, key, now as int) {
                    assert(p@ == jwt_payload_b64(c0) && sg@ == jwt_signature(c0, key));
                    assert(msg@ == jwt_header_b64() + seq!['.'] + jwt_payload_b64(c0));
                    assert(encode_utf8(msg@) == jwt_message(c0));
                    assert(false);
                }
            }
        }
        return Err(AppError::Unauthorized(String::from_str("Invalid token")));
    }
    // the payload must be canonical claims JSON
    let payload = match b64_url_nopad_decode(p) {
        Some(v) => v,
        None => {
            proof {
                lemma_parts_pin(token@, h@, p@, sg@);
                assert forall|c0: ClaimsView|
                    #![auto]
                    !canonical_token_for(c0, token@, key, now as int) by {
                    if canonical_token_for(c0, token@, key, now as int) {
                        assert(p@ == b64_url_nopad(claims_json(c0)));
                        assert(false);
                    }
                }
            }
            return Err(AppError::Unauthorized(String::from_str("Invalid token")));
        },
    };
    let claims = match parse_claims_json(&payload) {
        Some(c) => c,
        None => {
            proof {
                lemma_parts_pin(token@, h@, p@, sg@);
                assert forall|c0: ClaimsView|
                    #![auto]
                    !canonical_token_for(c0, token@, key, now as int) by {
                    if canonical_token_for(c0, token@, key, now as int) {
                        assert(p@ == b64_url_nopad(claims_json(c0)));
                        assert(payload@ == claims_json(c0));
                        assert(false);
                    }
                }
            }
            return Err(AppError::Unauthorized(String::from_str("Invalid token")));
        },
    };
    // and it must not have expired
    if !((claims.exp as i128) >= (now as i128) - (JWT_LEEWAY_SECS as i128)) {
        proof {
            lemma_parts_pin(token@, h@, p@, sg@);
            assert forall|c0: ClaimsView|
                #![auto]
                !canonical_token_for(c0, token@, key, now as int) by {
                if canonical_token_for(c0, token@, key, now as int) {
                    assert(p@ == b64_url_nopad(claims_json(c0)));
                    assert(payload@ == claims_json(c0));
                    assert(claims@ == c0);
                    assert(false);
                }
            }
        }
        return Err(AppError::Unauthorized(String::from_str("Token expired")));
    }
    proof {
        assert(msg@ == jwt_header_b64() + seq!['.'] + jwt_payload_b64(claims@)) by {
            assert(payload@ == claims_json(claims@));
        }
        assert(encode_utf8(msg@) == jwt_message(claims@));
        assert(sg@ == jwt_signature(claims@, key));
        assert(token@ == jwt_token(claims@, key));
        lemma_parts_pin(token@, h@, p@, sg@);
        assert forall|c0: ClaimsView|
            #![auto]
            canonical_token_for(c0, token@, key, now as int) implies claims@ == c0 by {
            assert(p@ == b64_url_nopad(claims_json(c0)));
            assert(payload@ == claims_json(c0));
        }
    }
    Ok(claims)
}

/// Splitting a dot-free three-part token is unambiguous: if the token also
/// reads as another dot-free triple, the parts agree.
proof fn lemma_parts_pin(t: Seq<char>, h: Seq<char>, p: Seq<char>, sg: Seq<char>)
    requires
        t == h + seq!['.'] + p + seq!['.'] + sg,
        !h.contains('.'),
        !p.contains('.'),
        !sg.contains('.'),
    ensures
        forall|a: Seq<char>, b: Seq<char>, c: Seq<char>|
            #![auto]
            (!a.contains('.') && !b.contains('.') && !c.contains('.') && t == a + seq!['.'] + b
                + seq!['.'] + c) ==> a == h && b == p && c == sg,
{
    assert forall|a: Seq<char>, b: Seq<char>, c: Seq<char>|
        #![auto]
        (!a.contains('.') && !b.contains('.') && !c.contains('.') && t == a + seq!['.'] + b + seq![
            '.',
        ] + c) implies a == h && b == p && c == sg by {
        assert(a.len() == h.len()) by {
            if a.len() < h.len() {
                assert(h[a.len() as int] == t[a.len() as int]);
                assert(t[a.len() as int] == '.');
                assert(h.contains('.'));
            }
            if a.len() > h.len() {
                assert(a[h.len() as int] == t[h.len() as int]);
                assert(t[h.len() as int] == '.');
                assert(a.contains('.'));
            }
        }
        assert(b.len() == p.len()) by {
            if b.len() < p.len() {
                assert(p[b.len() as int] == t[a.len() as int + 1 + b.len()]);
                assert(t[a.len() as int + 1 + b.len()] == '.');
                assert(p.contains('.'));
            }
            if b.len() > p.len() {
                assert(b[p.len() as int] == t[h.len() as int + 1 + p.len()]);
                assert(t[h.len() as int + 1 + p.len()] == '.');
                assert(b.contains('.'));
            }
        }
        assert forall|j: int| 0 <= j < a.len() implies a[j] == h[j] by {
            assert(t[j] == a[j]);
            assert(t[j] == h[j]);
        }
        assert(a =~= h);
        assert forall|j: int| 0 <= j < b.len() implies b[j] == p[j] by {
            assert(t[a.len() as int + 1 + j] == b[j]);
            assert(t[h.len() as int + 1 + j] == p[j]);
        }
        assert(b =~= p);
        assert(t.len() == a.len() + 1 + b.len() + 1 + c.len());
        assert(t.len() == h.len() + 1 + p.len() + 1 + sg.len());
        assert(c.len() == sg.len());
        assert forall|j: int| 0 <= j < c.len() implies c[j] == sg[j] by {
            assert(t[a.len() as int + b.len() + 2 + j] == c[j]);
            assert(t[h.len() as int + p.len() + 2 + j] == sg[j]);
        }
        assert(c =~= sg);
    }
}

} // verus!
