//! The per-request gate: bearer-token verification and the role
//! predicates downstream handlers consume.

use vstd::prelude::*;

use crate::errors::AppError;
use crate::jwt::canonical_token_for;
use crate::jwt::decode_token;
use crate::jwt::jwt_token;
use crate::jwt::token_fresh_at;
use crate::models::Claims;
use crate::models::ClaimsView;

verus! {

use vstd::utf8::encode_utf8;

/// Take the token out of an `Authorization` header value.
pub fn bearer_token<'a>(header: &'a str) -> (r: Option<&'a str>)
    ensures
        r matches Some(t) ==> header@ == "Bearer "@ + t@,
        r is None ==> !"Bearer "@.is_prefix_of(header@),
{
    let lit = "Bearer ";
    proof {
        reveal_strlit("Bearer ");
    }
    let n = header.unicode_len();
    if n < 7 {
        return None;
    }
    let mut i: usize = 0;
    while i < 7
        invariant
            i <= 7,
            n == header@.len(),
            n >= 7,
            lit@ == "Bearer "@,
            lit@.len() == 7,
            forall|j: int| 0 <= j < i as int ==> header@[j] == lit@[j],
        decreases 7 - i,
    {
        if header.get_char(i) != lit.get_char(i) {
            proof {
                if "Bearer "@.is_prefix_of(header@) {
                    assert(header@.subrange(0, 7)[i as int] == header@[i as int]);
                }
            }
            return None;
        }
        i = i + 1;
    }
    let t = header.substring_char(7, n);
    proof {
        assert(header@ =~= "Bearer "@ + t@);
    }
    Some(t)
}

/// Verify the request's bearer token, if any; every failure is the same
/// `Unauthorized` answer, and a fresh, well-signed token always passes.
pub fn authenticate(header: Option<&String>, secret: &str, now: i64) -> (r: Result<
    Claims,
    AppError,
>)
    ensures
        r matches Err(e) ==> e is Unauthorized,
        header is None ==> r is Err,
        r matches Ok(c) ==> header matches Some(h) && h@ == "Bearer "@ + jwt_token(
            c@,
            encode_utf8(secret@),
        ) && token_fresh_at(c@, now as int),
        forall|c0: ClaimsView|
            (header matches Some(h) && h@ == "Bearer "@ + jwt_token(c0, encode_utf8(secret@))
                && #[trigger] canonical_token_for(
                c0,
                jwt_token(c0, encode_utf8(secret@)),
                encode_utf8(secret@),
                now as int,
            )) ==> (r matches Ok(c) && c@ == c0),
{
    let h = match header {
        Some(h) => h,
        None => {
            return Err(AppError::Unauthorized(String::from_str("Missing authorization token")));
        },
    };
    let token = match bearer_token(h.as_str()) {
        Some(t) => t,
        None => {
            proof {
                assert forall|c0: ClaimsView|
                    h@ != "Bearer "@ + #[trigger] jwt_token(c0, encode_utf8(secret@)) by {
                    if h@ == "Bearer "@ + jwt_token(c0, encode_utf8(secret@)) {
                        assert(h@.subrange(0, 7) =~= "Bearer "@) by {
                            reveal_strlit("Bearer ");
                        }
                        assert("Bearer "@.is_prefix_of(h@)) by {
                            reveal_strlit("Bearer ");
                        }
                    }
                }
            }
            return Err(AppError::Unauthorized(String::from_str("Missing authorization token")));
        },
    };
    let out = decode_token(token, secret, now);
    proof {
        if let Ok(c) = &out {
            assert(h@ == "Bearer "@ + jwt_token(c@, encode_utf8(secret@)));
        }
        assert forall|c0: ClaimsView|
            (h@ == "Bearer "@ + jwt_token(c0, encode_utf8(secret@)) && #[trigger] canonical_token_for(
                c0,
                jwt_token(c0, encode_utf8(secret@)),
                encode_utf8(secret@),
                now as int,
            )) implies (out matches Ok(c) && c@ == c0) by {
            assert(h@ == "Bearer "@ + token@);
            assert(h@.len() == "Bearer "@.len() + token@.len());
            assert(h@.len() == "Bearer "@.len() + jwt_token(c0, encode_utf8(secret@)).len());
            assert(token@ == jwt_token(c0, encode_utf8(secret@))) by {
                assert forall|j: int| 0 <= j < token@.len() implies token@[j] == jwt_token(
                    c0,
                    encode_utf8(secret@),
                )[j] by {
                    assert(h@[7 + j] == ("Bearer "@ + token@)[7 + j]);
                    reveal_strlit("Bearer ");
                }
                assert(token@.len() == jwt_token(c0, encode_utf8(secret@)).len()) by {
                    reveal_strlit("Bearer ");
                }
                assert(token@ =~= jwt_token(c0, encode_utf8(secret@)));
            }
            assert(canonical_token_for(c0, token@, encode_utf8(secret@), now as int));
        }
    }
    out
}

/// Gate for administrator-only actions.
pub fn require_admin(claims: &Claims) -> (r: Result<(), AppError>)
    ensures
        r is Ok <==> claims.spec_is_admin(),
        r matches Err(e) ==> e is Forbidden,
{
    if !claims.is_admin() {
        return Err(AppError::Forbidden(String::from_str("Admin access required")));
    }
    Ok(())
}

/// Gate for actions that need approval rights.
pub fn require_moderator_or_admin(claims: &Claims) -> (r: Result<(), AppError>)
    ensures
        r is Ok <==> claims.spec_can_approve(),
        r matches Err(e) ==> e is Forbidden,
{
    if !claims.can_approve() {
        return Err(AppError::Forbidden(String::from_str("Moderator or Admin access required")));
    }
    Ok(())
}

/// Every role may pass this gate: editors submit, the rest approve.
pub fn require_editor_or_above(claims: &Claims) -> (r: Result<(), AppError>)
    ensures
        r is Ok,
{
    let _ = claims;
    Ok(())
}

/// Only approvers change content without review.
pub fn can_modify_directly(claims: &Claims) -> (r: bool)
    ensures
        r == claims.spec_can_approve(),
{
    claims.can_approve()
}

} // verus!
