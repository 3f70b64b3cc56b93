//! The data model of the session core, with a mathematical view per type.
//!
//! Times are unix timestamps in whole seconds.

use vstd::prelude::*;

use crate::roles::Role;

verus! {

/// Spec-level image of an optional string.
pub open spec fn opt_str_view(o: Option<String>) -> Option<Seq<char>> {
    match o {
        Some(s) => Some(s@),
        None => None,
    }
}

/// Spec-level image of an optional timestamp.
pub open spec fn opt_i64_view(o: Option<i64>) -> Option<int> {
    match o {
        Some(t) => Some(t as int),
        None => None,
    }
}

/// A local account, created on first sight of a federated subject.
#[derive(Debug)]
pub struct User {
    pub id: String,
    /// The federated identity key; unique per user, never shown to clients.
    pub oidc_sub: String,
    pub email: String,
    pub name: Option<String>,
    pub role: Role,
    /// New accounts start inactive and need explicit activation.
    pub active: bool,
    pub last_login: Option<i64>,
    pub created_at: i64,
    pub updated_at: i64,
}

pub struct UserView {
    pub id: Seq<char>,
    pub oidc_sub: Seq<char>,
    pub email: Seq<char>,
    pub name: Option<Seq<char>>,
    pub role: Role,
    pub active: bool,
    pub last_login: Option<int>,
    pub created_at: int,
    pub updated_at: int,
}

impl View for User {
    type V = UserView;

    open spec fn view(&self) -> UserView {
        UserView {
            id: self.id@,
            oidc_sub: self.oidc_sub@,
            email: self.email@,
            name: opt_str_view(self.name),
            role: self.role,
            active: self.active,
            last_login: opt_i64_view(self.last_login),
            created_at: self.created_at as int,
            updated_at: self.updated_at as int,
        }
    }
}

/// The payload of a signed access token; transient, never persisted.
#[derive(Debug, PartialEq, Eq)]
pub struct Claims {
    pub sub: String,
    pub user_id: String,
    pub email: String,
    pub role: Role,
    pub exp: i64,
    pub iat: i64,
}

pub struct ClaimsView {
    pub sub: Seq<char>,
    pub user_id: Seq<char>,
    pub email: Seq<char>,
    pub role: Role,
    pub exp: int,
    pub iat: int,
}

impl View for Claims {
    type V = ClaimsView;

    open spec fn view(&self) -> ClaimsView {
        ClaimsView {
            sub: self.sub@,
            user_id: self.user_id@,
            email: self.email@,
            role: self.role,
            exp: self.exp as int,
            iat: self.iat as int,
        }
    }
}

impl Claims {
    /// Only an administrator.
    pub open spec fn spec_is_admin(&self) -> bool {
        self.role.spec_is_admin()
    }

    /// Administrators and moderators may approve content.
    pub open spec fn spec_can_approve(&self) -> bool {
        self.role.spec_can_approve()
    }

    /// Only an administrator may change another account's role.
    pub open spec fn spec_can_manage_roles(&self) -> bool {
        self.role.spec_can_manage_roles()
    }

    #[verifier::when_used_as_spec(spec_is_admin)]
    pub fn is_admin(&self) -> (r: bool)
        ensures
            r == self.spec_is_admin(),
    {
        self.role.is_admin()
    }

    #[verifier::when_used_as_spec(spec_can_approve)]
    pub fn can_approve(&self) -> (r: bool)
        ensures
            r == self.spec_can_approve(),
    {
        self.role.can_approve()
    }

    #[verifier::when_used_as_spec(spec_can_manage_roles)]
    pub fn can_manage_roles(&self) -> (r: bool)
        ensures
            r == self.spec_can_manage_roles(),
    {
        self.role.can_manage_roles()
    }
}

/// One stored refresh record. Only the digest of the secret is kept.
#[derive(Debug)]
pub struct RefreshToken {
    pub id: String,
    /// Id of the user the record belongs to.
    pub user: String,
    /// One-way digest of the raw secret.
    pub token_hash: String,
    pub expires_at: i64,
    pub created_at: i64,
    pub last_used_at: Option<i64>,
}

pub struct RefreshTokenView {
    pub id: Seq<char>,
    pub user: Seq<char>,
    pub token_hash: Seq<char>,
    pub expires_at: int,
    pub created_at: int,
    pub last_used_at: Option<int>,
}

impl View for RefreshToken {
    type V = RefreshTokenView;

    open spec fn view(&self) -> RefreshTokenView {
        RefreshTokenView {
            id: self.id@,
            user: self.user@,
            token_hash: self.token_hash@,
            expires_at: self.expires_at as int,
            created_at: self.created_at as int,
            last_used_at: opt_i64_view(self.last_used_at),
        }
    }
}

impl RefreshTokenView {
    /// A record counts only while it has not expired.
    pub open spec fn live_at(self, now: int) -> bool {
        self.expires_at > now
    }
}

/// What a refresh of an access token answers with.
#[derive(Debug)]
pub struct TokenResponse {
    pub access_token: String,
    pub expires_in: i64,
    pub token_type: String,
}

/// Body of a refresh request; the cookie is the fallback carrier.
#[derive(Debug)]
pub struct RefreshTokenRequest {
    pub refresh_token: String,
}

/// The two query parameters the provider sends back to the callback.
#[derive(Debug)]
pub struct OidcCallbackQuery {
    pub code: String,
    pub state: String,
}

/// What a completed login hands to the frontend.
#[derive(Debug)]
pub struct AuthResponse {
    pub access_token: String,
    pub refresh_token: String,
    pub expires_in: i64,
    pub token_type: String,
    pub user: User,
}

/// The ephemeral per-login secrets, carried only inside the session cookie.
#[derive(Debug)]
pub struct OidcSession {
    pub pkce_verifier: String,
    pub csrf_token: String,
    pub nonce: String,
}

pub struct OidcSessionView {
    pub pkce_verifier: Seq<char>,
    pub csrf_token: Seq<char>,
    pub nonce: Seq<char>,
}

impl View for OidcSession {
    type V = OidcSessionView;

    open spec fn view(&self) -> OidcSessionView {
        OidcSessionView {
            pkce_verifier: self.pkce_verifier@,
            csrf_token: self.csrf_token@,
            nonce: self.nonce@,
        }
    }
}

impl Clone for User {
    fn clone(&self) -> (res: Self)
        ensures
            res == *self,
    {
        User {
            id: self.id.clone(),
            oidc_sub: self.oidc_sub.clone(),
            email: self.email.clone(),
            name: match &self.name {
                Some(n) => Some(n.clone()),
                None => None,
            },
            role: self.role,
            active: self.active,
            last_login: self.last_login,
            created_at: self.created_at,
            updated_at: self.updated_at,
        }
    }
}

impl Clone for Claims {
    fn clone(&self) -> (res: Self)
        ensures
            res == *self,
    {
        Claims {
            sub: self.sub.clone(),
            user_id: self.user_id.clone(),
            email: self.email.clone(),
            role: self.role,
            exp: self.exp,
            iat: self.iat,
        }
    }
}

impl Clone for RefreshToken {
    fn clone(&self) -> (res: Self)
        ensures
            res == *self,
    {
        RefreshToken {
            id: self.id.clone(),
            user: self.user.clone(),
            token_hash: self.token_hash.clone(),
            expires_at: self.expires_at,
            created_at: self.created_at,
            last_used_at: self.last_used_at,
        }
    }
}

impl Clone for OidcSession {
    fn clone(&self) -> (res: Self)
        ensures
            res == *self,
    {
        OidcSession {
            pkce_verifier: self.pkce_verifier.clone(),
            csrf_token: self.csrf_token.clone(),
            nonce: self.nonce.clone(),
        }
    }
}

} // verus!
