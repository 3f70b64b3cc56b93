//! The closed set of roles and the authorization predicates over it.

use vstd::prelude::*;

verus! {

/// A caller's role. The set is closed: authorization predicates match on it
/// exhaustively instead of comparing strings.
#[derive(Clone, Copy, Debug, PartialEq, Eq, Structural)]
pub enum Role {
    Admin,
    Moderator,
    Editor,
}

impl Role {
    /// Only an administrator.
    pub open spec fn spec_is_admin(self) -> bool {
        self is Admin
    }

    /// Administrators and moderators may approve content.
    pub open spec fn spec_can_approve(self) -> bool {
        self is Admin || self is Moderator
    }

    /// Only an administrator may change another account's role.
    pub open spec fn spec_can_manage_roles(self) -> bool {
        self is Admin
    }

    #[verifier::when_used_as_spec(spec_is_admin)]
    pub fn is_admin(self) -> (r: bool)
        ensures
            r == self.spec_is_admin(),
    {
        matches!(self, Role::Admin)
    }

    #[verifier::when_used_as_spec(spec_can_approve)]
    pub fn can_approve(self) -> (r: bool)
        ensures
            r == self.spec_can_approve(),
    {
        matches!(self, Role::Admin | Role::Moderator)
    }

    #[verifier::when_used_as_spec(spec_can_manage_roles)]
    pub fn can_manage_roles(self) -> (r: bool)
        ensures
            r == self.spec_can_manage_roles(),
    {
        matches!(self, Role::Admin)
    }
}

} // verus!
