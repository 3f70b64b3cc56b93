//! The user directory and the identity resolver: a federated subject maps
//! to exactly one local account, created on first sight.

use vstd::prelude::*;

use crate::errors::AppError;
use crate::gen::new_record_id;
use crate::models::opt_str_view;
use crate::models::User;
use crate::models::UserView;
use crate::roles::Role;

verus! {

/// A role/active patch from an administrator; an absent field keeps the
/// stored value.
#[derive(Clone, Debug)]
pub struct UserUpdateInput {
    pub role: Option<Role>,
    pub active: Option<bool>,
}

/// `u` with an administrator's patch applied and `updated_at` stamped.
pub open spec fn patched_user(u: UserView, role: Option<Role>, active: Option<bool>, now: int) -> UserView {
    UserView {
        role: match role {
            Some(r) => r,
            None => u.role,
        },
        active: match active {
            Some(a) => a,
            None => u.active,
        },
        updated_at: now,
        ..u
    }
}

/// `u` with `last_login` stamped.
pub open spec fn login_stamped(u: UserView, now: int) -> UserView {
    UserView { last_login: Some(now), ..u }
}

/// The directory: its view is the sequence of account views, in order.
pub struct UserDirectory {
    users: Vec<User>,
}

impl View for UserDirectory {
    type V = Seq<UserView>;

    closed spec fn view(&self) -> Seq<UserView> {
        Seq::new(self.users@.len() as nat, |i: int| self.users@[i]@)
    }
}

impl UserDirectory {
    /// An empty directory.
    pub fn new() -> (r: Self)
        ensures
            r@ == Seq::<UserView>::empty(),
    {
        let r = UserDirectory { users: Vec::new() };
        proof {
            assert(r@ =~= Seq::<UserView>::empty());
        }
        r
    }

    /// The stored accounts, for inspection.
    pub fn users(&self) -> (r: &Vec<User>)
        ensures
            r@.len() == self@.len(),
            forall|i: int| 0 <= i < r@.len() ==> (#[trigger] r@[i])@ == self@[i],
    {
        &self.users
    }

    /// Find an account by id; an unknown id is `NotFound`.
    pub fn get_user(&self, id: &String) -> (r: Result<User, AppError>)
        ensures
            r matches Ok(u) ==> exists|i: int|
                {
                    &&& 0 <= i < self@.len()
                    &&& #[trigger] self@[i] == u@
                    &&& u@.id == id@
                    &&& forall|j: int| 0 <= j < i ==> (#[trigger] self@[j]).id != id@
                },
            r matches Err(e) ==> e is NotFound && (forall|i: int|
                0 <= i < self@.len() ==> (#[trigger] self@[i]).id != id@),
    {
        let ghost s = self@;
        let mut i: usize = 0;
        while i < self.users.len()
            invariant
                i <= self.users.len(),
                s == self@,
                self.users@.len() == s.len(),
                forall|j: int| 0 <= j < i as int ==> (#[trigger] s[j]).id != id@,
            decreases self.users.len() - i,
        {
            let u = &self.users[i];
            proof {
                assert(u@ == s[i as int]);
            }
            if u.id == *id {
                let out = u.clone();
                proof {
                    assert(s[i as int] == out@);
                }
                return Ok(out);
            }
            i = i + 1;
        }
        Err(AppError::NotFound(String::from_str("user not found")))
    }

    /// Find an account by its federated subject.
    pub fn get_user_by_oidc_sub(&self, oidc_sub: &String) -> (r: Option<User>)
        ensures
            r matches Some(u) ==> self@.contains(u@) && u@.oidc_sub == oidc_sub@,
            r is None ==> forall|i: int|
                0 <= i < self@.len() ==> (#[trigger] self@[i]).oidc_sub != oidc_sub@,
    {
        let ghost s = self@;
        let mut i: usize = 0;
        while i < self.users.len()
            invariant
                i <= self.users.len(),
                s == self@,
                self.users@.len() == s.len(),
                forall|j: int| 0 <= j < i as int ==> (#[trigger] s[j]).oidc_sub != oidc_sub@,
            decreases self.users.len() - i,
        {
            let u = &self.users[i];
            proof {
                assert(u@ == s[i as int]);
            }
            if u.oidc_sub == *oidc_sub {
                let out = u.clone();
                proof {
                    assert(s[i as int] == out@);
                }
                return Some(out);
            }
            i = i + 1;
        }
        None
    }

    /// Persist a brand-new account. This and the resolver are the only
    /// places an account is created; it starts inactive, whatever its role.
    pub fn create_user(
        &mut self,
        oidc_sub: &String,
        email: &String,
        name: Option<String>,
        role: Role,
        now: i64,
    ) -> (r: User)
        ensures
            r@.oidc_sub == oidc_sub@,
            r@.email == email@,
            r@.name == opt_str_view(name),
            r@.role == role,
            r@.active == false,
            r@.last_login is None,
            r@.created_at == now as int,
            r@.updated_at == now as int,
            final(self)@ == old(self)@.push(r@),
    {
        let ghost s = old(self)@;
        let id = new_record_id();
        let user = User {
            id,
            oidc_sub: oidc_sub.clone(),
            email: email.clone(),
            name,
            role,
            active: false,
            last_login: None,
            created_at: now,
            updated_at: now,
        };
        let out = user.clone();
        self.users.push(user);
        proof {
            assert(self@ =~= s.push(out@));
        }
        out
    }

    /// Stamp `last_login` on the account with the given id.
    pub fn update_last_login(&mut self, user_id: &String, now: i64)
        ensures
            final(self)@.len() == old(self)@.len(),
            forall|i: int|
                0 <= i < old(self)@.len() ==> #[trigger] final(self)@[i] == (if old(
                    self,
                )@[i].id == user_id@ {
                    login_stamped(old(self)@[i], now as int)
                } else {
                    old(self)@[i]
                }),
    {
        let ghost s0 = old(self)@;
        let n = self.users.len();
        let mut i: usize = 0;
        while i < n
            invariant
                i <= n,
                n == self.users@.len(),
                self.users@.len() == s0.len(),
                self@.len() == s0.len(),
                forall|j: int| i as int <= j < s0.len() ==> #[trigger] self@[j] == s0[j],
                forall|j: int|
                    0 <= j < i as int ==> #[trigger] self@[j] == (if s0[j].id == user_id@ {
                        login_stamped(s0[j], now as int)
                    } else {
                        s0[j]
                    }),
            decreases n - i,
        {
            let ghost pre = self@;
            if self.users[i].id == *user_id {
                self.users[i].last_login = Some(now);
            }
            proof {
                assert(self@.len() == pre.len());
                assert(forall|j: int|
                    0 <= j < pre.len() && j != i as int ==> #[trigger] self@[j] == pre[j]);
                assert(pre[i as int] == s0[i as int]);
                if s0[i as int].id == user_id@ {
                    assert(self@[i as int] == login_stamped(s0[i as int], now as int));
                } else {
                    assert(self@[i as int] == s0[i as int]);
                }
            }
            i = i + 1;
        }
    }

    /// Apply an administrator's role/active patch to the account with the
    /// given id and return the patched account; an unknown id is `NotFound`
    /// and moves nothing.
    pub fn update_user(&mut self, user_id: &String, input: &UserUpdateInput, now: i64) -> (r:
        Result<User, AppError>)
        ensures
            r matches Ok(u) ==> exists|i: int|
                {
                    &&& 0 <= i < old(self)@.len()
                    &&& (#[trigger] old(self)@[i]).id == user_id@
                    &&& u@ == patched_user(old(self)@[i], input.role, input.active, now as int)
                    &&& final(self)@ == old(self)@.update(i, u@)
                },
            r matches Err(e) ==> e is NotFound && final(self)@ == old(self)@ && (forall|i: int|
                0 <= i < old(self)@.len() ==> (#[trigger] old(self)@[i]).id != user_id@),
    {
        let ghost s = old(self)@;
        let n = self.users.len();
        let mut i: usize = 0;
        while i < n
            invariant
                i <= n,
                n == self.users@.len(),
                s == self@,
                s == old(self)@,
                self.users@.len() == s.len(),
                forall|j: int| 0 <= j < i as int ==> (#[trigger] s[j]).id != user_id@,
            decreases n - i,
        {
            proof {
                assert(self.users@[i as int]@ == s[i as int]);
            }
            if self.users[i].id == *user_id {
                let ghost pre = self@;
                if let Some(role) = input.role {
                    self.users[i].role = role;
                }
                if let Some(active) = input.active {
                    self.users[i].active = active;
                }
                self.users[i].updated_at = now;
                let out = self.users[i].clone();
                proof {
                    assert(self@.len() == pre.len());
                    assert(forall|j: int|
                        0 <= j < pre.len() && j != i as int ==> #[trigger] self@[j] == pre[j]);
                    assert(out@ == patched_user(s[i as int], input.role, input.active, now as int));
                    assert(self@ =~= s.update(i as int, out@));
                }
                return Ok(out);
            }
            i = i + 1;
        }
        Err(AppError::NotFound(String::from_str("user not found")))
    }

    /// The identity resolver: look the subject up; on a hit, stamp
    /// `last_login` and answer with the account as it stood; on a miss,
    /// create an editor-role, inactive account. The subject is the sole
    /// identity key - no deduplication by email is attempted.
    pub fn resolve_or_create(
        &mut self,
        oidc_sub: &String,
        email: &String,
        name: Option<String>,
        now: i64,
    ) -> (r: User)
        ensures
            (exists|i: int|
                0 <= i < old(self)@.len() && (#[trigger] old(self)@[i]).oidc_sub == oidc_sub@)
                ==> exists|i: int|
                {
                    &&& 0 <= i < old(self)@.len()
                    &&& (#[trigger] old(self)@[i]).oidc_sub == oidc_sub@
                    &&& forall|j: int| 0 <= j < i ==> (#[trigger] old(self)@[j]).oidc_sub != oidc_sub@
                    &&& r@ == old(self)@[i]
                    &&& final(self)@ == old(self)@.update(
                        i,
                        login_stamped(old(self)@[i], now as int),
                    )
                },
            (forall|i: int|
                0 <= i < old(self)@.len() ==> (#[trigger] old(self)@[i]).oidc_sub != oidc_sub@)
                ==> {
                &&& r@.oidc_sub == oidc_sub@
                &&& r@.email == email@
                &&& r@.name == opt_str_view(name)
                &&& r@.role == Role::Editor
                &&& r@.active == false
                &&& r@.last_login is None
                &&& r@.created_at == now as int
                &&& final(self)@ == old(self)@.push(r@)
            },
    {
        let ghost s = old(self)@;
        let n = self.users.len();
        let mut i: usize = 0;
        while i < n
            invariant
                i <= n,
                n == self.users@.len(),
                s == self@,
                s == old(self)@,
                self.users@.len() == s.len(),
                forall|j: int| 0 <= j < i as int ==> (#[trigger] s[j]).oidc_sub != oidc_sub@,
            decreases n - i,
        {
            proof {
                assert(self.users@[i as int]@ == s[i as int]);
            }
            if self.users[i].oidc_sub == *oidc_sub {
                let out = self.users[i].clone();
                let ghost pre = self@;
                self.users[i].last_login = Some(now);
                proof {
                    assert(self@.len() == pre.len());
                    assert(forall|j: int|
                        0 <= j < pre.len() && j != i as int ==> #[trigger] self@[j] == pre[j]);
                    assert(self@[i as int] == login_stamped(s[i as int], now as int));
                    assert(self@ =~= s.update(i as int, login_stamped(s[i as int], now as int)));
                    assert(out@ == s[i as int]);
                    assert((#[trigger] s[i as int]).oidc_sub == oidc_sub@);
                    assert(exists|k: int|
                        {
                            &&& 0 <= k < s.len()
                            &&& (#[trigger] s[k]).oidc_sub == oidc_sub@
                            &&& out@ == s[k]
                            &&& self@ == s.update(k, login_stamped(s[k], now as int))
                        });
                }
                return out;
            }
            i = i + 1;
        }
        self.create_user(oidc_sub, email, name, Role::Editor, now)
    }
}

} // verus!
