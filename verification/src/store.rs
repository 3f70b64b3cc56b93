//! The refresh-token store: lifecycle rules for opaque refresh secrets.
//!
//! Only the digest of a secret is kept. A record counts while
//! `expires_at > now`; an expired row that the reaper has not removed yet
//! behaves as absent. Each user holds at most
//! [`MAX_REFRESH_TOKENS_PER_USER`](crate::constants::MAX_REFRESH_TOKENS_PER_USER)
//! unexpired records: surplus is evicted oldest-first right before each
//! insert.

use vstd::prelude::*;

use crate::constants::{MAX_REFRESH_TOKENS_PER_USER, REFRESH_TOKEN_EXPIRY_SECS};
use crate::crypto::hash_token;
use crate::crypto::sha256_hex;
use crate::gen::new_record_id;
use crate::models::RefreshToken;
use crate::models::RefreshTokenView;

verus! {

/// An unexpired record of `user`.
pub open spec fn is_live_user_rec(r: RefreshTokenView, user: Seq<char>, now: int) -> bool {
    r.user == user && r.live_at(now)
}

/// The unexpired records of `user`, in store order.
pub open spec fn live_for(s: Seq<RefreshTokenView>, user: Seq<char>, now: int) -> Seq<
    RefreshTokenView,
> {
    s.filter(|r: RefreshTokenView| is_live_user_rec(r, user, now))
}

/// Everything the cap rule must leave untouched: records of other users,
/// and already-expired records of `user`.
pub open spec fn others_for(s: Seq<RefreshTokenView>, user: Seq<char>, now: int) -> Seq<
    RefreshTokenView,
> {
    s.filter(|r: RefreshTokenView| !is_live_user_rec(r, user, now))
}

/// How appending one record moves `live_for` and `others_for`.
proof fn lemma_live_for_push(s: Seq<RefreshTokenView>, x: RefreshTokenView, user: Seq<char>, now: int)
    ensures
        is_live_user_rec(x, user, now) ==> live_for(s.push(x), user, now) == live_for(
            s,
            user,
            now,
        ).push(x),
        !is_live_user_rec(x, user, now) ==> live_for(s.push(x), user, now) == live_for(
            s,
            user,
            now,
        ),
        is_live_user_rec(x, user, now) ==> others_for(s.push(x), user, now) == others_for(
            s,
            user,
            now,
        ),
        !is_live_user_rec(x, user, now) ==> others_for(s.push(x), user, now) == others_for(
            s,
            user,
            now,
        ).push(x),
{
    reveal(Seq::filter);
    assert(s.push(x).drop_last() =~= s);
}

/// How removing one record moves `live_for` and `others_for`.
proof fn lemma_live_for_remove(s: Seq<RefreshTokenView>, i: int, user: Seq<char>, now: int)
    requires
        0 <= i < s.len(),
        is_live_user_rec(s[i], user, now),
    ensures
        live_for(s.remove(i), user, now).len() == live_for(s, user, now).len() - 1,
        others_for(s.remove(i), user, now) == others_for(s, user, now),
        forall|x: RefreshTokenView|
            live_for(s.remove(i), user, now).contains(x) ==> live_for(s, user, now).contains(x),
        forall|x: RefreshTokenView| s.remove(i).contains(x) ==> s.contains(x),
        forall|x: RefreshTokenView|
            live_for(s, user, now).contains(x) && x != s[i] ==> live_for(
                s.remove(i),
                user,
                now,
            ).contains(x),
{
    broadcast use Seq::filter_distributes_over_add;

    let s0 = s.subrange(0, i);
    let s2 = s.subrange(i + 1, s.len() as int);
    let m = seq![s[i]];
    assert(s =~= s0 + m + s2);
    reveal_with_fuel(Seq::filter, 2);
    assert(m.drop_last() =~= Seq::<RefreshTokenView>::empty());
    assert(live_for(m, user, now) =~= m);
    assert(others_for(m, user, now) =~= Seq::<RefreshTokenView>::empty());
    assert(live_for(s, user, now) == live_for(s0, user, now) + m + live_for(s2, user, now));
    assert(live_for(s.remove(i), user, now) == live_for(s0, user, now) + live_for(s2, user, now));
    assert(others_for(s, user, now) == others_for(s0, user, now) + others_for(s2, user, now));
    assert(others_for(s.remove(i), user, now) =~= others_for(s, user, now));
    assert forall|x: RefreshTokenView| s.remove(i).contains(x) implies s.contains(x) by {
        let k = choose|k: int| 0 <= k < s.remove(i).len() && s.remove(i)[k] == x;
        if k < i {
            assert(s[k] == x);
        } else {
            assert(s[k + 1] == x);
        }
    }
    assert forall|x: RefreshTokenView|
        live_for(s.remove(i), user, now).contains(x) implies live_for(s, user, now).contains(
        x,
    ) by {
        let f0 = live_for(s0, user, now);
        let f2 = live_for(s2, user, now);
        let k = choose|k: int| 0 <= k < (f0 + f2).len() && (f0 + f2)[k] == x;
        let whole = live_for(s, user, now);
        assert(whole == f0 + m + f2);
        if k < f0.len() {
            assert(whole[k] == x);
        } else {
            assert(whole[k + 1] == x);
        }
    }
    assert forall|x: RefreshTokenView|
        live_for(s, user, now).contains(x) && x != s[i] implies live_for(
        s.remove(i),
        user,
        now,
    ).contains(x) by {
        let f0 = live_for(s0, user, now);
        let f2 = live_for(s2, user, now);
        let whole = live_for(s, user, now);
        assert(whole == f0 + m + f2);
        let k = choose|k: int| 0 <= k < whole.len() && whole[k] == x;
        let part = live_for(s.remove(i), user, now);
        assert(part == f0 + f2);
        if k < f0.len() {
            assert(part[k] == x);
        } else if k == f0.len() {
            assert(x == s[i]);
        } else {
            assert(part[k - 1] == x);
        }
    }
}

/// `live_for` yields records of the store that are live records of `user`.
proof fn lemma_live_for_subset(s: Seq<RefreshTokenView>, user: Seq<char>, now: int)
    ensures
        forall|x: RefreshTokenView| #[trigger]
            live_for(s, user, now).contains(x) ==> s.contains(x) && is_live_user_rec(
                x,
                user,
                now,
            ),
    decreases s.len(),
{
    reveal(Seq::filter);
    if s.len() > 0 {
        lemma_live_for_subset(s.drop_last(), user, now);
        assert forall|x: RefreshTokenView| #[trigger]
            live_for(s, user, now).contains(x) implies s.contains(x) && is_live_user_rec(
            x,
            user,
            now,
        ) by {
            if live_for(s.drop_last(), user, now).contains(x) {
                let k = choose|k: int|
                    0 <= k < s.drop_last().len() && s.drop_last()[k] == x;
                assert(s[k] == x);
            } else {
                assert(x == s.last());
            }
        }
    }
}

/// A store in which no record is a live record of `user` has an empty
/// `live_for`.
proof fn lemma_live_for_none(s: Seq<RefreshTokenView>, user: Seq<char>, now: int)
    requires
        forall|j: int| 0 <= j < s.len() ==> !is_live_user_rec(#[trigger] s[j], user, now),
    ensures
        live_for(s, user, now).len() == 0,
    decreases s.len(),
{
    reveal(Seq::filter);
    if s.len() > 0 {
        assert(forall|j: int|
            0 <= j < s.drop_last().len() ==> !is_live_user_rec(
                #[trigger] s.drop_last()[j],
                user,
                now,
            ));
        lemma_live_for_none(s.drop_last(), user, now);
    }
}

/// The store itself: its view is the sequence of record views, in order.
pub struct RefreshTokenStore {
    records: Vec<RefreshToken>,
}

impl View for RefreshTokenStore {
    type V = Seq<RefreshTokenView>;

    closed spec fn view(&self) -> Seq<RefreshTokenView> {
        Seq::new(self.records@.len() as nat, |i: int| self.records@[i]@)
    }
}

impl RefreshTokenStore {
    /// An empty store.
    pub fn new() -> (r: Self)
        ensures
            r@ == Seq::<RefreshTokenView>::empty(),
    {
        let r = RefreshTokenStore { records: Vec::new() };
        proof {
            assert(r@ =~= Seq::<RefreshTokenView>::empty());
        }
        r
    }

    /// The stored records, for inspection; the store itself never hands
    /// out a raw secret.
    pub fn records(&self) -> (r: &Vec<RefreshToken>)
        ensures
            r@.len() == self@.len(),
            forall|i: int| 0 <= i < r@.len() ==> (#[trigger] r@[i])@ == self@[i],
    {
        &self.records
    }

    /// How many unexpired records `user_id` holds at `now`.
    pub fn count_live(&self, user_id: &String, now: i64) -> (n: usize)
        ensures
            n == live_for(self@, user_id@, now as int).len(),
    {
        let ghost s = self@;
        let mut n: usize = 0;
        let mut i: usize = 0;
        proof {
            assert(s.subrange(0, 0) =~= Seq::<RefreshTokenView>::empty());
            reveal(Seq::filter);
        }
        while i < self.records.len()
            invariant
                i <= self.records.len(),
                s == self@,
                self.records@.len() == s.len(),
                n == live_for(s.subrange(0, i as int), user_id@, now as int).len(),
                n <= i,
            decreases self.records.len() - i,
        {
            let rec = &self.records[i];
            proof {
                assert(s.subrange(0, i as int + 1) =~= s.subrange(0, i as int).push(s[i as int]));
                lemma_live_for_push(s.subrange(0, i as int), s[i as int], user_id@, now as int);
                assert(rec@ == s[i as int]);
            }
            if rec.user == *user_id && rec.expires_at > now {
                n = n + 1;
            }
            i = i + 1;
        }
        proof {
            assert(s.subrange(0, s.len() as int) =~= s);
        }
        n
    }

    /// Find a stored record by the digest of its secret. An expired record
    /// is treated as absent, however recently it expired.
    pub fn lookup_by_hash(&self, token_hash: &String, now: i64) -> (r: Option<RefreshToken>)
        ensures
            r matches Some(t) ==> exists|i: int|
                {
                    &&& 0 <= i < self@.len()
                    &&& #[trigger] self@[i] == t@
                    &&& t@.token_hash == token_hash@
                    &&& t@.live_at(now as int)
                    &&& forall|j: int|
                        0 <= j < i ==> !(#[trigger] self@[j].token_hash == token_hash@
                            && self@[j].live_at(now as int))
                },
            r is None ==> forall|i: int|
                0 <= i < self@.len() ==> !(#[trigger] self@[i].token_hash == token_hash@
                    && self@[i].live_at(now as int)),
    {
        let ghost s = self@;
        let mut i: usize = 0;
        while i < self.records.len()
            invariant
                i <= self.records.len(),
                s == self@,
                self.records@.len() == s.len(),
                forall|j: int|
                    0 <= j < i as int ==> !(#[trigger] s[j].token_hash == token_hash@
                        && s[j].live_at(now as int)),
            decreases self.records.len() - i,
        {
            let rec = &self.records[i];
            proof {
                assert(rec@ == s[i as int]);
            }
            if rec.token_hash == *token_hash && rec.expires_at > now {
                let out = rec.clone();
                proof {
                    assert(s[i as int] == out@);
                    assert(0 <= (i as int) < s.len() && s[i as int] == out@);
                }
                return Some(out);
            }
            i = i + 1;
        }
        None
    }

    /// Stamp `last_used_at` on the record with the given id, for audit.
    /// Validity and expiry are untouched.
    pub fn update_last_used(&mut self, token_id: &String, now: i64)
        ensures
            final(self)@.len() == old(self)@.len(),
            forall|i: int|
                0 <= i < old(self)@.len() ==> #[trigger] final(self)@[i] == (if old(
                    self,
                )@[i].id == token_id@ {
                    RefreshTokenView { last_used_at: Some(now as int), ..old(self)@[i] }
                } else {
                    old(self)@[i]
                }),
    {
        let ghost s0 = old(self)@;
        let n = self.records.len();
        let mut i: usize = 0;
        while i < n
            invariant
                i <= n,
                n == self.records@.len(),
                self.records@.len() == s0.len(),
                self@.len() == s0.len(),
                forall|j: int|
                    i as int <= j < s0.len() ==> #[trigger] self@[j] == s0[j],
                forall|j: int|
                    0 <= j < i as int ==> #[trigger] self@[j] == (if s0[j].id == token_id@ {
                        RefreshTokenView { last_used_at: Some(now as int), ..s0[j] }
                    } else {
                        s0[j]
                    }),
            decreases n - i,
        {
            let ghost pre = self@;
            if self.records[i].id == *token_id {
                self.records[i].last_used_at = Some(now);
            }
            proof {
                assert(self@.len() == pre.len());
                assert(forall|j: int|
                    0 <= j < pre.len() && j != i as int ==> #[trigger] self@[j] == pre[j]);
                assert(pre[i as int] == s0[i as int]);
                if s0[i as int].id == token_id@ {
                    assert(self@[i as int] == RefreshTokenView {
                        last_used_at: Some(now as int),
                        ..s0[i as int]
                    });
                } else {
                    assert(self@[i as int] == s0[i as int]);
                }
            }
            i = i + 1;
        }
    }

    /// Delete every record of `user_id`: logout, or suspected compromise.
    pub fn revoke_all_user_tokens(&mut self, user_id: &String)
        ensures
            final(self)@ == old(self)@.filter(
                (|r: RefreshTokenView| r.user != user_id@),
            ),
    {
        let ghost s = old(self)@;
        let ghost keep = (|r: RefreshTokenView| r.user != user_id@);
        let mut kept: Vec<RefreshToken> = Vec::new();
        let mut i: usize = 0;
        proof {
            assert(s.subrange(0, 0) =~= Seq::<RefreshTokenView>::empty());
            reveal(Seq::filter);
            assert(Seq::new(kept@.len() as nat, |k: int| kept@[k]@) =~= s.subrange(0, 0).filter(
                keep,
            ));
        }
        while i < self.records.len()
            invariant
                i <= self.records.len(),
                s == self@,
                self.records@.len() == s.len(),
                Seq::new(kept@.len() as nat, |k: int| kept@[k]@) == s.subrange(0, i as int).filter(
                    keep,
                ),
                keep == (|r: RefreshTokenView| r.user != user_id@),
            decreases self.records.len() - i,
        {
            let ghost pre = Seq::new(kept@.len() as nat, |k: int| kept@[k]@);
            let rec = &self.records[i];
            proof {
                assert(rec@ == s[i as int]);
                assert(s.subrange(0, i as int + 1) =~= s.subrange(0, i as int).push(s[i as int]));
                reveal(Seq::filter);
                assert(s.subrange(0, i as int).push(s[i as int]).drop_last() =~= s.subrange(
                    0,
                    i as int,
                ));
            }
            if rec.user != *user_id {
                let c = rec.clone();
                kept.push(c);
                proof {
                    assert(Seq::new(kept@.len() as nat, |k: int| kept@[k]@) =~= pre.push(
                        s[i as int],
                    ));
                }
            }
            i = i + 1;
        }
        proof {
            assert(s.subrange(0, s.len() as int) =~= s);
        }
        self.records = kept;
        proof {
            assert(final(self)@ =~= s.filter(keep));
        }
    }

    /// Delete every expired record and say how many went. Hygiene only:
    /// lookups already treat expired records as absent.
    pub fn reap_expired(&mut self, now: i64) -> (count: usize)
        ensures
            final(self)@ == old(self)@.filter((|r: RefreshTokenView| r.live_at(now as int))),
            count == old(self)@.len() - final(self)@.len(),
    {
        let ghost s = old(self)@;
        let ghost keep = (|r: RefreshTokenView| r.live_at(now as int));
        let before = self.records.len();
        let mut kept: Vec<RefreshToken> = Vec::new();
        let mut i: usize = 0;
        proof {
            assert(s.subrange(0, 0) =~= Seq::<RefreshTokenView>::empty());
            reveal(Seq::filter);
            assert(Seq::new(kept@.len() as nat, |k: int| kept@[k]@) =~= s.subrange(0, 0).filter(
                keep,
            ));
        }
        while i < self.records.len()
            invariant
                i <= self.records.len(),
                s == self@,
                self.records@.len() == s.len(),
                Seq::new(kept@.len() as nat, |k: int| kept@[k]@) == s.subrange(0, i as int).filter(
                    keep,
                ),
                kept@.len() <= i,
                keep == (|r: RefreshTokenView| r.live_at(now as int)),
            decreases self.records.len() - i,
        {
            let ghost pre = Seq::new(kept@.len() as nat, |k: int| kept@[k]@);
            let rec = &self.records[i];
            proof {
                assert(rec@ == s[i as int]);
                assert(s.subrange(0, i as int + 1) =~= s.subrange(0, i as int).push(s[i as int]));
                reveal(Seq::filter);
                assert(s.subrange(0, i as int).push(s[i as int]).drop_last() =~= s.subrange(
                    0,
                    i as int,
                ));
            }
            if rec.expires_at > now {
                let c = rec.clone();
                kept.push(c);
                proof {
                    assert(Seq::new(kept@.len() as nat, |k: int| kept@[k]@) =~= pre.push(
                        s[i as int],
                    ));
                }
            }
            i = i + 1;
        }
        proof {
            assert(s.subrange(0, s.len() as int) =~= s);
        }
        let after = kept.len();
        self.records = kept;
        proof {
            assert(final(self)@ =~= s.filter(keep));
        }
        before - after
    }

    /// Remove one oldest-by-`created_at` unexpired record of `user_id`.
    fn remove_oldest_live(&mut self, user_id: &String, now: i64)
        requires
            live_for(old(self)@, user_id@, now as int).len() > 0,
        ensures
            exists|i: int|
                0 <= i < old(self)@.len() && is_live_user_rec(
                    #[trigger] old(self)@[i],
                    user_id@,
                    now as int,
                ) && final(self)@ == old(self)@.remove(i) && (forall|j: int|
                    0 <= j < old(self)@.len() && is_live_user_rec(
                        #[trigger] old(self)@[j],
                        user_id@,
                        now as int,
                    ) ==> old(self)@[i].created_at <= old(self)@[j].created_at),
    {
        let ghost s = old(self)@;
        let n = self.records.len();
        let mut best: usize = 0;
        let mut found = false;
        let mut i: usize = 0;
        while i < n
            invariant
                i <= n,
                n == self.records@.len(),
                s == self@,
                self.records@.len() == s.len(),
                found ==> best < i && is_live_user_rec(s[best as int], user_id@, now as int)
                    && (forall|j: int|
                    0 <= j < i as int && is_live_user_rec(#[trigger] s[j], user_id@, now as int)
                        ==> s[best as int].created_at <= s[j].created_at),
                !found ==> forall|j: int|
                    0 <= j < i as int ==> !is_live_user_rec(#[trigger] s[j], user_id@, now as int),
            decreases n - i,
        {
            let rec = &self.records[i];
            proof {
                assert(rec@ == s[i as int]);
            }
            if rec.user == *user_id && rec.expires_at > now {
                if !found || rec.created_at < self.records[best].created_at {
                    best = i;
                    found = true;
                }
            }
            i = i + 1;
        }
        if !found {
            proof {
                lemma_live_for_none(s, user_id@, now as int);
                assert(false);
            }
        }
        self.records.remove(best);
        proof {
            assert(self@ =~= s.remove(best as int));
        }
    }

    /// Enforce the cap right before an insert: while `user_id` holds
    /// `MAX_REFRESH_TOKENS_PER_USER` or more unexpired records, delete the
    /// oldest, leaving room for exactly one new record. Under the cap,
    /// nothing moves.
    fn cleanup_old_tokens(&mut self, user_id: &String, now: i64)
        ensures
            live_for(old(self)@, user_id@, now as int).len() < MAX_REFRESH_TOKENS_PER_USER
                ==> final(self)@ == old(self)@,
            live_for(old(self)@, user_id@, now as int).len() >= MAX_REFRESH_TOKENS_PER_USER
                ==> live_for(final(self)@, user_id@, now as int).len()
                == MAX_REFRESH_TOKENS_PER_USER - 1,
            others_for(final(self)@, user_id@, now as int) == others_for(
                old(self)@,
                user_id@,
                now as int,
            ),
            forall|x: RefreshTokenView| final(self)@.contains(x) ==> old(self)@.contains(x),
            forall|x: RefreshTokenView|
                live_for(final(self)@, user_id@, now as int).contains(x) ==> live_for(
                    old(self)@,
                    user_id@,
                    now as int,
                ).contains(x),
            forall|a: RefreshTokenView, b: RefreshTokenView|
                live_for(old(self)@, user_id@, now as int).contains(a) && !live_for(
                    final(self)@,
                    user_id@,
                    now as int,
                ).contains(a) && live_for(final(self)@, user_id@, now as int).contains(b)
                    ==> a.created_at <= b.created_at,
    {
        let ghost s = old(self)@;
        let ghost u = user_id@;
        let ghost t = now as int;
        let count = self.count_live(user_id, now);
        if count >= MAX_REFRESH_TOKENS_PER_USER {
            let to_delete = count - MAX_REFRESH_TOKENS_PER_USER + 1;
            let mut k: usize = 0;
            while k < to_delete
                invariant
                    k <= to_delete,
                    to_delete == count - MAX_REFRESH_TOKENS_PER_USER + 1,
                    count >= MAX_REFRESH_TOKENS_PER_USER,
                    count == live_for(s, u, t).len(),
                    live_for(self@, u, t).len() == count - k,
                    others_for(self@, u, t) == others_for(s, u, t),
                    forall|x: RefreshTokenView| self@.contains(x) ==> s.contains(x),
                    forall|x: RefreshTokenView|
                        live_for(self@, u, t).contains(x) ==> live_for(s, u, t).contains(x),
                    forall|a: RefreshTokenView, b: RefreshTokenView|
                        live_for(s, u, t).contains(a) && !live_for(self@, u, t).contains(a)
                            && live_for(self@, u, t).contains(b) ==> a.created_at <= b.created_at,
                    u == user_id@,
                    t == now as int,
                decreases to_delete - k,
            {
                let ghost mid = self@;
                self.remove_oldest_live(user_id, now);
                proof {
                    let i = choose|i: int|
                        0 <= i < mid.len() && is_live_user_rec(#[trigger] mid[i], u, t) && self@
                            == mid.remove(i) && (forall|j: int|
                            0 <= j < mid.len() && is_live_user_rec(#[trigger] mid[j], u, t)
                                ==> mid[i].created_at <= mid[j].created_at);
                    lemma_live_for_remove(mid, i, u, t);
                    lemma_live_for_subset(mid, u, t);
                    lemma_live_for_subset(self@, u, t);
                    assert forall|a: RefreshTokenView, b: RefreshTokenView|
                        live_for(s, u, t).contains(a) && !live_for(self@, u, t).contains(a)
                            && live_for(self@, u, t).contains(b) implies a.created_at
                        <= b.created_at by {
                        assert(live_for(mid, u, t).contains(b));
                        if live_for(mid, u, t).contains(a) {
                            assert(a == mid[i]);
                            let jb = choose|jb: int| 0 <= jb < mid.len() && mid[jb] == b;
                            assert(is_live_user_rec(mid[jb], u, t));
                        }
                    }
                }
                k = k + 1;
            }
        }
    }

    /// Make and store a fresh refresh record for `user_id`, whose digest is
    /// the SHA-256 of `token`; the raw secret itself is never stored. The
    /// cap is enforced first, so at most `MAX_REFRESH_TOKENS_PER_USER`
    /// unexpired records remain, and any evicted record is at least as old
    /// as every record kept.
    pub fn create_refresh_token(&mut self, user_id: &String, token: &String, now: i64) -> (r:
        RefreshToken)
        requires
            now <= i64::MAX - REFRESH_TOKEN_EXPIRY_SECS,
        ensures
            r@.user == user_id@,
            r@.token_hash == sha256_hex(token@),
            r@.created_at == now as int,
            r@.expires_at == now + REFRESH_TOKEN_EXPIRY_SECS,
            r@.last_used_at is None,
            final(self)@.len() >= 1 && final(self)@.last() == r@,
            live_for(final(self)@, user_id@, now as int).len() <= MAX_REFRESH_TOKENS_PER_USER,
            ({
                let before = live_for(old(self)@, user_id@, now as int).len();
                live_for(final(self)@, user_id@, now as int).len() == if before
                    >= MAX_REFRESH_TOKENS_PER_USER {
                    MAX_REFRESH_TOKENS_PER_USER as int
                } else {
                    before + 1int
                }
            }),
            live_for(old(self)@, user_id@, now as int).len() < MAX_REFRESH_TOKENS_PER_USER
                ==> final(self)@ == old(self)@.push(r@),
            others_for(final(self)@, user_id@, now as int) == others_for(
                old(self)@,
                user_id@,
                now as int,
            ),
            forall|x: RefreshTokenView|
                final(self)@.drop_last().contains(x) ==> old(self)@.contains(x),
            forall|a: RefreshTokenView, b: RefreshTokenView|
                live_for(old(self)@, user_id@, now as int).contains(a) && !live_for(
                    final(self)@,
                    user_id@,
                    now as int,
                ).contains(a) && live_for(final(self)@, user_id@, now as int).contains(b) && b
                    != r@ ==> a.created_at <= b.created_at,
    {
        let ghost s = old(self)@;
        let ghost u = user_id@;
        let ghost t = now as int;
        self.cleanup_old_tokens(user_id, now);
        let ghost mid = self@;
        let id = new_record_id();
        let token_hash = hash_token(token.as_str());
        let rec = RefreshToken {
            id,
            user: user_id.clone(),
            token_hash,
            expires_at: now + REFRESH_TOKEN_EXPIRY_SECS,
            created_at: now,
            last_used_at: None,
        };
        let out = rec.clone();
        self.records.push(rec);
        proof {
            assert(self@ =~= mid.push(out@));
            lemma_live_for_push(mid, out@, u, t);
            assert(self@.drop_last() =~= mid);
            assert forall|b: RefreshTokenView|
                live_for(self@, u, t).contains(b) && b != out@ implies live_for(
                mid,
                u,
                t,
            ).contains(b) by {
                let f = live_for(mid, u, t);
                let k = choose|k: int| 0 <= k < f.push(out@).len() && f.push(out@)[k] == b;
                assert(f[k] == b);
            }
            assert forall|a: RefreshTokenView|
                live_for(mid, u, t).contains(a) implies live_for(self@, u, t).contains(a) by {
                let f = live_for(mid, u, t);
                let k = choose|k: int| 0 <= k < f.len() && f[k] == a;
                assert(f.push(out@)[k] == a);
            }
            assert forall|a: RefreshTokenView, b: RefreshTokenView|
                live_for(s, u, t).contains(a) && !live_for(self@, u, t).contains(a) && live_for(
                self@,
                u,
                t,
            ).contains(b) && b != out@ implies a.created_at <= b.created_at by {
                assert(!live_for(mid, u, t).contains(a));
                assert(live_for(mid, u, t).contains(b));
            }
        }
        out
    }
}

} // verus!
