//! Credential verification and the authentication session table. Secrets
//! are stored only as salted, memory-hard derived keys; verification
//! compares keys in constant time; tokens are minted from fresh
//! randomness and live for a fixed span.
use vstd::prelude::*;
use vstd::string::*;

use crate::store::{
    Keyed, spec_has, spec_index_of, spec_at, spec_unique, lemma_at_index, lemma_remove_store,
    lemma_push_store,
};
use crate::secrets::{key_of, derive_key, constant_time_eq};
use crate::entropy::fresh_random_bytes;
use crate::strutil::{str_eq, bytes_to_hex, lemma_hex_len};
use crate::SESSION_TTL_SECS;

verus! {

/// The longest secret the key derivation accepts, in bytes.
pub const MAX_SECRET_BYTES: usize = 0xFFFFFFF;

pub struct Session {
    pub username: String,
    pub created_at: u64,
    pub expires_at: u64,
}

impl Session {
    /// A session is live while `now` has not reached its expiry.
    pub open spec fn live(&self, now: u64) -> bool {
        self.expires_at > now
    }
}

impl Clone for Session {
    fn clone(&self) -> (r: Self)
        ensures
            r == *self,
    {
        Session {
            username: self.username.clone(),
            created_at: self.created_at,
            expires_at: self.expires_at,
        }
    }
}

struct SessionEntry {
    token: String,
    session: Session,
}

impl Keyed for SessionEntry {
    closed spec fn key(&self) -> Seq<char> {
        self.token@
    }
}

struct CredEntry {
    username: String,
    salt: Vec<u8>,
    key: Vec<u8>,
}

impl Keyed for CredEntry {
    closed spec fn key(&self) -> Seq<char> {
        self.username@
    }
}

pub struct AuthManager {
    credentials: Vec<CredEntry>,
    sessions: Vec<SessionEntry>,
}

impl AuthManager {
    pub closed spec fn inv(&self) -> bool {
        &&& spec_unique(self.credentials@)
        &&& spec_unique(self.sessions@)
        &&& forall|i: int|
            0 <= i < self.credentials@.len() ==> (#[trigger] self.credentials@[i]).salt@.len()
                == 16
    }

    pub closed spec fn has_token(&self, token: Seq<char>) -> bool {
        spec_has(self.sessions@, token)
    }

    pub closed spec fn session_of(&self, token: Seq<char>) -> Session {
        spec_at(self.sessions@, token).session
    }

    pub closed spec fn has_credential(&self, username: Seq<char>) -> bool {
        spec_has(self.credentials@, username)
    }

    pub closed spec fn credential_salt(&self, username: Seq<char>) -> Seq<u8> {
        spec_at(self.credentials@, username).salt@
    }

    pub closed spec fn credential_key(&self, username: Seq<char>) -> Seq<u8> {
        spec_at(self.credentials@, username).key@
    }

    /// All credentials as they were: nothing added, dropped or changed.
    pub open spec fn credentials_unchanged(pre: &Self, post: &Self) -> bool {
        forall|u: Seq<char>|
            #![trigger post.has_credential(u)]
            post.has_credential(u) == pre.has_credential(u) && (pre.has_credential(u)
                ==> post.credential_salt(u) == pre.credential_salt(u) && post.credential_key(u)
                == pre.credential_key(u))
    }

    /// All sessions as they were: nothing added, dropped or changed.
    pub open spec fn sessions_unchanged(pre: &Self, post: &Self) -> bool {
        forall|t: Seq<char>|
            #![trigger post.has_token(t)]
            post.has_token(t) == pre.has_token(t) && (pre.has_token(t) ==> post.session_of(t)
                == pre.session_of(t))
    }

    pub fn new() -> (r: AuthManager)
        ensures
            r.inv(),
            forall|t: Seq<char>| !r.has_token(t),
            forall|u: Seq<char>| !r.has_credential(u),
    {
        AuthManager { credentials: Vec::new(), sessions: Vec::new() }
    }

    fn find_credential(&self, username: &str) -> (r: Option<usize>)
        ensures
            match r {
                Some(i) => i < self.credentials@.len() && self.credentials@[i as int].username@
                    == username@,
                None => !self.has_credential(username@),
            },
    {
        let mut i: usize = 0;
        while i < self.credentials.len()
            invariant
                0 <= i <= self.credentials@.len(),
                forall|j: int|
                    0 <= j < i ==> (#[trigger] self.credentials@[j]).username@ != username@,
            decreases self.credentials@.len() - i,
        {
            if str_eq(self.credentials[i].username.as_str(), username) {
                return Some(i);
            }
            i = i + 1;
        }
        None
    }

    fn find_token(&self, token: &str) -> (r: Option<usize>)
        ensures
            match r {
                Some(i) => i < self.sessions@.len() && self.sessions@[i as int].token@ == token@,
                None => !self.has_token(token@),
            },
    {
        let mut i: usize = 0;
        while i < self.sessions.len()
            invariant
                0 <= i <= self.sessions@.len(),
                forall|j: int| 0 <= j < i ==> (#[trigger] self.sessions@[j]).token@ != token@,
            decreases self.sessions@.len() - i,
        {
            if str_eq(self.sessions[i].token.as_str(), token) {
                return Some(i);
            }
            i = i + 1;
        }
        None
    }

    /// Puts a derived credential into the table, replacing any earlier
    /// one of the name. This is the decision half of register_credential,
    /// on the salt and key as plain values: storage is owed
    /// unconditionally.
    pub fn store_credential(&mut self, username: &str, salt: Vec<u8>, key: Vec<u8>)
        requires
            old(self).inv(),
            salt@.len() == 16,
        ensures
            final(self).inv(),
            Self::sessions_unchanged(old(self), final(self)),
            final(self).has_credential(username@),
            final(self).credential_salt(username@) == salt@,
            final(self).credential_key(username@) == key@,
            forall|u2: Seq<char>|
                u2 != username@ ==> final(self).has_credential(u2) == old(self).has_credential(u2),
            forall|u2: Seq<char>|
                u2 != username@ && old(self).has_credential(u2)
                    ==> final(self).credential_salt(u2) == old(self).credential_salt(u2)
                    && final(self).credential_key(u2) == old(self).credential_key(u2),
    {
        match self.find_credential(username) {
            Some(i) => {
                proof {
                    lemma_remove_store(self.credentials@, i as int);
                }
                let _displaced = self.credentials.remove(i);
            },
            None => {},
        }
        let entry = CredEntry { username: String::from_str(username), salt, key };
        proof {
            lemma_push_store(self.credentials@, entry);
        }
        self.credentials.push(entry);
    }

    /// Stores the salted derived key of `secret` for `username`, replacing
    /// any earlier credential of that name. A secret over the length cap
    /// is refused; the only other way to return false, with nothing
    /// changed, is the derivation's working memory being unavailable.
    pub fn register_credential(&mut self, username: &str, secret: &str) -> (r: bool)
        requires
            old(self).inv(),
        ensures
            final(self).inv(),
            !r ==> *final(self) == *old(self),
            Self::sessions_unchanged(old(self), final(self)),
            secret.spec_bytes().len() > MAX_SECRET_BYTES ==> !r,
            r ==> {
                &&& secret.spec_bytes().len() <= MAX_SECRET_BYTES
                &&& final(self).has_credential(username@)
                &&& final(self).credential_salt(username@).len() == 16
                &&& final(self).credential_key(username@) == key_of(
                    secret.spec_bytes(),
                    final(self).credential_salt(username@),
                )
                &&& forall|u2: Seq<char>|
                    u2 != username@ ==> final(self).has_credential(u2) == old(self).has_credential(
                        u2,
                    )
                &&& forall|u2: Seq<char>|
                    u2 != username@ && old(self).has_credential(u2)
                        ==> final(self).credential_salt(u2) == old(self).credential_salt(u2)
                        && final(self).credential_key(u2) == old(self).credential_key(u2)
            },
    {
        let sb = secret.as_bytes_vec();
        if sb.len() > MAX_SECRET_BYTES {
            return false;
        }
        let salt = fresh_random_bytes();
        let derived = match derive_key(&sb, &salt) {
            None => {
                return false;
            },
            Some(k) => k,
        };
        self.store_credential(username, salt, derived);
        true
    }

    /// Verifies the secret against the stored derived key, in constant
    /// time, and on success mints a fresh random token whose session lives
    /// for the fixed span. An unknown name, a secret over the length cap
    /// or a wrong secret yields None with nothing changed; so does the
    /// derivation's working memory being unavailable.
    pub fn authenticate(&mut self, username: &str, password: &str, now: u64) -> (r: Option<String>)
        requires
            old(self).inv(),
            now <= u64::MAX - SESSION_TTL_SECS,
        ensures
            final(self).inv(),
            Self::credentials_unchanged(old(self), final(self)),
            r is None ==> *final(self) == *old(self),
            !old(self).has_credential(username@) ==> r is None,
            password.spec_bytes().len() > MAX_SECRET_BYTES ==> r is None,
            old(self).has_credential(username@) && key_of(
                password.spec_bytes(),
                old(self).credential_salt(username@),
            ) != old(self).credential_key(username@) ==> r is None,
            r matches Some(token) ==> {
                &&& old(self).has_credential(username@)
                &&& password.spec_bytes().len() <= MAX_SECRET_BYTES
                &&& key_of(password.spec_bytes(), old(self).credential_salt(username@)) == old(
                    self,
                ).credential_key(username@)
                &&& token@.len() == 64
                &&& final(self).has_token(token@)
                &&& final(self).session_of(token@).username@ == username@
                &&& final(self).session_of(token@).created_at == now
                &&& final(self).session_of(token@).expires_at == now + SESSION_TTL_SECS
                &&& forall|t2: Seq<char>|
                    t2 != token@ ==> final(self).has_token(t2) == old(self).has_token(t2)
                &&& forall|t2: Seq<char>|
                    t2 != token@ && old(self).has_token(t2) ==> final(self).session_of(t2) == old(
                        self,
                    ).session_of(t2)
            },
    {
        let ci = match self.find_credential(username) {
            None => {
                return None;
            },
            Some(i) => i,
        };
        proof {
            lemma_at_index(self.credentials@, ci as int);
        }
        let pb = password.as_bytes_vec();
        if pb.len() > MAX_SECRET_BYTES {
            return None;
        }
        let derived = match derive_key(&pb, &self.credentials[ci].salt) {
            None => {
                return None;
            },
            Some(k) => k,
        };
        self.authenticate_derived(username, &derived, now)
    }

    /// The decision half of authenticate, on the derived key as a plain
    /// value: a fresh session is minted exactly when a credential is
    /// stored under the name and its key equals the one given, compared
    /// in constant time.
    pub fn authenticate_derived(&mut self, username: &str, derived_key: &Vec<u8>, now: u64) -> (r:
        Option<String>)
        requires
            old(self).inv(),
            now <= u64::MAX - SESSION_TTL_SECS,
        ensures
            final(self).inv(),
            Self::credentials_unchanged(old(self), final(self)),
            r is None ==> *final(self) == *old(self),
            r is Some <==> old(self).has_credential(username@) && derived_key@ == old(
                self,
            ).credential_key(username@),
            r matches Some(token) ==> {
                &&& token@.len() == 64
                &&& final(self).has_token(token@)
                &&& final(self).session_of(token@).username@ == username@
                &&& final(self).session_of(token@).created_at == now
                &&& final(self).session_of(token@).expires_at == now + SESSION_TTL_SECS
                &&& forall|t2: Seq<char>|
                    t2 != token@ ==> final(self).has_token(t2) == old(self).has_token(t2)
                &&& forall|t2: Seq<char>|
                    t2 != token@ && old(self).has_token(t2) ==> final(self).session_of(t2) == old(
                        self,
                    ).session_of(t2)
            },
    {
        let ci = match self.find_credential(username) {
            None => {
                return None;
            },
            Some(i) => i,
        };
        proof {
            lemma_at_index(self.credentials@, ci as int);
        }
        if !constant_time_eq(derived_key, &self.credentials[ci].key) {
            return None;
        }
        let mut token_bytes = fresh_random_bytes();
        let mut more = fresh_random_bytes();
        token_bytes.append(&mut more);
        let token = bytes_to_hex(&token_bytes);
        proof {
            lemma_hex_len(token_bytes@);
        }
        match self.find_token(token.as_str()) {
            Some(i) => {
                proof {
                    lemma_remove_store(self.sessions@, i as int);
                }
                let _displaced = self.sessions.remove(i);
            },
            None => {},
        }
        let entry = SessionEntry {
            token: token.clone(),
            session: Session {
                username: String::from_str(username),
                created_at: now,
                expires_at: now + SESSION_TTL_SECS,
            },
        };
        proof {
            lemma_push_store(self.sessions@, entry);
        }
        self.sessions.push(entry);
        Some(token)
    }

    /// True exactly for a stored, still-live token. A stored token found
    /// expired is evicted on the way; nothing else changes.
    pub fn is_valid_token(&mut self, token: &str, now: u64) -> (r: bool)
        requires
            old(self).inv(),
        ensures
            final(self).inv(),
            Self::credentials_unchanged(old(self), final(self)),
            r == (old(self).has_token(token@) && old(self).session_of(token@).live(now)),
            r ==> *final(self) == *old(self),
            !old(self).has_token(token@) ==> *final(self) == *old(self),
            old(self).has_token(token@) && !old(self).session_of(token@).live(now) ==> {
                &&& !final(self).has_token(token@)
                &&& forall|t2: Seq<char>|
                    t2 != token@ ==> final(self).has_token(t2) == old(self).has_token(t2)
                &&& forall|t2: Seq<char>|
                    t2 != token@ && old(self).has_token(t2) ==> final(self).session_of(t2) == old(
                        self,
                    ).session_of(t2)
            },
    {
        let i = match self.find_token(token) {
            None => {
                return false;
            },
            Some(i) => i,
        };
        proof {
            lemma_at_index(self.sessions@, i as int);
        }
        if self.sessions[i].session.expires_at > now {
            true
        } else {
            proof {
                lemma_remove_store(self.sessions@, i as int);
            }
            let _evicted = self.sessions.remove(i);
            false
        }
    }

    /// Removes the token's session; true when one was there. Idempotent:
    /// a second call returns false and changes nothing.
    pub fn logout(&mut self, token: &str) -> (r: bool)
        requires
            old(self).inv(),
        ensures
            final(self).inv(),
            Self::credentials_unchanged(old(self), final(self)),
            r == old(self).has_token(token@),
            !final(self).has_token(token@),
            forall|t2: Seq<char>|
                t2 != token@ ==> final(self).has_token(t2) == old(self).has_token(t2),
            forall|t2: Seq<char>|
                t2 != token@ && old(self).has_token(t2) ==> final(self).session_of(t2) == old(
                    self,
                ).session_of(t2),
    {
        match self.find_token(token) {
            None => false,
            Some(i) => {
                proof {
                    lemma_at_index(self.sessions@, i as int);
                    lemma_remove_store(self.sessions@, i as int);
                }
                let _removed = self.sessions.remove(i);
                true
            },
        }
    }

    /// Same unconditional removal as logout.
    pub fn invalidate_token(&mut self, token: &str) -> (r: bool)
        requires
            old(self).inv(),
        ensures
            final(self).inv(),
            Self::credentials_unchanged(old(self), final(self)),
            r == old(self).has_token(token@),
            !final(self).has_token(token@),
            forall|t2: Seq<char>|
                t2 != token@ ==> final(self).has_token(t2) == old(self).has_token(t2),
            forall|t2: Seq<char>|
                t2 != token@ && old(self).has_token(t2) ==> final(self).session_of(t2) == old(
                    self,
                ).session_of(t2),
    {
        self.logout(token)
    }

    /// Drops every session past its expiry, keeping the live ones as they
    /// are.
    pub fn cleanup_expired_sessions(&mut self, now: u64)
        requires
            old(self).inv(),
        ensures
            final(self).inv(),
            Self::credentials_unchanged(old(self), final(self)),
            forall|t: Seq<char>|
                final(self).has_token(t) == (old(self).has_token(t) && old(self).session_of(
                    t,
                ).live(now)),
            forall|t: Seq<char>|
                final(self).has_token(t) ==> final(self).session_of(t) == old(self).session_of(t),
    {
        let ghost orig = self.sessions@;
        let mut kept: Vec<SessionEntry> = Vec::new();
        while self.sessions.len() > 0
            invariant
                spec_unique(orig),
                self.sessions@.len() <= orig.len(),
                self.sessions@ == orig.take(self.sessions@.len() as int),
                self.credentials@ == old(self).credentials@,
                spec_unique(kept@),
                forall|t: Seq<char>|
                    spec_has(kept@, t) == (spec_has(orig, t) && spec_index_of(orig, t)
                        >= self.sessions@.len() && spec_at(orig, t).session.expires_at > now),
                forall|t: Seq<char>|
                    spec_has(kept@, t) ==> spec_at(kept@, t) == spec_at(orig, t),
            decreases self.sessions@.len(),
        {
            let ghost m = self.sessions@.len() as int;
            let ghost kept0 = kept@;
            let last = self.sessions.len() - 1;
            let e = self.sessions.remove(last);
            proof {
                assert(orig.take(m)[m - 1] == orig[m - 1]);
                assert(e == orig[m - 1]);
                assert(self.sessions@ =~= orig.take(m - 1));
                lemma_at_index(orig, m - 1);
            }
            let ghost tid = e.token@;
            let live = e.session.expires_at > now;
            if live {
                proof {
                    if spec_has(kept@, tid) {
                        assert(spec_index_of(orig, tid) >= m);
                    }
                    lemma_push_store(kept@, e);
                }
                kept.push(e);
            }
            proof {
                assert forall|t: Seq<char>|
                    spec_has(kept@, t) == (spec_has(orig, t) && spec_index_of(orig, t) >= m - 1
                        && spec_at(orig, t).session.expires_at > now) by {
                    if t == tid {
                        assert(spec_index_of(orig, tid) == m - 1);
                        if live {
                            assert(spec_has(kept@, tid));
                        } else {
                            if spec_has(kept@, tid) {
                                assert(spec_has(kept0, tid));
                                assert(spec_index_of(orig, tid) >= m);
                            }
                        }
                    } else {
                        assert(spec_has(kept@, t) == spec_has(kept0, t));
                        if spec_has(orig, t) {
                            let ki = spec_index_of(orig, t);
                            assert(0 <= ki < orig.len() && orig[ki].token@ == t);
                            assert(ki != m - 1);
                        }
                    }
                }
                assert forall|t: Seq<char>| spec_has(kept@, t) implies spec_at(kept@, t) == spec_at(
                    orig,
                    t,
                ) by {
                    if t == tid {
                        assert(spec_at(orig, tid) == e);
                    } else {
                        assert(spec_has(kept0, t));
                    }
                }
                assert(self.sessions@.len() == m - 1);
                assert forall|t: Seq<char>|
                    spec_has(kept@, t) == (spec_has(orig, t) && spec_index_of(orig, t)
                        >= self.sessions@.len() && spec_at(orig, t).session.expires_at > now) by {
                    assert(spec_has(kept@, t) == (spec_has(orig, t) && spec_index_of(orig, t) >= m
                        - 1 && spec_at(orig, t).session.expires_at > now));
                }
            }
        }
        self.sessions = kept;
    }

    /// Hands out a copy of the session stored under the token, if any.
    pub fn get_session_info(&self, token: &str) -> (r: Option<Session>)
        requires
            self.inv(),
        ensures
            match r {
                Some(s) => self.has_token(token@) && s == self.session_of(token@),
                None => !self.has_token(token@),
            },
    {
        match self.find_token(token) {
            None => None,
            Some(i) => {
                proof {
                    lemma_at_index(self.sessions@, i as int);
                }
                Some(self.sessions[i].session.clone())
            },
        }
    }
}


/// The window in which an issued token validates: for a manager holding
/// the session that authenticate minted at `now`, the token is live at
/// exactly the instants before `now + SESSION_TTL_SECS`, and dead at it
/// and after. Together with is_valid_token's contract this pins the
/// validation result on both sides of the expiry.
pub proof fn lemma_token_valid_window(m: AuthManager, token: Seq<char>, now: u64, now2: u64)
    requires
        m.has_token(token),
        m.session_of(token).expires_at == now + SESSION_TTL_SECS,
    ensures
        now2 < now + SESSION_TTL_SECS ==> m.has_token(token) && m.session_of(token).live(now2),
        now2 >= now + SESSION_TTL_SECS ==> !m.session_of(token).live(now2),
{
}

/// A token the store never held cannot validate: is_valid_token's result
/// equals the conjunction below, which its hypothesis refutes.
pub proof fn lemma_unknown_token_invalid(m: AuthManager, token: Seq<char>, now: u64)
    requires
        !m.has_token(token),
    ensures
        !(m.has_token(token) && m.session_of(token).live(now)),
{
}

} // verus!
