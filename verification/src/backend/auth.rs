use crate::backend::database::{keys_unique, User, UserView};
use crate::backend::util::{hash_key, spec_hash_key};
use vstd::prelude::*;

verus! {

/// The API-key checks that guard the endpoints.
pub struct Auth {}

/// Whether some row of the `Users` table stores `hash`.
pub open spec fn stores_hash(users: Seq<User>, hash: Seq<char>) -> bool {
    exists|i: int| 0 <= i < users.len() && (#[trigger] users[i])@.apikey == hash
}

/// Whether some non-administrator row stores `hash`.
pub open spec fn non_admin_stores_hash(users: Seq<User>, hash: Seq<char>) -> bool {
    exists|i: int| 0 <= i < users.len() && !(#[trigger] users[i])@.is_admin && users[i]@.apikey == hash
}

/// A key is accepted when it is not empty and its salted hash is stored.
pub open spec fn spec_key_check(key: Seq<char>, salt: Seq<char>, users: Seq<User>) -> bool {
    key.len() > 0 && stores_hash(users, spec_hash_key(key, salt))
}

/// A key passes the administrator check when it is not empty and no
/// non-administrator row stores its salted hash.
pub open spec fn spec_is_admin_check(key: Seq<char>, salt: Seq<char>, users: Seq<User>) -> bool {
    key.len() > 0 && !non_admin_stores_hash(users, spec_hash_key(key, salt))
}

impl Auth {
    /// Whether `key` is the API key of some account of `users` (the rows of
    /// the `Users` table, which store hashed keys). An empty key is refused.
    pub fn key_check(key: &str, salt: &str, users: &Vec<User>) -> (ok: bool)
        ensures
            ok == spec_key_check(key@, salt@, users@),
    {
        if key.is_empty() {
            return false;
        }
        let hash = hash_key(key, salt);
        let n = users.len();
        let mut i: usize = 0;
        while i < n
            invariant
                n == users@.len(),
                i <= n,
                hash@ == spec_hash_key(key@, salt@),
                key@.len() > 0,
                forall|j: int| 0 <= j < i ==> (#[trigger] users@[j])@.apikey != hash@,
            decreases n - i,
        {
            if *users[i].apikey() == hash {
                assert(users@[i as int]@.apikey == hash@);
                return true;
            }
            i = i + 1;
        }
        false
    }

    /// Whether `key` may act as an administrator: it is not empty and no
    /// non-administrator account stores its hash. (A key that no account
    /// stores passes too; the endpoints pair this with `key_check`.)
    pub fn is_admin_check(key: &str, salt: &str, users: &Vec<User>) -> (ok: bool)
        ensures
            ok == spec_is_admin_check(key@, salt@, users@),
    {
        if key.is_empty() {
            return false;
        }
        let hash = hash_key(key, salt);
        let n = users.len();
        let mut i: usize = 0;
        while i < n
            invariant
                n == users@.len(),
                i <= n,
                hash@ == spec_hash_key(key@, salt@),
                key@.len() > 0,
                forall|j: int|
                    0 <= j < i ==> (#[trigger] users@[j])@.is_admin || users@[j]@.apikey != hash@,
            decreases n - i,
        {
            if !users[i].is_admin() && *users[i].apikey() == hash {
                assert(!users@[i as int]@.is_admin && users@[i as int]@.apikey == hash@);
                return false;
            }
            i = i + 1;
        }
        true
    }
}

/// A non-empty key whose salted hash some stored row holds is accepted.
pub proof fn lemma_stored_key_is_accepted(key: Seq<char>, salt: Seq<char>, users: Seq<User>, row: User)
    requires
        key.len() > 0,
        users.contains(row),
        row@.apikey == spec_hash_key(key, salt),
    ensures
        spec_key_check(key, salt, users),
{
    let i = choose|i: int| 0 <= i < users.len() && users[i] == row;
    assert(users[i]@.apikey == spec_hash_key(key, salt));
}

/// Where keys are unique, the key stored in a row passes the administrator
/// check exactly when that row is an administrator's.
pub proof fn lemma_admin_check_follows_row(key: Seq<char>, salt: Seq<char>, users: Seq<User>, i: int)
    requires
        key.len() > 0,
        keys_unique(users),
        0 <= i < users.len(),
        users[i]@.apikey == spec_hash_key(key, salt),
    ensures
        spec_is_admin_check(key, salt, users) == users[i]@.is_admin,
{
    if non_admin_stores_hash(users, spec_hash_key(key, salt)) {
        let j = choose|j: int|
            0 <= j < users.len() && !(#[trigger] users[j])@.is_admin && users[j]@.apikey
                == spec_hash_key(key, salt);
        assert(users[j]@.apikey == users[i]@.apikey);
    } else {
        assert(!(!users[i]@.is_admin && users[i]@.apikey == spec_hash_key(key, salt)));
    }
}

/// The key printed for the first account, an administrator, is accepted and
/// passes the administrator check once that account's row (its key hashed
/// with the salt) is the only row stored.
pub proof fn lemma_first_admin_key(user: User, salt: Seq<char>, row: User)
    requires
        user@.is_admin,
        user@.apikey.len() > 0,
        row@ == (UserView { apikey: spec_hash_key(user@.apikey, salt), ..user@ }),
    ensures
        spec_key_check(user@.apikey, salt, seq![row]),
        spec_is_admin_check(user@.apikey, salt, seq![row]),
{
    let users = seq![row];
    assert(users[0] == row);
    assert(users.contains(row));
    lemma_stored_key_is_accepted(user@.apikey, salt, users, row);
    lemma_admin_check_follows_row(user@.apikey, salt, users, 0);
}

} // verus!
