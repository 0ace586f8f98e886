use crate::backend::util::{
    hash_key, is_alphanumeric, random_string, spec_hash_key, total,
};
use vstd::prelude::*;
use vstd::string::StringExecFns;

verus! {

/// A row of the `Users` table: the name, the id, whether the user is an
/// administrator, an upload counter, and the API key (hashed once stored).
pub struct User {
    username: String,
    uid: usize,
    is_admin: bool,
    upload_count: i64,
    apikey: String,
}

/// The plain values that a `User` holds.
pub struct UserView {
    pub username: Seq<char>,
    pub uid: usize,
    pub is_admin: bool,
    pub upload_count: i64,
    pub apikey: Seq<char>,
}

impl View for User {
    type V = UserView;

    closed spec fn view(&self) -> UserView {
        UserView {
            username: self.username@,
            uid: self.uid,
            is_admin: self.is_admin,
            upload_count: self.upload_count,
            apikey: self.apikey@,
        }
    }
}

/// A row of the `Images` table: the stored file's name, its owner's id, and
/// the upload time in seconds since the epoch.
pub struct Img {
    filename: String,
    uid: usize,
    timestamp: i64,
}

/// The plain values that an `Img` holds.
pub struct ImgView {
    pub filename: Seq<char>,
    pub uid: usize,
    pub timestamp: i64,
}

impl View for Img {
    type V = ImgView;

    closed spec fn view(&self) -> ImgView {
        ImgView { filename: self.filename@, uid: self.uid, timestamp: self.timestamp }
    }
}

/// What the login endpoint reports about an account.
pub struct UserData {
    pub username: String,
    pub uid: usize,
    pub is_admin: usize,
    pub upload_count: usize,
    pub uploaded_bytes: u64,
    pub timestamp: usize,
}

/// The rows whose stored key is `hash`, in table order.
pub open spec fn users_with_key(users: Seq<User>, hash: Seq<char>) -> Seq<User> {
    users.filter(|u: User| u@.apikey == hash)
}

/// The images owned by `uid`, in table order.
pub open spec fn images_of(images: Seq<Img>, uid: usize) -> Seq<Img> {
    images.filter(|i: Img| i@.uid == uid)
}

/// The row that a key is taken to belong to where lookups read the last
/// matching row: the last row whose stored key is the key's hash.
pub open spec fn key_owner(key: Seq<char>, salt: Seq<char>, users: Seq<User>) -> Option<User> {
    let found = users_with_key(users, spec_hash_key(key, salt));
    if found.len() == 0 {
        None
    } else {
        Some(found.last())
    }
}

/// The row that a key is taken to belong to where lookups read the first
/// matching row.
pub open spec fn first_key_owner(key: Seq<char>, salt: Seq<char>, users: Seq<User>) -> Option<User> {
    let found = users_with_key(users, spec_hash_key(key, salt));
    if found.len() == 0 {
        None
    } else {
        Some(found[0])
    }
}

/// The id that a key belongs to: that of the last row whose stored key is the
/// key's hash, 0 where no row has it.
pub open spec fn spec_uid_for_key(key: Seq<char>, salt: Seq<char>, users: Seq<User>) -> usize {
    match key_owner(key, salt, users) {
        Some(u) => u@.uid,
        None => 0,
    }
}

/// The images listed for a key: those of the first row that holds the key's
/// hash; nothing where no row does.
pub open spec fn spec_images_for_key(key: Seq<char>, salt: Seq<char>, users: Seq<User>, images: Seq<Img>) -> Option<Seq<Img>> {
    match first_key_owner(key, salt, users) {
        Some(u) => Some(images_of(images, u@.uid)),
        None => None,
    }
}

/// The sum of `sizes[i]` over the first `n` images that belong to `uid`.
pub open spec fn uploaded_bytes(images: Seq<Img>, sizes: Seq<u64>, uid: usize, n: int) -> int
    decreases n,
{
    if n <= 0 {
        0
    } else {
        uploaded_bytes(images, sizes, uid, n - 1) + if images[n - 1]@.uid == uid {
            sizes[n - 1] as int
        } else {
            0
        }
    }
}

/// The latest upload time among a non-empty sequence of images.
pub open spec fn newest(images: Seq<Img>) -> i64
    decreases images.len(),
{
    if images.len() <= 1 {
        images[0]@.timestamp
    } else {
        let before = newest(images.drop_last());
        if before >= images.last()@.timestamp {
            before
        } else {
            images.last()@.timestamp
        }
    }
}

/// Whether the summary of an account can be reported: its upload total fits
/// in a `u64`, and the newest upload time (where there is an upload) is a
/// non-negative value that fits in a `usize`.
pub open spec fn user_data_fits(uid: usize, images: Seq<Img>, sizes: Seq<u64>) -> bool {
    let mine = images_of(images, uid);
    &&& uploaded_bytes(images, sizes, uid, images.len() as int) <= u64::MAX
    &&& mine.len() > 0 ==> 0 <= newest(mine) && newest(mine) <= usize::MAX
}

/// The account summary reported for a key, given the size of each image
/// file (`sizes[i]` for `images[i]`): name, id and admin flag (1 or 0) of the
/// last row holding the key's hash (empty, 0, 0 where none does), the number
/// and total size of that id's images, and the newest upload time (0 where
/// there is none).
pub open spec fn spec_user_data(
    key: Seq<char>,
    salt: Seq<char>,
    users: Seq<User>,
    images: Seq<Img>,
    sizes: Seq<u64>,
    data: UserData,
) -> bool {
    let owner = key_owner(key, salt, users);
    let uid = spec_uid_for_key(key, salt, users);
    let mine = images_of(images, uid);
    &&& data.username@ == match owner {
        Some(u) => u@.username,
        None => Seq::empty(),
    }
    &&& data.uid == uid
    &&& data.is_admin == match owner {
        Some(u) => if u@.is_admin { 1usize } else { 0usize },
        None => 0usize,
    }
    &&& data.upload_count == mine.len()
    &&& data.uploaded_bytes == uploaded_bytes(images, sizes, uid, images.len() as int)
    &&& data.timestamp == if mine.len() == 0 { 0 } else { newest(mine) as int }
}

/// Calls `chrono::Utc::now()` and its `timestamp()`. Trusted: the result is
/// not negative (`Utc::now` builds the time from the seconds elapsed since
/// the epoch and panics on a clock set before it). Which time it is, the
/// contract leaves free.
#[verifier::external_body]
fn now_timestamp() -> (t: i64)
    ensures
        t >= 0,
{
    chrono::Utc::now().timestamp()
}

impl User {
    /// A row as read back from the table.
    pub fn from_row(username: String, uid: usize, is_admin: bool, upload_count: i64, apikey: String) -> (user: User)
        ensures
            user@ == (UserView { username: username@, uid, is_admin, upload_count, apikey: apikey@ }),
    {
        User { username, uid, is_admin, upload_count, apikey }
    }

    /// A new account with the next id and a fresh random API key of 40
    /// letters and digits; it has uploaded nothing yet.
    pub fn new(username: &str, admin: bool, uid: usize) -> (user: User)
        ensures
            user@.username == username@,
            user@.uid == uid,
            user@.is_admin == admin,
            user@.upload_count == 0,
            user@.apikey.len() == 40,
            forall|i: int| 0 <= i < 40 ==> is_alphanumeric(#[trigger] user@.apikey[i]),
    {
        User {
            username: String::from_str(username),
            uid,
            is_admin: admin,
            upload_count: 0,
            apikey: random_string(40),
        }
    }

    /// The row that is stored for this account: the same, with the API key
    /// replaced by its salted hash.
    pub fn hashed(&self, salt: &str) -> (row: User)
        ensures
            row@ == (UserView { apikey: spec_hash_key(self@.apikey, salt@), ..self@ }),
    {
        User {
            username: self.username.clone(),
            uid: self.uid,
            is_admin: self.is_admin,
            upload_count: self.upload_count,
            apikey: hash_key(self.apikey.as_str(), salt),
        }
    }

    pub fn username(&self) -> (r: &String)
        ensures
            r@ == self@.username,
    {
        &self.username
    }

    pub fn uid(&self) -> (r: usize)
        ensures
            r == self@.uid,
    {
        self.uid
    }

    pub fn is_admin(&self) -> (r: bool)
        ensures
            r == self@.is_admin,
    {
        self.is_admin
    }

    pub fn upload_count(&self) -> (r: i64)
        ensures
            r == self@.upload_count,
    {
        self.upload_count
    }

    pub fn apikey(&self) -> (r: &String)
        ensures
            r@ == self@.apikey,
    {
        &self.apikey
    }

    /// The index of the last row whose stored key is `hash`.
    fn find_last(users: &Vec<User>, hash: &String) -> (idx: Option<usize>)
        ensures
            match idx {
                Some(k) => k < users@.len() && users_with_key(users@, hash@).len() > 0
                    && users_with_key(users@, hash@).last() == users@[k as int],
                None => users_with_key(users@, hash@).len() == 0,
            },
    {
        let n = users.len();
        let mut idx: Option<usize> = None;
        let mut i: usize = 0;
        while i < n
            invariant
                n == users@.len(),
                i <= n,
                match idx {
                    Some(k) => k < i && users_with_key(users@.take(i as int), hash@).len() > 0
                        && users_with_key(users@.take(i as int), hash@).last() == users@[k as int],
                    None => users_with_key(users@.take(i as int), hash@).len() == 0,
                },
            decreases n - i,
        {
            proof {
                reveal_with_fuel(Seq::<_>::filter, 1);
                assert(users@.take(i + 1).drop_last() =~= users@.take(i as int));
                assert(users@.take(i + 1).last() == users@[i as int]);
            }
            if users[i].apikey == *hash {
                idx = Some(i);
            }
            i = i + 1;
        }
        assert(users@.take(n as int) =~= users@);
        idx
    }

    /// The index of the first row whose stored key is `hash`.
    fn find_first(users: &Vec<User>, hash: &String) -> (idx: Option<usize>)
        ensures
            match idx {
                Some(k) => k < users@.len() && users_with_key(users@, hash@).len() > 0
                    && users_with_key(users@, hash@)[0] == users@[k as int],
                None => users_with_key(users@, hash@).len() == 0,
            },
    {
        let n = users.len();
        let mut idx: Option<usize> = None;
        let mut i: usize = 0;
        while i < n
            invariant
                n == users@.len(),
                i <= n,
                match idx {
                    Some(k) => k < i && users_with_key(users@.take(i as int), hash@).len() > 0
                        && users_with_key(users@.take(i as int), hash@)[0] == users@[k as int],
                    None => users_with_key(users@.take(i as int), hash@).len() == 0,
                },
            decreases n - i,
        {
            proof {
                reveal_with_fuel(Seq::<_>::filter, 1);
                assert(users@.take(i + 1).drop_last() =~= users@.take(i as int));
                assert(users@.take(i + 1).last() == users@[i as int]);
            }
            if idx.is_none() && users[i].apikey == *hash {
                idx = Some(i);
            }
            i = i + 1;
        }
        assert(users@.take(n as int) =~= users@);
        idx
    }

    /// The id of the account that a key belongs to: the last row whose stored
    /// key is the key's hash, 0 where none is.
    pub fn get_uid_from_key(key: &str, salt: &str, users: &Vec<User>) -> (uid: usize)
        ensures
            uid == spec_uid_for_key(key@, salt@, users@),
    {
        let hash = hash_key(key, salt);
        match User::find_last(users, &hash) {
            Some(k) => users[k].uid,
            None => 0,
        }
    }

    /// The account summary that the login endpoint reports for a key. `sizes`
    /// holds the size of each image's file (`sizes[i]` for `images[i]`; only
    /// those of the key's account are read). `None` where the total size does
    /// not fit in a `u64` or the newest upload time is negative or does not
    /// fit in a `usize`.
    pub fn get_user_data(key: &str, salt: &str, users: &Vec<User>, images: &Vec<Img>, sizes: &Vec<u64>) -> (data: Option<UserData>)
        requires
            sizes@.len() == images@.len(),
        ensures
            match data {
                Some(d) => user_data_fits(spec_uid_for_key(key@, salt@, users@), images@, sizes@)
                    && spec_user_data(key@, salt@, users@, images@, sizes@, d),
                None => !user_data_fits(spec_uid_for_key(key@, salt@, users@), images@, sizes@),
            },
            data matches Some(d) ==> forall|k: int|
                0 <= k < images@.len() && (#[trigger] images@[k])@.uid == d.uid ==> d.timestamp
                    >= images@[k]@.timestamp,
            data matches Some(d) ==> ((exists|k: int|
                0 <= k < images@.len() && (#[trigger] images@[k])@.uid == d.uid) ==> exists|k: int|
                0 <= k < images@.len() && (#[trigger] images@[k])@.uid == d.uid && d.timestamp
                    == images@[k]@.timestamp),
            data matches Some(d) ==> (!(exists|k: int|
                0 <= k < images@.len() && (#[trigger] images@[k])@.uid == d.uid) ==> d.timestamp == 0
                && d.upload_count == 0),
    {
        let hash = hash_key(key, salt);
        let (username, uid, is_admin) = match User::find_last(users, &hash) {
            Some(k) => (users[k].username.clone(), users[k].uid, if users[k].is_admin { 1usize } else { 0usize }),
            None => (String::new(), 0usize, 0usize),
        };
        let ghost mine = images_of(images@, uid);
        let n = images.len();
        let mut count: usize = 0;
        let mut bytes: u64 = 0;
        let mut too_big = false;
        let mut latest: i64 = 0;
        let mut i: usize = 0;
        while i < n
            invariant
                n == images@.len(),
                n == sizes@.len(),
                i <= n,
                count == images_of(images@.take(i as int), uid).len(),
                count > 0 ==> latest == newest(images_of(images@.take(i as int), uid)),
                !too_big ==> bytes == uploaded_bytes(images@, sizes@, uid, i as int),
                too_big ==> uploaded_bytes(images@, sizes@, uid, i as int) > u64::MAX,
                uploaded_bytes(images@, sizes@, uid, i as int) >= 0,
                forall|k: int|
                    0 <= k < i && (#[trigger] images@[k])@.uid == uid ==> latest >= images@[k]@.timestamp,
                count > 0 ==> exists|k: int|
                    0 <= k < i && (#[trigger] images@[k])@.uid == uid && latest == images@[k]@.timestamp,
                count == 0 ==> forall|k: int| 0 <= k < i ==> (#[trigger] images@[k])@.uid != uid,
            decreases n - i,
        {
            proof {
                reveal_with_fuel(Seq::<_>::filter, 1);
                assert(images@.take(i + 1).drop_last() =~= images@.take(i as int));
                assert(images@.take(i + 1).last() == images@[i as int]);
            }
            if images[i].uid == uid {
                let ghost before = images_of(images@.take(i as int), uid);
                let t = images[i].timestamp;
                if count == 0 || t > latest {
                    latest = t;
                }
                proof {
                    let after = images_of(images@.take(i + 1), uid);
                    assert(after == before.push(images@[i as int]));
                    assert(after.drop_last() =~= before);
                }
                count = count + 1;
                if !too_big {
                    match bytes.checked_add(sizes[i]) {
                        Some(b) => {
                            bytes = b;
                        },
                        None => {
                            too_big = true;
                        },
                    }
                }
            }
            i = i + 1;
        }
        assert(images@.take(n as int) =~= images@);
        if too_big {
            return None;
        }
        let timestamp: usize = if count == 0 {
            0
        } else if latest < 0 {
            return None;
        } else if (latest as u64) > (usize::MAX as u64) {
            return None;
        } else {
            latest as usize
        };
        Some(
            UserData {
                username,
                uid,
                is_admin,
                upload_count: count,
                uploaded_bytes: bytes,
                timestamp,
            },
        )
    }

    /// The images of the account that a key belongs to (by the last row that
    /// holds the key's hash, or id 0 where none does): the rows whose files
    /// are to be removed when the account is cleared.
    pub fn nuke(key: &str, salt: &str, users: &Vec<User>, images: &Vec<Img>) -> (doomed: Vec<Img>)
        ensures
            doomed@ == images_of(images@, spec_uid_for_key(key@, salt@, users@)),
    {
        let uid = User::get_uid_from_key(key, salt, users);
        Img::collect_owned(images, uid)
    }
}

impl Img {
    /// A row as read back from the table.
    pub fn from_row(filename: String, uid: usize, timestamp: i64) -> (img: Img)
        ensures
            img@ == (ImgView { filename: filename@, uid, timestamp }),
    {
        Img { filename, uid, timestamp }
    }

    /// The record of a new upload, stamped with the current time.
    pub fn new(filename: String, uid: usize) -> (img: Img)
        ensures
            img@.filename == filename@,
            img@.uid == uid,
            img@.timestamp >= 0,
    {
        let timestamp = now_timestamp();
        Img { filename, uid, timestamp }
    }

    /// A candidate name for an uploaded file: eight random letters and
    /// digits, a dot, and the extension.
    pub fn random_filename(extension: &str) -> (name: String)
        ensures
            name@.len() == 9 + extension@.len(),
            forall|i: int| 0 <= i < 8 ==> is_alphanumeric(#[trigger] name@[i]),
            name@[8] == '.',
            name@.skip(9) == extension@,
    {
        let stem = random_string(8);
        let name = stem.concat(".").concat(extension);
        proof {
            reveal_strlit(".");
            assert(name@.skip(9) =~= extension@);
        }
        name
    }

    pub fn filename(&self) -> (r: &String)
        ensures
            r@ == self@.filename,
    {
        &self.filename
    }

    pub fn uid(&self) -> (r: usize)
        ensures
            r == self@.uid,
    {
        self.uid
    }

    pub fn timestamp(&self) -> (r: i64)
        ensures
            r == self@.timestamp,
    {
        self.timestamp
    }

    /// An identical copy of the row.
    pub fn copied(&self) -> (img: Img)
        ensures
            img == *self,
    {
        Img { filename: self.filename.clone(), uid: self.uid, timestamp: self.timestamp }
    }

    /// The rows of `images` owned by `uid`, in order.
    fn collect_owned(images: &Vec<Img>, uid: usize) -> (owned: Vec<Img>)
        ensures
            owned@ == images_of(images@, uid),
    {
        let n = images.len();
        let mut owned: Vec<Img> = Vec::new();
        let mut i: usize = 0;
        while i < n
            invariant
                n == images@.len(),
                i <= n,
                owned@ == images_of(images@.take(i as int), uid),
            decreases n - i,
        {
            proof {
                reveal_with_fuel(Seq::<_>::filter, 1);
                assert(images@.take(i + 1).drop_last() =~= images@.take(i as int));
                assert(images@.take(i + 1).last() == images@[i as int]);
            }
            if images[i].uid == uid {
                owned.push(images[i].copied());
            }
            i = i + 1;
        }
        assert(images@.take(n as int) =~= images@);
        owned
    }

    /// The images of the account that a key belongs to, by the first row that
    /// holds the key's hash. Some row must hold it.
    pub fn get_images_from_key(key: &str, salt: &str, users: &Vec<User>, images: &Vec<Img>) -> (listed: Vec<Img>)
        requires
            first_key_owner(key@, salt@, users@) is Some,
        ensures
            spec_images_for_key(key@, salt@, users@, images@) == Some(listed@),
    {
        let hash = hash_key(key, salt);
        match User::find_first(users, &hash) {
            Some(k) => Img::collect_owned(images, users[k].uid),
            None => Vec::new(),
        }
    }

    /// The images of the account that a key belongs to, by the first row that
    /// holds the key's hash; `None` where no row holds it.
    pub fn find_images_for_key(key: &str, salt: &str, users: &Vec<User>, images: &Vec<Img>) -> (listed: Option<Vec<Img>>)
        ensures
            match listed {
                Some(v) => spec_images_for_key(key@, salt@, users@, images@) == Some(v@),
                None => spec_images_for_key(key@, salt@, users@, images@) is None,
            },
    {
        let hash = hash_key(key, salt);
        match User::find_first(users, &hash) {
            Some(_) => Some(Img::get_images_from_key(key, salt, users, images)),
            None => None,
        }
    }
}

/// No two rows of the `Users` table store the same key (the `APIKey` column
/// is declared unique).
pub open spec fn keys_unique(users: Seq<User>) -> bool {
    forall|j: int, k: int|
        0 <= j < users.len() && 0 <= k < users.len() && (#[trigger] users[j])@.apikey == (
        #[trigger] users[k])@.apikey ==> j == k
}

/// Where keys are unique, the rows holding a stored key are that one row.
pub proof fn lemma_single_row_with_key(users: Seq<User>, i: int)
    requires
        keys_unique(users),
        0 <= i < users.len(),
    ensures
        users_with_key(users, users[i]@.apikey) == seq![users[i]],
{
    let hash = users[i]@.apikey;
    assert forall|n: int| 0 <= n <= users.len() implies #[trigger] users_with_key(users.take(n), hash)
        == if n > i { seq![users[i]] } else { Seq::<User>::empty() } by {
        lemma_rows_with_key_prefix(users, i, n);
    }
    assert(users.take(users.len() as int) =~= users);
}

proof fn lemma_rows_with_key_prefix(users: Seq<User>, i: int, n: int)
    requires
        keys_unique(users),
        0 <= i < users.len(),
        0 <= n <= users.len(),
    ensures
        users_with_key(users.take(n), users[i]@.apikey) == if n > i {
            seq![users[i]]
        } else {
            Seq::<User>::empty()
        },
    decreases n,
{
    reveal_with_fuel(Seq::<_>::filter, 1);
    let hash = users[i]@.apikey;
    if n == 0 {
        assert(users.take(0) =~= Seq::<User>::empty());
    } else {
        lemma_rows_with_key_prefix(users, i, n - 1);
        assert(users.take(n).drop_last() =~= users.take(n - 1));
        assert(users.take(n).last() == users[n - 1]);
        if n - 1 != i {
            assert(users[n - 1]@.apikey != hash);
        } else {
            assert(Seq::<User>::empty().push(users[i]) =~= seq![users[i]]);
        }
    }
}

/// Where keys are unique and a row stores a key's hash, every lookup by that
/// key finds that row: its id, and the images that the listing endpoint
/// shows are exactly those that clearing the account removes.
pub proof fn lemma_lookups_find_the_row(
    key: Seq<char>,
    salt: Seq<char>,
    users: Seq<User>,
    images: Seq<Img>,
    i: int,
)
    requires
        keys_unique(users),
        0 <= i < users.len(),
        users[i]@.apikey == spec_hash_key(key, salt),
    ensures
        key_owner(key, salt, users) == Some(users[i]),
        first_key_owner(key, salt, users) == Some(users[i]),
        spec_uid_for_key(key, salt, users) == users[i]@.uid,
        spec_images_for_key(key, salt, users, images) == Some(
            images_of(images, spec_uid_for_key(key, salt, users)),
        ),
{
    lemma_single_row_with_key(users, i);
}

/// Where keys are unique and a row stores a key's hash, the number of
/// uploads that the login summary reports is the number of images that the
/// listing endpoint shows for the key, and the summary names that row.
pub proof fn lemma_summary_counts_listed_images(
    key: Seq<char>,
    salt: Seq<char>,
    users: Seq<User>,
    images: Seq<Img>,
    sizes: Seq<u64>,
    data: UserData,
    i: int,
)
    requires
        keys_unique(users),
        0 <= i < users.len(),
        users[i]@.apikey == spec_hash_key(key, salt),
        spec_user_data(key, salt, users, images, sizes, data),
    ensures
        spec_images_for_key(key, salt, users, images) matches Some(listed) && data.upload_count
            == listed.len(),
        data.uid == users[i]@.uid,
        data.username@ == users[i]@.username,
{
    lemma_single_row_with_key(users, i);
}

/// Once the rows that clearing an account removes are gone (every row with
/// the account's id), listing the account's key shows no image.
pub proof fn lemma_cleared_account_lists_nothing(
    key: Seq<char>,
    salt: Seq<char>,
    users: Seq<User>,
    images: Seq<Img>,
    i: int,
)
    requires
        keys_unique(users),
        0 <= i < users.len(),
        users[i]@.apikey == spec_hash_key(key, salt),
    ensures
        spec_images_for_key(
            key,
            salt,
            users,
            images.filter(|im: Img| im@.uid != spec_uid_for_key(key, salt, users)),
        ) == Some(Seq::<Img>::empty()),
{
    lemma_single_row_with_key(users, i);
    lemma_no_images_of_others(images, users[i]@.uid);
}

/// Where keys are unique and a row stores a key's hash, once a new upload
/// record of that account is added under a file name that no row has yet,
/// the key's listing is the former listing followed by the new record, which
/// it holds exactly once.
pub proof fn lemma_upload_is_listed_once(
    key: Seq<char>,
    salt: Seq<char>,
    users: Seq<User>,
    images: Seq<Img>,
    upload: Img,
    i: int,
)
    requires
        keys_unique(users),
        0 <= i < users.len(),
        users[i]@.apikey == spec_hash_key(key, salt),
        upload@.uid == users[i]@.uid,
        forall|k: int| 0 <= k < images.len() ==> (#[trigger] images[k])@.filename != upload@.filename,
    ensures
        spec_images_for_key(key, salt, users, images.push(upload)) == Some(
            images_of(images, users[i]@.uid).push(upload),
        ),
        spec_images_for_key(key, salt, users, images.push(upload)) matches Some(listed) && listed.last()
            == upload && forall|k: int|
            0 <= k < listed.len() - 1 ==> (#[trigger] listed[k])@.filename != upload@.filename,
{
    reveal_with_fuel(Seq::<_>::filter, 1);
    lemma_single_row_with_key(users, i);
    assert(images.push(upload).drop_last() =~= images);
    lemma_owned_names_differ(images, users[i]@.uid, upload@.filename);
}

proof fn lemma_owned_names_differ(images: Seq<Img>, uid: usize, name: Seq<char>)
    requires
        forall|k: int| 0 <= k < images.len() ==> (#[trigger] images[k])@.filename != name,
    ensures
        forall|k: int|
            0 <= k < images_of(images, uid).len() ==> (#[trigger] images_of(images, uid)[k])@.filename
                != name,
    decreases images.len(),
{
    reveal_with_fuel(Seq::<_>::filter, 1);
    if images.len() > 0 {
        let shorter = images.drop_last();
        assert forall|k: int| 0 <= k < shorter.len() implies (#[trigger] shorter[k])@.filename != name by {
            assert(shorter[k] == images[k]);
        }
        lemma_owned_names_differ(shorter, uid, name);
        assert(images.last() == images[images.len() - 1]);
        let owned = images_of(images, uid);
        let before = images_of(shorter, uid);
        if images.last()@.uid == uid {
            assert(owned == before.push(images.last()));
            assert forall|k: int| 0 <= k < owned.len() implies (#[trigger] owned[k])@.filename != name by {
                if k < before.len() {
                    assert(owned[k] == before[k]);
                }
            }
        } else {
            assert(owned == before);
        }
    }
}

proof fn lemma_no_images_of_others(images: Seq<Img>, uid: usize)
    ensures
        images_of(images.filter(|im: Img| im@.uid != uid), uid) == Seq::<Img>::empty(),
    decreases images.len(),
{
    reveal_with_fuel(Seq::<_>::filter, 1);
    let others = images.filter(|im: Img| im@.uid != uid);
    if images.len() > 0 {
        let shorter = images.drop_last().filter(|im: Img| im@.uid != uid);
        lemma_no_images_of_others(images.drop_last(), uid);
        if images.last()@.uid != uid {
            assert(others == shorter.push(images.last()));
            assert(others.drop_last() =~= shorter);
            assert(others.last() == images.last());
        } else {
            assert(others == shorter);
        }
    } else {
        assert(others.len() == 0);
    }
}

/// The images of an id are exactly the rows with that id: every such row is
/// among them, and each of them is a row of the table with that id.
pub proof fn lemma_images_of_members(images: Seq<Img>, uid: usize)
    ensures
        forall|k: int|
            0 <= k < images.len() && (#[trigger] images[k])@.uid == uid ==> images_of(images, uid).contains(
                images[k],
            ),
        forall|j: int|
            0 <= j < images_of(images, uid).len() ==> (#[trigger] images_of(images, uid)[j])@.uid == uid
                && images.contains(images_of(images, uid)[j]),
        images_of(images, uid).len() <= images.len(),
    decreases images.len(),
{
    reveal_with_fuel(Seq::<_>::filter, 1);
    if images.len() > 0 {
        let front = images.drop_last();
        lemma_images_of_members(front, uid);
        let owned = images_of(images, uid);
        let before = images_of(front, uid);
        let last = images.last();
        assert(last == images[images.len() - 1]);
        if last@.uid == uid {
            assert(owned == before.push(last));
            assert(owned[owned.len() - 1] == last);
        } else {
            assert(owned == before);
        }
        assert forall|k: int| 0 <= k < images.len() && (#[trigger] images[k])@.uid == uid implies owned.contains(
            images[k],
        ) by {
            if k < front.len() {
                assert(front[k] == images[k]);
                let j = choose|j: int| 0 <= j < before.len() && before[j] == front[k];
                assert(owned[j] == before[j]);
            } else {
                assert(owned[owned.len() - 1] == images[k]);
            }
        }
        assert forall|j: int| 0 <= j < owned.len() implies (#[trigger] owned[j])@.uid == uid && images.contains(
            owned[j],
        ) by {
            if j < before.len() {
                assert(owned[j] == before[j]);
                let k = choose|k: int| 0 <= k < front.len() && front[k] == before[j];
                assert(images[k] == front[k]);
            } else {
                assert(owned[j] == last);
            }
        }
    }
}

/// The newest upload time of a non-empty run of images is at least each of
/// their times and is the time of one of them.
pub proof fn lemma_newest_is_max(images: Seq<Img>)
    requires
        images.len() > 0,
    ensures
        forall|k: int| 0 <= k < images.len() ==> newest(images) >= (#[trigger] images[k])@.timestamp,
        exists|k: int| 0 <= k < images.len() && newest(images) == (#[trigger] images[k])@.timestamp,
    decreases images.len(),
{
    if images.len() == 1 {
        assert(newest(images) == images[0]@.timestamp);
    } else {
        let front = images.drop_last();
        lemma_newest_is_max(front);
        assert forall|k: int| 0 <= k < images.len() implies newest(images) >= (
        #[trigger] images[k])@.timestamp by {
            if k < front.len() {
                assert(front[k] == images[k]);
            }
        }
        if newest(front) >= images.last()@.timestamp {
            let k = choose|k: int| 0 <= k < front.len() && newest(front) == (#[trigger] front[k])@.timestamp;
            assert(images[k] == front[k]);
        } else {
            assert(images[images.len() - 1] == images.last());
        }
    }
}

/// The upload time that the login summary reports is the latest time among
/// the account's images: no image of the account is newer, and one of them
/// has exactly that time; with no image it is 0 and so is the count.
pub proof fn lemma_summary_time_is_newest(
    key: Seq<char>,
    salt: Seq<char>,
    users: Seq<User>,
    images: Seq<Img>,
    sizes: Seq<u64>,
    data: UserData,
)
    requires
        spec_user_data(key, salt, users, images, sizes, data),
    ensures
        forall|k: int|
            0 <= k < images.len() && (#[trigger] images[k])@.uid == data.uid ==> data.timestamp
                >= images[k]@.timestamp,
        (exists|k: int| 0 <= k < images.len() && (#[trigger] images[k])@.uid == data.uid) ==> exists|k: int|
            0 <= k < images.len() && (#[trigger] images[k])@.uid == data.uid && data.timestamp
                == images[k]@.timestamp,
        !(exists|k: int| 0 <= k < images.len() && (#[trigger] images[k])@.uid == data.uid) ==> data.timestamp
            == 0 && data.upload_count == 0,
{
    let uid = data.uid;
    let mine = images_of(images, uid);
    lemma_images_of_members(images, uid);
    if exists|k: int| 0 <= k < images.len() && (#[trigger] images[k])@.uid == uid {
        let k0 = choose|k: int| 0 <= k < images.len() && (#[trigger] images[k])@.uid == uid;
        assert(mine.contains(images[k0]));
        lemma_newest_is_max(mine);
        assert forall|k: int| 0 <= k < images.len() && (#[trigger] images[k])@.uid == uid implies data.timestamp
            >= images[k]@.timestamp by {
            assert(mine.contains(images[k]));
            let j = choose|j: int| 0 <= j < mine.len() && mine[j] == images[k];
            assert(newest(mine) >= mine[j]@.timestamp);
        }
        let j = choose|j: int| 0 <= j < mine.len() && newest(mine) == (#[trigger] mine[j])@.timestamp;
        assert(images.contains(mine[j]));
        let k = choose|k: int| 0 <= k < images.len() && images[k] == mine[j];
        assert(images[k]@.uid == uid && data.timestamp == images[k]@.timestamp);
    } else {
        if mine.len() > 0 {
            assert(mine[0]@.uid == uid && images.contains(mine[0]));
            let k = choose|k: int| 0 <= k < images.len() && images[k] == mine[0];
            assert(images[k]@.uid == uid);
        }
    }
}

/// The upload total of an account adds up each of its files' sizes once: it
/// is the total of all the sizes where every image is the account's, 0 where
/// none is, and it does not depend on the size given for another account's
/// image.
pub proof fn lemma_uploaded_bytes_counts_owned(images: Seq<Img>, sizes: Seq<u64>, uid: usize, n: int)
    requires
        0 <= n <= images.len(),
        n <= sizes.len(),
    ensures
        (forall|k: int| 0 <= k < n ==> (#[trigger] images[k])@.uid == uid) ==> uploaded_bytes(
            images,
            sizes,
            uid,
            n,
        ) == total(sizes.take(n)),
        (forall|k: int| 0 <= k < n ==> (#[trigger] images[k])@.uid != uid) ==> uploaded_bytes(
            images,
            sizes,
            uid,
            n,
        ) == 0,
        forall|k: int, v: u64|
            0 <= k < n && (#[trigger] images[k])@.uid != uid ==> uploaded_bytes(
                images,
                #[trigger] sizes.update(k, v),
                uid,
                n,
            ) == uploaded_bytes(images, sizes, uid, n),
    decreases n,
{
    if n > 0 {
        lemma_uploaded_bytes_counts_owned(images, sizes, uid, n - 1);
        assert(sizes.take(n).drop_last() =~= sizes.take(n - 1));
        assert(sizes.take(n).last() == sizes[n - 1]);
        assert forall|k: int, v: u64|
            0 <= k < n && (#[trigger] images[k])@.uid != uid implies uploaded_bytes(
            images,
            #[trigger] sizes.update(k, v),
            uid,
            n,
        ) == uploaded_bytes(images, sizes, uid, n) by {
            lemma_uploaded_bytes_update(images, sizes, uid, n, k, v);
        }
    }
}

proof fn lemma_uploaded_bytes_update(images: Seq<Img>, sizes: Seq<u64>, uid: usize, n: int, k: int, v: u64)
    requires
        0 <= k < n <= images.len(),
        n <= sizes.len(),
        images[k]@.uid != uid,
    ensures
        uploaded_bytes(images, sizes.update(k, v), uid, n) == uploaded_bytes(images, sizes, uid, n),
    decreases n,
{
    if n - 1 > k {
        lemma_uploaded_bytes_update(images, sizes, uid, n - 1, k, v);
    } else {
        lemma_uploaded_bytes_same_prefix(images, sizes.update(k, v), sizes, uid, k);
    }
}

proof fn lemma_uploaded_bytes_same_prefix(images: Seq<Img>, a: Seq<u64>, b: Seq<u64>, uid: usize, n: int)
    requires
        0 <= n <= a.len(),
        n <= b.len(),
        forall|k: int| 0 <= k < n ==> a[k] == b[k],
    ensures
        uploaded_bytes(images, a, uid, n) == uploaded_bytes(images, b, uid, n),
    decreases n,
{
    if n > 0 {
        lemma_uploaded_bytes_same_prefix(images, a, b, uid, n - 1);
    }
}

/// The rows holding a key's hash are found as the table is read: there are
/// none exactly when no row holds it; otherwise the last of them is a row
/// holding it with no later row holding it, and the first is a row holding
/// it with no earlier row holding it.
pub proof fn lemma_rows_with_key(users: Seq<User>, hash: Seq<char>)
    ensures
        users_with_key(users, hash).len() == 0 <==> forall|k: int|
            0 <= k < users.len() ==> (#[trigger] users[k])@.apikey != hash,
        users_with_key(users, hash).len() > 0 ==> exists|k: int|
            0 <= k < users.len() && users_with_key(users, hash).last() == #[trigger] users[k]
                && users[k]@.apikey == hash && forall|j: int|
                k < j < users.len() ==> (#[trigger] users[j])@.apikey != hash,
        users_with_key(users, hash).len() > 0 ==> exists|k: int|
            0 <= k < users.len() && users_with_key(users, hash)[0] == #[trigger] users[k]
                && users[k]@.apikey == hash && forall|j: int|
                0 <= j < k ==> (#[trigger] users[j])@.apikey != hash,
    decreases users.len(),
{
    reveal_with_fuel(Seq::<_>::filter, 1);
    if users.len() > 0 {
        let front = users.drop_last();
        lemma_rows_with_key(front, hash);
        let found = users_with_key(users, hash);
        let before = users_with_key(front, hash);
        let n = users.len() - 1;
        assert(users.last() == users[n]);
        assert forall|k: int| 0 <= k < front.len() implies #[trigger] front[k] == users[k] by {}
        if users[n]@.apikey == hash {
            assert(found == before.push(users[n]));
            assert(found.last() == users[n]);
            if before.len() > 0 {
                let k = choose|k: int|
                    0 <= k < front.len() && before[0] == #[trigger] front[k] && front[k]@.apikey == hash
                        && forall|j: int| 0 <= j < k ==> (#[trigger] front[j])@.apikey != hash;
                assert(found[0] == before[0]);
                assert(users[k] == front[k]);
                assert forall|j: int| 0 <= j < k implies (#[trigger] users[j])@.apikey != hash by {
                    assert(front[j] == users[j]);
                }
            } else {
                assert(found[0] == users[n]);
                assert forall|j: int| 0 <= j < n implies (#[trigger] users[j])@.apikey != hash by {
                    assert(front[j] == users[j]);
                }
            }
        } else {
            assert(found == before);
            if before.len() > 0 {
                let k = choose|k: int|
                    0 <= k < front.len() && before.last() == #[trigger] front[k] && front[k]@.apikey == hash
                        && forall|j: int| k < j < front.len() ==> (#[trigger] front[j])@.apikey != hash;
                assert(users[k] == front[k]);
                assert forall|j: int| k < j < users.len() implies (#[trigger] users[j])@.apikey != hash by {
                    if j < n {
                        assert(front[j] == users[j]);
                    }
                }
                let k2 = choose|k: int|
                    0 <= k < front.len() && before[0] == #[trigger] front[k] && front[k]@.apikey == hash
                        && forall|j: int| 0 <= j < k ==> (#[trigger] front[j])@.apikey != hash;
                assert(users[k2] == front[k2]);
                assert forall|j: int| 0 <= j < k2 implies (#[trigger] users[j])@.apikey != hash by {
                    assert(front[j] == users[j]);
                }
            }
            assert forall|k: int| 0 <= k < users.len() && (#[trigger] users[k])@.apikey == hash implies found.len() > 0 by {
                assert(front[k] == users[k]);
            }
        }
        if found.len() == 0 {
            assert forall|k: int| 0 <= k < users.len() implies (#[trigger] users[k])@.apikey != hash by {
                if k < n {
                    assert(front[k] == users[k]);
                }
            }
        }
    }
}

/// The upload total of an account over the first `n` images is the total of
/// the sizes with every other account's entries counted as 0.
pub proof fn lemma_uploaded_bytes_is_masked_total(images: Seq<Img>, sizes: Seq<u64>, uid: usize, n: int)
    requires
        0 <= n <= images.len(),
        n <= sizes.len(),
    ensures
        uploaded_bytes(images, sizes, uid, n) == total(
            Seq::new(n as nat, |k: int| if images[k]@.uid == uid { sizes[k] } else { 0u64 }),
        ),
    decreases n,
{
    let masked = Seq::new(n as nat, |k: int| if images[k]@.uid == uid { sizes[k] } else { 0u64 });
    if n > 0 {
        lemma_uploaded_bytes_is_masked_total(images, sizes, uid, n - 1);
        let shorter = Seq::new((n - 1) as nat, |k: int| if images[k]@.uid == uid { sizes[k] } else { 0u64 });
        assert(masked.drop_last() =~= shorter);
        assert(masked.last() == masked[n - 1]);
    } else {
        assert(masked.len() == 0);
    }
}

} // verus!
