use h0l0_img_host::api::{is_valid_extension, may_create_user, Upload};
use h0l0_img_host::backend::auth::Auth;
use h0l0_img_host::backend::database::{Img, User};
use h0l0_img_host::backend::util::{hash_key, user_count};

const SALT: &str = "s4ltS4ltS4lt";

fn row(name: &str, uid: usize, admin: bool, key: &str) -> User {
    User::from_row(name.to_string(), uid, admin, 0, hash_key(key, SALT))
}

fn table() -> Vec<User> {
    vec![
        row("Admin", 0, true, "adminkey"),
        row("alice", 1, false, "alicekey"),
        row("bob", 2, false, "bobkey"),
    ]
}

fn images() -> Vec<Img> {
    vec![
        Img::from_row("a1.png".to_string(), 1, 100),
        Img::from_row("z0.gif".to_string(), 0, 50),
        Img::from_row("a2.jpg".to_string(), 1, 300),
        Img::from_row("b1.mp4".to_string(), 2, 200),
        Img::from_row("a3.png".to_string(), 1, 250),
    ]
}

fn names(v: &[Img]) -> Vec<String> {
    v.iter().map(|i| i.filename().clone()).collect()
}

#[test]
fn new_user_has_fresh_key_and_no_uploads() {
    let u = User::new("carol", false, 3);
    assert_eq!(u.username(), "carol");
    assert_eq!(u.uid(), 3);
    assert!(!u.is_admin());
    assert_eq!(u.upload_count(), 0);
    assert_eq!(u.apikey().len(), 40);
    assert!(u.apikey().chars().all(|c| c.is_ascii_alphanumeric()));
}

#[test]
fn hashed_row_replaces_only_the_key() {
    let u = User::new("carol", true, 7);
    let r = u.hashed(SALT);
    assert_eq!(r.username(), "carol");
    assert_eq!(r.uid(), 7);
    assert!(r.is_admin());
    assert_eq!(r.upload_count(), 0);
    assert_eq!(r.apikey(), &hash_key(u.apikey(), SALT));
}

#[test]
fn key_check_accepts_stored_keys_only() {
    let users = table();
    assert!(Auth::key_check("adminkey", SALT, &users));
    assert!(Auth::key_check("alicekey", SALT, &users));
    assert!(!Auth::key_check("mallory", SALT, &users));
    assert!(!Auth::key_check("alicekey", "other salt", &users));
    assert!(!Auth::key_check("", SALT, &users));
    assert!(!Auth::key_check("alicekey", SALT, &vec![]));
}

#[test]
fn is_admin_check_refuses_non_admin_keys() {
    let users = table();
    assert!(Auth::is_admin_check("adminkey", SALT, &users));
    assert!(!Auth::is_admin_check("alicekey", SALT, &users));
    assert!(!Auth::is_admin_check("bobkey", SALT, &users));
    assert!(Auth::is_admin_check("unknown", SALT, &users));
    assert!(!Auth::is_admin_check("", SALT, &users));
}

#[test]
fn first_admin_key_is_accepted_as_admin() {
    let admin = User::new("Admin", true, 0);
    let users = vec![admin.hashed(SALT)];
    assert!(Auth::key_check(admin.apikey(), SALT, &users));
    assert!(Auth::is_admin_check(admin.apikey(), SALT, &users));
    assert!(may_create_user(admin.apikey(), SALT, &users));
}

#[test]
fn only_admins_create_users() {
    let users = table();
    assert!(may_create_user("adminkey", SALT, &users));
    assert!(!may_create_user("alicekey", SALT, &users));
    assert!(!may_create_user("unknown", SALT, &users));
    assert!(!may_create_user("", SALT, &users));
}

#[test]
fn user_count_counts_rows() {
    assert_eq!(user_count(&table()), 3);
    assert_eq!(user_count(&vec![]), 0);
}

#[test]
fn uid_lookup() {
    let users = table();
    assert_eq!(User::get_uid_from_key("bobkey", SALT, &users), 2);
    assert_eq!(User::get_uid_from_key("alicekey", SALT, &users), 1);
    assert_eq!(User::get_uid_from_key("nobody", SALT, &users), 0);
}

#[test]
fn uid_lookup_reads_last_matching_row() {
    let mut users = table();
    users.push(row("alice again", 9, false, "alicekey"));
    assert_eq!(User::get_uid_from_key("alicekey", SALT, &users), 9);
    let listed = Img::get_images_from_key("alicekey", SALT, &users, &images());
    assert_eq!(names(&listed), vec!["a1.png", "a2.jpg", "a3.png"]);
}

#[test]
fn images_listed_for_key() {
    let users = table();
    let listed = Img::get_images_from_key("alicekey", SALT, &users, &images());
    assert_eq!(names(&listed), vec!["a1.png", "a2.jpg", "a3.png"]);
    assert!(listed.iter().all(|i| i.uid() == 1));
    assert_eq!(listed[1].timestamp(), 300);
    assert!(Img::find_images_for_key("nobody", SALT, &users, &images()).is_none());
    let found = Img::find_images_for_key("alicekey", SALT, &users, &images()).unwrap();
    assert_eq!(names(&found), names(&listed));
    let none = Img::get_images_from_key("bobkey", SALT, &users, &vec![]);
    assert!(none.is_empty());
}

#[test]
fn nuke_removes_what_is_listed() {
    let users = table();
    let imgs = images();
    let doomed = User::nuke("alicekey", SALT, &users, &imgs);
    let listed = Img::get_images_from_key("alicekey", SALT, &users, &imgs);
    assert_eq!(names(&doomed), names(&listed));
    let left: Vec<Img> = imgs
        .iter()
        .filter(|i| !doomed.iter().any(|d| d.filename() == i.filename() && d.uid() == i.uid()))
        .map(|i| i.copied())
        .collect();
    assert_eq!(names(&left), vec!["z0.gif", "b1.mp4"]);
    let after = Img::get_images_from_key("alicekey", SALT, &users, &left);
    assert!(after.is_empty());
}

#[test]
fn nuke_with_unknown_key_targets_uid_zero() {
    let doomed = User::nuke("nobody", SALT, &table(), &images());
    assert_eq!(names(&doomed), vec!["z0.gif"]);
}

#[test]
fn user_data_summarises_account() {
    let users = table();
    let imgs = images();
    let sizes = vec![10, 999, 20, 999, 30];
    let d = User::get_user_data("alicekey", SALT, &users, &imgs, &sizes).unwrap();
    assert_eq!(d.username, "alice");
    assert_eq!(d.uid, 1);
    assert_eq!(d.is_admin, 0);
    assert_eq!(d.upload_count, 3);
    assert_eq!(d.uploaded_bytes, 60);
    assert_eq!(d.timestamp, 300);
    let listed = Img::get_images_from_key("alicekey", SALT, &users, &imgs);
    assert_eq!(d.upload_count, listed.len());
    let a = User::get_user_data("adminkey", SALT, &users, &imgs, &sizes).unwrap();
    assert_eq!(a.username, "Admin");
    assert_eq!(a.is_admin, 1);
    assert_eq!(a.upload_count, 1);
    assert_eq!(a.uploaded_bytes, 999);
    assert_eq!(a.timestamp, 50);
}

#[test]
fn user_data_without_uploads() {
    let users = table();
    let d = User::get_user_data("bobkey", SALT, &users, &vec![], &vec![]).unwrap();
    assert_eq!(d.username, "bob");
    assert_eq!(d.uid, 2);
    assert_eq!(d.upload_count, 0);
    assert_eq!(d.uploaded_bytes, 0);
    assert_eq!(d.timestamp, 0);
}

#[test]
fn user_data_for_unknown_key_reads_uid_zero() {
    let d = User::get_user_data("nobody", SALT, &table(), &images(), &vec![1, 2, 3, 4, 5]).unwrap();
    assert_eq!(d.username, "");
    assert_eq!(d.uid, 0);
    assert_eq!(d.is_admin, 0);
    assert_eq!(d.upload_count, 1);
    assert_eq!(d.uploaded_bytes, 2);
    assert_eq!(d.timestamp, 50);
}

#[test]
fn user_data_refuses_what_does_not_fit() {
    let users = table();
    let imgs = images();
    let huge = vec![u64::MAX, 0, 1, 0, 0];
    assert!(User::get_user_data("alicekey", SALT, &users, &imgs, &huge).is_none());
    let old = vec![Img::from_row("x.png".to_string(), 2, -5)];
    assert!(User::get_user_data("bobkey", SALT, &users, &old, &vec![1]).is_none());
}

#[test]
fn new_image_record() {
    let name = Img::random_filename("png");
    assert_eq!(name.len(), 12);
    assert!(name[..8].chars().all(|c| c.is_ascii_alphanumeric()));
    assert_eq!(&name[8..], ".png");
    let img = Img::new(name.clone(), 4);
    assert_eq!(img.filename(), &name);
    assert_eq!(img.uid(), 4);
    assert!(img.timestamp() > 1_600_000_000);
    let c = img.copied();
    assert_eq!(c.filename(), img.filename());
    assert_eq!(c.timestamp(), img.timestamp());
}

#[test]
fn upload_extensions() {
    for e in ["png", "gif", "jpg", "jpeg", "mp4"] {
        assert!(is_valid_extension(e));
    }
    for e in ["PNG", "exe", "", "jpeg ", "mp"] {
        assert!(!is_valid_extension(e));
    }
}

#[test]
fn upload_acceptance() {
    let users = table();
    let ok = Upload { apikey: "alicekey".to_string(), extension: "gif".to_string() };
    assert!(ok.accepted(SALT, &users));
    let bad_ext = Upload { apikey: "alicekey".to_string(), extension: "exe".to_string() };
    assert!(!bad_ext.accepted(SALT, &users));
    let bad_key = Upload { apikey: "nobody".to_string(), extension: "gif".to_string() };
    assert!(!bad_key.accepted(SALT, &users));
}

#[test]
fn upload_is_listed_once() {
    let users = table();
    let mut imgs = images();
    let before = Img::get_images_from_key("bobkey", SALT, &users, &imgs);
    let name = Img::random_filename("jpg");
    let record = Img::new(name.clone(), User::get_uid_from_key("bobkey", SALT, &users));
    assert!(record.timestamp() >= 0);
    imgs.push(record.copied());
    let after = Img::get_images_from_key("bobkey", SALT, &users, &imgs);
    assert_eq!(after.len(), before.len() + 1);
    assert_eq!(after.iter().filter(|i| i.filename() == &name).count(), 1);
    assert_eq!(after.last().unwrap().uid(), 2);
    assert_eq!(after.last().unwrap().timestamp(), record.timestamp());
}
