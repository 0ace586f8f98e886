use h0l0_img_host::backend::util::{
    count_dir, dir_size, hash_key, last_upload, random_string, to_hex_lower,
};

const SHA512_ABC: &str = "ddaf35a193617abacc417349ae20413112e6fa4e89a97ea20a9eeee64b55d39a2192992a274fc1a836ba3c23a3feebbd454d4423643ce80e2a9ac94fa54ca49f";

#[test]
fn hash_key_is_sha512_hex_of_key_and_salt() {
    assert_eq!(hash_key("abc", ""), SHA512_ABC);
    assert_eq!(hash_key("ab", "c"), SHA512_ABC);
    assert_eq!(hash_key("", "abc"), SHA512_ABC);
}

#[test]
fn hash_key_has_128_lower_hex_digits() {
    let h = hash_key("some key", "pepper");
    assert_eq!(h.len(), 128);
    assert!(h.chars().all(|c| c.is_ascii_digit() || ('a'..='f').contains(&c)));
    assert_ne!(h, "some key");
    assert_ne!(hash_key("some key", "pepper"), hash_key("some key", "salt"));
}

#[test]
fn hex_rendering_matches_format() {
    assert_eq!(to_hex_lower(&[10, 20, 30]), "0a141e");
    assert_eq!(to_hex_lower(&[]), "");
    assert_eq!(to_hex_lower(&[0, 255, 171]), "00ffab");
}

#[test]
fn random_string_has_length_and_alphabet() {
    let s = random_string(40);
    assert_eq!(s.chars().count(), 40);
    assert!(s.chars().all(|c| c.is_ascii_alphanumeric()));
    assert_eq!(random_string(0), "");
    assert_eq!(random_string(8).len(), 8);
}

#[test]
fn count_dir_fits_a_byte() {
    assert_eq!(count_dir(0), 0);
    assert_eq!(count_dir(17), 17);
    assert_eq!(count_dir(255), 255);
}

#[test]
fn dir_size_sums_entries() {
    assert_eq!(dir_size(&vec![]), Some(0));
    assert_eq!(dir_size(&vec![1, 2, 3]), Some(6));
    assert_eq!(dir_size(&vec![u64::MAX, 0]), Some(u64::MAX));
    assert_eq!(dir_size(&vec![u64::MAX, 1]), None);
    assert_eq!(dir_size(&vec![u64::MAX, 1, 0]), None);
}

#[test]
fn last_upload_reads_seconds_of_system_time() {
    assert_eq!(
        last_upload("SystemTime { tv_sec: 1700000000, tv_nsec: 123456789 }"),
        Some(1700000000)
    );
    assert_eq!(last_upload("SystemTime { tv_sec: 0, tv_nsec: 0 }"), Some(0));
}

#[test]
fn last_upload_edge_cases() {
    assert_eq!(last_upload(""), None);
    assert_eq!(last_upload("no digits here"), None);
    assert_eq!(last_upload(",12"), None);
    assert_eq!(last_upload("a1b2c3"), Some(123));
    assert_eq!(last_upload("007, 8"), Some(7));
    assert_eq!(last_upload("12 34, 56"), Some(1234));
    assert_eq!(last_upload("99999999999999999999999, 1"), None);
    assert_eq!(last_upload("x\u{661}\u{662},3"), None);
}
