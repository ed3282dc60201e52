use lightning::cache::valid_key;
use base64::Engine;
use lightning::cache::{basic_auth_ok, credentials_match, put_check, reconcile_plan, CacheConfig, DirEntry, PutCheck};

#[test]
fn valid_key_accepts_gradle_hashes_only() {
    assert!(valid_key(&"a1".repeat(16))); // 32 hex (Gradle 9)
    assert!(valid_key(&"0f".repeat(32))); // 64 hex
    assert!(!valid_key(&"a1".repeat(15))); // too short
    assert!(!valid_key(&"a1".repeat(33))); // too long
    assert!(!valid_key(&"A1".repeat(16))); // uppercase
    assert!(!valid_key(&"g1".repeat(16))); // non-hex
    assert!(!valid_key("../../../../../../etc/passwd"));
    assert!(!valid_key(""));
}


fn basic(user: &str, password: &str) -> String {
    let encoded = base64::engine::general_purpose::STANDARD.encode(format!("{user}:{password}"));
    format!("Basic {encoded}")
}

#[test]
fn basic_auth_matches_password_ignores_username() {
    assert!(basic_auth_ok(None, None));
    assert!(!basic_auth_ok(Some("secret"), None));
    assert!(basic_auth_ok(Some("secret"), Some(&basic("anything", "secret"))));
    assert!(!basic_auth_ok(Some("secret"), Some(&basic("secret", "wrong"))));
    assert!(!basic_auth_ok(Some("secret"), Some("Bearer secret")));
}

#[test]
fn basic_auth_edge_cases() {
    assert!(basic_auth_ok(Some("a:b"), Some(&basic("u", "a:b"))));
    assert!(!basic_auth_ok(Some("s"), Some("Basic !!!")));
    let no_colon = base64::engine::general_purpose::STANDARD.encode("nocolon");
    assert!(!basic_auth_ok(Some("nocolon"), Some(&format!("Basic {no_colon}"))));
    assert!(basic_auth_ok(Some("p"), Some(&format!("{}  ", basic("u", "p")))));
}

#[test]
fn put_checks_key_then_auth_then_size() {
    let key = "ab".repeat(16);
    assert_eq!(put_check("bad", Some("t"), None, 1, 10), PutCheck::BadRequest);
    assert_eq!(put_check(&key, Some("t"), None, 1, 10), PutCheck::Unauthorized);
    assert_eq!(put_check(&key, Some("t"), Some(&basic("u", "t")), 11, 10), PutCheck::TooLarge);
    assert_eq!(put_check(&key, None, None, 10, 10), PutCheck::Store);
}

#[test]
fn reconcile_drops_orphans_on_both_sides() {
    let kept = "ab".repeat(16);
    let indexed_only = "cd".repeat(16);
    let file_only = "ef".repeat(16);
    let entries = vec![
        DirEntry { name: kept.clone(), is_file: true },
        DirEntry { name: file_only.clone(), is_file: true },
        DirEntry { name: ".tmp-1-1".into(), is_file: true },
        DirEntry { name: "01".repeat(16), is_file: false },
    ];
    let plan = reconcile_plan(&entries, &vec![kept.clone(), indexed_only.clone()]);
    assert_eq!(plan.drop_keys, vec![indexed_only]);
    let mut deleted = plan.delete_files.clone();
    deleted.sort();
    let mut expected = vec![file_only, ".tmp-1-1".to_string(), "01".repeat(16)];
    expected.sort();
    assert_eq!(deleted, expected);
}

#[test]
fn cache_sizes_are_given_in_mib() {
    let c = CacheConfig::new("cache".into(), 100, 10240, 30, None);
    assert_eq!(c.max_artifact_bytes, 100 * 1024 * 1024);
    assert_eq!(c.max_total_bytes, 10240 * 1024 * 1024);
    assert_eq!(c.retention_days, 30);
}

#[test]
fn credentials_compare_the_password_after_the_first_colon() {
    assert!(credentials_match("s", Some(b"user:s".to_vec())));
    assert!(credentials_match("s:t", Some(b"u:s:t".to_vec())));
    assert!(!credentials_match("s", Some(b"s".to_vec())));
    assert!(!credentials_match("s", Some(vec![0xff, b':', b's'])));
    assert!(!credentials_match("s", None));
}
