use lightning::gitdiff::{changed_files, resolve_merge_base, status_output_readable, unknown_base_sha};

#[test]
fn diff_and_status_paths_are_rebased_sorted_and_deduped() {
    let diff = "android/app/A.java\0android/lib/B.java\0README.md\0\0android/lightning.lock\0";
    let status = " M android/app/A.java\0?? android/new.txt\0R  android/app/C.java\0android/app/Old.java\0";
    let d = changed_files("android", "abc".into(), diff, Some(status));
    assert_eq!(d.merge_base, "abc");
    assert_eq!(
        d.files,
        vec!["../README.md", "app/A.java", "app/C.java", "app/Old.java", "lib/B.java", "new.txt"]
    );
}

#[test]
fn uncommitted_changes_can_be_left_out_and_config_is_dropped() {
    let d = changed_files(".", "m".into(), "lightning.toml\0a/b.kt\0", None);
    assert_eq!(d.files, vec!["a/b.kt"]);
}

#[test]
fn short_status_entries_are_skipped() {
    assert!(status_output_readable("R  x\0"));
    let d = changed_files(".", "m".into(), "", Some("ab\0 M x.txt\0C  y\0"));
    assert_eq!(d.files, vec!["x.txt", "y"]);
}

#[test]
fn status_lines_must_split_after_the_status() {
    assert!(status_output_readable(" M a\0?? b\0"));
    assert!(!status_output_readable("éé\0"));
    assert!(status_output_readable("R  a\0é\0"));
}

#[test]
fn merge_base_failures_are_explained() {
    assert_eq!(resolve_merge_base("origin/main", Ok("abc\n".into()), false, true).unwrap(), "abc");
    let shallow = resolve_merge_base("origin/main", Err("git failed".into()), true, true).unwrap_err();
    assert!(shallow.starts_with("cannot find merge-base(origin/main, HEAD) in a shallow clone"));
    let unknown = resolve_merge_base("nope", Err("git failed".into()), false, false).unwrap_err();
    assert!(unknown.starts_with("base ref \"nope\" is unknown"));
    assert_eq!(
        resolve_merge_base("origin/main", Err("git failed".into()), false, true).unwrap_err(),
        "git failed"
    );
    assert_eq!(unknown_base_sha("xyz"), "--base-sha \"xyz\" is not a known commit");
}
