use lightning::db::{normalize, BuildOutcome, BuildRow, Status, TaskOutcome};

#[test]
fn normalize_collapses_whitespace_and_volatile_tokens() {
    assert_eq!(normalize("  a   b\tc ").unwrap(), "a b c");
    assert_eq!(normalize("test[Foo@1a2b3c4d]").unwrap(), "test[Foo_]");
    assert_eq!(
        normalize("test[id=123e4567-e89b-12d3-a456-426614174000]").unwrap(),
        "test[id=_]"
    );
    assert_eq!(normalize("test[2]").unwrap(), "test[2]");
}

#[test]
fn normalize_trims_unicode_white_space_and_keeps_short_hex() {
    assert_eq!(normalize("\u{3000}x\u{a0}").unwrap(), "x");
    assert_eq!(normalize("Foo@1a2b3").unwrap(), "Foo@1a2b3");
    assert_eq!(normalize("").unwrap(), "");
}

#[test]
fn stored_spellings() {
    assert_eq!(Status::Pass.as_str(), "pass");
    assert_eq!(Status::Fail.as_str(), "fail");
    assert_eq!(Status::Error.as_str(), "error");
    assert_eq!(Status::Skip.as_str(), "skip");
    assert_eq!(BuildOutcome::Success.as_str(), "success");
    assert_eq!(BuildOutcome::Failed.as_str(), "failed");
    assert_eq!(TaskOutcome::Success.as_str(), "success");
    assert_eq!(TaskOutcome::UpToDate.as_str(), "up-to-date");
    assert_eq!(TaskOutcome::FromCache.as_str(), "from-cache");
    assert_eq!(TaskOutcome::Failed.as_str(), "failed");
    assert_eq!(TaskOutcome::Skipped.as_str(), "skipped");
}

#[test]
fn avoided_counts_up_to_date_and_from_cache() {
    let row = BuildRow {
        id: 1,
        build_key: "b1".into(),
        sha: None,
        branch: None,
        ci_url: None,
        outcome: "success".into(),
        requested_tasks: "build".into(),
        gradle_version: None,
        java_version: None,
        total_ms: 1000,
        configuration_ms: 100,
        created_at: "2024-01-01 00:00:00".into(),
        tasks: 4,
        success: 1,
        up_to_date: 1,
        from_cache: 1,
        failed: 0,
        skipped: 1,
    };
    assert_eq!(row.avoided(), 2);
}

#[test]
fn same_identity_maps_to_one_test_row() {
    assert_eq!(normalize("t ").unwrap(), normalize(" t").unwrap());
    assert_eq!(normalize("\tcom.Foo\n").unwrap(), normalize("com.Foo").unwrap());
}
