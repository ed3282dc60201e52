use lightning::lock::{Dep, EdgeKind};
use lightning::sync::{
    build_files_hash, edge_kind, included_build_globs, invalidation_matchers, matches_any,
    normalize, skipped_dir, Dump, DumpDep, DumpIncludedBuild, DumpModule,
};

#[test]
fn edge_kind_uses_closed_test_list() {
    assert_eq!(edge_kind("testImplementation"), EdgeKind::Test);
    assert_eq!(edge_kind("testRuntimeOnly"), EdgeKind::Test);
    assert_eq!(edge_kind("implementation"), EdgeKind::Main);
    assert_eq!(edge_kind("api"), EdgeKind::Main);
    assert_eq!(edge_kind("testFixturesImplementation"), EdgeKind::Main);
    assert_eq!(edge_kind("androidTestImplementation"), EdgeKind::Main);
    assert_eq!(edge_kind("integrationTestImplementation"), EdgeKind::Main);
}

#[test]
fn included_builds_normalize_sorted_and_deduped() {
    let dump = Dump {
        unsupported: None,
        included_builds: vec![
            DumpIncludedBuild {
                dir: "gradle/plugins".into(),
            },
            DumpIncludedBuild {
                dir: "./build-logic".into(),
            },
            DumpIncludedBuild {
                dir: "gradle/plugins".into(),
            },
        ],
        modules: vec![],
    };
    let lock = normalize(dump, "h".into());
    assert_eq!(lock.included_builds, vec!["build-logic", "gradle/plugins"]);
}

#[test]
fn included_build_globs_invalidate_their_roots_only() {
    let globs = included_build_globs(&vec!["gradle/plugins".into()]);
    assert_eq!(globs, vec!["gradle/plugins/**"]);
    let patterns = invalidation_matchers(&globs).unwrap();
    assert!(matches_any(
        &patterns,
        "gradle/plugins/src/main/kotlin/Conventions.kt"
    ));
    assert!(matches_any(&patterns, "gradle/plugins/settings.gradle.kts"));
    assert!(!matches_any(&patterns, "gradle/pluginsX/src/A.kt"));
    assert!(!matches_any(&patterns, "app/src/main/java/A.java"));
    assert_eq!(
        included_build_globs(&vec!["build[x]".into()]),
        vec!["build[[]x[]]/**"]
    );
}

#[test]
fn invalidation_globs_match_expected_files() {
    let patterns = invalidation_matchers(&vec!["ci/versions.txt".into()]).unwrap();
    for path in [
        "build.gradle",
        "settings.gradle.kts",
        "app/build.gradle",
        "deep/nested/module/build.gradle.kts",
        "buildSrc/src/main/kotlin/Conventions.kt",
        "build-logic/settings.gradle",
        "gradle/libs.versions.toml",
        "gradle/wrapper/gradle-wrapper.properties",
        "gradle.properties",
        "local.properties",
        "ci/versions.txt",
    ] {
        assert!(matches_any(&patterns, path), "{path} should match");
    }
    for path in [
        "app/src/main/java/A.java",
        "docs/readme.md",
        "app/gradle.properties",
    ] {
        assert!(!matches_any(&patterns, path), "{path} should not match");
    }
}

#[test]
fn normalize_sorts_dedups_and_types_edges() {
    let dump = Dump {
        unsupported: None,
        included_builds: vec![],
        modules: vec![
            DumpModule {
                path: ":lib".into(),
                dir: "lib".into(),
                source_dirs: vec!["lib/src/main/java".into(), "lib/../shared/src".into()],
                tasks: vec!["test".into(), "build".into(), "test".into()],
                deps: vec![
                    DumpDep {
                        path: ":core".into(),
                        configuration: "api".into(),
                    },
                    DumpDep {
                        path: ":core".into(),
                        configuration: "compileClasspath".into(),
                    },
                    DumpDep {
                        path: ":fixtures".into(),
                        configuration: "testImplementation".into(),
                    },
                    DumpDep {
                        path: ":lib".into(),
                        configuration: "api".into(),
                    },
                ],
            },
            DumpModule {
                path: ":core".into(),
                dir: "core".into(),
                source_dirs: vec![],
                tasks: vec![],
                deps: vec![],
            },
        ],
    };
    let lock = normalize(dump, "h".into());
    assert!(lock.included_builds.is_empty());
    assert_eq!(lock.modules[0].path, ":core");
    let lib = &lock.modules[1];
    assert_eq!(lib.source_dirs, vec!["lib/src/main/java", "shared/src"]);
    assert_eq!(lib.tasks, vec!["build", "test"]);
    assert_eq!(
        lib.deps,
        vec![
            Dep {
                path: ":core".into(),
                kind: EdgeKind::Main
            },
            Dep {
                path: ":fixtures".into(),
                kind: EdgeKind::Test
            },
        ]
    );
}

#[test]
fn invalid_extra_glob_is_reported() {
    let err = invalidation_matchers(&vec!["a/***".into()]).unwrap_err();
    assert!(err.starts_with("invalid glob \"a/***\": "), "{err}");
}

#[test]
fn hash_is_stable_and_sensitive_to_contents() {
    let files = vec![
        ("app/build.gradle".to_string(), b"plugins {}".to_vec()),
        ("settings.gradle".to_string(), b"include ':app'".to_vec()),
    ];
    let h1 = build_files_hash(&files);
    assert_eq!(h1.len(), 64);
    assert_eq!(h1, build_files_hash(&files));
    let changed = vec![
        ("app/build.gradle".to_string(), b"plugins { id 'java' }".to_vec()),
        ("settings.gradle".to_string(), b"include ':app'".to_vec()),
    ];
    assert_ne!(h1, build_files_hash(&changed));
    let mut hasher = blake3::Hasher::new();
    for (rel, bytes) in &files {
        hasher.update(rel.as_bytes());
        hasher.update(b"\x00");
        hasher.update(&(bytes.len() as u64).to_le_bytes());
        hasher.update(b"\x00");
        hasher.update(bytes);
    }
    assert_eq!(h1, hasher.finalize().to_hex().to_string());
}

#[test]
fn walk_skips_generated_dirs() {
    assert!(skipped_dir(".git"));
    assert!(skipped_dir("build"));
    assert!(skipped_dir(".gradle"));
    assert!(!skipped_dir("buildSrc"));
}

#[test]
fn normalize_keeps_equal_paths_in_dump_order() {
    let m = |dir: &str| DumpModule {
        path: ":same".into(),
        dir: dir.into(),
        source_dirs: vec![],
        tasks: vec![],
        deps: vec![],
    };
    let lock = normalize(
        Dump {
            unsupported: Some("why".into()),
            included_builds: vec![],
            modules: vec![m("first"), m("second")],
        },
        "h".into(),
    );
    assert_eq!(lock.modules[0].dir, "first");
    assert_eq!(lock.modules[1].dir, "second");
    assert_eq!(lock.unsupported.as_deref(), Some("why"));
    assert_eq!(lock.version, lightning::lock::VERSION);
}
