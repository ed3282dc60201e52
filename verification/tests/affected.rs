use std::collections::BTreeSet;

use lightning::affected::{
    choose_base, compute, output_format, quiet_exit_code, select, stale_message, stale_reason,
    without_ignored, Format, EXIT_NOTHING,
};
use lightning::lock::{Dep, EdgeKind, Lock, Module, Reason};

fn lock() -> Lock {
    let module = |path: &str, dir: &str, source_dirs: &[&str], deps: &[(&str, EdgeKind)]| Module {
        path: path.into(),
        dir: dir.into(),
        source_dirs: source_dirs.iter().map(|s| (*s).into()).collect(),
        tasks: vec![],
        deps: deps
            .iter()
            .map(|(p, k)| Dep {
                path: (*p).into(),
                kind: *k,
            })
            .collect(),
    };
    Lock {
        version: 1,
        build_files_hash: "h".into(),
        unsupported: None,
        included_builds: vec![],
        modules: vec![
            module(":", ".", &[], &[]),
            module(":core", "core", &["core/src/main/java", "shared/src"], &[]),
            module(":lib", "lib", &["lib/src/main/java"], &[(":core", EdgeKind::Main)]),
            module(
                ":app",
                "app",
                &["app/src/main/java"],
                &[(":lib", EdgeKind::Main), (":fixtures", EdgeKind::Test)],
            ),
            module(":fixtures", "fixtures", &["fixtures/src/main/java"], &[]),
        ],
    }
}

fn files(paths: &[&str]) -> Vec<String> {
    let set: BTreeSet<String> = paths.iter().map(|p| (*p).into()).collect();
    set.into_iter().collect()
}

#[test]
fn maps_via_out_of_module_source_dir() {
    let (everything, modules) = compute(&lock(), &files(&["shared/src/S.java"]));
    assert!(everything.is_none());
    let paths: Vec<&str> = modules.iter().map(|(p, _)| p.as_str()).collect();
    assert_eq!(paths, vec![":app", ":core", ":lib"]);
}

#[test]
fn dir_prefix_maps_non_source_files() {
    let (everything, modules) = compute(&lock(), &files(&["fixtures/build.gradle"]));
    assert!(everything.is_none());
    let paths: Vec<&str> = modules.iter().map(|(p, _)| p.as_str()).collect();
    assert_eq!(paths, vec![":app", ":fixtures"]);
    assert_eq!(modules[0].1, Reason::TestDependency);
}

#[test]
fn outside_file_degrades_to_everything() {
    for outside in ["ci-config.yml", "../above-root.md"] {
        let (everything, modules) = compute(&lock(), &files(&[outside]));
        assert!(everything.is_some(), "{outside} should degrade");
        assert_eq!(modules.len(), lock().modules.len());
        assert!(modules.iter().all(|(_, r)| *r == Reason::Everything));
    }
}

#[test]
fn root_module_reachable_only_via_source_dirs() {
    let mut l = lock();
    l.modules[0].source_dirs = vec!["src/main/java".into()];
    let (everything, modules) = compute(&l, &files(&["src/main/java/R.java"]));
    assert!(everything.is_none());
    assert_eq!(modules.len(), 1);
    assert_eq!(modules[0].0, ":");
}

#[test]
fn unsupported_lock_selects_everything() {
    let mut l = lock();
    l.unsupported = Some("composite build".into());
    let (everything, modules) = compute(&l, &files(&["core/src/main/java/C.java"]));
    assert_eq!(everything.as_deref(), Some("composite build"));
    assert_eq!(modules.len(), l.modules.len());
}

#[test]
fn empty_diff_affects_nothing() {
    let (everything, modules) = compute(&lock(), &Vec::new());
    assert!(everything.is_none());
    assert!(modules.is_empty());
}

#[test]
fn outside_message_names_the_first_outside_file() {
    let (everything, _) = compute(&lock(), &files(&["zz.txt", "ci.yml", "core/x"]));
    assert_eq!(
        everything.as_deref(),
        Some("changed file ci.yml is outside all modules")
    );
}

#[test]
fn longest_module_dir_wins() {
    let mut l = lock();
    l.modules[2].dir = "core/lib".into();
    let (everything, modules) = compute(&l, &files(&["core/lib/build.gradle"]));
    assert!(everything.is_none());
    let paths: Vec<&str> = modules.iter().map(|(p, _)| p.as_str()).collect();
    assert_eq!(paths, vec![":app", ":lib"]);
}

#[test]
fn everything_lists_modules_in_lock_order() {
    let mut l = lock();
    l.unsupported = Some("x".into());
    let (_, modules) = compute(&l, &Vec::new());
    let paths: Vec<&str> = modules.iter().map(|(p, _)| p.as_str()).collect();
    assert_eq!(paths, vec![":", ":core", ":lib", ":app", ":fixtures"]);
}

#[test]
fn base_comes_from_cli_then_config_then_default() {
    assert_eq!(choose_base(Some("a".into()), Some("b".into())), "a");
    assert_eq!(choose_base(None, Some("b".into())), "b");
    assert_eq!(choose_base(None, None), "origin/main");
}

#[test]
fn ignore_globs_filter_the_diff() {
    let kept = without_ignored(
        &files(&["docs/a.md", "app/src/main/java/A.java", "docs/sub/b.md"]),
        &vec!["docs/**".to_string()],
    )
    .unwrap();
    assert_eq!(kept, vec!["app/src/main/java/A.java"]);
    let err = without_ignored(&files(&["x"]), &vec!["ok/**".to_string(), "[".to_string()]).unwrap_err();
    assert!(err.starts_with("invalid ignore glob \"[\": "), "{err}");
}

#[test]
fn staleness_reasons() {
    let l = lock();
    assert_eq!(
        stale_reason(None, "h", &files(&[]), &vec![]).as_deref(),
        Some("no lightning.lock found")
    );
    assert_eq!(
        stale_reason(Some(&l), "other", &files(&[]), &vec![]).as_deref(),
        Some("lightning.lock is stale (build files changed since sync)")
    );
    let matchers = vec!["**/build.gradle".to_string()];
    assert_eq!(
        stale_reason(Some(&l), "h", &files(&["app/A.java", "app/build.gradle"]), &matchers).as_deref(),
        Some("the diff touches build file app/build.gradle")
    );
    assert_eq!(stale_reason(Some(&l), "h", &files(&["app/A.java"]), &matchers), None);
    assert_eq!(
        stale_message("no lightning.lock found"),
        "no lightning.lock found — run `lightning sync` (or pass --auto-sync)"
    );
}

#[test]
fn selection_carries_base_and_affected_modules() {
    let s = select(
        "origin/main".into(),
        "abc".into(),
        &files(&["core/src/main/java/C.java"]),
        lock(),
    );
    assert_eq!(s.base, "origin/main");
    assert_eq!(s.merge_base, "abc");
    assert!(s.everything.is_none());
    assert_eq!(
        s.modules.iter().map(|(p, _)| p.as_str()).collect::<Vec<_>>(),
        vec![":app", ":core", ":lib"]
    );
    assert_eq!(quiet_exit_code(&s), 0);
    let none = select("b".into(), "m".into(), &files(&[]), lock());
    assert_eq!(quiet_exit_code(&none), EXIT_NOTHING);
    assert!(output_format(true, Format::Text) == Format::Json);
    assert!(output_format(false, Format::GithubMatrix) == Format::GithubMatrix);
}
