use std::collections::{BTreeMap, BTreeSet};

use lightning::lock::{closure, Dep, EdgeKind, Module, Reason};

fn module(path: &str, deps: &[(&str, EdgeKind)]) -> Module {
    Module {
        path: path.into(),
        dir: path.trim_start_matches(':').replace(':', "/"),
        source_dirs: vec![],
        tasks: vec![],
        deps: deps
            .iter()
            .map(|(p, k)| Dep {
                path: (*p).into(),
                kind: *k,
            })
            .collect(),
    }
}

fn changed(paths: &[&str]) -> Vec<String> {
    let set: BTreeSet<String> = paths.iter().map(|p| (*p).into()).collect();
    set.into_iter().collect()
}

fn get<'a>(got: &'a [(String, Reason)], path: &str) -> Option<&'a Reason> {
    got.iter().find(|(p, _)| p == path).map(|(_, r)| r)
}

#[test]
fn main_edges_propagate_transitively() {
    let modules = vec![
        module(":core", &[]),
        module(":lib", &[(":core", EdgeKind::Main)]),
        module(":app", &[(":lib", EdgeKind::Main)]),
        module(":free", &[]),
    ];
    let got = closure(&modules, &changed(&[":core"]));
    assert_eq!(get(&got, ":core"), Some(&Reason::Changed));
    assert_eq!(get(&got, ":lib"), Some(&Reason::MainDependency));
    assert_eq!(get(&got, ":app"), Some(&Reason::MainDependency));
    assert!(get(&got, ":free").is_none());
}

#[test]
fn test_edges_reach_main_affected_but_do_not_propagate() {
    let modules = vec![
        module(":core", &[]),
        module(":fixtures", &[(":core", EdgeKind::Main)]),
        module(":lib", &[(":fixtures", EdgeKind::Test)]),
        module(":app", &[(":lib", EdgeKind::Main)]),
    ];
    let got = closure(&modules, &changed(&[":core"]));
    assert_eq!(get(&got, ":fixtures"), Some(&Reason::MainDependency));
    assert_eq!(get(&got, ":lib"), Some(&Reason::TestDependency));
    assert!(get(&got, ":app").is_none());
}

fn xorshift(state: &mut u64) -> u64 {
    let mut x = *state;
    x ^= x << 13;
    x ^= x >> 7;
    x ^= x << 17;
    *state = x;
    x
}

/// Naive reference: per module, DFS "can I reach a changed module via
/// main edges only", then a literal one-hop test-edge sweep.
fn naive_closure(modules: &[Module], changed: &BTreeSet<String>) -> BTreeSet<String> {
    let by_path: BTreeMap<&str, &Module> = modules.iter().map(|m| (m.path.as_str(), m)).collect();
    fn reaches_changed(
        from: &str,
        by_path: &BTreeMap<&str, &Module>,
        changed: &BTreeSet<String>,
        visited: &mut BTreeSet<String>,
    ) -> bool {
        if changed.contains(from) {
            return true;
        }
        for d in by_path[from].deps.iter().filter(|d| d.kind == EdgeKind::Main) {
            if visited.insert(d.path.clone()) && reaches_changed(&d.path, by_path, changed, visited)
            {
                return true;
            }
        }
        false
    }
    let mut main_affected: BTreeSet<String> = BTreeSet::new();
    for m in modules {
        if reaches_changed(&m.path, &by_path, changed, &mut BTreeSet::new()) {
            main_affected.insert(m.path.clone());
        }
    }
    let mut all = main_affected.clone();
    for m in modules {
        if m.deps
            .iter()
            .any(|d| d.kind == EdgeKind::Test && main_affected.contains(&d.path))
        {
            all.insert(m.path.clone());
        }
    }
    all
}

#[test]
fn property_random_dags_match_naive_reference() {
    let mut state: u64 = 0x195eed;
    for _ in 0..500 {
        let n = (xorshift(&mut state) % 20 + 1) as usize;
        let mut modules: Vec<Module> = Vec::new();
        for i in 0..n {
            let mut deps = Vec::new();
            for j in 0..i {
                match xorshift(&mut state) % 5 {
                    0 => deps.push((format!(":m{j}"), EdgeKind::Main)),
                    1 => deps.push((format!(":m{j}"), EdgeKind::Test)),
                    _ => {}
                }
            }
            modules.push(Module {
                path: format!(":m{i}"),
                dir: format!("m{i}"),
                source_dirs: vec![],
                tasks: vec![],
                deps: deps.into_iter().map(|(path, kind)| Dep { path, kind }).collect(),
            });
        }
        let changed: BTreeSet<String> = (0..n)
            .filter(|_| xorshift(&mut state) % 4 == 0)
            .map(|i| format!(":m{i}"))
            .collect();
        let changed_vec: Vec<String> = changed.iter().cloned().collect();
        let got = closure(&modules, &changed_vec);
        let got_set: BTreeSet<String> = got.iter().map(|(p, _)| p.clone()).collect();
        let expected = naive_closure(&modules, &changed);
        assert_eq!(got_set, expected, "changed: {changed:?}");
        assert!(got_set.is_superset(&changed));
        let stripped: Vec<Module> = modules
            .iter()
            .map(|m| Module {
                path: m.path.clone(),
                dir: m.dir.clone(),
                source_dirs: vec![],
                tasks: vec![],
                deps: m
                    .deps
                    .iter()
                    .filter(|d| d.kind == EdgeKind::Main)
                    .cloned()
                    .collect(),
            })
            .collect();
        let main_set: BTreeSet<String> =
            closure(&stripped, &changed_vec).into_iter().map(|(p, _)| p).collect();
        assert!(got_set.is_superset(&main_set));
    }
}

#[test]
fn closure_result_is_sorted_by_path() {
    let modules = vec![
        module(":z", &[(":a", EdgeKind::Main)]),
        module(":a", &[]),
        module(":m", &[(":a", EdgeKind::Test)]),
    ];
    let got = closure(&modules, &changed(&[":a"]));
    let paths: Vec<&str> = got.iter().map(|(p, _)| p.as_str()).collect();
    assert_eq!(paths, vec![":a", ":m", ":z"]);
    assert_eq!(got[1].1, Reason::TestDependency);
}

#[test]
fn changed_paths_that_are_not_modules_are_ignored() {
    let modules = vec![module(":a", &[])];
    let got = closure(&modules, &changed(&[":ghost"]));
    assert!(got.is_empty());
}

#[test]
fn more_changes_never_shrink_the_closure() {
    let modules = vec![
        module(":a", &[]),
        module(":b", &[(":a", EdgeKind::Main)]),
        module(":c", &[(":b", EdgeKind::Test)]),
        module(":d", &[]),
    ];
    let small = closure(&modules, &changed(&[":a"]));
    let big = closure(&modules, &changed(&[":a", ":d"]));
    for (p, _) in &small {
        assert!(get(&big, p).is_some());
    }
    assert_eq!(get(&big, ":d"), Some(&Reason::Changed));
}

#[test]
fn self_edges_do_not_propagate() {
    let modules = vec![module(":a", &[(":a", EdgeKind::Main)]), module(":b", &[])];
    let got = closure(&modules, &changed(&[":a"]));
    assert_eq!(got.len(), 1);
}

#[test]
fn typing_a_test_edge_main_only_widens_the_selection() {
    let tested = vec![
        module(":core", &[]),
        module(":fixtures", &[(":core", EdgeKind::Test)]),
        module(":app", &[(":fixtures", EdgeKind::Main)]),
    ];
    let mained = vec![
        module(":core", &[]),
        module(":fixtures", &[(":core", EdgeKind::Main)]),
        module(":app", &[(":fixtures", EdgeKind::Main)]),
    ];
    let narrow = closure(&tested, &changed(&[":core"]));
    let wide = closure(&mained, &changed(&[":core"]));
    for (p, _) in &narrow {
        assert!(get(&wide, p).is_some(), "{p}");
    }
    assert_eq!(get(&narrow, ":app"), None);
    assert_eq!(get(&wide, ":app"), Some(&Reason::MainDependency));
}

#[test]
fn nothing_changed_affects_nothing() {
    let modules = vec![module(":core", &[]), module(":lib", &[(":core", EdgeKind::Main)])];
    assert!(closure(&modules, &changed(&[])).is_empty());
}

#[test]
fn lock_rejects_other_versions() {
    let mut lock = lightning::lock::Lock {
        version: lightning::lock::VERSION,
        build_files_hash: "abc".into(),
        unsupported: None,
        included_builds: vec![],
        modules: vec![module(":app", &[]), module(":lib", &[])],
    };
    assert!(lock.check_version("lightning.lock").is_ok());
    lock.version = 99;
    let err = lock.check_version("dir/lightning.lock").unwrap_err();
    assert_eq!(
        err,
        "dir/lightning.lock has version 99, this build understands 2 — run `lightning sync`"
    );
    assert!(err.contains("lightning sync"));
}
