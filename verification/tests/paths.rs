use lightning::paths::{is_under, normalize, rebase};

#[test]
fn normalize_folds_dots() {
    assert_eq!(normalize("core/../shared/src"), "shared/src");
    assert_eq!(normalize("./a/b/"), "a/b");
    assert_eq!(normalize("a/.."), ".");
    assert_eq!(normalize("../shared"), "../shared");
    assert_eq!(normalize("a/../../b"), "../b");
}

#[test]
fn rebase_handles_outside_paths() {
    assert_eq!(rebase("android/app/A.java", "android"), "app/A.java");
    assert_eq!(rebase("README.md", "android"), "../README.md");
    assert_eq!(rebase("app/A.java", "."), "app/A.java");
}

#[test]
fn is_under_matches_prefix_components() {
    assert!(is_under("app/src/A.java", "app"));
    assert!(!is_under("app2/src/A.java", "app"));
    assert!(is_under("anything", "."));
    assert!(!is_under("../outside", "."));
}

#[test]
fn normalize_is_idempotent_on_examples() {
    for p in ["a/./b//c/", "../../x/y/..", ".", "", "a/b/../../..", "x"] {
        let once = normalize(p);
        assert_eq!(normalize(&once), once);
    }
}

#[test]
fn normalize_of_empty_and_root() {
    assert_eq!(normalize(""), ".");
    assert_eq!(normalize("."), ".");
    assert_eq!(normalize("//"), ".");
    assert_eq!(normalize("../.."), "../..");
}

#[test]
fn rebase_with_empty_prefix_normalizes() {
    assert_eq!(rebase("a/./b", ""), "a/b");
    assert_eq!(rebase("x/y", "x/y/z"), "..");
    assert_eq!(rebase("sub/dir/f.txt", "sub"), "dir/f.txt");
}

#[test]
fn is_under_itself_and_not_prefix_substring() {
    assert!(is_under("lib", "lib"));
    assert!(!is_under("lib", "lib/src"));
    assert!(!is_under("../a", "."));
    assert!(is_under("..a", "."));
}

#[test]
fn normalizing_twice_changes_nothing() {
    for p in ["core/../shared/src", "./a/b/", "a/..", "../shared", "a/../../b", "", "../../x/./y/.."] {
        let once = normalize(p);
        assert_eq!(normalize(&once), once, "{p}");
    }
}

#[test]
fn rebasing_onto_the_root_only_normalizes() {
    for p in ["a/./b", "../c", "x/y/../z"] {
        assert_eq!(rebase(p, "."), normalize(p));
        assert_eq!(rebase(p, ""), normalize(p));
    }
}

#[test]
fn a_directory_lies_under_itself() {
    assert!(is_under("app", "app"));
    assert!(is_under(".", "."));
    assert!(is_under("app/x", "."));
}

#[test]
fn the_parent_is_not_under_the_root() {
    assert!(!is_under("..", "."));
    assert!(is_under(".", "."));
    assert!(is_under("..a", "."));
}

#[test]
fn rebased_paths_lead_back_to_the_file() {
    for (path, prefix) in [
        ("android/app/A.java", "android"),
        ("README.md", "android/app"),
        (".", "android"),
        ("android", "android"),
        ("../x/y", "a/b"),
    ] {
        let r = rebase(path, prefix);
        assert_eq!(normalize(&format!("{prefix}/{r}")), normalize(path));
        assert_eq!(normalize(&r), r);
    }
}

#[test]
fn normal_forms_have_no_dot_or_empty_components() {
    for p in ["", "/", "./", "a//b/./c/", "../../a/../b", "a/b/../../.."] {
        let n = normalize(p);
        assert!(!n.is_empty());
        if n != "." {
            let parts: Vec<&str> = n.split('/').collect();
            assert!(parts.iter().all(|c| !c.is_empty() && *c != "."));
            let first_plain = parts.iter().position(|c| *c != "..").unwrap_or(parts.len());
            assert!(parts[first_plain..].iter().all(|c| *c != ".."));
        }
    }
}
