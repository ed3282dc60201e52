use lightning::junit::{Status, TestResult};
use lightning::meta::{resolve, results_digest, run_key, CiEnv, RunMeta, NO_BRANCH, NO_SHA};

fn result(name: &str, status: Status) -> TestResult {
    TestResult {
        class_name: "C".into(),
        name: name.into(),
        status,
        time_ms: 1,
        message: None,
    }
}

fn no_env() -> CiEnv {
    CiEnv {
        github_sha: None,
        github_head_ref: None,
        github_ref_name: None,
        github_server_url: None,
        github_repository: None,
        github_run_id: None,
        github_run_attempt: None,
    }
}

#[test]
fn digest_is_order_independent_and_status_sensitive() {
    let a = vec![result("a", Status::Pass), result("b", Status::Fail)];
    let b = vec![result("b", Status::Fail), result("a", Status::Pass)];
    let c = vec![result("a", Status::Fail), result("b", Status::Fail)];
    assert_eq!(results_digest("s", "main", &a), results_digest("s", "main", &b));
    assert_ne!(results_digest("s", "main", &a), results_digest("s", "main", &c));
    assert_ne!(results_digest("s", "main", &a), results_digest("s2", "main", &a));
}

#[test]
fn digest_hashes_sha_branch_and_sorted_lines() {
    let rs = vec![result("b", Status::Skip), result("a", Status::Error)];
    let mut data = Vec::new();
    data.extend_from_slice(b"s\x00main");
    data.extend_from_slice(b"\x00C\x00a\x00\"error\"");
    data.extend_from_slice(b"\x00C\x00b\x00\"skip\"");
    assert_eq!(
        results_digest("s", "main", &rs),
        blake3::hash(&data).to_hex().to_string()
    );
}

#[test]
fn resolve_prefers_explicit_then_env_then_git() {
    let mut env = no_env();
    env.github_sha = Some("envsha".into());
    env.github_ref_name = Some("refname".into());
    let m = resolve(None, None, &env, Some("gitsha\n".into()), Some("gitbranch\n".into())).unwrap();
    assert_eq!(m.sha, "envsha");
    assert_eq!(m.branch, "refname");
    assert_eq!(m.ci_url, None);
    let m = resolve(Some("x".into()), Some("y".into()), &env, None, None).unwrap();
    assert_eq!((m.sha.as_str(), m.branch.as_str()), ("x", "y"));
    let m = resolve(None, None, &no_env(), Some("  gitsha\n".into()), Some("dev\n".into())).unwrap();
    assert_eq!((m.sha.as_str(), m.branch.as_str()), ("gitsha", "dev"));
    env.github_head_ref = Some("feature".into());
    assert_eq!(resolve(None, None, &env, None, None).unwrap().branch, "feature");
}

#[test]
fn resolve_reports_what_is_missing() {
    assert_eq!(resolve(None, None, &no_env(), None, None).err().unwrap(), NO_SHA);
    assert_eq!(
        resolve(None, None, &no_env(), Some("\n".into()), None).err().unwrap(),
        NO_SHA
    );
    assert_eq!(
        resolve(Some("s".into()), None, &no_env(), None, Some("".into())).err().unwrap(),
        NO_BRANCH
    );
}

#[test]
fn resolve_builds_the_ci_link() {
    let mut env = no_env();
    env.github_server_url = Some("https://github.com".into());
    env.github_repository = Some("o/r".into());
    env.github_run_id = Some("99".into());
    let m = resolve(Some("s".into()), Some("b".into()), &env, None, None).unwrap();
    assert_eq!(m.ci_url.as_deref(), Some("https://github.com/o/r/actions/runs/99"));
    env.github_run_id = Some("".into());
    let m = resolve(Some("s".into()), Some("b".into()), &env, None, None).unwrap();
    assert_eq!(m.ci_url, None);
}

#[test]
fn run_key_prefers_explicit_then_actions_then_digest() {
    let meta = RunMeta {
        sha: "s".into(),
        branch: "main".into(),
        ci_url: None,
    };
    let rs = vec![result("a", Status::Pass)];
    assert_eq!(run_key(Some("k".into()), &meta, &rs, &no_env()), "k");
    let mut env = no_env();
    env.github_repository = Some("o/r".into());
    env.github_run_id = Some("5".into());
    assert_eq!(run_key(None, &meta, &rs, &env), "gh:o/r:5:1");
    env.github_run_attempt = Some("3".into());
    assert_eq!(run_key(None, &meta, &rs, &env), "gh:o/r:5:3");
    assert_eq!(
        run_key(None, &meta, &rs, &no_env()),
        format!("local:{}", results_digest("s", "main", &rs))
    );
}
