//! Run metadata for uploads: which commit and branch a test run belongs to,
//! its CI link, and its idempotency key.

use vstd::prelude::*;
use vstd::utf8::encode_utf8;
use crate::digest::{blake3_hex, blake3_hex_of, push_bytes};
use crate::github::present;
use crate::junit::{Status, TestResult};
use crate::text::{
    lemma_seq_le_total_ordering, push_char, push_str, seq_leq, sort_strings, strings_of, trim,
    trim_spec,
};

verus! {

broadcast use vstd::string::group_string_axioms;

/// The CI environment a run is read from (GitHub Actions variables); each
/// is the raw value, absent when unset.
pub struct CiEnv {
    pub github_sha: Option<String>,
    pub github_head_ref: Option<String>,
    pub github_ref_name: Option<String>,
    pub github_server_url: Option<String>,
    pub github_repository: Option<String>,
    pub github_run_id: Option<String>,
    pub github_run_attempt: Option<String>,
}

/// Commit, branch and CI link of a run.
pub struct RunMeta {
    pub sha: String,
    pub branch: String,
    pub ci_url: Option<String>,
}

/// The error when no commit can be determined.
pub const NO_SHA: &'static str = "cannot determine commit sha: pass --sha, set GITHUB_SHA, or run in a git repo";

/// The error when no branch can be determined.
pub const NO_BRANCH: &'static str = "cannot determine branch: pass --branch, set GITHUB_REF_NAME, or run in a git repo";

/// A git query's output: trimmed, absent when the query failed or printed
/// nothing.
pub open spec fn git_value(out: Option<String>) -> Option<Seq<char>> {
    match out {
        Some(s) => if trim_spec(s@).len() > 0 {
            Some(trim_spec(s@))
        } else {
            None
        },
        None => None,
    }
}

/// The first of two candidates that is present.
pub open spec fn or_else(a: Option<Seq<char>>, b: Option<Seq<char>>) -> Option<Seq<char>> {
    match a {
        Some(x) => Some(x),
        None => b,
    }
}

/// The view of an optional string.
pub open spec fn opt_view(o: Option<String>) -> Option<Seq<char>> {
    match o {
        Some(s) => Some(s@),
        None => None,
    }
}

/// The commit: the explicit one, else `GITHUB_SHA`, else `git rev-parse HEAD`.
pub open spec fn sha_choice(sha: Option<String>, env: CiEnv, git_head: Option<String>) -> Option<Seq<char>> {
    or_else(opt_view(sha), or_else(present(env.github_sha), git_value(git_head)))
}

/// The branch: the explicit one, else `GITHUB_HEAD_REF`, else
/// `GITHUB_REF_NAME`, else `git rev-parse --abbrev-ref HEAD`.
pub open spec fn branch_choice(branch: Option<String>, env: CiEnv, git_branch: Option<String>) -> Option<Seq<char>> {
    or_else(
        opt_view(branch),
        or_else(
            present(env.github_head_ref),
            or_else(present(env.github_ref_name), git_value(git_branch)),
        ),
    )
}

/// The CI run's page, when server, repository and run id are all set.
pub open spec fn ci_url_of(env: CiEnv) -> Option<Seq<char>> {
    match (present(env.github_server_url), present(env.github_repository), present(env.github_run_id)) {
        (Some(server), Some(repo), Some(run_id)) => Some(
            server + seq!['/'] + repo + "/actions/runs/"@ + run_id,
        ),
        _ => None,
    }
}

/// The value unless it is absent or empty.
fn env_value(v: &Option<String>) -> (r: Option<String>)
    ensures
        opt_view(r) == present(*v),
{
    match v {
        Some(s) => if s.as_str().is_empty() {
            None
        } else {
            Some(s.clone())
        },
        None => None,
    }
}

/// A git query's output, trimmed; absent when empty.
fn git_output(out: Option<String>) -> (r: Option<String>)
    ensures
        opt_view(r) == git_value(out),
{
    match out {
        Some(s) => {
            let t = trim(s.as_str());
            if t.as_str().is_empty() {
                None
            } else {
                Some(t)
            }
        },
        None => None,
    }
}

/// Resolves commit, branch and CI link from the explicit values, the CI
/// environment, and the outputs of `git rev-parse HEAD` and
/// `git rev-parse --abbrev-ref HEAD` (absent where git failed).
pub fn resolve(
    sha: Option<String>,
    branch: Option<String>,
    env: &CiEnv,
    git_head: Option<String>,
    git_branch: Option<String>,
) -> (r: Result<RunMeta, String>)
    ensures
        match r {
            Ok(m) => {
                &&& sha_choice(sha, *env, git_head) == Some(m.sha@)
                &&& branch_choice(branch, *env, git_branch) == Some(m.branch@)
                &&& opt_view(m.ci_url) == ci_url_of(*env)
            },
            Err(e) => if sha_choice(sha, *env, git_head) is None {
                e@ == NO_SHA@
            } else {
                branch_choice(branch, *env, git_branch) is None && e@ == NO_BRANCH@
            },
        },
{
    let sha_v = match sha {
        Some(s) => s,
        None => match env_value(&env.github_sha) {
            Some(s) => s,
            None => match git_output(git_head) {
                Some(s) => s,
                None => {
                    let mut e = String::new();
                    push_str(&mut e, NO_SHA);
                    return Err(e);
                },
            },
        },
    };
    let branch_v = match branch {
        Some(b) => b,
        None => match env_value(&env.github_head_ref) {
            Some(b) => b,
            None => match env_value(&env.github_ref_name) {
                Some(b) => b,
                None => match git_output(git_branch) {
                    Some(b) => b,
                    None => {
                        let mut e = String::new();
                        push_str(&mut e, NO_BRANCH);
                        return Err(e);
                    },
                },
            },
        },
    };
    let ci_url = match (
        env_value(&env.github_server_url),
        env_value(&env.github_repository),
        env_value(&env.github_run_id),
    ) {
        (Some(server), Some(repo), Some(run_id)) => {
            let mut u = String::new();
            push_str(&mut u, server.as_str());
            push_char(&mut u, '/');
            push_str(&mut u, repo.as_str());
            push_str(&mut u, "/actions/runs/");
            push_str(&mut u, run_id.as_str());
            assert(u@ =~= server@ + seq!['/'] + repo@ + "/actions/runs/"@ + run_id@);
            Some(u)
        },
        _ => None,
    };
    Ok(RunMeta { sha: sha_v, branch: branch_v, ci_url })
}

/// The JSON spelling of a status: its lowercase name in double quotes.
pub open spec fn status_json(s: Status) -> Seq<char> {
    seq!['"'] + match s {
        Status::Pass => "pass"@,
        Status::Fail => "fail"@,
        Status::Error => "error"@,
        Status::Skip => "skip"@,
    } + seq!['"']
}

/// A result's digest line: class, name and JSON status, NUL-separated.
pub open spec fn result_line(r: TestResult) -> Seq<char> {
    r.class_name@ + seq!['\0'] + r.name@ + seq!['\0'] + status_json(r.status)
}

/// The digest lines of the results, in their order.
pub open spec fn result_lines(rs: Seq<TestResult>) -> Seq<Seq<char>> {
    rs.map_values(|r: TestResult| result_line(r))
}

/// The bytes the digest hashes: sha, NUL, branch, then NUL and each line.
pub open spec fn digest_data(sha: Seq<char>, branch: Seq<char>, lines: Seq<Seq<char>>) -> Seq<u8>
    decreases lines.len(),
{
    if lines.len() == 0 {
        encode_utf8(sha) + seq![0u8] + encode_utf8(branch)
    } else {
        digest_data(sha, branch, lines.drop_last()) + seq![0u8] + encode_utf8(lines.last())
    }
}

/// The run digest: BLAKE3 over sha, branch and the sorted result lines.
pub open spec fn results_digest_spec(sha: Seq<char>, branch: Seq<char>, rs: Seq<TestResult>) -> Seq<char> {
    blake3_hex_of(digest_data(sha, branch, result_lines(rs).sort_by(seq_leq())))
}

/// Appends the JSON spelling of a status.
fn push_status_json(s: &mut String, status: Status)
    ensures
        final(s)@ == old(s)@ + status_json(status),
{
    push_char(s, '"');
    match status {
        Status::Pass => push_str(s, "pass"),
        Status::Fail => push_str(s, "fail"),
        Status::Error => push_str(s, "error"),
        Status::Skip => push_str(s, "skip"),
    }
    push_char(s, '"');
    assert(final(s)@ =~= old(s)@ + status_json(status));
}

/// A digest of the run's content: sha, branch, and each result's class,
/// name and status, the results taken in sorted order so that their order
/// does not matter.
pub fn results_digest(sha: &str, branch: &str, results: &Vec<TestResult>) -> (r: String)
    ensures
        r@ == results_digest_spec(sha@, branch@, results@),
{
    let mut lines: Vec<String> = Vec::new();
    let n = results.len();
    let mut i: usize = 0;
    while i < n
        invariant
            n == results@.len(),
            i <= n,
            strings_of(lines@) == result_lines(results@.take(i as int)),
        decreases n - i,
    {
        let r = &results[i];
        let mut line = String::new();
        push_str(&mut line, r.class_name.as_str());
        push_char(&mut line, '\0');
        push_str(&mut line, r.name.as_str());
        push_char(&mut line, '\0');
        push_status_json(&mut line, r.status);
        assert(line@ =~= result_line(*r));
        let ghost before = strings_of(lines@);
        lines.push(line);
        assert(results@.take(i + 1) =~= results@.take(i as int).push(results@[i as int]));
        assert(result_lines(results@.take(i + 1)) =~= result_lines(results@.take(i as int)).push(
            result_line(results@[i as int]),
        ));
        assert(strings_of(lines@) =~= before.push(result_line(results@[i as int])));
        i += 1;
    }
    assert(results@.take(n as int) =~= results@);
    let ghost unsorted = strings_of(lines@);
    let sorted = sort_strings(lines);
    proof {
        lemma_seq_le_total_ordering();
        unsorted.lemma_sort_by_ensures(seq_leq());
        vstd::seq_lib::lemma_sorted_unique(strings_of(sorted@), unsorted.sort_by(seq_leq()), seq_leq());
    }
    let mut data: Vec<u8> = Vec::new();
    push_bytes(&mut data, sha.as_bytes());
    data.push(0u8);
    push_bytes(&mut data, branch.as_bytes());
    let ghost ls = strings_of(sorted@);
    let m = sorted.len();
    let mut k: usize = 0;
    assert(data@ =~= digest_data(sha@, branch@, ls.take(0)));
    while k < m
        invariant
            m == sorted@.len(),
            ls == strings_of(sorted@),
            k <= m,
            data@ == digest_data(sha@, branch@, ls.take(k as int)),
        decreases m - k,
    {
        assert(ls.take(k + 1).drop_last() =~= ls.take(k as int));
        let ghost before = data@;
        data.push(0u8);
        push_bytes(&mut data, sorted[k].as_str().as_bytes());
        assert(data@ =~= before + seq![0u8] + encode_utf8(ls[k as int]));
        k += 1;
    }
    assert(ls.take(m as int) =~= ls);
    blake3_hex(data.as_slice())
}

/// The run's idempotency key: the explicit one; else, on GitHub Actions,
/// `gh:<repository>:<run id>:<attempt>` (attempt 1 when unset); else
/// `local:` and the run digest.
pub open spec fn run_key_spec(explicit: Option<String>, meta: RunMeta, rs: Seq<TestResult>, env: CiEnv) -> Seq<char> {
    match explicit {
        Some(k) => k@,
        None => match (present(env.github_repository), present(env.github_run_id)) {
            (Some(repo), Some(run_id)) => "gh:"@ + repo + seq![':'] + run_id + seq![':'] + match present(
                env.github_run_attempt,
            ) {
                Some(a) => a,
                None => seq!['1'],
            },
            _ => "local:"@ + results_digest_spec(meta.sha@, meta.branch@, rs),
        },
    }
}

/// The run's idempotency key.
pub fn run_key(explicit: Option<String>, meta: &RunMeta, results: &Vec<TestResult>, env: &CiEnv) -> (r: String)
    ensures
        r@ == run_key_spec(explicit, *meta, results@, *env),
{
    if let Some(key) = explicit {
        return key;
    }
    match (env_value(&env.github_repository), env_value(&env.github_run_id)) {
        (Some(repo), Some(run_id)) => {
            let mut k = String::new();
            push_str(&mut k, "gh:");
            push_str(&mut k, repo.as_str());
            push_char(&mut k, ':');
            push_str(&mut k, run_id.as_str());
            push_char(&mut k, ':');
            match env_value(&env.github_run_attempt) {
                Some(a) => push_str(&mut k, a.as_str()),
                None => push_char(&mut k, '1'),
            }
            proof {
                let attempt = match present(env.github_run_attempt) {
                    Some(a) => a,
                    None => seq!['1'],
                };
                assert(k@ =~= "gh:"@ + repo@ + seq![':'] + run_id@ + seq![':'] + attempt);
            }
            k
        },
        _ => {
            let mut k = String::new();
            push_str(&mut k, "local:");
            let d = results_digest(meta.sha.as_str(), meta.branch.as_str(), results);
            push_str(&mut k, d.as_str());
            k
        },
    }
}

/// The run digest does not depend on the order of the results: any two
/// result lists with the same lines, in whatever order, digest alike.
pub proof fn law_digest_is_order_independent(
    sha: Seq<char>,
    branch: Seq<char>,
    a: Seq<TestResult>,
    b: Seq<TestResult>,
)
    requires
        result_lines(a).to_multiset() == result_lines(b).to_multiset(),
    ensures
        results_digest_spec(sha, branch, a) == results_digest_spec(sha, branch, b),
{
    lemma_seq_le_total_ordering();
    result_lines(a).lemma_sort_by_ensures(seq_leq());
    result_lines(b).lemma_sort_by_ensures(seq_leq());
    vstd::seq_lib::lemma_sorted_unique(
        result_lines(a).sort_by(seq_leq()),
        result_lines(b).sort_by(seq_leq()),
        seq_leq(),
    );
}

/// Uploads are idempotent: the run key does not depend on the order of the
/// results, so re-running an upload of the same run gives the same key.
pub proof fn law_run_key_is_order_independent(
    explicit: Option<String>,
    meta: RunMeta,
    a: Seq<TestResult>,
    b: Seq<TestResult>,
    env: CiEnv,
)
    requires
        result_lines(a).to_multiset() == result_lines(b).to_multiset(),
    ensures
        run_key_spec(explicit, meta, a, env) == run_key_spec(explicit, meta, b, env),
{
    law_digest_is_order_independent(meta.sha@, meta.branch@, a, b);
}

} // verus!
