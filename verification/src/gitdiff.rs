//! The changed files of a diff, from git's NUL-separated outputs, rebased
//! onto the Gradle root; and the explanations when the diff base cannot be
//! found.

use vstd::prelude::*;
use vstd::utf8::{decode_utf8, encode_utf8, is_char_boundary};
use vstd::string::StringSliceAdditionalSpecFns;
use crate::config;
use crate::lock;
use crate::patterns::{debug_quote, debug_quoted};
use crate::paths::{rebase, rebase_spec};
use crate::text::{
    chars_of, is_sorted_set_of, push_str, seqs_of, set_insert, split_chars, split_spec, str_eq,
    string_of, strictly_sorted, strings_of,
};

verus! {

broadcast use vstd::string::group_string_axioms;

/// A diff's result.
pub struct Diff {
    /// Commit actually diffed against (merge-base or explicit sha).
    pub merge_base: String,
    /// Changed files relative to the Gradle root, sorted and without
    /// repeats; paths outside it keep leading `..` components.
    pub files: Vec<String>,
}

/// The non-empty pieces of `parts`, in order.
pub open spec fn non_empty_parts(parts: Seq<Seq<char>>) -> Seq<Seq<char>>
    decreases parts.len(),
{
    if parts.len() == 0 {
        Seq::<Seq<char>>::empty()
    } else if parts.last().len() == 0 {
        non_empty_parts(parts.drop_last())
    } else {
        non_empty_parts(parts.drop_last()).push(parts.last())
    }
}

/// The entries of a NUL-separated git output.
pub open spec fn nul_entries(out: Seq<char>) -> Seq<Seq<char>> {
    non_empty_parts(split_spec(out, '\0'))
}

/// The path of a porcelain status entry: what follows its first three bytes.
pub open spec fn status_path(e: Seq<char>) -> Seq<char> {
    decode_utf8(encode_utf8(e).subrange(3, encode_utf8(e).len() as int))
}

/// The entry is a rename or copy: its origin follows as its own entry.
pub open spec fn is_rename_or_copy(e: Seq<char>) -> bool {
    e[0] == 'R' || e[0] == 'C'
}

/// The paths `git status --porcelain -z` entries name: each entry of at
/// least four bytes gives its path, and a rename or copy also the entry
/// after it (the origin); shorter entries are skipped.
pub open spec fn status_paths(entries: Seq<Seq<char>>) -> Seq<Seq<char>>
    decreases entries.len(),
{
    if entries.len() == 0 {
        Seq::<Seq<char>>::empty()
    } else if encode_utf8(entries[0]).len() < 4 {
        status_paths(entries.drop_first())
    } else if is_rename_or_copy(entries[0]) && entries.len() > 1 {
        seq![status_path(entries[0]), entries[1]] + status_paths(entries.skip(2))
    } else {
        seq![status_path(entries[0])] + status_paths(entries.drop_first())
    }
}

/// Every entry read as a status line splits at byte 3 on a character
/// boundary (git writes two status letters and a space there).
pub open spec fn status_entries_split(entries: Seq<Seq<char>>) -> bool
    decreases entries.len(),
{
    if entries.len() == 0 {
        true
    } else if encode_utf8(entries[0]).len() < 4 {
        status_entries_split(entries.drop_first())
    } else {
        &&& is_char_boundary(encode_utf8(entries[0]), 3)
        &&& if is_rename_or_copy(entries[0]) && entries.len() > 1 {
            status_entries_split(entries.skip(2))
        } else {
            status_entries_split(entries.drop_first())
        }
    }
}

/// The git outputs can be read: each status line splits after its status.
pub open spec fn outputs_readable(status_output: Option<Seq<char>>) -> bool {
    match status_output {
        Some(s) => status_entries_split(nul_entries(s)),
        None => true,
    }
}

/// The paths a diff touches, relative to the repository root: the
/// committed diff, then the working-tree status when it is included.
pub open spec fn repo_paths(diff_output: Seq<char>, status_output: Option<Seq<char>>) -> Seq<Seq<char>> {
    nul_entries(diff_output) + match status_output {
        Some(s) => status_paths(nul_entries(s)),
        None => Seq::<Seq<char>>::empty(),
    }
}

/// A rebased path is kept unless it is the lock or the configuration file.
pub open spec fn kept(p: Seq<char>) -> bool {
    p != lock::FILE_NAME@ && p != config::FILE_NAME@
}

/// `kept` as a predicate value.
pub open spec fn kept_pred() -> spec_fn(Seq<char>) -> bool {
    |p: Seq<char>| kept(p)
}

/// The changed files: the touched paths rebased onto the Gradle root, the
/// lock and the configuration file left out.
pub open spec fn changed_set(prefix: Seq<char>, paths: Seq<Seq<char>>) -> Seq<Seq<char>> {
    paths.map_values(|p: Seq<char>| rebase_spec(p, prefix)).filter(kept_pred())
}

/// The entries of a NUL-separated output, as strings.
fn entries_of_output(out: &str) -> (r: Vec<String>)
    ensures
        strings_of(r@) == nul_entries(out@),
{
    let cs = chars_of(out);
    let parts = split_chars(cs.as_slice(), '\0');
    let ghost ps = seqs_of(parts@);
    let mut r: Vec<String> = Vec::new();
    let n = parts.len();
    let mut i: usize = 0;
    while i < n
        invariant
            n == parts@.len(),
            ps == seqs_of(parts@),
            ps == split_spec(out@, '\0'),
            i <= n,
            strings_of(r@) == non_empty_parts(ps.take(i as int)),
        decreases n - i,
    {
        assert(ps.take(i + 1).drop_last() =~= ps.take(i as int));
        assert(ps[i as int] == parts@[i as int]@);
        if parts[i].len() > 0 {
            let s = string_of(parts[i].as_slice());
            r.push(s);
            assert(strings_of(r@) =~= non_empty_parts(ps.take(i as int)).push(ps[i as int]));
        }
        i += 1;
    }
    assert(ps.take(n as int) =~= ps);
    r
}

/// A string without characters has no bytes.
proof fn lemma_no_bytes(e: Seq<char>)
    ensures
        e.len() == 0 ==> encode_utf8(e).len() == 0,
{
}

/// Whether every status line of a `git status --porcelain -z` output
/// splits after its status (the condition `changed_files` needs).
pub fn status_output_readable(status_output: &str) -> (r: bool)
    ensures
        r == status_entries_split(nul_entries(status_output@)),
{
    let entries = entries_of_output(status_output);
    let ghost es = strings_of(entries@);
    let n = entries.len();
    let mut i: usize = 0;
    assert(es.skip(0) =~= es);
    while i < n
        invariant
            n == entries@.len(),
            es == strings_of(entries@),
            es == nul_entries(status_output@),
            i <= n,
            status_entries_split(es) == status_entries_split(es.skip(i as int)),
        decreases n - i,
    {
        let e = entries[i].as_str();
        let ghost rest = es.skip(i as int);
        assert(rest[0] == es[i as int]);
        assert(e@ == es[i as int]);
        assert(rest.drop_first() =~= es.skip(i + 1));
        assert(e.spec_bytes() == encode_utf8(rest[0]));
        let eb = e.as_bytes();
        if eb.len() < 4 {
            assert(encode_utf8(rest[0]).len() < 4);
            assert(status_entries_split(rest) == status_entries_split(es.skip(i + 1)));
            i += 1;
        } else {
            proof {
                lemma_no_bytes(e@);
            }
            if !e.is_char_boundary(3) {
                assert(!status_entries_split(rest));
                return false;
            }
            let cs = chars_of(e);
            if (cs[0] == 'R' || cs[0] == 'C') && i + 1 < n {
                assert(rest.skip(2) =~= es.skip(i + 2));
                assert(status_entries_split(rest) == status_entries_split(es.skip(i + 2)));
                i += 2;
            } else {
                assert(status_entries_split(rest) == status_entries_split(es.skip(i + 1)));
                i += 1;
            }
        }
    }
    assert(es.skip(n as int) =~= Seq::<Seq<char>>::empty());
    true
}

/// The paths the status lines name, in order.
fn status_paths_exec(status_output: &str) -> (r: Vec<String>)
    requires
        status_entries_split(nul_entries(status_output@)),
    ensures
        strings_of(r@) == status_paths(nul_entries(status_output@)),
{
    let entries = entries_of_output(status_output);
    let ghost es = strings_of(entries@);
    let mut out: Vec<String> = Vec::new();
    let n = entries.len();
    let mut i: usize = 0;
    assert(es.skip(0) =~= es);
    assert(strings_of(out@) + status_paths(es.skip(0)) =~= status_paths(es));
    while i < n
        invariant
            n == entries@.len(),
            es == strings_of(entries@),
            i <= n,
            status_entries_split(es.skip(i as int)),
            strings_of(out@) + status_paths(es.skip(i as int)) == status_paths(es),
        decreases n - i,
    {
        let e = entries[i].as_str();
        let ghost rest = es.skip(i as int);
        assert(rest[0] == es[i as int]);
        assert(e@ == es[i as int]);
        assert(rest.drop_first() =~= es.skip(i + 1));
        let ghost before = strings_of(out@);
        assert(e.spec_bytes() == encode_utf8(rest[0]));
        let eb = e.as_bytes();
        if eb.len() < 4 {
            assert(encode_utf8(rest[0]).len() < 4);
            assert(status_entries_split(rest) == status_entries_split(es.skip(i + 1)));
            assert(status_paths(rest) == status_paths(es.skip(i + 1)));
            i += 1;
        } else {
            proof {
                lemma_no_bytes(e@);
            }
            let (_, path) = e.split_at(3);
            let p = path.to_string();
            proof {
                vstd::utf8::encode_utf8_decode_utf8(p@);
                assert(p@ == status_path(es[i as int]));
            }
            out.push(p);
            let cs = chars_of(e);
            if (cs[0] == 'R' || cs[0] == 'C') && i + 1 < n {
                let origin = entries[i + 1].clone();
                out.push(origin);
                assert(rest.skip(2) =~= es.skip(i + 2));
                assert(rest[1] == es[i + 1]);
                assert(status_entries_split(es.skip(i + 2)));
                assert(status_paths(rest) == seq![status_path(rest[0]), rest[1]] + status_paths(
                    es.skip(i + 2),
                ));
                assert(strings_of(out@) =~= before + seq![status_path(rest[0]), rest[1]]);
                assert(strings_of(out@) + status_paths(es.skip(i + 2)) =~= before + status_paths(
                    rest,
                ));
                i += 2;
            } else {
                assert(status_entries_split(es.skip(i + 1)));
                assert(status_paths(rest) == seq![status_path(rest[0])] + status_paths(
                    es.skip(i + 1),
                ));
                assert(strings_of(out@) =~= before + seq![status_path(rest[0])]);
                assert(strings_of(out@) + status_paths(es.skip(i + 1)) =~= before + status_paths(
                    rest,
                ));
                i += 1;
            }
        }
    }
    assert(es.skip(n as int) =~= Seq::<Seq<char>>::empty());
    assert(strings_of(out@) + status_paths(es.skip(n as int)) =~= strings_of(out@));
    out
}

/// Adds `p`, rebased onto `prefix`, to the sorted set `files` unless it is
/// the lock or the configuration file.
fn add_changed(files: &mut Vec<String>, p: &str, prefix: &str)
    requires
        strictly_sorted(strings_of(old(files)@)),
    ensures
        strictly_sorted(strings_of(final(files)@)),
        forall|x: Seq<char>|
            #[trigger] strings_of(final(files)@).contains(x) <==> (strings_of(old(files)@).contains(x)
                || (x == rebase_spec(p@, prefix@) && kept(x))),
{
    let r = rebase(p, prefix);
    if !str_eq(r.as_str(), lock::FILE_NAME) && !str_eq(r.as_str(), config::FILE_NAME) {
        set_insert(files, r);
    }
}

/// Changed files: the paths of `git diff --name-only --no-renames -z
/// <merge_base> HEAD`, plus, when given, those of `git status --porcelain
/// -z --untracked-files=all` (a rename or copy with its origin too), each
/// rebased from the repository root onto `prefix` (the Gradle root's path
/// in the repository, `.` for the root itself). The lock and the
/// configuration file are left out: the lock never maps anywhere, the
/// configuration participates via the invalidation hash instead.
pub fn changed_files(
    prefix: &str,
    merge_base: String,
    diff_output: &str,
    status_output: Option<&str>,
) -> (r: Diff)
    requires
        outputs_readable(match status_output {
            Some(s) => Some(s@),
            None => None,
        }),
    ensures
        r.merge_base@ == merge_base@,
        is_sorted_set_of(
            strings_of(r.files@),
            changed_set(
                prefix@,
                repo_paths(
                    diff_output@,
                    match status_output {
                        Some(s) => Some(s@),
                        None => None,
                    },
                ),
            ),
        ),
{
    let ghost status_view = match status_output {
        Some(s) => Some(s@),
        None => None::<Seq<char>>,
    };
    let mut paths = entries_of_output(diff_output);
    match status_output {
        Some(s) => {
            let extra = status_paths_exec(s);
            let ghost before = strings_of(paths@);
            let m = extra.len();
            let mut j: usize = 0;
            while j < m
                invariant
                    m == extra@.len(),
                    j <= m,
                    strings_of(paths@) == before + strings_of(extra@).take(j as int),
                decreases m - j,
            {
                let x = extra[j].clone();
                let ghost mid = strings_of(paths@);
                paths.push(x);
                assert(strings_of(paths@) =~= mid.push(extra@[j as int]@));
                assert(strings_of(extra@).take(j + 1) =~= strings_of(extra@).take(j as int).push(
                    extra@[j as int]@,
                ));
                assert(strings_of(paths@) =~= before + strings_of(extra@).take(j + 1));
                j += 1;
            }
            assert(strings_of(extra@).take(m as int) =~= strings_of(extra@));
        },
        None => {
            assert(strings_of(paths@) =~= strings_of(paths@) + Seq::<Seq<char>>::empty());
        },
    }
    let ghost all = strings_of(paths@);
    assert(all == repo_paths(diff_output@, status_view));
    let mut files: Vec<String> = Vec::new();
    let n = paths.len();
    let mut i: usize = 0;
    while i < n
        invariant
            n == paths@.len(),
            all == strings_of(paths@),
            i <= n,
            strictly_sorted(strings_of(files@)),
            forall|x: Seq<char>|
                strings_of(files@).contains(x) <==> changed_set(prefix@, all.take(i as int)).contains(x),
        decreases n - i,
    {
        proof {
            let prev = all.take(i as int).map_values(|p: Seq<char>| rebase_spec(p, prefix@));
            let x0 = rebase_spec(all[i as int], prefix@);
            assert(all.take(i + 1) =~= all.take(i as int).push(all[i as int]));
            assert(all.take(i + 1).map_values(|p: Seq<char>| rebase_spec(p, prefix@)) =~= prev.push(x0));
            prev.lemma_filter_push(x0, kept_pred());
        }
        let ghost before = strings_of(files@);
        let pi = paths[i].as_str();
        assert(pi@ == all[i as int]);
        add_changed(&mut files, pi, prefix);
        proof {
            let prev = all.take(i as int).map_values(|p: Seq<char>| rebase_spec(p, prefix@));
            let x0 = rebase_spec(all[i as int], prefix@);
            let fp = prev.filter(kept_pred());
            assert(changed_set(prefix@, all.take(i + 1)) == if kept(x0) {
                fp.push(x0)
            } else {
                fp
            });
            assert forall|x: Seq<char>|
                strings_of(files@).contains(x) <==> changed_set(prefix@, all.take(i + 1)).contains(x) by {
                assert(before.contains(x) <==> fp.contains(x));
                assert(strings_of(files@).contains(x) <==> (before.contains(x) || (x == x0 && kept(x))));
                if kept(x0) {
                    vstd::seq_lib::lemma_seq_contains_after_push(fp, x0, x);
                }
            }
        }
        i += 1;
    }
    assert(all.take(n as int) =~= all);
    Diff { merge_base, files }
}

/// The explanation when `git merge-base <base> HEAD` fails: in a shallow
/// clone, how to get the history; when the base ref is unknown, how to
/// fetch or override it; otherwise git's own error.
pub open spec fn merge_base_failure_spec(base: Seq<char>, shallow: bool, base_known: bool, err: Seq<char>) -> Seq<char> {
    if shallow {
        "cannot find merge-base("@ + base + SHALLOW_HELP@
    } else if !base_known {
        "base ref "@ + debug_quoted(base) + UNKNOWN_BASE_HELP@
    } else {
        err
    }
}

/// How to deepen a shallow clone, after the failed merge-base.
pub const SHALLOW_HELP: &'static str = ", HEAD) in a shallow clone — fetch full history (GitHub Actions: `fetch-depth: 0`, or `git fetch --unshallow`), or pass --base-sha <sha> if CI already knows the base commit";

/// How to make an unknown base ref known, after its quoted name.
pub const UNKNOWN_BASE_HELP: &'static str = " is unknown — fetch it (e.g. `git fetch origin main`), or override with --base / [affected] base in lightning.toml";

/// The merge base: git's answer trimmed; or, when `git merge-base` failed
/// with `err`, the explanation given whether the clone is shallow (`git
/// rev-parse --is-shallow-repository` printed `true`) and whether `base`
/// names a commit (`git rev-parse --verify --quiet <base>^{commit}`).
pub fn resolve_merge_base(
    base: &str,
    merge_base: Result<String, String>,
    shallow: bool,
    base_known: bool,
) -> (r: Result<String, String>)
    ensures
        match merge_base {
            Ok(out) => r matches Ok(s) && s@ == crate::text::trim_spec(out@),
            Err(err) => r matches Err(e) && e@ == merge_base_failure_spec(base@, shallow, base_known, err@),
        },
{
    match merge_base {
        Ok(out) => Ok(crate::text::trim(out.as_str())),
        Err(err) => {
            if shallow {
                let mut e = String::new();
                push_str(&mut e, "cannot find merge-base(");
                push_str(&mut e, base);
                push_str(&mut e, SHALLOW_HELP);
                return Err(e);
            }
            if !base_known {
                let mut e = String::new();
                push_str(&mut e, "base ref ");
                let q = debug_quote(base);
                push_str(&mut e, q.as_str());
                push_str(&mut e, UNKNOWN_BASE_HELP);
                return Err(e);
            }
            Err(err)
        },
    }
}

/// The error when `--base-sha` names no commit.
pub fn unknown_base_sha(sha: &str) -> (r: String)
    ensures
        r@ == "--base-sha "@ + debug_quoted(sha@) + " is not a known commit"@,
{
    let mut e = String::new();
    push_str(&mut e, "--base-sha ");
    let q = debug_quote(sha);
    push_str(&mut e, q.as_str());
    push_str(&mut e, " is not a known commit");
    e
}

/// The changed files never name the lock or the configuration file: the
/// lock maps nowhere, and the configuration counts through the
/// invalidation hash instead.
pub proof fn law_changed_files_leave_out_lock_and_config(prefix: Seq<char>, paths: Seq<Seq<char>>, f: Seq<char>)
    requires
        changed_set(prefix, paths).contains(f),
    ensures
        f != lock::FILE_NAME@,
        f != config::FILE_NAME@,
{
    let m = paths.map_values(|p: Seq<char>| rebase_spec(p, prefix));
    m.filter_lemma(kept_pred());
    let i = choose|i: int| 0 <= i < m.filter(kept_pred()).len() && m.filter(kept_pred())[i] == f;
    assert(kept_pred()(m.filter(kept_pred())[i]));
}

} // verus!
