//! Selective execution: which modules a diff affects.

use vstd::prelude::*;
use vstd::utf8::encode_utf8;
use crate::lock::{closure, has_module, is_closure, law_changed_modules_are_affected, Lock, Module, Reason};
use crate::text::has_key;
use crate::paths::{dot, is_under, is_under_spec};
use crate::text::{entries_of, push_str, str_eq, strings_of};
use crate::patterns::{debug_quote, debug_quoted, glob_error, glob_match, glob_matches, glob_valid};
use crate::sync::{matches_any, pattern_hits};
use vstd::string::StringSliceAdditionalSpecFns;

verus! {

/// Missing/stale lock aborts with this code unless `--auto-sync`.
pub const EXIT_STALE: i32 = 4;

/// `--quiet` exit when nothing is affected.
pub const EXIT_NOTHING: i32 = 3;

/// The base ref when neither the command line nor `lightning.toml` names one.
pub const DEFAULT_BASE: &'static str = "origin/main";

/// How the diff is chosen and a stale lock is handled.
pub struct SelectArgs {
    /// Base ref to diff against via merge-base.
    pub base: Option<String>,
    /// Diff directly against this commit, skipping merge-base resolution.
    pub base_sha: Option<String>,
    /// Run `lightning sync` automatically when the lock is missing or stale.
    pub auto_sync: bool,
    /// Exclude uncommitted working-tree changes from the diff.
    pub no_uncommitted: bool,
}

/// The affected modules of one diff.
pub struct Selection {
    pub base: String,
    pub merge_base: String,
    /// Set when selection degraded to everything-affected, with the reason.
    pub everything: Option<String>,
    /// Affected modules with reasons, sorted by path. When `everything` is
    /// set this contains all modules with `Reason::Everything`.
    pub modules: Vec<(String, Reason)>,
    pub lock: Lock,
}

/// What selection comes to.
pub enum Outcome {
    Selected(Selection),
    /// Lock missing or stale without --auto-sync: message + exit code 4.
    Stale(String),
}

/// Output format of `lightning affected`.
#[derive(Debug, Clone, Copy, PartialEq, Eq, Structural)]
pub enum Format {
    Text,
    Json,
    GithubMatrix,
}

/// Arguments of `lightning affected`.
pub struct AffectedArgs {
    pub select: SelectArgs,
    /// Output format
    pub format: Format,
    /// Shorthand for --format json
    pub json: bool,
    /// No output; exit 0 when something is affected, 3 when nothing is
    pub quiet: bool,
}

/// One of the module's declared source dirs holds the file.
pub open spec fn in_source_dirs(m: Module, file: Seq<char>) -> bool {
    exists|k: int| 0 <= k < m.source_dirs@.len() && is_under_spec(file, #[trigger] m.source_dirs@[k]@)
}

/// The paths, in module order, of the modules whose source dirs hold the file.
pub open spec fn source_owners(ms: Seq<Module>, file: Seq<char>) -> Seq<Seq<char>>
    decreases ms.len(),
{
    if ms.len() == 0 {
        Seq::empty()
    } else {
        let rest = source_owners(ms.drop_last(), file);
        if in_source_dirs(ms.last(), file) {
            rest.push(ms.last().path@)
        } else {
            rest
        }
    }
}

/// The module directory (not the root `.`) holds the file.
pub open spec fn dir_holds(m: Module, file: Seq<char>) -> bool {
    m.dir@ != dot() && is_under_spec(file, m.dir@)
}

/// The byte length of the module directory.
pub open spec fn dir_bytes(m: Module) -> nat {
    encode_utf8(m.dir@).len()
}

/// The index of the module with the longest directory holding the file; of
/// equally long ones, the last.
pub open spec fn deepest_dir_owner(ms: Seq<Module>, file: Seq<char>) -> Option<int>
    decreases ms.len(),
{
    if ms.len() == 0 {
        None
    } else {
        let best = deepest_dir_owner(ms.drop_last(), file);
        let last = ms.len() - 1;
        if dir_holds(ms.last(), file) && (best is None || dir_bytes(ms[best->0]) <= dir_bytes(
            ms.last(),
        )) {
            Some(last)
        } else {
            best
        }
    }
}

/// The modules that own a changed file: all modules whose declared source
/// dirs hold it, else the module with the longest directory holding it;
/// `None` when no module owns it.
pub open spec fn map_file_spec(ms: Seq<Module>, file: Seq<char>) -> Option<Seq<Seq<char>>> {
    let by_source = source_owners(ms, file);
    if by_source.len() > 0 {
        Some(by_source)
    } else {
        match deepest_dir_owner(ms, file) {
            Some(i) => Some(seq![ms[i].path@]),
            None => None,
        }
    }
}

/// The reason recorded when a changed file lies outside all modules.
pub open spec fn outside_message(file: Seq<char>) -> Seq<char> {
    "changed file "@ + file + " is outside all modules"@
}

/// The message for the first changed file that no module owns.
pub open spec fn first_outside(ms: Seq<Module>, files: Seq<Seq<char>>) -> Option<Seq<char>>
    decreases files.len(),
{
    if files.len() == 0 {
        None
    } else if map_file_spec(ms, files[0]) is None {
        Some(outside_message(files[0]))
    } else {
        first_outside(ms, files.drop_first())
    }
}

/// The owners of all changed files, in file order.
pub open spec fn changed_modules(ms: Seq<Module>, files: Seq<Seq<char>>) -> Seq<Seq<char>>
    decreases files.len(),
{
    if files.len() == 0 {
        Seq::empty()
    } else {
        let rest = changed_modules(ms, files.drop_last());
        match map_file_spec(ms, files.last()) {
            Some(owners) => rest + owners,
            None => rest,
        }
    }
}

/// Every module, in lock order, with the reason `Everything`.
pub open spec fn everything(ms: Seq<Module>) -> Seq<(Seq<char>, Reason)> {
    ms.map_values(|m: Module| (m.path@, Reason::Everything))
}

/// The view of an optional string.
pub open spec fn opt_view(o: Option<String>) -> Option<Seq<char>> {
    match o {
        Some(s) => Some(s@),
        None => None,
    }
}

fn in_source_dirs_exec(m: &Module, file: &str) -> (r: bool)
    ensures
        r == in_source_dirs(*m, file@),
{
    let n = m.source_dirs.len();
    let mut k: usize = 0;
    while k < n
        invariant
            n == m.source_dirs@.len(),
            k <= n,
            forall|t: int| 0 <= t < k ==> !is_under_spec(file@, #[trigger] m.source_dirs@[t]@),
        decreases n - k,
    {
        if is_under(file, m.source_dirs[k].as_str()) {
            return true;
        }
        k += 1;
    }
    false
}

fn is_root_dir(dir: &str) -> (r: bool)
    ensures
        r == (dir@ == dot()),
{
    let s = crate::text::chars_of(dir);
    if s.len() == 1 && s[0] == '.' {
        assert(s@ =~= dot());
        true
    } else {
        false
    }
}

/// Declared source dirs first (all matches), then longest module-dir prefix
/// (the root project's `.` never prefix-matches), else None → everything.
fn map_file(modules: &Vec<Module>, file: &str) -> (r: Option<Vec<String>>)
    ensures
        match r {
            Some(v) => map_file_spec(modules@, file@) == Some(strings_of(v@)),
            None => map_file_spec(modules@, file@) is None,
        },
{
    let ghost ms = modules@;
    let n = modules.len();
    let mut by_source: Vec<String> = Vec::new();
    let mut i: usize = 0;
    while i < n
        invariant
            n == ms.len(),
            ms == modules@,
            i <= n,
            strings_of(by_source@) == source_owners(ms.take(i as int), file@),
        decreases n - i,
    {
        let ghost t = ms.take(i + 1);
        assert(t.drop_last() =~= ms.take(i as int));
        if in_source_dirs_exec(&modules[i], file) {
            let ghost before = strings_of(by_source@);
            by_source.push(modules[i].path.clone());
            assert(strings_of(by_source@) =~= before.push(ms[i as int].path@));
        }
        i += 1;
    }
    assert(ms.take(n as int) =~= ms);
    if by_source.len() > 0 {
        return Some(by_source);
    }
    let mut best: Option<usize> = None;
    let mut best_len: usize = 0;
    let mut i: usize = 0;
    while i < n
        invariant
            n == ms.len(),
            ms == modules@,
            i <= n,
            match best {
                Some(b) => deepest_dir_owner(ms.take(i as int), file@) == Some(b as int) && b < i
                    && best_len == dir_bytes(ms[b as int]),
                None => deepest_dir_owner(ms.take(i as int), file@) is None,
            },
        decreases n - i,
    {
        let ghost t = ms.take(i + 1);
        assert(t.drop_last() =~= ms.take(i as int));
        assert(t.last() == ms[i as int]);
        let m = &modules[i];
        let ds = m.dir.as_str();
        let dl = ds.as_bytes().len();
        proof {
            assert(ds.spec_bytes() == encode_utf8(m.dir@));
            assert(dl == encode_utf8(m.dir@).len());
            if best is Some {
                assert(t[best->0 as int] == ms[best->0 as int]);
            }
        }
        if !is_root_dir(m.dir.as_str()) && is_under(file, m.dir.as_str()) && (best.is_none()
            || best_len <= dl) {
            best = Some(i);
            best_len = dl;
        }
        i += 1;
    }
    assert(ms.take(n as int) =~= ms);
    match best {
        Some(b) => {
            let mut v: Vec<String> = Vec::new();
            v.push(modules[b].path.clone());
            assert(strings_of(v@) =~= seq![ms[b as int].path@]);
            Some(v)
        },
        None => None,
    }
}

fn everything_of(modules: &Vec<Module>) -> (r: Vec<(String, Reason)>)
    ensures
        entries_of(r@) == everything(modules@),
{
    let n = modules.len();
    let mut out: Vec<(String, Reason)> = Vec::new();
    let mut i: usize = 0;
    while i < n
        invariant
            n == modules@.len(),
            i <= n,
            entries_of(out@) == everything(modules@).take(i as int),
        decreases n - i,
    {
        let ghost before = entries_of(out@);
        out.push((modules[i].path.clone(), Reason::Everything));
        assert(entries_of(out@) =~= before.push((modules@[i as int].path@, Reason::Everything)));
        assert(entries_of(out@) =~= everything(modules@).take(i + 1));
        i += 1;
    }
    assert(everything(modules@).take(n as int) =~= everything(modules@));
    out
}

/// The affected modules of a lock for a set of changed files (given in
/// ascending order): everything when the lock is unsupported or a file lies
/// outside all modules, else the closure over the owners of the files.
pub fn compute(lock: &Lock, files: &Vec<String>) -> (r: (Option<String>, Vec<(String, Reason)>))
    ensures
        match lock.unsupported {
            Some(u) => opt_view(r.0) == Some(u@) && entries_of(r.1@) == everything(
                lock.modules@,
            ),
            None => match first_outside(lock.modules@, strings_of(files@)) {
                Some(msg) => opt_view(r.0) == Some(msg) && entries_of(r.1@) == everything(
                    lock.modules@,
                ),
                None => r.0 is None && is_closure(
                    lock.modules@,
                    changed_modules(lock.modules@, strings_of(files@)),
                    entries_of(r.1@),
                ),
            },
        },
{
    if let Some(reason) = &lock.unsupported {
        return (Some(reason.clone()), everything_of(&lock.modules));
    }
    let ghost ms = lock.modules@;
    let ghost fs = strings_of(files@);
    let nf = files.len();
    let mut changed: Vec<String> = Vec::new();
    let mut i: usize = 0;
    assert(fs.skip(0) =~= fs);
    while i < nf
        invariant
            nf == fs.len(),
            fs == strings_of(files@),
            ms == lock.modules@,
            lock.unsupported is None,
            i <= nf,
            first_outside(ms, fs) == first_outside(ms, fs.skip(i as int)),
            strings_of(changed@) == changed_modules(ms, fs.take(i as int)),
        decreases nf - i,
    {
        let ghost t = fs.take(i + 1);
        assert(t.drop_last() =~= fs.take(i as int));
        assert(t.last() == fs[i as int]);
        assert(fs.skip(i as int)[0] == fs[i as int]);
        assert(fs.skip(i as int).drop_first() =~= fs.skip(i + 1));
        match map_file(&lock.modules, files[i].as_str()) {
            None => {
                assert(first_outside(ms, fs.skip(i as int)) == Some(outside_message(fs[i as int])));
                let mut msg = String::from_str("changed file ");
                push_str(&mut msg, files[i].as_str());
                push_str(&mut msg, " is outside all modules");
                assert(files@[i as int]@ == fs[i as int]);
                assert(msg@ =~= outside_message(fs[i as int]));
                assert(lock.unsupported is None);
                return (Some(msg), everything_of(&lock.modules));
            },
            Some(owners) => {
                let ghost before = strings_of(changed@);
                let no = owners.len();
                let mut k: usize = 0;
                while k < no
                    invariant
                        no == owners@.len(),
                        k <= no,
                        strings_of(changed@) == before + strings_of(owners@).take(k as int),
                    decreases no - k,
                {
                    let ghost mid = strings_of(changed@);
                    changed.push(owners[k].clone());
                    assert(strings_of(changed@) =~= mid.push(owners@[k as int]@));
                    assert(strings_of(changed@) =~= before + strings_of(owners@).take(k + 1));
                    k += 1;
                }
                assert(strings_of(owners@).take(no as int) =~= strings_of(owners@));
            },
        }
        i += 1;
    }
    assert(fs.take(nf as int) =~= fs);
    assert(fs.skip(nf as int) =~= Seq::<Seq<char>>::empty());
    (None, closure(&lock.modules, &changed))
}

/// The base ref: the command line's, else the configured one, else
/// `origin/main`.
pub fn choose_base(cli: Option<String>, configured: Option<String>) -> (r: String)
    ensures
        r@ == match cli {
            Some(b) => b@,
            None => match configured {
                Some(b) => b@,
                None => DEFAULT_BASE@,
            },
        },
{
    match cli {
        Some(b) => b,
        None => match configured {
            Some(b) => b,
            None => {
                let mut d = String::new();
                push_str(&mut d, DEFAULT_BASE);
                d
            },
        },
    }
}

/// The first ignore glob that does not compile.
pub open spec fn first_bad_glob(globs: Seq<Seq<char>>) -> Option<Seq<char>>
    decreases globs.len(),
{
    if globs.len() == 0 {
        None
    } else if !glob_valid(globs[0]) {
        Some(globs[0])
    } else {
        first_bad_glob(globs.drop_first())
    }
}

/// Some ignore glob matches the file.
pub open spec fn ignored(globs: Seq<Seq<char>>, file: Seq<char>) -> bool {
    exists|k: int| 0 <= k < globs.len() && glob_matches(#[trigger] globs[k], file)
}

/// The opt-in ignore globs applied to the changed files: `Err` naming the
/// first glob that does not compile, else the files no glob matches.
pub open spec fn without_ignored_spec(files: Seq<Seq<char>>, globs: Seq<Seq<char>>) -> Result<
    Seq<Seq<char>>,
    Seq<char>,
> {
    match first_bad_glob(globs) {
        Some(g) => Err("invalid ignore glob "@ + debug_quoted(g) + ": "@ + glob_error(g)),
        None => Ok(files.filter(|f: Seq<char>| !ignored(globs, f))),
    }
}

/// Whether some of the (valid) globs matches the file.
fn ignored_by(globs: &Vec<String>, file: &str) -> (r: bool)
    requires
        first_bad_glob(strings_of(globs@)) is None,
    ensures
        r == ignored(strings_of(globs@), file@),
{
    let ghost gs = strings_of(globs@);
    let n = globs.len();
    let mut k: usize = 0;
    assert(gs.skip(0) =~= gs);
    while k < n
        invariant
            n == globs@.len(),
            gs == strings_of(globs@),
            k <= n,
            first_bad_glob(gs.skip(k as int)) is None,
            forall|t: int| 0 <= t < k ==> !glob_matches(#[trigger] gs[t], file@),
        decreases n - k,
    {
        assert(gs.skip(k as int)[0] == gs[k as int]);
        assert(gs.skip(k as int).drop_first() =~= gs.skip(k + 1));
        match glob_match(globs[k].as_str(), file) {
            Ok(true) => {
                return true;
            },
            _ => {},
        }
        k += 1;
    }
    false
}

/// Applies the opt-in ignore globs to the changed files, before anything
/// else.
pub fn without_ignored(files: &Vec<String>, ignore: &Vec<String>) -> (r: Result<Vec<String>, String>)
    ensures
        match without_ignored_spec(strings_of(files@), strings_of(ignore@)) {
            Ok(kept) => r matches Ok(v) && strings_of(v@) == kept,
            Err(m) => r matches Err(e) && e@ == m,
        },
{
    let ghost gs = strings_of(ignore@);
    let n = ignore.len();
    let mut k: usize = 0;
    assert(gs.skip(0) =~= gs);
    while k < n
        invariant
            n == ignore@.len(),
            gs == strings_of(ignore@),
            k <= n,
            first_bad_glob(gs) == first_bad_glob(gs.skip(k as int)),
        decreases n - k,
    {
        assert(gs.skip(k as int)[0] == gs[k as int]);
        assert(gs.skip(k as int).drop_first() =~= gs.skip(k + 1));
        match glob_match(ignore[k].as_str(), "") {
            Err(e) => {
                let mut msg = String::new();
                push_str(&mut msg, "invalid ignore glob ");
                let q = debug_quote(ignore[k].as_str());
                push_str(&mut msg, q.as_str());
                push_str(&mut msg, ": ");
                push_str(&mut msg, e.as_str());
                return Err(msg);
            },
            Ok(_) => {},
        }
        k += 1;
    }
    assert(gs.skip(n as int) =~= Seq::<Seq<char>>::empty());
    let ghost fs = strings_of(files@);
    let mut kept: Vec<String> = Vec::new();
    let m = files.len();
    let mut i: usize = 0;
    while i < m
        invariant
            m == files@.len(),
            fs == strings_of(files@),
            gs == strings_of(ignore@),
            first_bad_glob(gs) is None,
            i <= m,
            strings_of(kept@) == fs.take(i as int).filter(|f: Seq<char>| !ignored(gs, f)),
        decreases m - i,
    {
        proof {
            assert(fs.take(i + 1) =~= fs.take(i as int).push(fs[i as int]));
            fs.take(i as int).lemma_filter_push(fs[i as int], |f: Seq<char>| !ignored(gs, f));
        }
        if !ignored_by(ignore, files[i].as_str()) {
            let ghost before = strings_of(kept@);
            kept.push(files[i].clone());
            assert(strings_of(kept@) =~= before.push(fs[i as int]));
        }
        i += 1;
    }
    assert(fs.take(m as int) =~= fs);
    Ok(kept)
}

/// The first changed file an invalidation matcher hits.
pub open spec fn first_build_file(matchers: Seq<Seq<char>>, files: Seq<Seq<char>>) -> Option<Seq<char>>
    decreases files.len(),
{
    if files.len() == 0 {
        None
    } else if exists|k: int| 0 <= k < matchers.len() && pattern_hits(#[trigger] matchers[k], files[0]) {
        Some(files[0])
    } else {
        first_build_file(matchers, files.drop_first())
    }
}

/// Why the lock cannot be trusted: missing; its hash differs from the
/// recomputed one; or the diff touches a file the invalidation globs cover.
pub open spec fn stale_reason_spec(
    lock_hash: Option<Seq<char>>,
    current_hash: Seq<char>,
    files: Seq<Seq<char>>,
    matchers: Seq<Seq<char>>,
) -> Option<Seq<char>> {
    match lock_hash {
        None => Some("no lightning.lock found"@),
        Some(h) => if h != current_hash {
            Some("lightning.lock is stale (build files changed since sync)"@)
        } else {
            match first_build_file(matchers, files) {
                Some(f) => Some("the diff touches build file "@ + f),
                None => None,
            }
        },
    }
}

/// The staleness check: `lock` is the loaded lock, if any; `current_hash`
/// the recomputed hash of the build files; `matchers` the invalidation
/// globs (paranoid mode: a diff that touches build logic is stale too).
pub fn stale_reason(lock: Option<&Lock>, current_hash: &str, files: &Vec<String>, matchers: &Vec<String>) -> (r: Option<String>)
    ensures
        match r {
            Some(m) => stale_reason_spec(
                match lock {
                    Some(l) => Some(l.build_files_hash@),
                    None => None,
                },
                current_hash@,
                strings_of(files@),
                strings_of(matchers@),
            ) == Some(m@),
            None => stale_reason_spec(
                match lock {
                    Some(l) => Some(l.build_files_hash@),
                    None => None,
                },
                current_hash@,
                strings_of(files@),
                strings_of(matchers@),
            ) is None,
        },
{
    let l = match lock {
        None => {
            let mut m = String::new();
            push_str(&mut m, "no lightning.lock found");
            return Some(m);
        },
        Some(l) => l,
    };
    if !str_eq(l.build_files_hash.as_str(), current_hash) {
        let mut m = String::new();
        push_str(&mut m, "lightning.lock is stale (build files changed since sync)");
        return Some(m);
    }
    let ghost fs = strings_of(files@);
    let ghost ms = strings_of(matchers@);
    let n = files.len();
    let mut i: usize = 0;
    assert(fs.skip(0) =~= fs);
    while i < n
        invariant
            n == files@.len(),
            fs == strings_of(files@),
            ms == strings_of(matchers@),
            i <= n,
            lock == Some(l),
            l.build_files_hash@ == current_hash@,
            first_build_file(ms, fs) == first_build_file(ms, fs.skip(i as int)),
        decreases n - i,
    {
        assert(fs.skip(i as int)[0] == fs[i as int]);
        assert(fs.skip(i as int).drop_first() =~= fs.skip(i + 1));
        if matches_any(matchers, files[i].as_str()) {
            let mut m = String::new();
            push_str(&mut m, "the diff touches build file ");
            push_str(&mut m, files[i].as_str());
            assert(strings_of(matchers@)[0] == matchers@[0]@ || matchers@.len() == 0);
            assert(exists|k: int| 0 <= k < ms.len() && pattern_hits(#[trigger] ms[k], fs[i as int])) by {
                let k = choose|k: int| 0 <= k < matchers@.len() && pattern_hits(#[trigger] matchers@[k]@, files@[i as int]@);
                assert(ms[k] == matchers@[k]@);
            }
            assert(first_build_file(ms, fs.skip(i as int)) == Some(fs[i as int]));
            assert(files@[i as int]@ == fs[i as int]);
            return Some(m);
        }
        assert(!exists|k: int| 0 <= k < ms.len() && pattern_hits(#[trigger] ms[k], fs[i as int])) by {
            if exists|k: int| 0 <= k < ms.len() && pattern_hits(#[trigger] ms[k], fs[i as int]) {
                let k = choose|k: int| 0 <= k < ms.len() && pattern_hits(#[trigger] ms[k], fs[i as int]);
                assert(ms[k] == matchers@[k]@);
            }
        }
        i += 1;
    }
    assert(fs.skip(n as int) =~= Seq::<Seq<char>>::empty());
    None
}

/// The message of a stale outcome: the reason and how to fix it.
pub fn stale_message(reason: &str) -> (r: String)
    ensures
        r@ == reason@ + " — run `lightning sync` (or pass --auto-sync)"@,
{
    let mut m = String::new();
    push_str(&mut m, reason);
    push_str(&mut m, " — run `lightning sync` (or pass --auto-sync)");
    m
}

/// The selection over a trusted lock: the affected modules of the changed
/// files (see `compute`), with the base and merge base they were diffed
/// against.
pub fn select(base: String, merge_base: String, files: &Vec<String>, lock: Lock) -> (r: Selection)
    ensures
        r.base == base,
        r.merge_base == merge_base,
        r.lock == lock,
        match lock.unsupported {
            Some(u) => opt_view(r.everything) == Some(u@) && entries_of(r.modules@) == everything(
                lock.modules@,
            ),
            None => match first_outside(lock.modules@, strings_of(files@)) {
                Some(msg) => opt_view(r.everything) == Some(msg) && entries_of(r.modules@) == everything(
                    lock.modules@,
                ),
                None => r.everything is None && is_closure(
                    lock.modules@,
                    changed_modules(lock.modules@, strings_of(files@)),
                    entries_of(r.modules@),
                ),
            },
        },
{
    let (everything, modules) = compute(&lock, files);
    Selection { base, merge_base, everything, modules, lock }
}

/// The output format: `--json` is shorthand for `--format json`.
pub fn output_format(json: bool, format: Format) -> (r: Format)
    ensures
        r == (if json {
            Format::Json
        } else {
            format
        }),
{
    if json {
        Format::Json
    } else {
        format
    }
}

/// The exit code of `--quiet`: 0 when something is affected,
/// `EXIT_NOTHING` when nothing is.
pub fn quiet_exit_code(selection: &Selection) -> (r: i32)
    ensures
        r == (if selection.modules@.len() == 0 {
            EXIT_NOTHING
        } else {
            0
        }),
{
    if selection.modules.len() == 0 {
        EXIT_NOTHING
    } else {
        0
    }
}

/// A module whose declared source dir holds the file is among the file's
/// source owners.
proof fn lemma_source_owner(ms: Seq<Module>, file: Seq<char>, i: int)
    requires
        0 <= i < ms.len(),
        in_source_dirs(ms[i], file),
    ensures
        source_owners(ms, file).contains(ms[i].path@),
    decreases ms.len(),
{
    let rest = source_owners(ms.drop_last(), file);
    if i == ms.len() - 1 {
        assert(rest.push(ms[i].path@)[rest.len() as int] == ms[i].path@);
    } else {
        assert(ms.drop_last()[i] == ms[i]);
        lemma_source_owner(ms.drop_last(), file, i);
        let j = choose|j: int| 0 <= j < rest.len() && rest[j] == ms[i].path@;
        if in_source_dirs(ms.last(), file) {
            assert(rest.push(ms.last().path@)[j] == ms[i].path@);
        }
    }
}

/// The owners of every changed file are among the changed modules.
proof fn lemma_owner_changed(ms: Seq<Module>, files: Seq<Seq<char>>, f: int, p: Seq<char>)
    requires
        0 <= f < files.len(),
        map_file_spec(ms, files[f]) matches Some(o) && o.contains(p),
    ensures
        changed_modules(ms, files).contains(p),
    decreases files.len(),
{
    let rest = changed_modules(ms, files.drop_last());
    if f == files.len() - 1 {
        let o = map_file_spec(ms, files.last())->0;
        let j = choose|j: int| 0 <= j < o.len() && o[j] == p;
        assert((rest + o)[rest.len() + j] == p);
    } else {
        assert(files.drop_last()[f] == files[f]);
        lemma_owner_changed(ms, files.drop_last(), f, p);
        let j = choose|j: int| 0 <= j < rest.len() && rest[j] == p;
        match map_file_spec(ms, files.last()) {
            Some(o) => {
                assert((rest + o)[j] == p);
            },
            None => {},
        }
    }
}

/// No false negative through source dirs: a changed file that lies in a
/// declared source dir of a module makes that module changed, whatever
/// other modules also declare that dir, and so the module is affected in
/// any selection that does not fall back to everything.
pub proof fn law_source_dir_owners_are_affected(
    ms: Seq<Module>,
    files: Seq<Seq<char>>,
    e: Seq<(Seq<char>, Reason)>,
    f: int,
    i: int,
    k: int,
)
    requires
        0 <= f < files.len(),
        0 <= i < ms.len(),
        0 <= k < ms[i].source_dirs@.len(),
        is_under_spec(files[f], ms[i].source_dirs@[k]@),
        is_closure(ms, changed_modules(ms, files), e),
    ensures
        changed_modules(ms, files).contains(ms[i].path@),
        has_key(e, ms[i].path@),
{
    assert(in_source_dirs(ms[i], files[f]));
    lemma_source_owner(ms, files[f], i);
    assert(source_owners(ms, files[f]).len() > 0);
    lemma_owner_changed(ms, files, f, ms[i].path@);
    assert(has_module(ms, ms[i].path@));
    law_changed_modules_are_affected(ms, changed_modules(ms, files), e, ms[i].path@);
}

} // verus!
