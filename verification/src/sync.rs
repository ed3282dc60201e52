//! `lightning sync`: typing of dependency edges, the lock invalidation
//! glob set and content hash, and the normalization of the module-graph
//! dump into a deterministic lock.

use vstd::prelude::*;
use vstd::utf8::encode_utf8;
use vstd::string::StringSliceAdditionalSpecFns;
use crate::digest::{blake3_hex, blake3_hex_of, le_bytes, push_bytes, u64_le_bytes};
use crate::lock::{Dep, EdgeKind, Lock, Module, VERSION};
use crate::paths::{normalize as normalize_path, normalize_spec};
use crate::patterns::{
    check_glob, debug_quoted, escape_spec, glob_error, glob_escape, glob_match, glob_matches,
    glob_valid,
};
use crate::text::{
    chars_eq, chars_lt, chars_of, chars_starts_with, entries_of, has_prefix, is_sorted_set_of,
    keys_sorted, lemma_seq_lt_asymmetric, lemma_seq_lt_total,
    lemma_seq_lt_transitive, push_str, seq_lt, sorted_set, str_eq, str_lt, string_from,
    strings_of,
};

verus! {

/// A test-typed configuration: the deliberately closed list. Anything else
/// (testFixtures, androidTest, custom suites) stays `main`, so unknown
/// configurations can only over-select, never under-select.
pub open spec fn is_test_configuration(c: Seq<char>) -> bool {
    c == "testImplementation"@ || c == "testApi"@ || c == "testCompileOnly"@ || c
        == "testRuntimeOnly"@
}

/// The edge kind of a Gradle configuration.
pub open spec fn edge_kind_spec(c: Seq<char>) -> EdgeKind {
    if is_test_configuration(c) {
        EdgeKind::Test
    } else {
        EdgeKind::Main
    }
}

/// `Test` for the closed list of test configurations, `Main` otherwise.
pub fn edge_kind(configuration: &str) -> (r: EdgeKind)
    ensures
        r == edge_kind_spec(configuration@),
{
    if str_eq(configuration, "testImplementation") || str_eq(configuration, "testApi") || str_eq(
        configuration,
        "testCompileOnly",
    ) || str_eq(configuration, "testRuntimeOnly") {
        EdgeKind::Test
    } else {
        EdgeKind::Main
    }
}

/// The fixed invalidation glob set: every file that can change the module
/// graph, and lightning's own config.
pub open spec fn fixed_invalidation_globs() -> Seq<Seq<char>> {
    seq![
        "**/*.gradle"@,
        "**/*.gradle.kts"@,
        "buildSrc/**"@,
        "build-logic/**"@,
        "gradle/libs.versions.toml"@,
        "gradle/wrapper/gradle-wrapper.properties"@,
        "gradle.properties"@,
        "local.properties"@,
        "lightning.toml"@,
    ]
}

/// The fixed invalidation globs followed by the extra ones.
pub fn invalidation_globs(extra: &Vec<String>) -> (r: Vec<String>)
    ensures
        strings_of(r@) == fixed_invalidation_globs() + strings_of(extra@),
{
    let mut v: Vec<String> = Vec::new();
    v.push(String::from_str("**/*.gradle"));
    v.push(String::from_str("**/*.gradle.kts"));
    v.push(String::from_str("buildSrc/**"));
    v.push(String::from_str("build-logic/**"));
    v.push(String::from_str("gradle/libs.versions.toml"));
    v.push(String::from_str("gradle/wrapper/gradle-wrapper.properties"));
    v.push(String::from_str("gradle.properties"));
    v.push(String::from_str("local.properties"));
    v.push(String::from_str("lightning.toml"));
    assert(strings_of(v@) =~= fixed_invalidation_globs());
    let n = extra.len();
    let mut i: usize = 0;
    while i < n
        invariant
            n == extra@.len(),
            i <= n,
            strings_of(v@) == fixed_invalidation_globs() + strings_of(extra@).take(i as int),
        decreases n - i,
    {
        let ghost before = strings_of(v@);
        v.push(extra[i].clone());
        assert(strings_of(v@) =~= before.push(extra@[i as int]@));
        assert(strings_of(v@) =~= fixed_invalidation_globs() + strings_of(extra@).take(i + 1));
        i += 1;
    }
    assert(strings_of(extra@).take(n as int) =~= strings_of(extra@));
    v
}

/// The message for the first glob of the list that does not compile.
pub open spec fn first_glob_error(globs: Seq<Seq<char>>) -> Option<Seq<char>>
    decreases globs.len(),
{
    if globs.len() == 0 {
        None
    } else if !glob_valid(globs[0]) {
        Some("invalid glob "@ + debug_quoted(globs[0]) + ": "@ + glob_error(globs[0]))
    } else {
        first_glob_error(globs.drop_first())
    }
}

/// Validates a glob list: the globs when all compile, else the message for
/// the first that does not.
pub fn validate_globs(globs: Vec<String>) -> (r: Result<Vec<String>, String>)
    ensures
        match first_glob_error(strings_of(globs@)) {
            None => r matches Ok(v) && v@ == globs@ && forall|k: int|
                0 <= k < v@.len() ==> glob_valid(#[trigger] strings_of(v@)[k]),
            Some(msg) => r matches Err(e) && e@ == msg,
        },
{
    let ghost gs = strings_of(globs@);
    let n = globs.len();
    let mut i: usize = 0;
    assert(gs.skip(0) =~= gs);
    while i < n
        invariant
            n == globs@.len(),
            gs == strings_of(globs@),
            i <= n,
            first_glob_error(gs) == first_glob_error(gs.skip(i as int)),
            forall|k: int| 0 <= k < i ==> glob_valid(#[trigger] gs[k]),
        decreases n - i,
    {
        assert(gs.skip(i as int)[0] == gs[i as int]);
        assert(gs.skip(i as int).drop_first() =~= gs.skip(i + 1));
        match check_glob(globs[i].as_str()) {
            Ok(()) => {},
            Err(e) => {
                return Err(e);
            },
        }
        i += 1;
    }
    assert(gs.skip(n as int) =~= Seq::<Seq<char>>::empty());
    Ok(globs)
}

/// The invalidation globs (fixed set plus `extra`), each checked to compile.
pub fn invalidation_matchers(extra: &Vec<String>) -> (r: Result<Vec<String>, String>)
    ensures
        match first_glob_error(fixed_invalidation_globs() + strings_of(extra@)) {
            None => r matches Ok(v) && strings_of(v@) == fixed_invalidation_globs() + strings_of(
                extra@,
            ) && forall|k: int| 0 <= k < v@.len() ==> glob_valid(#[trigger] strings_of(v@)[k]),
            Some(msg) => r matches Err(e) && e@ == msg,
        },
{
    validate_globs(invalidation_globs(extra))
}

/// The invalidation glob of an included-build root: the escaped dir, then `/**`.
pub open spec fn included_build_glob(dir: Seq<char>) -> Seq<char> {
    escape_spec(dir) + "/**"@
}

/// `<dir>/**` invalidation globs for included-build roots recorded in the
/// lock (dir literals escaped so metacharacters cannot widen the pattern).
pub fn included_build_globs(dirs: &Vec<String>) -> (r: Vec<String>)
    ensures
        strings_of(r@) == strings_of(dirs@).map_values(|d: Seq<char>| included_build_glob(d)),
{
    let n = dirs.len();
    let mut v: Vec<String> = Vec::new();
    let mut i: usize = 0;
    while i < n
        invariant
            n == dirs@.len(),
            i <= n,
            strings_of(v@) == strings_of(dirs@).take(i as int).map_values(
                |d: Seq<char>| included_build_glob(d),
            ),
        decreases n - i,
    {
        let mut g = glob_escape(dirs[i].as_str());
        push_str(&mut g, "/**");
        let ghost before = strings_of(v@);
        v.push(g);
        assert(strings_of(v@) =~= before.push(included_build_glob(dirs@[i as int]@)));
        assert(strings_of(v@) =~= strings_of(dirs@).take(i + 1).map_values(
            |d: Seq<char>| included_build_glob(d),
        ));
        i += 1;
    }
    assert(strings_of(dirs@).take(n as int) =~= strings_of(dirs@));
    v
}

/// A pattern hits a path when it compiles and matches, or when it starts with
/// `**/` and the rest compiles and matches (so `**/x` also matches a
/// top-level `x`).
pub open spec fn pattern_hits(pattern: Seq<char>, path: Seq<char>) -> bool {
    (glob_valid(pattern) && glob_matches(pattern, path)) || (has_prefix(pattern, "**/"@)
        && glob_valid(pattern.skip(3)) && glob_matches(pattern.skip(3), path))
}

fn hits(pattern: &str, path: &str) -> (r: bool)
    ensures
        r == pattern_hits(pattern@, path@),
{
    match glob_match(pattern, path) {
        Ok(true) => {
            return true;
        },
        _ => {},
    }
    let cs = chars_of(pattern);
    let pre = vec!['*', '*', '/'];
    assert(pre@ =~= "**/"@) by {
        reveal_strlit("**/");
    }
    if !chars_starts_with(cs.as_slice(), pre.as_slice()) {
        return false;
    }
    let bare = string_from(cs.as_slice(), 3);
    match glob_match(bare.as_str(), path) {
        Ok(b) => b,
        Err(_) => false,
    }
}

/// Some pattern of the list hits the path.
pub fn matches_any(patterns: &Vec<String>, path: &str) -> (r: bool)
    ensures
        r == exists|k: int| 0 <= k < patterns@.len() && pattern_hits(#[trigger] patterns@[k]@, path@),
{
    let n = patterns.len();
    let mut k: usize = 0;
    while k < n
        invariant
            n == patterns@.len(),
            k <= n,
            forall|t: int| 0 <= t < k ==> !pattern_hits(#[trigger] patterns@[t]@, path@),
        decreases n - k,
    {
        if hits(patterns[k].as_str(), path) {
            return true;
        }
        k += 1;
    }
    false
}

/// The directory names the invalidation walk never descends into: generated
/// files must not flap the hash.
pub open spec fn is_skipped_dir(name: Seq<char>) -> bool {
    name == ".git"@ || name == ".gradle"@ || name == "build"@
}

/// The walk skips this directory name.
pub fn skipped_dir(name: &str) -> (r: bool)
    ensures
        r == is_skipped_dir(name@),
{
    str_eq(name, ".git") || str_eq(name, ".gradle") || str_eq(name, "build")
}

/// The files whose presence marks a Gradle root.
pub open spec fn gradle_root_markers_spec() -> Seq<Seq<char>> {
    seq!["settings.gradle"@, "settings.gradle.kts"@, "build.gradle"@, "build.gradle.kts"@]
}

/// The files whose presence marks a Gradle root.
pub fn gradle_root_markers() -> (r: Vec<String>)
    ensures
        strings_of(r@) == gradle_root_markers_spec(),
{
    let mut v: Vec<String> = Vec::new();
    v.push(String::from_str("settings.gradle"));
    v.push(String::from_str("settings.gradle.kts"));
    v.push(String::from_str("build.gradle"));
    v.push(String::from_str("build.gradle.kts"));
    assert(strings_of(v@) =~= gradle_root_markers_spec());
    v
}

/// The hashed record of one build file: `path NUL len NUL bytes`, the length
/// as 8 little-endian bytes.
pub open spec fn file_record(path: Seq<char>, bytes: Seq<u8>) -> Seq<u8> {
    encode_utf8(path) + seq![0u8] + le_bytes(bytes.len() as u64) + seq![0u8] + bytes
}

/// The records of the files, in order.
pub open spec fn build_files_stream(files: Seq<(Seq<char>, Vec<u8>)>) -> Seq<u8>
    decreases files.len(),
{
    if files.len() == 0 {
        Seq::empty()
    } else {
        build_files_stream(files.drop_last()) + file_record(files.last().0, files.last().1@)
    }
}

/// blake3 over the sorted invalidation file list: `path NUL len NUL bytes`.
/// The files come in path order, as the invalidation walk collects them.
pub fn build_files_hash(files: &Vec<(String, Vec<u8>)>) -> (r: String)
    requires
        keys_sorted(entries_of(files@)),
    ensures
        r@ == blake3_hex_of(build_files_stream(entries_of(files@))),
{
    let ghost fs = entries_of(files@);
    let n = files.len();
    let mut data: Vec<u8> = Vec::new();
    let mut i: usize = 0;
    while i < n
        invariant
            n == fs.len(),
            fs == entries_of(files@),
            i <= n,
            data@ == build_files_stream(fs.take(i as int)),
        decreases n - i,
    {
        let ghost t = fs.take(i + 1);
        assert(t.drop_last() =~= fs.take(i as int));
        let rel = files[i].0.as_str();
        let bytes = &files[i].1;
        let ghost before = data@;
        push_bytes(&mut data, rel.as_bytes());
        data.push(0u8);
        let len_bytes = u64_le_bytes(bytes.len() as u64);
        push_bytes(&mut data, len_bytes.as_slice());
        data.push(0u8);
        push_bytes(&mut data, bytes.as_slice());
        assert(data@ =~= before + file_record(fs[i as int].0, fs[i as int].1@));
        i += 1;
    }
    assert(fs.take(n as int) =~= fs);
    blake3_hex(data.as_slice())
}


/// The module graph as the sync init script dumps it.
pub struct Dump {
    pub unsupported: Option<String>,
    pub included_builds: Vec<DumpIncludedBuild>,
    pub modules: Vec<DumpModule>,
}

/// An included build; only its dir matters here.
pub struct DumpIncludedBuild {
    pub dir: String,
}

/// One project as dumped.
pub struct DumpModule {
    pub path: String,
    pub dir: String,
    pub source_dirs: Vec<String>,
    pub tasks: Vec<String>,
    pub deps: Vec<DumpDep>,
}

/// One dependency as dumped: target project and configuration.
pub struct DumpDep {
    pub path: String,
    pub configuration: String,
}

/// The order of dependency edges: by path, then `Main` before `Test`.
pub open spec fn dep_key_lt(a: (Seq<char>, EdgeKind), b: (Seq<char>, EdgeKind)) -> bool {
    seq_lt(a.0, b.0) || (a.0 == b.0 && a.1 == EdgeKind::Main && b.1 == EdgeKind::Test)
}

/// The (path, kind) keys of dependency edges.
pub open spec fn dep_keys(v: Seq<Dep>) -> Seq<(Seq<char>, EdgeKind)> {
    v.map_values(|d: Dep| (d.path@, d.kind))
}

/// Edges strictly increasing in edge order: sorted, no repeats.
pub open spec fn deps_sorted(k: Seq<(Seq<char>, EdgeKind)>) -> bool {
    forall|i: int, j: int| 0 <= i < j < k.len() ==> dep_key_lt(#[trigger] k[i], #[trigger] k[j])
}

/// The dump declares this typed edge (self edges dropped).
pub open spec fn is_wanted_dep(dm: DumpModule, x: (Seq<char>, EdgeKind)) -> bool {
    exists|j: int|
        0 <= j < dm.deps@.len() && #[trigger] dm.deps@[j].path@ != dm.path@ && x == (
            dm.deps@[j].path@,
            edge_kind_spec(dm.deps@[j].configuration@),
        )
}

/// `m` is the normalized form of the dumped project: normalized dir, sorted
/// sets of normalized source dirs and of tasks, sorted set of typed edges
/// without self edges.
pub open spec fn normalized_module(dm: DumpModule, m: Module) -> bool {
    &&& m.path@ == dm.path@
    &&& m.dir@ == normalize_spec(dm.dir@)
    &&& is_sorted_set_of(
        strings_of(m.source_dirs@),
        strings_of(dm.source_dirs@).map_values(|d: Seq<char>| normalize_spec(d)),
    )
    &&& is_sorted_set_of(strings_of(m.tasks@), strings_of(dm.tasks@))
    &&& deps_sorted(dep_keys(m.deps@))
    &&& forall|x: (Seq<char>, EdgeKind)| dep_keys(m.deps@).contains(x) <==> is_wanted_dep(dm, x)
}

/// `ms` is the stable sort by path of the normalized dumped projects, `perm`
/// giving the dump index of each.
pub open spec fn stable_by_path(dms: Seq<DumpModule>, ms: Seq<Module>, perm: Seq<int>) -> bool {
    &&& perm.len() == ms.len()
    &&& ms.len() == dms.len()
    &&& perm.no_duplicates()
    &&& forall|k: int|
        0 <= k < ms.len() ==> 0 <= #[trigger] perm[k] < dms.len() && normalized_module(
            dms[perm[k]],
            ms[k],
        )
    &&& forall|k: int, l: int|
        0 <= k < l < ms.len() ==> seq_lt(#[trigger] ms[k].path@, #[trigger] ms[l].path@) || (
        ms[k].path@ == ms[l].path@ && perm[k] < perm[l])
}

proof fn lemma_dep_key_lt_total(a: (Seq<char>, EdgeKind), b: (Seq<char>, EdgeKind))
    requires
        a != b,
    ensures
        dep_key_lt(a, b) || dep_key_lt(b, a),
{
    if a.0 != b.0 {
        lemma_seq_lt_total(a.0, b.0);
    }
}

proof fn lemma_dep_key_lt_transitive(
    a: (Seq<char>, EdgeKind),
    b: (Seq<char>, EdgeKind),
    c: (Seq<char>, EdgeKind),
)
    requires
        dep_key_lt(a, b),
        dep_key_lt(b, c),
    ensures
        dep_key_lt(a, c),
{
    if seq_lt(a.0, b.0) && seq_lt(b.0, c.0) {
        lemma_seq_lt_transitive(a.0, b.0, c.0);
    }
}

fn dep_lt(a: &Dep, b: &Dep) -> (r: bool)
    ensures
        r == dep_key_lt((a.path@, a.kind), (b.path@, b.kind)),
{
    if str_lt(a.path.as_str(), b.path.as_str()) {
        return true;
    }
    a.path == b.path && a.kind == EdgeKind::Main && b.kind == EdgeKind::Test
}

/// Adds an edge to a sorted set of edges.
fn dep_set_insert(v: &mut Vec<Dep>, d: Dep)
    requires
        deps_sorted(dep_keys(old(v)@)),
    ensures
        deps_sorted(dep_keys(final(v)@)),
        forall|x: (Seq<char>, EdgeKind)|
            dep_keys(final(v)@).contains(x) <==> (dep_keys(old(v)@).contains(x) || x == (
                d.path@,
                d.kind,
            )),
{
    let ghost e0 = dep_keys(v@);
    let ghost key = (d.path@, d.kind);
    let n = v.len();
    let mut pos: usize = 0;
    let mut found = false;
    while pos < n && !found
        invariant
            n == v@.len(),
            e0 == dep_keys(v@),
            key == (d.path@, d.kind),
            pos <= n,
            found ==> pos < n && !dep_key_lt(e0[pos as int], key),
            forall|i: int| 0 <= i < pos ==> dep_key_lt(#[trigger] e0[i], key),
        decreases n - pos + (if found { 0int } else { 1int }),
    {
        if dep_lt(&v[pos], &d) {
            pos += 1;
        } else {
            found = true;
        }
    }
    if pos < n {
        if v[pos].path == d.path && v[pos].kind == d.kind {
            proof {
                assert(e0[pos as int] == key);
                assert forall|x: (Seq<char>, EdgeKind)| e0.contains(x) <==> (e0.contains(x) || x == key) by {
                    if x == key {
                        assert(e0[pos as int] == x);
                    }
                }
            }
            return;
        }
    }
    proof {
        if pos < n {
            assert(e0[pos as int] != key);
            lemma_dep_key_lt_total(e0[pos as int], key);
            assert forall|i: int| pos <= i < n implies dep_key_lt(key, #[trigger] e0[i]) by {
                if i > pos {
                    lemma_dep_key_lt_transitive(key, e0[pos as int], e0[i]);
                }
            }
        }
    }
    v.insert(pos, d);
    proof {
        let e1 = dep_keys(v@);
        assert(e1 =~= e0.insert(pos as int, key));
        assert forall|x: (Seq<char>, EdgeKind)| e1.contains(x) <==> (e0.contains(x) || x == key) by {
            if e1.contains(x) {
                let i = choose|i: int| 0 <= i < e1.len() && e1[i] == x;
                if i < pos {
                    assert(e0[i] == x);
                } else if i > pos {
                    assert(e0[i - 1] == x);
                }
            }
            if e0.contains(x) {
                let i = choose|i: int| 0 <= i < e0.len() && e0[i] == x;
                if i < pos {
                    assert(e1[i] == x);
                } else {
                    assert(e1[i + 1] == x);
                }
            }
            if x == key {
                assert(e1[pos as int] == x);
            }
        }
        assert forall|i: int, j: int| 0 <= i < j < e1.len() implies dep_key_lt(
            #[trigger] e1[i],
            #[trigger] e1[j],
        ) by {
            if j < pos {
                assert(e1[i] == e0[i] && e1[j] == e0[j]);
            } else if j == pos {
                assert(e1[i] == e0[i]);
            } else if i < pos {
                assert(e1[i] == e0[i] && e1[j] == e0[j - 1]);
                lemma_dep_key_lt_transitive(e0[i], key, e0[j - 1]);
            } else if i == pos {
                assert(e1[j] == e0[j - 1]);
            } else {
                assert(e1[i] == e0[i - 1] && e1[j] == e0[j - 1]);
            }
        }
    }
}

fn normalize_module(dm: &DumpModule) -> (m: Module)
    ensures
        normalized_module(*dm, m),
{
    let nsd = dm.source_dirs.len();
    let mut dirs: Vec<String> = Vec::new();
    let mut i: usize = 0;
    while i < nsd
        invariant
            nsd == dm.source_dirs@.len(),
            i <= nsd,
            strings_of(dirs@) == strings_of(dm.source_dirs@).take(i as int).map_values(
                |d: Seq<char>| normalize_spec(d),
            ),
        decreases nsd - i,
    {
        let ghost before = strings_of(dirs@);
        dirs.push(normalize_path(dm.source_dirs[i].as_str()));
        assert(strings_of(dirs@) =~= before.push(normalize_spec(dm.source_dirs@[i as int]@)));
        assert(strings_of(dirs@) =~= strings_of(dm.source_dirs@).take(i + 1).map_values(
            |d: Seq<char>| normalize_spec(d),
        ));
        i += 1;
    }
    assert(strings_of(dm.source_dirs@).take(nsd as int) =~= strings_of(dm.source_dirs@));
    let source_dirs = sorted_set(dirs);

    let nt = dm.tasks.len();
    let mut tasks: Vec<String> = Vec::new();
    let mut i: usize = 0;
    while i < nt
        invariant
            nt == dm.tasks@.len(),
            i <= nt,
            strings_of(tasks@) == strings_of(dm.tasks@).take(i as int),
        decreases nt - i,
    {
        let ghost before = strings_of(tasks@);
        tasks.push(dm.tasks[i].clone());
        assert(strings_of(tasks@) =~= before.push(dm.tasks@[i as int]@));
        assert(strings_of(tasks@) =~= strings_of(dm.tasks@).take(i + 1));
        i += 1;
    }
    assert(strings_of(dm.tasks@).take(nt as int) =~= strings_of(dm.tasks@));
    let tasks = sorted_set(tasks);

    let nd = dm.deps.len();
    let mut deps: Vec<Dep> = Vec::new();
    let mut i: usize = 0;
    while i < nd
        invariant
            nd == dm.deps@.len(),
            i <= nd,
            deps_sorted(dep_keys(deps@)),
            forall|x: (Seq<char>, EdgeKind)|
                dep_keys(deps@).contains(x) <==> exists|j: int|
                    0 <= j < i && #[trigger] dm.deps@[j].path@ != dm.path@ && x == (
                        dm.deps@[j].path@,
                        edge_kind_spec(dm.deps@[j].configuration@),
                    ),
        decreases nd - i,
    {
        let dd = &dm.deps[i];
        if dd.path != dm.path {
            let kind = edge_kind(dd.configuration.as_str());
            dep_set_insert(&mut deps, Dep { path: dd.path.clone(), kind });
            proof {
                assert forall|x: (Seq<char>, EdgeKind)|
                    dep_keys(deps@).contains(x) <==> exists|j: int|
                        0 <= j < i + 1 && #[trigger] dm.deps@[j].path@ != dm.path@ && x == (
                            dm.deps@[j].path@,
                            edge_kind_spec(dm.deps@[j].configuration@),
                        ) by {
                    if x == (dd.path@, kind) {
                        assert(dm.deps@[i as int] == *dd);
                    }
                }
            }
        } else {
            proof {
                assert forall|x: (Seq<char>, EdgeKind)|
                    dep_keys(deps@).contains(x) <==> exists|j: int|
                        0 <= j < i + 1 && #[trigger] dm.deps@[j].path@ != dm.path@ && x == (
                            dm.deps@[j].path@,
                            edge_kind_spec(dm.deps@[j].configuration@),
                        ) by {
                    if exists|j: int|
                        0 <= j < i + 1 && #[trigger] dm.deps@[j].path@ != dm.path@ && x == (
                            dm.deps@[j].path@,
                            edge_kind_spec(dm.deps@[j].configuration@),
                        ) {
                        let j = choose|j: int|
                            0 <= j < i + 1 && #[trigger] dm.deps@[j].path@ != dm.path@ && x == (
                                dm.deps@[j].path@,
                                edge_kind_spec(dm.deps@[j].configuration@),
                            );
                        assert(j != i);
                    }
                }
            }
        }
        i += 1;
    }
    Module {
        path: dm.path.clone(),
        dir: normalize_path(dm.dir.as_str()),
        source_dirs,
        tasks,
        deps,
    }
}

/// Normalize the raw init-script dump into a deterministic lock: modules
/// stably sorted by path, sorted and deduplicated source dirs, tasks and
/// edges, typed edges, sorted and deduplicated included-build roots.
pub fn normalize(dump: Dump, build_files_hash: String) -> (lock: Lock)
    ensures
        lock.version == VERSION,
        lock.build_files_hash == build_files_hash,
        lock.unsupported == dump.unsupported,
        is_sorted_set_of(
            strings_of(lock.included_builds@),
            dump.included_builds@.map_values(|b: DumpIncludedBuild| normalize_spec(b.dir@)),
        ),
        exists|perm: Seq<int>| stable_by_path(dump.modules@, lock.modules@, perm),
{
    let ghost dms = dump.modules@;
    let n = dump.modules.len();
    let mut sorted: Vec<Module> = Vec::new();
    let ghost mut perm: Seq<int> = Seq::empty();
    let mut i: usize = 0;
    while i < n
        invariant
            n == dms.len(),
            dms == dump.modules@,
            i <= n,
            perm.len() == sorted@.len(),
            sorted@.len() == i,
            perm.no_duplicates(),
            forall|k: int|
                0 <= k < sorted@.len() ==> 0 <= #[trigger] perm[k] < i && normalized_module(
                    dms[perm[k]],
                    sorted@[k],
                ),
            forall|k: int, l: int|
                0 <= k < l < sorted@.len() ==> seq_lt(
                    #[trigger] sorted@[k].path@,
                    #[trigger] sorted@[l].path@,
                ) || (sorted@[k].path@ == sorted@[l].path@ && perm[k] < perm[l]),
        decreases n - i,
    {
        let m = normalize_module(&dump.modules[i]);
        let ghost e0 = sorted@;
        let ghost p0 = perm;
        let ns = sorted.len();
        let mut pos: usize = 0;
        let mut found = false;
        while pos < ns && !found
            invariant
                ns == sorted@.len(),
                e0 == sorted@,
                pos <= ns,
                found ==> pos < ns && seq_lt(m.path@, e0[pos as int].path@),
                forall|k: int| 0 <= k < pos ==> !seq_lt(m.path@, #[trigger] e0[k].path@),
            decreases ns - pos + (if found { 0int } else { 1int }),
        {
            if str_lt(m.path.as_str(), sorted[pos].path.as_str()) {
                found = true;
            } else {
                pos += 1;
            }
        }
        let ghost mp = m.path@;
        sorted.insert(pos, m);
        proof {
            perm = p0.insert(pos as int, i as int);
            let e1 = sorted@;
            assert(e1 =~= e0.insert(pos as int, e1[pos as int]));
            assert forall|k: int| 0 <= k < e1.len() implies 0 <= #[trigger] perm[k] < i + 1
                && normalized_module(dms[perm[k]], e1[k]) by {
                if k < pos {
                    assert(e1[k] == e0[k] && perm[k] == p0[k]);
                } else if k > pos {
                    assert(e1[k] == e0[k - 1] && perm[k] == p0[k - 1]);
                }
            }
            assert(perm.no_duplicates()) by {
                assert forall|a: int, b: int| 0 <= a < b < perm.len() implies perm[a] != perm[b] by {
                    if a != pos && b != pos {
                        let oa = if a < pos { a } else { a - 1 };
                        let ob = if b < pos { b } else { b - 1 };
                        assert(perm[a] == p0[oa] && perm[b] == p0[ob]);
                    } else if a == pos {
                        assert(perm[b] == p0[b - 1]);
                    } else {
                        assert(perm[a] == p0[a]);
                    }
                }
            }
            assert forall|k: int, l: int| 0 <= k < l < e1.len() implies seq_lt(
                #[trigger] e1[k].path@,
                #[trigger] e1[l].path@,
            ) || (e1[k].path@ == e1[l].path@ && perm[k] < perm[l]) by {
                if l < pos {
                    assert(e1[k] == e0[k] && e1[l] == e0[l] && perm[k] == p0[k] && perm[l] == p0[l]);
                } else if l == pos {
                    assert(e1[k] == e0[k] && perm[k] == p0[k]);
                    assert(!seq_lt(mp, e0[k].path@));
                    if e0[k].path@ != mp {
                        lemma_seq_lt_total(e0[k].path@, mp);
                    }
                } else if k < pos {
                    assert(e1[k] == e0[k] && e1[l] == e0[l - 1] && perm[k] == p0[k] && perm[l]
                        == p0[l - 1]);
                } else if k == pos {
                    assert(e1[l] == e0[l - 1] && perm[l] == p0[l - 1]);
                    assert(seq_lt(mp, e0[pos as int].path@));
                    if l - 1 > pos {
                        let a = e0[pos as int].path@;
                        let b = e0[l - 1].path@;
                        if seq_lt(a, b) {
                            lemma_seq_lt_transitive(mp, a, b);
                        }
                    }
                } else {
                    assert(e1[k] == e0[k - 1] && e1[l] == e0[l - 1] && perm[k] == p0[k - 1]
                        && perm[l] == p0[l - 1]);
                }
            }
        }
        i += 1;
    }

    let ghost incs = dump.included_builds@.map_values(
        |b: DumpIncludedBuild| normalize_spec(b.dir@),
    );
    let nb = dump.included_builds.len();
    let mut dirs: Vec<String> = Vec::new();
    let mut i: usize = 0;
    while i < nb
        invariant
            nb == dump.included_builds@.len(),
            incs == dump.included_builds@.map_values(
                |b: DumpIncludedBuild| normalize_spec(b.dir@),
            ),
            i <= nb,
            strings_of(dirs@) == incs.take(i as int),
        decreases nb - i,
    {
        let ghost before = strings_of(dirs@);
        dirs.push(normalize_path(dump.included_builds[i].dir.as_str()));
        assert(strings_of(dirs@) =~= before.push(normalize_spec(dump.included_builds@[i as int].dir@)));
        assert(incs[i as int] == normalize_spec(dump.included_builds@[i as int].dir@));
        assert(strings_of(dirs@) =~= incs.take(i + 1));
        i += 1;
    }
    assert(incs.take(nb as int) =~= incs);
    let included_builds = sorted_set(dirs);
    let lock = Lock {
        version: VERSION,
        build_files_hash,
        unsupported: dump.unsupported,
        included_builds,
        modules: sorted,
    };
    assert(stable_by_path(dms, lock.modules@, perm));
    lock
}

/// Typing never under-selects: only a configuration whose name starts with
/// `test` is typed `Test` (every other one keeps its edge propagating), and
/// Gradle's four test classpath configurations are.
pub proof fn law_only_test_configurations_are_test_edges(c: Seq<char>)
    ensures
        edge_kind_spec(c) == EdgeKind::Test ==> has_prefix(c, "test"@),
        edge_kind_spec("testImplementation"@) == EdgeKind::Test,
        edge_kind_spec("testApi"@) == EdgeKind::Test,
        edge_kind_spec("testCompileOnly"@) == EdgeKind::Test,
        edge_kind_spec("testRuntimeOnly"@) == EdgeKind::Test,
{
    reveal_strlit("test");
    reveal_strlit("testImplementation");
    reveal_strlit("testApi");
    reveal_strlit("testCompileOnly");
    reveal_strlit("testRuntimeOnly");
    if edge_kind_spec(c) == EdgeKind::Test {
        assert(c.take(4) =~= "test"@);
    }
}

} // verus!
