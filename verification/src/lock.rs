//! The module-graph snapshot (`lightning.lock`) and the affected closure over
//! its typed dependency edges.

use vstd::prelude::*;
use crate::text::{
    contains_string, decimal_spec, entries_of, has_key, insert_sorted, keys_sorted,
    lemma_unique_len_bound, push_decimal, push_str, strings_of,
};

verus! {

/// The lock file name, next to the Gradle root.
pub const FILE_NAME: &'static str = "lightning.lock";

/// The lock format this build reads and writes.
pub const VERSION: u32 = 2;

/// Kind of an inter-module dependency edge.
#[derive(Debug, Clone, Copy, PartialEq, Eq, Structural, PartialOrd, Ord)]
pub enum EdgeKind {
    Main,
    Test,
}

/// Why a module is in the affected set.
#[derive(Debug, Clone, Copy, PartialEq, Eq, Structural)]
pub enum Reason {
    Changed,
    MainDependency,
    TestDependency,
    Everything,
}

/// A declared inter-module dependency edge.
#[derive(Debug)]
pub struct Dep {
    pub path: String,
    pub kind: EdgeKind,
}

impl Clone for Dep {
    fn clone(&self) -> (r: Self)
        ensures
            r.path@ == self.path@,
            r.kind == self.kind,
    {
        Dep { path: self.path.clone(), kind: self.kind }
    }
}

impl PartialEq for Dep {
    fn eq(&self, other: &Self) -> (r: bool) {
        self.path == other.path && self.kind == other.kind
    }
}

impl vstd::std_specs::cmp::PartialEqSpecImpl for Dep {
    open spec fn obeys_eq_spec() -> bool {
        true
    }

    open spec fn eq_spec(&self, other: &Self) -> bool {
        self.path@ == other.path@ && self.kind == other.kind
    }
}

/// One Gradle project of the build.
#[derive(Debug)]
pub struct Module {
    /// Gradle project path, e.g. `:app` (`:` for the root project).
    pub path: String,
    /// Project directory relative to the Gradle root (`.` for the root).
    pub dir: String,
    /// Declared source-set dirs relative to the Gradle root; may leave the
    /// module dir (`srcDir("../shared")`).
    pub source_dirs: Vec<String>,
    /// Task names registered on the project.
    pub tasks: Vec<String>,
    /// Declared inter-module dependency edges.
    pub deps: Vec<Dep>,
}

/// The snapshot of the module graph.
#[derive(Debug)]
pub struct Lock {
    pub version: u32,
    pub build_files_hash: String,
    /// Set when selection cannot be trusted (composite build): affected
    /// degrades to everything-affected with this reason.
    pub unsupported: Option<String>,
    /// Roots of included builds, watched by the invalidation hash.
    pub included_builds: Vec<String>,
    pub modules: Vec<Module>,
}

impl Lock {
    /// Accepts only the lock format this build writes; any other version
    /// asks for a re-sync. `path` names the lock in the message.
    pub fn check_version(&self, path: &str) -> (r: Result<(), String>)
        ensures
            r is Ok <==> self.version == VERSION,
            r matches Err(e) ==> e@ == path@ + " has version "@ + decimal_spec(self.version as nat)
                + ", this build understands "@ + decimal_spec(VERSION as nat) + " — run `lightning sync`"@,
    {
        if self.version == VERSION {
            return Ok(());
        }
        let mut e = String::new();
        push_str(&mut e, path);
        push_str(&mut e, " has version ");
        push_decimal(&mut e, self.version as u64);
        push_str(&mut e, ", this build understands ");
        push_decimal(&mut e, VERSION as u64);
        push_str(&mut e, " — run `lightning sync`");
        Err(e)
    }
}

/// The project paths of the modules, in order.
pub open spec fn module_paths(ms: Seq<Module>) -> Seq<Seq<char>> {
    ms.map_values(|m: Module| m.path@)
}

/// Some module has this project path.
pub open spec fn has_module(ms: Seq<Module>, p: Seq<char>) -> bool {
    exists|i: int| 0 <= i < ms.len() && #[trigger] ms[i].path@ == p
}

/// A module with path `from` declares a main edge to the different path `to`.
pub open spec fn main_edge(ms: Seq<Module>, from: Seq<char>, to: Seq<char>) -> bool {
    &&& from != to
    &&& exists|i: int, j: int|
        #![trigger ms[i].deps@[j]]
        0 <= i < ms.len() && ms[i].path@ == from && 0 <= j < ms[i].deps@.len()
            && ms[i].deps@[j].kind == EdgeKind::Main && ms[i].deps@[j].path@ == to
}

/// A changed path that is the path of a module.
pub open spec fn is_seed(ms: Seq<Module>, changed: Seq<Seq<char>>, p: Seq<char>) -> bool {
    has_module(ms, p) && changed.contains(p)
}

/// `p` reaches a changed module over at most `n` main edges.
pub open spec fn reaches(ms: Seq<Module>, changed: Seq<Seq<char>>, p: Seq<char>, n: nat) -> bool
    decreases n,
{
    is_seed(ms, changed, p) || (n > 0 && exists|q: Seq<char>|
        #[trigger] main_edge(ms, p, q) && reaches(ms, changed, q, (n - 1) as nat))
}

/// A changed module is reachable from `p` via main edges, transitively.
pub open spec fn main_affected(ms: Seq<Module>, changed: Seq<Seq<char>>, p: Seq<char>) -> bool {
    exists|n: nat| #[trigger] reaches(ms, changed, p, n)
}

/// A module with path `p` has a direct test edge into the main-affected set.
pub open spec fn test_edge_into_main(
    ms: Seq<Module>,
    changed: Seq<Seq<char>>,
    p: Seq<char>,
) -> bool {
    exists|i: int, j: int|
        #![trigger ms[i].deps@[j]]
        0 <= i < ms.len() && ms[i].path@ == p && 0 <= j < ms[i].deps@.len()
            && ms[i].deps@[j].kind == EdgeKind::Test && main_affected(
            ms,
            changed,
            ms[i].deps@[j].path@,
        )
}

/// Why `p` is affected by the changed modules, if it is.
pub open spec fn closure_reason(
    ms: Seq<Module>,
    changed: Seq<Seq<char>>,
    p: Seq<char>,
) -> Option<Reason> {
    if is_seed(ms, changed, p) {
        Some(Reason::Changed)
    } else if main_affected(ms, changed, p) {
        Some(Reason::MainDependency)
    } else if test_edge_into_main(ms, changed, p) {
        Some(Reason::TestDependency)
    } else {
        None
    }
}

/// The affected closure as keyed entries: sorted by path, one entry for every
/// affected path, each with its reason.
pub open spec fn is_closure(
    ms: Seq<Module>,
    changed: Seq<Seq<char>>,
    e: Seq<(Seq<char>, Reason)>,
) -> bool {
    &&& keys_sorted(e)
    &&& forall|k: int| 0 <= k < e.len() ==> closure_reason(ms, changed, #[trigger] e[k].0) == Some(e[k].1)
    &&& forall|p: Seq<char>| #[trigger] closure_reason(ms, changed, p) is Some ==> has_key(e, p)
}

proof fn lemma_seed_reaches(ms: Seq<Module>, changed: Seq<Seq<char>>, p: Seq<char>)
    requires
        is_seed(ms, changed, p),
    ensures
        main_affected(ms, changed, p),
{
    assert(reaches(ms, changed, p, 0));
}

proof fn lemma_edge_extends(ms: Seq<Module>, changed: Seq<Seq<char>>, p: Seq<char>, q: Seq<char>)
    requires
        main_edge(ms, p, q),
        main_affected(ms, changed, q),
    ensures
        main_affected(ms, changed, p),
{
    let n = choose|n: nat| #[trigger] reaches(ms, changed, q, n);
    assert(reaches(ms, changed, p, n + 1));
}

/// Every path that reaches a changed module lies in a set that holds the
/// seeds and is closed under reverse main edges.
proof fn lemma_closed_holds_affected(
    ms: Seq<Module>,
    changed: Seq<Seq<char>>,
    aff: Seq<Seq<char>>,
    p: Seq<char>,
    n: nat,
)
    requires
        forall|s: Seq<char>| is_seed(ms, changed, s) ==> aff.contains(s),
        forall|a: Seq<char>, b: Seq<char>|
            aff.contains(b) && #[trigger] main_edge(ms, a, b) ==> aff.contains(a),
        reaches(ms, changed, p, n),
    ensures
        aff.contains(p),
    decreases n,
{
    if !is_seed(ms, changed, p) {
        let q = choose|q: Seq<char>| #[trigger] main_edge(ms, p, q) && reaches(ms, changed, q, (n - 1) as nat);
        lemma_closed_holds_affected(ms, changed, aff, q, (n - 1) as nat);
    }
}

/// Some dependency of `deps` is a test edge into `targets`.
fn has_test_dep_into(deps: &Vec<Dep>, targets: &Vec<String>) -> (r: bool)
    ensures
        r == exists|j: int|
            0 <= j < deps@.len() && #[trigger] deps@[j].kind == EdgeKind::Test && strings_of(
                targets@,
            ).contains(deps@[j].path@),
{
    let n = deps.len();
    let mut j: usize = 0;
    while j < n
        invariant
            n == deps@.len(),
            j <= n,
            forall|k: int|
                0 <= k < j ==> !(#[trigger] deps@[k].kind == EdgeKind::Test && strings_of(
                    targets@,
                ).contains(deps@[k].path@)),
        decreases n - j,
    {
        if deps[j].kind == EdgeKind::Test && contains_string(targets, &deps[j].path) {
            return true;
        }
        j += 1;
    }
    false
}

/// Affected closure over typed edges: a module is affected iff it changed,
/// a changed module is reachable from it via main edges transitively, or one
/// of its direct test edges points into that main-affected set. Test edges do
/// not propagate further. The result is sorted by path.
pub fn closure(modules: &Vec<Module>, changed: &Vec<String>) -> (r: Vec<(String, Reason)>)
    ensures
        is_closure(modules@, strings_of(changed@), entries_of(r@)),
{
    let ghost ms = modules@;
    let ghost ch = strings_of(changed@);
    let n = modules.len();
    let mut aff: Vec<String> = Vec::new();
    let mut why: Vec<Reason> = Vec::new();

    // seeds: the changed paths that name a module
    let mut i: usize = 0;
    while i < n
        invariant
            n == ms.len(),
            ms == modules@,
            ch == strings_of(changed@),
            i <= n,
            aff@.len() == why@.len(),
            strings_of(aff@).no_duplicates(),
            forall|k: int| 0 <= k < aff@.len() ==> is_seed(ms, ch, #[trigger] strings_of(aff@)[k]),
            forall|k: int| 0 <= k < why@.len() ==> #[trigger] why@[k] == Reason::Changed,
            forall|t: int|
                0 <= t < i && ch.contains(#[trigger] ms[t].path@) ==> strings_of(aff@).contains(
                    ms[t].path@,
                ),
        decreases n - i,
    {
        let in_changed = contains_string(changed, &modules[i].path);
        let present = contains_string(&aff, &modules[i].path);
        if in_changed && !present {
            let ghost before = strings_of(aff@);
            let ghost why_before = why@;
            aff.push(modules[i].path.clone());
            why.push(Reason::Changed);
            proof {
                assert(strings_of(aff@) =~= before.push(ms[i as int].path@));
                assert(has_module(ms, ms[i as int].path@));
                assert forall|x: Seq<char>| #[trigger] before.contains(x) implies strings_of(aff@).contains(x) by {
                    let k = choose|k: int| 0 <= k < before.len() && before[k] == x;
                    assert(strings_of(aff@)[k] == x);
                }
                assert(strings_of(aff@)[before.len() as int] == ms[i as int].path@);
                assert(is_seed(ms, ch, ms[i as int].path@));
                assert forall|k: int|
                    0 <= k < aff@.len() implies is_seed(ms, ch, #[trigger] strings_of(aff@)[k]) by {
                    if k < before.len() {
                        assert(strings_of(aff@)[k] == before[k]);
                    }
                }
            }
        }
        i += 1;
    }
    assert forall|s: Seq<char>| is_seed(ms, ch, s) implies strings_of(aff@).contains(s) by {
        let t = choose|t: int| 0 <= t < ms.len() && #[trigger] ms[t].path@ == s;
    }

    assert forall|k: int| 0 <= k < aff@.len() implies main_affected(ms, ch, #[trigger] strings_of(aff@)[k]) by {
        lemma_seed_reaches(ms, ch, strings_of(aff@)[k]);
    }
    assert forall|k: int| 0 <= k < aff@.len() implies has_module(ms, #[trigger] strings_of(aff@)[k]) by {
        assert(is_seed(ms, ch, strings_of(aff@)[k]));
    }

    // propagate over reverse main edges
    let mut idx: usize = 0;
    while idx < aff.len()
        invariant
            n == ms.len(),
            ms == modules@,
            ch == strings_of(changed@),
            idx <= aff@.len(),
            aff@.len() == why@.len(),
            strings_of(aff@).no_duplicates(),
            forall|k: int| 0 <= k < aff@.len() ==> has_module(ms, #[trigger] strings_of(aff@)[k]),
            forall|k: int|
                0 <= k < aff@.len() ==> main_affected(ms, ch, #[trigger] strings_of(aff@)[k]),
            forall|k: int|
                0 <= k < aff@.len() ==> (#[trigger] why@[k] == Reason::Changed <==> is_seed(
                    ms,
                    ch,
                    strings_of(aff@)[k],
                )) && (why@[k] == Reason::Changed || why@[k] == Reason::MainDependency),
            forall|s: Seq<char>| is_seed(ms, ch, s) ==> strings_of(aff@).contains(s),
            forall|k: int, a: Seq<char>|
                0 <= k < idx && #[trigger] main_edge(ms, a, strings_of(aff@)[k])
                    ==> strings_of(aff@).contains(a),
        decreases n - idx,
    {
        proof {
            assert forall|x: Seq<char>| strings_of(aff@).contains(x) implies module_paths(ms).contains(x) by {
                let k = choose|k: int| 0 <= k < aff@.len() && strings_of(aff@)[k] == x;
                assert(has_module(ms, strings_of(aff@)[k]));
                let t = choose|t: int| 0 <= t < ms.len() && #[trigger] ms[t].path@ == x;
                assert(module_paths(ms)[t] == x);
            }
            lemma_unique_len_bound(strings_of(aff@), module_paths(ms));
        }
        let target = aff[idx].clone();
        let ghost tv = target@;
        assert(strings_of(aff@)[idx as int] == tv);
        let mut i: usize = 0;
        while i < n
            invariant
                n == ms.len(),
                ms == modules@,
                ch == strings_of(changed@),
                tv == target@,
                idx < aff@.len(),
                strings_of(aff@)[idx as int] == tv,
                i <= n,
                aff@.len() == why@.len(),
                strings_of(aff@).no_duplicates(),
                forall|k: int| 0 <= k < aff@.len() ==> has_module(ms, #[trigger] strings_of(aff@)[k]),
                forall|k: int|
                    0 <= k < aff@.len() ==> main_affected(ms, ch, #[trigger] strings_of(aff@)[k]),
                forall|k: int|
                    0 <= k < aff@.len() ==> (#[trigger] why@[k] == Reason::Changed <==> is_seed(
                        ms,
                        ch,
                        strings_of(aff@)[k],
                    )) && (why@[k] == Reason::Changed || why@[k] == Reason::MainDependency),
                forall|s: Seq<char>| is_seed(ms, ch, s) ==> strings_of(aff@).contains(s),
                forall|k: int, a: Seq<char>|
                    0 <= k < idx && #[trigger] main_edge(ms, a, strings_of(aff@)[k])
                        ==> strings_of(aff@).contains(a),
                forall|t: int, j: int|
                    #![trigger ms[t].deps@[j]]
                    0 <= t < i && 0 <= j < ms[t].deps@.len() && ms[t].deps@[j].kind == EdgeKind::Main
                        && ms[t].deps@[j].path@ == tv && tv != ms[t].path@
                        ==> strings_of(aff@).contains(ms[t].path@),
            decreases n - i,
        {
            let m = &modules[i];
            let nd = m.deps.len();
            let mut j: usize = 0;
            while j < nd
                invariant
                    n == ms.len(),
                    ms == modules@,
                    ch == strings_of(changed@),
                    tv == target@,
                    i < n,
                    *m == ms[i as int],
                    nd == ms[i as int].deps@.len(),
                    idx < aff@.len(),
                    strings_of(aff@)[idx as int] == tv,
                    j <= nd,
                    aff@.len() == why@.len(),
                    strings_of(aff@).no_duplicates(),
                    forall|k: int|
                        0 <= k < aff@.len() ==> has_module(ms, #[trigger] strings_of(aff@)[k]),
                    forall|k: int|
                        0 <= k < aff@.len() ==> main_affected(
                            ms,
                            ch,
                            #[trigger] strings_of(aff@)[k],
                        ),
                    forall|k: int|
                        0 <= k < aff@.len() ==> (#[trigger] why@[k] == Reason::Changed <==> is_seed(
                            ms,
                            ch,
                            strings_of(aff@)[k],
                        )) && (why@[k] == Reason::Changed || why@[k] == Reason::MainDependency),
                    forall|s: Seq<char>| is_seed(ms, ch, s) ==> strings_of(aff@).contains(s),
                    forall|k: int, a: Seq<char>|
                        0 <= k < idx && #[trigger] main_edge(ms, a, strings_of(aff@)[k])
                            ==> strings_of(aff@).contains(a),
                    forall|t: int, jj: int|
                        #![trigger ms[t].deps@[jj]]
                        0 <= t < i && 0 <= jj < ms[t].deps@.len() && ms[t].deps@[jj].kind
                            == EdgeKind::Main && ms[t].deps@[jj].path@ == tv && tv != ms[t].path@
                            ==> strings_of(aff@).contains(ms[t].path@),
                    forall|jj: int|
                        #![trigger ms[i as int].deps@[jj]]
                        0 <= jj < j && ms[i as int].deps@[jj].kind == EdgeKind::Main
                            && ms[i as int].deps@[jj].path@ == tv && tv != ms[i as int].path@
                            ==> strings_of(aff@).contains(ms[i as int].path@),
                decreases nd - j,
            {
                let d = &m.deps[j];
                if d.kind == EdgeKind::Main && d.path == target && d.path != m.path
                    && !contains_string(&aff, &m.path) {
                    let ghost before = strings_of(aff@);
                    let ghost pv = m.path@;
                    proof {
                        assert(ms[i as int].deps@[j as int] == *d);
                        assert(main_edge(ms, pv, tv));
                        lemma_edge_extends(ms, ch, pv, tv);
                        assert(!is_seed(ms, ch, pv));
                        assert(has_module(ms, pv));
                    }
                    aff.push(m.path.clone());
                    why.push(Reason::MainDependency);
                    proof {
                        assert(strings_of(aff@) =~= before.push(pv));
                        assert(strings_of(aff@)[before.len() as int] == pv);
                        assert forall|x: Seq<char>| #[trigger] before.contains(x) implies strings_of(aff@).contains(x) by {
                            let k = choose|k: int| 0 <= k < before.len() && before[k] == x;
                            assert(strings_of(aff@)[k] == x);
                        }
                    }
                }
                j += 1;
            }
            i += 1;
        }
        proof {
            assert forall|k: int, a: Seq<char>|
                0 <= k < idx + 1 && #[trigger] main_edge(ms, a, strings_of(aff@)[k])
                implies strings_of(aff@).contains(a) by {
                if k == idx {
                    let (t, j) = choose|t: int, j: int|
                        #![trigger ms[t].deps@[j]]
                        0 <= t < ms.len() && ms[t].path@ == a && 0 <= j < ms[t].deps@.len()
                            && ms[t].deps@[j].kind == EdgeKind::Main && ms[t].deps@[j].path@ == tv;
                    assert(ms[t].deps@[j].path@ == tv);
                }
            }
        }
        idx += 1;
    }

    // aff now holds exactly the main-affected paths
    proof {
        assert forall|a: Seq<char>, b: Seq<char>|
            strings_of(aff@).contains(b) && #[trigger] main_edge(ms, a, b)
            implies strings_of(aff@).contains(a) by {
            let k = choose|k: int| 0 <= k < aff@.len() && strings_of(aff@)[k] == b;
            assert(main_edge(ms, a, strings_of(aff@)[k]));
        }
        assert forall|p: Seq<char>| main_affected(ms, ch, p) implies strings_of(aff@).contains(p) by {
            let nn = choose|nn: nat| #[trigger] reaches(ms, ch, p, nn);
            lemma_closed_holds_affected(ms, ch, strings_of(aff@), p, nn);
        }
        assert forall|p: Seq<char>| strings_of(aff@).contains(p) implies main_affected(ms, ch, p) by {
            let k = choose|k: int| 0 <= k < aff@.len() && strings_of(aff@)[k] == p;
        }
    }

    // one non-propagating hop over test edges into the main-affected set
    let mut tests: Vec<String> = Vec::new();
    let mut i: usize = 0;
    while i < n
        invariant
            n == ms.len(),
            ms == modules@,
            ch == strings_of(changed@),
            i <= n,
            forall|p: Seq<char>| strings_of(aff@).contains(p) <==> main_affected(ms, ch, p),
            strings_of(tests@).no_duplicates(),
            forall|k: int|
                0 <= k < tests@.len() ==> !main_affected(ms, ch, #[trigger] strings_of(tests@)[k])
                    && test_edge_into_main(ms, ch, strings_of(tests@)[k]),
            forall|t: int, j: int|
                #![trigger ms[t].deps@[j]]
                0 <= t < i && 0 <= j < ms[t].deps@.len() && ms[t].deps@[j].kind == EdgeKind::Test
                    && main_affected(ms, ch, ms[t].deps@[j].path@) && !main_affected(
                    ms,
                    ch,
                    ms[t].path@,
                ) ==> strings_of(tests@).contains(ms[t].path@),
        decreases n - i,
    {
        let m = &modules[i];
        if !contains_string(&aff, &m.path) && !contains_string(&tests, &m.path) && has_test_dep_into(
            &m.deps,
            &aff,
        ) {
            let ghost before = strings_of(tests@);
            let ghost pv = m.path@;
            proof {
                let j = choose|j: int|
                    0 <= j < m.deps@.len() && #[trigger] m.deps@[j].kind == EdgeKind::Test && strings_of(
                        aff@,
                    ).contains(m.deps@[j].path@);
                assert(ms[i as int].deps@[j] == m.deps@[j]);
                assert(test_edge_into_main(ms, ch, pv));
            }
            tests.push(m.path.clone());
            proof {
                assert(strings_of(tests@) =~= before.push(pv));
                assert(strings_of(tests@)[before.len() as int] == pv);
                assert forall|x: Seq<char>| #[trigger] before.contains(x) implies strings_of(tests@).contains(x) by {
                    let k = choose|k: int| 0 <= k < before.len() && before[k] == x;
                    assert(strings_of(tests@)[k] == x);
                }
            }
        } else {
            proof {
                assert forall|j: int|
                    #![trigger ms[i as int].deps@[j]]
                    0 <= j < ms[i as int].deps@.len() && ms[i as int].deps@[j].kind == EdgeKind::Test
                        && main_affected(ms, ch, ms[i as int].deps@[j].path@) && !main_affected(
                        ms,
                        ch,
                        ms[i as int].path@,
                    ) implies strings_of(tests@).contains(ms[i as int].path@) by {
                    assert(m.deps@[j] == ms[i as int].deps@[j]);
                    assert(strings_of(aff@).contains(m.deps@[j].path@));
                }
            }
        }
        i += 1;
    }

    // assemble the result, sorted by path
    let mut out: Vec<(String, Reason)> = Vec::new();
    let na = aff.len();
    let mut k: usize = 0;
    while k < na
        invariant
            na == aff@.len(),
            aff@.len() == why@.len(),
            k <= na,
            strings_of(aff@).no_duplicates(),
            keys_sorted(entries_of(out@)),
            forall|x: (Seq<char>, Reason)|
                entries_of(out@).contains(x) <==> exists|t: int|
                    0 <= t < k && x == (#[trigger] strings_of(aff@)[t], why@[t]),
        decreases na - k,
    {
        proof {
            if has_key(entries_of(out@), aff@[k as int]@) {
                let q = choose|q: int|
                    0 <= q < entries_of(out@).len() && #[trigger] entries_of(out@)[q].0 == aff@[k as int]@;
                assert(entries_of(out@).contains(entries_of(out@)[q]));
                let t = choose|t: int|
                    0 <= t < k && entries_of(out@)[q] == (#[trigger] strings_of(aff@)[t], why@[t]);
                assert(strings_of(aff@)[t] == strings_of(aff@)[k as int]);
            }
        }
        let ghost old_out = entries_of(out@);
        insert_sorted(&mut out, aff[k].clone(), why[k]);
        proof {
            assert forall|x: (Seq<char>, Reason)|
                entries_of(out@).contains(x) <==> exists|t: int|
                    0 <= t < k + 1 && x == (#[trigger] strings_of(aff@)[t], why@[t]) by {
                if x == (strings_of(aff@)[k as int], why@[k as int]) {
                }
            }
        }
        k += 1;
    }
    let nt = tests.len();
    let mut k: usize = 0;
    while k < nt
        invariant
            nt == tests@.len(),
            k <= nt,
            na == aff@.len(),
            aff@.len() == why@.len(),
            strings_of(tests@).no_duplicates(),
            forall|p: Seq<char>| strings_of(aff@).contains(p) <==> main_affected(ms, ch, p),
            forall|q: int|
                0 <= q < tests@.len() ==> !main_affected(ms, ch, #[trigger] strings_of(tests@)[q]),
            keys_sorted(entries_of(out@)),
            forall|x: (Seq<char>, Reason)|
                entries_of(out@).contains(x) <==> (exists|t: int|
                    0 <= t < na && x == (#[trigger] strings_of(aff@)[t], why@[t])) || (exists|t: int|
                    0 <= t < k && x == (#[trigger] strings_of(tests@)[t], Reason::TestDependency)),
        decreases nt - k,
    {
        proof {
            let key = tests@[k as int]@;
            if has_key(entries_of(out@), key) {
                let q = choose|q: int|
                    0 <= q < entries_of(out@).len() && #[trigger] entries_of(out@)[q].0 == key;
                assert(entries_of(out@).contains(entries_of(out@)[q]));
                if exists|t: int|
                    0 <= t < na && entries_of(out@)[q] == (#[trigger] strings_of(aff@)[t], why@[t]) {
                    let t = choose|t: int|
                        0 <= t < na && entries_of(out@)[q] == (#[trigger] strings_of(aff@)[t], why@[t]);
                    assert(strings_of(aff@).contains(key));
                    assert(!main_affected(ms, ch, strings_of(tests@)[k as int]));
                } else {
                    let t = choose|t: int|
                        0 <= t < k && entries_of(out@)[q] == (
                            #[trigger] strings_of(tests@)[t],
                            Reason::TestDependency,
                        );
                    assert(strings_of(tests@)[t] == strings_of(tests@)[k as int]);
                }
            }
        }
        insert_sorted(&mut out, tests[k].clone(), Reason::TestDependency);
        proof {
            assert forall|x: (Seq<char>, Reason)|
                entries_of(out@).contains(x) <==> (exists|t: int|
                    0 <= t < na && x == (#[trigger] strings_of(aff@)[t], why@[t])) || (exists|t: int|
                    0 <= t < k + 1 && x == (#[trigger] strings_of(tests@)[t], Reason::TestDependency)) by {
                if x == (strings_of(tests@)[k as int], Reason::TestDependency) {
                }
            }
        }
        k += 1;
    }

    proof {
        let e = entries_of(out@);
        assert forall|q: int| 0 <= q < e.len() implies closure_reason(ms, ch, #[trigger] e[q].0) == Some(e[q].1) by {
            assert(e.contains(e[q]));
            if exists|t: int| 0 <= t < na && e[q] == (#[trigger] strings_of(aff@)[t], why@[t]) {
                let t = choose|t: int| 0 <= t < na && e[q] == (#[trigger] strings_of(aff@)[t], why@[t]);
                assert(main_affected(ms, ch, strings_of(aff@)[t]));
            } else {
                let t = choose|t: int|
                    0 <= t < nt && e[q] == (#[trigger] strings_of(tests@)[t], Reason::TestDependency);
                assert(!main_affected(ms, ch, strings_of(tests@)[t]));
                assert(test_edge_into_main(ms, ch, strings_of(tests@)[t]));
                assert(!is_seed(ms, ch, strings_of(tests@)[t])) by {
                    if is_seed(ms, ch, strings_of(tests@)[t]) {
                        lemma_seed_reaches(ms, ch, strings_of(tests@)[t]);
                    }
                }
            }
        }
        assert forall|p: Seq<char>| #[trigger] closure_reason(ms, ch, p) is Some implies has_key(e, p) by {
            if is_seed(ms, ch, p) {
                lemma_seed_reaches(ms, ch, p);
            }
            if main_affected(ms, ch, p) {
                let t = choose|t: int| 0 <= t < na && strings_of(aff@)[t] == p;
                assert(e.contains((strings_of(aff@)[t], why@[t])));
                let q = choose|q: int| 0 <= q < e.len() && e[q] == (strings_of(aff@)[t], why@[t]);
                assert(e[q].0 == p);
            } else {
                let (t, j) = choose|t: int, j: int|
                    #![trigger ms[t].deps@[j]]
                    0 <= t < ms.len() && ms[t].path@ == p && 0 <= j < ms[t].deps@.len()
                        && ms[t].deps@[j].kind == EdgeKind::Test && main_affected(
                        ms,
                        ch,
                        ms[t].deps@[j].path@,
                    );
                assert(strings_of(tests@).contains(p));
                let u = choose|u: int| 0 <= u < nt && strings_of(tests@)[u] == p;
                assert(e.contains((strings_of(tests@)[u], Reason::TestDependency)));
                let q = choose|q: int| 0 <= q < e.len() && e[q] == (strings_of(tests@)[u], Reason::TestDependency);
                assert(e[q].0 == p);
            }
        }
    }
    out
}


/// Every changed module is affected, with the reason `Changed`.
pub proof fn law_changed_modules_are_affected(
    ms: Seq<Module>,
    changed: Seq<Seq<char>>,
    e: Seq<(Seq<char>, Reason)>,
    p: Seq<char>,
)
    requires
        is_closure(ms, changed, e),
        has_module(ms, p),
        changed.contains(p),
    ensures
        has_key(e, p),
        forall|k: int| 0 <= k < e.len() && e[k].0 == p ==> e[k].1 == Reason::Changed,
{
    assert(closure_reason(ms, changed, p) is Some);
    assert forall|k: int| 0 <= k < e.len() && e[k].0 == p implies e[k].1 == Reason::Changed by {
        assert(closure_reason(ms, changed, e[k].0) == Some(e[k].1));
    }
}

proof fn lemma_reaches_more_changed(
    ms: Seq<Module>,
    c1: Seq<Seq<char>>,
    c2: Seq<Seq<char>>,
    p: Seq<char>,
    n: nat,
)
    requires
        forall|x: Seq<char>| c1.contains(x) ==> c2.contains(x),
        reaches(ms, c1, p, n),
    ensures
        reaches(ms, c2, p, n),
    decreases n,
{
    if !is_seed(ms, c1, p) {
        let q = choose|q: Seq<char>| #[trigger] main_edge(ms, p, q) && reaches(ms, c1, q, (n - 1) as nat);
        lemma_reaches_more_changed(ms, c1, c2, q, (n - 1) as nat);
    }
}

proof fn lemma_main_affected_more_changed(
    ms: Seq<Module>,
    c1: Seq<Seq<char>>,
    c2: Seq<Seq<char>>,
    p: Seq<char>,
)
    requires
        forall|x: Seq<char>| c1.contains(x) ==> c2.contains(x),
        main_affected(ms, c1, p),
    ensures
        main_affected(ms, c2, p),
{
    let n = choose|n: nat| #[trigger] reaches(ms, c1, p, n);
    lemma_reaches_more_changed(ms, c1, c2, p, n);
}

/// Changing more modules never shrinks the affected set.
pub proof fn law_closure_is_monotone_in_changes(
    ms: Seq<Module>,
    c1: Seq<Seq<char>>,
    c2: Seq<Seq<char>>,
    e1: Seq<(Seq<char>, Reason)>,
    e2: Seq<(Seq<char>, Reason)>,
    p: Seq<char>,
)
    requires
        is_closure(ms, c1, e1),
        is_closure(ms, c2, e2),
        forall|x: Seq<char>| c1.contains(x) ==> c2.contains(x),
        has_key(e1, p),
    ensures
        has_key(e2, p),
{
    let k = choose|k: int| 0 <= k < e1.len() && #[trigger] e1[k].0 == p;
    assert(closure_reason(ms, c1, e1[k].0) == Some(e1[k].1));
    if is_seed(ms, c1, p) {
        lemma_seed_reaches(ms, c1, p);
    }
    if main_affected(ms, c1, p) {
        lemma_main_affected_more_changed(ms, c1, c2, p);
    } else {
        assert(test_edge_into_main(ms, c1, p));
        let (i, j) = choose|i: int, j: int|
            #![trigger ms[i].deps@[j]]
            0 <= i < ms.len() && ms[i].path@ == p && 0 <= j < ms[i].deps@.len()
                && ms[i].deps@[j].kind == EdgeKind::Test && main_affected(
                ms,
                c1,
                ms[i].deps@[j].path@,
            );
        lemma_main_affected_more_changed(ms, c1, c2, ms[i].deps@[j].path@);
        assert(test_edge_into_main(ms, c2, p));
    }
    assert(closure_reason(ms, c2, p) is Some);
}

/// Some edge of `deps` has the target and kind of `d`.
pub open spec fn has_edge(deps: Seq<Dep>, d: Dep) -> bool {
    exists|jj: int| 0 <= jj < deps.len() && #[trigger] deps[jj].path@ == d.path@ && deps[jj].kind == d.kind
}

/// Every edge of `fewer` (module by module, same modules) is an edge of `more`.
pub open spec fn edges_included(fewer: Seq<Module>, more: Seq<Module>) -> bool {
    &&& module_paths(fewer) == module_paths(more)
    &&& forall|i: int, j: int|
        #![trigger fewer[i].deps@[j]]
        0 <= i < fewer.len() && 0 <= j < fewer[i].deps@.len() ==> has_edge(more[i].deps@, fewer[i].deps@[j])
}

proof fn lemma_fewer_edges_main_edge(fewer: Seq<Module>, more: Seq<Module>, a: Seq<char>, b: Seq<char>)
    requires
        edges_included(fewer, more),
        main_edge(fewer, a, b),
    ensures
        main_edge(more, a, b),
{
    let (i, j) = choose|i: int, j: int|
        #![trigger fewer[i].deps@[j]]
        0 <= i < fewer.len() && fewer[i].path@ == a && 0 <= j < fewer[i].deps@.len()
            && fewer[i].deps@[j].kind == EdgeKind::Main && fewer[i].deps@[j].path@ == b;
    assert(module_paths(fewer).len() == module_paths(more).len());
    assert(module_paths(fewer).len() == fewer.len() && module_paths(more).len() == more.len());
    assert(module_paths(fewer)[i] == module_paths(more)[i]);
    assert(module_paths(fewer)[i] == fewer[i].path@);
    assert(module_paths(more)[i] == more[i].path@);
    let jj = choose|jj: int|
        0 <= jj < more[i].deps@.len() && #[trigger] more[i].deps@[jj].path@ == fewer[i].deps@[j].path@
            && more[i].deps@[jj].kind == fewer[i].deps@[j].kind;
    assert(more[i].deps@[jj].path@ == b);
}

proof fn lemma_fewer_edges_has_module(fewer: Seq<Module>, more: Seq<Module>, p: Seq<char>)
    requires
        module_paths(fewer) == module_paths(more),
    ensures
        has_module(fewer, p) == has_module(more, p),
{
    assert(module_paths(fewer).len() == module_paths(more).len());
    assert(module_paths(fewer).len() == fewer.len() && module_paths(more).len() == more.len());
    if has_module(fewer, p) {
        let i = choose|i: int| 0 <= i < fewer.len() && #[trigger] fewer[i].path@ == p;
        assert(module_paths(fewer)[i] == module_paths(more)[i]);
        assert(module_paths(fewer)[i] == fewer[i].path@);
        assert(module_paths(more)[i] == more[i].path@);
    }
    if has_module(more, p) {
        let i = choose|i: int| 0 <= i < more.len() && #[trigger] more[i].path@ == p;
        assert(module_paths(fewer)[i] == module_paths(more)[i]);
        assert(module_paths(fewer)[i] == fewer[i].path@);
        assert(module_paths(more)[i] == more[i].path@);
    }
}

proof fn lemma_fewer_edges_reaches(
    fewer: Seq<Module>,
    more: Seq<Module>,
    changed: Seq<Seq<char>>,
    p: Seq<char>,
    n: nat,
)
    requires
        edges_included(fewer, more),
        reaches(fewer, changed, p, n),
    ensures
        reaches(more, changed, p, n),
    decreases n,
{
    lemma_fewer_edges_has_module(fewer, more, p);
    if !is_seed(fewer, changed, p) {
        let q = choose|q: Seq<char>|
            #[trigger] main_edge(fewer, p, q) && reaches(fewer, changed, q, (n - 1) as nat);
        lemma_fewer_edges_main_edge(fewer, more, p, q);
        lemma_fewer_edges_reaches(fewer, more, changed, q, (n - 1) as nat);
    }
}

/// Dropping dependency edges never widens the affected set; in particular the
/// closure over main edges alone is contained in the closure over all edges,
/// so test edges only ever widen it.
pub proof fn law_fewer_edges_never_widen(
    fewer: Seq<Module>,
    more: Seq<Module>,
    changed: Seq<Seq<char>>,
    e_fewer: Seq<(Seq<char>, Reason)>,
    e_more: Seq<(Seq<char>, Reason)>,
    p: Seq<char>,
)
    requires
        edges_included(fewer, more),
        is_closure(fewer, changed, e_fewer),
        is_closure(more, changed, e_more),
        has_key(e_fewer, p),
    ensures
        has_key(e_more, p),
{
    let k = choose|k: int| 0 <= k < e_fewer.len() && #[trigger] e_fewer[k].0 == p;
    assert(closure_reason(fewer, changed, e_fewer[k].0) == Some(e_fewer[k].1));
    if is_seed(fewer, changed, p) {
        lemma_seed_reaches(fewer, changed, p);
    }
    if main_affected(fewer, changed, p) {
        let n = choose|n: nat| #[trigger] reaches(fewer, changed, p, n);
        lemma_fewer_edges_reaches(fewer, more, changed, p, n);
        assert(main_affected(more, changed, p));
    } else {
        assert(test_edge_into_main(fewer, changed, p));
        let (i, j) = choose|i: int, j: int|
            #![trigger fewer[i].deps@[j]]
            0 <= i < fewer.len() && fewer[i].path@ == p && 0 <= j < fewer[i].deps@.len()
                && fewer[i].deps@[j].kind == EdgeKind::Test && main_affected(
                fewer,
                changed,
                fewer[i].deps@[j].path@,
            );
        let n = choose|n: nat| #[trigger] reaches(fewer, changed, fewer[i].deps@[j].path@, n);
        lemma_fewer_edges_reaches(fewer, more, changed, fewer[i].deps@[j].path@, n);
        assert(module_paths(fewer).len() == module_paths(more).len());
        assert(module_paths(fewer).len() == fewer.len() && module_paths(more).len() == more.len());
    assert(module_paths(fewer).len() == fewer.len() && module_paths(more).len() == more.len());
        assert(module_paths(fewer)[i] == module_paths(more)[i]);
        assert(module_paths(fewer)[i] == fewer[i].path@);
        assert(module_paths(more)[i] == more[i].path@);
        let jj = choose|jj: int|
            0 <= jj < more[i].deps@.len() && #[trigger] more[i].deps@[jj].path@
                == fewer[i].deps@[j].path@ && more[i].deps@[jj].kind == fewer[i].deps@[j].kind;
        assert(reaches(more, changed, more[i].deps@[jj].path@, n));
        assert(test_edge_into_main(more, changed, p));
    }
    assert(closure_reason(more, changed, p) is Some);
}

/// Test edges do not propagate: a module that is not changed, has no test
/// edge into the main-affected set, and whose main edges all lead to modules
/// that are not main-affected (such as modules affected only through a test
/// edge) is not affected.
pub proof fn law_test_edges_do_not_propagate(
    ms: Seq<Module>,
    changed: Seq<Seq<char>>,
    e: Seq<(Seq<char>, Reason)>,
    q: Seq<char>,
)
    requires
        is_closure(ms, changed, e),
        !changed.contains(q),
        !test_edge_into_main(ms, changed, q),
        forall|r: Seq<char>| #[trigger] main_edge(ms, q, r) ==> !main_affected(ms, changed, r),
    ensures
        !has_key(e, q),
{
    if main_affected(ms, changed, q) {
        let n = choose|n: nat| #[trigger] reaches(ms, changed, q, n);
        assert(!is_seed(ms, changed, q));
        let r = choose|r: Seq<char>| #[trigger] main_edge(ms, q, r) && reaches(ms, changed, r, (n - 1) as nat);
        assert(main_affected(ms, changed, r));
    }
    if has_key(e, q) {
        let k = choose|k: int| 0 <= k < e.len() && #[trigger] e[k].0 == q;
        assert(closure_reason(ms, changed, e[k].0) == Some(e[k].1));
    }
}

/// A module affected only through a test edge is not main-affected.
pub proof fn law_test_dependency_is_not_main_affected(
    ms: Seq<Module>,
    changed: Seq<Seq<char>>,
    e: Seq<(Seq<char>, Reason)>,
    k: int,
)
    requires
        is_closure(ms, changed, e),
        0 <= k < e.len(),
        e[k].1 == Reason::TestDependency,
    ensures
        !main_affected(ms, changed, e[k].0),
        test_edge_into_main(ms, changed, e[k].0),
{
    assert(closure_reason(ms, changed, e[k].0) == Some(e[k].1));
}

/// Nothing reaches a changed module when nothing changed.
proof fn lemma_nothing_reaches(ms: Seq<Module>, p: Seq<char>, n: nat)
    ensures
        !reaches(ms, Seq::<Seq<char>>::empty(), p, n),
    decreases n,
{
    if n > 0 {
        assert forall|q: Seq<char>| !(#[trigger] main_edge(ms, p, q) && reaches(
            ms,
            Seq::<Seq<char>>::empty(),
            q,
            (n - 1) as nat,
        )) by {
            lemma_nothing_reaches(ms, q, (n - 1) as nat);
        }
    }
}

/// An empty change affects nothing: the closure of no changed modules is
/// empty.
pub proof fn law_empty_change_affects_nothing(ms: Seq<Module>, e: Seq<(Seq<char>, Reason)>)
    requires
        is_closure(ms, Seq::<Seq<char>>::empty(), e),
    ensures
        e.len() == 0,
{
    if e.len() > 0 {
        let p = e[0].0;
        assert forall|n: nat| !#[trigger] reaches(ms, Seq::<Seq<char>>::empty(), p, n) by {
            lemma_nothing_reaches(ms, p, n);
        }
        assert forall|i: int, j: int|
            0 <= i < ms.len() && 0 <= j < ms[i].deps@.len() implies !(#[trigger] ms[i].deps@[j].kind
            == EdgeKind::Test && main_affected(ms, Seq::<Seq<char>>::empty(), ms[i].deps@[j].path@)) by {
            let q = ms[i].deps@[j].path@;
            assert forall|n: nat| !#[trigger] reaches(ms, Seq::<Seq<char>>::empty(), q, n) by {
                lemma_nothing_reaches(ms, q, n);
            }
        }
        assert(closure_reason(ms, Seq::<Seq<char>>::empty(), e[0].0) is None);
    }
}

/// `mained` is `tested` with some edges typed `Main` that were `Test`:
/// same modules, same edge targets, and every `Main` edge stays `Main`.
pub open spec fn retyped_to_main(tested: Seq<Module>, mained: Seq<Module>) -> bool {
    &&& module_paths(tested) == module_paths(mained)
    &&& forall|i: int, j: int|
        #![trigger tested[i].deps@[j]]
        0 <= i < tested.len() && 0 <= j < tested[i].deps@.len() ==> exists|jj: int|
            0 <= jj < mained[i].deps@.len() && #[trigger] mained[i].deps@[jj].path@ == tested[i].deps@[j].path@
                && (tested[i].deps@[j].kind == EdgeKind::Main ==> mained[i].deps@[jj].kind
                == EdgeKind::Main)
}

proof fn lemma_retyped_main_edge(tested: Seq<Module>, mained: Seq<Module>, a: Seq<char>, b: Seq<char>)
    requires
        retyped_to_main(tested, mained),
        main_edge(tested, a, b),
    ensures
        main_edge(mained, a, b),
{
    let (i, j) = choose|i: int, j: int|
        #![trigger tested[i].deps@[j]]
        0 <= i < tested.len() && tested[i].path@ == a && 0 <= j < tested[i].deps@.len()
            && tested[i].deps@[j].kind == EdgeKind::Main && tested[i].deps@[j].path@ == b;
    assert(module_paths(tested).len() == module_paths(mained).len());
    assert(module_paths(tested).len() == tested.len() && module_paths(mained).len() == mained.len());
    assert(module_paths(tested)[i] == module_paths(mained)[i]);
    assert(module_paths(tested)[i] == tested[i].path@);
    assert(module_paths(mained)[i] == mained[i].path@);
    let jj = choose|jj: int|
        0 <= jj < mained[i].deps@.len() && #[trigger] mained[i].deps@[jj].path@ == tested[i].deps@[j].path@
            && (tested[i].deps@[j].kind == EdgeKind::Main ==> mained[i].deps@[jj].kind == EdgeKind::Main);
    assert(mained[i].deps@[jj].path@ == b);
}

proof fn lemma_retyped_reaches(
    tested: Seq<Module>,
    mained: Seq<Module>,
    changed: Seq<Seq<char>>,
    p: Seq<char>,
    n: nat,
)
    requires
        retyped_to_main(tested, mained),
        reaches(tested, changed, p, n),
    ensures
        reaches(mained, changed, p, n),
    decreases n,
{
    lemma_fewer_edges_has_module(tested, mained, p);
    if !is_seed(tested, changed, p) {
        let q = choose|q: Seq<char>|
            #[trigger] main_edge(tested, p, q) && reaches(tested, changed, q, (n - 1) as nat);
        lemma_retyped_main_edge(tested, mained, p, q);
        lemma_retyped_reaches(tested, mained, changed, q, (n - 1) as nat);
    }
}

/// Typing an edge `Main` where it could be `Test` never narrows the
/// affected set: this is why configurations outside the closed test list
/// stay `Main`, so an unknown configuration can only over-select.
pub proof fn law_typing_edges_main_only_over_selects(
    tested: Seq<Module>,
    mained: Seq<Module>,
    changed: Seq<Seq<char>>,
    e_tested: Seq<(Seq<char>, Reason)>,
    e_mained: Seq<(Seq<char>, Reason)>,
    p: Seq<char>,
)
    requires
        retyped_to_main(tested, mained),
        is_closure(tested, changed, e_tested),
        is_closure(mained, changed, e_mained),
        has_key(e_tested, p),
    ensures
        has_key(e_mained, p),
{
    let k = choose|k: int| 0 <= k < e_tested.len() && #[trigger] e_tested[k].0 == p;
    assert(closure_reason(tested, changed, e_tested[k].0) == Some(e_tested[k].1));
    if is_seed(tested, changed, p) {
        lemma_seed_reaches(tested, changed, p);
    }
    if main_affected(tested, changed, p) {
        let n = choose|n: nat| #[trigger] reaches(tested, changed, p, n);
        lemma_retyped_reaches(tested, mained, changed, p, n);
        assert(main_affected(mained, changed, p));
    } else {
        assert(test_edge_into_main(tested, changed, p));
        let (i, j) = choose|i: int, j: int|
            #![trigger tested[i].deps@[j]]
            0 <= i < tested.len() && tested[i].path@ == p && 0 <= j < tested[i].deps@.len()
                && tested[i].deps@[j].kind == EdgeKind::Test && main_affected(
                tested,
                changed,
                tested[i].deps@[j].path@,
            );
        let t = tested[i].deps@[j].path@;
        let n = choose|n: nat| #[trigger] reaches(tested, changed, t, n);
        lemma_retyped_reaches(tested, mained, changed, t, n);
        assert(module_paths(tested).len() == module_paths(mained).len());
        assert(module_paths(tested).len() == tested.len() && module_paths(mained).len() == mained.len());
        assert(module_paths(tested)[i] == module_paths(mained)[i]);
        assert(module_paths(tested)[i] == tested[i].path@);
        assert(module_paths(mained)[i] == mained[i].path@);
        let jj = choose|jj: int|
            0 <= jj < mained[i].deps@.len() && #[trigger] mained[i].deps@[jj].path@ == t && (
            tested[i].deps@[j].kind == EdgeKind::Main ==> mained[i].deps@[jj].kind == EdgeKind::Main);
        assert(reaches(mained, changed, mained[i].deps@[jj].path@, n));
        if mained[i].deps@[jj].kind == EdgeKind::Test {
            assert(test_edge_into_main(mained, changed, p));
        } else {
            assert(p != t);
            assert(main_edge(mained, p, t));
            assert(main_affected(mained, changed, t));
            lemma_edge_extends(mained, changed, p, t);
        }
    }
    assert(closure_reason(mained, changed, p) is Some);
}

/// `stripped` is the lock `ms` with its test edges removed: the same
/// modules in the same order, each keeping its main edges in order.
pub open spec fn main_edges_only(stripped: Seq<Module>, ms: Seq<Module>) -> bool {
    &&& stripped.len() == ms.len()
    &&& forall|i: int|
        0 <= i < ms.len() ==> (#[trigger] stripped[i]).path@ == ms[i].path@ && stripped[i].deps@
            == ms[i].deps@.filter(|d: Dep| d.kind == EdgeKind::Main)
}

/// A kept main edge is an edge of the full list.
proof fn lemma_main_edge_kept(deps: Seq<Dep>, kept: Seq<Dep>, j: int)
    requires
        kept == deps.filter(|d: Dep| d.kind == EdgeKind::Main),
        0 <= j < kept.len(),
    ensures
        has_edge(deps, kept[j]),
{
    let pred = |d: Dep| d.kind == EdgeKind::Main;
    let d = kept[j];
    assert(kept.contains(d));
    deps.lemma_filter_contains_rev(pred, d);
    let jj = choose|jj: int| 0 <= jj < deps.len() && deps[jj] == d;
    assert(deps[jj].path@ == kept[j].path@);
}

/// Test edges only add to the selection: every changed module is affected,
/// and every module affected over the main edges alone is affected over all
/// edges.
pub proof fn law_test_edges_only_add(
    ms: Seq<Module>,
    stripped: Seq<Module>,
    changed: Seq<Seq<char>>,
    e: Seq<(Seq<char>, Reason)>,
    e_main: Seq<(Seq<char>, Reason)>,
    p: Seq<char>,
)
    requires
        main_edges_only(stripped, ms),
        is_closure(ms, changed, e),
        is_closure(stripped, changed, e_main),
    ensures
        has_module(ms, p) && changed.contains(p) ==> has_key(e, p),
        has_key(e_main, p) ==> has_key(e, p),
{
    if has_module(ms, p) && changed.contains(p) {
        law_changed_modules_are_affected(ms, changed, e, p);
    }
    assert(module_paths(stripped) =~= module_paths(ms));
    assert forall|i: int, j: int|
        #![trigger stripped[i].deps@[j]]
        0 <= i < stripped.len() && 0 <= j < stripped[i].deps@.len() implies has_edge(
        ms[i].deps@,
        stripped[i].deps@[j],
    ) by {
        lemma_main_edge_kept(ms[i].deps@, stripped[i].deps@, j);
    }
    assert(edges_included(stripped, ms));
    if has_key(e_main, p) {
        law_fewer_edges_never_widen(stripped, ms, changed, e_main, e, p);
    }
}

} // verus!
