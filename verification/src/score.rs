//! Flakiness scoring over a test's window of run verdicts.
//!
//! The evidence is integral: how many distinct SHAs saw the test both pass
//! and fail, and how many times consecutive clear-cut verdicts changed. The
//! weighting of that evidence into a 0..=100 number is the caller's, handed
//! in as a function; it is applied only to flaky windows.

use vstd::prelude::*;
use crate::text::str_eq;

verus! {

/// Run-level verdict of a test, derived from all its executions in one run.
#[derive(Debug, Clone, Copy, PartialEq, Eq, Structural)]
pub enum Verdict {
    Pass,
    Fail,
    /// Both passing and failing executions in the same run (retry flip).
    Mixed,
}

/// The verdict of a run with `passes` passing and `fails` failing
/// executions; `None` when it had neither (only skipped executions).
pub open spec fn verdict_of_counts(passes: int, fails: int) -> Option<Verdict> {
    if passes > 0 && fails > 0 {
        Some(Verdict::Mixed)
    } else if passes > 0 {
        Some(Verdict::Pass)
    } else if fails > 0 {
        Some(Verdict::Fail)
    } else {
        None
    }
}

impl Verdict {
    /// None means only skipped executions: excluded from scoring.
    pub fn from_counts(passes: i64, fails: i64) -> (r: Option<Verdict>)
        ensures
            r == verdict_of_counts(passes as int, fails as int),
    {
        if passes > 0 && fails > 0 {
            Some(Verdict::Mixed)
        } else if passes > 0 {
            Some(Verdict::Pass)
        } else if fails > 0 {
            Some(Verdict::Fail)
        } else {
            None
        }
    }
}

/// One run of the window: its commit and the test's verdict there.
pub struct WindowEntry {
    pub sha: String,
    pub verdict: Verdict,
}

/// A test's flakiness: the weighted score and the evidence behind it.
#[derive(Debug, PartialEq, Eq, Structural)]
pub struct Score {
    pub score: u32,
    pub flip_shas: usize,
    pub flips: usize,
}

/// The verdict counts as passing evidence.
pub open spec fn passing(v: Verdict) -> bool {
    v != Verdict::Fail
}

/// The verdict counts as failing evidence.
pub open spec fn failing(v: Verdict) -> bool {
    v != Verdict::Pass
}

/// Some run of `sha` in the window passed.
pub open spec fn sha_passed(w: Seq<WindowEntry>, sha: Seq<char>) -> bool {
    exists|i: int| 0 <= i < w.len() && #[trigger] w[i].sha@ == sha && passing(w[i].verdict)
}

/// Some run of `sha` in the window failed.
pub open spec fn sha_failed(w: Seq<WindowEntry>, sha: Seq<char>) -> bool {
    exists|i: int| 0 <= i < w.len() && #[trigger] w[i].sha@ == sha && failing(w[i].verdict)
}

/// The window holds both pass and fail evidence for `sha`.
pub open spec fn is_flip_sha(w: Seq<WindowEntry>, sha: Seq<char>) -> bool {
    sha_passed(w, sha) && sha_failed(w, sha)
}

/// Entry `i` is the first of its SHA in the window.
pub open spec fn first_of_sha(w: Seq<WindowEntry>, i: int) -> bool {
    forall|j: int| 0 <= j < i ==> #[trigger] w[j].sha@ != w[i].sha@
}

/// Distinct SHAs among the first `n` entries (each counted at its first
/// entry) that the whole window shows both passing and failing.
pub open spec fn flip_sha_count(w: Seq<WindowEntry>, n: int) -> nat
    decreases n,
{
    if n <= 0 {
        0
    } else {
        flip_sha_count(w, n - 1) + if first_of_sha(w, n - 1) && is_flip_sha(w, w[n - 1].sha@) {
            1nat
        } else {
            0nat
        }
    }
}

/// The number of distinct SHAs with both pass and fail evidence.
pub open spec fn flip_shas_of(w: Seq<WindowEntry>) -> nat {
    flip_sha_count(w, w.len() as int)
}

/// The window's clear-cut verdicts in order, `Mixed` left out.
pub open spec fn plain_verdicts(w: Seq<WindowEntry>) -> Seq<Verdict>
    decreases w.len(),
{
    if w.len() == 0 {
        Seq::<Verdict>::empty()
    } else if w.last().verdict == Verdict::Mixed {
        plain_verdicts(w.drop_last())
    } else {
        plain_verdicts(w.drop_last()).push(w.last().verdict)
    }
}

/// Adjacent positions of `v` that differ.
pub open spec fn changes(v: Seq<Verdict>) -> nat
    decreases v.len(),
{
    if v.len() < 2 {
        0
    } else {
        changes(v.drop_last()) + if v[v.len() - 2] != v[v.len() - 1] {
            1nat
        } else {
            0nat
        }
    }
}

/// Adjacent pass/fail transitions, `Mixed` runs skipped.
pub open spec fn flips_of(w: Seq<WindowEntry>) -> nat {
    changes(plain_verdicts(w))
}

/// Flaky iff some SHA both passed and failed, or the verdict changed at
/// least twice: a single cross-SHA change is an honest break or fix.
pub open spec fn is_flaky(flip_shas: int, flips: int) -> bool {
    flip_shas >= 1 || flips >= 2
}

/// The SHA evidence counted by the weighting: at most three SHAs.
pub open spec fn capped_flip_shas(flip_shas: int) -> int {
    if flip_shas < 3 {
        flip_shas
    } else {
        3
    }
}

/// The denominator for the flip rate: transitions possible in `n` runs,
/// at least one.
pub open spec fn flip_room(n: int) -> int {
    if n <= 2 {
        1
    } else {
        n - 1
    }
}

/// Whether some run of `sha` passed and whether some run failed.
fn sha_evidence(window: &[WindowEntry], sha: &String) -> (r: (bool, bool))
    ensures
        r.0 == sha_passed(window@, sha@),
        r.1 == sha_failed(window@, sha@),
{
    let mut pass = false;
    let mut fail = false;
    let n = window.len();
    let mut i: usize = 0;
    while i < n
        invariant
            n == window@.len(),
            i <= n,
            pass == (exists|k: int|
                0 <= k < i && #[trigger] window@[k].sha@ == sha@ && passing(window@[k].verdict)),
            fail == (exists|k: int|
                0 <= k < i && #[trigger] window@[k].sha@ == sha@ && failing(window@[k].verdict)),
        decreases n - i,
    {
        let e = &window[i];
        if str_eq(e.sha.as_str(), sha.as_str()) {
            match e.verdict {
                Verdict::Pass => {
                    pass = true;
                },
                Verdict::Fail => {
                    fail = true;
                },
                Verdict::Mixed => {
                    pass = true;
                    fail = true;
                },
            }
        }
        i += 1;
    }
    (pass, fail)
}

/// Entry `i` is the first of its SHA.
fn is_first_of_sha(window: &[WindowEntry], i: usize) -> (r: bool)
    requires
        i < window@.len(),
    ensures
        r == first_of_sha(window@, i as int),
{
    let mut j: usize = 0;
    while j < i
        invariant
            i < window@.len(),
            j <= i,
            forall|k: int| 0 <= k < j ==> #[trigger] window@[k].sha@ != window@[i as int].sha@,
        decreases i - j,
    {
        if str_eq(window[j].sha.as_str(), window[i].sha.as_str()) {
            return false;
        }
        j += 1;
    }
    true
}

/// The number of distinct SHAs with both pass and fail evidence.
fn count_flip_shas(window: &[WindowEntry]) -> (r: usize)
    ensures
        r == flip_shas_of(window@),
{
    let n = window.len();
    let mut count: usize = 0;
    let mut i: usize = 0;
    while i < n
        invariant
            n == window@.len(),
            i <= n,
            count == flip_sha_count(window@, i as int),
            count <= i,
        decreases n - i,
    {
        if is_first_of_sha(window, i) {
            let (pass, fail) = sha_evidence(window, &window[i].sha);
            if pass && fail {
                count += 1;
            }
        }
        i += 1;
    }
    count
}

/// Adjacent pass/fail transitions, `Mixed` runs skipped.
fn count_flips(window: &[WindowEntry]) -> (r: usize)
    ensures
        r == flips_of(window@),
{
    let n = window.len();
    let mut flips: usize = 0;
    let mut last: Option<Verdict> = None;
    let mut i: usize = 0;
    while i < n
        invariant
            n == window@.len(),
            i <= n,
            flips == changes(plain_verdicts(window@.take(i as int))),
            flips <= i,
            last == (if plain_verdicts(window@.take(i as int)).len() == 0 {
                None::<Verdict>
            } else {
                Some(plain_verdicts(window@.take(i as int)).last())
            }),
        decreases n - i,
    {
        let v = window[i].verdict;
        proof {
            assert(window@.take(i + 1).drop_last() =~= window@.take(i as int));
            assert(window@.take(i + 1).last() == window@[i as int]);
        }
        if v != Verdict::Mixed {
            proof {
                let prev = plain_verdicts(window@.take(i as int));
                let next = plain_verdicts(window@.take(i + 1));
                assert(next == prev.push(v));
                assert(next.drop_last() =~= prev);
            }
            match last {
                Some(l) => {
                    if l != v {
                        flips += 1;
                    }
                },
                None => {},
            }
            last = Some(v);
        }
        i += 1;
    }
    assert(window@.take(n as int) =~= window@);
    flips
}

/// `r` is the score of `window` under the weighting `weigh`: the evidence
/// counted exactly, a flaky window scored by `weigh` on the capped flip SHAs,
/// the flips and the room for flips, any other window scored 0.
pub open spec fn scored<F: Fn(usize, usize, usize) -> u32>(window: Seq<WindowEntry>, weigh: F, r: Score) -> bool {
    &&& r.flip_shas == flip_shas_of(window)
    &&& r.flips == flips_of(window)
    &&& is_flaky(r.flip_shas as int, r.flips as int) ==> weigh.ensures(
        (
            capped_flip_shas(r.flip_shas as int) as usize,
            r.flips,
            flip_room(window.len() as int) as usize,
        ),
        r.score,
    )
    &&& !is_flaky(r.flip_shas as int, r.flips as int) ==> r.score == 0
}

/// Scores a test over its verdict window (chronological order).
///
/// `flip_shas` counts distinct SHAs with both pass and fail evidence (a
/// `Mixed` run alone counts); `flips` counts adjacent pass/fail transitions
/// with `Mixed` runs left out. A flaky window (`flip_shas >= 1` or
/// `flips >= 2`) is scored by `weigh(min(flip_shas, 3), flips, max(n - 1, 1))`
/// for a window of `n` runs; any other window scores 0.
pub fn score<F: Fn(usize, usize, usize) -> u32>(window: &[WindowEntry], weigh: F) -> (r: Score)
    requires
        forall|a: usize, b: usize, c: usize| #[trigger] weigh.requires((a, b, c)),
    ensures
        scored(window@, weigh, r),
{
    let flip_shas = count_flip_shas(window);
    let flips = count_flips(window);
    let n = window.len();
    let value = if flip_shas >= 1 || flips >= 2 {
        let capped: usize = if flip_shas < 3 {
            flip_shas
        } else {
            3
        };
        let room: usize = if n <= 2 {
            1
        } else {
            n - 1
        };
        weigh(capped, flips, room)
    } else {
        0
    };
    Score { score: value, flip_shas, flips }
}

/// Some entry at or before `i` is the first of `i`'s SHA.
proof fn lemma_first_occurrence(w: Seq<WindowEntry>, i: int)
    requires
        0 <= i < w.len(),
    ensures
        exists|f: int| 0 <= f <= i && first_of_sha(w, f) && #[trigger] w[f].sha@ == w[i].sha@,
    decreases i,
{
    if first_of_sha(w, i) {
        assert(w[i].sha@ == w[i].sha@);
    } else {
        let j = choose|j: int| 0 <= j < i && #[trigger] w[j].sha@ == w[i].sha@;
        lemma_first_occurrence(w, j);
        let f = choose|f: int| 0 <= f <= j && first_of_sha(w, f) && #[trigger] w[f].sha@ == w[j].sha@;
        assert(w[f].sha@ == w[i].sha@);
    }
}

/// The count never drops as more entries are considered.
proof fn lemma_flip_sha_count_monotone(w: Seq<WindowEntry>, a: int, b: int)
    requires
        a <= b,
    ensures
        flip_sha_count(w, a) <= flip_sha_count(w, b),
    decreases b - a,
{
    if a < b {
        lemma_flip_sha_count_monotone(w, a, b - 1);
    }
}

/// A `Mixed` run makes its SHA a flip SHA: any window holding one is flaky,
/// however the other runs went.
pub proof fn law_mixed_run_is_flaky(w: Seq<WindowEntry>, i: int)
    requires
        0 <= i < w.len(),
        w[i].verdict == Verdict::Mixed,
    ensures
        flip_shas_of(w) >= 1,
        is_flaky(flip_shas_of(w) as int, flips_of(w) as int),
{
    lemma_first_occurrence(w, i);
    let f = choose|f: int| 0 <= f <= i && first_of_sha(w, f) && #[trigger] w[f].sha@ == w[i].sha@;
    assert(w[i].sha@ == w[f].sha@ && passing(w[i].verdict));
    assert(w[i].sha@ == w[f].sha@ && failing(w[i].verdict));
    assert(is_flip_sha(w, w[f].sha@));
    assert(flip_sha_count(w, f + 1) >= 1);
    lemma_flip_sha_count_monotone(w, f + 1, w.len() as int);
}

/// With every run on its own SHA and no `Mixed` run, there is no same-SHA
/// evidence: such a window is flaky only through repeated transitions, and a
/// single change (an honest break or fix) scores nothing.
pub proof fn law_single_change_across_shas_is_not_flaky(w: Seq<WindowEntry>)
    requires
        forall|i: int, j: int| 0 <= i < j < w.len() ==> #[trigger] w[i].sha@ != #[trigger] w[j].sha@,
        forall|i: int| 0 <= i < w.len() ==> #[trigger] w[i].verdict != Verdict::Mixed,
        flips_of(w) <= 1,
    ensures
        flip_shas_of(w) == 0,
        !is_flaky(flip_shas_of(w) as int, flips_of(w) as int),
{
    assert forall|k: int| 0 <= k < w.len() implies !is_flip_sha(w, #[trigger] w[k].sha@) by {
        if sha_passed(w, w[k].sha@) && sha_failed(w, w[k].sha@) {
            let p = choose|p: int| 0 <= p < w.len() && #[trigger] w[p].sha@ == w[k].sha@ && passing(w[p].verdict);
            let q = choose|q: int| 0 <= q < w.len() && #[trigger] w[q].sha@ == w[k].sha@ && failing(w[q].verdict);
            if p != q {
                if p < q {
                    assert(w[p].sha@ != w[q].sha@);
                } else {
                    assert(w[q].sha@ != w[p].sha@);
                }
            }
            assert(w[p].verdict != Verdict::Mixed);
        }
    }
    lemma_no_flip_shas(w, w.len() as int);
}

proof fn lemma_no_flip_shas(w: Seq<WindowEntry>, n: int)
    requires
        n <= w.len(),
        forall|k: int| 0 <= k < w.len() ==> !is_flip_sha(w, #[trigger] w[k].sha@),
    ensures
        flip_sha_count(w, n) == 0,
    decreases n,
{
    if n > 0 {
        lemma_no_flip_shas(w, n - 1);
        assert(!is_flip_sha(w, w[n - 1].sha@));
    }
}

/// The score is capped at 100, and a window where some SHA both passed and
/// failed scores at least 20, for a weighting that keeps to these bounds
/// (at most 100, and at least 20 once one flip SHA is counted).
pub proof fn law_score_is_bounded<F: Fn(usize, usize, usize) -> u32>(
    window: Seq<WindowEntry>,
    weigh: F,
    r: Score,
)
    requires
        scored(window, weigh, r),
        forall|a: usize, b: usize, c: usize, v: u32|
            #[trigger] weigh.ensures((a, b, c), v) ==> v <= 100 && (a >= 1 ==> v >= 20),
    ensures
        r.score <= 100,
        r.flip_shas >= 1 ==> r.score >= 20,
{
    if is_flaky(r.flip_shas as int, r.flips as int) {
        let a = capped_flip_shas(r.flip_shas as int) as usize;
        assert(weigh.ensures((a, r.flips, flip_room(window.len() as int) as usize), r.score));
    }
}

} // verus!
