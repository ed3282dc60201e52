//! What the server's pages and API derive from the stored history: which
//! uploads are accepted, escaping, verdict trends, the ranking of flaky
//! tests, and a run's verdict counts.

use vstd::prelude::*;
use vstd::utf8::{decode_utf8, encode_utf8, is_char_boundary};
use vstd::string::StringSliceAdditionalSpecFns;
use crate::db::{RunPayload, RunTestRow, TestRow, VerdictRow};
use crate::score::{Score, Verdict, WindowEntry};
use crate::text::{chars_of, push_char, push_str};

verus! {

broadcast use vstd::string::group_string_axioms;

/// How many runs of a test the flaky score looks back over.
pub const WINDOW: usize = 50;

/// How many verdicts a trend shows.
pub const TREND_LEN: usize = 20;

/// An upload can be stored: run key, sha and branch are all non-empty.
pub open spec fn accepted_run(p: RunPayload) -> bool {
    p.run_key@.len() > 0 && p.sha@.len() > 0 && p.branch@.len() > 0
}

/// Whether an uploaded run can be stored; others are a bad request.
pub fn accepts_run(payload: &RunPayload) -> (r: bool)
    ensures
        r == accepted_run(*payload),
{
    !payload.run_key.as_str().is_empty() && !payload.sha.as_str().is_empty()
        && !payload.branch.as_str().is_empty()
}

/// The HTTP status of a stored upload: 200 when the key was seen before,
/// 201 when it was new.
pub fn ingest_status(deduplicated: bool) -> (r: u16)
    ensures
        r == (if deduplicated {
            200u16
        } else {
            201u16
        }),
{
    if deduplicated {
        200
    } else {
        201
    }
}

/// The HTML escape of one character.
pub open spec fn esc_char(c: char) -> Seq<char> {
    if c == '&' {
        "&amp;"@
    } else if c == '<' {
        "&lt;"@
    } else if c == '>' {
        "&gt;"@
    } else if c == '"' {
        "&quot;"@
    } else {
        seq![c]
    }
}

/// `s` with `&`, `<`, `>` and `"` escaped for HTML.
pub open spec fn esc_spec(s: Seq<char>) -> Seq<char>
    decreases s.len(),
{
    if s.len() == 0 {
        Seq::<char>::empty()
    } else {
        esc_spec(s.drop_last()) + esc_char(s.last())
    }
}

/// Escapes `&`, `<`, `>` and `"` for HTML text and attribute values.
pub fn esc(s: &str) -> (r: String)
    ensures
        r@ == esc_spec(s@),
{
    let cs = chars_of(s);
    let mut out = String::new();
    let n = cs.len();
    let mut i: usize = 0;
    while i < n
        invariant
            n == cs@.len(),
            cs@ == s@,
            i <= n,
            out@ == esc_spec(cs@.take(i as int)),
        decreases n - i,
    {
        assert(cs@.take(i + 1).drop_last() =~= cs@.take(i as int));
        let c = cs[i];
        let ghost before = out@;
        if c == '&' {
            push_str(&mut out, "&amp;");
        } else if c == '<' {
            push_str(&mut out, "&lt;");
        } else if c == '>' {
            push_str(&mut out, "&gt;");
        } else if c == '"' {
            push_str(&mut out, "&quot;");
        } else {
            push_char(&mut out, c);
        }
        assert(out@ =~= before + esc_char(c));
        i += 1;
    }
    assert(cs@.take(n as int) =~= cs@);
    out
}

/// The label of a verdict.
pub open spec fn verdict_label_spec(v: Verdict) -> Seq<char> {
    match v {
        Verdict::Pass => "pass"@,
        Verdict::Fail => "fail"@,
        Verdict::Mixed => "mixed"@,
    }
}

/// The label of a verdict, also its CSS class.
pub fn verdict_label(v: Verdict) -> (r: &'static str)
    ensures
        r@ == verdict_label_spec(v),
{
    match v {
        Verdict::Pass => "pass",
        Verdict::Fail => "fail",
        Verdict::Mixed => "mixed",
    }
}

/// The byte length of a SHA's short form: at most 9 bytes.
pub open spec fn short_len(sha: Seq<char>) -> int {
    if encode_utf8(sha).len() < 9 {
        encode_utf8(sha).len() as int
    } else {
        9
    }
}

/// The short form of a SHA: its first 9 bytes.
pub open spec fn short_sha(sha: Seq<char>) -> Seq<char> {
    decode_utf8(encode_utf8(sha).take(short_len(sha)))
}

/// The SHA can be cut after its 9th byte: no character spans that cut.
pub open spec fn sha_cuttable(sha: Seq<char>) -> bool {
    is_char_boundary(encode_utf8(sha), short_len(sha))
}

/// The first 9 bytes of a SHA.
pub(crate) fn cut_short_sha(sha: &str) -> (r: &str)
    requires
        sha_cuttable(sha@),
    ensures
        r@ == short_sha(sha@),
{
    let bytes = sha.as_bytes();
    let cut: usize = if bytes.len() < 9 {
        bytes.len()
    } else {
        9
    };
    let (short, _) = sha.split_at(cut);
    proof {
        vstd::utf8::encode_utf8_decode_utf8(short@);
        assert(encode_utf8(sha@).take(short_len(sha@)) =~= encode_utf8(sha@).subrange(0, cut as int));
    }
    short
}

/// The rows a trend shows: the last `TREND_LEN`.
pub open spec fn trend_rows(window: Seq<VerdictRow>) -> Seq<VerdictRow> {
    if window.len() <= TREND_LEN {
        window
    } else {
        window.skip(window.len() - TREND_LEN)
    }
}

/// The trend mark of one row with a verdict.
pub open spec fn trend_mark(row: VerdictRow) -> Seq<char> {
    "<span class=\"v "@ + verdict_label_spec(row.verdict->0) + "\" title=\""@ + verdict_label_spec(
        row.verdict->0,
    ) + " on "@ + esc_spec(short_sha(row.sha@)) + "\"></span>"@
}

/// The marks of the rows that have a verdict, in order.
pub open spec fn trend_marks(rows: Seq<VerdictRow>) -> Seq<char>
    decreases rows.len(),
{
    if rows.len() == 0 {
        Seq::<char>::empty()
    } else {
        trend_marks(rows.drop_last()) + if rows.last().verdict is Some {
            trend_mark(rows.last())
        } else {
            Seq::<char>::empty()
        }
    }
}

/// The SHAs a trend shows can be cut after their 9th byte.
pub open spec fn trend_cuttable(window: Seq<VerdictRow>) -> bool {
    forall|i: int|
        0 <= i < trend_rows(window).len() && (#[trigger] trend_rows(window)[i]).verdict is Some
            ==> sha_cuttable(trend_rows(window)[i].sha@)
}

/// The verdict trend of the last `TREND_LEN` runs of a window (given
/// oldest first): one colored mark per run with a verdict, titled with the
/// verdict and the short SHA.
pub fn trend(window: &Vec<VerdictRow>) -> (r: String)
    requires
        trend_cuttable(window@),
    ensures
        r@ == trend_marks(trend_rows(window@)),
{
    let n = window.len();
    let start: usize = if n <= TREND_LEN {
        0
    } else {
        n - TREND_LEN
    };
    let ghost rows = trend_rows(window@);
    assert(rows =~= window@.skip(start as int));
    let mut out = String::new();
    let mut i: usize = start;
    while i < n
        invariant
            n == window@.len(),
            start <= i <= n,
            rows == window@.skip(start as int),
            trend_cuttable(window@),
            rows == trend_rows(window@),
            out@ == trend_marks(window@.subrange(start as int, i as int)),
        decreases n - i,
    {
        assert(window@.subrange(start as int, i + 1).drop_last() =~= window@.subrange(
            start as int,
            i as int,
        ));
        let row = &window[i];
        match row.verdict {
            Some(v) => {
                assert(rows[i - start] == window@[i as int]);
                let short = cut_short_sha(row.sha.as_str());
                let label = verdict_label(v);
                let ghost before = out@;
                push_str(&mut out, "<span class=\"v ");
                push_str(&mut out, label);
                push_str(&mut out, "\" title=\"");
                push_str(&mut out, label);
                push_str(&mut out, " on ");
                let e = esc(short);
                push_str(&mut out, e.as_str());
                push_str(&mut out, "\"></span>");
                assert(out@ =~= before + trend_mark(*row));
            },
            None => {},
        }
        i += 1;
    }
    assert(window@.subrange(start as int, n as int) =~= rows);
    out
}

/// A window's runs oldest first, keeping only those with a verdict.
pub open spec fn chronological(newest_first: Seq<VerdictRow>) -> Seq<VerdictRow> {
    newest_first.reverse().filter(|v: VerdictRow| v.verdict is Some)
}

/// Reverses a newest-first window into chronological order and drops the
/// runs without a verdict (only skipped executions).
pub fn chronological_window(newest_first: Vec<VerdictRow>) -> (r: Vec<VerdictRow>)
    ensures
        r@ == chronological(newest_first@),
{
    let ghost orig = newest_first@;
    let mut rows = newest_first;
    let mut out: Vec<VerdictRow> = Vec::new();
    assert(orig.skip(orig.len() as int) =~= Seq::<VerdictRow>::empty());
    assert(orig.skip(orig.len() as int).reverse() =~= Seq::<VerdictRow>::empty());
    while rows.len() > 0
        invariant
            rows@ == orig.take(rows@.len() as int),
            rows@.len() <= orig.len(),
            out@ == orig.skip(rows@.len() as int).reverse().filter(|v: VerdictRow| v.verdict is Some),
        decreases rows@.len(),
    {
        let k = rows.len();
        let row = rows.pop().unwrap();
        proof {
            let suffix = orig.skip(k as int);
            let longer = orig.skip(k - 1);
            assert(longer.reverse() =~= suffix.reverse().push(orig[k - 1]));
            assert(row == orig[k - 1]);
            suffix.reverse().lemma_filter_push(row, |v: VerdictRow| v.verdict is Some);
            assert(rows@ =~= orig.take(k - 1));
        }
        if row.verdict.is_some() {
            out.push(row);
        }
    }
    assert(orig.skip(0) =~= orig);
    out
}

/// The score entries of a chronological window whose runs all have a
/// verdict, one per run with its SHA and verdict.
pub fn window_entries(window: &Vec<VerdictRow>) -> (r: Vec<WindowEntry>)
    requires
        forall|i: int| 0 <= i < window@.len() ==> (#[trigger] window@[i]).verdict is Some,
    ensures
        r@.len() == window@.len(),
        forall|i: int|
            0 <= i < r@.len() ==> (#[trigger] r@[i]).sha@ == window@[i].sha@ && r@[i].verdict
                == window@[i].verdict->0,
{
    let mut out: Vec<WindowEntry> = Vec::new();
    let n = window.len();
    let mut i: usize = 0;
    while i < n
        invariant
            n == window@.len(),
            i <= n,
            out@.len() == i,
            forall|j: int| 0 <= j < n ==> (#[trigger] window@[j]).verdict is Some,
            forall|j: int|
                0 <= j < i ==> (#[trigger] out@[j]).sha@ == window@[j].sha@ && out@[j].verdict
                    == window@[j].verdict->0,
        decreases n - i,
    {
        let row = &window[i];
        assert(row.verdict is Some);
        let verdict = match row.verdict {
            Some(v) => v,
            None => Verdict::Pass,
        };
        out.push(WindowEntry { sha: row.sha.clone(), verdict });
        i += 1;
    }
    out
}

/// A test currently scored flaky, with its chronological window.
pub struct FlakyTest {
    pub test: TestRow,
    pub score: Score,
    pub last_seen: String,
    /// Chronological verdicts, oldest first.
    pub window: Vec<VerdictRow>,
}

/// The test is listed as flaky when its score is positive; it was last
/// seen at its newest run with a verdict (empty when there is none).
pub fn flaky_test(test: TestRow, window: Vec<VerdictRow>, score: Score) -> (r: Option<FlakyTest>)
    ensures
        match r {
            Some(f) => {
                &&& score.score > 0
                &&& f.test == test
                &&& f.score == score
                &&& f.window@ == window@
                &&& f.last_seen@ == if window@.len() > 0 {
                    window@.last().created_at@
                } else {
                    Seq::<char>::empty()
                }
            },
            None => score.score == 0,
        },
{
    if score.score == 0 {
        return None;
    }
    let n = window.len();
    let last_seen = if n > 0 {
        window[n - 1].created_at.clone()
    } else {
        String::new()
    };
    Some(FlakyTest { test, score, last_seen, window })
}

/// `r` is `v` stably sorted by descending score, `perm` giving the index in
/// `v` of each element of `r`.
pub open spec fn stable_by_score(v: Seq<FlakyTest>, r: Seq<FlakyTest>, perm: Seq<int>) -> bool {
    &&& perm.len() == r.len()
    &&& r.len() == v.len()
    &&& perm.no_duplicates()
    &&& forall|k: int| 0 <= k < r.len() ==> 0 <= #[trigger] perm[k] < v.len() && r[k] == v[perm[k]]
    &&& forall|k: int, l: int|
        0 <= k < l < r.len() ==> (#[trigger] r[k]).score.score > (#[trigger] r[l]).score.score || (
        r[k].score.score == r[l].score.score && perm[k] < perm[l])
}

/// Ranks flaky tests by descending score; tests with equal scores keep
/// their order.
pub fn rank(flaky: Vec<FlakyTest>) -> (r: Vec<FlakyTest>)
    ensures
        exists|perm: Seq<int>| stable_by_score(flaky@, r@, perm),
{
    let ghost v = flaky@;
    let mut rest = flaky;
    let mut sorted: Vec<FlakyTest> = Vec::new();
    let ghost mut perm: Seq<int> = Seq::empty();
    let n = rest.len();
    let mut i: usize = 0;
    while i < n
        invariant
            n == v.len(),
            i <= n,
            rest@ == v.take(n - i),
            perm.len() == sorted@.len(),
            sorted@.len() == i,
            perm.no_duplicates(),
            forall|k: int|
                0 <= k < sorted@.len() ==> n - i <= #[trigger] perm[k] < n && sorted@[k] == v[perm[k]],
            forall|k: int, l: int|
                0 <= k < l < sorted@.len() ==> (#[trigger] sorted@[k]).score.score > (
                #[trigger] sorted@[l]).score.score || (sorted@[k].score.score
                    == sorted@[l].score.score && perm[k] < perm[l]),
        decreases n - i,
    {
        let ghost idx = n - 1 - i;
        let f = rest.pop().unwrap();
        proof {
            assert(f == v[idx]);
            assert(rest@ =~= v.take(n - (i + 1)));
        }
        let ghost e0 = sorted@;
        let ghost p0 = perm;
        let s = f.score.score;
        let ns = sorted.len();
        let mut pos: usize = 0;
        while pos < ns && sorted[pos].score.score > s
            invariant
                ns == sorted@.len(),
                e0 == sorted@,
                pos <= ns,
                forall|k: int| 0 <= k < pos ==> (#[trigger] e0[k]).score.score > s,
            decreases ns - pos,
        {
            pos += 1;
        }
        let ghost fv = f;
        sorted.insert(pos, f);
        proof {
            perm = p0.insert(pos as int, idx);
            let e1 = sorted@;
            assert(e1 =~= e0.insert(pos as int, fv));
            assert forall|k: int| 0 <= k < e1.len() implies n - (i + 1) <= #[trigger] perm[k] < n
                && e1[k] == v[perm[k]] by {
                if k < pos {
                    assert(e1[k] == e0[k] && perm[k] == p0[k]);
                } else if k > pos {
                    assert(e1[k] == e0[k - 1] && perm[k] == p0[k - 1]);
                }
            }
            assert(perm.no_duplicates()) by {
                assert forall|a: int, b: int| 0 <= a < b < perm.len() implies perm[a] != perm[b] by {
                    if a != pos && b != pos {
                        let oa = if a < pos {
                            a
                        } else {
                            a - 1
                        };
                        let ob = if b < pos {
                            b
                        } else {
                            b - 1
                        };
                        assert(perm[a] == p0[oa] && perm[b] == p0[ob]);
                    } else if a == pos {
                        assert(perm[b] == p0[b - 1]);
                    } else {
                        assert(perm[a] == p0[a]);
                    }
                }
            }
            assert forall|k: int, l: int| 0 <= k < l < e1.len() implies (#[trigger] e1[k]).score.score
                > (#[trigger] e1[l]).score.score || (e1[k].score.score == e1[l].score.score && perm[k]
                < perm[l]) by {
                if l < pos {
                    assert(e1[k] == e0[k] && e1[l] == e0[l] && perm[k] == p0[k] && perm[l] == p0[l]);
                } else if l == pos {
                    assert(e1[k] == e0[k] && perm[k] == p0[k]);
                } else if k < pos {
                    assert(e1[k] == e0[k] && e1[l] == e0[l - 1] && perm[k] == p0[k] && perm[l]
                        == p0[l - 1]);
                } else if k == pos {
                    assert(e1[l] == e0[l - 1] && perm[l] == p0[l - 1]);
                    assert(e0[pos as int].score.score <= s);
                    if l - 1 > pos {
                        assert(e0[pos as int].score.score > e0[l - 1].score.score || (
                        e0[pos as int].score.score == e0[l - 1].score.score && p0[pos as int] < p0[l - 1]));
                    }
                } else {
                    assert(e1[k] == e0[k - 1] && e1[l] == e0[l - 1] && perm[k] == p0[k - 1]
                        && perm[l] == p0[l - 1]);
                }
            }
        }
        i += 1;
    }
    assert(stable_by_score(v, sorted@, perm));
    sorted
}

/// A run's tests by verdict.
#[derive(Debug, PartialEq, Eq, Structural)]
pub struct RunCounts {
    pub passed: usize,
    pub failed: usize,
    pub mixed: usize,
    pub skipped: usize,
}

/// How many of the tests have the verdict `v`.
pub open spec fn count_verdict(tests: Seq<RunTestRow>, v: Option<Verdict>) -> nat
    decreases tests.len(),
{
    if tests.len() == 0 {
        0
    } else {
        count_verdict(tests.drop_last(), v) + if tests.last().verdict == v {
            1nat
        } else {
            0nat
        }
    }
}

/// Counts the tests of a run by verdict (passed, failed, mixed), and
/// those without one as skipped.
pub fn run_counts(tests: &Vec<RunTestRow>) -> (r: RunCounts)
    ensures
        r.passed == count_verdict(tests@, Some(Verdict::Pass)),
        r.failed == count_verdict(tests@, Some(Verdict::Fail)),
        r.mixed == count_verdict(tests@, Some(Verdict::Mixed)),
        r.skipped == count_verdict(tests@, None),
{
    let mut c = RunCounts { passed: 0, failed: 0, mixed: 0, skipped: 0 };
    let n = tests.len();
    let mut i: usize = 0;
    while i < n
        invariant
            n == tests@.len(),
            i <= n,
            c.passed == count_verdict(tests@.take(i as int), Some(Verdict::Pass)),
            c.failed == count_verdict(tests@.take(i as int), Some(Verdict::Fail)),
            c.mixed == count_verdict(tests@.take(i as int), Some(Verdict::Mixed)),
            c.skipped == count_verdict(tests@.take(i as int), None),
            c.passed + c.failed + c.mixed + c.skipped == i,
        decreases n - i,
    {
        assert(tests@.take(i + 1).drop_last() =~= tests@.take(i as int));
        match tests[i].verdict {
            Some(Verdict::Pass) => c.passed += 1,
            Some(Verdict::Fail) => c.failed += 1,
            Some(Verdict::Mixed) => c.mixed += 1,
            None => c.skipped += 1,
        }
        i += 1;
    }
    assert(tests@.take(n as int) =~= tests@);
    c
}

/// The test's verdict is a problem: failed or mixed.
pub open spec fn is_problem(t: RunTestRow) -> bool {
    t.verdict == Some(Verdict::Fail) || t.verdict == Some(Verdict::Mixed)
}

/// The positions of the run's failed or mixed tests, in order.
pub fn problem_rows(tests: &Vec<RunTestRow>) -> (r: Vec<usize>)
    ensures
        forall|k: int| 0 <= k < r@.len() ==> (#[trigger] r@[k]) < tests@.len() && is_problem(tests@[r@[k] as int]),
        forall|k: int, l: int| 0 <= k < l < r@.len() ==> #[trigger] r@[k] < #[trigger] r@[l],
        forall|j: int| 0 <= j < tests@.len() && is_problem(#[trigger] tests@[j]) ==> r@.contains(j as usize),
{
    let mut out: Vec<usize> = Vec::new();
    let n = tests.len();
    let mut i: usize = 0;
    while i < n
        invariant
            n == tests@.len(),
            i <= n,
            forall|k: int| 0 <= k < out@.len() ==> (#[trigger] out@[k]) < i && is_problem(tests@[out@[k] as int]),
            forall|k: int, l: int| 0 <= k < l < out@.len() ==> #[trigger] out@[k] < #[trigger] out@[l],
            forall|j: int| 0 <= j < i && is_problem(#[trigger] tests@[j]) ==> out@.contains(j as usize),
        decreases n - i,
    {
        let p = match tests[i].verdict {
            Some(Verdict::Fail) => true,
            Some(Verdict::Mixed) => true,
            _ => false,
        };
        if p {
            let ghost before = out@;
            out.push(i);
            assert forall|j: int| 0 <= j < i + 1 && is_problem(#[trigger] tests@[j]) implies out@.contains(
                j as usize,
            ) by {
                if j < i {
                    assert(before.contains(j as usize));
                    let k = choose|k: int| 0 <= k < before.len() && before[k] == j as usize;
                    assert(out@[k] == j as usize);
                } else {
                    assert(out@[before.len() as int] == i);
                }
            }
        }
        i += 1;
    }
    out
}

/// Escaped text holds no `<`, `>` or `"`: it cannot open a tag or close an
/// attribute value.
pub proof fn law_escaped_text_has_no_markup(s: Seq<char>)
    ensures
        forall|i: int|
            0 <= i < esc_spec(s).len() ==> #[trigger] esc_spec(s)[i] != '<' && esc_spec(s)[i] != '>'
                && esc_spec(s)[i] != '"',
    decreases s.len(),
{
    if s.len() > 0 {
        law_escaped_text_has_no_markup(s.drop_last());
        let prev = esc_spec(s.drop_last());
        let tail = esc_char(s.last());
        reveal_strlit("&amp;");
        reveal_strlit("&lt;");
        reveal_strlit("&gt;");
        reveal_strlit("&quot;");
        assert forall|k: int| 0 <= k < tail.len() implies #[trigger] tail[k] != '<' && tail[k] != '>' && tail[k]
            != '"' by {
        }
        assert forall|i: int| 0 <= i < esc_spec(s).len() implies #[trigger] esc_spec(s)[i] != '<'
            && esc_spec(s)[i] != '>' && esc_spec(s)[i] != '"' by {
            if i < prev.len() {
                assert(esc_spec(s)[i] == prev[i]);
            } else {
                assert(esc_spec(s)[i] == tail[i - prev.len()]);
            }
        }
    }
}

} // verus!
