//! The server's HTML pages, rendered from stored rows: the page shell,
//! the flaky-test list, a test's history and a run's summary.

use vstd::prelude::*;
use vstd::string::StrSliceExecFns;
use crate::db::{RunRow, RunTestRow, TestRow, VerdictRow};
use crate::score::{Score, Verdict};
use crate::text::{decimal_spec, push_decimal, push_signed_decimal, push_str, signed_decimal_spec};
use crate::web::{
    count_verdict, cut_short_sha, esc, esc_spec, is_problem, run_counts, sha_cuttable, short_sha,
    trend, trend_cuttable, trend_marks, trend_rows, verdict_label, verdict_label_spec, FlakyTest,
};

verus! {

broadcast use vstd::string::group_string_axioms;

/// A page up to its title.
pub const PAGE_HEAD: &'static str = "<!doctype html>\n<html lang=\"en\">\n<head>\n<meta charset=\"utf-8\">\n<meta name=\"viewport\" content=\"width=device-width, initial-scale=1\">\n<title>";

/// A page from after its title to the heading's title.
pub const PAGE_STYLE: &'static str = " — lightning</title>\n<style>\nbody { font: 15px/1.5 -apple-system, \"Segoe UI\", sans-serif; margin: 2rem auto; max-width: 60rem; padding: 0 1rem; color: #1a1a1a; }\nh1 { font-size: 1.4rem; } h1 a { color: inherit; text-decoration: none; }\ntable { border-collapse: collapse; width: 100%; }\nth, td { text-align: left; padding: .4rem .6rem; border-bottom: 1px solid #e0e0e0; }\ncode { font-size: .85em; background: #f2f2f2; padding: .1em .3em; border-radius: 3px; }\n.score { font-weight: 600; }\n.v { display: inline-block; width: .7em; height: 1em; margin-right: 2px; border-radius: 2px; vertical-align: middle; }\n.v.pass { background: #2da44e; } .v.fail { background: #cf222e; } .v.mixed { background: #d4a72c; }\n.verdict.pass { color: #2da44e; } .verdict.fail { color: #cf222e; } .verdict.mixed { color: #b08800; }\n.muted { color: #666; }\n</style>\n</head>\n<body>\n<h1><a href=\"/\">lightning</a> · ";

/// A page in its shell: the escaped title in `<title>` and the heading, the
/// body as it is.
pub open spec fn page_spec(title: Seq<char>, body: Seq<char>) -> Seq<char> {
    PAGE_HEAD@ + esc_spec(title) + PAGE_STYLE@ + esc_spec(title) + "</h1>\n"@ + body
        + "\n</body>\n</html>\n"@
}

/// Wraps a page body in the common shell (head, style and heading).
pub fn page(title: &str, body: &str) -> (r: String)
    ensures
        r@ == page_spec(title@, body@),
{
    let t = esc(title);
    let mut out = String::new();
    push_str(&mut out, PAGE_HEAD);
    push_str(&mut out, t.as_str());
    push_str(&mut out, PAGE_STYLE);
    push_str(&mut out, t.as_str());
    push_str(&mut out, "</h1>\n");
    push_str(&mut out, body);
    push_str(&mut out, "\n</body>\n</html>\n");
    assert(out@ =~= page_spec(title@, body@));
    out
}

/// One failed or mixed test of a run, linked to its history.
pub open spec fn problem_row(t: RunTestRow) -> Seq<char> {
    let label = verdict_label_spec(t.verdict->0);
    "<tr><td class=\"verdict "@ + label + "\">"@ + label + "</td>\n<td><a href=\"/tests/"@
        + signed_decimal_spec(t.test_id as int) + "\">"@ + esc_spec(t.class_name@) + "<br><code>"@
        + esc_spec(t.name@) + "</code></a></td></tr>"@
}

/// The rows of the failed or mixed tests, in order.
pub open spec fn problem_html(tests: Seq<RunTestRow>) -> Seq<char>
    decreases tests.len(),
{
    if tests.len() == 0 {
        Seq::<char>::empty()
    } else {
        problem_html(tests.drop_last()) + if is_problem(tests.last()) {
            problem_row(tests.last())
        } else {
            Seq::<char>::empty()
        }
    }
}

/// The problem table, or a note that there is none.
pub open spec fn problems_section(tests: Seq<RunTestRow>) -> Seq<char> {
    if problem_html(tests).len() == 0 {
        "<p>No failed or mixed tests.</p>"@
    } else {
        "<table><tr><th>Verdict</th><th>Test</th></tr>"@ + problem_html(tests) + "</table>"@
    }
}

/// The link to the CI run, where the run has one.
pub open spec fn ci_link(ci_url: Option<String>) -> Seq<char> {
    match ci_url {
        Some(u) => " · <a href=\""@ + esc_spec(u@) + "\">CI run</a>"@,
        None => Seq::<char>::empty(),
    }
}

/// The body of a run's page: its commit, branch, time, CI link and key,
/// its counts by verdict and its failed or mixed tests.
pub open spec fn run_body(run: RunRow, tests: Seq<RunTestRow>) -> Seq<char> {
    "<p><code>"@ + esc_spec(run.sha@) + "</code> on <b>"@ + esc_spec(run.branch@) + "</b> · "@
        + esc_spec(run.created_at@) + " UTC"@ + ci_link(run.ci_url) + "</p>\n<p class=\"muted\">run key <code>"@ + esc_spec(run.run_key@) + "</code></p>\n<p>"@
        + decimal_spec(count_verdict(tests, Some(Verdict::Pass))) + " passed · "@ + decimal_spec(
        count_verdict(tests, Some(Verdict::Fail)),
    ) + " failed · "@ + decimal_spec(count_verdict(tests, Some(Verdict::Mixed))) + " mixed · "@
        + decimal_spec(count_verdict(tests, None)) + " skipped</p>\n"@ + problems_section(tests)
}

/// Renders the rows of the failed or mixed tests.
fn problem_rows_html(tests: &Vec<RunTestRow>) -> (r: String)
    ensures
        r@ == problem_html(tests@),
{
    let mut out = String::new();
    let n = tests.len();
    let mut i: usize = 0;
    while i < n
        invariant
            n == tests@.len(),
            i <= n,
            out@ == problem_html(tests@.take(i as int)),
        decreases n - i,
    {
        assert(tests@.take(i + 1).drop_last() =~= tests@.take(i as int));
        let t = &tests[i];
        match t.verdict {
            Some(v) => {
                if v != Verdict::Pass {
                    let ghost before = out@;
                    let label = verdict_label(v);
                    push_str(&mut out, "<tr><td class=\"verdict ");
                    push_str(&mut out, label);
                    push_str(&mut out, "\">");
                    push_str(&mut out, label);
                    push_str(&mut out, "</td>\n<td><a href=\"/tests/");
                    push_signed_decimal(&mut out, t.test_id);
                    push_str(&mut out, "\">");
                    let c = esc(t.class_name.as_str());
                    push_str(&mut out, c.as_str());
                    push_str(&mut out, "<br><code>");
                    let nm = esc(t.name.as_str());
                    push_str(&mut out, nm.as_str());
                    push_str(&mut out, "</code></a></td></tr>");
                    assert(out@ =~= before + problem_row(*t));
                }
            },
            None => {},
        }
        i += 1;
    }
    assert(tests@.take(n as int) =~= tests@);
    out
}

/// Renders the body of a run's page.
pub fn run_page_body(run: &RunRow, tests: &Vec<RunTestRow>) -> (r: String)
    ensures
        r@ == run_body(*run, tests@),
{
    let counts = run_counts(tests);
    let problems = problem_rows_html(tests);
    let mut out = String::new();
    push_str(&mut out, "<p><code>");
    let e = esc(run.sha.as_str());
    push_str(&mut out, e.as_str());
    push_str(&mut out, "</code> on <b>");
    let e = esc(run.branch.as_str());
    push_str(&mut out, e.as_str());
    push_str(&mut out, "</b> · ");
    let e = esc(run.created_at.as_str());
    push_str(&mut out, e.as_str());
    push_str(&mut out, " UTC");
    let ghost before_ci = out@;
    match &run.ci_url {
        Some(u) => {
            push_str(&mut out, " · <a href=\"");
            let e = esc(u.as_str());
            push_str(&mut out, e.as_str());
            push_str(&mut out, "\">CI run</a>");
        },
        None => {},
    }
    assert(out@ =~= before_ci + ci_link(run.ci_url));
    push_str(&mut out, "</p>\n<p class=\"muted\">run key <code>");
    let e = esc(run.run_key.as_str());
    push_str(&mut out, e.as_str());
    push_str(&mut out, "</code></p>\n<p>");
    push_decimal(&mut out, counts.passed as u64);
    push_str(&mut out, " passed · ");
    push_decimal(&mut out, counts.failed as u64);
    push_str(&mut out, " failed · ");
    push_decimal(&mut out, counts.mixed as u64);
    push_str(&mut out, " mixed · ");
    push_decimal(&mut out, counts.skipped as u64);
    push_str(&mut out, " skipped</p>\n");
    let ghost before_problems = out@;
    if problems.as_str().unicode_len() == 0 {
        push_str(&mut out, "<p>No failed or mixed tests.</p>");
    } else {
        push_str(&mut out, "<table><tr><th>Verdict</th><th>Test</th></tr>");
        push_str(&mut out, problems.as_str());
        push_str(&mut out, "</table>");
    }
    assert(out@ =~= before_problems + problems_section(tests@));
    assert(out@ =~= run_body(*run, tests@));
    out
}

/// One run of a test's history: time, verdict (or `skip`), short SHA,
/// branch and a link to the run.
pub open spec fn history_row(v: VerdictRow) -> Seq<char> {
    let label = match v.verdict {
        Some(x) => verdict_label_spec(x),
        None => "skip"@,
    };
    let class = match v.verdict {
        Some(x) => verdict_label_spec(x),
        None => "muted"@,
    };
    "<tr><td class=\"muted\">"@ + esc_spec(v.created_at@) + "</td><td class=\"verdict "@ + class
        + "\">"@ + label + "</td>\n<td><code>"@ + esc_spec(short_sha(v.sha@)) + "</code></td><td>"@
        + esc_spec(v.branch@) + "</td><td><a href=\"/runs/"@ + signed_decimal_spec(v.run_id as int)
        + "\">run #"@ + signed_decimal_spec(v.run_id as int) + "</a></td></tr>"@
}

/// The history rows of a window, in its order.
pub open spec fn history_rows(window: Seq<VerdictRow>) -> Seq<char>
    decreases window.len(),
{
    if window.len() == 0 {
        Seq::<char>::empty()
    } else {
        history_rows(window.drop_last()) + history_row(window.last())
    }
}

/// Every SHA of the window can be cut after its 9th byte.
pub open spec fn window_cuttable(window: Seq<VerdictRow>) -> bool {
    forall|i: int| 0 <= i < window.len() ==> sha_cuttable(#[trigger] window[i].sha@)
}

/// The body of a test's page: its identity, its score with the evidence,
/// and its history (newest first).
pub open spec fn test_body(test: TestRow, window: Seq<VerdictRow>, score: Score) -> Seq<char> {
    "<p><code>"@ + esc_spec(test.class_name@) + "</code> · <code>"@ + esc_spec(test.name@)
        + "</code></p>\n<p>Flaky score: <span class=\"score\">"@ + decimal_spec(score.score as nat)
        + "</span> ("@ + decimal_spec(score.flip_shas as nat) + " same-sha flip sha(s), "@
        + decimal_spec(score.flips as nat) + " cross-run flips in last "@ + decimal_spec(window.len())
        + " runs)</p>\n<table><tr><th>Time (UTC)</th><th>Verdict</th><th>SHA</th><th>Branch</th><th>Run</th></tr>"@
        + history_rows(window) + "</table>"@
}

/// Appends one history row.
fn push_history_row(out: &mut String, v: &VerdictRow)
    requires
        sha_cuttable(v.sha@),
    ensures
        final(out)@ == old(out)@ + history_row(*v),
{
    let (label, class) = match v.verdict {
        Some(x) => (verdict_label(x), verdict_label(x)),
        None => ("skip", "muted"),
    };
    push_str(out, "<tr><td class=\"muted\">");
    let e = esc(v.created_at.as_str());
    push_str(out, e.as_str());
    push_str(out, "</td><td class=\"verdict ");
    push_str(out, class);
    push_str(out, "\">");
    push_str(out, label);
    push_str(out, "</td>\n<td><code>");
    let short = cut_short_sha(v.sha.as_str());
    let e = esc(short);
    push_str(out, e.as_str());
    push_str(out, "</code></td><td>");
    let e = esc(v.branch.as_str());
    push_str(out, e.as_str());
    push_str(out, "</td><td><a href=\"/runs/");
    push_signed_decimal(out, v.run_id);
    push_str(out, "\">run #");
    push_signed_decimal(out, v.run_id);
    push_str(out, "</a></td></tr>");
    assert(final(out)@ =~= old(out)@ + history_row(*v));
}

/// Renders the history rows of a window.
fn history_rows_html(window: &Vec<VerdictRow>) -> (r: String)
    requires
        window_cuttable(window@),
    ensures
        r@ == history_rows(window@),
{
    let mut out = String::new();
    let n = window.len();
    let mut i: usize = 0;
    while i < n
        invariant
            n == window@.len(),
            i <= n,
            window_cuttable(window@),
            out@ == history_rows(window@.take(i as int)),
        decreases n - i,
    {
        assert(window@.take(i + 1).drop_last() =~= window@.take(i as int));
        assert(sha_cuttable(window@[i as int].sha@));
        push_history_row(&mut out, &window[i]);
        i += 1;
    }
    assert(window@.take(n as int) =~= window@);
    out
}

/// Renders the body of a test's page from its newest-first window and its
/// score.
pub fn test_page_body(test: &TestRow, window: &Vec<VerdictRow>, score: &Score) -> (r: String)
    requires
        window_cuttable(window@),
    ensures
        r@ == test_body(*test, window@, *score),
{
    let rows = history_rows_html(window);
    let mut out = String::new();
    push_str(&mut out, "<p><code>");
    let e = esc(test.class_name.as_str());
    push_str(&mut out, e.as_str());
    push_str(&mut out, "</code> · <code>");
    let e = esc(test.name.as_str());
    push_str(&mut out, e.as_str());
    push_str(&mut out, "</code></p>\n<p>Flaky score: <span class=\"score\">");
    push_decimal(&mut out, score.score as u64);
    push_str(&mut out, "</span> (");
    push_decimal(&mut out, score.flip_shas as u64);
    push_str(&mut out, " same-sha flip sha(s), ");
    push_decimal(&mut out, score.flips as u64);
    push_str(&mut out, " cross-run flips in last ");
    push_decimal(&mut out, window.len() as u64);
    push_str(
        &mut out,
        " runs)</p>\n<table><tr><th>Time (UTC)</th><th>Verdict</th><th>SHA</th><th>Branch</th><th>Run</th></tr>",
    );
    push_str(&mut out, rows.as_str());
    push_str(&mut out, "</table>");
    assert(out@ =~= test_body(*test, window@, *score));
    out
}

/// One flaky test: linked identity, score, trend and when it was last seen.
pub open spec fn flaky_row(f: FlakyTest) -> Seq<char> {
    "<tr><td><a href=\"/tests/"@ + signed_decimal_spec(f.test.id as int) + "\">"@ + esc_spec(
        f.test.class_name@,
    ) + "<br><code>"@ + esc_spec(f.test.name@) + "</code></a></td>\n<td class=\"score\">"@
        + decimal_spec(f.score.score as nat) + "</td><td>"@ + trend_marks(trend_rows(f.window@))
        + "</td><td class=\"muted\">"@ + esc_spec(f.last_seen@) + "</td></tr>"@
}

/// The rows of the flaky tests, in order.
pub open spec fn flaky_rows(flaky: Seq<FlakyTest>) -> Seq<char>
    decreases flaky.len(),
{
    if flaky.len() == 0 {
        Seq::<char>::empty()
    } else {
        flaky_rows(flaky.drop_last()) + flaky_row(flaky.last())
    }
}

/// The body of the flaky-test page: a table of the flaky tests, or a note
/// that there is none.
pub open spec fn flaky_body(flaky: Seq<FlakyTest>) -> Seq<char> {
    if flaky.len() == 0 {
        "<p>No flaky tests detected.</p>"@
    } else {
        "<table><tr><th>Test</th><th>Score</th><th>Trend (old → new)</th><th>Last seen</th></tr>"@
            + flaky_rows(flaky) + "</table>"@
    }
}

/// Renders the body of the flaky-test page from the ranked flaky tests.
pub fn flaky_page_body(flaky: &Vec<FlakyTest>) -> (r: String)
    requires
        forall|i: int| 0 <= i < flaky@.len() ==> trend_cuttable(#[trigger] flaky@[i].window@),
    ensures
        r@ == flaky_body(flaky@),
{
    let n = flaky.len();
    if n == 0 {
        return String::from_str("<p>No flaky tests detected.</p>");
    }
    let mut out = String::new();
    push_str(
        &mut out,
        "<table><tr><th>Test</th><th>Score</th><th>Trend (old → new)</th><th>Last seen</th></tr>",
    );
    let ghost head = out@;
    let mut i: usize = 0;
    while i < n
        invariant
            n == flaky@.len(),
            i <= n,
            forall|k: int| 0 <= k < flaky@.len() ==> trend_cuttable(#[trigger] flaky@[k].window@),
            out@ == head + flaky_rows(flaky@.take(i as int)),
        decreases n - i,
    {
        assert(flaky@.take(i + 1).drop_last() =~= flaky@.take(i as int));
        let f = &flaky[i];
        let ghost before = out@;
        push_str(&mut out, "<tr><td><a href=\"/tests/");
        push_signed_decimal(&mut out, f.test.id);
        push_str(&mut out, "\">");
        let e = esc(f.test.class_name.as_str());
        push_str(&mut out, e.as_str());
        push_str(&mut out, "<br><code>");
        let e = esc(f.test.name.as_str());
        push_str(&mut out, e.as_str());
        push_str(&mut out, "</code></a></td>\n<td class=\"score\">");
        push_decimal(&mut out, f.score.score as u64);
        push_str(&mut out, "</td><td>");
        assert(trend_cuttable(flaky@[i as int].window@));
        let t = trend(&f.window);
        push_str(&mut out, t.as_str());
        push_str(&mut out, "</td><td class=\"muted\">");
        let e = esc(f.last_seen.as_str());
        push_str(&mut out, e.as_str());
        push_str(&mut out, "</td></tr>");
        assert(out@ =~= before + flaky_row(*f));
        i += 1;
    }
    assert(flaky@.take(n as int) =~= flaky@);
    push_str(&mut out, "</table>");
    assert(out@ =~= flaky_body(flaky@));
    out
}

} // verus!
