use lightning::db::{RunRow, RunTestRow, TestRow, VerdictRow};
use lightning::pages::{flaky_page_body, page, run_page_body, test_page_body};
use lightning::score::{Score, Verdict};
use lightning::web::FlakyTest;

fn verdict_row(run_id: i64, sha: &str, verdict: Option<Verdict>) -> VerdictRow {
    VerdictRow {
        run_id,
        sha: sha.into(),
        branch: "main".into(),
        created_at: format!("t{run_id}"),
        verdict,
    }
}

fn run_test(test_id: i64, class_name: &str, verdict: Option<Verdict>) -> RunTestRow {
    RunTestRow {
        test_id,
        class_name: class_name.into(),
        name: "works".into(),
        verdict,
    }
}

#[test]
fn page_escapes_the_title_and_keeps_the_body() {
    let html = page("a<b", "<p>x</p>");
    assert!(html.starts_with("<!doctype html>\n<html lang=\"en\">\n"));
    assert!(html.contains("<title>a&lt;b — lightning</title>"));
    assert!(html.contains("<h1><a href=\"/\">lightning</a> · a&lt;b</h1>\n<p>x</p>\n</body>\n</html>\n"));
    assert!(html.contains(".muted { color: #666; }\n</style>"));
    assert!(html.ends_with("</html>\n"));
}

#[test]
fn run_page_lists_counts_and_problems() {
    let run = RunRow {
        run_key: "k1".into(),
        sha: "abc".into(),
        branch: "main".into(),
        ci_url: Some("https://ci/1?a&b".into()),
        created_at: "2024-01-01 00:00:00".into(),
    };
    let tests = vec![
        run_test(1, "A", Some(Verdict::Pass)),
        run_test(2, "B", Some(Verdict::Fail)),
        run_test(3, "C<", Some(Verdict::Mixed)),
        run_test(4, "D", None),
    ];
    let body = run_page_body(&run, &tests);
    let expected = "<p><code>abc</code> on <b>main</b> · 2024-01-01 00:00:00 UTC · <a href=\"https://ci/1?a&amp;b\">CI run</a></p>\n\
<p class=\"muted\">run key <code>k1</code></p>\n\
<p>1 passed · 1 failed · 1 mixed · 1 skipped</p>\n\
<table><tr><th>Verdict</th><th>Test</th></tr>\
<tr><td class=\"verdict fail\">fail</td>\n<td><a href=\"/tests/2\">B<br><code>works</code></a></td></tr>\
<tr><td class=\"verdict mixed\">mixed</td>\n<td><a href=\"/tests/3\">C&lt;<br><code>works</code></a></td></tr>\
</table>";
    assert_eq!(body, expected);
}

#[test]
fn run_page_without_problems_or_ci_link() {
    let run = RunRow {
        run_key: "k".into(),
        sha: "s".into(),
        branch: "b".into(),
        ci_url: None,
        created_at: "t".into(),
    };
    let body = run_page_body(&run, &vec![run_test(7, "A", Some(Verdict::Pass))]);
    assert_eq!(
        body,
        "<p><code>s</code> on <b>b</b> · t UTC</p>\n<p class=\"muted\">run key <code>k</code></p>\n\
<p>1 passed · 0 failed · 0 mixed · 0 skipped</p>\n<p>No failed or mixed tests.</p>"
    );
}

#[test]
fn test_page_shows_score_and_history() {
    let test = TestRow { id: 5, class_name: "com.X".into(), name: "t()".into() };
    let window = vec![
        verdict_row(12, "0123456789abc", Some(Verdict::Fail)),
        verdict_row(11, "short", None),
    ];
    let score = Score { score: 47, flip_shas: 1, flips: 0 };
    let body = test_page_body(&test, &window, &score);
    let expected = "<p><code>com.X</code> · <code>t()</code></p>\n\
<p>Flaky score: <span class=\"score\">47</span> (1 same-sha flip sha(s), 0 cross-run flips in last 2 runs)</p>\n\
<table><tr><th>Time (UTC)</th><th>Verdict</th><th>SHA</th><th>Branch</th><th>Run</th></tr>\
<tr><td class=\"muted\">t12</td><td class=\"verdict fail\">fail</td>\n\
<td><code>012345678</code></td><td>main</td><td><a href=\"/runs/12\">run #12</a></td></tr>\
<tr><td class=\"muted\">t11</td><td class=\"verdict muted\">skip</td>\n\
<td><code>short</code></td><td>main</td><td><a href=\"/runs/11\">run #11</a></td></tr>\
</table>";
    assert_eq!(body, expected);
}

#[test]
fn flaky_page_lists_ranked_tests_with_trends() {
    assert_eq!(flaky_page_body(&vec![]), "<p>No flaky tests detected.</p>");
    let f = FlakyTest {
        test: TestRow { id: -3, class_name: "A&B".into(), name: "n".into() },
        score: Score { score: 80, flip_shas: 2, flips: 3 },
        last_seen: "yesterday".into(),
        window: vec![
            verdict_row(1, "aaaaaaaaaaaa", Some(Verdict::Pass)),
            verdict_row(2, "bbb", None),
            verdict_row(3, "ccc", Some(Verdict::Mixed)),
        ],
    };
    let body = flaky_page_body(&vec![f]);
    let expected = "<table><tr><th>Test</th><th>Score</th><th>Trend (old → new)</th><th>Last seen</th></tr>\
<tr><td><a href=\"/tests/-3\">A&amp;B<br><code>n</code></a></td>\n<td class=\"score\">80</td><td>\
<span class=\"v pass\" title=\"pass on aaaaaaaaa\"></span><span class=\"v mixed\" title=\"mixed on ccc\"></span>\
</td><td class=\"muted\">yesterday</td></tr></table>";
    assert_eq!(body, expected);
}
