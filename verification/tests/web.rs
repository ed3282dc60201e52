use lightning::db::{ResultPayload, RunPayload, RunTestRow, Status, TestRow, VerdictRow};
use lightning::score::{Score, Verdict};
use lightning::web::{
    accepts_run, chronological_window, esc, flaky_test, ingest_status, problem_rows, rank,
    run_counts, trend, verdict_label, window_entries, FlakyTest, RunCounts,
};

fn row(run_id: i64, sha: &str, verdict: Option<Verdict>) -> VerdictRow {
    VerdictRow {
        run_id,
        sha: sha.into(),
        branch: "main".into(),
        created_at: format!("t{run_id}"),
        verdict,
    }
}

#[test]
fn esc_escapes_html_specials() {
    assert_eq!(esc(r#"<a href="x">&</a>"#), "&lt;a href=&quot;x&quot;&gt;&amp;&lt;/a&gt;");
    assert_eq!(esc("plain"), "plain");
}

#[test]
fn verdict_labels() {
    assert_eq!(verdict_label(Verdict::Pass), "pass");
    assert_eq!(verdict_label(Verdict::Fail), "fail");
    assert_eq!(verdict_label(Verdict::Mixed), "mixed");
}

#[test]
fn trend_marks_the_last_twenty_runs_with_short_shas() {
    let mut window: Vec<VerdictRow> = (0..25)
        .map(|i| row(i, &format!("s{i:02}-abcdefgh"), Some(Verdict::Pass)))
        .collect();
    window[24] = row(24, "abc", Some(Verdict::Mixed));
    window[23] = row(23, "zzz", None);
    let t = trend(&window);
    assert_eq!(t.matches("<span").count(), 19);
    assert!(!t.contains("s04-"));
    assert!(t.contains(r#"title="pass on s05-abcde""#));
    assert!(t.ends_with(r#"<span class="v mixed" title="mixed on abc"></span>"#));
}

#[test]
fn window_is_made_chronological_without_skipped_runs() {
    let newest_first = vec![
        row(3, "c", Some(Verdict::Fail)),
        row(2, "b", None),
        row(1, "a", Some(Verdict::Pass)),
    ];
    let w = chronological_window(newest_first);
    assert_eq!(w.iter().map(|r| r.run_id).collect::<Vec<_>>(), vec![1, 3]);
    let e = window_entries(&w);
    assert_eq!(e[0].sha, "a");
    assert_eq!(e[1].verdict, Verdict::Fail);
}

fn test_row(id: i64) -> TestRow {
    TestRow {
        id,
        class_name: "C".into(),
        name: format!("t{id}"),
    }
}

fn scored(id: i64, score: u32) -> FlakyTest {
    flaky_test(
        test_row(id),
        vec![row(1, "a", Some(Verdict::Mixed))],
        Score {
            score,
            flip_shas: 1,
            flips: 0,
        },
    )
    .unwrap()
}

#[test]
fn only_positive_scores_are_listed_and_last_seen_is_newest() {
    assert!(flaky_test(test_row(1), vec![], Score { score: 0, flip_shas: 0, flips: 1 }).is_none());
    let f = flaky_test(
        test_row(2),
        vec![row(1, "a", Some(Verdict::Pass)), row(2, "a", Some(Verdict::Fail))],
        Score { score: 30, flip_shas: 1, flips: 1 },
    )
    .unwrap();
    assert_eq!(f.last_seen, "t2");
    let g = flaky_test(test_row(3), vec![], Score { score: 5, flip_shas: 1, flips: 0 }).unwrap();
    assert_eq!(g.last_seen, "");
}

#[test]
fn rank_orders_by_descending_score_stably() {
    let ranked = rank(vec![scored(1, 20), scored(2, 60), scored(3, 20), scored(4, 100)]);
    assert_eq!(
        ranked.iter().map(|f| f.test.id).collect::<Vec<_>>(),
        vec![4, 2, 1, 3]
    );
}

fn run_test(id: i64, verdict: Option<Verdict>) -> RunTestRow {
    RunTestRow {
        test_id: id,
        class_name: "C".into(),
        name: format!("t{id}"),
        verdict,
    }
}

#[test]
fn run_counts_and_problems() {
    let tests = vec![
        run_test(1, Some(Verdict::Pass)),
        run_test(2, Some(Verdict::Fail)),
        run_test(3, None),
        run_test(4, Some(Verdict::Mixed)),
        run_test(5, Some(Verdict::Pass)),
    ];
    assert_eq!(
        run_counts(&tests),
        RunCounts {
            passed: 2,
            failed: 1,
            mixed: 1,
            skipped: 1
        }
    );
    assert_eq!(problem_rows(&tests), vec![1, 3]);
}

#[test]
fn uploads_need_key_sha_and_branch() {
    let mut p = RunPayload {
        run_key: "k".into(),
        sha: "s".into(),
        branch: "b".into(),
        ci_url: None,
        results: vec![ResultPayload {
            class_name: "C".into(),
            name: "t".into(),
            status: Status::Pass,
            time_ms: 0,
            message: None,
        }],
    };
    assert!(accepts_run(&p));
    p.branch = String::new();
    assert!(!accepts_run(&p));
    assert_eq!(ingest_status(true), 200);
    assert_eq!(ingest_status(false), 201);
}
