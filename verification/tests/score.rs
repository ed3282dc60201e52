use lightning::score::{score, Score, Verdict, WindowEntry};

/// The server's weighting: 60 points for up to three same-SHA flips, 40 for
/// the rate of transitions, rounded and capped at 100.
fn weight(capped_flip_shas: usize, flips: usize, room: usize) -> u32 {
    let sha_part = 0.6 * (capped_flip_shas as f64) / 3.0;
    let flip_part = 0.4 * flips as f64 / room as f64;
    (100.0 * (sha_part + flip_part).min(1.0)).round() as u32
}

fn entry(sha: &str, verdict: Verdict) -> WindowEntry {
    WindowEntry {
        sha: sha.into(),
        verdict,
    }
}

#[test]
fn same_sha_flip_across_runs_is_flaky() {
    let s = score(&[entry("a", Verdict::Fail), entry("a", Verdict::Pass)], weight);
    assert_eq!(s.flip_shas, 1);
    assert_eq!(s.flips, 1);
    assert!(s.score >= 20, "score = {}", s.score);
}

#[test]
fn mixed_verdict_alone_is_flaky() {
    let s = score(&[entry("a", Verdict::Mixed)], weight);
    assert_eq!(s.flip_shas, 1);
    assert_eq!(s.flips, 0);
    assert_eq!(s.score, 20);
}

#[test]
fn honest_regression_scores_zero() {
    let s = score(
        &[
            entry("a", Verdict::Pass),
            entry("b", Verdict::Pass),
            entry("c", Verdict::Fail),
            entry("d", Verdict::Fail),
        ],
        weight,
    );
    assert_eq!(
        s,
        Score {
            score: 0,
            flip_shas: 0,
            flips: 1
        }
    );
}

#[test]
fn stable_pass_scores_zero() {
    let s = score(&[entry("a", Verdict::Pass), entry("b", Verdict::Pass)], weight);
    assert_eq!(s.score, 0);
}

#[test]
fn cross_sha_alternation_is_flaky() {
    let s = score(
        &[
            entry("a", Verdict::Pass),
            entry("b", Verdict::Fail),
            entry("c", Verdict::Pass),
            entry("d", Verdict::Fail),
        ],
        weight,
    );
    assert_eq!(s.flip_shas, 0);
    assert_eq!(s.flips, 3);
    assert_eq!(s.score, 40);
}

#[test]
fn score_is_capped_at_100() {
    let entries: Vec<WindowEntry> = (0..10)
        .flat_map(|i| {
            let sha = format!("s{i}");
            [entry(&sha, Verdict::Pass), entry(&sha, Verdict::Fail)]
        })
        .collect();
    assert_eq!(score(&entries, weight).score, 100);
}

#[test]
fn weighting_sees_capped_shas_and_transition_room() {
    let seen = std::cell::RefCell::new(Vec::new());
    let s = score(
        &[
            entry("a", Verdict::Mixed),
            entry("b", Verdict::Mixed),
            entry("c", Verdict::Mixed),
            entry("d", Verdict::Mixed),
            entry("e", Verdict::Pass),
        ],
        |k, f, room| {
            seen.borrow_mut().push((k, f, room));
            7
        },
    );
    assert_eq!(s.flip_shas, 4);
    assert_eq!(s.flips, 0);
    assert_eq!(s.score, 7);
    assert_eq!(seen.into_inner(), vec![(3, 0, 4)]);
}

#[test]
fn non_flaky_window_is_not_weighed() {
    let s = score(&[entry("a", Verdict::Pass), entry("b", Verdict::Fail)], |_, _, _| {
        panic!("weighed a non-flaky window")
    });
    assert_eq!(s, Score { score: 0, flip_shas: 0, flips: 1 });
}

#[test]
fn mixed_runs_do_not_break_a_transition_chain() {
    let s = score(
        &[
            entry("a", Verdict::Pass),
            entry("b", Verdict::Mixed),
            entry("c", Verdict::Pass),
            entry("d", Verdict::Fail),
        ],
        weight,
    );
    assert_eq!(s.flips, 1);
    assert_eq!(s.flip_shas, 1);
}

#[test]
fn from_counts_classifies_runs() {
    assert_eq!(Verdict::from_counts(2, 1), Some(Verdict::Mixed));
    assert_eq!(Verdict::from_counts(1, 0), Some(Verdict::Pass));
    assert_eq!(Verdict::from_counts(0, 3), Some(Verdict::Fail));
    assert_eq!(Verdict::from_counts(0, 0), None);
}
