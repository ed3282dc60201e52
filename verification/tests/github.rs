use lightning::github::{
    comments_url, escape_cell, flaky_comment_body, next_page_url, upsert_action, Comment,
    CommentAction, FlakyItem, PrContext, API_BASE,
};
use lightning::junit::{Status, TestResult};

#[test]
fn escape_cell_escapes_pipe() {
    assert_eq!(escape_cell("a|b"), r"a\|b");
    assert_eq!(escape_cell("plain"), "plain");
}

fn ctx() -> PrContext {
    PrContext::for_test("o/r", 7, "tok")
}

#[test]
fn creates_comment_when_marker_absent() {
    let action = upsert_action("http://h", &ctx(), &vec![], "<!-- m -->", "hello");
    match action {
        CommentAction::Create { url, body } => {
            assert_eq!(url, "http://h/repos/o/r/issues/7/comments");
            assert_eq!(body, "<!-- m -->\nhello");
        }
        other => panic!("unexpected {other:?}"),
    }
}

#[test]
fn patches_existing_comment_when_marker_present() {
    let comments = vec![
        Comment { id: 1, body: "unrelated".into() },
        Comment { id: 42, body: "<!-- m -->\nold".into() },
        Comment { id: 43, body: "<!-- m -->\nolder".into() },
    ];
    let action = upsert_action("http://h", &ctx(), &comments, "<!-- m -->", "new");
    match action {
        CommentAction::Update { url, body } => {
            assert_eq!(url, "http://h/repos/o/r/issues/comments/42");
            assert_eq!(body, "<!-- m -->\nnew");
        }
        other => panic!("unexpected {other:?}"),
    }
}

#[test]
fn follows_pagination_to_find_marker_on_a_later_page() {
    let page2 = "http://h/repos/o/r/issues/7/comments?per_page=100&page=2";
    let link = format!(r#"<{page2}>; rel="next", <http://h/last>; rel="last""#);
    assert_eq!(next_page_url(Some(&link)).as_deref(), Some(page2));
    assert_eq!(next_page_url(Some(r#"<http://h/1>; rel="prev""#)), None);
    assert_eq!(next_page_url(None), None);
    assert_eq!(
        next_page_url(Some(r#"<http://h/a>; rel="prev", <http://h/b>; rel="next""#)).as_deref(),
        Some("http://h/b")
    );
}

#[test]
fn comments_are_listed_100_per_page() {
    assert_eq!(
        comments_url(API_BASE, &ctx()),
        "https://api.github.com/repos/o/r/issues/7/comments?per_page=100"
    );
}

#[test]
fn context_needs_a_pull_request_event_with_token_and_number() {
    let event = Some(r#"{"pull_request":{"number":12}}"#.to_string());
    let c = PrContext::resolve(
        Some("pull_request".into()),
        Some("o/r".into()),
        Some("tok".into()),
        event.clone(),
    )
    .unwrap();
    assert_eq!(c.repo(), "o/r");
    assert_eq!(c.pr_number(), 12);
    assert_eq!(c.token(), "tok");
    assert!(PrContext::resolve(Some("push".into()), Some("o/r".into()), Some("t".into()), event.clone()).is_none());
    assert!(PrContext::resolve(Some("pull_request".into()), Some("o/r".into()), Some("".into()), event.clone()).is_none());
    assert!(PrContext::resolve(Some("pull_request".into()), Some("o/r".into()), Some("t".into()), None).is_none());
    assert!(PrContext::resolve(
        Some("pull_request".into()),
        Some("o/r".into()),
        Some("t".into()),
        Some("{}".into())
    )
    .is_none());
}

fn result(class_name: &str, name: &str) -> TestResult {
    TestResult {
        class_name: class_name.into(),
        name: name.into(),
        status: Status::Pass,
        time_ms: 1,
        message: None,
    }
}

fn flaky(test_id: i64, class_name: &str, name: &str, score: i64) -> FlakyItem {
    FlakyItem {
        test_id,
        class_name: class_name.into(),
        name: name.into(),
        score,
    }
}

#[test]
fn flaky_comment_body_lists_matching_tests() {
    let list = vec![flaky(1, "com.Foo", "bar", 40), flaky(2, "com.Other", "baz", 30)];
    let results = vec![result("com.Foo", "bar")];
    let body = flaky_comment_body("http://server/", &results, &list);
    assert!(body.contains("1 flaky test(s)"));
    assert!(body.contains("com.Foo"));
    assert!(body.contains("bar"));
    assert!(!body.contains("com.Other"));
    assert!(body.contains("| `com.Foo` `bar` | 40 | [details](http://server/tests/1) |\n"));
}

#[test]
fn flaky_comment_body_states_no_flaky_tests_explicitly() {
    let list = vec![flaky(1, "com.Foo", "bar", 40)];
    let results = vec![result("com.Unrelated", "test")];
    let body = flaky_comment_body("http://server", &results, &list);
    assert!(body.contains("no flaky tests observed"));
}

#[test]
fn flaky_comment_matches_trimmed_identities_and_skips_zero_scores() {
    let list = vec![flaky(3, " com.A|B ", "t", 5), flaky(4, "com.C", "u", 0)];
    let results = vec![result("com.A|B", " t "), result("com.C", "u")];
    let body = flaky_comment_body("http://s", &results, &list);
    assert!(body.starts_with("⚡ **lightning flaky check**: 1 flaky test(s) in this run\n\n"));
    assert!(body.contains(r"` com.A\|B `"));
    assert!(!body.contains("com.C"));
}

#[test]
fn rerunning_with_the_same_marker_updates_the_created_comment() {
    let first = upsert_action("http://h", &ctx(), &vec![Comment { id: 5, body: "other".into() }], "<!-- m -->", "v1");
    let created_body = match first {
        CommentAction::Create { body, .. } => body,
        other => panic!("unexpected {other:?}"),
    };
    let listed = vec![
        Comment { id: 5, body: "other".into() },
        Comment { id: 77, body: created_body },
    ];
    match upsert_action("http://h", &ctx(), &listed, "<!-- m -->", "v2") {
        CommentAction::Update { url, body } => {
            assert_eq!(url, "http://h/repos/o/r/issues/comments/77");
            assert_eq!(body, "<!-- m -->\nv2");
        }
        other => panic!("unexpected {other:?}"),
    }
}

#[test]
fn escaped_cells_unescape_to_their_text() {
    for s in ["a|b", "\\|", "||", "plain", "", "x\\"] {
        let e = escape_cell(s);
        assert_eq!(e.replace("\\|", "|"), s);
        assert_eq!(e.len(), s.len() + s.matches('|').count());
    }
}
