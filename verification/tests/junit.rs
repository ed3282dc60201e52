use lightning::junit::{parse, Status};
use lightning::junit::{results_of_elements, XmlElement, XmlTag};

/// Seconds as decimal text to whole milliseconds, 0 when unparsable.
fn time_ms(t: &str) -> u64 {
    t.parse::<f64>()
        .ok()
        .map(|t| (t * 1000.0).round().max(0.0) as u64)
        .unwrap_or(0)
}

#[test]
fn parses_statuses_and_metadata() {
    let xml = r#"<?xml version="1.0"?>
<testsuite name="com.example.FooTest" tests="4" time="1.5">
  <testcase classname="com.example.FooTest" name="passes" time="0.123"/>
  <testcase classname="com.example.FooTest" name="fails" time="0.5">
    <failure message="expected 1 but was 2" type="AssertionError">stack</failure>
  </testcase>
  <testcase classname="com.example.FooTest" name="errors" time="0">
    <error message="boom"/>
  </testcase>
  <testcase classname="com.example.FooTest" name="skipped">
    <skipped/>
  </testcase>
</testsuite>"#;
    let r = parse(xml, time_ms).unwrap();
    assert_eq!(r.len(), 4);
    assert_eq!(r[0].status, Status::Pass);
    assert_eq!(r[0].time_ms, 123);
    assert_eq!(r[1].status, Status::Fail);
    assert_eq!(r[1].message.as_deref(), Some("expected 1 but was 2"));
    assert_eq!(r[2].status, Status::Error);
    assert_eq!(r[3].status, Status::Skip);
    assert_eq!(r[3].time_ms, 0);
}

#[test]
fn falls_back_to_suite_name_for_class() {
    let xml = r#"<testsuites><testsuite name="OuterSuite">
  <testcase name="works" time="0.01"/>
</testsuite></testsuites>"#;
    let r = parse(xml, time_ms).unwrap();
    assert_eq!(r[0].class_name, "OuterSuite");
    assert_eq!(r[0].name, "works");
}

#[test]
fn rejects_malformed_xml() {
    assert!(parse("<testsuite><testcase", time_ms).is_err());
}

#[test]
fn messages_are_cut_and_markers_outside_cases_ignored() {
    let long = "x".repeat(5000);
    let xml = format!(
        r#"<testsuite name="S"><failure message="stray"/><testcase name="t"><failure message="{long}"/></testcase></testsuite>"#
    );
    let r = parse(&xml, time_ms).unwrap();
    assert_eq!(r.len(), 1);
    assert_eq!(r[0].class_name, "S");
    assert_eq!(r[0].status, Status::Fail);
    assert_eq!(r[0].message.as_ref().unwrap().chars().count(), 4000);
    assert_eq!(r[0].time_ms, 0);
}

#[test]
fn nested_suites_restore_the_outer_name() {
    let xml = r#"<testsuite name="A"><testsuite name="B"><testcase name="x"/></testsuite><testcase name="y"/></testsuite>"#;
    let r = parse(xml, time_ms).unwrap();
    assert_eq!(r[0].class_name, "B");
    assert_eq!(r[1].class_name, "A");
}


fn tag(name: &str, attrs: &[(&str, Option<&str>)]) -> XmlTag {
    XmlTag {
        name: name.into(),
        attrs: attrs
            .iter()
            .map(|(k, v)| ((*k).to_string(), v.map(str::to_string)))
            .collect(),
    }
}

#[test]
fn elements_walk_uses_the_first_attribute_with_a_value() {
    let elements = vec![
        XmlElement::Start(tag("testsuite", &[("name", Some("Suite"))])),
        XmlElement::Start(tag("testcase", &[("name", None), ("name", Some("second")), ("time", Some("0.25"))])),
        XmlElement::Empty(tag("error", &[("message", Some("boom"))])),
        XmlElement::Empty(tag("skipped", &[])),
        XmlElement::End("testcase".into()),
        XmlElement::Other,
        XmlElement::End("testsuite".into()),
        XmlElement::Empty(tag("testcase", &[("classname", Some("K")), ("name", Some("after"))])),
    ];
    let r = results_of_elements(&elements, time_ms);
    assert_eq!(r.len(), 2);
    assert_eq!(r[0].class_name, "Suite");
    assert_eq!(r[0].name, "second");
    assert_eq!(r[0].time_ms, 250);
    assert_eq!(r[0].status, Status::Skip);
    assert_eq!(r[0].message, None);
    assert_eq!(r[1].class_name, "K");
    assert_eq!(r[1].status, Status::Pass);
}
