//! JUnit XML reports flattened into test results.
//!
//! The document is read with quick-xml into a list of element events; the
//! walk over those events (suites, test cases, their failure, error and
//! skip markers) is this module's own. Test times are given in seconds as
//! decimal text; turning that text into milliseconds is the caller's.

use vstd::prelude::*;
use quick_xml::events::{BytesStart, Event};
use quick_xml::{Reader, XmlVersion};
use crate::text::{str_eq, chars_of, string_of, has_prefix};

verus! {

/// Messages are cut to this many characters.
pub const MAX_MESSAGE_LEN: usize = 4000;

/// Outcome of one test case.
#[derive(Debug, Clone, Copy, PartialEq, Eq, Structural)]
pub enum Status {
    Pass,
    Fail,
    Error,
    Skip,
}

/// One test case of a report.
#[derive(Debug, Clone)]
pub struct TestResult {
    pub class_name: String,
    pub name: String,
    pub status: Status,
    pub time_ms: u64,
    pub message: Option<String>,
}

/// One event as the reader gives it: a start or empty element's name and
/// its raw content (name and attributes), an end element's name.
#[derive(Debug, Clone)]
pub enum RawXml {
    Start(String, String),
    Empty(String, String),
    End(String),
    Other,
}

/// The events quick-xml reads from the document before its end, or the
/// text of the first reader error.
pub uninterp spec fn xml_raw_of(xml: Seq<char>) -> Result<Seq<RawXml>, Seq<char>>;

/// The attributes quick-xml reads from an element's raw content whose name
/// is `name`: key and value normalized as XML 1.0, absent where that fails.
pub uninterp spec fn tag_attributes_of(content: Seq<char>, name: Seq<char>) -> Seq<(String, Option<String>)>;

/// A start or empty element's raw content begins with its name.
pub open spec fn name_leads(ev: RawXml) -> bool {
    match ev {
        RawXml::Start(n, c) => has_prefix(c@, n@),
        RawXml::Empty(n, c) => has_prefix(c@, n@),
        _ => true,
    }
}

/// The view of a reading outcome.
pub open spec fn raw_outcome(r: Result<Vec<RawXml>, String>) -> Result<Seq<RawXml>, Seq<char>> {
    match r {
        Ok(v) => Ok(v@),
        Err(m) => Err(m@),
    }
}

/// Reads `xml` with `quick_xml::Reader::from_str` and `read_event` up to
/// the end of the document, keeping each start and empty element's name
/// and raw content and each end element's name; the contract names the
/// outcome for the document text. An element's name is the start of its
/// raw content (`BytesStart::name` is the content's first `name_len`
/// bytes).
#[verifier::external_body]
fn xml_raw_events(xml: &str) -> (r: Result<Vec<RawXml>, String>)
    ensures
        raw_outcome(r) == xml_raw_of(xml@),
        r matches Ok(v) ==> forall|i: int| 0 <= i < v@.len() ==> name_leads(#[trigger] v@[i]),
{
    let mut reader = Reader::from_str(xml);
    let mut events = vec![];
    loop {
        events.push(match reader.read_event().map_err(|e| e.to_string())? {
            Event::Start(e) => RawXml::Start(e.name().as_ref().to_string(), e.to_string()),
            Event::Empty(e) => RawXml::Empty(e.name().as_ref().to_string(), e.to_string()),
            Event::End(e) => RawXml::End(e.name().as_ref().to_string()),
            Event::Eof => return Ok(events),
            _ => RawXml::Other,
        });
    }
}

/// The attributes of an element with raw content `content` and name
/// `name`, read with `BytesStart::from_content` and `attributes`, each
/// value normalized with `normalized_value` for XML 1.0; the contract names
/// the list for the two texts. The content starts with the name, so that
/// the attribute reader starts at a character boundary.
#[verifier::external_body]
fn tag_attributes(content: &str, name: &str) -> (r: Vec<(String, Option<String>)>)
    requires
        has_prefix(content@, name@),
    ensures
        r@ == tag_attributes_of(content@, name@),
{
    BytesStart::from_content(content, name.len()).attributes().flatten().map(|a| (
        a.key.as_ref().to_string(),
        a.normalized_value(XmlVersion::Implicit1_0).ok().map(|v| v.into_owned()),
    )).collect()
}

/// The value of the first attribute named `key` that has a value.
pub open spec fn attr_spec(attrs: Seq<(String, Option<String>)>, key: Seq<char>) -> Option<Seq<char>>
    decreases attrs.len(),
{
    if attrs.len() == 0 {
        None
    } else if attrs[0].0@ == key && attrs[0].1 is Some {
        Some(attrs[0].1->0@)
    } else {
        attr_spec(attrs.drop_first(), key)
    }
}

/// A test case under construction: class, name, time text, status, message.
pub type CaseSpec = (Seq<char>, Seq<char>, Option<Seq<char>>, Status, Option<Seq<char>>);

/// The walk's state: open suite names, the open test case, results so far.
pub type WalkSpec = (Seq<Seq<char>>, Option<CaseSpec>, Seq<CaseSpec>);

/// The status a marker element gives its test case.
pub open spec fn marker_status(name: Seq<char>) -> Status {
    if name == "failure"@ {
        Status::Fail
    } else if name == "error"@ {
        Status::Error
    } else {
        Status::Skip
    }
}

/// Element `name` marks the open test case.
pub open spec fn is_marker(name: Seq<char>) -> bool {
    name == "failure"@ || name == "error"@ || name == "skipped"@
}

/// `s` cut to at most `MAX_MESSAGE_LEN` characters.
pub open spec fn cut_message(s: Seq<char>) -> Seq<char> {
    if s.len() <= MAX_MESSAGE_LEN {
        s
    } else {
        s.take(MAX_MESSAGE_LEN as int)
    }
}

/// The state after a start (`empty == false`) or empty element named
/// `name` with attributes `attrs`.
pub open spec fn open_step(w: WalkSpec, name: Seq<char>, attrs: Seq<(String, Option<String>)>, empty: bool) -> WalkSpec {
    let (suites, case, results) = w;
    if name == "testsuite"@ && !empty {
        (suites.push(attr_spec(attrs, "name"@).unwrap_or(Seq::<char>::empty())), case, results)
    } else if name == "testcase"@ {
        let class_name = match attr_spec(attrs, "classname"@) {
            Some(c) => c,
            None => if suites.len() > 0 {
                suites.last()
            } else {
                Seq::<char>::empty()
            },
        };
        let case_name = attr_spec(attrs, "name"@).unwrap_or(Seq::<char>::empty());
        let c = (class_name, case_name, attr_spec(attrs, "time"@), Status::Pass, None::<Seq<char>>);
        if empty {
            (suites, case, results.push(c))
        } else {
            (suites, Some(c), results)
        }
    } else if is_marker(name) && case is Some {
        let c = case->0;
        let message = match attr_spec(attrs, "message"@) {
            Some(m) => Some(cut_message(m)),
            None => None,
        };
        (suites, Some((c.0, c.1, c.2, marker_status(name), message)), results)
    } else {
        w
    }
}

/// The state after the end of element `name`.
pub open spec fn close_step(w: WalkSpec, name: Seq<char>) -> WalkSpec {
    let (suites, case, results) = w;
    if name == "testsuite"@ {
        (if suites.len() > 0 {
            suites.drop_last()
        } else {
            suites
        }, case, results)
    } else if name == "testcase"@ {
        match case {
            Some(c) => (suites, None, results.push(c)),
            None => w,
        }
    } else {
        w
    }
}

/// The state after one event.
pub open spec fn walk_step(w: WalkSpec, e: RawXml) -> WalkSpec {
    match e {
        RawXml::Start(n, c) => open_step(w, n@, tag_attributes_of(c@, n@), false),
        RawXml::Empty(n, c) => open_step(w, n@, tag_attributes_of(c@, n@), true),
        RawXml::End(n) => close_step(w, n@),
        RawXml::Other => w,
    }
}

/// The state after all of `events`.
pub open spec fn walk(events: Seq<RawXml>) -> WalkSpec
    decreases events.len(),
{
    if events.len() == 0 {
        (Seq::<Seq<char>>::empty(), None, Seq::<CaseSpec>::empty())
    } else {
        walk_step(walk(events.drop_last()), events.last())
    }
}

/// The test cases of an event list, in document order.
pub open spec fn cases_of(events: Seq<RawXml>) -> Seq<CaseSpec> {
    walk(events).2
}

/// An element's name and its attributes as read.
#[derive(Debug, Clone)]
pub struct XmlTag {
    pub name: String,
    pub attrs: Vec<(String, Option<String>)>,
}

/// An element event with its attributes read.
#[derive(Debug, Clone)]
pub enum XmlElement {
    Start(XmlTag),
    Empty(XmlTag),
    End(String),
    Other,
}

/// `e` is the raw event `r` with its attributes read.
pub open spec fn read_element(r: RawXml, e: XmlElement) -> bool {
    match (r, e) {
        (RawXml::Start(n, c), XmlElement::Start(t)) => t.name@ == n@ && t.attrs@ == tag_attributes_of(
            c@,
            n@,
        ),
        (RawXml::Empty(n, c), XmlElement::Empty(t)) => t.name@ == n@ && t.attrs@ == tag_attributes_of(
            c@,
            n@,
        ),
        (RawXml::End(n), XmlElement::End(m)) => m@ == n@,
        (RawXml::Other, XmlElement::Other) => true,
        _ => false,
    }
}

/// The state after one element.
pub open spec fn element_step(w: WalkSpec, e: XmlElement) -> WalkSpec {
    match e {
        XmlElement::Start(t) => open_step(w, t.name@, t.attrs@, false),
        XmlElement::Empty(t) => open_step(w, t.name@, t.attrs@, true),
        XmlElement::End(n) => close_step(w, n@),
        XmlElement::Other => w,
    }
}

/// The state after all of `elements`.
pub open spec fn walk_elements(elements: Seq<XmlElement>) -> WalkSpec
    decreases elements.len(),
{
    if elements.len() == 0 {
        (Seq::<Seq<char>>::empty(), None, Seq::<CaseSpec>::empty())
    } else {
        element_step(walk_elements(elements.drop_last()), elements.last())
    }
}

/// The test cases of an element list, in document order.
pub open spec fn cases_of_elements(elements: Seq<XmlElement>) -> Seq<CaseSpec> {
    walk_elements(elements).2
}

/// Reading the attributes does not change the walk.
proof fn lemma_walk_read(raw: Seq<RawXml>, elements: Seq<XmlElement>)
    requires
        raw.len() == elements.len(),
        forall|i: int| 0 <= i < raw.len() ==> read_element(#[trigger] raw[i], elements[i]),
    ensures
        walk(raw) == walk_elements(elements),
    decreases raw.len(),
{
    if raw.len() > 0 {
        let (r0, e0) = (raw.drop_last(), elements.drop_last());
        assert forall|i: int| 0 <= i < r0.len() implies read_element(#[trigger] r0[i], e0[i]) by {
            assert(raw[i] == r0[i] && elements[i] == e0[i]);
        }
        lemma_walk_read(r0, e0);
        assert(read_element(raw[raw.len() - 1], elements[raw.len() - 1]));
    }
}

/// The result `r` is case `c`, its time given by `time_ms` where the case
/// has a time attribute and 0 where it has none.
pub open spec fn result_matches<F: Fn(&str) -> u64>(r: TestResult, c: CaseSpec, time_ms: F) -> bool {
    &&& r.class_name@ == c.0
    &&& r.name@ == c.1
    &&& r.status == c.3
    &&& match r.message {
        Some(m) => c.4 == Some(m@),
        None => c.4 is None,
    }
    &&& match c.2 {
        Some(t) => exists|s: &str| s@ == t && #[trigger] time_ms.ensures((s,), r.time_ms),
        None => r.time_ms == 0,
    }
}

/// An open test case as the walk holds it.
type OpenCase = (String, String, Option<String>, Status, Option<String>);

/// The view of an open test case.
pub open spec fn case_view(c: (String, String, Option<String>, Status, Option<String>)) -> CaseSpec {
    (
        c.0@,
        c.1@,
        match c.2 {
            Some(t) => Some(t@),
            None => None,
        },
        c.3,
        match c.4 {
            Some(m) => Some(m@),
            None => None,
        },
    )
}

/// The views of a list of test cases.
pub open spec fn cases_view(v: Seq<(String, String, Option<String>, Status, Option<String>)>) -> Seq<CaseSpec> {
    v.map_values(|c: (String, String, Option<String>, Status, Option<String>)| case_view(c))
}

/// The value of the first attribute named `key` that has one.
fn attr(attrs: &Vec<(String, Option<String>)>, key: &str) -> (r: Option<String>)
    ensures
        match r {
            Some(v) => attr_spec(attrs@, key@) == Some(v@),
            None => attr_spec(attrs@, key@) is None,
        },
{
    let n = attrs.len();
    let mut i: usize = 0;
    assert(attrs@.skip(0) =~= attrs@);
    while i < n
        invariant
            n == attrs@.len(),
            i <= n,
            attr_spec(attrs@, key@) == attr_spec(attrs@.skip(i as int), key@),
        decreases n - i,
    {
        assert(attrs@.skip(i as int).drop_first() =~= attrs@.skip(i + 1));
        let (k, v) = &attrs[i];
        if str_eq(k.as_str(), key) {
            match v {
                Some(value) => {
                    return Some(value.clone());
                },
                None => {},
            }
        }
        i += 1;
    }
    None
}

/// `s` cut to at most `MAX_MESSAGE_LEN` characters.
fn cut(s: String) -> (r: String)
    ensures
        r@ == cut_message(s@),
{
    let cs = chars_of(s.as_str());
    if cs.len() <= MAX_MESSAGE_LEN {
        s
    } else {
        let mut kept: Vec<char> = Vec::new();
        let mut i: usize = 0;
        while i < MAX_MESSAGE_LEN
            invariant
                cs@ == s@,
                MAX_MESSAGE_LEN < cs@.len(),
                i <= MAX_MESSAGE_LEN,
                kept@ == cs@.take(i as int),
            decreases MAX_MESSAGE_LEN - i,
        {
            kept.push(cs[i]);
            assert(cs@.take(i as int).push(cs@[i as int]) =~= cs@.take(i + 1));
            i += 1;
        }
        string_of(kept.as_slice())
    }
}

/// The optional view of an optional string.
pub open spec fn opt_seq(o: Option<String>) -> Option<Seq<char>> {
    match o {
        Some(s) => Some(s@),
        None => None,
    }
}

/// A copy of an optional string.
fn clone_opt(o: &Option<String>) -> (r: Option<String>)
    ensures
        opt_seq(r) == opt_seq(*o),
{
    match o {
        Some(s) => Some(s.clone()),
        None => None,
    }
}

/// The walk's cases over `events`: the results of `walk`, as strings.
fn walk_events(events: &Vec<XmlElement>) -> (r: Vec<OpenCase>)
    ensures
        cases_view(r@) == cases_of_elements(events@),
{
    let mut suites: Vec<String> = Vec::new();
    let mut case: Option<OpenCase> = None;
    let mut results: Vec<OpenCase> = Vec::new();
    let n = events.len();
    let mut i: usize = 0;
    while i < n
        invariant
            n == events@.len(),
            i <= n,
            walk_elements(events@.take(i as int)) == (
                suites@.map_values(|s: String| s@),
                match case {
                    Some(c) => Some(case_view(c)),
                    None => None,
                },
                cases_view(results@),
            ),
        decreases n - i,
    {
        let ghost before = walk_elements(events@.take(i as int));
        assert(events@.take(i + 1).drop_last() =~= events@.take(i as int));
        let (open, empty) = match &events[i] {
            XmlElement::Start(tag) => (Some(tag), false),
            XmlElement::Empty(tag) => (Some(tag), true),
            _ => (None, false),
        };
        match open {
            Some(tag) => {
                let tag_name = &tag.name;
                let attrs = &tag.attrs;
                if str_eq(tag_name.as_str(), "testsuite") && !empty {
                    let name = match attr(attrs, "name") {
                        Some(v) => v,
                        None => String::new(),
                    };
                    suites.push(name);
                    assert(suites@.map_values(|s: String| s@) =~= before.0.push(
                        attr_spec(attrs@, "name"@).unwrap_or(Seq::<char>::empty()),
                    ));
                } else if str_eq(tag_name.as_str(), "testcase") {
                    let class_name = match attr(attrs, "classname") {
                        Some(c) => c,
                        None => if suites.len() > 0 {
                            suites[suites.len() - 1].clone()
                        } else {
                            String::new()
                        },
                    };
                    let name = match attr(attrs, "name") {
                        Some(v) => v,
                        None => String::new(),
                    };
                    let time = attr(attrs, "time");
                    let c: OpenCase = (class_name, name, time, Status::Pass, None);
                    if empty {
                        results.push(c);
                        assert(cases_view(results@) =~= before.2.push(case_view(c)));
                    } else {
                        case = Some(c);
                    }
                } else if (str_eq(tag_name.as_str(), "failure") || str_eq(tag_name.as_str(), "error")
                    || str_eq(tag_name.as_str(), "skipped")) && case.is_some() {
                    let status = if str_eq(tag_name.as_str(), "failure") {
                        Status::Fail
                    } else if str_eq(tag_name.as_str(), "error") {
                        Status::Error
                    } else {
                        Status::Skip
                    };
                    let message = match attr(attrs, "message") {
                        Some(m) => Some(cut(m)),
                        None => None,
                    };
                    let (c0, c1, c2, _, _) = case.unwrap();
                    case = Some((c0, c1, c2, status, message));
                }
            },
            None => {},
        }
        match &events[i] {
            XmlElement::End(name) => {
                if str_eq(name.as_str(), "testsuite") {
                    if suites.len() > 0 {
                        suites.pop();
                        assert(suites@.map_values(|s: String| s@) =~= before.0.drop_last());
                    }
                } else if str_eq(name.as_str(), "testcase") {
                    match case {
                        Some(c) => {
                            results.push(c);
                            assert(cases_view(results@) =~= before.2.push(case_view(c)));
                            case = None;
                        },
                        None => {},
                    }
                }
            },
            _ => {},
        }
        i += 1;
    }
    assert(events@.take(n as int) =~= events@);
    results
}

/// The elements of the raw events, attributes read.
fn read_elements(raw: &Vec<RawXml>) -> (r: Vec<XmlElement>)
    requires
        forall|i: int| 0 <= i < raw@.len() ==> name_leads(#[trigger] raw@[i]),
    ensures
        r@.len() == raw@.len(),
        forall|i: int| 0 <= i < raw@.len() ==> read_element(#[trigger] raw@[i], r@[i]),
{
    let mut out: Vec<XmlElement> = Vec::new();
    let n = raw.len();
    let mut i: usize = 0;
    while i < n
        invariant
            n == raw@.len(),
            i <= n,
            out@.len() == i,
            forall|j: int| 0 <= j < raw@.len() ==> name_leads(#[trigger] raw@[j]),
            forall|j: int| 0 <= j < i ==> read_element(#[trigger] raw@[j], out@[j]),
        decreases n - i,
    {
        assert(name_leads(raw@[i as int]));
        let e = match &raw[i] {
            RawXml::Start(name, content) => XmlElement::Start(
                XmlTag { name: name.clone(), attrs: tag_attributes(content.as_str(), name.as_str()) },
            ),
            RawXml::Empty(name, content) => XmlElement::Empty(
                XmlTag { name: name.clone(), attrs: tag_attributes(content.as_str(), name.as_str()) },
            ),
            RawXml::End(name) => XmlElement::End(name.clone()),
            RawXml::Other => XmlElement::Other,
        };
        out.push(e);
        i += 1;
    }
    out
}

/// The test results of a document's elements: one per test case in
/// document order. A case's class is its `classname` attribute, or else the
/// name of the innermost open suite; its status and message come from its
/// last `failure`, `error` or `skipped` child (messages cut to
/// `MAX_MESSAGE_LEN` characters). Its time is `time_ms` of its `time`
/// attribute, or 0 without one.
pub fn results_of_elements<F: Fn(&str) -> u64>(elements: &Vec<XmlElement>, time_ms: F) -> (r: Vec<TestResult>)
    requires
        forall|s: &str| #[trigger] time_ms.requires((s,)),
    ensures
        r@.len() == cases_of_elements(elements@).len(),
        forall|i: int|
            0 <= i < r@.len() ==> result_matches(#[trigger] r@[i], cases_of_elements(elements@)[i], time_ms),
{
    let cases = walk_events(elements);
    let mut results: Vec<TestResult> = Vec::new();
    let n = cases.len();
    let mut i: usize = 0;
    while i < n
        invariant
            n == cases@.len(),
            i <= n,
            results@.len() == i,
            forall|s: &str| #[trigger] time_ms.requires((s,)),
            forall|j: int|
                0 <= j < i ==> result_matches(#[trigger] results@[j], case_view(cases@[j]), time_ms),
        decreases n - i,
    {
        let c = &cases[i];
        let class_name = c.0.clone();
        let name = c.1.clone();
        let status = c.3;
        let message = clone_opt(&c.4);
        let ghost mut witness: &str = "";
        let ms = match &c.2 {
            Some(t) => {
                let ts = t.as_str();
                let m = time_ms(ts);
                proof {
                    witness = ts;
                }
                m
            },
            None => 0,
        };
        proof {
            if c.2 is Some {
                assert(witness@ == case_view(cases@[i as int]).2->0);
                assert(time_ms.ensures((witness,), ms));
            }
        }
        let r = TestResult { class_name, name, status, time_ms: ms, message };
        assert(r.class_name@ == case_view(cases@[i as int]).0);
        assert(r.name@ == case_view(cases@[i as int]).1);
        assert(r.status == case_view(cases@[i as int]).3);
        assert(opt_seq(r.message) == case_view(cases@[i as int]).4);
        let ghost cv = case_view(cases@[i as int]);
        assert(match r.message {
            Some(m) => cv.4 == Some(m@),
            None => cv.4 is None,
        });
        proof {
            if cv.2 is Some {
                assert(time_ms.ensures((witness,), r.time_ms));
                assert(witness@ == cv.2->0);
                assert(exists|s: &str| s@ == cv.2->0 && #[trigger] time_ms.ensures((s,), r.time_ms));
            }
        }
        assert(match cv.2 {
            Some(t) => exists|s: &str| s@ == t && #[trigger] time_ms.ensures((s,), r.time_ms),
            None => r.time_ms == 0,
        });
        assert(result_matches(r, case_view(cases@[i as int]), time_ms));
        results.push(r);
        i += 1;
    }
    results
}


/// Parses one JUnit XML document into flat test results: `Err` with the
/// reader's error text for a malformed document, else the results of its
/// elements (see `results_of_elements`).
pub fn parse<F: Fn(&str) -> u64>(xml: &str, time_ms: F) -> (r: Result<Vec<TestResult>, String>)
    requires
        forall|s: &str| #[trigger] time_ms.requires((s,)),
    ensures
        match xml_raw_of(xml@) {
            Err(m) => r matches Err(e) && e@ == m,
            Ok(events) => r matches Ok(v) && v@.len() == cases_of(events).len() && forall|i: int|
                0 <= i < v@.len() ==> result_matches(#[trigger] v@[i], cases_of(events)[i], time_ms),
        },
{
    let raw = xml_raw_events(xml)?;
    let elements = read_elements(&raw);
    proof {
        lemma_walk_read(raw@, elements@);
    }
    Ok(results_of_elements(&elements, time_ms))
}
/// The event starts, ends or marks a test case: a `testcase` element, the
/// end of one, or a `failure`, `error` or `skipped` element.
pub open spec fn touches_case(e: RawXml) -> bool {
    match e {
        RawXml::Start(n, _) => n@ == "testcase"@ || n@ == "failure"@ || n@ == "error"@ || n@ == "skipped"@,
        RawXml::Empty(n, _) => n@ == "testcase"@ || n@ == "failure"@ || n@ == "error"@ || n@ == "skipped"@,
        RawXml::End(n) => n@ == "testcase"@,
        RawXml::Other => false,
    }
}

/// Events that do not touch a test case leave the open case and the
/// results as they are.
proof fn lemma_untouched(pre: Seq<RawXml>, mid: Seq<RawXml>)
    requires
        forall|i: int| 0 <= i < mid.len() ==> !touches_case(#[trigger] mid[i]),
    ensures
        walk(pre + mid).1 == walk(pre).1,
        walk(pre + mid).2 == walk(pre).2,
    decreases mid.len(),
{
    if mid.len() == 0 {
        assert(pre + mid =~= pre);
    } else {
        let m0 = mid.drop_last();
        assert forall|i: int| 0 <= i < m0.len() implies !touches_case(#[trigger] m0[i]) by {
            assert(m0[i] == mid[i]);
        }
        lemma_untouched(pre, m0);
        assert((pre + mid).drop_last() =~= pre + m0);
        assert((pre + mid).last() == mid.last());
        assert(!touches_case(mid[mid.len() - 1]));
    }
}

/// A test case passes unless marked: a `testcase` element, empty or with
/// no `failure`, `error` or `skipped` element (and no other test case)
/// between its start and its end, adds one result, with status `Pass`.
pub proof fn law_unmarked_cases_pass(
    pre: Seq<RawXml>,
    tag: String,
    content: String,
    mid: Seq<RawXml>,
    end: String,
)
    requires
        tag@ == "testcase"@,
        end@ == "testcase"@,
        forall|i: int| 0 <= i < mid.len() ==> !touches_case(#[trigger] mid[i]),
    ensures
        cases_of(pre.push(RawXml::Start(tag, content)) + mid.push(RawXml::End(end))).len() == cases_of(
            pre,
        ).len() + 1,
        cases_of(pre.push(RawXml::Start(tag, content)) + mid.push(RawXml::End(end))).last().3
            == Status::Pass,
        cases_of(pre.push(RawXml::Empty(tag, content))).len() == cases_of(pre).len() + 1,
        cases_of(pre.push(RawXml::Empty(tag, content))).last().3 == Status::Pass,
{
    reveal_strlit("testcase");
    reveal_strlit("testsuite");
    assert("testcase"@ != "testsuite"@) by {
        assert("testcase"@[4] != "testsuite"@[4]);
    }
    let p = pre.push(RawXml::Start(tag, content));
    assert(p.drop_last() =~= pre);
    assert(walk(p).1 matches Some(c) && c.3 == Status::Pass);
    assert(walk(p).2 == walk(pre).2);
    lemma_untouched(p, mid);
    let all = p + mid.push(RawXml::End(end));
    assert(all.drop_last() =~= p + mid);
    assert(all.last() == RawXml::End(end));
    let q = pre.push(RawXml::Empty(tag, content));
    assert(q.drop_last() =~= pre);
}

} // verus!
