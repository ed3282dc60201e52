//! Pull-request comments on GitHub: which context a comment goes to, which
//! existing comment it replaces, how result pages chain, and the flaky-test
//! comment's text. The HTTP calls themselves are the caller's.

use vstd::prelude::*;
use crate::junit::TestResult;
use crate::text::{
    chars_of, contains_spec, decimal_spec, push_char, push_decimal, push_signed_decimal, push_str,
    signed_decimal_spec, split_chars, split_spec, str_contains, str_eq, string_range, trim,
    trim_spec, seqs_of,
};

verus! {

broadcast use vstd::string::group_string_axioms;

/// The GitHub REST API root.
pub const API_BASE: &'static str = "https://api.github.com";

/// The user agent sent with API requests.
pub const USER_AGENT: &'static str = "lightning-cli";

/// The marker of the flaky-test comment.
pub const FLAKY_PR_COMMENT_MARKER: &'static str = "<!-- lightning:flaky -->";

/// A value read from the environment; an empty one counts as absent.
pub open spec fn present(v: Option<String>) -> Option<Seq<char>> {
    match v {
        Some(s) => if s@.len() > 0 {
            Some(s@)
        } else {
            None
        },
        None => None,
    }
}

/// The number at `pull_request.number` of the JSON document, when the
/// document parses and holds an unsigned integer there.
pub uninterp spec fn json_pr_number(event: Seq<char>) -> Option<u64>;

/// Parses the event payload with `serde_json::from_str` into a JSON value
/// and reads `pull_request.number` with `Value::get` and `Value::as_u64`;
/// the contract names the result for the payload text.
#[verifier::external_body]
fn pull_request_number(event: &str) -> (r: Option<u64>)
    ensures
        r == json_pr_number(event@),
{
    let value: serde_json::Value = serde_json::from_str(event).ok()?;
    value.get("pull_request")?.get("number")?.as_u64()
}

/// PR-comment context resolved from GitHub Actions environment. Absent
/// (rather than an error) whenever a PR comment should silently no-op:
/// not a `pull_request` event, no token, or an unreadable event payload.
pub struct PrContext {
    repo: String,
    pr_number: u64,
    token: String,
}

impl View for PrContext {
    type V = (Seq<char>, u64, Seq<char>);

    /// Repository, pull request number and token.
    closed spec fn view(&self) -> (Seq<char>, u64, Seq<char>) {
        (self.repo@, self.pr_number, self.token@)
    }
}

/// The context the environment gives: event name, repository, token, and
/// the event payload's text when it could be read.
pub open spec fn resolved_context(
    event_name: Option<String>,
    repository: Option<String>,
    token: Option<String>,
    event_json: Option<String>,
) -> Option<(Seq<char>, u64, Seq<char>)> {
    if present(event_name) == Some("pull_request"@) && present(repository) is Some && present(
        token,
    ) is Some && event_json is Some && json_pr_number(event_json->0@) is Some {
        Some((present(repository)->0, json_pr_number(event_json->0@)->0, present(token)->0))
    } else {
        None
    }
}

/// The value unless it is absent or empty.
fn non_empty(v: Option<String>) -> (r: Option<String>)
    ensures
        match r {
            Some(s) => present(v) == Some(s@),
            None => present(v) is None,
        },
{
    match v {
        Some(s) => if s.as_str().is_empty() {
            None
        } else {
            Some(s)
        },
        None => None,
    }
}

impl PrContext {
    /// The context for a `pull_request` event from the values of
    /// `GITHUB_EVENT_NAME`, `GITHUB_REPOSITORY` and `GITHUB_TOKEN` and the
    /// text of the file `GITHUB_EVENT_PATH` names.
    pub fn resolve(
        event_name: Option<String>,
        repository: Option<String>,
        token: Option<String>,
        event_json: Option<String>,
    ) -> (r: Option<PrContext>)
        ensures
            match r {
                Some(c) => resolved_context(event_name, repository, token, event_json) == Some(c@),
                None => resolved_context(event_name, repository, token, event_json) is None,
            },
    {
        let ghost (e0, r0, t0, j0) = (event_name, repository, token, event_json);
        let name = non_empty(event_name)?;
        if !str_eq(name.as_str(), "pull_request") {
            return None;
        }
        let repo = non_empty(repository)?;
        let token = non_empty(token)?;
        let contents = event_json?;
        let pr_number = pull_request_number(contents.as_str())?;
        let ctx = PrContext { repo, pr_number, token };
        assert(resolved_context(e0, r0, t0, j0) == Some(ctx@));
        Some(ctx)
    }

    /// A context for the given repository, pull request and token.
    pub fn for_test(repo: &str, pr_number: u64, token: &str) -> (r: PrContext)
        ensures
            r@ == (repo@, pr_number, token@),
    {
        let mut r = String::new();
        push_str(&mut r, repo);
        let mut t = String::new();
        push_str(&mut t, token);
        PrContext { repo: r, pr_number, token: t }
    }

    /// The `owner/name` repository.
    pub fn repo(&self) -> (r: &str)
        ensures
            r@ == self@.0,
    {
        self.repo.as_str()
    }

    /// The pull request's number.
    pub fn pr_number(&self) -> (r: u64)
        ensures
            r == self@.1,
    {
        self.pr_number
    }

    /// The API token.
    pub fn token(&self) -> (r: &str)
        ensures
            r@ == self@.2,
    {
        self.token.as_str()
    }
}

/// An existing PR comment.
#[derive(Debug, Clone)]
pub struct Comment {
    pub id: i64,
    pub body: String,
}

/// `s` with `|` escaped as `\|`.
pub open spec fn escape_cell_spec(s: Seq<char>) -> Seq<char>
    decreases s.len(),
{
    if s.len() == 0 {
        Seq::<char>::empty()
    } else {
        escape_cell_spec(s.drop_last()) + if s.last() == '|' {
            seq!['\\', '|']
        } else {
            seq![s.last()]
        }
    }
}

/// Escapes `|` so a task path or test name can't break a Markdown table cell.
pub fn escape_cell(s: &str) -> (r: String)
    ensures
        r@ == escape_cell_spec(s@),
{
    let cs = chars_of(s);
    let mut out = String::new();
    let n = cs.len();
    let mut i: usize = 0;
    while i < n
        invariant
            n == cs@.len(),
            cs@ == s@,
            i <= n,
            out@ == escape_cell_spec(cs@.take(i as int)),
        decreases n - i,
    {
        assert(cs@.take(i + 1).drop_last() =~= cs@.take(i as int));
        if cs[i] == '|' {
            push_char(&mut out, '\\');
            push_char(&mut out, '|');
            assert(out@ =~= escape_cell_spec(cs@.take(i + 1)));
        } else {
            push_char(&mut out, cs[i]);
            assert(out@ =~= escape_cell_spec(cs@.take(i + 1)));
        }
        i += 1;
    }
    assert(cs@.take(n as int) =~= cs@);
    out
}

/// The first position of `c` in `s`.
pub open spec fn index_of(s: Seq<char>, c: char) -> Option<int>
    decreases s.len(),
{
    if s.len() == 0 {
        None
    } else if s[0] == c {
        Some(0int)
    } else {
        match index_of(s.drop_first(), c) {
            Some(k) => Some(k + 1),
            None => None,
        }
    }
}

/// `s` without leading `c`s.
pub open spec fn strip_start(s: Seq<char>, c: char) -> Seq<char>
    decreases s.len(),
{
    if s.len() > 0 && s[0] == c {
        strip_start(s.drop_first(), c)
    } else {
        s
    }
}

/// `s` without trailing `c`s.
pub open spec fn strip_end(s: Seq<char>, c: char) -> Seq<char>
    decreases s.len(),
{
    if s.len() > 0 && s.last() == c {
        strip_end(s.drop_last(), c)
    } else {
        s
    }
}

/// The URL of one `Link` header entry when its relation is `next`.
pub open spec fn next_link(part: Seq<char>) -> Option<Seq<char>> {
    match index_of(part, ';') {
        None => None,
        Some(k) => if trim_spec(part.skip(k + 1)) == "rel=\"next\""@ {
            Some(strip_end(strip_start(trim_spec(part.take(k)), '<'), '>'))
        } else {
            None
        },
    }
}

/// The first entry's URL whose relation is `next`.
pub open spec fn first_next_link(parts: Seq<Seq<char>>) -> Option<Seq<char>>
    decreases parts.len(),
{
    if parts.len() == 0 {
        None
    } else {
        match next_link(parts[0]) {
            Some(u) => Some(u),
            None => first_next_link(parts.drop_first()),
        }
    }
}

/// The next page's URL from a `Link` header value, if it names one.
pub open spec fn next_page_spec(link: Option<Seq<char>>) -> Option<Seq<char>> {
    match link {
        None => None,
        Some(l) => first_next_link(split_spec(l, ',')),
    }
}

/// The first position of `c` in `s`.
pub(crate) fn find_char(s: &[char], c: char) -> (r: Option<usize>)
    ensures
        match r {
            Some(k) => index_of(s@, c) == Some(k as int) && k < s@.len(),
            None => index_of(s@, c) is None,
        },
{
    let n = s.len();
    let mut i: usize = 0;
    assert(s@.skip(0) =~= s@);
    while i < n
        invariant
            n == s@.len(),
            i <= n,
            forall|j: int| 0 <= j < i ==> s@[j] != c,
            index_of(s@, c) == match index_of(s@.skip(i as int), c) {
                Some(k) => Some(k + i),
                None => None::<int>,
            },
        decreases n - i,
    {
        assert(s@.skip(i as int).drop_first() =~= s@.skip(i + 1));
        if s[i] == c {
            return Some(i);
        }
        i += 1;
    }
    None
}

/// `s` without leading `c`s.
fn strip_start_exec(s: &[char], c: char) -> (r: usize)
    ensures
        r <= s@.len(),
        strip_start(s@, c) == s@.skip(r as int),
{
    let n = s.len();
    let mut i: usize = 0;
    assert(s@.skip(0) =~= s@);
    while i < n && s[i] == c
        invariant
            n == s@.len(),
            i <= n,
            strip_start(s@, c) == strip_start(s@.skip(i as int), c),
        decreases n - i,
    {
        assert(s@.skip(i as int).drop_first() =~= s@.skip(i + 1));
        i += 1;
    }
    i
}

/// `s` without trailing `c`s.
fn strip_end_exec(s: &[char], start: usize, c: char) -> (r: usize)
    requires
        start <= s@.len(),
    ensures
        start <= r <= s@.len(),
        strip_end(s@.skip(start as int), c) == s@.subrange(start as int, r as int),
{
    let mut j: usize = s.len();
    assert(s@.subrange(start as int, j as int) =~= s@.skip(start as int));
    while j > start && s[j - 1] == c
        invariant
            start <= j <= s@.len(),
            strip_end(s@.skip(start as int), c) == strip_end(s@.subrange(start as int, j as int), c),
        decreases j - start,
    {
        assert(s@.subrange(start as int, j as int).drop_last() =~= s@.subrange(start as int, j - 1));
        j -= 1;
    }
    j
}

/// The URL of one `Link` entry when its relation is `next`.
fn next_link_exec(part: &[char]) -> (r: Option<String>)
    ensures
        match r {
            Some(u) => next_link(part@) == Some(u@),
            None => next_link(part@) is None,
        },
{
    let pn = part.len();
    let k = find_char(part, ';')?;
    let rel = string_range(part, k + 1, pn);
    assert(part@.subrange(k + 1, part@.len() as int) =~= part@.skip(k + 1));
    let rel_trimmed = trim(rel.as_str());
    if !str_eq(rel_trimmed.as_str(), "rel=\"next\"") {
        return None;
    }
    let url = string_range(part, 0, k);
    assert(part@.subrange(0, k as int) =~= part@.take(k as int));
    let url_trimmed = trim(url.as_str());
    let uc = chars_of(url_trimmed.as_str());
    let a = strip_start_exec(uc.as_slice(), '<');
    let b = strip_end_exec(uc.as_slice(), a, '>');
    Some(string_range(uc.as_slice(), a, b))
}

/// The next page's URL from the response's `Link` header, if it names one.
pub fn next_page_url(link: Option<&str>) -> (r: Option<String>)
    ensures
        match r {
            Some(u) => next_page_spec(match link {
                Some(l) => Some(l@),
                None => None,
            }) == Some(u@),
            None => next_page_spec(match link {
                Some(l) => Some(l@),
                None => None,
            }) is None,
        },
{
    let l = link?;
    let cs = chars_of(l);
    let parts = split_chars(cs.as_slice(), ',');
    let ghost ps = seqs_of(parts@);
    let n = parts.len();
    let mut i: usize = 0;
    assert(ps.skip(0) =~= ps);
    while i < n
        invariant
            n == parts@.len(),
            ps == seqs_of(parts@),
            ps == split_spec(l@, ','),
            link == Some(l),
            i <= n,
            first_next_link(ps) == first_next_link(ps.skip(i as int)),
        decreases n - i,
    {
        assert(ps.skip(i as int).drop_first() =~= ps.skip(i + 1));
        assert(ps.skip(i as int)[0] == parts@[i as int]@);
        match next_link_exec(parts[i].as_slice()) {
            Some(u) => {
                assert(first_next_link(ps.skip(i as int)) == Some(u@));
                return Some(u);
            },
            None => {},
        }
        i += 1;
    }
    None
}

/// The URL listing a pull request's comments, 100 per page.
pub open spec fn comments_url_spec(base: Seq<char>, repo: Seq<char>, pr_number: u64) -> Seq<char> {
    base + "/repos/"@ + repo + "/issues/"@ + decimal_spec(pr_number as nat) + "/comments?per_page=100"@
}

/// The URL listing the pull request's comments, first page.
pub fn comments_url(base: &str, ctx: &PrContext) -> (r: String)
    ensures
        r@ == comments_url_spec(base@, ctx@.0, ctx@.1),
{
    let mut u = String::new();
    push_str(&mut u, base);
    push_str(&mut u, "/repos/");
    push_str(&mut u, ctx.repo());
    push_str(&mut u, "/issues/");
    push_decimal(&mut u, ctx.pr_number());
    push_str(&mut u, "/comments?per_page=100");
    u
}

/// What an upsert does: patch the comment at `url`, or post a new one
/// there; `body` is the comment's full text.
#[derive(Debug)]
pub enum CommentAction {
    Update { url: String, body: String },
    Create { url: String, body: String },
}

/// The first comment whose body holds `marker`.
pub open spec fn first_marked(comments: Seq<Comment>, marker: Seq<char>) -> Option<int>
    decreases comments.len(),
{
    if comments.len() == 0 {
        None
    } else if contains_spec(comments[0].body@, marker) {
        Some(0)
    } else {
        match first_marked(comments.drop_first(), marker) {
            Some(k) => Some(k + 1),
            None => None,
        }
    }
}

/// The comment text: the marker on its own line, then the body.
pub open spec fn full_body(marker: Seq<char>, body: Seq<char>) -> Seq<char> {
    marker + seq!['\n'] + body
}

/// The URL of an existing comment.
pub open spec fn comment_url_spec(base: Seq<char>, repo: Seq<char>, id: i64) -> Seq<char> {
    base + "/repos/"@ + repo + "/issues/comments/"@ + signed_decimal_spec(id as int)
}

/// The URL new comments of a pull request are posted to.
pub open spec fn new_comment_url_spec(base: Seq<char>, repo: Seq<char>, pr_number: u64) -> Seq<char> {
    base + "/repos/"@ + repo + "/issues/"@ + decimal_spec(pr_number as nat) + "/comments"@
}

/// The upsert for the listed comments: update the first that holds the
/// marker, else create one; either way the text is the marker line and the
/// body. Re-running with the same marker updates the same comment.
pub open spec fn upsert_spec(
    base: Seq<char>,
    ctx: (Seq<char>, u64, Seq<char>),
    comments: Seq<Comment>,
    marker: Seq<char>,
    body: Seq<char>,
) -> (bool, Seq<char>, Seq<char>) {
    match first_marked(comments, marker) {
        Some(k) => (true, comment_url_spec(base, ctx.0, comments[k].id), full_body(marker, body)),
        None => (false, new_comment_url_spec(base, ctx.0, ctx.1), full_body(marker, body)),
    }
}

/// The view of an action: whether it updates, its URL and its text.
pub open spec fn action_view(a: CommentAction) -> (bool, Seq<char>, Seq<char>) {
    match a {
        CommentAction::Update { url, body } => (true, url@, body@),
        CommentAction::Create { url, body } => (false, url@, body@),
    }
}

/// Decides the upsert over all pages of existing comments: patch the first
/// whose body contains `marker` if found, else create a new one with
/// `marker` (an HTML comment, e.g. `<!-- lightning:affected -->`) prefixed.
pub fn upsert_action(
    base: &str,
    ctx: &PrContext,
    comments: &Vec<Comment>,
    marker: &str,
    body: &str,
) -> (r: CommentAction)
    ensures
        action_view(r) == upsert_spec(base@, ctx@, comments@, marker@, body@),
{
    let mut full = String::new();
    push_str(&mut full, marker);
    push_char(&mut full, '\n');
    push_str(&mut full, body);
    assert(full@ =~= full_body(marker@, body@));
    let n = comments.len();
    let mut i: usize = 0;
    assert(comments@.skip(0) =~= comments@);
    while i < n
        invariant
            n == comments@.len(),
            i <= n,
            full@ == full_body(marker@, body@),
            first_marked(comments@, marker@) == match first_marked(comments@.skip(i as int), marker@) {
                Some(k) => Some(k + i),
                None => None::<int>,
            },
        decreases n - i,
    {
        assert(comments@.skip(i as int).drop_first() =~= comments@.skip(i + 1));
        if str_contains(comments[i].body.as_str(), marker) {
            let mut url = String::new();
            push_str(&mut url, base);
            push_str(&mut url, "/repos/");
            push_str(&mut url, ctx.repo());
            push_str(&mut url, "/issues/comments/");
            push_signed_decimal(&mut url, comments[i].id);
            assert(url@ =~= comment_url_spec(base@, ctx@.0, comments@[i as int].id));
            return CommentAction::Update { url, body: full };
        }
        i += 1;
    }
    let mut url = String::new();
    push_str(&mut url, base);
    push_str(&mut url, "/repos/");
    push_str(&mut url, ctx.repo());
    push_str(&mut url, "/issues/");
    push_decimal(&mut url, ctx.pr_number());
    push_str(&mut url, "/comments");
    assert(url@ =~= new_comment_url_spec(base@, ctx@.0, ctx@.1));
    CommentAction::Create { url, body: full }
}

/// A currently flaky test as the server's flaky list reports it.
#[derive(Debug, Clone)]
pub struct FlakyItem {
    pub test_id: i64,
    pub class_name: String,
    pub name: String,
    pub score: i64,
}

/// The comment when no test of the run is flaky.
pub const NO_FLAKY_TESTS: &'static str = "⚡ **lightning flaky check**: no flaky tests observed in this run.";

/// The comment's opening, before the count of flaky tests.
pub const FLAKY_HEADER: &'static str = "⚡ **lightning flaky check**: ";

/// The rest of the heading and the table head.
pub const FLAKY_TABLE_HEAD: &'static str = " flaky test(s) in this run\n\n| Test | Score | |\n|---|---|---|\n";

/// The run has a result whose trimmed class and name are those given,
/// trimmed.
pub open spec fn in_run(results: Seq<TestResult>, class_name: Seq<char>, name: Seq<char>) -> bool {
    exists|i: int|
        0 <= i < results.len() && trim_spec(#[trigger] results[i].class_name@) == trim_spec(class_name)
            && trim_spec(results[i].name@) == trim_spec(name)
}

/// The flaky test is reported for the run: positive score and present in it.
pub open spec fn reported(results: Seq<TestResult>, f: FlakyItem) -> bool {
    f.score > 0 && in_run(results, f.class_name@, f.name@)
}

/// The flaky tests reported for the run, in the server's order.
pub open spec fn reported_items(results: Seq<TestResult>, flaky: Seq<FlakyItem>) -> Seq<FlakyItem>
    decreases flaky.len(),
{
    if flaky.len() == 0 {
        Seq::<FlakyItem>::empty()
    } else if reported(results, flaky.last()) {
        reported_items(results, flaky.drop_last()).push(flaky.last())
    } else {
        reported_items(results, flaky.drop_last())
    }
}

/// One table row: escaped class and name, score, link to the test's page.
pub open spec fn flaky_row(server: Seq<char>, f: FlakyItem) -> Seq<char> {
    "| `"@ + escape_cell_spec(f.class_name@) + "` `"@ + escape_cell_spec(f.name@) + "` | "@
        + signed_decimal_spec(f.score as int) + " | [details]("@ + server + "/tests/"@
        + signed_decimal_spec(f.test_id as int) + ") |"@ + seq!['\n']
}

/// The rows of the given tests, in order.
pub open spec fn flaky_rows(server: Seq<char>, items: Seq<FlakyItem>) -> Seq<char>
    decreases items.len(),
{
    if items.len() == 0 {
        Seq::<char>::empty()
    } else {
        flaky_rows(server, items.drop_last()) + flaky_row(server, items.last())
    }
}

/// The flaky-test comment for a run: a table of the reported tests with the
/// server (trailing `/` removed) linked, or the explicit no-flaky line.
pub open spec fn flaky_comment_spec(server: Seq<char>, results: Seq<TestResult>, flaky: Seq<FlakyItem>) -> Seq<char> {
    let items = reported_items(results, flaky);
    if items.len() == 0 {
        NO_FLAKY_TESTS@
    } else {
        FLAKY_HEADER@ + decimal_spec(items.len()) + FLAKY_TABLE_HEAD@ + flaky_rows(
            strip_end(server, '/'),
            items,
        )
    }
}

/// Whether the run has a result with this trimmed class and name.
fn present_in_run(results: &Vec<TestResult>, class_name: &str, name: &str) -> (r: bool)
    ensures
        r == in_run(results@, class_name@, name@),
{
    let c = trim(class_name);
    let nm = trim(name);
    let n = results.len();
    let mut i: usize = 0;
    while i < n
        invariant
            n == results@.len(),
            i <= n,
            c@ == trim_spec(class_name@),
            nm@ == trim_spec(name@),
            forall|j: int|
                0 <= j < i ==> !(trim_spec(#[trigger] results@[j].class_name@) == trim_spec(class_name@)
                    && trim_spec(results@[j].name@) == trim_spec(name@)),
        decreases n - i,
    {
        let rc = trim(results[i].class_name.as_str());
        let rn = trim(results[i].name.as_str());
        if str_eq(rc.as_str(), c.as_str()) && str_eq(rn.as_str(), nm.as_str()) {
            return true;
        }
        i += 1;
    }
    false
}

/// `server` without trailing `/`s.
fn trim_trailing_slashes(server: &str) -> (r: String)
    ensures
        r@ == strip_end(server@, '/'),
{
    let cs = chars_of(server);
    let b = strip_end_exec(cs.as_slice(), 0, '/');
    assert(cs@.skip(0) =~= cs@);
    string_range(cs.as_slice(), 0, b)
}

/// Builds the comment body for the tests of this run that the server's
/// flaky list reports as currently flaky (`score > 0`). The identity match
/// against the run's results is a trimmed exact match on class name and
/// test name.
pub fn flaky_comment_body(server: &str, results: &Vec<TestResult>, flaky: &Vec<FlakyItem>) -> (r: String)
    ensures
        r@ == flaky_comment_spec(server@, results@, flaky@),
{
    let mut items: Vec<&FlakyItem> = Vec::new();
    let n = flaky.len();
    let mut i: usize = 0;
    while i < n
        invariant
            n == flaky@.len(),
            i <= n,
            items@.len() == reported_items(results@, flaky@.take(i as int)).len(),
            forall|j: int|
                0 <= j < items@.len() ==> *items@[j] == #[trigger] reported_items(
                    results@,
                    flaky@.take(i as int),
                )[j],
        decreases n - i,
    {
        assert(flaky@.take(i + 1).drop_last() =~= flaky@.take(i as int));
        let f = &flaky[i];
        if f.score > 0 && present_in_run(results, f.class_name.as_str(), f.name.as_str()) {
            items.push(f);
        }
        i += 1;
    }
    assert(flaky@.take(n as int) =~= flaky@);
    let ghost sel = reported_items(results@, flaky@);
    if items.len() == 0 {
        let mut out = String::new();
        push_str(&mut out, NO_FLAKY_TESTS);
        return out;
    }
    let base = trim_trailing_slashes(server);
    let mut rows = String::new();
    let m = items.len();
    let mut k: usize = 0;
    while k < m
        invariant
            m == items@.len(),
            m == sel.len(),
            forall|j: int| 0 <= j < m ==> *items@[j] == #[trigger] sel[j],
            k <= m,
            base@ == strip_end(server@, '/'),
            rows@ == flaky_rows(base@, sel.take(k as int)),
        decreases m - k,
    {
        let f = items[k];
        assert(sel.take(k + 1).drop_last() =~= sel.take(k as int));
        assert(sel.take(k + 1).last() == *f);
        let ghost before = rows@;
        push_str(&mut rows, "| `");
        let class_cell = escape_cell(f.class_name.as_str());
        push_str(&mut rows, class_cell.as_str());
        push_str(&mut rows, "` `");
        let name_cell = escape_cell(f.name.as_str());
        push_str(&mut rows, name_cell.as_str());
        push_str(&mut rows, "` | ");
        push_signed_decimal(&mut rows, f.score);
        push_str(&mut rows, " | [details](");
        push_str(&mut rows, base.as_str());
        push_str(&mut rows, "/tests/");
        push_signed_decimal(&mut rows, f.test_id);
        push_str(&mut rows, ") |");
        push_char(&mut rows, '\n');
        assert(rows@ =~= before + flaky_row(base@, *f));
        k += 1;
    }
    assert(sel.take(m as int) =~= sel);
    let mut out = String::new();
    push_str(&mut out, FLAKY_HEADER);
    push_decimal(&mut out, m as u64);
    push_str(&mut out, FLAKY_TABLE_HEAD);
    push_str(&mut out, rows.as_str());
    out
}

/// The comment text holds its marker.
proof fn lemma_full_body_is_marked(marker: Seq<char>, body: Seq<char>)
    ensures
        contains_spec(full_body(marker, body), marker),
{
    assert(full_body(marker, body).subrange(0, marker.len() as int) =~= marker);
    assert(crate::text::occurs_at(full_body(marker, body), marker, 0));
}

/// With no marked comment, a marked comment pushed at the end is the first
/// marked one.
proof fn lemma_first_marked_push(comments: Seq<Comment>, c: Comment, marker: Seq<char>)
    requires
        first_marked(comments, marker) is None,
        contains_spec(c.body@, marker),
    ensures
        first_marked(comments.push(c), marker) == Some(comments.len() as int),
    decreases comments.len(),
{
    if comments.len() > 0 {
        assert(comments.push(c).drop_first() =~= comments.drop_first().push(c));
        lemma_first_marked_push(comments.drop_first(), c, marker);
    }
}

/// Replacing the first marked comment by another marked one keeps its
/// position first.
proof fn lemma_first_marked_update(comments: Seq<Comment>, k: int, c: Comment, marker: Seq<char>)
    requires
        first_marked(comments, marker) == Some(k),
        contains_spec(c.body@, marker),
    ensures
        first_marked(comments.update(k, c), marker) == Some(k),
    decreases comments.len(),
{
    lemma_first_marked_in_range(comments, marker);
    if k > 0 {
        match first_marked(comments.drop_first(), marker) {
            Some(j) => {
                assert(comments.update(k, c).drop_first() =~= comments.drop_first().update(k - 1, c));
                lemma_first_marked_update(comments.drop_first(), k - 1, c, marker);
            },
            None => {},
        }
    }
}

/// Re-running with the same marker updates the same comment: once an
/// upsert has created or updated a comment (`after` is the comment list
/// with its result `c` in place), the next upsert with that marker updates
/// `c`, whatever its body.
pub proof fn law_rerun_updates_the_same_comment(
    base: Seq<char>,
    ctx: (Seq<char>, u64, Seq<char>),
    comments: Seq<Comment>,
    marker: Seq<char>,
    body: Seq<char>,
    next_body: Seq<char>,
    c: Comment,
    after: Seq<Comment>,
)
    requires
        c.body@ == full_body(marker, body),
        match first_marked(comments, marker) {
            Some(k) => c.id == comments[k].id && after == comments.update(k, c),
            None => after == comments.push(c),
        },
    ensures
        upsert_spec(base, ctx, after, marker, next_body) == (
            true,
            comment_url_spec(base, ctx.0, c.id),
            full_body(marker, next_body),
        ),
{
    lemma_full_body_is_marked(marker, body);
    match first_marked(comments, marker) {
        Some(k) => {
            lemma_first_marked_in_range(comments, marker);
            lemma_first_marked_update(comments, k, c, marker);
        },
        None => {
            lemma_first_marked_push(comments, c, marker);
        },
    }
}

/// The first marked comment is one of the comments.
proof fn lemma_first_marked_in_range(comments: Seq<Comment>, marker: Seq<char>)
    ensures
        first_marked(comments, marker) matches Some(k) ==> 0 <= k < comments.len(),
    decreases comments.len(),
{
    if comments.len() > 0 {
        lemma_first_marked_in_range(comments.drop_first(), marker);
    }
}

/// Escaping leaves no bare `|`: every `|` of an escaped cell follows a `\`,
/// so a cell can never end early.
pub proof fn law_escaped_cells_have_no_bare_pipe(s: Seq<char>)
    ensures
        forall|i: int|
            0 <= i < escape_cell_spec(s).len() && #[trigger] escape_cell_spec(s)[i] == '|' ==> i > 0
                && escape_cell_spec(s)[i - 1] == '\\',
    decreases s.len(),
{
    if s.len() > 0 {
        law_escaped_cells_have_no_bare_pipe(s.drop_last());
        let prev = escape_cell_spec(s.drop_last());
        let tail = if s.last() == '|' {
            seq!['\\', '|']
        } else {
            seq![s.last()]
        };
        assert(escape_cell_spec(s) == prev + tail);
        assert forall|i: int|
            0 <= i < escape_cell_spec(s).len() && #[trigger] escape_cell_spec(s)[i] == '|' implies i > 0
                && escape_cell_spec(s)[i - 1] == '\\' by {
            if i < prev.len() {
                assert(escape_cell_spec(s)[i] == prev[i]);
                assert(escape_cell_spec(s)[i - 1] == prev[i - 1]);
            } else if s.last() == '|' {
                if i == prev.len() {
                    assert(escape_cell_spec(s)[i] == '\\');
                }
            }
        }
    }
}

/// The escape of one character.
pub open spec fn escape_char(c: char) -> Seq<char> {
    if c == '|' {
        seq!['\\', '|']
    } else {
        seq![c]
    }
}

/// `s` with every `\|` read as `|`, scanning left to right as
/// `str::replace` does.
pub open spec fn unescape_pipes(s: Seq<char>) -> Seq<char>
    decreases s.len(),
{
    if s.len() == 0 {
        Seq::<char>::empty()
    } else if s.len() >= 2 && s[0] == '\\' && s[1] == '|' {
        seq!['|'] + unescape_pipes(s.skip(2))
    } else {
        seq![s[0]] + unescape_pipes(s.skip(1))
    }
}

/// How many `|` the text holds.
pub open spec fn pipe_count(s: Seq<char>) -> nat
    decreases s.len(),
{
    if s.len() == 0 {
        0
    } else {
        pipe_count(s.drop_last()) + if s.last() == '|' {
            1nat
        } else {
            0nat
        }
    }
}

/// Escaping a text that starts with `c` starts with the escape of `c`.
proof fn lemma_escape_front(c: char, t: Seq<char>)
    ensures
        escape_cell_spec(seq![c] + t) == escape_char(c) + escape_cell_spec(t),
    decreases t.len(),
{
    if t.len() == 0 {
        assert(seq![c] + t =~= seq![c]);
        assert(seq![c].drop_last() =~= Seq::<char>::empty());
        assert(escape_cell_spec(Seq::<char>::empty()) == Seq::<char>::empty());
        assert(seq![c].last() == c);
        assert(escape_cell_spec(seq![c]) =~= escape_char(c));
        assert(escape_char(c) + escape_cell_spec(t) =~= escape_char(c));
    } else {
        lemma_escape_front(c, t.drop_last());
        assert((seq![c] + t).drop_last() =~= seq![c] + t.drop_last());
        assert((seq![c] + t).last() == t.last());
        assert(escape_cell_spec(seq![c] + t) =~= escape_char(c) + escape_cell_spec(t));
    }
}

/// Undoing the escape of a text gives it back.
proof fn lemma_unescape_escape(s: Seq<char>)
    ensures
        unescape_pipes(escape_cell_spec(s)) == s,
        s.len() > 0 ==> escape_cell_spec(s).len() > 0 && escape_cell_spec(s)[0] != '|',
    decreases s.len(),
{
    if s.len() > 0 {
        let c = s[0];
        let t = s.skip(1);
        assert(s =~= seq![c] + t);
        lemma_escape_front(c, t);
        lemma_unescape_escape(t);
        let e = escape_cell_spec(s);
        let et = escape_cell_spec(t);
        assert(e == escape_char(c) + et);
        if c == '|' {
            assert(e.skip(2) =~= et);
        } else {
            assert(e.skip(1) =~= et);
            if c == '\\' {
                assert(e.len() < 2 || e[1] != '|') by {
                    if e.len() >= 2 {
                        assert(et.len() > 0);
                        assert(e[1] == et[0]);
                    }
                }
            }
        }
        assert(unescape_pipes(e) =~= s);
    }
}

/// The escape adds exactly one character per `|`.
proof fn lemma_escape_len(s: Seq<char>)
    ensures
        escape_cell_spec(s).len() == s.len() + pipe_count(s),
    decreases s.len(),
{
    if s.len() > 0 {
        lemma_escape_len(s.drop_last());
    }
}

/// The escape loses nothing: replacing `\|` by `|` in an escaped cell gives
/// the text back, and the cell is longer by one character per `|`.
pub proof fn law_escaping_cells_is_reversible(s: Seq<char>)
    ensures
        unescape_pipes(escape_cell_spec(s)) == s,
        escape_cell_spec(s).len() == s.len() + pipe_count(s),
{
    lemma_unescape_escape(s);
    lemma_escape_len(s);
}

/// The flaky items the run reports: positive score and present in the run.
pub open spec fn reported_filter(results: Seq<TestResult>) -> spec_fn(FlakyItem) -> bool {
    |f: FlakyItem| f.score > 0 && in_run(results, f.class_name@, f.name@)
}

/// The reported items are those the filter keeps, in order.
proof fn lemma_reported_is_filter(results: Seq<TestResult>, flaky: Seq<FlakyItem>)
    ensures
        reported_items(results, flaky) == flaky.filter(reported_filter(results)),
    decreases flaky.len(),
{
    reveal(Seq::filter);
    if flaky.len() > 0 {
        lemma_reported_is_filter(results, flaky.drop_last());
    }
}

/// An occurrence stays one when text is added before or after.
proof fn lemma_occurs_extend(a: Seq<char>, b: Seq<char>, n: Seq<char>, i: int)
    ensures
        crate::text::occurs_at(a, n, i) ==> crate::text::occurs_at(a + b, n, i),
        crate::text::occurs_at(b, n, i) ==> crate::text::occurs_at(a + b, n, a.len() + i),
{
    if crate::text::occurs_at(a, n, i) {
        assert((a + b).subrange(i, i + n.len()) =~= a.subrange(i, i + n.len()));
    }
    if crate::text::occurs_at(b, n, i) {
        assert((a + b).subrange(a.len() + i, a.len() + i + n.len()) =~= b.subrange(i, i + n.len()));
    }
}

/// Each item's row occurs in the rows.
proof fn lemma_row_in_rows(server: Seq<char>, items: Seq<FlakyItem>, t: int)
    requires
        0 <= t < items.len(),
    ensures
        exists|w: int| crate::text::occurs_at(flaky_rows(server, items), flaky_row(server, items[t]), w),
    decreases items.len(),
{
    let prev = flaky_rows(server, items.drop_last());
    let last = flaky_row(server, items.last());
    if t == items.len() - 1 {
        assert(crate::text::occurs_at(last, last, 0)) by {
            assert(last.subrange(0, last.len() as int) =~= last);
        }
        lemma_occurs_extend(prev, last, last, 0);
        assert(crate::text::occurs_at(prev + last, last, prev.len() as int));
        assert(flaky_rows(server, items) == prev + last);
        assert(items[t] == items.last());
        assert(crate::text::occurs_at(flaky_rows(server, items), flaky_row(server, items[t]), prev.len() as int));
    } else {
        assert(items.drop_last()[t] == items[t]);
        lemma_row_in_rows(server, items.drop_last(), t);
        let w = choose|w: int| crate::text::occurs_at(prev, flaky_row(server, items[t]), w);
        lemma_occurs_extend(prev, last, flaky_row(server, items[t]), w);
        assert(flaky_rows(server, items) == prev + last);
        assert(crate::text::occurs_at(flaky_rows(server, items), flaky_row(server, items[t]), w));
    }
}

/// The comment lists the run's flaky tests, one row each: the heading
/// counts the reported tests (positive score, present in the run), the
/// rows follow in the server's order, and every reported test's row occurs
/// in the comment. With none reported, the comment says so.
pub proof fn law_every_reported_test_has_its_row(
    server: Seq<char>,
    results: Seq<TestResult>,
    flaky: Seq<FlakyItem>,
    j: int,
)
    ensures
        flaky.filter(reported_filter(results)).len() == 0 ==> flaky_comment_spec(server, results, flaky)
            == NO_FLAKY_TESTS@,
        flaky.filter(reported_filter(results)).len() > 0 ==> flaky_comment_spec(server, results, flaky)
            == FLAKY_HEADER@ + decimal_spec(flaky.filter(reported_filter(results)).len())
            + FLAKY_TABLE_HEAD@ + flaky_rows(strip_end(server, '/'), flaky.filter(reported_filter(results))),
        0 <= j < flaky.len() && flaky[j].score > 0 && in_run(results, flaky[j].class_name@, flaky[j].name@)
            ==> contains_spec(
            flaky_comment_spec(server, results, flaky),
            flaky_row(strip_end(server, '/'), flaky[j]),
        ),
{
    lemma_reported_is_filter(results, flaky);
    let items = flaky.filter(reported_filter(results));
    if 0 <= j < flaky.len() && flaky[j].score > 0 && in_run(results, flaky[j].class_name@, flaky[j].name@) {
        flaky.lemma_filter_contains(reported_filter(results), j);
        let t = choose|t: int| 0 <= t < items.len() && items[t] == flaky[j];
        let base = strip_end(server, '/');
        lemma_row_in_rows(base, items, t);
        let rows = flaky_rows(base, items);
        let head = FLAKY_HEADER@ + decimal_spec(items.len()) + FLAKY_TABLE_HEAD@;
        let w = choose|w: int| crate::text::occurs_at(rows, flaky_row(base, items[t]), w);
        lemma_occurs_extend(head, rows, flaky_row(base, flaky[j]), w);
        assert(crate::text::occurs_at(head + rows, flaky_row(base, flaky[j]), head.len() + w));
    }
}

} // verus!
