//! The test-history and build records the server stores, their stored
//! spellings, and the normalization of test identities.

use vstd::prelude::*;
use crate::score::Verdict;
use crate::text::{trim, trim_spec};

verus! {

/// Outcome of one test execution.
#[derive(Debug, Clone, Copy, PartialEq, Eq, Structural)]
pub enum Status {
    Pass,
    Fail,
    Error,
    Skip,
}

/// The stored spelling of a status.
pub open spec fn status_name(s: Status) -> Seq<char> {
    match s {
        Status::Pass => "pass"@,
        Status::Fail => "fail"@,
        Status::Error => "error"@,
        Status::Skip => "skip"@,
    }
}

impl Status {
    /// The stored spelling of the status.
    pub fn as_str(self) -> (r: &'static str)
        ensures
            r@ == status_name(self),
    {
        match self {
            Status::Pass => "pass",
            Status::Fail => "fail",
            Status::Error => "error",
            Status::Skip => "skip",
        }
    }
}

/// A test run as uploaded: its idempotency key, commit and results.
#[derive(Debug)]
pub struct RunPayload {
    pub run_key: String,
    pub sha: String,
    pub branch: String,
    pub ci_url: Option<String>,
    pub results: Vec<ResultPayload>,
}

/// One uploaded test result.
#[derive(Debug)]
pub struct ResultPayload {
    pub class_name: String,
    pub name: String,
    pub status: Status,
    pub time_ms: u64,
    pub message: Option<String>,
}

/// Outcome of a whole build.
#[derive(Debug, Clone, Copy, PartialEq, Eq, Structural)]
pub enum BuildOutcome {
    Success,
    Failed,
}

/// The stored spelling of a build outcome.
pub open spec fn build_outcome_name(o: BuildOutcome) -> Seq<char> {
    match o {
        BuildOutcome::Success => "success"@,
        BuildOutcome::Failed => "failed"@,
    }
}

impl BuildOutcome {
    /// The stored spelling of the outcome.
    pub fn as_str(self) -> (r: &'static str)
        ensures
            r@ == build_outcome_name(self),
    {
        match self {
            BuildOutcome::Success => "success",
            BuildOutcome::Failed => "failed",
        }
    }
}

/// Outcome of one task execution, as Gradle reports it.
#[derive(Debug, Clone, Copy, PartialEq, Eq, Structural)]
pub enum TaskOutcome {
    Success,
    UpToDate,
    FromCache,
    Failed,
    Skipped,
}

/// The stored spelling of a task outcome.
pub open spec fn task_outcome_name(o: TaskOutcome) -> Seq<char> {
    match o {
        TaskOutcome::Success => "success"@,
        TaskOutcome::UpToDate => "up-to-date"@,
        TaskOutcome::FromCache => "from-cache"@,
        TaskOutcome::Failed => "failed"@,
        TaskOutcome::Skipped => "skipped"@,
    }
}

impl TaskOutcome {
    /// The stored spelling of the outcome.
    pub fn as_str(self) -> (r: &'static str)
        ensures
            r@ == task_outcome_name(self),
    {
        match self {
            TaskOutcome::Success => "success",
            TaskOutcome::UpToDate => "up-to-date",
            TaskOutcome::FromCache => "from-cache",
            TaskOutcome::Failed => "failed",
            TaskOutcome::Skipped => "skipped",
        }
    }
}

/// A build as uploaded by the Gradle telemetry script.
#[derive(Debug)]
pub struct BuildPayload {
    pub build_key: String,
    pub sha: Option<String>,
    pub branch: Option<String>,
    pub ci_url: Option<String>,
    pub outcome: BuildOutcome,
    pub requested_tasks: String,
    pub gradle_version: Option<String>,
    pub java_version: Option<String>,
    pub total_ms: u64,
    pub configuration_ms: u64,
    pub tasks: Vec<TaskPayload>,
}

/// One uploaded task execution.
#[derive(Debug)]
pub struct TaskPayload {
    pub path: String,
    pub outcome: TaskOutcome,
    pub duration_ms: u64,
}

/// A stored test identity.
#[derive(Debug, Clone)]
pub struct TestRow {
    pub id: i64,
    pub class_name: String,
    pub name: String,
}

/// One run's verdict for a test, newest first.
#[derive(Debug, Clone)]
pub struct VerdictRow {
    pub run_id: i64,
    pub sha: String,
    pub branch: String,
    pub created_at: String,
    pub verdict: Option<Verdict>,
}

/// A stored run.
#[derive(Debug, Clone)]
pub struct RunRow {
    pub run_key: String,
    pub sha: String,
    pub branch: String,
    pub ci_url: Option<String>,
    pub created_at: String,
}

/// Per-test verdict within one run.
#[derive(Debug, Clone)]
pub struct RunTestRow {
    pub test_id: i64,
    pub class_name: String,
    pub name: String,
    pub verdict: Option<Verdict>,
}

/// One build with aggregated task outcome counts.
#[derive(Debug, Clone)]
pub struct BuildRow {
    pub id: i64,
    pub build_key: String,
    pub sha: Option<String>,
    pub branch: Option<String>,
    pub ci_url: Option<String>,
    pub outcome: String,
    pub requested_tasks: String,
    pub gradle_version: Option<String>,
    pub java_version: Option<String>,
    pub total_ms: i64,
    pub configuration_ms: i64,
    pub created_at: String,
    pub tasks: i64,
    pub success: i64,
    pub up_to_date: i64,
    pub from_cache: i64,
    pub failed: i64,
    pub skipped: i64,
}

impl BuildRow {
    /// Tasks whose work was avoided (up-to-date or from-cache).
    pub fn avoided(&self) -> (r: i64)
        requires
            i64::MIN <= self.up_to_date + self.from_cache <= i64::MAX,
        ensures
            r == self.up_to_date + self.from_cache,
    {
        self.up_to_date + self.from_cache
    }
}

/// One stored task execution.
#[derive(Debug, Clone)]
pub struct TaskExecutionRow {
    pub path: String,
    pub outcome: String,
    pub duration_ms: i64,
}

/// Runs of white space.
pub const WHITESPACE_RUN: &'static str = "\\s+";

/// A hex object address such as `@1a2b3c4d`.
pub const HEX_ADDRESS: &'static str = "@[0-9a-fA-F]{6,}";

/// A UUID.
pub const UUID: &'static str = "[0-9a-fA-F]{8}-[0-9a-fA-F]{4}-[0-9a-fA-F]{4}-[0-9a-fA-F]{4}-[0-9a-fA-F]{12}";

/// Whether `regex::Regex::new` accepts the pattern.
pub uninterp spec fn regex_compiles(pattern: Seq<char>) -> bool;

/// What `regex::Regex::replace_all` makes of `text`: every leftmost-first,
/// non-overlapping match of `pattern` replaced by `replacement`.
pub uninterp spec fn regex_replaced(pattern: Seq<char>, text: Seq<char>, replacement: Seq<char>) -> Seq<char>;

/// Compiles `pattern` with `regex::Regex::new` and, if it compiles, replaces
/// all its matches in `text` with `replacement` (`Regex::replace_all`). The
/// contract claims only that the result is present exactly when the pattern
/// compiles, and that it is the replacement result for these three strings.
#[verifier::external_body]
fn replace_all(pattern: &str, text: &str, replacement: &str) -> (r: Option<String>)
    ensures
        r is Some <==> regex_compiles(pattern@),
        r matches Some(s) ==> s@ == regex_replaced(pattern@, text@, replacement@),
{
    match regex::Regex::new(pattern) {
        Ok(re) => Some(re.replace_all(text, replacement).into_owned()),
        Err(_) => None,
    }
}

/// The normalized identity component: trimmed, white-space runs collapsed
/// to one space, then hex addresses and then UUIDs replaced by `_`; absent
/// when one of the three patterns does not compile.
pub open spec fn normalized(s: Seq<char>) -> Option<Seq<char>> {
    if regex_compiles(WHITESPACE_RUN@) && regex_compiles(HEX_ADDRESS@) && regex_compiles(UUID@) {
        Some(
            regex_replaced(
                UUID@,
                regex_replaced(
                    HEX_ADDRESS@,
                    regex_replaced(WHITESPACE_RUN@, trim_spec(s), " "@),
                    "_"@,
                ),
                "_"@,
            ),
        )
    } else {
        None
    }
}

/// Normalizes a test identity component: collapses whitespace and replaces
/// volatile tokens (hex object addresses, UUIDs) so identity is stable
/// across runs.
pub fn normalize(s: &str) -> (r: Option<String>)
    ensures
        r matches Some(t) ==> normalized(s@) == Some(t@),
        r is None ==> normalized(s@) is None,
{
    let t = trim(s);
    let collapsed = replace_all(WHITESPACE_RUN, t.as_str(), " ")?;
    let addresses = replace_all(HEX_ADDRESS, collapsed.as_str(), "_")?;
    let uuids = replace_all(UUID, addresses.as_str(), "_")?;
    Some(uuids)
}

/// Test identities that differ only in surrounding white space normalize
/// alike, so they map to one stored test.
pub proof fn law_normalize_ignores_surrounding_white_space(a: Seq<char>, b: Seq<char>)
    requires
        trim_spec(a) == trim_spec(b),
    ensures
        normalized(a) == normalized(b),
{
}

} // verus!
