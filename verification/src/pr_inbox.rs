//! Personal pull-request inbox: the PRs the user is involved in, as `gh search
//! prs` reports them, and the status the inbox shows when `gh` fails.
use vstd::prelude::*;
use crate::text::{ascii_lower, chars_of, contains_chars, has_substring, lower_chars, trim_ws};

verus! {

/// One pull request in the inbox.
#[derive(Debug, Clone, PartialEq, Eq)]
pub struct PullRequestSummary {
    pub number: u64,
    pub title: String,
    pub url: String,
    pub state: String,
    pub is_draft: bool,
    pub repo: String,
    pub updated_at: String,
}

/// What the inbox can currently show.
#[derive(Debug, Clone, PartialEq, Eq)]
pub enum PullRequestInboxStatus {
    Loaded,
    Loading,
    GhNotInstalled,
    GhNotAuthed,
    Error { message: String },
}

/// The inbox: its pull requests and its status.
#[derive(Debug, Clone, PartialEq, Eq)]
pub struct PullRequestInbox {
    pub prs: Vec<PullRequestSummary>,
    pub status: PullRequestInboxStatus,
}

/// A fresh inbox is empty and loading.
impl Default for PullRequestInbox {
    fn default() -> (r: PullRequestInbox)
        ensures
            r.prs@.len() == 0,
            r.status is Loading,
    {
        PullRequestInbox { prs: Vec::new(), status: PullRequestInboxStatus::Loading }
    }
}

/// One `gh search prs --json number,title,url,state,isDraft,repository,updatedAt`
/// row, as read from the JSON.
#[derive(Debug)]
pub struct RawSearchPr {
    pub number: u64,
    pub title: String,
    pub url: String,
    pub state: String,
    pub is_draft: bool,
    pub repository_name_with_owner: Option<String>,
    pub repository_name: Option<String>,
    pub updated_at: String,
}

impl Clone for RawSearchPr {
    fn clone(&self) -> (r: Self)
        ensures
            r == *self,
    {
        RawSearchPr {
            number: self.number,
            title: self.title.clone(),
            url: self.url.clone(),
            state: self.state.clone(),
            is_draft: self.is_draft,
            repository_name_with_owner: self.repository_name_with_owner.clone(),
            repository_name: self.repository_name.clone(),
            updated_at: self.updated_at.clone(),
        }
    }
}

/// The repository label of a search row: `owner/name` when known, else the bare
/// name, else empty.
pub open spec fn raw_repo_label(raw: RawSearchPr) -> Seq<char> {
    match raw.repository_name_with_owner {
        Some(n) => n@,
        None => match raw.repository_name {
            Some(n) => n@,
            None => Seq::empty(),
        },
    }
}

/// `summary` carries the fields of `raw`, with the repository label resolved.
pub open spec fn summarizes(summary: PullRequestSummary, raw: RawSearchPr) -> bool {
    &&& summary.number == raw.number
    &&& summary.title@ == raw.title@
    &&& summary.url@ == raw.url@
    &&& summary.state@ == raw.state@
    &&& summary.is_draft == raw.is_draft
    &&& summary.repo@ == raw_repo_label(raw)
    &&& summary.updated_at@ == raw.updated_at@
}

/// Turn one search row into an inbox entry.
pub fn summary_from_raw(raw: RawSearchPr) -> (s: PullRequestSummary)
    ensures
        summarizes(s, raw),
{
    let repo = match raw.repository_name_with_owner {
        Some(n) => n,
        None => match raw.repository_name {
            Some(n) => n,
            None => String::new(),
        },
    };
    PullRequestSummary {
        number: raw.number,
        title: raw.title,
        url: raw.url,
        state: raw.state,
        is_draft: raw.is_draft,
        repo,
        updated_at: raw.updated_at,
    }
}

/// Turn the search rows into inbox entries, in order.
pub fn summaries_from_raw(raws: Vec<RawSearchPr>) -> (r: Vec<PullRequestSummary>)
    ensures
        r@.len() == raws@.len(),
        forall|i: int| 0 <= i < raws@.len() ==> summarizes(#[trigger] r@[i], raws@[i]),
{
    let mut r: Vec<PullRequestSummary> = Vec::new();
    let mut i: usize = 0;
    while i < raws.len()
        invariant
            i <= raws@.len(),
            r@.len() == i,
            forall|k: int| 0 <= k < i ==> summarizes(#[trigger] r@[k], raws@[k]),
        decreases raws.len() - i,
    {
        r.push(summary_from_raw(raws[i].clone()));
        i = i + 1;
    }
    r
}

/// Whether a failed `gh` run's stderr speaks of authentication.
pub open spec fn is_auth_failure(stderr: Seq<char>) -> bool {
    let lower = ascii_lower(stderr);
    has_substring(lower, "auth"@) || has_substring(lower, "logged in"@) || has_substring(
        lower,
        "gh auth login"@,
    )
}

/// The status a failed `gh` run maps to.
pub open spec fn failure_status_ok(stderr: Seq<char>, s: PullRequestInboxStatus) -> bool {
    if is_auth_failure(stderr) {
        s is GhNotAuthed
    } else {
        s matches PullRequestInboxStatus::Error { message } && message@ == trim_ws(stderr)
    }
}

/// Classify a failed `gh` invocation's stderr into an inbox status.
///
/// Auth-related failures map to `GhNotAuthed`; anything else is a generic
/// `Error` carrying the trimmed stderr.
pub fn classify_gh_failure(stderr: &str) -> (s: PullRequestInboxStatus)
    ensures
        failure_status_ok(stderr@, s),
{
    let lower = lower_chars(&chars_of(stderr));
    if contains_chars(&lower, &chars_of("auth")) || contains_chars(&lower, &chars_of("logged in"))
        || contains_chars(&lower, &chars_of("gh auth login")) {
        PullRequestInboxStatus::GhNotAuthed
    } else {
        PullRequestInboxStatus::Error { message: stderr.trim().to_string() }
    }
}

/// How a `gh search prs` run ended.
pub enum GhSearchOutcome {
    /// `gh` is not installed.
    NotInstalled,
    /// `gh` could not be started for another reason.
    SpawnFailed { message: String },
    /// `gh` ran and exited unsuccessfully.
    Failed { stderr: String },
    /// `gh` succeeded and its output was read: the rows, or the parse error.
    Succeeded { parsed: Result<Vec<PullRequestSummary>, String> },
}

/// The inbox a `gh` run yields: every failure is a status, never an error.
pub fn inbox_from_gh_outcome(outcome: GhSearchOutcome) -> (inbox: PullRequestInbox)
    ensures
        match outcome {
            GhSearchOutcome::NotInstalled => inbox.prs@.len() == 0 && inbox.status is GhNotInstalled,
            GhSearchOutcome::SpawnFailed { message } => inbox.prs@.len() == 0 && (
            inbox.status matches PullRequestInboxStatus::Error { message: m } && m@ == message@),
            GhSearchOutcome::Failed { stderr } => inbox.prs@.len() == 0 && failure_status_ok(
                stderr@,
                inbox.status,
            ),
            GhSearchOutcome::Succeeded { parsed } => match parsed {
                Ok(prs) => inbox.prs@ == prs@ && inbox.status is Loaded,
                Err(message) => inbox.prs@.len() == 0 && (
                inbox.status matches PullRequestInboxStatus::Error { message: m } && m@
                    == message@),
            },
        },
{
    match outcome {
        GhSearchOutcome::NotInstalled => PullRequestInbox {
            prs: Vec::new(),
            status: PullRequestInboxStatus::GhNotInstalled,
        },
        GhSearchOutcome::SpawnFailed { message } => PullRequestInbox {
            prs: Vec::new(),
            status: PullRequestInboxStatus::Error { message },
        },
        GhSearchOutcome::Failed { stderr } => PullRequestInbox {
            prs: Vec::new(),
            status: classify_gh_failure(stderr.as_str()),
        },
        GhSearchOutcome::Succeeded { parsed } => match parsed {
            Ok(prs) => PullRequestInbox { prs, status: PullRequestInboxStatus::Loaded },
            Err(message) => PullRequestInbox {
                prs: Vec::new(),
                status: PullRequestInboxStatus::Error { message },
            },
        },
    }
}

} // verus!
