use herdr_core::pr_inbox::{
    classify_gh_failure, inbox_from_gh_outcome, summaries_from_raw, summary_from_raw, GhSearchOutcome,
    PullRequestInbox, PullRequestInboxStatus, PullRequestSummary, RawSearchPr,
};

fn raw(number: u64, with_owner: Option<&str>, name: Option<&str>, draft: bool) -> RawSearchPr {
    RawSearchPr {
        number,
        title: format!("pr {number}"),
        url: format!("https://github.com/acme/proj/pull/{number}"),
        state: "open".to_string(),
        is_draft: draft,
        repository_name_with_owner: with_owner.map(str::to_string),
        repository_name: name.map(str::to_string),
        updated_at: "2026-06-28T14:06:20Z".to_string(),
    }
}

#[test]
fn classify_gh_failure_detects_auth() {
    assert_eq!(
        classify_gh_failure("To get started with GitHub CLI, please run: gh auth login"),
        PullRequestInboxStatus::GhNotAuthed
    );
    assert_eq!(
        classify_gh_failure("You are not logged in to any GitHub hosts."),
        PullRequestInboxStatus::GhNotAuthed
    );
}

#[test]
fn classify_gh_failure_generic_error() {
    assert_eq!(
        classify_gh_failure("  some unexpected failure\n"),
        PullRequestInboxStatus::Error {
            message: "some unexpected failure".to_string(),
        }
    );
}

#[test]
fn classify_gh_failure_is_case_insensitive_about_auth() {
    assert_eq!(classify_gh_failure("ERROR: GH AUTH LOGIN required"), PullRequestInboxStatus::GhNotAuthed);
}

#[test]
fn summary_prefers_owner_name_then_bare_name() {
    let s = summary_from_raw(raw(14655, Some("starkware-libs/sequencer"), Some("sequencer"), false));
    assert_eq!(s.repo, "starkware-libs/sequencer");
    assert_eq!(s.number, 14655);
    assert_eq!(s.title, "pr 14655");
    let s = summary_from_raw(raw(1, None, Some("sequencer"), true));
    assert_eq!(s.repo, "sequencer");
    assert!(s.is_draft);
    let s = summary_from_raw(raw(2, None, None, false));
    assert_eq!(s.repo, "");
}

#[test]
fn summaries_keep_order() {
    let s = summaries_from_raw(vec![raw(3, Some("a/b"), None, false), raw(1, Some("c/d"), None, true)]);
    let numbers: Vec<u64> = s.iter().map(|p| p.number).collect();
    assert_eq!(numbers, vec![3, 1]);
}

#[test]
fn default_inbox_is_empty_and_loading() {
    let inbox = PullRequestInbox::default();
    assert!(inbox.prs.is_empty());
    assert_eq!(inbox.status, PullRequestInboxStatus::Loading);
}

#[test]
fn gh_outcomes_map_to_statuses() {
    let inbox = inbox_from_gh_outcome(GhSearchOutcome::NotInstalled);
    assert_eq!(inbox.status, PullRequestInboxStatus::GhNotInstalled);
    assert!(inbox.prs.is_empty());

    let inbox = inbox_from_gh_outcome(GhSearchOutcome::SpawnFailed { message: "boom".to_string() });
    assert_eq!(inbox.status, PullRequestInboxStatus::Error { message: "boom".to_string() });

    let inbox = inbox_from_gh_outcome(GhSearchOutcome::Failed { stderr: "please run gh auth login".to_string() });
    assert_eq!(inbox.status, PullRequestInboxStatus::GhNotAuthed);

    let prs = vec![PullRequestSummary {
        number: 5,
        title: "t".to_string(),
        url: "u".to_string(),
        state: "open".to_string(),
        is_draft: false,
        repo: "a/b".to_string(),
        updated_at: "x".to_string(),
    }];
    let inbox = inbox_from_gh_outcome(GhSearchOutcome::Succeeded { parsed: Ok(prs.clone()) });
    assert_eq!(inbox.status, PullRequestInboxStatus::Loaded);
    assert_eq!(inbox.prs, prs);

    let inbox = inbox_from_gh_outcome(GhSearchOutcome::Succeeded { parsed: Err("bad json".to_string()) });
    assert_eq!(inbox.status, PullRequestInboxStatus::Error { message: "bad json".to_string() });
    assert!(inbox.prs.is_empty());
}
