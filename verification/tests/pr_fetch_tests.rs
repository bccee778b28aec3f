use std::time::SystemTime;

use herdr_core::pr_fetch::{
    detail_from_raw, detail_query, details_for_chunk, empty_snapshot, fetched_from_parts, gh_failure_message,
    graphql_error_message, needs_viewer_lookup, repo_owner_map, select_local_refs, snapshot_from_fetch,
    viewer_login_from_output, PrDetail, PrRef, RawDetailNode, RawReview, RawThread, RefData, RefNode,
};
use herdr_core::pr_status::{CiState, FetchedPr, ReviewSubmission, ReviewThread};

#[allow(clippy::too_many_arguments)]
fn node(id: &str, number: u64, title: &str, head: &str, author: Option<&str>, repo: &str) -> RefNode {
    RefNode {
        id: id.to_string(),
        number,
        title: title.to_string(),
        url: "u".to_string(),
        is_draft: false,
        base_ref_name: "main".to_string(),
        head_ref_name: head.to_string(),
        author: author.map(str::to_string),
        name_with_owner: repo.to_string(),
    }
}

#[test]
fn select_local_refs_filters_to_local_repos_unions_and_dedups() {
    let data = RefData {
        viewer_login: "me".to_string(),
        mine: vec![node("PR_1", 1, "mine", "me/x", Some("me"), "acme/proj")],
        requested: vec![
            node("PR_2", 2, "rev", "a/x", Some("alice"), "Acme/Proj"),
            node("PR_9", 9, "foreign", "x", Some("bob"), "other/repo"),
        ],
        reviewed_by: vec![node("PR_2", 2, "rev", "a/x", Some("alice"), "acme/proj")],
    };
    assert_eq!(data.viewer_login, "me");
    let map = vec![("acme/proj".to_string(), "acme/proj".to_string())];
    let refs = select_local_refs(data, &map);
    assert_eq!(refs.len(), 2, "local PRs only, deduped; foreign repo dropped");
    let pr2 = refs.iter().find(|r| r.number == 2).unwrap();
    assert_eq!(pr2.repo_key, "acme/proj");
    assert_eq!(pr2.id, "PR_2");
}

#[test]
fn select_local_refs_skips_non_pr_nodes_and_names_ghost_authors() {
    let data = RefData {
        viewer_login: "me".to_string(),
        mine: vec![node("", 0, "", "", None, ""), node("PR_5", 5, "t", "h", None, "ACME/proj")],
        requested: Vec::new(),
        reviewed_by: Vec::new(),
    };
    let map = vec![("acme/proj".to_string(), "key-1".to_string())];
    let refs = select_local_refs(data, &map);
    assert_eq!(refs.len(), 1);
    assert_eq!(refs[0].author, "ghost");
    assert_eq!(refs[0].repo_key, "key-1");
    assert_eq!(refs[0].head_ref, "h");
}

#[test]
fn detail_from_raw_extracts_threads_reviews_and_ci() {
    let node = RawDetailNode {
        reviews: vec![RawReview { state: "APPROVED".to_string(), author: Some("alice".to_string()) }],
        review_threads: vec![RawThread { is_resolved: false, comment_authors: vec![Some("bob".to_string())] }],
        commit_rollups: vec![Some("FAILURE".to_string())],
    };
    let detail = detail_from_raw(node);
    assert_eq!(detail.reviews.len(), 1);
    assert_eq!(detail.threads.len(), 1);
    assert_eq!(detail.threads[0].last_comment_author.as_deref(), Some("bob"));
    assert_eq!(detail.ci, CiState::Failing);
}

#[test]
fn detail_rollup_states_and_missing_authors() {
    let mk = |rollups: Vec<Option<&str>>| RawDetailNode {
        reviews: vec![RawReview { state: "COMMENTED".to_string(), author: None }],
        review_threads: vec![
            RawThread { is_resolved: true, comment_authors: Vec::new() },
            RawThread { is_resolved: false, comment_authors: vec![Some("a".to_string()), None] },
        ],
        commit_rollups: rollups.into_iter().map(|r| r.map(str::to_string)).collect(),
    };
    assert_eq!(detail_from_raw(mk(vec![Some("SUCCESS")])).ci, CiState::Passing);
    assert_eq!(detail_from_raw(mk(vec![Some("ERROR")])).ci, CiState::Failing);
    assert_eq!(detail_from_raw(mk(vec![Some("PENDING")])).ci, CiState::Pending);
    assert_eq!(detail_from_raw(mk(vec![Some("EXPECTED")])).ci, CiState::Pending);
    assert_eq!(detail_from_raw(mk(vec![Some("NEUTRAL")])).ci, CiState::Unknown);
    assert_eq!(detail_from_raw(mk(vec![Some("SUCCESS"), None])).ci, CiState::Unknown);
    assert_eq!(detail_from_raw(mk(Vec::new())).ci, CiState::Unknown);
    let d = detail_from_raw(mk(Vec::new()));
    assert_eq!(d.reviews[0].author, "");
    assert_eq!(d.threads[0].last_comment_author, None);
    assert!(d.threads[0].is_resolved);
    assert_eq!(d.threads[1].last_comment_author, None);
}

#[test]
fn chunk_details_are_padded_to_the_request() {
    let raw = RawDetailNode {
        reviews: Vec::new(),
        review_threads: Vec::new(),
        commit_rollups: vec![Some("SUCCESS".to_string())],
    };
    let ds = details_for_chunk(vec![None, Some(raw)], 4);
    assert_eq!(ds.len(), 4);
    assert_eq!(ds[0].ci, CiState::Unknown);
    assert_eq!(ds[1].ci, CiState::Passing);
    assert_eq!(ds[3].ci, CiState::Unknown);
    let ds = details_for_chunk(Vec::new(), 0);
    assert!(ds.is_empty());
}

fn pr_ref(number: u64) -> PrRef {
    PrRef {
        id: format!("PR_{number}"),
        number,
        title: format!("t{number}"),
        url: "u".to_string(),
        author: "alice".to_string(),
        is_draft: number % 2 == 0,
        base_ref: "main".to_string(),
        head_ref: format!("h{number}"),
        repo_key: "k".to_string(),
    }
}

#[test]
fn parts_are_zipped_in_order() {
    let mut d = PrDetail::default();
    d.ci = CiState::Failing;
    d.threads = vec![ReviewThread { is_resolved: false, last_comment_author: None }];
    d.reviews = vec![ReviewSubmission { state: "APPROVED".to_string(), author: "x".to_string() }];
    let prs = fetched_from_parts(&vec![pr_ref(1), pr_ref(2)], &vec![d]);
    assert_eq!(prs.len(), 1);
    assert_eq!(prs[0].number, 1);
    assert_eq!(prs[0].ci, CiState::Failing);
    assert_eq!(prs[0].threads.len(), 1);
    assert_eq!(prs[0].reviews[0].author, "x");
    assert_eq!(prs[0].head_ref, "h1");
}

#[test]
fn graphql_errors_are_joined() {
    assert_eq!(graphql_error_message(Some(vec!["a".to_string(), "b".to_string()])), "a; b");
    assert_eq!(graphql_error_message(Some(Vec::new())), "no data in gh response");
    assert_eq!(graphql_error_message(Some(vec![String::new()])), "no data in gh response");
    assert_eq!(graphql_error_message(None), "no data in gh response");
}

#[test]
fn viewer_login_is_trimmed_output() {
    assert_eq!(viewer_login_from_output("  octocat\n"), Some("octocat".to_string()));
    assert_eq!(viewer_login_from_output(" \n"), None);
}

#[test]
fn gh_failure_prefers_stderr() {
    assert_eq!(gh_failure_message(" rate limited\n", "exit status: 1"), "rate limited");
    assert_eq!(gh_failure_message("  ", "exit status: 1"), "gh exited unsuccessfully (exit status: 1)");
}

#[test]
fn detail_query_lists_quoted_ids() {
    let q = detail_query(&vec!["A".to_string(), "B".to_string()]);
    assert!(q.starts_with("query=query { nodes(ids: [\"A\",\"B\"]) { ... on PullRequest { reviews(last: 50)"));
    assert!(q.ends_with("statusCheckRollup { state } } } } } } }"));
}

#[test]
fn owner_names_are_lowercased_and_later_repos_win() {
    let map = repo_owner_map(&vec![
        ("Acme/Proj".to_string(), "k1".to_string()),
        ("other/x".to_string(), "k2".to_string()),
        ("ACME/proj".to_string(), "k3".to_string()),
    ]);
    assert_eq!(map.len(), 2);
    assert!(map.contains(&("acme/proj".to_string(), "k3".to_string())));
    assert!(map.contains(&("other/x".to_string(), "k2".to_string())));
}

fn fetched(number: u64, author: &str) -> FetchedPr {
    FetchedPr {
        number,
        title: "t".to_string(),
        url: "u".to_string(),
        author: author.to_string(),
        is_draft: false,
        base_ref: "main".to_string(),
        head_ref: format!("h{number}"),
        repo_key: "k".to_string(),
        threads: Vec::new(),
        reviews: Vec::new(),
        ci: CiState::Unknown,
    }
}

#[test]
fn snapshot_from_a_successful_fetch() {
    let now = SystemTime::now();
    let fetched_ok: Result<(String, Vec<FetchedPr>), String> =
        Ok(("me".to_string(), vec![fetched(1, "me"), fetched(2, "alice")]));
    assert!(!needs_viewer_lookup(&fetched_ok));
    let snap = snapshot_from_fetch(fetched_ok, None, now);
    assert_eq!(snap.viewer_login, "me");
    assert_eq!(snap.people.len(), 2);
    assert_eq!(snap.people[0].login, "me");
    assert!(snap.errors.is_empty());
    assert_eq!(snap.generated_at, now);
}

#[test]
fn snapshot_falls_back_to_looked_up_viewer_and_reports_errors() {
    let now = SystemTime::now();
    let no_viewer: Result<(String, Vec<FetchedPr>), String> = Ok((String::new(), Vec::new()));
    assert!(needs_viewer_lookup(&no_viewer));
    let snap = snapshot_from_fetch(no_viewer, Some("octo".to_string()), now);
    assert_eq!(snap.viewer_login, "octo");
    let failed: Result<(String, Vec<FetchedPr>), String> = Err("gh timed out after 60s".to_string());
    assert!(needs_viewer_lookup(&failed));
    let snap = snapshot_from_fetch(failed, None, now);
    assert_eq!(snap.viewer_login, "");
    assert!(snap.people.is_empty());
    assert_eq!(snap.errors, vec!["gh timed out after 60s".to_string()]);
    let snap = empty_snapshot(Some("octo".to_string()), now);
    assert_eq!(snap.viewer_login, "octo");
    assert!(snap.people.is_empty() && snap.errors.is_empty());
}
