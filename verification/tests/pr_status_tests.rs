use std::collections::HashSet;

use herdr_core::pr_fetch::parse_github_owner_name;
use herdr_core::pr_status::{
    aggregate_people, classify_pr, CiState, FetchedPr, PrBucket, ReviewSubmission, ReviewThread,
};
use herdr_core::stack_graph::StackGraph;

fn pr(number: u64, author: &str, base: &str, head: &str) -> FetchedPr {
    FetchedPr {
        number,
        title: format!("pr {number}"),
        url: format!("https://github.com/acme/proj/pull/{number}"),
        author: author.to_string(),
        is_draft: false,
        base_ref: base.to_string(),
        head_ref: head.to_string(),
        repo_key: "acme/proj".to_string(),
        threads: Vec::new(),
        reviews: Vec::new(),
        ci: CiState::Unknown,
    }
}

fn thread(resolved: bool, last: Option<&str>) -> ReviewThread {
    ReviewThread { is_resolved: resolved, last_comment_author: last.map(str::to_string) }
}

fn review(state: &str, author: &str) -> ReviewSubmission {
    ReviewSubmission { state: state.to_string(), author: author.to_string() }
}

#[test]
fn red_when_a_thread_awaits_my_reply() {
    let mut p = pr(1, "alice", "main", "alice/x");
    p.threads = vec![thread(false, Some("alice"))];
    assert_eq!(classify_pr(&p, "me"), PrBucket::Red);
}

#[test]
fn others_unreviewed_pr_is_red() {
    let p = pr(1, "alice", "main", "alice/x");
    assert_eq!(classify_pr(&p, "me"), PrBucket::Red);
}

#[test]
fn my_unreviewed_pr_is_grey() {
    let p = pr(1, "me", "main", "me/x");
    assert_eq!(classify_pr(&p, "me"), PrBucket::Grey);
}

#[test]
fn grey_when_all_threads_me_last() {
    let mut p = pr(1, "alice", "main", "alice/x");
    p.threads = vec![thread(false, Some("me")), thread(false, Some("me"))];
    assert_eq!(classify_pr(&p, "me"), PrBucket::Grey);
}

#[test]
fn resolved_thread_does_not_make_it_red() {
    let mut p = pr(1, "alice", "main", "alice/x");
    p.threads = vec![thread(true, Some("alice"))];
    assert_eq!(classify_pr(&p, "me"), PrBucket::Grey);
}

#[test]
fn green_others_pr_only_when_i_approved() {
    let mut p = pr(1, "alice", "main", "alice/x");
    p.threads = vec![thread(false, Some("me"))];
    p.reviews = vec![review("APPROVED", "bob")];
    assert_eq!(classify_pr(&p, "me"), PrBucket::Grey, "bob's approval isn't mine");
    p.reviews = vec![review("APPROVED", "me")];
    assert_eq!(classify_pr(&p, "me"), PrBucket::Green);
}

#[test]
fn green_my_pr_when_anyone_approved() {
    let mut p = pr(1, "me", "main", "me/x");
    p.threads = vec![thread(false, Some("me"))];
    p.reviews = vec![review("APPROVED", "alice")];
    assert_eq!(classify_pr(&p, "me"), PrBucket::Green);
}

#[test]
fn red_beats_green() {
    let mut p = pr(1, "alice", "main", "alice/x");
    p.threads = vec![thread(false, Some("alice"))];
    p.reviews = vec![review("APPROVED", "me")];
    assert_eq!(classify_pr(&p, "me"), PrBucket::Red);
}

#[test]
fn later_changes_requested_unapproves() {
    let mut p = pr(1, "me", "main", "me/x");
    p.threads = vec![thread(false, Some("me"))];
    p.reviews = vec![review("APPROVED", "alice"), review("CHANGES_REQUESTED", "alice")];
    assert_eq!(classify_pr(&p, "me"), PrBucket::Grey);
}

#[test]
fn stack_visible_rows_keep_descendant_under_hidden_parent() {
    let prs = vec![pr(1, "alice", "main", "a"), pr(2, "alice", "a", "b"), pr(3, "alice", "b", "c")];
    let graph = StackGraph::build(&prs);
    let visible_keys: HashSet<(String, u64)> =
        [("acme/proj".to_string(), 1), ("acme/proj".to_string(), 3)].into_iter().collect();
    let rows = graph.visible_forest(&|key: &(String, u64)| visible_keys.contains(key));
    let view: Vec<(u64, &str)> = rows.iter().map(|r| (r.key.1, r.prefix.as_str())).collect();
    assert_eq!(view, vec![(1, ""), (3, "└ ")]);
}

#[test]
fn stack_visible_forest_draws_box_connectors() {
    let prs = vec![pr(1, "alice", "main", "a"), pr(2, "alice", "a", "b"), pr(3, "alice", "b", "c")];
    let graph = StackGraph::build(&prs);
    let rows = graph.visible_forest(&|_: &(String, u64)| true);
    let view: Vec<(u64, &str)> = rows.iter().map(|r| (r.key.1, r.prefix.as_str())).collect();
    assert_eq!(view, vec![(1, ""), (2, "└─┬ "), (3, "  └ ")]);
}

#[test]
fn aggregate_puts_me_first_then_most_red() {
    let mut mine = pr(1, "me", "main", "me/x");
    mine.threads = vec![thread(false, Some("me"))];
    let alice = pr(2, "alice", "main", "alice/x");
    let bob1 = pr(3, "bob", "main", "bob/x");
    let bob2 = pr(4, "bob", "main", "bob/y");
    let people = aggregate_people(&vec![mine, alice, bob1, bob2], "me");
    assert_eq!(people[0].login, "me");
    assert!(people[0].is_me);
    assert_eq!(people[1].login, "bob", "bob has more red than alice");
    assert_eq!(people[1].red, 2);
    assert_eq!(people[2].login, "alice");
}

#[test]
fn parse_github_owner_name_handles_url_shapes() {
    assert_eq!(parse_github_owner_name("git@github.com:acme/proj.git").as_deref(), Some("acme/proj"));
    assert_eq!(parse_github_owner_name("https://github.com/acme/proj").as_deref(), Some("acme/proj"));
    assert_eq!(parse_github_owner_name("git@gitlab.com:acme/proj.git"), None);
}

#[test]
fn parse_github_owner_name_other_shapes() {
    assert_eq!(parse_github_owner_name("ssh://git@github.com/acme/proj.git").as_deref(), Some("acme/proj"));
    assert_eq!(parse_github_owner_name("http://github.com/acme/proj/").as_deref(), Some("acme/proj"));
    assert_eq!(parse_github_owner_name("https://github.com/acme"), None);
    assert_eq!(parse_github_owner_name("https://github.com//proj"), None);
}

#[test]
fn aggregate_ties_break_by_login_and_count_failing_ci() {
    let mut a = pr(1, "zed", "main", "z/x");
    a.ci = CiState::Failing;
    let b = pr(2, "amy", "main", "a/x");
    let people = aggregate_people(&vec![a, b], "me");
    assert_eq!(people.len(), 2);
    assert_eq!(people[0].login, "amy");
    assert_eq!(people[1].login, "zed");
    assert_eq!(people[1].ci, 1);
    assert_eq!(people[0].ci, 0);
}

#[test]
fn to_review_pr_copies_branches() {
    let p = pr(9, "alice", "main", "alice/x");
    let r = p.to_review_pr();
    assert_eq!(r.number, 9);
    assert_eq!(r.head_branch, "alice/x");
    assert_eq!(r.base_branch, "main");
    assert_eq!(r.graph_prefix, "");
}

#[test]
fn stack_graph_is_scoped_per_repo() {
    let mut other = pr(2, "alice", "a", "b");
    other.repo_key = "other/repo".to_string();
    let prs = vec![pr(1, "alice", "main", "a"), other];
    let graph = StackGraph::build(&prs);
    let rows = graph.visible_forest(&|_: &(String, u64)| true);
    let view: Vec<(&str, u64, &str)> = rows.iter().map(|r| (r.key.0.as_str(), r.key.1, r.prefix.as_str())).collect();
    assert_eq!(view, vec![("acme/proj", 1, ""), ("other/repo", 2, "")]);
}
