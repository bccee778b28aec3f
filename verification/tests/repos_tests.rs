use herdr_core::repos::{dedup_repositories, Repository};
use herdr_core::workspace::GitSpaceMetadata;

fn probe(key: &str, root: &str, label: &str, linked: bool) -> GitSpaceMetadata {
    GitSpaceMetadata {
        key: key.to_string(),
        label: label.to_string(),
        repo_root: root.to_string(),
        checkout_path: root.to_string(),
        is_linked_worktree: linked,
    }
}

fn repo(key: &str, root: &str, label: &str) -> Repository {
    Repository { key: key.to_string(), root: root.to_string(), label: label.to_string() }
}

#[test]
fn linked_worktree_collapses_into_its_primary_checkout() {
    let out = dedup_repositories(&vec![
        probe("k1", "/ws/project", "project", false),
        probe("k1", "/ws/project-feature", "project-feature", true),
    ]);
    assert_eq!(out, vec![repo("k1", "/ws/project", "project")]);
}

#[test]
fn a_later_primary_replaces_an_earlier_worktree() {
    let out = dedup_repositories(&vec![
        probe("k1", "/ws/wt", "wt", true),
        probe("k2", "/ws/other", "other", false),
        probe("k1", "/ws/main", "main", false),
    ]);
    assert_eq!(out, vec![repo("k1", "/ws/main", "main"), repo("k2", "/ws/other", "other")]);
}

#[test]
fn among_worktrees_the_last_one_found_stands() {
    let out = dedup_repositories(&vec![probe("k", "/a", "a", true), probe("k", "/b", "b", true)]);
    assert_eq!(out, vec![repo("k", "/b", "b")]);
    assert!(dedup_repositories(&Vec::new()).is_empty());
}
