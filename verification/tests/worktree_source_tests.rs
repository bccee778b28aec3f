use herdr_core::pane_state::{PaneId, TerminalId};
use herdr_core::workspace::{GitSpaceMetadata, Workspace, WorktreeSpaceMembership};
use herdr_core::worktree_source::{mark_opened_existing_worktree_membership, worktree_source_metadata};

fn ws(name: &str) -> Workspace {
    Workspace::new_with_tab(format!("w-{name}"), format!("/tmp/{name}"), PaneId(1), TerminalId(1), None)
}

fn git(root: &str, linked: bool) -> GitSpaceMetadata {
    GitSpaceMetadata {
        key: "/repo/.git".into(),
        label: "repo".into(),
        repo_root: root.into(),
        checkout_path: root.into(),
        is_linked_worktree: linked,
    }
}

fn membership(checkout: &str, linked: bool) -> WorktreeSpaceMembership {
    WorktreeSpaceMembership {
        key: "/repo/.git".into(),
        label: "repo".into(),
        repo_root: "/repo".into(),
        checkout_path: checkout.into(),
        is_linked_worktree: linked,
    }
}

#[test]
fn worktree_create_and_open_dialogs_reject_linked_child_source() {
    let mut issue = ws("issue");
    issue.worktree_space = Some(WorktreeSpaceMembership {
        key: "repo-key".into(),
        label: "herdr".into(),
        repo_root: "/repo/herdr".into(),
        checkout_path: "/repo/herdr-issue".into(),
        is_linked_worktree: true,
    });
    let err = worktree_source_metadata(&vec![issue], 0, None).unwrap_err();
    assert_eq!(err, "New and open worktree actions start from the repo parent workspace.");
    let mut linked_checkout = ws("linked");
    linked_checkout.cached_git_space = Some(git("/repo-linked", true));
    let err = worktree_source_metadata(&vec![linked_checkout], 0, None).unwrap_err();
    assert_eq!(err, "New and open worktree actions start from the repo parent workspace.");
}

#[test]
fn worktree_source_prefers_membership_then_git_metadata() {
    let mut parent = ws("parent");
    parent.worktree_space = Some(membership("/repo", false));
    let src = worktree_source_metadata(&vec![parent], 0, None).unwrap();
    assert_eq!(src.membership, Some(membership("/repo", false)));
    assert_eq!(src.space.repo_root, "/repo");
    assert_eq!(src.checkout_path, "/repo");
    assert_eq!(src.workspace_id, "w-parent");

    let mut plain = ws("plain");
    plain.cached_git_space = Some(git("/repo", false));
    let src = worktree_source_metadata(&vec![plain], 0, Some(git("/elsewhere", true))).unwrap();
    assert_eq!(src.membership, None);
    assert_eq!(src.space, git("/repo", false));
    assert_eq!(src.checkout_path, "/repo");

    // Without cached metadata the probed metadata is used.
    let src = worktree_source_metadata(&vec![ws("fresh")], 0, Some(git("/probe", false))).unwrap();
    assert_eq!(src.checkout_path, "/probe");

    let err = worktree_source_metadata(&vec![ws("fresh")], 0, None).unwrap_err();
    assert_eq!(err, "Herdr worktree actions require a workspace inside a Git work tree.");
    let err = worktree_source_metadata(&Vec::new(), 0, None).unwrap_err();
    assert_eq!(err, "Workspace not found.");
}

#[test]
fn opened_worktree_records_both_memberships() {
    let mut workspaces = vec![ws("source"), ws("other"), ws("target")];
    mark_opened_existing_worktree_membership(
        &mut workspaces,
        "w-source",
        None,
        "/repo".into(),
        "/repo".into(),
        "/repo/.git".into(),
        "repo".into(),
        2,
        "/repo-feature".into(),
        true,
    );
    assert_eq!(workspaces[0].worktree_space, Some(membership("/repo", false)));
    assert_eq!(workspaces[1].worktree_space, None);
    assert_eq!(workspaces[2].worktree_space, Some(membership("/repo-feature", true)));

    // A source that already had a membership keeps it.
    let mut workspaces = vec![ws("source"), ws("target")];
    let kept = membership("/repo-main", false);
    mark_opened_existing_worktree_membership(
        &mut workspaces,
        "w-source",
        Some(kept.clone()),
        "/ignored".into(),
        "/repo".into(),
        "/repo/.git".into(),
        "repo".into(),
        1,
        "/repo-b".into(),
        false,
    );
    assert_eq!(workspaces[0].worktree_space, Some(kept));
    assert_eq!(workspaces[1].worktree_space, Some(membership("/repo-b", false)));
}
