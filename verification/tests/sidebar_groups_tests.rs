use herdr_core::pane_state::{PaneId, TerminalId};
use herdr_core::sidebar::{workspace_list_entries, workspace_parent_group_state, WorkspaceListEntry};
use herdr_core::workspace::{GitSpaceMetadata, Workspace, WorktreeSpaceMembership};

fn test_ws(name: &str) -> Workspace {
    let mut ws = Workspace::new_with_tab(format!("w-{name}"), format!("/tmp/{name}"), PaneId(1), TerminalId(1), None);
    ws.set_custom_name(name.to_string());
    ws
}

fn workspace_with_worktree_space(name: &str, key: Option<&str>, checkout_key: &str) -> Workspace {
    let mut ws = test_ws(name);
    if let Some(key) = key {
        ws.worktree_space = Some(WorktreeSpaceMembership {
            key: key.into(),
            label: "herdr".into(),
            repo_root: "/repo/herdr".into(),
            checkout_path: checkout_key.into(),
            is_linked_worktree: name != "main",
        });
    }
    ws
}

fn workspace_with_git_space(name: &str, key: &str) -> Workspace {
    let mut ws = test_ws(name);
    ws.cached_git_space = Some(GitSpaceMetadata {
        key: key.into(),
        label: "herdr".into(),
        repo_root: format!("/repo/{name}"),
        checkout_path: format!("/repo/{name}"),
        is_linked_worktree: false,
    });
    ws
}

fn entries(workspaces: &Vec<Workspace>) -> Vec<WorkspaceListEntry> {
    workspace_list_entries(workspaces, &Vec::new(), false, 0, None)
}

fn row(ws_idx: usize, indented: bool) -> WorkspaceListEntry {
    WorkspaceListEntry::Workspace { ws_idx, indented }
}

#[test]
fn linked_only_worktree_members_nest_under_synthesized_repo_header() {
    let workspaces = vec![
        workspace_with_worktree_space("issue", Some("repo-key"), "/repo/herdr-issue"),
        workspace_with_worktree_space("review", Some("repo-key"), "/repo/herdr-review"),
    ];
    assert_eq!(
        entries(&workspaces),
        vec![WorkspaceListEntry::RepoHeader { key: "repo-key".into() }, row(0, true), row(1, true)]
    );
}

#[test]
fn worktree_nests_under_primary_checkout_matched_by_git_space() {
    let workspaces = vec![
        workspace_with_git_space("herdr", "repo-key"),
        workspace_with_worktree_space("issue", Some("repo-key"), "/repo/herdr-issue"),
    ];
    assert_eq!(entries(&workspaces), vec![row(0, false), row(1, true)]);
}

#[test]
fn workspace_list_entries_group_multiple_workspaces_in_same_git_space() {
    let workspaces = vec![
        workspace_with_worktree_space("main", Some("repo-key"), "/repo/herdr"),
        workspace_with_worktree_space("issue", Some("repo-key"), "/repo/herdr-issue"),
    ];
    assert_eq!(entries(&workspaces), vec![row(0, false), row(1, true)]);
}

#[test]
fn workspace_list_entries_group_non_contiguous_explicit_members() {
    let workspaces = vec![
        workspace_with_worktree_space("main", Some("repo-key"), "/repo/herdr"),
        workspace_with_git_space("normal", "other-key"),
        workspace_with_worktree_space("issue", Some("repo-key"), "/repo/herdr-issue"),
    ];
    assert_eq!(entries(&workspaces), vec![row(0, false), row(2, true), row(1, false)]);
}

#[test]
fn workspace_list_entries_do_not_group_normal_git_workspaces() {
    let workspaces = vec![workspace_with_git_space("one", "repo-key"), workspace_with_git_space("two", "repo-key")];
    assert_eq!(entries(&workspaces), vec![row(0, false), row(1, false)]);
}

#[test]
fn workspace_list_entries_do_not_auto_attach_normal_git_workspace_to_group() {
    let workspaces = vec![
        workspace_with_worktree_space("main", Some("repo-key"), "/repo/herdr"),
        workspace_with_git_space("scratch", "repo-key"),
        workspace_with_worktree_space("issue", Some("repo-key"), "/repo/herdr-issue"),
    ];
    assert_eq!(entries(&workspaces), vec![row(0, false), row(2, true), row(1, false)]);
}

#[test]
fn workspace_list_entries_leave_single_git_and_non_git_workspaces_flat() {
    let workspaces = vec![workspace_with_git_space("one", "repo-key"), workspace_with_worktree_space("notes", None, "/notes")];
    assert_eq!(entries(&workspaces), vec![row(0, false), row(1, false)]);
}

#[test]
fn collapsed_group_hides_inactive_children_but_keeps_active_visible() {
    let workspaces = vec![
        workspace_with_worktree_space("main", Some("repo-key"), "/repo/herdr"),
        workspace_with_worktree_space("issue", Some("repo-key"), "/repo/herdr-issue"),
    ];
    let collapsed = vec!["repo-key".to_string()];
    assert_eq!(workspace_list_entries(&workspaces, &collapsed, false, 0, Some(1)), vec![row(0, false), row(1, true)]);
    assert_eq!(workspace_list_entries(&workspaces, &collapsed, false, 0, None), vec![row(0, false)]);
}

#[test]
fn collapsed_group_keeps_selected_child_visible_in_navigate_mode() {
    let workspaces = vec![
        workspace_with_worktree_space("main", Some("repo-key"), "/repo/herdr"),
        workspace_with_worktree_space("issue", Some("repo-key"), "/repo/herdr-issue"),
    ];
    let collapsed = vec!["repo-key".to_string()];
    assert_eq!(workspace_list_entries(&workspaces, &collapsed, true, 1, Some(1)), vec![row(0, false), row(1, true)]);
}

#[test]
fn collapsed_group_does_not_repeat_its_header_row() {
    let workspaces = vec![
        workspace_with_worktree_space("main", Some("repo-key"), "/repo/herdr"),
        workspace_with_worktree_space("issue", Some("repo-key"), "/repo/herdr-issue"),
    ];
    let collapsed = vec!["repo-key".to_string()];
    // The highlighted workspace is the header itself: nothing else shows.
    assert_eq!(workspace_list_entries(&workspaces, &collapsed, true, 0, None), vec![row(0, false)]);
}

#[test]
fn parent_group_state_needs_two_members() {
    let workspaces = vec![
        workspace_with_worktree_space("main", Some("repo-key"), "/repo/herdr"),
        workspace_with_worktree_space("issue", Some("repo-key"), "/repo/herdr-issue"),
        workspace_with_git_space("x", "other"),
    ];
    let collapsed = vec!["repo-key".to_string()];
    assert_eq!(workspace_parent_group_state(&workspaces, &collapsed, 0), Some(("repo-key".to_string(), true)));
    assert_eq!(workspace_parent_group_state(&workspaces, &Vec::new(), 0), Some(("repo-key".to_string(), false)));
    assert_eq!(workspace_parent_group_state(&workspaces, &collapsed, 1), None, "a linked worktree heads nothing");
    assert_eq!(workspace_parent_group_state(&workspaces, &collapsed, 2), None);
    assert_eq!(workspace_parent_group_state(&workspaces, &collapsed, 9), None);
    let lone = vec![workspace_with_worktree_space("main", Some("repo-key"), "/repo/herdr")];
    assert_eq!(workspace_parent_group_state(&lone, &collapsed, 0), None);
}
