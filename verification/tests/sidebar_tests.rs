use herdr_core::sidebar::{
    agent_panel_sort_label, agent_panel_status_key, grouped_child_display_label, next_entry_is_indented_workspace,
    state_label, workspace_attention_priority, AgentPanelSort, AgentState, WorkspaceListEntry,
};

#[test]
fn grouped_child_label_keeps_custom_workspace_name() {
    assert_eq!(
        grouped_child_display_label("renamed issue", Some("worktree/issue-137"), true),
        "renamed issue"
    );
}

#[test]
fn grouped_child_label_uses_short_branch_for_auto_named_workspace() {
    assert_eq!(
        grouped_child_display_label("herdr-issue", Some("worktree/issue-137"), false),
        "issue-137"
    );
}

#[test]
fn grouped_child_label_without_branch_or_prefix() {
    assert_eq!(grouped_child_display_label("herdr", None, false), "herdr");
    assert_eq!(grouped_child_display_label("herdr", Some("feature/x"), false), "feature/x");
    assert_eq!(grouped_child_display_label("herdr", Some("worktree/"), false), "");
}

#[test]
fn status_words_and_keys() {
    assert_eq!(state_label(AgentState::Idle, false), "done");
    assert_eq!(state_label(AgentState::Idle, true), "idle");
    assert_eq!(state_label(AgentState::Unknown, false), "idle");
    assert_eq!(state_label(AgentState::Blocked, true), "blocked");
    assert_eq!(agent_panel_status_key(AgentState::Idle, false), "done");
    assert_eq!(agent_panel_status_key(AgentState::Unknown, true), "unknown");
    assert_eq!(agent_panel_status_key(AgentState::Working, false), "working");
    assert_eq!(agent_panel_sort_label(AgentPanelSort::Spaces), "grouped");
    assert_eq!(agent_panel_sort_label(AgentPanelSort::Priority), "priority");
}

#[test]
fn attention_order_is_blocked_done_working_idle_unknown() {
    let order = [
        workspace_attention_priority(AgentState::Blocked, true),
        workspace_attention_priority(AgentState::Idle, false),
        workspace_attention_priority(AgentState::Working, true),
        workspace_attention_priority(AgentState::Idle, true),
        workspace_attention_priority(AgentState::Unknown, false),
    ];
    assert_eq!(order, [4, 3, 2, 1, 0]);
}

#[test]
fn next_entry_indentation() {
    let entries = vec![
        WorkspaceListEntry::RepoHeader { key: "k".to_string() },
        WorkspaceListEntry::Workspace { ws_idx: 1, indented: true },
        WorkspaceListEntry::Workspace { ws_idx: 2, indented: false },
    ];
    assert!(next_entry_is_indented_workspace(&entries, 0));
    assert!(!next_entry_is_indented_workspace(&entries, 1));
    assert!(!next_entry_is_indented_workspace(&entries, 2));
    assert!(!next_entry_is_indented_workspace(&entries, usize::MAX));
}
