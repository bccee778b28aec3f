use herdr_core::agent_panel::{agent_priority_order, most_urgent, space_aggregate_state};
use herdr_core::pane_state::{PaneId, TerminalId};
use herdr_core::workspace::{Workspace, WorktreeSpaceMembership};
use herdr_core::sidebar::AgentState;

#[test]
fn priority_agent_panel_sort_uses_attention_then_space_order() {
    let labels = ["one", "two", "three", "four"];
    let agents = vec![
        (AgentState::Working, true, None),
        (AgentState::Idle, false, None),
        (AgentState::Working, true, None),
        (AgentState::Blocked, true, None),
    ];
    let order = agent_priority_order(&agents);
    let sorted: Vec<&str> = order.iter().map(|&i| labels[i]).collect();
    assert_eq!(sorted, ["four", "two", "one", "three"]);
}

#[test]
fn priority_sort_puts_recent_changes_first_among_equals() {
    let agents = vec![
        (AgentState::Working, true, Some(3)),
        (AgentState::Working, true, None),
        (AgentState::Working, true, Some(9)),
        (AgentState::Idle, true, Some(50)),
        (AgentState::Unknown, true, Some(99)),
        (AgentState::Working, true, Some(3)),
    ];
    assert_eq!(agent_priority_order(&agents), vec![2, 0, 5, 1, 3, 4]);
    assert!(agent_priority_order(&Vec::new()).is_empty());
}

#[test]
fn most_urgent_state_wins_and_later_ties_win() {
    assert_eq!(most_urgent(&Vec::new()), None);
    let states = vec![(AgentState::Idle, true), (AgentState::Blocked, true), (AgentState::Working, false)];
    assert_eq!(most_urgent(&states), Some((AgentState::Blocked, true)));
    let ties = vec![(AgentState::Idle, false), (AgentState::Working, true), (AgentState::Idle, false)];
    assert_eq!(most_urgent(&ties), Some((AgentState::Idle, false)));
}

fn member(name: &str, key: Option<&str>) -> Workspace {
    let mut ws = Workspace::new_with_tab(format!("w-{name}"), format!("/tmp/{name}"), PaneId(1), TerminalId(1), None);
    ws.worktree_space = key.map(|key| WorktreeSpaceMembership {
        key: key.into(),
        label: "herdr".into(),
        repo_root: "/repo".into(),
        checkout_path: format!("/repo-{name}"),
        is_linked_worktree: true,
    });
    ws
}

#[test]
fn space_state_is_the_most_urgent_member_state() {
    let workspaces = vec![member("a", Some("k")), member("b", None), member("c", Some("k")), member("d", Some("other"))];
    let aggregates = vec![
        (AgentState::Working, true),
        (AgentState::Blocked, true),
        (AgentState::Idle, false),
        (AgentState::Blocked, true),
    ];
    assert_eq!(space_aggregate_state(&workspaces, &aggregates, "k"), (AgentState::Idle, false));
    assert_eq!(space_aggregate_state(&workspaces, &aggregates, "none"), (AgentState::Unknown, true));
}
