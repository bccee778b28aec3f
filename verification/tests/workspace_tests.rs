use herdr_core::pane_state::{PaneId, PaneRole, TerminalId};
use herdr_core::review_pr::ReviewPr;
use herdr_core::workspace::{derive_label_from_cwd, decimal, Workspace, WorkspaceGitStatusSnapshot};

fn test_ws(name: &str) -> Workspace {
    let mut ws = Workspace::new_with_tab("w1".to_string(), "/tmp/herdr-test".to_string(), PaneId(1), TerminalId(1), None);
    ws.set_custom_name(name.to_string());
    ws
}

/// Top-to-bottom pane ids of the active tab, with their roles.
fn rows_top_to_bottom(ws: &Workspace) -> Vec<(PaneId, PaneRole)> {
    let tab = ws.active_tab().unwrap();
    tab.panes.iter().map(|(id, st)| (*id, st.role)).collect()
}

#[test]
fn reattach_review_lands_on_top_of_agent() {
    let mut ws = test_ws("test");
    let agent = ws.agent_pane().unwrap();
    let review_tid = TerminalId(2);
    let review = ws.reattach_row(agent, review_tid, PaneRole::Review, PaneId(2)).expect("review pane");
    let rows = rows_top_to_bottom(&ws);
    assert_eq!(rows.len(), 2);
    assert_eq!(rows[0], (review, PaneRole::Review), "review on top");
    assert_eq!(rows[1], (agent, PaneRole::Agent), "agent at bottom");
    assert_eq!(ws.focused_pane_id(), Some(review));
    assert_eq!(ws.pane_with_role(PaneRole::Review), Some(review));
}

#[test]
fn reattach_terminal_then_review_orders_review_terminal_agent() {
    let mut ws = test_ws("test");
    let agent = ws.agent_pane().unwrap();
    let terminal = ws.reattach_row(agent, TerminalId(2), PaneRole::Terminal, PaneId(2)).expect("terminal pane");
    let review_target = ws.pane_with_role(PaneRole::Terminal).unwrap();
    let review = ws.reattach_row(review_target, TerminalId(3), PaneRole::Review, PaneId(3)).expect("review pane");
    let rows = rows_top_to_bottom(&ws);
    assert_eq!(
        rows,
        vec![(review, PaneRole::Review), (terminal, PaneRole::Terminal), (agent, PaneRole::Agent)]
    );
}

#[test]
fn detached_review_keeps_terminal_for_reattach() {
    let mut ws = test_ws("test");
    let agent = ws.agent_pane().unwrap();
    let review_tid = TerminalId(9);
    let review = ws.reattach_row(agent, review_tid, PaneRole::Review, PaneId(2)).unwrap();
    assert_eq!(ws.terminal_id(review).cloned(), Some(review_tid));

    let detached = ws.terminal_id(review).cloned();
    ws.remove_pane(review);
    assert!(ws.pane_with_role(PaneRole::Review).is_none());
    assert_eq!(detached, Some(review_tid));

    let reattached = ws.reattach_row(agent, review_tid, PaneRole::Review, PaneId(3)).unwrap();
    assert_eq!(ws.terminal_id(reattached).cloned(), Some(review_tid));
    let rows = rows_top_to_bottom(&ws);
    assert_eq!(rows[0].1, PaneRole::Review);
    assert_eq!(rows[1].0, agent);
}

#[test]
fn workspace_identity_follows_first_tab_root_pane_cwd() {
    let mut ws = test_ws("ignored");
    ws.custom_name = None;
    let root_pane = ws.tabs[0].root_pane;
    let terminal_id = *ws.tabs[0].terminal_id(root_pane).unwrap();
    let cwds = vec![(terminal_id, "/herdr-test/pion".to_string())];
    assert_eq!(ws.display_name_from(&cwds), "pion");
    assert_eq!(ws.resolved_identity_cwd_from(&cwds), Some("/herdr-test/pion".to_string()));
}

#[test]
fn moving_tab_keeps_active_identity_and_renumbers_auto_tabs() {
    let mut ws = test_ws("test");
    let moved_root = ws.tabs[0].root_pane;
    let foo = ws.create_tab(PaneId(2), TerminalId(2));
    ws.tabs[foo].custom_name = Some("foo".to_string());
    let final_auto_idx = ws.create_tab(PaneId(3), TerminalId(3));
    let active_root = ws.tabs[final_auto_idx].root_pane;
    ws.switch_tab(final_auto_idx);

    let len = ws.tabs.len();
    assert!(ws.move_tab(0, len));

    let labels: Vec<_> = ws.tabs.iter().map(|tab| tab.display_name()).collect();
    assert_eq!(labels, vec!["foo", "2", "3"]);
    assert_eq!(ws.tabs[0].custom_name.as_deref(), Some("foo"));
    assert!(ws.tabs[1].custom_name.is_none());
    assert!(ws.tabs[2].custom_name.is_none());
    assert_eq!(ws.tabs[2].root_pane, moved_root);
    assert_eq!(ws.tabs[ws.active_tab].root_pane, active_root);
}

#[test]
fn closing_a_pane_compacts_higher_public_numbers() {
    let mut ws = test_ws("test");
    let agent = ws.agent_pane().unwrap();
    let p2 = ws.reattach_row(agent, TerminalId(2), PaneRole::Terminal, PaneId(2)).unwrap();
    let p3 = ws.reattach_row(agent, TerminalId(3), PaneRole::Review, PaneId(3)).unwrap();
    assert_eq!(ws.public_pane_number(agent), Some(1));
    assert_eq!(ws.public_pane_number(p2), Some(2));
    assert_eq!(ws.public_pane_number(p3), Some(3));
    assert!(!ws.close_pane(p2));
    assert_eq!(ws.public_pane_number(p2), None);
    assert_eq!(ws.public_pane_number(agent), Some(1));
    assert_eq!(ws.public_pane_number(p3), Some(2));
    assert_eq!(ws.next_public_pane_number, 3);
}

#[test]
fn closing_tabs_keeps_active_in_range_and_renumbers() {
    let mut ws = test_ws("test");
    ws.create_tab(PaneId(2), TerminalId(2));
    ws.create_tab(PaneId(3), TerminalId(3));
    ws.switch_tab(2);
    assert!(ws.close_tab(0));
    assert_eq!(ws.active_tab, 1);
    assert_eq!(ws.tabs.iter().map(|t| t.number).collect::<Vec<_>>(), vec![1, 2]);
    assert_eq!(ws.public_pane_number(PaneId(1)), None);
    assert_eq!(ws.public_pane_number(PaneId(2)), Some(1));
    assert!(!ws.close_tab(5));
    assert!(ws.close_active_tab());
    assert_eq!(ws.tabs.len(), 1);
    assert!(!ws.close_active_tab(), "the last tab stays");
}

#[test]
fn closing_the_last_pane_of_the_last_tab_closes_the_workspace() {
    let mut ws = test_ws("test");
    assert!(ws.close_focused());
    assert_eq!(ws.tabs.len(), 1);
    ws.create_tab(PaneId(2), TerminalId(2));
    ws.switch_tab(1);
    assert!(!ws.close_focused(), "closing a tab's only pane closes the tab");
    assert_eq!(ws.tabs.len(), 1);
    assert!(ws.remove_pane(PaneId(1)));
    assert!(!ws.remove_pane(PaneId(77)), "unknown pane");
}

#[test]
fn panes_are_found_across_tabs() {
    let mut ws = test_ws("test");
    ws.create_tab(PaneId(2), TerminalId(20));
    assert_eq!(ws.find_tab_index_for_pane(PaneId(2)), Some(1));
    assert_eq!(ws.find_tab_index_for_pane(PaneId(1)), Some(0));
    assert_eq!(ws.find_tab_index_for_pane(PaneId(3)), None);
    assert_eq!(ws.pane_for_terminal(&TerminalId(20)), Some(PaneId(2)));
    assert_eq!(ws.pane_for_terminal(&TerminalId(21)), None);
    assert_eq!(ws.pane_state(PaneId(2)).map(|p| p.attached_terminal_id), Some(TerminalId(20)));
    assert_eq!(ws.active_tab_display_name().as_deref(), Some("1"));
    assert!(ws.reattach_row(PaneId(99), TerminalId(5), PaneRole::Review, PaneId(5)).is_none());
}

#[test]
fn reviewing_pr_is_active_only_on_its_head_branch() {
    let mut ws = Workspace::new_with_tab("w".into(), "/x".into(), PaneId(1), TerminalId(1), Some("feature".into()));
    assert!(ws.reviewing_pr_active().is_none());
    ws.reviewing_pr = Some(ReviewPr {
        number: 7,
        title: "t".into(),
        author: "a".into(),
        head_branch: "feature".into(),
        base_branch: "main".into(),
        url: "u".into(),
        graph_prefix: String::new(),
    });
    assert_eq!(ws.reviewing_pr_active().map(|p| p.number), Some(7));
    ws.cached_git_branch = Some("main".into());
    assert!(ws.reviewing_pr_active().is_none());
    assert_eq!(ws.branch().as_deref(), Some("main"));
}

#[test]
fn labels_and_numbers() {
    assert_eq!(derive_label_from_cwd("/herdr-test/pion"), "pion");
    assert_eq!(derive_label_from_cwd("/herdr-test/pion/"), "pion");
    assert_eq!(derive_label_from_cwd("/"), "/");
    assert_eq!(derive_label_from_cwd("repo"), "repo");
    assert_eq!(decimal(0), "0");
    assert_eq!(decimal(1234), "1234");
    let ws = Workspace::new_with_tab("w".into(), "/a/b".into(), PaneId(1), TerminalId(1), None);
    assert_eq!(ws.display_name(), "b");
    assert_eq!(ws.resolved_identity_cwd(), Some("/a/b".to_string()));
}

#[test]
fn git_status_is_tied_to_its_workspace() {
    let s = WorkspaceGitStatusSnapshot { branch: Some("main".into()), ahead_behind: Some((1, 2)), space: None };
    let st = s.into_workspace_status("w9".into(), "/r".into());
    assert_eq!(st.workspace_id, "w9");
    assert_eq!(st.resolved_identity_cwd, "/r");
    assert_eq!(st.branch.as_deref(), Some("main"));
    assert_eq!(st.ahead_behind, Some((1, 2)));
}

#[test]
fn moving_a_tab_back_restores_the_order() {
    let mut ws = test_ws("test");
    ws.create_tab(PaneId(2), TerminalId(2));
    ws.create_tab(PaneId(3), TerminalId(3));
    ws.switch_tab(1);
    let roots: Vec<_> = ws.tabs.iter().map(|tab| tab.root_pane).collect();
    let numbers: Vec<_> = ws.tabs.iter().map(|tab| tab.number).collect();
    // Left to right: the first tab goes last, and comes back when inserted before 0.
    assert!(ws.move_tab(0, 3));
    assert_eq!(ws.tabs[2].root_pane, roots[0]);
    assert!(ws.move_tab(2, 0));
    assert_eq!(ws.tabs.iter().map(|tab| tab.root_pane).collect::<Vec<_>>(), roots);
    assert_eq!(ws.tabs.iter().map(|tab| tab.number).collect::<Vec<_>>(), numbers);
    assert_eq!(ws.active_tab, 1);
    // Right to left: the last tab goes first, and comes back when inserted before 3.
    assert!(ws.move_tab(2, 0));
    assert!(ws.move_tab(0, 3));
    assert_eq!(ws.tabs.iter().map(|tab| tab.root_pane).collect::<Vec<_>>(), roots);
    assert_eq!(ws.active_tab, 1);
}

#[test]
fn closing_the_newest_pane_restores_the_numbering() {
    let mut ws = test_ws("test");
    let agent = ws.agent_pane().unwrap();
    ws.reattach_row(agent, TerminalId(2), PaneRole::Terminal, PaneId(2)).unwrap();
    let before = ws.public_pane_numbers.clone();
    let next = ws.next_public_pane_number;
    let p3 = ws.reattach_row(agent, TerminalId(3), PaneRole::Review, PaneId(3)).unwrap();
    assert_eq!(ws.public_pane_number(p3), Some(3));
    assert!(!ws.close_pane(p3));
    assert_eq!(ws.public_pane_numbers, before);
    assert_eq!(ws.next_public_pane_number, next);
}
