use herdr_core::chooser::Rect;
use herdr_core::pane_state::{PaneId, TerminalId};
use herdr_core::sidebar::{workspace_list_entries, AgentPanelSort, WorkspaceListEntry};
use herdr_core::sidebar_layout::{
    agent_panel_body_rect, agent_panel_scroll_metrics, agent_panel_toggle_rect, agent_panel_visible_count,
    collapsed_sidebar_sections, collapsed_sidebar_toggle_rect, compute_workspace_list_areas,
    expanded_sidebar_toggle_rect, normalized_workspace_scroll, pr_inbox_body_rect, pr_inbox_scroll_metrics,
    pr_inbox_visible_count, workspace_drop_indicator_row, workspace_list_body_rect, workspace_list_scroll_metrics,
    workspace_list_visible_count, workspace_row_height, ScrollMetrics, WorkspaceCardArea,
};
use herdr_core::workspace::{Workspace, WorktreeSpaceMembership};

fn rect(x: u16, y: u16, width: u16, height: u16) -> Rect {
    Rect { x, y, width, height }
}

fn test_ws(name: &str) -> Workspace {
    let mut ws = Workspace::new_with_tab(format!("w-{name}"), format!("/tmp/{name}"), PaneId(1), TerminalId(1), None);
    ws.set_custom_name(name.to_string());
    ws
}

fn workspace_with_worktree_space(name: &str, key: &str, checkout: &str) -> Workspace {
    let mut ws = test_ws(name);
    ws.worktree_space = Some(WorktreeSpaceMembership {
        key: key.into(),
        label: "herdr".into(),
        repo_root: "/repo/herdr".into(),
        checkout_path: checkout.into(),
        is_linked_worktree: name != "main",
    });
    ws
}

fn grouped_trio() -> Vec<Workspace> {
    vec![
        workspace_with_worktree_space("main", "repo-key", "/repo/herdr"),
        workspace_with_worktree_space("issue", "repo-key", "/repo/herdr-issue"),
        test_ws("notes"),
    ]
}

fn card(ws_idx: usize, rect: Rect, indented: bool) -> WorkspaceCardArea {
    WorkspaceCardArea { ws_idx, rect, indented }
}

#[test]
fn section_bodies_sit_below_their_headers() {
    assert_eq!(workspace_list_body_rect(rect(0, 0, 30, 6), true), rect(0, 2, 29, 3));
    assert_eq!(workspace_list_body_rect(rect(0, 0, 30, 2), false), rect(0, 0, 0, 0));
    assert_eq!(agent_panel_body_rect(rect(1, 10, 20, 8), false), rect(1, 13, 20, 5));
    assert_eq!(pr_inbox_body_rect(rect(1, 10, 20, 3), false), rect(0, 0, 0, 0));
}

#[test]
fn agent_and_inbox_entries_that_fit() {
    assert_eq!(agent_panel_visible_count(rect(0, 0, 20, 8)), 2);
    assert_eq!(agent_panel_visible_count(rect(0, 0, 20, 5)), 1);
    assert_eq!(agent_panel_visible_count(rect(0, 0, 20, 4)), 0);
    assert_eq!(agent_panel_visible_count(rect(0, 0, 20, 11)), 3);
    assert_eq!(pr_inbox_visible_count(rect(0, 0, 20, 12)), 3);
    assert_eq!(
        agent_panel_scroll_metrics(5, 1, rect(0, 0, 20, 8)),
        ScrollMetrics { offset_from_bottom: 2, max_offset_from_bottom: 3, viewport_rows: 2 }
    );
    assert_eq!(
        pr_inbox_scroll_metrics(2, 0, rect(0, 0, 20, 12)),
        ScrollMetrics { offset_from_bottom: 0, max_offset_from_bottom: 0, viewport_rows: 3 }
    );
}

#[test]
fn workspace_scroll_metrics_count_display_entries_not_raw_workspaces() {
    let workspaces = grouped_trio();
    let entries = workspace_list_entries(&workspaces, &vec!["repo-key".to_string()], false, 0, None);
    assert_eq!(
        entries,
        vec![
            WorkspaceListEntry::Workspace { ws_idx: 0, indented: false },
            WorkspaceListEntry::Workspace { ws_idx: 2, indented: false },
        ]
    );
    let metrics = workspace_list_scroll_metrics(&workspaces, &entries, rect(0, 0, 30, 6), 0);
    assert_eq!(metrics.viewport_rows, 1);
    assert_eq!(metrics.max_offset_from_bottom, 1);
    assert_eq!(metrics.offset_from_bottom, 1);
    assert_eq!(workspace_list_visible_count(&workspaces, &entries, rect(0, 0, 30, 7), 0), 2);
}

/// The workspace section of a 30-column sidebar `height` rows tall, split
/// evenly with the agent panel (the separator column is not content).
fn ws_section(height: u16) -> Rect {
    rect(0, 0, 29, height / 2)
}

fn areas(
    workspaces: &Vec<Workspace>,
    entries: &Vec<WorkspaceListEntry>,
    ws_area: Rect,
    scroll: usize,
) -> (Vec<WorkspaceCardArea>, Vec<herdr_core::sidebar_layout::WorkspaceHeaderArea>) {
    let metrics = workspace_list_scroll_metrics(workspaces, entries, ws_area, scroll);
    let details = vec![1; workspaces.len()];
    let (cards, headers, _) = compute_workspace_list_areas(
        workspaces,
        entries,
        &details,
        &Vec::new(),
        ws_area,
        scroll,
        metrics.max_offset_from_bottom > 0,
    );
    (cards, headers)
}

#[test]
fn workspace_scroll_offset_applies_to_group_children() {
    let workspaces = grouped_trio();
    let entries = workspace_list_entries(&workspaces, &vec!["repo-key".to_string()], false, 0, None);
    let (cards, headers) = areas(&workspaces, &entries, ws_section(12), 1);
    assert!(headers.is_empty());
    assert_eq!(cards.len(), 1);
    assert_eq!(cards[0].ws_idx, 2);
}

#[test]
fn parent_workspace_row_stays_clickable_when_grouped() {
    let workspaces = vec![
        workspace_with_worktree_space("main", "repo-key", "/repo/herdr"),
        workspace_with_worktree_space("issue", "repo-key", "/repo/herdr-issue"),
    ];
    let entries = workspace_list_entries(&workspaces, &Vec::new(), false, 0, None);
    let (cards, headers) = areas(&workspaces, &entries, ws_section(20), 0);
    assert!(headers.is_empty());
    assert_eq!(cards[0].ws_idx, 0);
    assert!(!cards[0].indented);
    assert_eq!(cards[1].ws_idx, 1);
    assert!(cards[1].indented);
    assert_eq!(cards[1].rect.y, cards[0].rect.y + cards[0].rect.height + 1);
}

#[test]
fn parentless_worktree_group_emits_synthesized_header_area_above_children() {
    let workspaces = vec![
        workspace_with_worktree_space("issue", "repo-key", "/repo/herdr-issue"),
        workspace_with_worktree_space("review", "repo-key", "/repo/herdr-review"),
    ];
    let entries = workspace_list_entries(&workspaces, &Vec::new(), false, 0, None);
    let (cards, headers) = areas(&workspaces, &entries, ws_section(20), 0);
    assert_eq!(headers.len(), 1);
    assert_eq!(headers[0].key, "repo-key");
    assert_eq!(cards.len(), 2);
    assert!(cards.iter().all(|card| card.indented));
    assert!(headers[0].rect.y < cards[0].rect.y);
}

#[test]
fn compact_space_group_scroll_offset_can_start_inside_group() {
    let workspaces = vec![
        workspace_with_worktree_space("main", "repo-key", "/repo/herdr"),
        workspace_with_worktree_space("one", "repo-key", "/repo/herdr-one"),
        workspace_with_worktree_space("two", "repo-key", "/repo/herdr-two"),
    ];
    let entries = workspace_list_entries(&workspaces, &Vec::new(), false, 0, None);
    let ws_area = ws_section(20);
    let scroll = normalized_workspace_scroll(entries.len(), ws_area, 2);
    let (cards, headers) = areas(&workspaces, &entries, ws_area, scroll);
    assert!(headers.is_empty());
    assert_eq!(cards.len(), 1);
    assert_eq!(cards[0].ws_idx, 2);
}

#[test]
fn list_areas_place_rows_and_headers() {
    let workspaces = grouped_trio();
    let entries = workspace_list_entries(&workspaces, &vec!["repo-key".to_string()], false, 0, None);
    let (cards, headers, carets) =
        compute_workspace_list_areas(&workspaces, &entries, &vec![1, 1, 1], &Vec::new(), rect(0, 0, 30, 12), 1, true);
    assert!(headers.is_empty());
    assert!(carets.is_empty());
    assert_eq!(cards, vec![card(2, rect(0, 2, 29, 1), false)]);
    let workspaces = vec![
        workspace_with_worktree_space("issue", "repo-key", "/repo/herdr-issue"),
        workspace_with_worktree_space("review", "repo-key", "/repo/herdr-review"),
    ];
    let entries = workspace_list_entries(&workspaces, &Vec::new(), false, 0, None);
    let (cards, headers, _) =
        compute_workspace_list_areas(&workspaces, &entries, &vec![1, 1], &Vec::new(), rect(0, 0, 30, 12), 0, false);
    assert_eq!(headers[0].rect, rect(0, 2, 30, 1));
    // Consecutive nested rows have no gap between them.
    assert_eq!(cards, vec![card(0, rect(0, 4, 30, 2), true), card(1, rect(0, 6, 30, 2), true)]);
}

#[test]
fn expanded_worktree_rows_grow_and_get_a_caret() {
    let workspaces = vec![
        workspace_with_worktree_space("main", "repo-key", "/repo/herdr"),
        workspace_with_worktree_space("issue", "repo-key", "/repo/herdr-issue"),
        test_ws("notes"),
    ];
    let entries = workspace_list_entries(&workspaces, &Vec::new(), false, 0, None);
    let expanded = vec!["w-issue".to_string()];
    let (cards, _, carets) =
        compute_workspace_list_areas(&workspaces, &entries, &vec![1, 3, 1], &expanded, rect(0, 0, 30, 14), 0, false);
    assert_eq!(carets.len(), 1);
    assert_eq!(carets[0].ws_idx, 1);
    assert_eq!(carets[0].rect, rect(24, 4, 6, 1));
    // Cards stay within the body (rows 2..13), each below the one before.
    for pair in cards.windows(2) {
        assert!(pair[0].rect.y + pair[0].rect.height <= pair[1].rect.y);
    }
    assert!(cards.iter().all(|c| c.rect.y >= 2 && c.rect.y + c.rect.height <= 13));
    // The expanded row shows two more agents, so the next card sits lower.
    assert_eq!(cards[2], card(2, rect(0, 9, 30, 1), false));
    let (cards, _, carets) =
        compute_workspace_list_areas(&workspaces, &entries, &vec![1, 3, 1], &Vec::new(), rect(0, 0, 30, 14), 0, false);
    assert_eq!(carets.len(), 1);
    assert_eq!(cards[2], card(2, rect(0, 7, 30, 1), false));
    // A short list stops at the first row that does not fit.
    let (cards, _, _) =
        compute_workspace_list_areas(&workspaces, &entries, &vec![1, 3, 1], &expanded, rect(0, 0, 30, 8), 0, false);
    assert_eq!(cards.len(), 1);
}

#[test]
fn drop_indicator_rows() {
    let cards = vec![card(0, rect(0, 2, 30, 1), false), card(1, rect(0, 4, 30, 2), true)];
    let area = rect(0, 0, 30, 10);
    assert_eq!(workspace_drop_indicator_row(&cards, area, 0), Some(1));
    assert_eq!(workspace_drop_indicator_row(&cards, area, 1), Some(3));
    assert_eq!(workspace_drop_indicator_row(&cards, area, 2), Some(6));
    assert_eq!(workspace_drop_indicator_row(&cards, area, 5), None);
    assert_eq!(workspace_drop_indicator_row(&cards, rect(0, 0, 30, 0), 0), None);
    assert_eq!(workspace_drop_indicator_row(&Vec::new(), area, 0), None);
    let top = vec![card(0, rect(0, 0, 30, 1), false)];
    assert_eq!(workspace_drop_indicator_row(&top, area, 0), None);
}

#[test]
fn collapsed_sections_and_toggles() {
    assert_eq!(collapsed_sidebar_sections(rect(0, 0, 10, 9)), (rect(0, 0, 9, 5), Some(5), rect(0, 6, 9, 3)));
    assert_eq!(collapsed_sidebar_sections(rect(0, 0, 10, 5)), (rect(0, 0, 9, 5), None, rect(0, 0, 0, 0)));
    assert_eq!(collapsed_sidebar_sections(rect(0, 0, 1, 5)), (rect(0, 0, 0, 0), None, rect(0, 0, 0, 0)));
    assert_eq!(expanded_sidebar_toggle_rect(rect(0, 0, 30, 10)), rect(28, 9, 1, 1));
    assert_eq!(expanded_sidebar_toggle_rect(rect(0, 0, 1, 10)), rect(0, 0, 0, 0));
    assert_eq!(collapsed_sidebar_toggle_rect(rect(0, 0, 10, 10)), rect(4, 9, 1, 1));
    assert_eq!(agent_panel_toggle_rect(rect(0, 0, 30, 10), AgentPanelSort::Priority), rect(22, 1, 8, 1));
    assert_eq!(agent_panel_toggle_rect(rect(0, 0, 30, 10), AgentPanelSort::Spaces), rect(23, 1, 7, 1));
    assert_eq!(agent_panel_toggle_rect(rect(0, 0, 30, 1), AgentPanelSort::Spaces), rect(0, 0, 0, 0));
}

#[test]
fn scroll_offsets_stay_on_an_entry() {
    assert_eq!(normalized_workspace_scroll(3, rect(0, 0, 30, 20), 2), 2);
    assert_eq!(normalized_workspace_scroll(3, rect(0, 0, 30, 20), 7), 2);
    assert_eq!(normalized_workspace_scroll(0, rect(0, 0, 30, 20), 5), 0);
    assert_eq!(normalized_workspace_scroll(3, rect(0, 0, 30, 3), 5), 5);
    let mut ws = test_ws("a");
    assert_eq!(workspace_row_height(&ws), 1);
    ws.cached_git_branch = Some("main".into());
    assert_eq!(workspace_row_height(&ws), 2);
}
