use herdr_core::chooser::Rect;
use herdr_core::control_view::{
    agents_pane_layout, repos_view_scroll, AgentsPaneLayout,
    last_worktree_children, person_display_name, person_pr_lines, person_pr_view, pr_line_position,
    pr_people_window, promote_node, repo_header_label, repo_label_of, review_pr_marker, scroll_to_keep_visible,
    upstream_labels, worktree_connector, PersonLine,
};
use herdr_core::pane_state::{PaneId, TerminalId};
use herdr_core::pr_status::{CiState, FetchedPr, PersonPr, PrBucket};
use herdr_core::repos::Repository;
use herdr_core::sidebar::WorkspaceListEntry;
use herdr_core::workspace::{Workspace, WorktreeSpaceMembership};

fn pr(number: u64, repo_key: &str) -> PersonPr {
    PersonPr {
        pr: FetchedPr {
            number,
            title: format!("pr {number}"),
            url: format!("https://github.com/acme/proj/pull/{number}"),
            author: "alice".to_string(),
            is_draft: false,
            base_ref: "main".to_string(),
            head_ref: format!("alice/{number}"),
            repo_key: repo_key.to_string(),
            threads: Vec::new(),
            reviews: Vec::new(),
            ci: CiState::Unknown,
        },
        bucket: PrBucket::Red,
    }
}

fn repo(key: &str, label: &str) -> Repository {
    Repository { key: key.into(), root: format!("/src/{label}"), label: label.into() }
}

#[test]
fn keep_visible_scrolls_only_as_far_as_needed() {
    assert_eq!(scroll_to_keep_visible(0, 3, 5), 0);
    assert_eq!(scroll_to_keep_visible(0, 7, 5), 3);
    assert_eq!(scroll_to_keep_visible(6, 2, 5), 2);
    assert_eq!(scroll_to_keep_visible(4, 6, 5), 4);
    assert_eq!(scroll_to_keep_visible(4, 6, 0), 0);
}

#[test]
fn people_window_keeps_the_highlight_on_a_person() {
    let w = pr_people_window(4, 9, 3, true);
    assert_eq!((w.list_rows, w.selected, w.scroll), (2, 3, 2));
    let w = pr_people_window(0, 2, 5, false);
    assert_eq!((w.list_rows, w.selected, w.scroll), (5, 0, 0));
    let w = pr_people_window(3, 1, 1, true);
    assert_eq!((w.list_rows, w.selected, w.scroll), (1, 1, 1));
    assert_eq!(person_display_name("me", true), "me (you)");
    assert_eq!(person_display_name("alice", false), "alice");
}

#[test]
fn person_lines_title_each_run_of_one_repository() {
    let rows = vec![
        ("◯ ".to_string(), pr(1, "acme/a")),
        ("│ ".to_string(), pr(2, "acme/a")),
        (String::new(), pr(3, "acme/b")),
        (String::new(), pr(4, "acme/a")),
    ];
    let repos = vec![repo("acme/a", "alpha")];
    assert_eq!(repo_label_of(&repos, "acme/a"), "alpha");
    assert_eq!(repo_label_of(&repos, "acme/b"), "acme/b");
    let lines = person_pr_lines(&rows, &repos);
    assert_eq!(
        lines,
        vec![
            PersonLine::Title("alpha".into()),
            PersonLine::Pr(0),
            PersonLine::Pr(1),
            PersonLine::Title("acme/b".into()),
            PersonLine::Pr(2),
            PersonLine::Title("alpha".into()),
            PersonLine::Pr(3),
        ]
    );
    assert_eq!(pr_line_position(&lines, 2), 4);
    assert_eq!(pr_line_position(&lines, 9), 0);
    assert!(person_pr_lines(&Vec::new(), &repos).is_empty());
}

#[test]
fn person_view_scrolls_the_highlighted_pr_into_view() {
    let rows = vec![
        (String::new(), pr(1, "acme/a")),
        (String::new(), pr(2, "acme/b")),
        (String::new(), pr(3, "acme/c")),
    ];
    let view = person_pr_view(&rows, &Vec::new(), 7, 4, true);
    // Lines: title, #1, title, #2, title, #3; the last PR is line 5.
    assert_eq!(view.lines.len(), 6);
    assert_eq!((view.selected, view.list_rows, view.scroll), (2, 3, 3));
    let view = person_pr_view(&rows, &Vec::new(), 0, 4, false);
    assert_eq!((view.selected, view.list_rows, view.scroll), (0, 4, 0));
}

#[test]
fn review_markers_fill_the_main_pane_node() {
    assert_eq!(promote_node("│ ◯ ◯"), "│ ◉ ◯");
    assert_eq!(promote_node("│ "), "│ ");
    assert_eq!(review_pr_marker("◯ ", true), "◉ ");
    assert_eq!(review_pr_marker("│ ", true), "◉ ");
    assert_eq!(review_pr_marker("", true), "◉ ");
    assert_eq!(review_pr_marker("", false), "  ");
    assert_eq!(review_pr_marker("│ ", false), "│ ");
}

fn member(name: &str, key: &str, label: &str) -> Workspace {
    let mut ws = Workspace::new_with_tab(format!("w-{name}"), format!("/tmp/{name}"), PaneId(1), TerminalId(1), None);
    ws.worktree_space = Some(WorktreeSpaceMembership {
        key: key.into(),
        label: label.into(),
        repo_root: "/repo".into(),
        checkout_path: format!("/repo-{name}"),
        is_linked_worktree: true,
    });
    ws
}

#[test]
fn tree_of_the_workspace_list() {
    let entries = vec![
        WorkspaceListEntry::RepoHeader { key: "k".into() },
        WorkspaceListEntry::Workspace { ws_idx: 0, indented: true },
        WorkspaceListEntry::Workspace { ws_idx: 1, indented: true },
        WorkspaceListEntry::Workspace { ws_idx: 2, indented: false },
        WorkspaceListEntry::Workspace { ws_idx: 3, indented: true },
    ];
    assert_eq!(last_worktree_children(&entries), vec![1, 3]);
    assert_eq!(worktree_connector(true), " └ ");
    assert_eq!(worktree_connector(false), " ├ ");
    let workspaces = vec![member("a", "other", "nope"), member("b", "k", "herdr")];
    assert_eq!(repo_header_label(&workspaces, "k"), "herdr");
    assert_eq!(repo_header_label(&workspaces, "missing"), "repo");
}

#[test]
fn upstream_labels_show_nonzero_counts() {
    assert_eq!(upstream_labels(None), None);
    assert_eq!(upstream_labels(Some((0, 0))), None);
    assert_eq!(upstream_labels(Some((3, 0))), Some(vec!["↑3".to_string()]));
    assert_eq!(upstream_labels(Some((0, 12))), Some(vec!["↓12".to_string()]));
    assert_eq!(upstream_labels(Some((1, 2))), Some(vec!["↑1".to_string(), "↓2".to_string()]));
}

#[test]
fn agents_pane_layout_reserves_the_hint_row_when_focused() {
    let area = Rect { x: 0, y: 10, width: 30, height: 8 };
    assert_eq!(
        agents_pane_layout(area, true, 5),
        Some(AgentsPaneLayout {
            body: Rect { x: 0, y: 11, width: 30, height: 6 },
            hint_row: Some(17),
            shown: 2,
        })
    );
    assert_eq!(agents_pane_layout(area, false, 1).map(|l| (l.body.height, l.hint_row, l.shown)), Some((7, None, 1)));
    assert_eq!(agents_pane_layout(Rect { x: 0, y: 0, width: 30, height: 3 }, true, 4).map(|l| l.shown), Some(1));
    assert_eq!(agents_pane_layout(Rect { x: 0, y: 0, width: 30, height: 1 }, true, 4), None);
    assert_eq!(repos_view_scroll(3, 7), 2);
    assert_eq!(repos_view_scroll(3, 1), 1);
    assert_eq!(repos_view_scroll(0, 4), 0);
}
