use herdr_core::branch_chooser::BranchChooserState;
use herdr_core::chooser::{
    bordered_inner, modal_inner, chooser_body_rect, chooser_footer_rect, chooser_popup_rect, chooser_search_rect, rect_contains,
    chooser_key_edit, AgentChooserState, ChooserEdit, ChooserKey, ChooserOutcome, ChooserPointer, ListSelection, Rect,
};
use herdr_core::home::KeyCode;

fn rect(x: u16, y: u16, width: u16, height: u16) -> Rect {
    Rect { x, y, width, height }
}

#[test]
fn rect_new_keeps_edges_on_screen() {
    assert_eq!(Rect::new(65530, 0, 10, 3), rect(65530, 0, 5, 3));
    assert_eq!(Rect::new(1, 2, 3, 4), rect(1, 2, 3, 4));
}

#[test]
fn union_covers_both() {
    assert_eq!(rect(0, 0, 10, 5).union(rect(10, 2, 30, 20)), rect(0, 0, 40, 22));
}

#[test]
fn contains_is_half_open() {
    let r = rect(2, 3, 4, 2);
    assert!(rect_contains(r, 2, 3));
    assert!(rect_contains(r, 5, 4));
    assert!(!rect_contains(r, 6, 4));
    assert!(!rect_contains(r, 5, 5));
    assert!(!rect_contains(r, 1, 3));
    assert!(!rect_contains(rect(65535, 0, 0, 1), 65535, 0));
}

#[test]
fn frame_inside_and_chooser_layout() {
    assert_eq!(bordered_inner(rect(10, 5, 20, 10)), rect(11, 6, 18, 8));
    assert_eq!(bordered_inner(rect(3, 3, 1, 0)), rect(4, 3, 0, 0));
    let area = rect(0, 0, 120, 36);
    let popup = chooser_popup_rect(area);
    assert_eq!(popup, rect(20, 6, 80, 24));
    let inner = bordered_inner(popup);
    assert_eq!(inner, rect(21, 7, 78, 22));
    assert_eq!(chooser_search_rect(inner), rect(21, 7, 78, 1));
    assert_eq!(chooser_body_rect(inner), rect(21, 9, 78, 19));
    assert_eq!(chooser_footer_rect(inner), rect(21, 28, 78, 1));
    assert_eq!(chooser_body_rect(rect(0, 0, 10, 3)), rect(0, 0, 0, 0));
}

#[test]
fn small_screens_keep_a_minimal_popup() {
    assert_eq!(chooser_popup_rect(rect(0, 0, 6, 3)), rect(2, 1, 4, 4));
}

#[test]
fn selection_moves_and_clamps_within_the_rows() {
    let mut s = ListSelection { selected: 0, scroll: 0 };
    s.move_by(1, 3, 2);
    assert_eq!(s, ListSelection { selected: 1, scroll: 0 });
    s.move_by(5, 3, 2);
    assert_eq!(s, ListSelection { selected: 2, scroll: 1 });
    s.move_by(-10, 3, 2);
    assert_eq!(s, ListSelection { selected: 0, scroll: 0 });
    s.move_by(1, 0, 2);
    assert_eq!(s, ListSelection { selected: 0, scroll: 0 });
    let mut s = ListSelection { selected: 9, scroll: 7 };
    s.clamp(4, 2);
    assert_eq!(s, ListSelection { selected: 3, scroll: 2 });
    let mut s = ListSelection { selected: 5, scroll: 3 };
    s.ensure_visible(10, 0);
    assert_eq!(s.scroll, 0);
}

#[test]
fn clicks_map_to_rows() {
    let s = ListSelection { selected: 0, scroll: 2 };
    let body = rect(0, 5, 10, 4);
    assert_eq!(s.row_index_at(body, 10, 3, 6), Some(3));
    assert_eq!(s.row_index_at(body, 4, 3, 7), None);
    assert_eq!(s.row_index_at(body, 10, 3, 9), None);
}

#[test]
fn branch_chooser_selection_follows_the_filter() {
    let mut st = BranchChooserState {
        branches: vec!["main".into(), "dev".into(), "devtools".into()],
        default_base: "main".into(),
        query: "dev".into(),
        selected: 0,
        scroll: 0,
    };
    st.move_selection(3, 1);
    assert_eq!((st.selected, st.scroll), (1, 1));
    st.query = "main".into();
    st.clamp_selection(1);
    assert_eq!((st.selected, st.scroll), (0, 0));
    assert_eq!(st.row_index_at(rect(0, 0, 5, 3), 1, 0), Some(0));
    assert_eq!(st.row_index_at(rect(0, 0, 5, 3), 1, 1), None);
}

#[test]
fn agent_chooser_filters_and_picks() {
    let st = AgentChooserState {
        agents: vec!["Cursor".into(), "codex".into(), "aider".into()],
        query: " C ".into(),
        selected: 1,
        scroll: 0,
    };
    assert_eq!(st.filtered_indices(), vec![0, 1]);
    assert_eq!(st.selected_agent(), Some("codex".to_string()));
    let st = AgentChooserState { selected: 5, ..st };
    assert_eq!(st.selected_agent(), None);
}

#[test]
fn pointer_hover_click_and_dismiss() {
    let body = rect(10, 5, 20, 4);
    let popup = rect(8, 3, 24, 8);
    let mut s = ListSelection { selected: 0, scroll: 0 };
    assert_eq!(s.apply_pointer(ChooserPointer::Moved, 12, 7, body, popup, 10), ChooserOutcome::Stay);
    assert_eq!(s, ListSelection { selected: 2, scroll: 0 });
    assert_eq!(s.apply_pointer(ChooserPointer::LeftDown, 12, 8, body, popup, 10), ChooserOutcome::Accept);
    assert_eq!(s, ListSelection { selected: 3, scroll: 0 });
    assert_eq!(s.apply_pointer(ChooserPointer::LeftDown, 9, 4, body, popup, 10), ChooserOutcome::Stay);
    assert_eq!(s.apply_pointer(ChooserPointer::LeftDown, 0, 0, body, popup, 10), ChooserOutcome::Dismiss);
    assert_eq!(s, ListSelection { selected: 3, scroll: 0 });
    // A row past the end of a short list is not a row.
    assert_eq!(s.apply_pointer(ChooserPointer::LeftDown, 12, 8, body, popup, 2), ChooserOutcome::Stay);
    assert_eq!(s.apply_pointer(ChooserPointer::Other, 12, 6, body, popup, 10), ChooserOutcome::Stay);
    assert_eq!(s, ListSelection { selected: 3, scroll: 0 });
}

#[test]
fn pointer_wheel_scrolls_three_rows_with_the_highlight_on_top() {
    let body = rect(10, 5, 20, 4);
    let popup = rect(8, 3, 24, 8);
    let mut s = ListSelection { selected: 0, scroll: 0 };
    s.apply_pointer(ChooserPointer::ScrollDown, 0, 0, body, popup, 10);
    assert_eq!(s, ListSelection { selected: 3, scroll: 3 });
    s.apply_pointer(ChooserPointer::ScrollDown, 0, 0, body, popup, 10);
    assert_eq!(s, ListSelection { selected: 6, scroll: 6 });
    s.apply_pointer(ChooserPointer::ScrollDown, 0, 0, body, popup, 10);
    assert_eq!(s, ListSelection { selected: 6, scroll: 6 });
    s.apply_pointer(ChooserPointer::ScrollUp, 0, 0, body, popup, 10);
    assert_eq!(s, ListSelection { selected: 3, scroll: 3 });
    let mut s = ListSelection { selected: 1, scroll: 1 };
    s.apply_pointer(ChooserPointer::ScrollUp, 0, 0, body, popup, 10);
    assert_eq!(s, ListSelection { selected: 0, scroll: 0 });
    let mut s = ListSelection { selected: 4, scroll: 2 };
    s.apply_pointer(ChooserPointer::ScrollDown, 0, 0, body, popup, 0);
    assert_eq!(s, ListSelection { selected: 0, scroll: 0 });
}

#[test]
fn clicking_a_branch_row_clears_the_query() {
    let mut st = BranchChooserState {
        branches: vec!["main".into(), "dev".into(), "devtools".into()],
        default_base: "main".into(),
        query: "dev".into(),
        selected: 0,
        scroll: 0,
    };
    let body = rect(0, 2, 10, 3);
    let popup = rect(0, 0, 12, 6);
    assert_eq!(st.apply_pointer(ChooserPointer::Moved, 1, 3, body, popup), ChooserOutcome::Stay);
    assert_eq!((st.selected, st.query.as_str()), (1, "dev"));
    assert_eq!(st.apply_pointer(ChooserPointer::LeftDown, 1, 4, body, popup), ChooserOutcome::Stay);
    assert_eq!(st.apply_pointer(ChooserPointer::LeftDown, 1, 2, body, popup), ChooserOutcome::Accept);
    assert_eq!((st.selected, st.query.as_str()), (0, ""));
    assert_eq!(st.apply_pointer(ChooserPointer::LeftDown, 20, 20, body, popup), ChooserOutcome::Dismiss);
}

#[test]
fn agent_chooser_moves_clamps_and_takes_clicks() {
    let mut st = AgentChooserState {
        agents: vec!["Cursor".into(), "codex".into(), "aider".into()],
        query: "c".into(),
        selected: 0,
        scroll: 0,
    };
    st.move_selection(5, 1);
    assert_eq!((st.selected, st.scroll), (1, 1));
    st.query = "aider".into();
    st.clamp_selection(1);
    assert_eq!((st.selected, st.scroll), (0, 0));
    st.query = String::new();
    let body = rect(0, 0, 10, 3);
    assert_eq!(st.apply_pointer(ChooserPointer::LeftDown, 0, 2, body, body), ChooserOutcome::Accept);
    assert_eq!(st.selected, 2);
}

#[test]
fn modals_are_centred_with_margins() {
    assert_eq!(modal_inner(rect(0, 0, 100, 40), 56, 7), Some(rect(23, 17, 54, 5)));
    assert_eq!(modal_inner(rect(10, 5, 30, 10), 56, 20), Some(rect(13, 7, 24, 6)));
    assert_eq!(modal_inner(rect(0, 0, 7, 40), 56, 7), None);
    assert_eq!(modal_inner(rect(0, 0, 100, 5), 56, 7), None);
}

fn key(code: KeyCode) -> ChooserKey {
    ChooserKey { code, shift: false, ctrl: false, alt: false, meta: false }
}

fn ctrl(c: char) -> ChooserKey {
    ChooserKey { code: KeyCode::Char(c), shift: false, ctrl: true, alt: false, meta: false }
}

#[test]
fn chooser_keys_edit_the_query_and_move_the_highlight() {
    assert_eq!(chooser_key_edit(ctrl('p')), ChooserEdit::Move(-1));
    assert_eq!(chooser_key_edit(ctrl('n')), ChooserEdit::Move(1));
    assert_eq!(chooser_key_edit(ctrl('u')), ChooserEdit::ClearQuery);
    assert_eq!(chooser_key_edit(ctrl('x')), ChooserEdit::Ignore);
    assert_eq!(chooser_key_edit(ChooserKey { shift: true, ..key(KeyCode::Char('D')) }), ChooserEdit::Type('D'));
    assert_eq!(chooser_key_edit(ChooserKey { alt: true, ..key(KeyCode::Char('a')) }), ChooserEdit::Ignore);
    assert_eq!(chooser_key_edit(ChooserKey { meta: true, ..ctrl('p') }), ChooserEdit::Ignore);

    let mut st = BranchChooserState {
        branches: vec!["main".into(), "dev".into(), "devtools".into()],
        default_base: "main".into(),
        query: String::new(),
        selected: 2,
        scroll: 0,
    };
    assert_eq!(st.apply_key(key(KeyCode::Char('d')), 5), ChooserOutcome::Stay);
    assert_eq!((st.query.as_str(), st.selected), ("d", 1));
    assert_eq!(st.apply_key(key(KeyCode::Up), 5), ChooserOutcome::Stay);
    assert_eq!(st.selected, 0);
    assert_eq!(st.apply_key(ctrl('n'), 5), ChooserOutcome::Stay);
    assert_eq!(st.selected, 1);
    assert_eq!(st.apply_key(key(KeyCode::Backspace), 5), ChooserOutcome::Stay);
    assert_eq!((st.query.as_str(), st.selected), ("", 1));
    assert_eq!(st.apply_key(key(KeyCode::Enter), 5), ChooserOutcome::Accept);
    assert_eq!(st.apply_key(key(KeyCode::Char('x')), 5), ChooserOutcome::Stay);
    assert_eq!((st.selected, st.scroll), (0, 0));
    assert_eq!(st.apply_key(key(KeyCode::Esc), 5), ChooserOutcome::Stay);
    assert_eq!(st.query, "");
    assert_eq!(st.apply_key(key(KeyCode::Esc), 5), ChooserOutcome::Dismiss);
    st.query = "main".into();
    assert_eq!(st.apply_key(ctrl('u'), 5), ChooserOutcome::Stay);
    assert_eq!(st.query, "");
    assert_eq!(st.apply_key(key(KeyCode::Backspace), 5), ChooserOutcome::Stay);
    assert_eq!(st.query, "");
    assert_eq!(st.default_base, "main");
}

#[test]
fn agent_chooser_keys() {
    let mut st = AgentChooserState {
        agents: vec!["Cursor".into(), "codex".into(), "aider".into()],
        query: String::new(),
        selected: 0,
        scroll: 0,
    };
    assert_eq!(st.apply_key(key(KeyCode::Down), 2), ChooserOutcome::Stay);
    assert_eq!(st.apply_key(key(KeyCode::Down), 2), ChooserOutcome::Stay);
    assert_eq!((st.selected, st.scroll), (2, 1));
    assert_eq!(st.apply_key(key(KeyCode::Char('c')), 2), ChooserOutcome::Stay);
    assert_eq!((st.selected, st.scroll), (1, 0));
    assert_eq!(st.apply_key(key(KeyCode::Esc), 2), ChooserOutcome::Stay);
    assert_eq!(st.apply_key(key(KeyCode::Esc), 2), ChooserOutcome::Dismiss);
}
