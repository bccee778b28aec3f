use herdr_core::pane_state::{PaneRole, PaneState, TerminalId};

#[test]
fn pane_state_defaults_to_agent_role() {
    let pane = PaneState::new(TerminalId(7));
    assert_eq!(pane.role, PaneRole::Agent);
}

#[test]
fn pane_role_default_is_agent() {
    assert_eq!(PaneRole::default(), PaneRole::Agent);
}

#[test]
fn new_pane_is_seen_and_attached_to_its_terminal() {
    let pane = PaneState::new(TerminalId(42));
    assert!(pane.seen);
    assert_eq!(pane.attached_terminal_id, TerminalId(42));
}
