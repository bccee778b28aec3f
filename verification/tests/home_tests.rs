use herdr_core::home::{
    confirm_answer, home_key_action, positions_after_removal, scroll_chord, step_index, ConfirmAnswer, FocusPane,
    HomeAction, HomeActivation, HomeControl, HomeKey, HomeMode, HomeRoute, KeyCode, LeftHalf, NavDirection,
};

fn alt(c: char) -> HomeKey {
    HomeKey { code: KeyCode::Char(c), alt: true, ctrl: false, shift: false }
}

fn plain(code: KeyCode) -> HomeKey {
    HomeKey { code, alt: false, ctrl: false, shift: false }
}

fn ctrl_shift(code: KeyCode) -> HomeKey {
    HomeKey { code, alt: false, ctrl: true, shift: true }
}

fn shift(code: KeyCode) -> HomeKey {
    HomeKey { code, alt: false, ctrl: false, shift: true }
}

fn state() -> HomeControl {
    HomeControl { focus: FocusPane::Control, last_left: LeftHalf::Control, selected_repo: 0, selected_agent: 0 }
}

#[test]
fn directional_focus_moves_between_panes() {
    let mut s = state();
    assert_eq!(s.focus, FocusPane::Control);
    assert!(s.apply_home_key(alt('j'), 0, 0).is_some());
    assert_eq!(s.focus, FocusPane::Agents);
    assert!(s.apply_home_key(alt('l'), 0, 0).is_some());
    assert_eq!(s.focus, FocusPane::Main);
    // With Main focused, alt+h first tries the stacked rows; with no row to
    // the left the caller falls back to the last-focused left half.
    assert_eq!(
        s.apply_home_key(alt('h'), 0, 0),
        Some(HomeAction::FocusMainRow { nav: NavDirection::Left, left_fallback: true })
    );
    s.home_focus_left();
    assert_eq!(s.focus, FocusPane::Agents);
    assert!(s.apply_home_key(alt('k'), 0, 0).is_some());
    assert_eq!(s.focus, FocusPane::Control);
}

#[test]
fn repo_selection_clamps_within_bounds() {
    let mut s = state();
    s.apply_home_key(plain(KeyCode::Up), 2, 0);
    assert_eq!(s.selected_repo, 0);
    s.apply_home_key(plain(KeyCode::Down), 2, 0);
    assert_eq!(s.selected_repo, 1);
    s.apply_home_key(plain(KeyCode::Down), 2, 0);
    assert_eq!(s.selected_repo, 1, "clamped at last repo");
}

#[test]
fn alt_q_requests_quit_and_alt_comma_opens_settings() {
    let mut s = state();
    assert_eq!(s.apply_home_key(alt(','), 0, 0), Some(HomeAction::EnterMode(HomeMode::Settings)));
    assert_eq!(s.apply_home_key(alt('q'), 0, 0), Some(HomeAction::EnterMode(HomeMode::ConfirmQuit)));
    assert_eq!(confirm_answer(KeyCode::Char('n')), ConfirmAnswer::No);
    assert_eq!(confirm_answer(KeyCode::Char('y')), ConfirmAnswer::Yes);
    assert_eq!(confirm_answer(KeyCode::Enter), ConfirmAnswer::Yes);
    assert_eq!(confirm_answer(KeyCode::Esc), ConfirmAnswer::No);
    assert_eq!(confirm_answer(KeyCode::Char('x')), ConfirmAnswer::Undecided);
}

#[test]
fn alt_n_is_no_longer_a_create_shortcut() {
    let mut s = state();
    assert_eq!(s.apply_home_key(alt('n'), 1, 0), None);
    assert_eq!(s, state());
}

#[test]
fn r_renames_in_agents_pane_and_is_inert_in_control_pane() {
    let mut s = state();
    assert_eq!(s.apply_home_key(alt('r'), 1, 1), None);
    s.focus = FocusPane::Agents;
    assert_eq!(s.apply_home_key(alt('r'), 1, 1), Some(HomeAction::RenameAgent));
}

#[test]
fn plain_command_keys_fire_in_list_panes_but_not_main() {
    let mut s = state();
    assert_eq!(
        s.apply_home_key(plain(KeyCode::Char('?')), 1, 0),
        Some(HomeAction::EnterMode(HomeMode::KeybindHelp))
    );
    s.focus = FocusPane::Main;
    assert_eq!(s.apply_home_key(plain(KeyCode::Char('?')), 1, 0), None);
}

#[test]
fn hjkl_navigate_like_arrows_in_list_panes() {
    let mut s = state();
    assert!(s.apply_home_key(plain(KeyCode::Char('j')), 2, 0).is_some());
    assert_eq!(s.selected_repo, 1);
    assert!(s.apply_home_key(plain(KeyCode::Char('k')), 2, 0).is_some());
    assert_eq!(s.selected_repo, 0);
    assert!(s.apply_home_key(plain(KeyCode::Char('h')), 2, 0).is_some());
    assert!(s.apply_home_key(plain(KeyCode::Char('l')), 2, 0).is_some());
    assert_eq!(s.selected_repo, 0);
    s.focus = FocusPane::Main;
    assert!(s.apply_home_key(plain(KeyCode::Char('j')), 2, 0).is_none());
    assert!(s.apply_home_key(plain(KeyCode::Char('k')), 2, 0).is_none());
}

#[test]
fn unhandled_key_falls_through() {
    assert_eq!(home_key_action(FocusPane::Main, plain(KeyCode::Char('a'))), None);
}

#[test]
fn plain_arrows_and_pageup_are_not_scroll_chords() {
    assert!(scroll_chord(plain(KeyCode::Up)).is_none());
    assert!(scroll_chord(plain(KeyCode::PageUp)).is_none());
    assert!(scroll_chord(ctrl_shift(KeyCode::Up)).is_some());
    assert!(scroll_chord(shift(KeyCode::PageUp)).is_some());
}

#[test]
fn digits_jump_to_agents_and_step_index_clamps() {
    assert_eq!(home_key_action(FocusPane::Control, plain(KeyCode::Char('3'))), Some(HomeAction::JumpToAgent(2)));
    assert_eq!(home_key_action(FocusPane::Control, plain(KeyCode::Char('0'))), None);
    assert_eq!(home_key_action(FocusPane::Main, alt('1')), Some(HomeAction::JumpToAgent(0)));
    assert_eq!(step_index(0, -1, 3), 0);
    assert_eq!(step_index(2, 1, 3), 2);
    assert_eq!(step_index(1, 1, 3), 2);
    assert_eq!(step_index(5, 1, 0), 0);
}

#[test]
fn app_level_keys_are_routed_before_home_commands() {
    let mut s = state();
    s.focus = FocusPane::Main;
    assert_eq!(
        s.dispatch_home_key(ctrl_shift(KeyCode::Down), true, false, false, 0, 0),
        HomeRoute::ScrollMain(scroll_chord(ctrl_shift(KeyCode::Down)).unwrap())
    );
    assert_eq!(s.dispatch_home_key(alt('r'), true, false, false, 0, 0), HomeRoute::ToggleReviewRow);
    assert_eq!(s.dispatch_home_key(alt('g'), true, true, false, 0, 0), HomeRoute::SendAgentFix);
    assert_eq!(s.dispatch_home_key(alt('j'), true, false, true, 0, 0), HomeRoute::ForwardToMain);
    assert_eq!(s.dispatch_home_key(plain(KeyCode::Char('a')), true, false, false, 0, 0), HomeRoute::ForwardToMain);
    s.focus = FocusPane::Agents;
    assert_eq!(s.dispatch_home_key(plain(KeyCode::Char('p')), false, false, false, 0, 0), HomeRoute::SubmitPrForSelectedAgent);
    assert_eq!(s.dispatch_home_key(plain(KeyCode::Char('w')), false, false, false, 0, 0), HomeRoute::Ignore);
    s.focus = FocusPane::Control;
    assert_eq!(s.dispatch_home_key(plain(KeyCode::Char('t')), false, false, false, 0, 0), HomeRoute::OpenTerminalInSelectedRepo);
}

#[test]
fn marked_agent_follows_focus_or_main() {
    let agents = vec![4, 2, 2, 7];
    let mut s = state();
    assert_eq!(s.marked_agent_index(&agents, Some(2)), Some(1));
    assert_eq!(s.marked_agent_index(&agents, Some(9)), None);
    assert_eq!(s.marked_agent_index(&agents, None), None);
    s.focus = FocusPane::Agents;
    s.selected_agent = 10;
    assert_eq!(s.marked_agent_index(&agents, Some(2)), Some(3));
    assert_eq!(s.marked_agent_index(&Vec::new(), Some(2)), None);
}

#[test]
fn jumping_and_activating_agents() {
    let agents = vec![4, 2];
    let mut s = state();
    assert_eq!(s.jump_to_agent(5, &agents), None);
    assert_eq!(s, state());
    assert_eq!(s.jump_to_agent(1, &agents), Some(2));
    assert_eq!((s.selected_agent, s.focus, s.last_left), (1, FocusPane::Agents, LeftHalf::Agents));
    assert_eq!(s.selected_agent_workspace(&agents), Some(2));
    assert_eq!(s.home_activate(&agents, None), HomeActivation::ShowWorkspace(2));
    assert_eq!((s.focus, s.last_left), (FocusPane::Main, LeftHalf::Agents));
    let mut s = state();
    assert_eq!(s.home_activate(&agents, None), HomeActivation::OpenBranchPicker);
    assert_eq!(s.focus, FocusPane::Control);
    s.focus = FocusPane::Agents;
    s.selected_agent = 9;
    assert_eq!(s.home_activate(&agents, None), HomeActivation::Nothing);
    assert_eq!(s.focus, FocusPane::Agents);
    assert_eq!(s.home_activate(&agents, Some(0)), HomeActivation::Nothing);
    assert_eq!(s.focus, FocusPane::Main);
}

#[test]
fn killing_an_agent_fixes_up_positions_and_selection() {
    assert_eq!(positions_after_removal(Some(2), 2, 2, 3), (None, 2));
    assert_eq!(positions_after_removal(Some(3), 3, 1, 3), (Some(2), 2));
    assert_eq!(positions_after_removal(Some(0), 3, 3, 3), (Some(0), 2));
    assert_eq!(positions_after_removal(None, 0, 0, 0), (None, 0));
    let mut s = state();
    s.focus = FocusPane::Agents;
    s.last_left = LeftHalf::Agents;
    s.selected_agent = 3;
    s.after_agent_killed(2);
    assert_eq!((s.selected_agent, s.focus), (1, FocusPane::Agents));
    s.after_agent_killed(0);
    assert_eq!((s.selected_agent, s.focus, s.last_left), (0, FocusPane::Control, LeftHalf::Control));
}
