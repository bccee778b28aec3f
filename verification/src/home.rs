//! Keyboard-first home input: which pane has focus, what a key does there,
//! and how list selections move.
//!
//! Layout panes: Control (top-left, repos), Agents (bottom-left), Main (right).
//! `alt+h/j/k/l` moves focus between them; arrows move the selection inside the
//! focused list; Enter activates the selection but leaves focus where it is.
use vstd::prelude::*;

verus! {

/// The pane of the home surface with keyboard focus.
#[derive(Debug, Clone, Copy, PartialEq, Eq, Structural)]
pub enum FocusPane {
    Control,
    Agents,
    Main,
}

/// The left-hand pane focused last, which `alt+h` returns to.
#[derive(Debug, Clone, Copy, PartialEq, Eq, Structural)]
pub enum LeftHalf {
    Control,
    Agents,
}

/// A direction between stacked rows.
#[derive(Debug, Clone, Copy, PartialEq, Eq, Structural)]
pub enum NavDirection {
    Left,
    Right,
    Up,
    Down,
}

/// The key pressed, without its modifiers.
#[derive(Debug, Clone, Copy, PartialEq, Eq, Structural)]
pub enum KeyCode {
    Char(char),
    Up,
    Down,
    Left,
    Right,
    PageUp,
    PageDown,
    Enter,
    Esc,
    Backspace,
    Other,
}

/// A key press with its modifiers.
#[derive(Debug, Clone, Copy, PartialEq, Eq, Structural)]
pub struct HomeKey {
    pub code: KeyCode,
    pub alt: bool,
    pub ctrl: bool,
    pub shift: bool,
}

/// Which way a scrollback chord scrolls.
#[derive(Debug, Clone, Copy, PartialEq, Eq, Structural)]
pub enum ScrollDirection {
    Up,
    Down,
}

/// How far a scrollback chord scrolls.
#[derive(Debug, Clone, Copy, PartialEq, Eq, Structural)]
pub enum ScrollUnit {
    Line,
    Page,
}

/// A Main-pane scrollback chord.
#[derive(Debug, Clone, Copy, PartialEq, Eq, Structural)]
pub struct ScrollChord {
    pub direction: ScrollDirection,
    pub unit: ScrollUnit,
}

/// The scrollback chord a key is: ctrl+shift+up/down scroll one line,
/// shift+pageup/pagedown one page; anything else (plain arrows and page keys
/// included) is none and keeps flowing to the pane.
pub open spec fn chord_of(key: HomeKey) -> Option<ScrollChord> {
    match key.code {
        KeyCode::Up => if key.ctrl && key.shift {
            Some(ScrollChord { direction: ScrollDirection::Up, unit: ScrollUnit::Line })
        } else {
            None
        },
        KeyCode::Down => if key.ctrl && key.shift {
            Some(ScrollChord { direction: ScrollDirection::Down, unit: ScrollUnit::Line })
        } else {
            None
        },
        KeyCode::PageUp => if key.shift {
            Some(ScrollChord { direction: ScrollDirection::Up, unit: ScrollUnit::Page })
        } else {
            None
        },
        KeyCode::PageDown => if key.shift {
            Some(ScrollChord { direction: ScrollDirection::Down, unit: ScrollUnit::Page })
        } else {
            None
        },
        _ => None,
    }
}

/// Classify a key as a Main-pane scrollback chord.
pub fn scroll_chord(key: HomeKey) -> (c: Option<ScrollChord>)
    ensures
        c == chord_of(key),
{
    match key.code {
        KeyCode::Up => if key.ctrl && key.shift {
            Some(ScrollChord { direction: ScrollDirection::Up, unit: ScrollUnit::Line })
        } else {
            None
        },
        KeyCode::Down => if key.ctrl && key.shift {
            Some(ScrollChord { direction: ScrollDirection::Down, unit: ScrollUnit::Line })
        } else {
            None
        },
        KeyCode::PageUp => if key.shift {
            Some(ScrollChord { direction: ScrollDirection::Up, unit: ScrollUnit::Page })
        } else {
            None
        },
        KeyCode::PageDown => if key.shift {
            Some(ScrollChord { direction: ScrollDirection::Down, unit: ScrollUnit::Page })
        } else {
            None
        },
        _ => None,
    }
}

/// A mode the home surface hands over to.
#[derive(Debug, Clone, Copy, PartialEq, Eq, Structural)]
pub enum HomeMode {
    ConfirmQuit,
    Settings,
    KeybindHelp,
}

/// What a home key does.
#[derive(Debug, Clone, Copy, PartialEq, Eq, Structural)]
pub enum HomeAction {
    /// Move focus to the neighbouring stacked row of the active workspace;
    /// when there is none and `left_fallback`, focus the left half instead.
    FocusMainRow { nav: NavDirection, left_fallback: bool },
    /// Focus the left pane focused last.
    FocusLeft,
    /// Focus a pane.
    SetFocus(FocusPane),
    /// Hand over to another mode.
    EnterMode(HomeMode),
    /// Rename the selected agent.
    RenameAgent,
    /// Ask to kill the selected agent.
    KillAgent,
    /// Submit a PR for the selected agent's branch.
    SubmitPr,
    /// Jump to the agent at this 0-based position.
    JumpToAgent(usize),
    /// Move the focused list's selection.
    MoveSelection(isize),
    /// Activate the focused list's selection.
    Activate,
    /// Consume the key and do nothing.
    Nothing,
}

/// The row direction of `alt+h/j/k/l`.
pub open spec fn nav_of(c: char) -> Option<NavDirection> {
    if c == 'h' {
        Some(NavDirection::Left)
    } else if c == 'j' {
        Some(NavDirection::Down)
    } else if c == 'k' {
        Some(NavDirection::Up)
    } else if c == 'l' {
        Some(NavDirection::Right)
    } else {
        None
    }
}

/// What a key does on the home surface with `focus`, or `None` when it is no
/// home command and falls through (to the agent pane when Main has focus).
/// In the list panes (Control, Agents) commands work as plain letters; `alt+`
/// works everywhere.
pub open spec fn home_action(focus: FocusPane, key: HomeKey) -> Option<HomeAction> {
    let in_list = focus != FocusPane::Main;
    let cmd = key.alt || in_list;
    match key.code {
        KeyCode::Char(c) => {
            if key.alt && focus == FocusPane::Main && nav_of(c) is Some {
                Some(HomeAction::FocusMainRow { nav: nav_of(c).unwrap(), left_fallback: c == 'h' })
            } else if key.alt && c == 'h' {
                Some(HomeAction::FocusLeft)
            } else if key.alt && c == 'j' {
                Some(HomeAction::SetFocus(FocusPane::Agents))
            } else if key.alt && c == 'k' {
                Some(HomeAction::SetFocus(FocusPane::Control))
            } else if key.alt && c == 'l' {
                Some(HomeAction::SetFocus(FocusPane::Main))
            } else if cmd && c == 'q' {
                Some(HomeAction::EnterMode(HomeMode::ConfirmQuit))
            } else if cmd && c == ',' {
                Some(HomeAction::EnterMode(HomeMode::Settings))
            } else if cmd && c == '?' {
                Some(HomeAction::EnterMode(HomeMode::KeybindHelp))
            } else if cmd && c == 'r' && focus == FocusPane::Agents {
                Some(HomeAction::RenameAgent)
            } else if cmd && c == 'x' {
                Some(HomeAction::KillAgent)
            } else if cmd && c == 'p' {
                Some(HomeAction::SubmitPr)
            } else if cmd && '1' <= c && c <= '9' {
                Some(HomeAction::JumpToAgent(((c as u32) - ('1' as u32)) as usize))
            } else if in_list && c == ' ' {
                Some(HomeAction::Activate)
            } else if in_list && c == 'k' {
                Some(HomeAction::MoveSelection(-1isize))
            } else if in_list && c == 'j' {
                Some(HomeAction::MoveSelection(1isize))
            } else if in_list && (c == 'h' || c == 'l') {
                Some(HomeAction::Nothing)
            } else {
                None
            }
        },
        KeyCode::Up => if in_list { Some(HomeAction::MoveSelection(-1isize)) } else { None },
        KeyCode::Down => if in_list { Some(HomeAction::MoveSelection(1isize)) } else { None },
        KeyCode::Enter => if in_list { Some(HomeAction::Activate) } else { None },
        _ => None,
    }
}

fn nav_dir(c: char) -> (n: Option<NavDirection>)
    ensures
        n == nav_of(c),
{
    if c == 'h' {
        Some(NavDirection::Left)
    } else if c == 'j' {
        Some(NavDirection::Down)
    } else if c == 'k' {
        Some(NavDirection::Up)
    } else if c == 'l' {
        Some(NavDirection::Right)
    } else {
        None
    }
}

/// What a key does on the home surface with `focus`; `None` when it falls
/// through.
pub fn home_key_action(focus: FocusPane, key: HomeKey) -> (a: Option<HomeAction>)
    ensures
        a == home_action(focus, key),
{
    let in_list = focus != FocusPane::Main;
    let cmd = key.alt || in_list;
    match key.code {
        KeyCode::Char(c) => {
            let nav = nav_dir(c);
            if key.alt && focus == FocusPane::Main && nav.is_some() {
                return Some(HomeAction::FocusMainRow { nav: nav.unwrap(), left_fallback: c == 'h' });
            }
            if key.alt && c == 'h' {
                Some(HomeAction::FocusLeft)
            } else if key.alt && c == 'j' {
                Some(HomeAction::SetFocus(FocusPane::Agents))
            } else if key.alt && c == 'k' {
                Some(HomeAction::SetFocus(FocusPane::Control))
            } else if key.alt && c == 'l' {
                Some(HomeAction::SetFocus(FocusPane::Main))
            } else if cmd && c == 'q' {
                Some(HomeAction::EnterMode(HomeMode::ConfirmQuit))
            } else if cmd && c == ',' {
                Some(HomeAction::EnterMode(HomeMode::Settings))
            } else if cmd && c == '?' {
                Some(HomeAction::EnterMode(HomeMode::KeybindHelp))
            } else if cmd && c == 'r' && focus == FocusPane::Agents {
                Some(HomeAction::RenameAgent)
            } else if cmd && c == 'x' {
                Some(HomeAction::KillAgent)
            } else if cmd && c == 'p' {
                Some(HomeAction::SubmitPr)
            } else if cmd && '1' <= c && c <= '9' {
                Some(HomeAction::JumpToAgent(((c as u32) - ('1' as u32)) as usize))
            } else if in_list && c == ' ' {
                Some(HomeAction::Activate)
            } else if in_list && c == 'k' {
                Some(HomeAction::MoveSelection(-1isize))
            } else if in_list && c == 'j' {
                Some(HomeAction::MoveSelection(1isize))
            } else if in_list && (c == 'h' || c == 'l') {
                Some(HomeAction::Nothing)
            } else {
                None
            }
        },
        KeyCode::Up => if in_list { Some(HomeAction::MoveSelection(-1isize)) } else { None },
        KeyCode::Down => if in_list { Some(HomeAction::MoveSelection(1isize)) } else { None },
        KeyCode::Enter => if in_list { Some(HomeAction::Activate) } else { None },
        _ => None,
    }
}

/// `index` moved by `delta` and kept within `[0, len)`; 0 when there are no rows.
pub open spec fn stepped(index: usize, delta: isize, len: usize) -> usize {
    if len == 0 {
        0
    } else {
        let next = index + delta;
        if next < 0 {
            0
        } else if next > len - 1 {
            (len - 1) as usize
        } else {
            next as usize
        }
    }
}

/// In a list pane Enter activates the selection, as Space does, whatever
/// the modifiers.
pub proof fn lemma_enter_activates_in_lists(focus: FocusPane, key: HomeKey)
    requires
        focus != FocusPane::Main,
        key.code == KeyCode::Enter,
    ensures
        home_action(focus, key) == Some(HomeAction::Activate),
        home_action(focus, key) == home_action(focus, HomeKey { code: KeyCode::Char(' '), alt: false, ..key }),
{
}

/// Move `index` by `delta`, clamped to `[0, len)`. Returns 0 when `len == 0`.
pub fn step_index(index: usize, delta: isize, len: usize) -> (r: usize)
    requires
        index <= isize::MAX,
        len <= isize::MAX,
        isize::MIN <= index + delta <= isize::MAX,
    ensures
        r == stepped(index, delta, len),
        len > 0 ==> r < len,
{
    if len == 0 {
        return 0;
    }
    let max = (len - 1) as isize;
    let next = index as isize + delta;
    if next < 0 {
        0
    } else if next > max {
        max as usize
    } else {
        next as usize
    }
}

/// The home surface's focus and list selections.
#[derive(Debug, Clone, Copy, PartialEq, Eq, Structural)]
pub struct HomeControl {
    pub focus: FocusPane,
    pub last_left: LeftHalf,
    pub selected_repo: usize,
    pub selected_agent: usize,
}

impl HomeControl {
    /// Focus `focus`, remembering it when it is a left-hand pane.
    pub fn set_home_focus(&mut self, focus: FocusPane)
        ensures
            final(self).focus == focus,
            final(self).last_left == match focus {
                FocusPane::Control => LeftHalf::Control,
                FocusPane::Agents => LeftHalf::Agents,
                FocusPane::Main => old(self).last_left,
            },
            final(self).selected_repo == old(self).selected_repo,
            final(self).selected_agent == old(self).selected_agent,
    {
        self.focus = focus;
        match focus {
            FocusPane::Control => self.last_left = LeftHalf::Control,
            FocusPane::Agents => self.last_left = LeftHalf::Agents,
            FocusPane::Main => {},
        }
    }

    /// Focus the left-hand pane focused last.
    pub fn home_focus_left(&mut self)
        ensures
            final(self).focus == match old(self).last_left {
                LeftHalf::Control => FocusPane::Control,
                LeftHalf::Agents => FocusPane::Agents,
            },
            final(self).last_left == old(self).last_left,
            final(self).selected_repo == old(self).selected_repo,
            final(self).selected_agent == old(self).selected_agent,
    {
        self.focus = match self.last_left {
            LeftHalf::Control => FocusPane::Control,
            LeftHalf::Agents => FocusPane::Agents,
        };
    }

    /// Move the selection of the focused list (`repo_count` repositories in
    /// Control, `agent_count` agents in Agents) by `delta`; Main has none.
    pub fn home_move_selection(&mut self, delta: isize, repo_count: usize, agent_count: usize)
        requires
            old(self).selected_repo < isize::MAX,
            old(self).selected_agent < isize::MAX,
            repo_count <= isize::MAX,
            agent_count <= isize::MAX,
            -1 <= delta <= 1,
        ensures
            final(self).focus == old(self).focus,
            final(self).last_left == old(self).last_left,
            final(self).selected_repo == if old(self).focus == FocusPane::Control {
                stepped(old(self).selected_repo, delta, repo_count)
            } else {
                old(self).selected_repo
            },
            final(self).selected_agent == if old(self).focus == FocusPane::Agents {
                stepped(old(self).selected_agent, delta, agent_count)
            } else {
                old(self).selected_agent
            },
    {
        match self.focus {
            FocusPane::Control => {
                self.selected_repo = step_index(self.selected_repo, delta, repo_count);
            },
            FocusPane::Agents => {
                self.selected_agent = step_index(self.selected_agent, delta, agent_count);
            },
            FocusPane::Main => {},
        }
    }

    /// Apply a home key: focus moves and list selections happen here; the
    /// action is returned (`None` when the key falls through) so that the
    /// caller carries out what needs the rest of the app.
    pub fn apply_home_key(&mut self, key: HomeKey, repo_count: usize, agent_count: usize) -> (a: Option<HomeAction>)
        requires
            old(self).selected_repo < isize::MAX,
            old(self).selected_agent < isize::MAX,
            repo_count <= isize::MAX,
            agent_count <= isize::MAX,
        ensures
            a == home_action(old(self).focus, key),
            match a {
                Some(HomeAction::FocusLeft) => final(self).focus == match old(self).last_left {
                    LeftHalf::Control => FocusPane::Control,
                    LeftHalf::Agents => FocusPane::Agents,
                } && final(self).last_left == old(self).last_left,
                Some(HomeAction::SetFocus(p)) => final(self).focus == p,
                Some(HomeAction::MoveSelection(d)) => {
                    &&& final(self).focus == old(self).focus
                    &&& final(self).selected_repo == if old(self).focus == FocusPane::Control {
                        stepped(old(self).selected_repo, d, repo_count)
                    } else {
                        old(self).selected_repo
                    }
                    &&& final(self).selected_agent == if old(self).focus == FocusPane::Agents {
                        stepped(old(self).selected_agent, d, agent_count)
                    } else {
                        old(self).selected_agent
                    }
                },
                _ => *final(self) == *old(self),
            },
    {
        let a = home_key_action(self.focus, key);
        match a {
            Some(HomeAction::FocusLeft) => self.home_focus_left(),
            Some(HomeAction::SetFocus(p)) => self.set_home_focus(p),
            Some(HomeAction::MoveSelection(d)) => self.home_move_selection(d, repo_count, agent_count),
            _ => {},
        }
        a
    }
}

/// What the home surface does with a key before the home commands: the
/// App-level commands that spawn processes or panes, and the keys forwarded
/// to the focused agent pane.
#[derive(Debug, Clone, Copy, PartialEq, Eq, Structural)]
pub enum HomeRoute {
    /// Scroll the focused Main pane's scrollback.
    ScrollMain(ScrollChord),
    /// Submit a PR for the selected agent's branch (runs `gh`).
    SubmitPrForSelectedAgent,
    /// Open a plain terminal in the selected repository.
    OpenTerminalInSelectedRepo,
    /// Enter copy mode on the focused Main pane.
    EnterCopyMode,
    /// Toggle the review row of the active workspace.
    ToggleReviewRow,
    /// Toggle the terminal row of the active workspace.
    ToggleTerminalRow,
    /// Ask the agent to fix the review comments of its branch.
    SendAgentFix,
    /// Zoom the focused Main pane, or restore the other rows.
    ToggleZoom,
    /// A home command, already applied to the focus and selections.
    Home(HomeAction),
    /// Type the key into the focused agent pane.
    ForwardToMain,
    /// Drop the key.
    Ignore,
}

/// How a home key is routed, given whether Main has focus, whether the
/// review row is the focused row, and whether vim runs in the focused row
/// (vim then drives its own window moves with `alt+h/j/k/l`).
pub open spec fn home_route(
    focus: FocusPane,
    key: HomeKey,
    main_focused: bool,
    review_focused: bool,
    main_is_vim: bool,
) -> HomeRoute {
    if main_focused && chord_of(key) is Some {
        HomeRoute::ScrollMain(chord_of(key).unwrap())
    } else if key.code == KeyCode::Char('p') && focus == FocusPane::Agents {
        HomeRoute::SubmitPrForSelectedAgent
    } else if key.code == KeyCode::Char('t') && focus == FocusPane::Control {
        HomeRoute::OpenTerminalInSelectedRepo
    } else if key.code == KeyCode::Char('s') && key.alt {
        HomeRoute::EnterCopyMode
    } else if main_focused && key.alt && key.code == KeyCode::Char('r') {
        HomeRoute::ToggleReviewRow
    } else if main_focused && key.alt && key.code == KeyCode::Char('t') {
        HomeRoute::ToggleTerminalRow
    } else if main_focused && key.alt && key.code == KeyCode::Char('g') && review_focused {
        HomeRoute::SendAgentFix
    } else if main_focused && key.alt && key.code == KeyCode::Char('z') {
        HomeRoute::ToggleZoom
    } else if focus == FocusPane::Main && key.alt && (key.code matches KeyCode::Char(c) && nav_of(c) is Some) && main_is_vim {
        HomeRoute::ForwardToMain
    } else {
        match home_action(focus, key) {
            Some(a) => HomeRoute::Home(a),
            None => if focus == FocusPane::Main {
                HomeRoute::ForwardToMain
            } else {
                HomeRoute::Ignore
            },
        }
    }
}

impl HomeControl {
    /// Route a home key and apply its home command, if it is one.
    pub fn dispatch_home_key(
        &mut self,
        key: HomeKey,
        main_focused: bool,
        review_focused: bool,
        main_is_vim: bool,
        repo_count: usize,
        agent_count: usize,
    ) -> (r: HomeRoute)
        requires
            old(self).selected_repo < isize::MAX,
            old(self).selected_agent < isize::MAX,
            repo_count <= isize::MAX,
            agent_count <= isize::MAX,
        ensures
            r == home_route(old(self).focus, key, main_focused, review_focused, main_is_vim),
            !(r is Home) ==> *final(self) == *old(self),
    {
        if main_focused {
            if let Some(chord) = scroll_chord(key) {
                return HomeRoute::ScrollMain(chord);
            }
        }
        if key.code == KeyCode::Char('p') && self.focus == FocusPane::Agents {
            return HomeRoute::SubmitPrForSelectedAgent;
        }
        if key.code == KeyCode::Char('t') && self.focus == FocusPane::Control {
            return HomeRoute::OpenTerminalInSelectedRepo;
        }
        if key.code == KeyCode::Char('s') && key.alt {
            return HomeRoute::EnterCopyMode;
        }
        if main_focused && key.alt {
            if key.code == KeyCode::Char('r') {
                return HomeRoute::ToggleReviewRow;
            }
            if key.code == KeyCode::Char('t') {
                return HomeRoute::ToggleTerminalRow;
            }
            if key.code == KeyCode::Char('g') && review_focused {
                return HomeRoute::SendAgentFix;
            }
            if key.code == KeyCode::Char('z') {
                return HomeRoute::ToggleZoom;
            }
        }
        if self.focus == FocusPane::Main && key.alt && main_is_vim {
            if let KeyCode::Char(c) = key.code {
                if nav_dir(c).is_some() {
                    return HomeRoute::ForwardToMain;
                }
            }
        }
        let focus = self.focus;
        match self.apply_home_key(key, repo_count, agent_count) {
            Some(a) => HomeRoute::Home(a),
            None => if focus == FocusPane::Main {
                HomeRoute::ForwardToMain
            } else {
                HomeRoute::Ignore
            },
        }
    }
}

/// The first position, from `k` on, of an agent whose workspace is `ws`.
pub open spec fn agent_of_workspace(agent_ws: Seq<usize>, ws: usize, k: int) -> Option<usize>
    decreases agent_ws.len() - k,
{
    if k < 0 || k >= agent_ws.len() {
        None
    } else if agent_ws[k] == ws {
        Some(k as usize)
    } else {
        agent_of_workspace(agent_ws, ws, k + 1)
    }
}

/// What Enter does on the home surface.
#[derive(Debug, Clone, Copy, PartialEq, Eq, Structural)]
pub enum HomeActivation {
    /// Show the selected agent's workspace (the given one) in Main.
    ShowWorkspace(usize),
    /// Open the branch picker for the selected repository.
    OpenBranchPicker,
    /// Nothing to activate.
    Nothing,
}

impl HomeControl {
    /// The agent that agent commands act on, among agents whose workspaces
    /// are `agent_ws`: the Agents pane's selection (kept on an agent) while
    /// that pane has focus, else the first agent of the workspace `active`
    /// shown in Main.
    pub fn marked_agent_index(&self, agent_ws: &Vec<usize>, active: Option<usize>) -> (r: Option<usize>)
        ensures
            r == if agent_ws@.len() == 0 {
                None
            } else if self.focus == FocusPane::Agents {
                Some(if self.selected_agent < agent_ws@.len() { self.selected_agent } else { (agent_ws@.len() - 1) as usize })
            } else {
                match active {
                    Some(a) => agent_of_workspace(agent_ws@, a, 0),
                    None => None,
                }
            },
    {
        if agent_ws.len() == 0 {
            return None;
        }
        if self.focus == FocusPane::Agents {
            let last = agent_ws.len() - 1;
            return Some(if self.selected_agent < agent_ws.len() { self.selected_agent } else { last });
        }
        let a = match active {
            Some(a) => a,
            None => return None,
        };
        let mut k: usize = 0;
        while k < agent_ws.len()
            invariant
                k <= agent_ws@.len(),
                agent_ws@.len() > 0,
                self.focus != FocusPane::Agents,
                active == Some(a),
                agent_of_workspace(agent_ws@, a, k as int) == agent_of_workspace(agent_ws@, a, 0),
            decreases agent_ws.len() - k,
        {
            if agent_ws[k] == a {
                return Some(k);
            }
            k = k + 1;
        }
        None
    }

    /// The workspace of the selected agent, if the selection is on an agent.
    pub fn selected_agent_workspace(&self, agent_ws: &Vec<usize>) -> (r: Option<usize>)
        ensures
            r == if self.selected_agent < agent_ws@.len() { Some(agent_ws@[self.selected_agent as int]) } else { None },
    {
        if self.selected_agent < agent_ws.len() { Some(agent_ws[self.selected_agent]) } else { None }
    }

    /// Jump to agent `index`: select and focus it in the Agents pane and give
    /// back its workspace, to be shown in Main. Out of range, nothing changes.
    pub fn jump_to_agent(&mut self, index: usize, agent_ws: &Vec<usize>) -> (r: Option<usize>)
        ensures
            index >= agent_ws@.len() ==> r is None && *final(self) == *old(self),
            index < agent_ws@.len() ==> {
                &&& r == Some(agent_ws@[index as int])
                &&& final(self).selected_agent == index
                &&& final(self).focus == FocusPane::Agents
                &&& final(self).last_left == LeftHalf::Agents
                &&& final(self).selected_repo == old(self).selected_repo
            },
    {
        if index >= agent_ws.len() {
            return None;
        }
        self.selected_agent = index;
        self.focus = FocusPane::Agents;
        self.last_left = LeftHalf::Agents;
        Some(agent_ws[index])
    }

    /// Enter on the home surface. In the Agents pane it shows the selected
    /// agent's workspace and moves focus into Main (when some workspace is
    /// then shown, `active` being the one shown before); in the Control pane
    /// it opens the branch picker for creating an agent.
    pub fn home_activate(&mut self, agent_ws: &Vec<usize>, active: Option<usize>) -> (r: HomeActivation)
        ensures
            r == match old(self).focus {
                FocusPane::Agents => if old(self).selected_agent < agent_ws@.len() {
                    HomeActivation::ShowWorkspace(agent_ws@[old(self).selected_agent as int])
                } else {
                    HomeActivation::Nothing
                },
                FocusPane::Control => HomeActivation::OpenBranchPicker,
                FocusPane::Main => HomeActivation::Nothing,
            },
            final(self).focus == if old(self).focus == FocusPane::Agents && (r is ShowWorkspace || active is Some) {
                FocusPane::Main
            } else {
                old(self).focus
            },
            final(self).last_left == old(self).last_left,
            final(self).selected_repo == old(self).selected_repo,
            final(self).selected_agent == old(self).selected_agent,
    {
        match self.focus {
            FocusPane::Agents => {
                let shown = self.selected_agent_workspace(agent_ws);
                let r = match shown {
                    Some(ws) => HomeActivation::ShowWorkspace(ws),
                    None => HomeActivation::Nothing,
                };
                if shown.is_some() || active.is_some() {
                    self.set_home_focus(FocusPane::Main);
                }
                r
            },
            FocusPane::Control => HomeActivation::OpenBranchPicker,
            FocusPane::Main => HomeActivation::Nothing,
        }
    }

    /// Keep the agent selection on one of the `agent_count` agents left after
    /// a kill; with none left, focus goes back to the Control pane.
    pub fn after_agent_killed(&mut self, agent_count: usize)
        ensures
            agent_count == 0 ==> final(self).selected_agent == 0 && final(self).focus == FocusPane::Control
                && final(self).last_left == LeftHalf::Control,
            agent_count > 0 ==> final(self).focus == old(self).focus && final(self).last_left == old(self).last_left
                && final(self).selected_agent == if old(self).selected_agent < agent_count {
                old(self).selected_agent
            } else {
                (agent_count - 1) as usize
            },
            final(self).selected_repo == old(self).selected_repo,
    {
        if agent_count == 0 {
            self.selected_agent = 0;
            self.focus = FocusPane::Control;
            self.last_left = LeftHalf::Control;
        } else if self.selected_agent >= agent_count {
            self.selected_agent = agent_count - 1;
        }
    }
}

/// The active and selected workspace positions after workspace `removed`
/// was taken out, leaving `remaining` workspaces: the active one is cleared
/// when it was removed and shifts down when it came after it; the selection
/// shifts down likewise and stays on a workspace.
pub fn positions_after_removal(active: Option<usize>, selected: usize, removed: usize, remaining: usize) -> (r: (Option<usize>, usize))
    ensures
        r.0 == match active {
            Some(a) => if a == removed {
                None
            } else if a > removed {
                Some((a - 1) as usize)
            } else {
                Some(a)
            },
            None => None,
        },
        ({
            let shifted = if selected > removed { (selected - 1) as usize } else { selected };
            r.1 == if remaining > 0 && shifted >= remaining { (remaining - 1) as usize } else { shifted }
        }),
        removed <= remaining && (active matches Some(a) && a <= remaining) ==> (r.0 matches Some(b) ==> b < remaining),
        remaining > 0 ==> r.1 < remaining,
{
    let new_active = match active {
        Some(a) => if a == removed {
            None
        } else if a > removed {
            Some(a - 1)
        } else {
            Some(a)
        },
        None => None,
    };
    let mut sel = if selected > removed { selected - 1 } else { selected };
    if remaining > 0 && sel >= remaining {
        sel = remaining - 1;
    }
    (new_active, sel)
}

/// What a key does while a yes/no confirmation is shown.
#[derive(Debug, Clone, Copy, PartialEq, Eq, Structural)]
pub enum ConfirmAnswer {
    /// `y`, `Y` or Enter.
    Yes,
    /// `n`, `N` or Esc: back home.
    No,
    /// Anything else: keep asking.
    Undecided,
}

/// The answer a key gives to a yes/no confirmation.
pub fn confirm_answer(code: KeyCode) -> (a: ConfirmAnswer)
    ensures
        a == match code {
            KeyCode::Char(c) => if c == 'y' || c == 'Y' {
                ConfirmAnswer::Yes
            } else if c == 'n' || c == 'N' {
                ConfirmAnswer::No
            } else {
                ConfirmAnswer::Undecided
            },
            KeyCode::Enter => ConfirmAnswer::Yes,
            KeyCode::Esc => ConfirmAnswer::No,
            _ => ConfirmAnswer::Undecided,
        },
{
    match code {
        KeyCode::Char(c) => if c == 'y' || c == 'Y' {
            ConfirmAnswer::Yes
        } else if c == 'n' || c == 'N' {
            ConfirmAnswer::No
        } else {
            ConfirmAnswer::Undecided
        },
        KeyCode::Enter => ConfirmAnswer::Yes,
        KeyCode::Esc => ConfirmAnswer::No,
        _ => ConfirmAnswer::Undecided,
    }
}

} // verus!
