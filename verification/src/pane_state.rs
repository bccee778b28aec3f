//! Per-pane viewport state.
use vstd::prelude::*;

verus! {

/// Identity of a terminal (PTY) attached to a pane.
#[derive(Debug, Clone, Copy, PartialEq, Eq, Hash, Structural)]
pub struct TerminalId(pub u64);

/// Identity of a pane within the layout.
#[derive(Debug, Clone, Copy, PartialEq, Eq, Hash, Structural)]
pub struct PaneId(pub u64);

/// The role a pane plays inside a workspace's stacked layout.
///
/// The agent pane is the tab's root pane (the bottom row). A `Review` row is
/// the diff stacked above it, and a `Terminal` row a plain shell stacked above
/// the agent. The role keeps non-agent rows out of the agents list and lets
/// actions find those rows again to reload or close them.
#[derive(Debug, Clone, Copy, PartialEq, Eq, Structural)]
pub enum PaneRole {
    Agent,
    Review,
    Terminal,
}

/// The default role: a freshly made pane is an agent row.
impl Default for PaneRole {
    fn default() -> (r: PaneRole)
        ensures
            r == PaneRole::Agent,
    {
        PaneRole::Agent
    }
}

/// Viewport state for a pane.
#[derive(Debug, Clone, Copy, PartialEq, Eq)]
pub struct PaneState {
    pub attached_terminal_id: TerminalId,
    /// Whether the user has seen this pane since its last state change to Idle.
    /// False = "Done" (agent finished while user was in another workspace).
    pub seen: bool,
    /// What this pane represents within its workspace's stacked layout.
    pub role: PaneRole,
}

impl PaneState {
    /// A pane attached to `attached_terminal_id`: seen, in the agent role.
    pub fn new(attached_terminal_id: TerminalId) -> (s: PaneState)
        ensures
            s.attached_terminal_id == attached_terminal_id,
            s.seen,
            s.role == PaneRole::Agent,
    {
        PaneState { attached_terminal_id, seen: true, role: PaneRole::Agent }
    }
}

} // verus!
