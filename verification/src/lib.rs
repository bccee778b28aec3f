//! Core state and decision logic of the herdr agent cockpit: panes and
//! workspaces, the pull-request inbox and review-status classification, the
//! stack graph of stacked pull requests, the sidebar's grouping, geometry and
//! agent order, the chooser overlays, the home surface's keys and lists, and
//! where worktree actions start from.
use vstd::prelude::*;

pub mod pane_state;
pub mod text;
pub mod pr_inbox;
pub mod review_pr;
pub mod pr_status;
pub mod stack_graph;
pub mod pr_fetch;
pub mod workspace;
pub mod branch_chooser;
pub mod sidebar;
pub mod chooser;
pub mod repos;
pub mod home;
pub mod sidebar_layout;
pub mod control_view;
pub mod agent_panel;
pub mod worktree_source;

verus! {

} // verus!
