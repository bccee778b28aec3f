# herdr_core

The state and decision logic of herdr, a terminal cockpit for coding agents,
as a Verus-verified library.

`src/` holds the verified library:

- `pane_state`, `workspace`: panes, tabs (stacked rows) and workspaces, with
  public pane numbering, tab numbering, moving, closing and reattaching rows.
- `pr_inbox`, `review_pr`, `pr_status`, `stack_graph`, `pr_fetch`: the pull
  request inbox, the review picker's stacks, review-status classification of
  pull requests, the stack graph, and the parts of fetching from GitHub that
  compute (queries, chunking, decoding of the replies into plain values).
- `sidebar`, `sidebar_layout`, `agent_panel`: the grouped workspace list, its
  geometry and scrolling, and the agent panel's priority order.
- `chooser`, `branch_chooser`, `home`, `control_view`, `repos`,
  `worktree_source`: chooser overlays, home-surface keys and focus, what the
  home lists show, repository deduplication and worktree sources.
- `text`: character-level text helpers the rest is specified with.

`app/` is ordinary Rust around the library: running `gh` and `git`, reading
the file system, and decoding JSON with serde into the library's types.

`tests/` exercises the library with concrete values.
