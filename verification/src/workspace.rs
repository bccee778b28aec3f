//! Workspaces: named sets of tabs, each tab a stack of pane rows (the agent
//! row at the bottom, review and terminal rows above it), with stable public
//! pane numbers and the cached git state shown in the sidebar.
use vstd::prelude::*;
use crate::pane_state::{PaneId, PaneRole, PaneState, TerminalId};
use crate::review_pr::ReviewPr;
use crate::pr_fetch::trim_end_slashes;
use crate::text::{chars_of, slice_chars, str_eq, string_of};

verus! {

// ---------------------------------------------------------------------------
// Git metadata carried by a workspace
// ---------------------------------------------------------------------------

/// Derived git repository metadata of a checkout (paths as text).
#[derive(Debug, Clone, PartialEq, Eq)]
pub struct GitSpaceMetadata {
    /// Stable repository identity: the canonical git common dir.
    pub key: String,
    /// Human label (the repository directory name).
    pub label: String,
    pub repo_root: String,
    pub checkout_path: String,
    pub is_linked_worktree: bool,
}

/// Explicit worktree grouping provenance of a workspace.
#[derive(Debug, Clone, PartialEq, Eq)]
pub struct WorktreeSpaceMembership {
    pub key: String,
    pub label: String,
    pub repo_root: String,
    pub checkout_path: String,
    pub is_linked_worktree: bool,
}

/// The git status of one workspace, as the status refresh reports it.
#[derive(Debug, Clone, PartialEq, Eq)]
pub struct WorkspaceGitStatus {
    pub workspace_id: String,
    pub resolved_identity_cwd: String,
    pub branch: Option<String>,
    pub ahead_behind: Option<(usize, usize)>,
    pub space: Option<GitSpaceMetadata>,
}

/// The git status of a directory, before it is tied to a workspace.
#[derive(Debug, Clone, PartialEq, Eq)]
pub struct WorkspaceGitStatusSnapshot {
    pub branch: Option<String>,
    pub ahead_behind: Option<(usize, usize)>,
    pub space: Option<GitSpaceMetadata>,
}

impl WorkspaceGitStatusSnapshot {
    /// Tie the status to the workspace `workspace_id` whose identity directory
    /// it was taken in.
    pub fn into_workspace_status(self, workspace_id: String, resolved_identity_cwd: String) -> (s: WorkspaceGitStatus)
        ensures
            s.workspace_id == workspace_id,
            s.resolved_identity_cwd == resolved_identity_cwd,
            s.branch == self.branch,
            s.ahead_behind == self.ahead_behind,
            s.space == self.space,
    {
        WorkspaceGitStatus {
            workspace_id,
            resolved_identity_cwd,
            branch: self.branch,
            ahead_behind: self.ahead_behind,
            space: self.space,
        }
    }
}

// ---------------------------------------------------------------------------
// Decimal numbers
// ---------------------------------------------------------------------------

/// The decimal digit for `d` (below ten).
pub open spec fn digit_of(d: nat) -> char {
    if d == 0 { '0' }
    else if d == 1 { '1' }
    else if d == 2 { '2' }
    else if d == 3 { '3' }
    else if d == 4 { '4' }
    else if d == 5 { '5' }
    else if d == 6 { '6' }
    else if d == 7 { '7' }
    else if d == 8 { '8' }
    else { '9' }
}

/// `n` written in decimal, without leading zeros.
pub open spec fn decimal_of(n: nat) -> Seq<char>
    decreases n,
{
    if n < 10 {
        seq![digit_of(n)]
    } else {
        decimal_of(n / 10).push(digit_of(n % 10))
    }
}

fn digit_char(d: usize) -> (c: char)
    requires
        d < 10,
    ensures
        c == digit_of(d as nat),
{
    if d == 0 { '0' }
    else if d == 1 { '1' }
    else if d == 2 { '2' }
    else if d == 3 { '3' }
    else if d == 4 { '4' }
    else if d == 5 { '5' }
    else if d == 6 { '6' }
    else if d == 7 { '7' }
    else if d == 8 { '8' }
    else { '9' }
}

/// `n` in decimal.
pub fn decimal(n: usize) -> (s: String)
    ensures
        s@ == decimal_of(n as nat),
    decreases n,
{
    if n < 10 {
        let mut s = String::new();
        s.push(digit_char(n));
        proof {
            assert(s@ =~= seq![digit_of(n as nat)]);
        }
        s
    } else {
        let mut s = decimal(n / 10);
        s.push(digit_char(n % 10));
        s
    }
}

// ---------------------------------------------------------------------------
// Tabs
// ---------------------------------------------------------------------------

/// One tab: a stack of pane rows, top to bottom, each with its viewport state.
/// The root pane is the agent row; new rows are stacked above their target.
#[derive(Debug)]
pub struct Tab {
    /// User-provided name; the tab number is shown otherwise.
    pub custom_name: Option<String>,
    /// 1-based position of the tab in its workspace.
    pub number: usize,
    /// The agent pane.
    pub root_pane: PaneId,
    /// The rows, top to bottom.
    pub panes: Vec<(PaneId, PaneState)>,
    /// The pane with keyboard focus.
    pub focused: PaneId,
}

/// The pane ids of a tab's rows, top to bottom.
pub open spec fn row_ids(rows: Seq<(PaneId, PaneState)>) -> Seq<PaneId> {
    rows.map_values(|r: (PaneId, PaneState)| r.0)
}

/// The tab has a row for `id`.
pub open spec fn has_pane(t: Tab, id: PaneId) -> bool {
    row_ids(t.panes@).contains(id)
}

/// No id occurs twice.
pub open spec fn distinct_ids(ids: Seq<PaneId>) -> bool {
    forall|a: int, b: int| 0 <= a < ids.len() && 0 <= b < ids.len() && a != b ==> ids[a] != ids[b]
}

/// A well-formed tab: at least one row, each pane once, the root and the
/// focused pane among its rows.
pub open spec fn tab_ok(t: Tab) -> bool {
    &&& t.panes@.len() > 0
    &&& distinct_ids(row_ids(t.panes@))
    &&& has_pane(t, t.root_pane)
    &&& has_pane(t, t.focused)
}

/// The position of `id` among `rows`.
pub open spec fn row_of(rows: Seq<(PaneId, PaneState)>, id: PaneId) -> Option<int> {
    if row_ids(rows).contains(id) {
        Some(row_ids(rows).index_of(id))
    } else {
        None
    }
}

impl Tab {
    /// A tab numbered `number` with one agent row, `root_pane`, attached to
    /// `terminal`, and focused.
    pub fn new(number: usize, root_pane: PaneId, terminal: TerminalId) -> (t: Tab)
        ensures
            tab_ok(t),
            t.custom_name is None,
            t.number == number,
            t.root_pane == root_pane,
            t.focused == root_pane,
            t.panes@.len() == 1,
            t.panes@[0].0 == root_pane,
            t.panes@[0].1 == (PaneState { attached_terminal_id: terminal, seen: true, role: PaneRole::Agent }),
    {
        let mut panes: Vec<(PaneId, PaneState)> = Vec::new();
        panes.push((root_pane, PaneState::new(terminal)));
        proof {
            assert(row_ids(panes@)[0] == root_pane);
        }
        Tab { custom_name: None, number, root_pane, panes, focused: root_pane }
    }

    /// The tab's label: its custom name, else its number.
    pub fn display_name(&self) -> (s: String)
        ensures
            s@ == match self.custom_name {
                Some(n) => n@,
                None => decimal_of(self.number as nat),
            },
    {
        match &self.custom_name {
            Some(n) => n.clone(),
            None => decimal(self.number),
        }
    }

    /// The number of rows.
    pub fn pane_count(&self) -> (n: usize)
        ensures
            n == self.panes@.len(),
    {
        self.panes.len()
    }

    /// The pane ids, top to bottom.
    pub fn pane_ids(&self) -> (v: Vec<PaneId>)
        ensures
            v@ == row_ids(self.panes@),
    {
        let mut v: Vec<PaneId> = Vec::new();
        let mut i: usize = 0;
        while i < self.panes.len()
            invariant
                i <= self.panes@.len(),
                v@ == row_ids(self.panes@.subrange(0, i as int)),
            decreases self.panes.len() - i,
        {
            v.push(self.panes[i].0);
            proof {
                assert(row_ids(self.panes@.subrange(0, i + 1 as int)) =~= row_ids(self.panes@.subrange(0, i as int)).push(self.panes@[i as int].0));
            }
            i = i + 1;
        }
        proof {
            assert(self.panes@.subrange(0, self.panes@.len() as int) =~= self.panes@);
        }
        v
    }

    /// The row holding `id`.
    pub fn position(&self, id: PaneId) -> (r: Option<usize>)
        requires
            distinct_ids(row_ids(self.panes@)),
        ensures
            match r {
                Some(k) => row_of(self.panes@, id) == Some(k as int) && k < self.panes@.len(),
                None => row_of(self.panes@, id) is None,
            },
    {
        let ghost ids = row_ids(self.panes@);
        let mut i: usize = 0;
        while i < self.panes.len()
            invariant
                ids == row_ids(self.panes@),
                distinct_ids(ids),
                i <= self.panes@.len(),
                forall|q: int| 0 <= q < i ==> ids[q] != id,
            decreases self.panes.len() - i,
        {
            if self.panes[i].0 == id {
                proof {
                    assert(ids[i as int] == id);
                    assert(ids.contains(id));
                    let j = ids.index_of(id);
                    assert(0 <= j < ids.len() && ids[j] == id);
                    assert(j == i as int);
                }
                return Some(i);
            }
            i = i + 1;
        }
        proof {
            assert(!ids.contains(id));
        }
        None
    }

    /// The viewport state of pane `id`.
    pub fn pane(&self, id: PaneId) -> (r: Option<&PaneState>)
        requires
            distinct_ids(row_ids(self.panes@)),
        ensures
            match row_of(self.panes@, id) {
                Some(k) => r == Some(&self.panes@[k].1),
                None => r is None,
            },
    {
        match self.position(id) {
            Some(k) => Some(&self.panes[k].1),
            None => None,
        }
    }

    /// The terminal attached to pane `id`.
    pub fn terminal_id(&self, id: PaneId) -> (r: Option<&TerminalId>)
        requires
            distinct_ids(row_ids(self.panes@)),
        ensures
            match row_of(self.panes@, id) {
                Some(k) => r == Some(&self.panes@[k].1.attached_terminal_id),
                None => r is None,
            },
    {
        match self.position(id) {
            Some(k) => Some(&self.panes[k].1.attached_terminal_id),
            None => None,
        }
    }
}

proof fn lemma_ids_insert(rows: Seq<(PaneId, PaneState)>, k: int, r: (PaneId, PaneState))
    requires
        0 <= k <= rows.len(),
        distinct_ids(row_ids(rows)),
        !row_ids(rows).contains(r.0),
    ensures
        row_ids(rows.insert(k, r)) == row_ids(rows).insert(k, r.0),
        distinct_ids(row_ids(rows.insert(k, r))),
        forall|x: PaneId| row_ids(rows.insert(k, r)).contains(x) <==> (row_ids(rows).contains(x) || x == r.0),
{
    let ids = row_ids(rows);
    let ids2 = row_ids(rows.insert(k, r));
    assert(ids2 =~= ids.insert(k, r.0));
    assert forall|a: int, b: int| 0 <= a < ids2.len() && 0 <= b < ids2.len() && a != b implies ids2[a] != ids2[b] by {
        if a < k && b < k {
        } else if a < k && b == k {
            assert(ids.contains(ids[a]));
        } else if a == k && b < k {
            assert(ids.contains(ids[b]));
        } else if a == k && b > k {
            assert(ids2[b] == ids[b - 1]);
            assert(ids.contains(ids[b - 1]));
        } else if a > k && b == k {
            assert(ids2[a] == ids[a - 1]);
            assert(ids.contains(ids[a - 1]));
        } else if a < k && b > k {
            assert(ids2[b] == ids[b - 1]);
        } else if a > k && b < k {
            assert(ids2[a] == ids[a - 1]);
        } else {
            assert(ids2[a] == ids[a - 1]);
            assert(ids2[b] == ids[b - 1]);
        }
    }
    assert forall|x: PaneId| ids2.contains(x) <==> (ids.contains(x) || x == r.0) by {
        if ids2.contains(x) {
            let j = choose|j: int| 0 <= j < ids2.len() && ids2[j] == x;
            if j < k {
                assert(ids[j] == x);
            } else if j > k {
                assert(ids[j - 1] == x);
            }
        }
        if ids.contains(x) {
            let j = choose|j: int| 0 <= j < ids.len() && ids[j] == x;
            if j < k {
                assert(ids2[j] == x);
            } else {
                assert(ids2[j + 1] == x);
            }
        }
        if x == r.0 {
            assert(ids2[k] == x);
        }
    }
}

proof fn lemma_ids_remove(rows: Seq<(PaneId, PaneState)>, k: int)
    requires
        0 <= k < rows.len(),
        distinct_ids(row_ids(rows)),
    ensures
        row_ids(rows.remove(k)) == row_ids(rows).remove(k),
        distinct_ids(row_ids(rows.remove(k))),
        forall|x: PaneId| row_ids(rows.remove(k)).contains(x) <==> (row_ids(rows).contains(x) && x != rows[k].0),
{
    let ids = row_ids(rows);
    let ids2 = row_ids(rows.remove(k));
    assert(ids2 =~= ids.remove(k));
    assert forall|a: int, b: int| 0 <= a < ids2.len() && 0 <= b < ids2.len() && a != b implies ids2[a] != ids2[b] by {
        let a1 = if a < k { a } else { a + 1 };
        let b1 = if b < k { b } else { b + 1 };
        assert(ids2[a] == ids[a1]);
        assert(ids2[b] == ids[b1]);
    }
    assert forall|x: PaneId| ids2.contains(x) <==> (ids.contains(x) && x != rows[k].0) by {
        if ids2.contains(x) {
            let j = choose|j: int| 0 <= j < ids2.len() && ids2[j] == x;
            let j1 = if j < k { j } else { j + 1 };
            assert(ids[j1] == x);
            assert(ids[k] == rows[k].0);
        }
        if ids.contains(x) && x != rows[k].0 {
            let j = choose|j: int| 0 <= j < ids.len() && ids[j] == x;
            assert(j != k);
            if j < k {
                assert(ids2[j] == x);
            } else {
                assert(ids2[j - 1] == x);
            }
        }
    }
}

impl Tab {
    /// Stack a new row for `new_pane`, attached to `terminal_id` and playing
    /// `role`, directly above `target`, and focus it.
    pub fn split_attach_above(&mut self, target: PaneId, terminal_id: TerminalId, role: PaneRole, new_pane: PaneId) -> (id: PaneId)
        requires
            tab_ok(*old(self)),
            has_pane(*old(self), target),
            !has_pane(*old(self), new_pane),
        ensures
            id == new_pane,
            tab_ok(*final(self)),
            row_of(old(self).panes@, target) matches Some(k) && final(self).panes@ == old(self).panes@.insert(
                k,
                (new_pane, PaneState { attached_terminal_id: terminal_id, seen: true, role }),
            ),
            final(self).focused == new_pane,
            final(self).root_pane == old(self).root_pane,
            final(self).number == old(self).number,
            final(self).custom_name == old(self).custom_name,
    {
        let k = match self.position(target) {
            Some(k) => k,
            None => {
                proof {
                    assert(row_ids(self.panes@).contains(target));
                }
                return new_pane;
            },
        };
        let row = (new_pane, PaneState { attached_terminal_id: terminal_id, seen: true, role });
        proof {
            lemma_ids_insert(self.panes@, k as int, row);
        }
        self.panes.insert(k, row);
        self.focused = new_pane;
        new_pane
    }

    /// Take away the row of pane `id`, when the tab has another row; return the
    /// pane and its terminal. The root role passes to the bottom row when the
    /// root row goes, and focus moves to the root when the focused row goes.
    pub fn remove_row(&mut self, id: PaneId) -> (r: Option<(PaneId, TerminalId)>)
        requires
            tab_ok(*old(self)),
        ensures
            tab_ok(*final(self)),
            final(self).number == old(self).number,
            final(self).custom_name == old(self).custom_name,
            match r {
                Some((p, t)) => {
                    &&& p == id
                    &&& old(self).panes@.len() > 1
                    &&& row_of(old(self).panes@, id) matches Some(k)
                    &&& t == old(self).panes@[k].1.attached_terminal_id
                    &&& final(self).panes@ == old(self).panes@.remove(k)
                    &&& final(self).root_pane == if old(self).root_pane == id {
                        final(self).panes@.last().0
                    } else {
                        old(self).root_pane
                    }
                    &&& final(self).focused == if old(self).focused == id {
                        final(self).root_pane
                    } else {
                        old(self).focused
                    }
                },
                None => {
                    &&& (old(self).panes@.len() <= 1 || !has_pane(*old(self), id))
                    &&& *final(self) == *old(self)
                },
            },
    {
        if self.panes.len() <= 1 {
            return None;
        }
        let k = match self.position(id) {
            Some(k) => k,
            None => return None,
        };
        proof {
            lemma_ids_remove(self.panes@, k as int);
        }
        let ghost before = self.panes@;
        let removed = self.panes.remove(k);
        if self.root_pane == id {
            let last = self.panes.len() - 1;
            self.root_pane = self.panes[last].0;
            proof {
                assert(row_ids(self.panes@)[last as int] == self.root_pane);
            }
        } else {
            proof {
                assert(row_ids(before).contains(self.root_pane));
            }
        }
        if self.focused == id {
            self.focused = self.root_pane;
        } else {
            proof {
                assert(row_ids(before).contains(self.focused));
            }
        }
        Some((removed.0, removed.1.attached_terminal_id))
    }

    /// Mark every row as seen.
    pub fn mark_seen(&mut self)
        requires
            tab_ok(*old(self)),
        ensures
            tab_ok(*final(self)),
            row_ids(final(self).panes@) == row_ids(old(self).panes@),
            final(self).panes@.len() == old(self).panes@.len(),
            forall|k: int|
                0 <= k < final(self).panes@.len() ==> (#[trigger] final(self).panes@[k]).1 == (PaneState {
                    seen: true,
                    ..old(self).panes@[k].1
                }),
            final(self).root_pane == old(self).root_pane,
            final(self).focused == old(self).focused,
            final(self).number == old(self).number,
            final(self).custom_name == old(self).custom_name,
    {
        let ghost start = self.panes@;
        let mut k: usize = 0;
        while k < self.panes.len()
            invariant
                start == old(self).panes@,
                tab_ok(*old(self)),
                self.root_pane == old(self).root_pane,
                self.focused == old(self).focused,
                self.number == old(self).number,
                self.custom_name == old(self).custom_name,
                start.len() == self.panes@.len(),
                k <= self.panes@.len(),
                row_ids(self.panes@) == row_ids(start),
                forall|q: int|
                    0 <= q < self.panes@.len() ==> (#[trigger] self.panes@[q]).1 == if q < k {
                        PaneState { seen: true, ..start[q].1 }
                    } else {
                        start[q].1
                    },
            decreases self.panes.len() - k,
        {
            let (id, st) = self.panes[k];
            self.panes.set(k, (id, PaneState { seen: true, ..st }));
            proof {
                assert(row_ids(self.panes@) =~= row_ids(start));
            }
            k = k + 1;
        }
    }
}

// ---------------------------------------------------------------------------
// Workspaces
// ---------------------------------------------------------------------------

/// A named workspace containing tabs.
#[derive(Debug)]
pub struct Workspace {
    /// Stable public workspace identity, independent of display order.
    pub id: String,
    /// User-provided override. If set, auto-derived identity stops updating.
    pub custom_name: Option<String>,
    /// Fallback workspace identity directory.
    pub identity_cwd: String,
    /// Cached current git branch for the workspace repo.
    pub cached_git_branch: Option<String>,
    /// Cached ahead/behind counts for the current branch's upstream.
    pub cached_git_ahead_behind: Option<(usize, usize)>,
    /// Cached derived git repo metadata.
    pub cached_git_space: Option<GitSpaceMetadata>,
    /// Explicit worktree grouping provenance.
    pub worktree_space: Option<WorktreeSpaceMembership>,
    /// The PR opened for review in this workspace; only honoured while the
    /// checked-out branch still matches the PR head.
    pub reviewing_pr: Option<ReviewPr>,
    /// Stable-ish public pane numbers within this workspace. New panes append
    /// at the end; closing a pane compacts higher numbers down.
    pub public_pane_numbers: Vec<(PaneId, usize)>,
    pub next_public_pane_number: usize,
    pub tabs: Vec<Tab>,
    pub active_tab: usize,
    /// The kept-alive review-row terminal while that row is detached.
    pub detached_review: Option<TerminalId>,
    /// The kept-alive terminal-row terminal while that row is detached.
    pub detached_terminal: Option<TerminalId>,
}

/// Some tab of `tabs` has a row for `id`.
pub open spec fn in_some_tab(tabs: Seq<Tab>, id: PaneId) -> bool {
    exists|i: int| 0 <= i < tabs.len() && has_pane(#[trigger] tabs[i], id)
}

/// No pane is in two tabs.
pub open spec fn tabs_disjoint(tabs: Seq<Tab>) -> bool {
    forall|i: int, j: int, id: PaneId|
        0 <= i < tabs.len() && 0 <= j < tabs.len() && i != j && #[trigger] has_pane(tabs[i], id) ==> !#[trigger] has_pane(
            tabs[j],
            id,
        )
}

/// Pane `id` has a public number.
pub open spec fn is_numbered(nums: Seq<(PaneId, usize)>, id: PaneId) -> bool {
    exists|k: int| 0 <= k < nums.len() && (#[trigger] nums[k]).0 == id
}

/// Every tab is well formed and numbered by its position.
pub open spec fn tabs_wf(tabs: Seq<Tab>) -> bool {
    forall|i: int| 0 <= i < tabs.len() ==> tab_ok(#[trigger] tabs[i]) && tabs[i].number == i + 1
}

/// Exactly the panes of the tabs have public numbers.
pub open spec fn numbered_iff(nums: Seq<(PaneId, usize)>, tabs: Seq<Tab>) -> bool {
    forall|id: PaneId| #[trigger] is_numbered(nums, id) <==> in_some_tab(tabs, id)
}

/// Each pane has one number, and the numbers are distinct and run from 1 to
/// the number of panes.
pub open spec fn numbering_ok(nums: Seq<(PaneId, usize)>) -> bool {
    &&& forall|a: int, b: int| 0 <= a < nums.len() && 0 <= b < nums.len() && a != b ==> (#[trigger] nums[a]).0 != (#[trigger] nums[b]).0
    &&& forall|a: int| 0 <= a < nums.len() ==> 1 <= (#[trigger] nums[a]).1 <= nums.len()
    &&& forall|a: int, b: int| 0 <= a < nums.len() && 0 <= b < nums.len() && a != b ==> (#[trigger] nums[a]).1 != (#[trigger] nums[b]).1
}

impl Workspace {
    /// The workspace is well formed: at least one tab, the active one among
    /// them, tabs numbered by position, each pane in one tab, and every pane
    /// (and nothing else) numbered 1, 2, ... with the next number after them.
    pub open spec fn wf(&self) -> bool {
        &&& self.tabs@.len() > 0
        &&& self.active_tab < self.tabs@.len()
        &&& tabs_wf(self.tabs@)
        &&& tabs_disjoint(self.tabs@)
        &&& numbering_ok(self.public_pane_numbers@)
        &&& numbered_iff(self.public_pane_numbers@, self.tabs@)
        &&& self.next_public_pane_number == self.public_pane_numbers@.len() + 1
    }

    /// A workspace `id` opened in `initial_cwd` with one tab holding one
    /// agent pane, `root_pane`, numbered 1.
    pub fn new_with_tab(
        id: String,
        initial_cwd: String,
        root_pane: PaneId,
        terminal: TerminalId,
        git_branch: Option<String>,
    ) -> (ws: Workspace)
        ensures
            ws.wf(),
            ws.id == id,
            ws.custom_name is None,
            ws.identity_cwd == initial_cwd,
            ws.cached_git_branch == git_branch,
            ws.tabs@.len() == 1,
            ws.tabs@[0].root_pane == root_pane,
            ws.tabs@[0].panes@.len() == 1,
            ws.active_tab == 0,
            ws.public_pane_numbers@ == seq![(root_pane, 1usize)],
    {
        let tab = Tab::new(1, root_pane, terminal);
        let mut nums: Vec<(PaneId, usize)> = Vec::new();
        nums.push((root_pane, 1));
        let mut tabs: Vec<Tab> = Vec::new();
        tabs.push(tab);
        let ws = Workspace {
            id,
            custom_name: None,
            identity_cwd: initial_cwd,
            cached_git_branch: git_branch,
            cached_git_ahead_behind: None,
            cached_git_space: None,
            worktree_space: None,
            reviewing_pr: None,
            public_pane_numbers: nums,
            next_public_pane_number: 2,
            tabs,
            active_tab: 0,
            detached_review: None,
            detached_terminal: None,
        };
        proof {
            assert(ws.public_pane_numbers@ =~= seq![(root_pane, 1usize)]);
            assert forall|id: PaneId| #[trigger] is_numbered(ws.public_pane_numbers@, id) <==> in_some_tab(ws.tabs@, id) by {
                if is_numbered(ws.public_pane_numbers@, id) {
                    assert(row_ids(ws.tabs@[0].panes@)[0] == root_pane);
                    assert(has_pane(ws.tabs@[0], id));
                }
                if in_some_tab(ws.tabs@, id) {
                    let i = choose|i: int| 0 <= i < ws.tabs@.len() && has_pane(#[trigger] ws.tabs@[i], id);
                    assert(i == 0);
                    let k = choose|k: int| 0 <= k < row_ids(ws.tabs@[0].panes@).len() && row_ids(ws.tabs@[0].panes@)[k] == id;
                    assert(k == 0);
                    assert(ws.public_pane_numbers@[0].0 == id);
                }
            }
        }
        ws
    }

    /// The active tab.
    pub fn active_tab(&self) -> (t: Option<&Tab>)
        ensures
            t == if self.active_tab < self.tabs@.len() {
                Some(&self.tabs@[self.active_tab as int])
            } else {
                None
            },
    {
        if self.active_tab < self.tabs.len() {
            Some(&self.tabs[self.active_tab])
        } else {
            None
        }
    }

    /// The index of the active tab.
    pub fn active_tab_index(&self) -> (i: usize)
        ensures
            i == self.active_tab,
    {
        self.active_tab
    }

    /// The active tab's label.
    pub fn active_tab_display_name(&self) -> (n: Option<String>)
        ensures
            match n {
                Some(s) => self.active_tab < self.tabs@.len() && s@ == match self.tabs@[self.active_tab as int].custom_name {
                    Some(c) => c@,
                    None => decimal_of(self.tabs@[self.active_tab as int].number as nat),
                },
                None => self.active_tab >= self.tabs@.len(),
            },
    {
        match self.active_tab() {
            Some(t) => Some(t.display_name()),
            None => None,
        }
    }

    /// The public number of pane `pane_id`.
    pub fn public_pane_number(&self, pane_id: PaneId) -> (r: Option<usize>)
        requires
            numbering_ok(self.public_pane_numbers@),
        ensures
            match r {
                Some(n) => exists|k: int|
                    0 <= k < self.public_pane_numbers@.len() && #[trigger] self.public_pane_numbers@[k] == (pane_id, n),
                None => !is_numbered(self.public_pane_numbers@, pane_id),
            },
    {
        let mut k: usize = 0;
        while k < self.public_pane_numbers.len()
            invariant
                k <= self.public_pane_numbers@.len(),
                forall|q: int| 0 <= q < k ==> (#[trigger] self.public_pane_numbers@[q]).0 != pane_id,
            decreases self.public_pane_numbers.len() - k,
        {
            if self.public_pane_numbers[k].0 == pane_id {
                proof {
                    assert(self.public_pane_numbers@[k as int] == (pane_id, self.public_pane_numbers@[k as int].1));
                }
                return Some(self.public_pane_numbers[k].1);
            }
            k = k + 1;
        }
        None
    }

    /// Rename the workspace.
    pub fn set_custom_name(&mut self, name: String)
        ensures
            final(self).custom_name == Some(name),
            final(self).tabs == old(self).tabs,
            final(self).id == old(self).id,
            final(self).identity_cwd == old(self).identity_cwd,
            final(self).public_pane_numbers == old(self).public_pane_numbers,
            final(self).next_public_pane_number == old(self).next_public_pane_number,
            final(self).active_tab == old(self).active_tab,
            final(self).cached_git_branch == old(self).cached_git_branch,
    {
        self.custom_name = Some(name);
    }

    /// The directory the workspace's identity derives from.
    pub fn resolved_identity_cwd(&self) -> (r: Option<String>)
        ensures
            r == Some(self.identity_cwd),
    {
        Some(self.identity_cwd.clone())
    }

    /// The cached branch.
    pub fn branch(&self) -> (r: Option<String>)
        ensures
            r == self.cached_git_branch,
    {
        self.cached_git_branch.clone()
    }

    /// The PR under review in this workspace, while the checked-out branch
    /// still matches the PR's head. Switching to another branch makes the
    /// stored PR dormant (and active again if the head is checked back out).
    pub fn reviewing_pr_active(&self) -> (r: Option<&ReviewPr>)
        ensures
            r == match self.reviewing_pr {
                Some(pr) => if self.cached_git_branch matches Some(b) && b@ == pr.head_branch@ {
                    Some(&pr)
                } else {
                    None
                },
                None => None,
            },
    {
        match &self.reviewing_pr {
            Some(pr) => match &self.cached_git_branch {
                Some(b) => if str_eq(b.as_str(), pr.head_branch.as_str()) {
                    Some(pr)
                } else {
                    None
                },
                None => None,
            },
            None => None,
        }
    }

    /// The cached ahead/behind counts.
    pub fn git_ahead_behind(&self) -> (r: Option<(usize, usize)>)
        ensures
            r == self.cached_git_ahead_behind,
    {
        self.cached_git_ahead_behind
    }

    /// The cached git repository metadata.
    pub fn git_space(&self) -> (r: Option<&GitSpaceMetadata>)
        ensures
            r == match self.cached_git_space {
                Some(s) => Some(&s),
                None => None,
            },
    {
        self.cached_git_space.as_ref()
    }

    /// The worktree grouping membership.
    pub fn worktree_space(&self) -> (r: Option<&WorktreeSpaceMembership>)
        ensures
            r == match self.worktree_space {
                Some(s) => Some(&s),
                None => None,
            },
    {
        self.worktree_space.as_ref()
    }
}

// ---------------------------------------------------------------------------
// Public pane numbers
// ---------------------------------------------------------------------------

/// The numbers after the pane numbered `m` left: every higher number moves
/// down by one.
pub open spec fn compacted(nums: Seq<(PaneId, usize)>, m: usize) -> Seq<(PaneId, usize)> {
    nums.map_values(|e: (PaneId, usize)| if e.1 > m { (e.0, (e.1 - 1) as usize) } else { e })
}

/// Removing one pane's number and moving every higher number down by one
/// keeps the numbering running from 1 to the number of panes, each number
/// once, and keeps the order of the remaining panes' numbers.
pub proof fn lemma_compaction_keeps_numbering(nums: Seq<(PaneId, usize)>, k: int)
    requires
        numbering_ok(nums),
        0 <= k < nums.len(),
    ensures
        numbering_ok(compacted(nums.remove(k), nums[k].1)),
        compacted(nums.remove(k), nums[k].1).len() == nums.len() - 1,
        forall|a: int, b: int|
            0 <= a < nums.len() - 1 && 0 <= b < nums.len() - 1 ==> ((#[trigger] compacted(nums.remove(k), nums[k].1)[a]).1
                < (#[trigger] compacted(nums.remove(k), nums[k].1)[b]).1 <==> nums.remove(k)[a].1 < nums.remove(k)[b].1),
{
    let m = nums[k].1;
    let r = nums.remove(k);
    let c = compacted(r, m);
    assert forall|a: int| 0 <= a < r.len() implies #[trigger] r[a] == nums[if a < k { a } else { a + 1 }] by {}
    assert forall|a: int, b: int| 0 <= a < c.len() && 0 <= b < c.len() && a != b implies (#[trigger] c[a]).0 != (#[trigger] c[b]).0 by {
        let a1 = if a < k { a } else { a + 1 };
        let b1 = if b < k { b } else { b + 1 };
        assert(r[a] == nums[a1] && r[b] == nums[b1]);
        assert(nums[a1].0 != nums[b1].0);
    }
    assert forall|a: int| 0 <= a < c.len() implies 1 <= (#[trigger] c[a]).1 <= c.len() by {
        let a1 = if a < k { a } else { a + 1 };
        assert(r[a] == nums[a1]);
        assert(nums[a1].1 != m);
    }
    assert forall|a: int, b: int| 0 <= a < c.len() && 0 <= b < c.len() && a != b implies (#[trigger] c[a]).1 != (#[trigger] c[b]).1 by {
        let a1 = if a < k { a } else { a + 1 };
        let b1 = if b < k { b } else { b + 1 };
        assert(r[a] == nums[a1] && r[b] == nums[b1]);
        assert(nums[a1].1 != nums[b1].1);
        assert(nums[a1].1 != m && nums[b1].1 != m);
    }
}

/// `a` and `b` agree on everything but the public pane numbers.
pub open spec fn same_but_numbers(a: Workspace, b: Workspace) -> bool {
    &&& a.id == b.id
    &&& a.custom_name == b.custom_name
    &&& a.identity_cwd == b.identity_cwd
    &&& a.cached_git_branch == b.cached_git_branch
    &&& a.cached_git_ahead_behind == b.cached_git_ahead_behind
    &&& a.cached_git_space == b.cached_git_space
    &&& a.worktree_space == b.worktree_space
    &&& a.reviewing_pr == b.reviewing_pr
    &&& a.tabs == b.tabs
    &&& a.active_tab == b.active_tab
    &&& a.detached_review == b.detached_review
    &&& a.detached_terminal == b.detached_terminal
}

/// Numbering a new pane and then dropping its number undoes it: the new
/// pane gets the next number, which no other pane has, so dropping it moves
/// no other pane's number and leaves the numbering as it was.
pub proof fn lemma_new_pane_number_undone(nums: Seq<(PaneId, usize)>, id: PaneId)
    requires
        numbering_ok(nums),
        nums.len() + 1 <= usize::MAX,
    ensures
        ({
            let next = (nums.len() + 1) as usize;
            let with_new = nums.push((id, next));
            &&& with_new[nums.len() as int].0 == id
            &&& compacted(with_new.remove(nums.len() as int), with_new[nums.len() as int].1) == nums
        }),
{
    let next = (nums.len() + 1) as usize;
    let with_new = nums.push((id, next));
    assert(with_new.remove(nums.len() as int) =~= nums);
    assert(compacted(nums, next) =~= nums);
}

impl Workspace {
    /// Give the new pane `pane_id` the next public number.
    fn register_new_pane(&mut self, pane_id: PaneId)
        requires
            numbering_ok(old(self).public_pane_numbers@),
            old(self).next_public_pane_number == old(self).public_pane_numbers@.len() + 1,
            old(self).public_pane_numbers@.len() + 2 <= usize::MAX,
            !is_numbered(old(self).public_pane_numbers@, pane_id),
        ensures
            final(self).public_pane_numbers@ == old(self).public_pane_numbers@.push(
                (pane_id, old(self).next_public_pane_number),
            ),
            final(self).next_public_pane_number == old(self).next_public_pane_number + 1,
            numbering_ok(final(self).public_pane_numbers@),
            forall|x: PaneId| #[trigger] is_numbered(final(self).public_pane_numbers@, x) <==> (is_numbered(old(self).public_pane_numbers@, x) || x == pane_id),
            same_but_numbers(*final(self), *old(self)),
    {
        let ghost old_nums = self.public_pane_numbers@;
        self.public_pane_numbers.push((pane_id, self.next_public_pane_number));
        self.next_public_pane_number = self.next_public_pane_number + 1;
        proof {
            let nums = self.public_pane_numbers@;
            assert forall|a: int| 0 <= a < old_nums.len() implies #[trigger] nums[a] == old_nums[a] by {}
            assert forall|a: int, b: int| 0 <= a < nums.len() && 0 <= b < nums.len() && a != b implies (#[trigger] nums[a]).0 != (#[trigger] nums[b]).0 by {
                if a == old_nums.len() {
                    assert(!is_numbered(old_nums, pane_id));
                    assert(old_nums[b].0 != pane_id);
                } else if b == old_nums.len() {
                    assert(old_nums[a].0 != pane_id);
                }
            }
            assert forall|x: PaneId| #[trigger] is_numbered(nums, x) <==> (is_numbered(old_nums, x) || x == pane_id) by {
                if is_numbered(nums, x) {
                    let k = choose|k: int| 0 <= k < nums.len() && (#[trigger] nums[k]).0 == x;
                    if k < old_nums.len() {
                        assert(old_nums[k].0 == x);
                    }
                }
                if is_numbered(old_nums, x) {
                    let k = choose|k: int| 0 <= k < old_nums.len() && (#[trigger] old_nums[k]).0 == x;
                    assert(nums[k].0 == x);
                }
                if x == pane_id {
                    assert(nums[old_nums.len() as int].0 == x);
                }
            }
        }
    }

    /// Drop the public number of pane `pane_id`, moving every higher number
    /// down by one.
    fn unregister_pane(&mut self, pane_id: PaneId)
        requires
            numbering_ok(old(self).public_pane_numbers@),
        ensures
            numbering_ok(final(self).public_pane_numbers@),
            forall|x: PaneId| #[trigger] is_numbered(final(self).public_pane_numbers@, x) <==> (is_numbered(old(self).public_pane_numbers@, x) && x != pane_id),
            is_numbered(old(self).public_pane_numbers@, pane_id) ==> {
                &&& exists|k: int|
                    0 <= k < old(self).public_pane_numbers@.len() && (#[trigger] old(self).public_pane_numbers@[k]).0 == pane_id
                        && final(self).public_pane_numbers@ == compacted(
                        old(self).public_pane_numbers@.remove(k),
                        old(self).public_pane_numbers@[k].1,
                    )
                &&& final(self).next_public_pane_number == final(self).public_pane_numbers@.len() + 1
            },
            !is_numbered(old(self).public_pane_numbers@, pane_id) ==> final(self).public_pane_numbers == old(self).public_pane_numbers
                && final(self).next_public_pane_number == old(self).next_public_pane_number,
            same_but_numbers(*final(self), *old(self)),
    {
        let ghost nums0 = self.public_pane_numbers@;
        let mut k: usize = 0;
        while k < self.public_pane_numbers.len()
            invariant
                nums0 == self.public_pane_numbers@,
                k <= nums0.len(),
                forall|q: int| 0 <= q < k ==> (#[trigger] nums0[q]).0 != pane_id,
            ensures
                nums0 == self.public_pane_numbers@,
                k <= nums0.len(),
                forall|q: int| 0 <= q < k ==> (#[trigger] nums0[q]).0 != pane_id,
                k < nums0.len() ==> nums0[k as int].0 == pane_id,
            decreases self.public_pane_numbers.len() - k,
        {
            if self.public_pane_numbers[k].0 == pane_id {
                break;
            }
            k = k + 1;
        }
        if k >= self.public_pane_numbers.len() {
            proof {
                assert(!is_numbered(nums0, pane_id));
                assert forall|x: PaneId| #[trigger] is_numbered(self.public_pane_numbers@, x) <==> (is_numbered(nums0, x) && x != pane_id) by {
                    if is_numbered(nums0, x) && x == pane_id {
                    }
                }
            }
            return;
        }
        let removed = self.public_pane_numbers.remove(k);
        let m = removed.1;
        proof {
            lemma_compaction_keeps_numbering(nums0, k as int);
        }
        let ghost r = nums0.remove(k as int);
        let mut j: usize = 0;
        while j < self.public_pane_numbers.len()
            invariant
                r == nums0.remove(k as int),
                same_but_numbers(*self, *old(self)),
                self.public_pane_numbers@.len() == r.len(),
                j <= r.len(),
                forall|q: int|
                    0 <= q < r.len() ==> #[trigger] self.public_pane_numbers@[q] == if q < j {
                        compacted(r, m)[q]
                    } else {
                        r[q]
                    },
            decreases self.public_pane_numbers.len() - j,
        {
            let (id, n) = self.public_pane_numbers[j];
            if n > m {
                self.public_pane_numbers.set(j, (id, n - 1));
            }
            j = j + 1;
        }
        proof {
            assert(self.public_pane_numbers@ =~= compacted(r, m));
        }
        self.next_public_pane_number = self.public_pane_numbers.len() + 1;
        proof {
            let c = self.public_pane_numbers@;
            assert forall|a: int| 0 <= a < r.len() implies #[trigger] r[a] == nums0[if a < k { a } else { a + 1 }] by {}
            assert forall|x: PaneId| #[trigger] is_numbered(c, x) <==> (is_numbered(nums0, x) && x != pane_id) by {
                if is_numbered(c, x) {
                    let q = choose|q: int| 0 <= q < c.len() && (#[trigger] c[q]).0 == x;
                    let q1 = if q < k { q } else { q + 1 };
                    assert(c[q].0 == r[q].0);
                    assert(nums0[q1].0 == x);
                    assert(q1 != k);
                }
                if is_numbered(nums0, x) && x != pane_id {
                    let q = choose|q: int| 0 <= q < nums0.len() && (#[trigger] nums0[q]).0 == x;
                    assert(q != k);
                    let q0 = if q < k { q } else { q - 1 };
                    assert(r[q0] == nums0[q]);
                    assert(c[q0].0 == x);
                }
            }
            assert(nums0[k as int].0 == pane_id);
        }
    }
}

// ---------------------------------------------------------------------------
// Finding panes
// ---------------------------------------------------------------------------

/// The first of `tabs[from..]` with a row for `id`.
pub open spec fn first_tab(tabs: Seq<Tab>, id: PaneId, from: int) -> Option<int>
    decreases tabs.len() - from,
{
    if from < 0 || from >= tabs.len() {
        None
    } else if has_pane(tabs[from], id) {
        Some(from)
    } else {
        first_tab(tabs, id, from + 1)
    }
}

/// The first of `rows[from..]` playing `role`.
pub open spec fn first_role(rows: Seq<(PaneId, PaneState)>, role: PaneRole, from: int) -> Option<int>
    decreases rows.len() - from,
{
    if from < 0 || from >= rows.len() {
        None
    } else if rows[from].1.role == role {
        Some(from)
    } else {
        first_role(rows, role, from + 1)
    }
}

/// The first of `rows[from..]` attached to terminal `tid`.
pub open spec fn first_attached(rows: Seq<(PaneId, PaneState)>, tid: TerminalId, from: int) -> Option<int>
    decreases rows.len() - from,
{
    if from < 0 || from >= rows.len() {
        None
    } else if rows[from].1.attached_terminal_id == tid {
        Some(from)
    } else {
        first_attached(rows, tid, from + 1)
    }
}

/// The pane attached to terminal `tid` in the first of `tabs[from..]` that has one.
pub open spec fn pane_attached(tabs: Seq<Tab>, tid: TerminalId, from: int) -> Option<PaneId>
    decreases tabs.len() - from,
{
    if from < 0 || from >= tabs.len() {
        None
    } else {
        match first_attached(tabs[from].panes@, tid, 0) {
            Some(k) => Some(tabs[from].panes@[k].0),
            None => pane_attached(tabs, tid, from + 1),
        }
    }
}

proof fn lemma_first_tab_none(tabs: Seq<Tab>, id: PaneId, from: int)
    requires
        0 <= from <= tabs.len(),
        forall|i: int| from <= i < tabs.len() ==> !has_pane(#[trigger] tabs[i], id),
    ensures
        first_tab(tabs, id, from) is None,
    decreases tabs.len() - from,
{
    if from < tabs.len() {
        lemma_first_tab_none(tabs, id, from + 1);
    }
}

proof fn lemma_first_tab_some(tabs: Seq<Tab>, id: PaneId, from: int, i: int)
    requires
        0 <= from <= i < tabs.len(),
        has_pane(tabs[i], id),
        forall|j: int| from <= j < i ==> !has_pane(#[trigger] tabs[j], id),
    ensures
        first_tab(tabs, id, from) == Some(i),
    decreases i - from,
{
    if from < i {
        lemma_first_tab_some(tabs, id, from + 1, i);
    }
}

/// Whether the tab has a row for `id`.
fn tab_has(t: &Tab, id: PaneId) -> (r: bool)
    ensures
        r == has_pane(*t, id),
{
    let ghost ids = row_ids(t.panes@);
    let mut k: usize = 0;
    while k < t.panes.len()
        invariant
            ids == row_ids(t.panes@),
            k <= t.panes@.len(),
            forall|q: int| 0 <= q < k ==> ids[q] != id,
        decreases t.panes.len() - k,
    {
        if t.panes[k].0 == id {
            proof {
                assert(ids[k as int] == id);
            }
            return true;
        }
        k = k + 1;
    }
    false
}

impl Workspace {
    /// The index of the (first) tab holding pane `pane_id`.
    pub fn find_tab_index_for_pane(&self, pane_id: PaneId) -> (r: Option<usize>)
        ensures
            opt_index(r) == first_tab(self.tabs@, pane_id, 0),
            match r {
                Some(i) => i < self.tabs@.len() && has_pane(self.tabs@[i as int], pane_id),
                None => !in_some_tab(self.tabs@, pane_id),
            },
    {
        let mut i: usize = 0;
        while i < self.tabs.len()
            invariant
                i <= self.tabs@.len(),
                forall|j: int| 0 <= j < i ==> !has_pane(#[trigger] self.tabs@[j], pane_id),
            decreases self.tabs.len() - i,
        {
            if tab_has(&self.tabs[i], pane_id) {
                proof {
                    lemma_first_tab_some(self.tabs@, pane_id, 0, i as int);
                }
                return Some(i);
            }
            i = i + 1;
        }
        proof {
            lemma_first_tab_none(self.tabs@, pane_id, 0);
        }
        None
    }

    /// The viewport state of pane `pane_id`.
    pub fn pane_state(&self, pane_id: PaneId) -> (r: Option<&PaneState>)
        requires
            self.wf(),
        ensures
            match first_tab(self.tabs@, pane_id, 0) {
                Some(i) => row_of(self.tabs@[i].panes@, pane_id) matches Some(k) && r == Some(&self.tabs@[i].panes@[k].1),
                None => r is None,
            },
    {
        match self.find_tab_index_for_pane(pane_id) {
            Some(i) => {
                proof {
                    assert(tab_ok(self.tabs@[i as int]));
                }
                self.tabs[i].pane(pane_id)
            },
            None => None,
        }
    }

    /// The terminal attached to pane `pane_id`.
    pub fn terminal_id(&self, pane_id: PaneId) -> (r: Option<&TerminalId>)
        requires
            self.wf(),
        ensures
            match first_tab(self.tabs@, pane_id, 0) {
                Some(i) => row_of(self.tabs@[i].panes@, pane_id) matches Some(k) && r == Some(
                    &self.tabs@[i].panes@[k].1.attached_terminal_id,
                ),
                None => r is None,
            },
    {
        match self.find_tab_index_for_pane(pane_id) {
            Some(i) => {
                proof {
                    assert(tab_ok(self.tabs@[i as int]));
                }
                self.tabs[i].terminal_id(pane_id)
            },
            None => None,
        }
    }

    /// The focused pane of the active tab.
    pub fn focused_pane_id(&self) -> (r: Option<PaneId>)
        ensures
            r == if self.active_tab < self.tabs@.len() {
                Some(self.tabs@[self.active_tab as int].focused)
            } else {
                None
            },
    {
        match self.active_tab() {
            Some(t) => Some(t.focused),
            None => None,
        }
    }

    /// The agent (root) pane of the active tab, always its bottom row.
    pub fn agent_pane(&self) -> (r: Option<PaneId>)
        ensures
            r == if self.active_tab < self.tabs@.len() {
                Some(self.tabs@[self.active_tab as int].root_pane)
            } else {
                None
            },
    {
        match self.active_tab() {
            Some(t) => Some(t.root_pane),
            None => None,
        }
    }

    /// The pane in the active tab currently carrying `role` (the topmost one).
    pub fn pane_with_role(&self, role: PaneRole) -> (r: Option<PaneId>)
        ensures
            r == if self.active_tab < self.tabs@.len() {
                match first_role(self.tabs@[self.active_tab as int].panes@, role, 0) {
                    Some(k) => Some(self.tabs@[self.active_tab as int].panes@[k].0),
                    None => None,
                }
            } else {
                None
            },
    {
        let t = match self.active_tab() {
            Some(t) => t,
            None => return None,
        };
        let n = t.panes.len();
        let mut k: usize = n;
        // Scan bottom-up so the topmost match is the one kept.
        let mut found: Option<PaneId> = None;
        while k > 0
            invariant
                n == t.panes@.len(),
                k <= n,
                found == match first_role(t.panes@, role, k as int) {
                    Some(j) => Some(t.panes@[j].0),
                    None => None,
                },
            decreases k,
        {
            k = k - 1;
            if t.panes[k].1.role == role {
                found = Some(t.panes[k].0);
            }
        }
        found
    }

    /// The pane (in any tab) attached to terminal `tid`.
    pub fn pane_for_terminal(&self, tid: &TerminalId) -> (r: Option<PaneId>)
        ensures
            r == pane_attached(self.tabs@, *tid, 0),
    {
        let n = self.tabs.len();
        let mut i: usize = n;
        let mut found: Option<PaneId> = None;
        while i > 0
            invariant
                n == self.tabs@.len(),
                i <= n,
                found == pane_attached(self.tabs@, *tid, i as int),
            decreases i,
        {
            i = i - 1;
            let t = &self.tabs[i];
            let m = t.panes.len();
            let mut k: usize = m;
            let mut in_tab: Option<PaneId> = None;
            while k > 0
                invariant
                    m == t.panes@.len(),
                    k <= m,
                    in_tab == match first_attached(t.panes@, *tid, k as int) {
                        Some(j) => Some(t.panes@[j].0),
                        None => None,
                    },
                decreases k,
            {
                k = k - 1;
                if t.panes[k].1.attached_terminal_id == *tid {
                    in_tab = Some(t.panes[k].0);
                }
            }
            if in_tab.is_some() {
                found = in_tab;
            }
        }
        found
    }
}

/// An optional index as an optional integer.
pub open spec fn opt_index(o: Option<usize>) -> Option<int> {
    match o {
        Some(u) => Some(u as int),
        None => None,
    }
}

// ---------------------------------------------------------------------------
// Names
// ---------------------------------------------------------------------------

/// The characters of `t` after its last `/`.
pub open spec fn after_last_slash(t: Seq<char>) -> Seq<char>
    decreases t.len(),
{
    if t.len() == 0 || t.last() == '/' {
        Seq::empty()
    } else {
        after_last_slash(t.drop_last()).push(t.last())
    }
}

/// The label derived from a working directory: its last path component
/// (trailing slashes ignored), or the directory itself when it has none.
pub open spec fn label_of_cwd(cwd: Seq<char>) -> Seq<char> {
    let name = after_last_slash(trim_end_slashes(cwd));
    if name.len() > 0 {
        name
    } else {
        cwd
    }
}

/// The label derived from a working directory: its last path component.
pub fn derive_label_from_cwd(cwd: &str) -> (label: String)
    ensures
        label@ == label_of_cwd(cwd@),
{
    let v = chars_of(cwd);
    let mut end: usize = v.len();
    proof {
        assert(v@.subrange(0, end as int) =~= v@);
    }
    while end > 0 && v[end - 1] == '/'
        invariant
            end <= v@.len(),
            trim_end_slashes(v@) == trim_end_slashes(v@.subrange(0, end as int)),
        decreases end,
    {
        proof {
            assert(v@.subrange(0, end as int).drop_last() =~= v@.subrange(0, end - 1));
        }
        end = end - 1;
    }
    let ghost t = v@.subrange(0, end as int);
    proof {
        assert(trim_end_slashes(t) == t);
    }
    let mut start: usize = end;
    proof {
        assert(t.subrange(start as int, end as int) =~= Seq::<char>::empty());
        assert(t.subrange(0, start as int) =~= t);
        assert(after_last_slash(t) + Seq::<char>::empty() =~= after_last_slash(t));
    }
    while start > 0 && v[start - 1] != '/'
        invariant
            start <= end,
            end <= v@.len(),
            t == v@.subrange(0, end as int),
            after_last_slash(t) == after_last_slash(t.subrange(0, start as int)) + t.subrange(start as int, end as int),
        decreases start,
    {
        proof {
            let u = t.subrange(0, start as int);
            assert(u.drop_last() =~= t.subrange(0, start - 1));
            assert(u.last() == v@[start - 1]);
            assert(t.subrange(start - 1, end as int) =~= seq![v@[start - 1]] + t.subrange(start as int, end as int));
            assert(after_last_slash(u) == after_last_slash(u.drop_last()).push(u.last()));
            assert(after_last_slash(u.drop_last()).push(u.last()) + t.subrange(start as int, end as int) =~= after_last_slash(
                u.drop_last(),
            ) + t.subrange(start - 1, end as int));
        }
        start = start - 1;
    }
    proof {
        assert(after_last_slash(t.subrange(0, start as int)) =~= Seq::<char>::empty());
        assert(after_last_slash(t) =~= v@.subrange(start as int, end as int));
    }
    if start < end {
        string_of(&slice_chars(&v, start, end))
    } else {
        cwd.to_owned()
    }
}

/// The cwd of `tid` in `cwds` (the first entry for it).
pub open spec fn cwd_of(cwds: Seq<(TerminalId, String)>, tid: TerminalId, from: int) -> Option<String>
    decreases cwds.len() - from,
{
    if from < 0 || from >= cwds.len() {
        None
    } else if cwds[from].0 == tid {
        Some(cwds[from].1)
    } else {
        cwd_of(cwds, tid, from + 1)
    }
}

/// The identity directory of a workspace given what its terminals report:
/// the cwd of the first tab's root pane when known, else the stored one.
pub open spec fn identity_cwd_from(ws: Workspace, cwds: Seq<(TerminalId, String)>) -> String {
    if ws.tabs@.len() > 0 {
        match row_of(ws.tabs@[0].panes@, ws.tabs@[0].root_pane) {
            Some(k) => match cwd_of(cwds, ws.tabs@[0].panes@[k].1.attached_terminal_id, 0) {
                Some(c) => c,
                None => ws.identity_cwd,
            },
            None => ws.identity_cwd,
        }
    } else {
        ws.identity_cwd
    }
}

impl Workspace {
    /// The workspace's label: its custom name, else the label of its identity
    /// directory.
    pub fn display_name(&self) -> (n: String)
        ensures
            n@ == match self.custom_name {
                Some(c) => c@,
                None => label_of_cwd(self.identity_cwd@),
            },
    {
        match &self.custom_name {
            Some(c) => c.clone(),
            None => derive_label_from_cwd(self.identity_cwd.as_str()),
        }
    }

    /// The identity directory, following the first tab's root pane: `cwds`
    /// gives the current directory of each terminal.
    pub fn resolved_identity_cwd_from(&self, cwds: &Vec<(TerminalId, String)>) -> (r: Option<String>)
        requires
            self.wf(),
        ensures
            r == Some(identity_cwd_from(*self, cwds@)),
    {
        let t = &self.tabs[0];
        proof {
            assert(tab_ok(self.tabs@[0]));
        }
        match t.terminal_id(t.root_pane) {
            Some(tid) => {
                let mut k: usize = cwds.len();
                let mut found: Option<String> = None;
                while k > 0
                    invariant
                        k <= cwds@.len(),
                        found == cwd_of(cwds@, *tid, k as int),
                    decreases k,
                {
                    k = k - 1;
                    if cwds[k].0 == *tid {
                        found = Some(cwds[k].1.clone());
                    }
                }
                match found {
                    Some(c) => Some(c),
                    None => Some(self.identity_cwd.clone()),
                }
            },
            None => Some(self.identity_cwd.clone()),
        }
    }

    /// The workspace's label, following the first tab's root pane.
    pub fn display_name_from(&self, cwds: &Vec<(TerminalId, String)>) -> (n: String)
        requires
            self.wf(),
        ensures
            n@ == match self.custom_name {
                Some(c) => c@,
                None => label_of_cwd(identity_cwd_from(*self, cwds@)@),
            },
    {
        if let Some(c) = &self.custom_name {
            return c.clone();
        }
        match self.resolved_identity_cwd_from(cwds) {
            Some(cwd) => derive_label_from_cwd(cwd.as_str()),
            None => String::from_str("workspace"),
        }
    }
}

// ---------------------------------------------------------------------------
// Tab operations
// ---------------------------------------------------------------------------

/// Tab `i` replaced by a tab with the same rows' panes, number and health
/// leaves the tabs well formed and disjoint, with the same panes.
proof fn lemma_replace_tab(tabs: Seq<Tab>, i: int, t2: Tab)
    requires
        tabs_wf(tabs),
        tabs_disjoint(tabs),
        0 <= i < tabs.len(),
        tab_ok(t2),
        t2.number == tabs[i].number,
        forall|x: PaneId| has_pane(t2, x) <==> has_pane(tabs[i], x),
    ensures
        tabs_wf(tabs.update(i, t2)),
        tabs_disjoint(tabs.update(i, t2)),
        forall|x: PaneId| #[trigger] in_some_tab(tabs.update(i, t2), x) <==> in_some_tab(tabs, x),
{
    let u = tabs.update(i, t2);
    assert forall|j: int, x: PaneId| 0 <= j < tabs.len() implies #[trigger] has_pane(u[j], x) == has_pane(tabs[j], x) by {
        if j == i {
            assert(has_pane(t2, x) == has_pane(tabs[i], x));
        }
    }
    assert forall|x: PaneId| #[trigger] in_some_tab(u, x) <==> in_some_tab(tabs, x) by {
        if in_some_tab(u, x) {
            let j = choose|j: int| 0 <= j < u.len() && has_pane(#[trigger] u[j], x);
            assert(has_pane(tabs[j], x));
        }
        if in_some_tab(tabs, x) {
            let j = choose|j: int| 0 <= j < tabs.len() && has_pane(#[trigger] tabs[j], x);
            assert(has_pane(u[j], x));
        }
    }
    assert forall|a: int, b: int, x: PaneId|
        0 <= a < u.len() && 0 <= b < u.len() && a != b && #[trigger] has_pane(u[a], x) implies !#[trigger] has_pane(u[b], x) by {
        assert(has_pane(tabs[a], x) == has_pane(u[a], x));
        assert(has_pane(tabs[b], x) == has_pane(u[b], x));
    }
}

/// Taking tab `i` away leaves the other tabs disjoint, and their panes are
/// those of all the tabs but tab `i`.
proof fn lemma_remove_tab(tabs: Seq<Tab>, i: int)
    requires
        tabs_disjoint(tabs),
        0 <= i < tabs.len(),
    ensures
        tabs_disjoint(tabs.remove(i)),
        forall|x: PaneId| #[trigger] in_some_tab(tabs.remove(i), x) <==> (in_some_tab(tabs, x) && !has_pane(tabs[i], x)),
{
    let r = tabs.remove(i);
    assert forall|j: int| 0 <= j < r.len() implies #[trigger] r[j] == tabs[if j < i { j } else { j + 1 }] by {}
    assert forall|a: int, b: int, x: PaneId|
        0 <= a < r.len() && 0 <= b < r.len() && a != b && #[trigger] has_pane(r[a], x) implies !#[trigger] has_pane(r[b], x) by {
        let a1 = if a < i { a } else { a + 1 };
        let b1 = if b < i { b } else { b + 1 };
        assert(r[a] == tabs[a1] && r[b] == tabs[b1]);
        assert(has_pane(tabs[a1], x));
    }
    assert forall|x: PaneId| #[trigger] in_some_tab(r, x) <==> (in_some_tab(tabs, x) && !has_pane(tabs[i], x)) by {
        if in_some_tab(r, x) {
            let j = choose|j: int| 0 <= j < r.len() && has_pane(#[trigger] r[j], x);
            let j1 = if j < i { j } else { j + 1 };
            assert(r[j] == tabs[j1]);
            assert(has_pane(tabs[j1], x));
            assert(j1 != i);
        }
        if in_some_tab(tabs, x) && !has_pane(tabs[i], x) {
            let j = choose|j: int| 0 <= j < tabs.len() && has_pane(#[trigger] tabs[j], x);
            assert(j != i);
            let j0 = if j < i { j } else { j - 1 };
            assert(r[j0] == tabs[j]);
            assert(has_pane(r[j0], x));
        }
    }
}

impl Workspace {
    /// Number every tab by its position.
    fn renumber_tabs(&mut self)
        requires
            forall|i: int| 0 <= i < old(self).tabs@.len() ==> tab_ok(#[trigger] old(self).tabs@[i]),
        ensures
            final(self).tabs@.len() == old(self).tabs@.len(),
            forall|i: int|
                0 <= i < final(self).tabs@.len() ==> #[trigger] final(self).tabs@[i] == (Tab {
                    number: (i + 1) as usize,
                    ..old(self).tabs@[i]
                }),
            tabs_wf(final(self).tabs@),
            forall|i: int, x: PaneId| 0 <= i < final(self).tabs@.len() ==> #[trigger] has_pane(final(self).tabs@[i], x) == has_pane(old(self).tabs@[i], x),
            final(self).public_pane_numbers == old(self).public_pane_numbers,
            final(self).next_public_pane_number == old(self).next_public_pane_number,
            final(self).active_tab == old(self).active_tab,
            final(self).custom_name == old(self).custom_name,
            final(self).identity_cwd == old(self).identity_cwd,
            final(self).cached_git_branch == old(self).cached_git_branch,
            final(self).reviewing_pr == old(self).reviewing_pr,
    {
        let ghost start = self.tabs@;
        let mut i: usize = 0;
        while i < self.tabs.len()
            invariant
                start == old(self).tabs@,
                forall|j: int| 0 <= j < start.len() ==> tab_ok(#[trigger] start[j]),
                self.tabs@.len() == start.len(),
                i <= start.len(),
                forall|j: int|
                    0 <= j < start.len() ==> #[trigger] self.tabs@[j] == if j < i {
                        Tab { number: (j + 1) as usize, ..start[j] }
                    } else {
                        start[j]
                    },
                self.public_pane_numbers == old(self).public_pane_numbers,
                self.next_public_pane_number == old(self).next_public_pane_number,
                self.active_tab == old(self).active_tab,
                self.custom_name == old(self).custom_name,
                self.identity_cwd == old(self).identity_cwd,
                self.cached_git_branch == old(self).cached_git_branch,
                self.reviewing_pr == old(self).reviewing_pr,
            decreases self.tabs.len() - i,
        {
            let mut t = self.tabs.remove(i);
            t.number = i + 1;
            self.tabs.insert(i, t);
            i = i + 1;
        }
        proof {
            assert forall|j: int| 0 <= j < self.tabs@.len() implies tab_ok(#[trigger] self.tabs@[j]) && self.tabs@[j].number == j + 1 by {
                assert(self.tabs@[j].panes == start[j].panes);
            }
        }
    }

    /// Make tab `idx` active (when there is one) and mark its panes seen.
    pub fn switch_tab(&mut self, idx: usize)
        requires
            old(self).wf(),
        ensures
            final(self).wf(),
            idx < old(self).tabs@.len() ==> {
                &&& final(self).active_tab == idx
                &&& final(self).tabs@.len() == old(self).tabs@.len()
                &&& forall|i: int| 0 <= i < old(self).tabs@.len() && i != idx ==> #[trigger] final(self).tabs@[i] == old(self).tabs@[i]
                &&& row_ids(final(self).tabs@[idx as int].panes@) == row_ids(old(self).tabs@[idx as int].panes@)
                &&& forall|k: int|
                    0 <= k < final(self).tabs@[idx as int].panes@.len() ==> (#[trigger] final(self).tabs@[idx as int].panes@[k]).1.seen
            },
            idx >= old(self).tabs@.len() ==> final(self).tabs == old(self).tabs && final(self).active_tab == old(self).active_tab,
            final(self).public_pane_numbers == old(self).public_pane_numbers,
    {
        if idx < self.tabs.len() {
            self.active_tab = idx;
            let ghost before = self.tabs@;
            let mut t = self.tabs.remove(idx);
            proof {
                assert(t == before[idx as int]);
                assert(tab_ok(t));
            }
            t.mark_seen();
            proof {
                assert forall|x: PaneId| has_pane(t, x) <==> has_pane(before[idx as int], x) by {}
                lemma_replace_tab(before, idx as int, t);
            }
            self.tabs.insert(idx, t);
            proof {
                assert(self.tabs@ =~= before.update(idx as int, t));
            }
        }
    }

    /// Add a tab holding one agent pane, `root_pane`, attached to `terminal`;
    /// it is numbered after the others and its pane gets the next public
    /// number. Returns the new tab's index.
    pub fn create_tab(&mut self, root_pane: PaneId, terminal: TerminalId) -> (idx: usize)
        requires
            old(self).wf(),
            !in_some_tab(old(self).tabs@, root_pane),
            old(self).tabs@.len() < usize::MAX,
            old(self).public_pane_numbers@.len() + 2 <= usize::MAX,
        ensures
            final(self).wf(),
            idx == old(self).tabs@.len(),
            final(self).tabs@.len() == old(self).tabs@.len() + 1,
            forall|i: int| 0 <= i < old(self).tabs@.len() ==> #[trigger] final(self).tabs@[i] == old(self).tabs@[i],
            final(self).tabs@[idx as int].root_pane == root_pane,
            final(self).tabs@[idx as int].panes@.len() == 1,
            final(self).tabs@[idx as int].panes@[0].1.attached_terminal_id == terminal,
            final(self).public_pane_numbers@ == old(self).public_pane_numbers@.push(
                (root_pane, old(self).next_public_pane_number),
            ),
            final(self).active_tab == old(self).active_tab,
    {
        let number = self.tabs.len() + 1;
        let tab = Tab::new(number, root_pane, terminal);
        proof {
            assert(!is_numbered(self.public_pane_numbers@, root_pane));
        }
        self.register_new_pane(root_pane);
        let ghost before = self.tabs@;
        self.tabs.push(tab);
        proof {
            let tabs = self.tabs@;
            assert forall|i: int| 0 <= i < before.len() implies #[trigger] tabs[i] == before[i] by {}
            assert(row_ids(tabs[before.len() as int].panes@)[0] == root_pane);
            assert forall|x: PaneId| has_pane(tabs[before.len() as int], x) <==> x == root_pane by {
                if has_pane(tabs[before.len() as int], x) {
                    let k = choose|k: int| 0 <= k < row_ids(tabs[before.len() as int].panes@).len() && row_ids(tabs[before.len() as int].panes@)[k] == x;
                    assert(k == 0);
                }
            }
            assert forall|i: int| 0 <= i < tabs.len() implies tab_ok(#[trigger] tabs[i]) && tabs[i].number == i + 1 by {}
            assert forall|a: int, b: int, x: PaneId|
                0 <= a < tabs.len() && 0 <= b < tabs.len() && a != b && #[trigger] has_pane(tabs[a], x) implies !#[trigger] has_pane(tabs[b], x) by {
                if a == before.len() {
                    assert(x == root_pane);
                    assert(!has_pane(before[b], root_pane));
                } else if b == before.len() {
                    if x == root_pane {
                        assert(in_some_tab(before, root_pane));
                    }
                }
            }
            assert forall|x: PaneId| #[trigger] is_numbered(self.public_pane_numbers@, x) <==> in_some_tab(tabs, x) by {
                if in_some_tab(tabs, x) {
                    let j = choose|j: int| 0 <= j < tabs.len() && has_pane(#[trigger] tabs[j], x);
                    if j < before.len() {
                        assert(in_some_tab(before, x));
                    }
                }
                if in_some_tab(before, x) {
                    let j = choose|j: int| 0 <= j < before.len() && has_pane(#[trigger] before[j], x);
                    assert(has_pane(tabs[j], x));
                }
                if x == root_pane {
                    assert(has_pane(tabs[before.len() as int], x));
                }
            }
        }
        self.tabs.len() - 1
    }

    /// Close tab `idx` unless it is the last tab: its panes lose their public
    /// numbers, the tabs are renumbered and the active tab stays on the same
    /// tab where it can. Returns whether a tab was closed.
    pub fn close_tab(&mut self, idx: usize) -> (closed: bool)
        requires
            old(self).wf(),
        ensures
            final(self).wf(),
            closed == (old(self).tabs@.len() > 1 && idx < old(self).tabs@.len()),
            closed ==> {
                &&& final(self).tabs@.len() == old(self).tabs@.len() - 1
                &&& forall|i: int|
                    0 <= i < final(self).tabs@.len() ==> (#[trigger] final(self).tabs@[i]).panes == old(self).tabs@.remove(
                        idx as int,
                    )[i].panes && final(self).tabs@[i].root_pane == old(self).tabs@.remove(idx as int)[i].root_pane
                        && final(self).tabs@[i].custom_name == old(self).tabs@.remove(idx as int)[i].custom_name
                &&& final(self).active_tab == closed_tab_active(old(self).active_tab, idx, final(self).tabs@.len())
                &&& idx != old(self).active_tab ==> final(self).tabs@[final(self).active_tab as int].root_pane
                    == old(self).tabs@[old(self).active_tab as int].root_pane
                &&& forall|x: PaneId| #[trigger] is_numbered(final(self).public_pane_numbers@, x) <==> (is_numbered(old(self).public_pane_numbers@, x) && !has_pane(old(self).tabs@[idx as int], x))
            },
            !closed ==> final(self).tabs == old(self).tabs && final(self).active_tab == old(self).active_tab
                && final(self).public_pane_numbers == old(self).public_pane_numbers,
    {
        if self.tabs.len() <= 1 || idx >= self.tabs.len() {
            return false;
        }
        let ghost before = self.tabs@;
        let ghost nums_before = self.public_pane_numbers@;
        let tab = self.tabs.remove(idx);
        proof {
            lemma_remove_tab(before, idx as int);
            assert(tab == before[idx as int]);
        }
        let ghost rest = self.tabs@;
        let ghost ids = row_ids(tab.panes@);
        let mut k: usize = 0;
        while k < tab.panes.len()
            invariant
                rest == before.remove(idx as int),
                self.tabs@ == rest,
                ids == row_ids(tab.panes@),
                tab == before[idx as int],
                tab_ok(tab),
                k <= tab.panes@.len(),
                numbering_ok(self.public_pane_numbers@),
                self.next_public_pane_number == self.public_pane_numbers@.len() + 1,
                forall|x: PaneId| #[trigger] is_numbered(self.public_pane_numbers@, x) <==> (in_some_tab(rest, x) || (has_pane(tab, x) && !ids.subrange(0, k as int).contains(x))),
                forall|x: PaneId| #[trigger] in_some_tab(rest, x) <==> (in_some_tab(before, x) && !has_pane(before[idx as int], x)),
                self.active_tab == old(self).active_tab,
            decreases tab.panes.len() - k,
        {
            let id = tab.panes[k].0;
            proof {
                assert(ids[k as int] == id);
                assert(has_pane(tab, id));
                assert(!ids.subrange(0, k as int).contains(id));
                assert(is_numbered(self.public_pane_numbers@, id));
            }
            self.unregister_pane(id);
            proof {
                assert forall|x: PaneId| #[trigger] is_numbered(self.public_pane_numbers@, x) <==> (in_some_tab(rest, x) || (has_pane(tab, x) && !ids.subrange(0, k + 1 as int).contains(x))) by {
                    let s0 = ids.subrange(0, k as int);
                    let s1 = ids.subrange(0, k + 1 as int);
                    assert(s1 =~= s0.push(id));
                    if in_some_tab(rest, x) {
                        assert(!has_pane(before[idx as int], x));
                        assert(x != id);
                    }
                    if x != id {
                        if s1.contains(x) {
                            let j = choose|j: int| 0 <= j < s1.len() && s1[j] == x;
                            assert(j != k);
                            assert(s0[j] == x);
                        }
                        if s0.contains(x) {
                            let j = choose|j: int| 0 <= j < s0.len() && s0[j] == x;
                            assert(s1[j] == x);
                        }
                    } else {
                        assert(s1[k as int] == x);
                    }
                }
            }
            k = k + 1;
        }
        proof {
            assert(ids.subrange(0, ids.len() as int) =~= ids);
            assert forall|x: PaneId| #[trigger] is_numbered(self.public_pane_numbers@, x) <==> in_some_tab(rest, x) by {
                if has_pane(tab, x) {
                    assert(ids.contains(x));
                }
            }
            assert forall|i: int| 0 <= i < rest.len() implies tab_ok(#[trigger] rest[i]) by {
                let i1 = if i < idx { i } else { i + 1 };
                assert(rest[i] == before[i1]);
            }
        }
        self.renumber_tabs();
        proof {
            assert forall|x: PaneId| #[trigger] in_some_tab(self.tabs@, x) <==> in_some_tab(rest, x) by {
                if in_some_tab(self.tabs@, x) {
                    let j = choose|j: int| 0 <= j < self.tabs@.len() && has_pane(#[trigger] self.tabs@[j], x);
                    assert(has_pane(rest[j], x));
                }
                if in_some_tab(rest, x) {
                    let j = choose|j: int| 0 <= j < rest.len() && has_pane(#[trigger] rest[j], x);
                    assert(has_pane(self.tabs@[j], x));
                }
            }
            assert forall|a: int, b: int, x: PaneId|
                0 <= a < self.tabs@.len() && 0 <= b < self.tabs@.len() && a != b && #[trigger] has_pane(self.tabs@[a], x) implies !#[trigger] has_pane(self.tabs@[b], x) by {
                assert(has_pane(rest[a], x) == has_pane(self.tabs@[a], x));
                assert(has_pane(rest[b], x) == has_pane(self.tabs@[b], x));
            }
        }
        if self.active_tab >= self.tabs.len() {
            self.active_tab = self.tabs.len() - 1;
        } else if idx <= self.active_tab && self.active_tab > 0 {
            self.active_tab = self.active_tab - 1;
        }
        true
    }

    /// Close the active tab unless it is the last one.
    pub fn close_active_tab(&mut self) -> (closed: bool)
        requires
            old(self).wf(),
        ensures
            final(self).wf(),
            closed == (old(self).tabs@.len() > 1),
            closed ==> final(self).tabs@.len() == old(self).tabs@.len() - 1 && final(self).active_tab
                == closed_tab_active(old(self).active_tab, old(self).active_tab, final(self).tabs@.len()),
            !closed ==> final(self).tabs == old(self).tabs && final(self).active_tab == old(self).active_tab,
    {
        let idx = self.active_tab;
        self.close_tab(idx)
    }
}

/// The active tab after tab `closed` is closed, leaving `remaining` tabs: the
/// last tab when the active index fell off the end, else one earlier when the
/// closed tab was at or before it.
pub open spec fn closed_tab_active(active: usize, closed: usize, remaining: nat) -> usize {
    if active >= remaining {
        (remaining - 1) as usize
    } else if closed <= active && active > 0 {
        (active - 1) as usize
    } else {
        active
    }
}

/// Closing a tab other than the active one keeps the same tab active: the
/// active position moves so that it still points at the tab that was
/// active before.
pub proof fn lemma_closing_background_tab_keeps_active(tabs: Seq<Tab>, active: usize, closed: usize)
    requires
        tabs.len() > 1,
        active < tabs.len(),
        closed < tabs.len(),
        closed != active,
    ensures
        closed_tab_active(active, closed, (tabs.len() - 1) as nat) < tabs.len() - 1,
        tabs.remove(closed as int)[closed_tab_active(active, closed, (tabs.len() - 1) as nat) as int] == tabs[active as int],
{
}

/// Tab `i` replaced by a tab holding its panes but `gone` and plus `added`
/// (a pane of no other tab) leaves the tabs well formed and disjoint; the
/// panes of the tabs change the same way.
proof fn lemma_reshape_tab(tabs: Seq<Tab>, i: int, t2: Tab, gone: Option<PaneId>, added: Option<PaneId>)
    requires
        tabs_wf(tabs),
        tabs_disjoint(tabs),
        0 <= i < tabs.len(),
        tab_ok(t2),
        t2.number == tabs[i].number,
        forall|x: PaneId| has_pane(t2, x) <==> ((has_pane(tabs[i], x) && gone != Some(x)) || added == Some(x)),
        added matches Some(a) ==> !in_some_tab(tabs, a),
        gone matches Some(g) ==> has_pane(tabs[i], g) && added != Some(g),
    ensures
        tabs_wf(tabs.update(i, t2)),
        tabs_disjoint(tabs.update(i, t2)),
        forall|x: PaneId| #[trigger] in_some_tab(tabs.update(i, t2), x) <==> ((in_some_tab(tabs, x) && gone != Some(x)) || added == Some(x)),
{
    let u = tabs.update(i, t2);
    assert forall|j: int| 0 <= j < u.len() implies tab_ok(#[trigger] u[j]) && u[j].number == j + 1 by {}
    assert forall|a: int, b: int, x: PaneId|
        0 <= a < u.len() && 0 <= b < u.len() && a != b && #[trigger] has_pane(u[a], x) implies !#[trigger] has_pane(u[b], x) by {
        if a == i {
            if added == Some(x) && !has_pane(tabs[i], x) {
                assert(!in_some_tab(tabs, x));
                assert(!has_pane(tabs[b], x));
            } else {
                assert(has_pane(tabs[i], x));
            }
        } else if b == i {
            assert(has_pane(tabs[a], x));
            if added == Some(x) {
                assert(in_some_tab(tabs, x));
            }
        }
    }
    assert forall|x: PaneId| #[trigger] in_some_tab(u, x) <==> ((in_some_tab(tabs, x) && gone != Some(x)) || added == Some(x)) by {
        if in_some_tab(u, x) {
            let j = choose|j: int| 0 <= j < u.len() && has_pane(#[trigger] u[j], x);
            if j != i {
                assert(has_pane(tabs[j], x));
                if gone == Some(x) {
                    assert(has_pane(tabs[i], x));
                }
            } else if added != Some(x) {
                assert(has_pane(tabs[i], x));
            }
        }
        if in_some_tab(tabs, x) && gone != Some(x) {
            let j = choose|j: int| 0 <= j < tabs.len() && has_pane(#[trigger] tabs[j], x);
            assert(has_pane(u[j], x));
        }
        if added == Some(x) {
            assert(has_pane(u[i], x));
        }
    }
}

/// The position of tab `a` after moving tab `from` to position `to`.
pub open spec fn moved_index(a: int, from: int, to: int) -> int {
    if a == from {
        to
    } else if from < a && a <= to {
        a - 1
    } else if to <= a && a < from {
        a + 1
    } else {
        a
    }
}

/// Where `move_tab` puts the tab taken from `source` when asked to insert it
/// before position `insert` among `len` tabs.
pub open spec fn move_target(source: int, insert: int, len: int) -> int {
    let t = if source < insert { if insert > 0 { insert - 1 } else { 0 } } else { insert };
    let last = if len > 0 { len - 1 } else { 0 };
    if t < last { t } else { last }
}

/// The tabs after the one at `from` is moved to position `to` and all are
/// renumbered by position.
pub open spec fn moved_tabs(tabs: Seq<Tab>, from: int, to: int) -> Seq<Tab> {
    let order = tabs.remove(from).insert(to, tabs[from]);
    Seq::new(tabs.len(), |i: int| Tab { number: (i + 1) as usize, ..order[i] })
}

/// Moving a tab back undoes moving it: moving the tab at `from` to `to`
/// and then the tab now at `to` back to `from` restores the tabs (numbered
/// by position) and keeps every tab's position, the active one's included.
/// Asking `move_tab` to insert before `from + 1` (when the tab went left)
/// or `from` (when it went right) moves it back.
pub proof fn lemma_move_tab_back(tabs: Seq<Tab>, from: int, to: int, active: int)
    requires
        0 <= from < tabs.len(),
        0 <= to < tabs.len(),
        0 <= active < tabs.len(),
        forall|i: int| 0 <= i < tabs.len() ==> (#[trigger] tabs[i]).number == i + 1,
    ensures
        moved_tabs(moved_tabs(tabs, from, to), to, from) == tabs,
        moved_index(moved_index(active, from, to), to, from) == active,
        move_target(to, if to < from { from + 1 } else { from }, tabs.len() as int) == from,
{
    let n = tabs.len() as int;
    let order1 = tabs.remove(from).insert(to, tabs[from]);
    let t1 = moved_tabs(tabs, from, to);
    let order2 = t1.remove(to).insert(from, t1[to]);
    let t2 = moved_tabs(t1, to, from);
    assert(order1.len() == n);
    assert(order2.len() == n);
    assert forall|i: int| 0 <= i < n implies #[trigger] order1[i] == tabs[if i == to {
        from
    } else {
        let q = if i < to { i } else { i - 1 };
        if q < from { q } else { q + 1 }
    }] by {
        let r = tabs.remove(from);
        if i < to {
            assert(order1[i] == r[i]);
        } else if i > to {
            assert(order1[i] == r[i - 1]);
        }
    }
    assert forall|i: int| 0 <= i < n implies #[trigger] t2[i] == tabs[i] by {
        let r = t1.remove(to);
        let k = if i == from {
            to
        } else {
            let q = if i < from { i } else { i - 1 };
            if q < to { q } else { q + 1 }
        };
        if i < from {
            assert(order2[i] == r[i]);
        } else if i > from {
            assert(order2[i] == r[i - 1]);
        }
        assert(order2[i] == t1[k]);
        assert(t1[k] == (Tab { number: (k + 1) as usize, ..order1[k] }));
    }
    assert(t2 =~= tabs);
}

impl Workspace {
    /// The first tab whose root pane is `root`.
    fn find_tab_with_root(&self, root: PaneId) -> (r: Option<usize>)
        ensures
            match r {
                Some(i) => i < self.tabs@.len() && self.tabs@[i as int].root_pane == root && forall|j: int|
                    0 <= j < i ==> (#[trigger] self.tabs@[j]).root_pane != root,
                None => forall|j: int| 0 <= j < self.tabs@.len() ==> (#[trigger] self.tabs@[j]).root_pane != root,
            },
    {
        let mut i: usize = 0;
        while i < self.tabs.len()
            invariant
                i <= self.tabs@.len(),
                forall|j: int| 0 <= j < i ==> (#[trigger] self.tabs@[j]).root_pane != root,
            decreases self.tabs.len() - i,
        {
            if self.tabs[i].root_pane == root {
                return Some(i);
            }
            i = i + 1;
        }
        None
    }

    /// Move the tab at `source_idx` so that it lands before position
    /// `insert_idx` (counted before the move), renumber the tabs, and keep the
    /// same tab active. Returns whether anything moved.
    pub fn move_tab(&mut self, source_idx: usize, insert_idx: usize) -> (moved: bool)
        requires
            old(self).wf(),
        ensures
            final(self).wf(),
            moved == (source_idx < old(self).tabs@.len() && insert_idx <= old(self).tabs@.len() && move_target(
                source_idx as int,
                insert_idx as int,
                old(self).tabs@.len() as int,
            ) != source_idx),
            moved ==> {
                let to = move_target(source_idx as int, insert_idx as int, old(self).tabs@.len() as int);
                let order = old(self).tabs@.remove(source_idx as int).insert(to, old(self).tabs@[source_idx as int]);
                &&& final(self).tabs@.len() == old(self).tabs@.len()
                &&& forall|i: int|
                    0 <= i < final(self).tabs@.len() ==> #[trigger] final(self).tabs@[i] == (Tab {
                        number: (i + 1) as usize,
                        ..order[i]
                    })
                &&& final(self).tabs@ == moved_tabs(old(self).tabs@, source_idx as int, to)
                &&& final(self).active_tab == moved_index(old(self).active_tab as int, source_idx as int, to)
                &&& final(self).tabs@[final(self).active_tab as int].root_pane == old(self).tabs@[old(self).active_tab as int].root_pane
            },
            !moved ==> final(self).tabs == old(self).tabs && final(self).active_tab == old(self).active_tab,
            final(self).public_pane_numbers == old(self).public_pane_numbers,
    {
        let len = self.tabs.len();
        if source_idx >= len || insert_idx > len {
            return false;
        }
        let t = if source_idx < insert_idx { insert_idx.saturating_sub(1) } else { insert_idx };
        let last = len.saturating_sub(1);
        let target_idx = if t < last { t } else { last };
        if source_idx == target_idx {
            return false;
        }
        let active_root = self.tabs[self.active_tab].root_pane;
        let ghost before = self.tabs@;
        let ghost a = self.active_tab as int;
        let tab = self.tabs.remove(source_idx);
        self.tabs.insert(target_idx, tab);
        let ghost order = self.tabs@;
        proof {
            assert(order == before.remove(source_idx as int).insert(target_idx as int, before[source_idx as int]));
            // Where each old tab went.
            assert forall|j: int| 0 <= j < before.len() implies #[trigger] order[moved_index(j, source_idx as int, target_idx as int)] == before[j] by {
                let r = before.remove(source_idx as int);
                if j < source_idx {
                    assert(r[j] == before[j]);
                } else if j > source_idx {
                    assert(r[j - 1] == before[j]);
                }
            }
            assert forall|p: int| 0 <= p < order.len() implies exists|j: int| 0 <= j < before.len() && moved_index(j, source_idx as int, target_idx as int) == p && #[trigger] order[p] == before[j] by {
                let r = before.remove(source_idx as int);
                let s = source_idx as int;
                let tt = target_idx as int;
                if p == tt {
                    assert(moved_index(s, s, tt) == p);
                } else {
                    let q = if p < tt { p } else { p - 1 };
                    let j = if q < s { q } else { q + 1 };
                    assert(r[q] == before[j]);
                    assert(moved_index(j, s, tt) == p);
                }
            }
            assert forall|j: int| 0 <= j < order.len() implies tab_ok(#[trigger] order[j]) by {
                let w = choose|w: int| 0 <= w < before.len() && moved_index(w, source_idx as int, target_idx as int) == j && #[trigger] order[j] == before[w];
            }
        }
        self.renumber_tabs();
        proof {
            let tabs = self.tabs@;
            let s = source_idx as int;
            let tt = target_idx as int;
            assert forall|j: int, x: PaneId| 0 <= j < before.len() implies #[trigger] has_pane(tabs[moved_index(j, s, tt)], x) == has_pane(before[j], x) by {
                assert(order[moved_index(j, s, tt)] == before[j]);
            }
            assert forall|a1: int, b1: int, x: PaneId|
                0 <= a1 < tabs.len() && 0 <= b1 < tabs.len() && a1 != b1 && #[trigger] has_pane(tabs[a1], x) implies !#[trigger] has_pane(tabs[b1], x) by {
                let wa = choose|w: int| 0 <= w < before.len() && moved_index(w, s, tt) == a1 && #[trigger] order[a1] == before[w];
                let wb = choose|w: int| 0 <= w < before.len() && moved_index(w, s, tt) == b1 && #[trigger] order[b1] == before[w];
                assert(has_pane(before[wa], x));
                assert(wa != wb);
            }
            assert forall|x: PaneId| #[trigger] in_some_tab(tabs, x) <==> in_some_tab(before, x) by {
                if in_some_tab(tabs, x) {
                    let p = choose|p: int| 0 <= p < tabs.len() && has_pane(#[trigger] tabs[p], x);
                    let w = choose|w: int| 0 <= w < before.len() && moved_index(w, s, tt) == p && #[trigger] order[p] == before[w];
                    assert(has_pane(before[w], x));
                }
                if in_some_tab(before, x) {
                    let j = choose|j: int| 0 <= j < before.len() && has_pane(#[trigger] before[j], x);
                    assert(has_pane(tabs[moved_index(j, s, tt)], x));
                }
            }
            // The active tab's root pane is the root of no earlier tab.
            let ma = moved_index(a, s, tt);
            assert(tabs[ma].root_pane == active_root);
            assert forall|j: int| 0 <= j < ma implies (#[trigger] tabs[j]).root_pane != active_root by {
                let w = choose|w: int| 0 <= w < before.len() && moved_index(w, s, tt) == j && #[trigger] order[j] == before[w];
                assert(w != a);
                assert(has_pane(before[a], active_root));
                assert(has_pane(before[w], before[w].root_pane));
            }
        }
        self.active_tab = match self.find_tab_with_root(active_root) {
            Some(i) => i,
            None => target_idx,
        };
        proof {
            let ma = moved_index(a, source_idx as int, target_idx as int);
            assert(self.tabs@[ma].root_pane == active_root);
        }
        true
    }
}

impl Workspace {
    /// Close the active tab unless it is the last one; returns whether the
    /// workspace itself should close instead.
    fn close_active_tab_and_report(&mut self) -> (close_workspace: bool)
        requires
            old(self).wf(),
        ensures
            final(self).wf(),
            close_workspace == (old(self).tabs@.len() <= 1),
            close_workspace ==> final(self).tabs == old(self).tabs && final(self).active_tab == old(self).active_tab,
            !close_workspace ==> final(self).tabs@.len() == old(self).tabs@.len() - 1,
    {
        if self.tabs.len() <= 1 {
            return true;
        }
        self.close_active_tab();
        false
    }

    /// Take the row of pane `pane_id` out of tab `tab_idx`, which has more
    /// than one row, and drop its public number.
    fn drop_row(&mut self, tab_idx: usize, pane_id: PaneId)
        requires
            old(self).wf(),
            tab_idx < old(self).tabs@.len(),
            old(self).tabs@[tab_idx as int].panes@.len() > 1,
            has_pane(old(self).tabs@[tab_idx as int], pane_id),
        ensures
            final(self).wf(),
            final(self).tabs@.len() == old(self).tabs@.len(),
            final(self).active_tab == old(self).active_tab,
            forall|i: int| 0 <= i < old(self).tabs@.len() && i != tab_idx ==> #[trigger] final(self).tabs@[i] == old(self).tabs@[i],
            row_of(old(self).tabs@[tab_idx as int].panes@, pane_id) matches Some(k)
                && final(self).tabs@[tab_idx as int].panes@ == old(self).tabs@[tab_idx as int].panes@.remove(k),
            forall|x: PaneId| #[trigger] is_numbered(final(self).public_pane_numbers@, x) <==> (is_numbered(old(self).public_pane_numbers@, x) && x != pane_id),
    {
        let ghost before = self.tabs@;
        let mut t = self.tabs.remove(tab_idx);
        proof {
            assert(t == before[tab_idx as int]);
            assert(tab_ok(t));
        }
        let ghost t0 = t;
        let removed = t.remove_row(pane_id);
        proof {
            match removed {
                Some(_) => {
                    let k = row_of(t0.panes@, pane_id).unwrap();
                    lemma_ids_remove(t0.panes@, k);
                    assert(row_ids(t0.panes@)[k] == pane_id);
                    assert forall|x: PaneId| has_pane(t, x) <==> ((has_pane(t0, x) && Some(pane_id) != Some(x)) || None::<PaneId> == Some(x)) by {}
                },
                None => {
                    assert(false);
                },
            }
            lemma_reshape_tab(before, tab_idx as int, t, Some(pane_id), None);
        }
        self.tabs.insert(tab_idx, t);
        proof {
            assert(self.tabs@ =~= before.update(tab_idx as int, t));
            assert(is_numbered(self.public_pane_numbers@, pane_id));
        }
        self.unregister_pane(pane_id);
        proof {
            assert forall|x: PaneId| #[trigger] is_numbered(self.public_pane_numbers@, x) <==> in_some_tab(self.tabs@, x) by {}
        }
    }

    /// Close the focused pane. Returns true if the workspace should close: its
    /// one tab has one pane. A tab's last pane closes the tab.
    pub fn close_focused(&mut self) -> (close_workspace: bool)
        requires
            old(self).wf(),
        ensures
            final(self).wf(),
            ({
                let t = old(self).tabs@[old(self).active_tab as int];
                if t.panes@.len() <= 1 {
                    &&& close_workspace == (old(self).tabs@.len() <= 1)
                    &&& close_workspace ==> final(self).tabs == old(self).tabs
                    &&& !close_workspace ==> final(self).tabs@.len() == old(self).tabs@.len() - 1
                } else {
                    &&& !close_workspace
                    &&& final(self).tabs@.len() == old(self).tabs@.len()
                    &&& row_of(t.panes@, t.focused) matches Some(k)
                        && final(self).tabs@[old(self).active_tab as int].panes@ == t.panes@.remove(k)
                    &&& forall|x: PaneId| #[trigger] is_numbered(final(self).public_pane_numbers@, x) <==> (is_numbered(old(self).public_pane_numbers@, x) && x != t.focused)
                }
            }),
    {
        let pane_count = self.tabs[self.active_tab].pane_count();
        if pane_count <= 1 {
            return self.tabs.len() <= 1 || self.close_active_tab_and_report();
        }
        let focused = self.tabs[self.active_tab].focused;
        proof {
            assert(tab_ok(self.tabs@[self.active_tab as int]));
        }
        self.drop_row(self.active_tab, focused);
        false
    }

    /// Take pane `pane_id` out of this workspace (its terminal stays alive).
    /// Returns true if the workspace should close: the pane is the only pane
    /// of the only tab. A tab's last pane closes the tab.
    pub fn remove_pane(&mut self, pane_id: PaneId) -> (close_workspace: bool)
        requires
            old(self).wf(),
        ensures
            final(self).wf(),
            close_workspace == (in_some_tab(old(self).tabs@, pane_id) && old(self).tabs@.len() <= 1 && old(self).tabs@[0].panes@.len() <= 1),
            close_workspace || !in_some_tab(old(self).tabs@, pane_id) ==> final(self).tabs == old(self).tabs
                && final(self).public_pane_numbers == old(self).public_pane_numbers,
            !close_workspace ==> forall|x: PaneId| #[trigger] in_some_tab(final(self).tabs@, x) <==> (in_some_tab(old(self).tabs@, x) && x != pane_id),
    {
        self.take_pane(pane_id)
    }

    /// Close pane `pane_id`. Returns true if the workspace should close: the
    /// pane is the only pane of the only tab. A tab's last pane closes the tab.
    pub fn close_pane(&mut self, pane_id: PaneId) -> (close_workspace: bool)
        requires
            old(self).wf(),
        ensures
            final(self).wf(),
            close_workspace == (in_some_tab(old(self).tabs@, pane_id) && old(self).tabs@.len() <= 1 && old(self).tabs@[0].panes@.len() <= 1),
            close_workspace || !in_some_tab(old(self).tabs@, pane_id) ==> final(self).tabs == old(self).tabs
                && final(self).public_pane_numbers == old(self).public_pane_numbers,
            !close_workspace ==> forall|x: PaneId| #[trigger] in_some_tab(final(self).tabs@, x) <==> (in_some_tab(old(self).tabs@, x) && x != pane_id),
    {
        self.take_pane(pane_id)
    }

    fn take_pane(&mut self, pane_id: PaneId) -> (close_workspace: bool)
        requires
            old(self).wf(),
        ensures
            final(self).wf(),
            close_workspace == (in_some_tab(old(self).tabs@, pane_id) && old(self).tabs@.len() <= 1 && old(self).tabs@[0].panes@.len() <= 1),
            close_workspace || !in_some_tab(old(self).tabs@, pane_id) ==> final(self).tabs == old(self).tabs
                && final(self).public_pane_numbers == old(self).public_pane_numbers,
            !close_workspace ==> forall|x: PaneId| #[trigger] in_some_tab(final(self).tabs@, x) <==> (in_some_tab(old(self).tabs@, x) && x != pane_id),
    {
        let tab_idx = match self.find_tab_index_for_pane(pane_id) {
            Some(i) => i,
            None => return false,
        };
        let pane_count = self.tabs[tab_idx].pane_count();
        proof {
            assert(tab_ok(self.tabs@[tab_idx as int]));
            assert(in_some_tab(self.tabs@, pane_id));
        }
        if pane_count <= 1 {
            if self.tabs.len() <= 1 {
                proof {
                    assert(tab_idx == 0);
                }
                return true;
            }
            let ghost before = *self;
            proof {
                // The tab's only pane is `pane_id`.
                let t = self.tabs@[tab_idx as int];
                assert forall|x: PaneId| has_pane(t, x) <==> x == pane_id by {
                    if has_pane(t, x) {
                        let k = choose|k: int| 0 <= k < row_ids(t.panes@).len() && row_ids(t.panes@)[k] == x;
                        let k2 = choose|k: int| 0 <= k < row_ids(t.panes@).len() && row_ids(t.panes@)[k] == pane_id;
                        assert(k == 0 && k2 == 0);
                    }
                }
            }
            self.close_tab(tab_idx);
            proof {
                assert forall|x: PaneId| #[trigger] in_some_tab(self.tabs@, x) <==> (in_some_tab(before.tabs@, x) && x != pane_id) by {
                    assert(is_numbered(self.public_pane_numbers@, x) <==> in_some_tab(self.tabs@, x));
                    assert(is_numbered(before.public_pane_numbers@, x) <==> in_some_tab(before.tabs@, x));
                }
            }
            return false;
        }
        let ghost before = *self;
        self.drop_row(tab_idx, pane_id);
        proof {
            assert forall|x: PaneId| #[trigger] in_some_tab(self.tabs@, x) <==> (in_some_tab(before.tabs@, x) && x != pane_id) by {
                assert(is_numbered(self.public_pane_numbers@, x) <==> in_some_tab(self.tabs@, x));
                assert(is_numbered(before.public_pane_numbers@, x) <==> in_some_tab(before.tabs@, x));
            }
        }
        false
    }

    /// Re-attach a kept-alive terminal as a new row, `new_pane`, stacked on
    /// top of `target` within `target`'s tab, tagged with `role`, focused and
    /// given the next public number. Returns the new pane, or `None` if
    /// `target` is not found.
    pub fn reattach_row(&mut self, target: PaneId, terminal_id: TerminalId, role: PaneRole, new_pane: PaneId) -> (r: Option<PaneId>)
        requires
            old(self).wf(),
            !in_some_tab(old(self).tabs@, new_pane),
            old(self).public_pane_numbers@.len() + 2 <= usize::MAX,
        ensures
            final(self).wf(),
            match first_tab(old(self).tabs@, target, 0) {
                Some(i) => {
                    &&& r == Some(new_pane)
                    &&& final(self).tabs@.len() == old(self).tabs@.len()
                    &&& forall|j: int| 0 <= j < old(self).tabs@.len() && j != i ==> #[trigger] final(self).tabs@[j] == old(self).tabs@[j]
                    &&& row_of(old(self).tabs@[i].panes@, target) matches Some(k)
                        && final(self).tabs@[i].panes@ == old(self).tabs@[i].panes@.insert(
                        k,
                        (new_pane, PaneState { attached_terminal_id: terminal_id, seen: true, role }),
                    )
                    &&& final(self).tabs@[i].focused == new_pane
                    &&& final(self).public_pane_numbers@ == old(self).public_pane_numbers@.push(
                        (new_pane, old(self).next_public_pane_number),
                    )
                },
                None => r is None && final(self).tabs == old(self).tabs
                    && final(self).public_pane_numbers == old(self).public_pane_numbers,
            },
            final(self).active_tab == old(self).active_tab,
    {
        let tab_idx = match self.find_tab_index_for_pane(target) {
            Some(i) => i,
            None => return None,
        };
        let ghost before = self.tabs@;
        let mut t = self.tabs.remove(tab_idx);
        proof {
            assert(t == before[tab_idx as int]);
            assert(tab_ok(t));
            assert(!has_pane(t, new_pane));
        }
        let ghost t0 = t;
        let new = t.split_attach_above(target, terminal_id, role, new_pane);
        proof {
            let k = row_of(t0.panes@, target).unwrap();
            lemma_ids_insert(t0.panes@, k, (new_pane, PaneState { attached_terminal_id: terminal_id, seen: true, role }));
            assert forall|x: PaneId| has_pane(t, x) <==> ((has_pane(t0, x) && None::<PaneId> != Some(x)) || Some(new_pane) == Some(x)) by {}
            lemma_reshape_tab(before, tab_idx as int, t, None, Some(new_pane));
        }
        self.tabs.insert(tab_idx, t);
        proof {
            assert(self.tabs@ =~= before.update(tab_idx as int, t));
            assert(!is_numbered(self.public_pane_numbers@, new_pane));
        }
        self.register_new_pane(new);
        proof {
            assert forall|x: PaneId| #[trigger] is_numbered(self.public_pane_numbers@, x) <==> in_some_tab(self.tabs@, x) by {}
        }
        Some(new)
    }
}

impl Workspace {
    /// The active tab, for changing it in place.
    pub fn active_tab_mut(&mut self) -> (t: Option<&mut Tab>)
        ensures
            match t {
                Some(t) => {
                    &&& old(self).active_tab < old(self).tabs@.len()
                    &&& *t == old(self).tabs@[old(self).active_tab as int]
                    &&& final(self).tabs@ == old(self).tabs@.update(old(self).active_tab as int, *final(t))
                },
                None => old(self).active_tab >= old(self).tabs@.len() && final(self).tabs == old(self).tabs,
            },
            final(self).active_tab == old(self).active_tab,
            final(self).public_pane_numbers == old(self).public_pane_numbers,
    {
        if self.active_tab < self.tabs.len() {
            Some(&mut self.tabs[self.active_tab])
        } else {
            None
        }
    }
}

} // verus!
