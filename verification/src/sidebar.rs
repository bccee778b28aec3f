//! The sidebar's decisions: agent status words and attention order, labels of
//! grouped worktree rows, and the grouping of workspaces into repository
//! groups with their primary checkout as header.
use vstd::prelude::*;
use crate::text::{starts_with, starts_with_chars, chars_of, slice_chars, str_eq, string_of};
use crate::workspace::Workspace;

verus! {

/// What an agent in a pane is doing.
#[derive(Debug, Clone, Copy, PartialEq, Eq, Structural)]
pub enum AgentState {
    Idle,
    Working,
    Blocked,
    Unknown,
}

/// How the agent panel orders its entries.
#[derive(Debug, Clone, Copy, PartialEq, Eq, Structural)]
pub enum AgentPanelSort {
    /// Grouped by workspace, in sidebar order.
    Spaces,
    /// Most in need of attention first.
    Priority,
}

/// The word shown for an agent's state; an idle agent the user has not seen
/// since it finished is "done".
pub fn state_label(state: AgentState, seen: bool) -> (s: &'static str)
    ensures
        s@ == match state {
            AgentState::Blocked => "blocked"@,
            AgentState::Working => "working"@,
            AgentState::Idle => if seen { "idle"@ } else { "done"@ },
            AgentState::Unknown => "idle"@,
        },
{
    match state {
        AgentState::Blocked => "blocked",
        AgentState::Working => "working",
        AgentState::Idle => if seen { "idle" } else { "done" },
        AgentState::Unknown => "idle",
    }
}

/// The key under which a custom label for an agent's state is looked up.
pub fn agent_panel_status_key(state: AgentState, seen: bool) -> (s: &'static str)
    ensures
        s@ == match state {
            AgentState::Idle => if seen { "idle"@ } else { "done"@ },
            AgentState::Working => "working"@,
            AgentState::Blocked => "blocked"@,
            AgentState::Unknown => "unknown"@,
        },
{
    match state {
        AgentState::Idle => if seen { "idle" } else { "done" },
        AgentState::Working => "working",
        AgentState::Blocked => "blocked",
        AgentState::Unknown => "unknown",
    }
}

/// The label of the agent panel's sort toggle.
pub fn agent_panel_sort_label(sort: AgentPanelSort) -> (s: &'static str)
    ensures
        s@ == match sort {
            AgentPanelSort::Spaces => "grouped"@,
            AgentPanelSort::Priority => "priority"@,
        },
{
    match sort {
        AgentPanelSort::Spaces => "grouped",
        AgentPanelSort::Priority => "priority",
    }
}

/// How urgently an agent needs the user: blocked, then finished unseen, then
/// working, then idle, then unknown.
pub open spec fn attention(state: AgentState, seen: bool) -> u8 {
    match state {
        AgentState::Blocked => 4,
        AgentState::Idle => if seen { 1 } else { 3 },
        AgentState::Working => 2,
        AgentState::Unknown => 0,
    }
}

/// How urgently an agent needs the user (higher is more urgent).
pub fn workspace_attention_priority(state: AgentState, seen: bool) -> (p: u8)
    ensures
        p == attention(state, seen),
{
    match state {
        AgentState::Blocked => 4,
        AgentState::Idle => if seen { 1 } else { 3 },
        AgentState::Working => 2,
        AgentState::Unknown => 0,
    }
}

/// The label of a worktree row nested under its repository: a custom name
/// wins; otherwise the branch, without a `worktree/` prefix; otherwise the
/// workspace label.
pub open spec fn grouped_child_label(label: Seq<char>, branch: Option<Seq<char>>, has_custom_name: bool) -> Seq<char> {
    if has_custom_name {
        label
    } else {
        match branch {
            None => label,
            Some(b) => if starts_with(b, "worktree/"@) {
                b.subrange("worktree/"@.len() as int, b.len() as int)
            } else {
                b
            },
        }
    }
}

/// The text of an optional string.
pub open spec fn opt_text(o: Option<&str>) -> Option<Seq<char>> {
    match o {
        Some(s) => Some(s@),
        None => None,
    }
}

/// The label of a worktree row nested under its repository.
pub fn grouped_child_display_label(label: &str, branch: Option<&str>, has_custom_name: bool) -> (s: String)
    ensures
        s@ == grouped_child_label(label@, opt_text(branch), has_custom_name),
{
    if has_custom_name {
        return label.to_owned();
    }
    let b = match branch {
        Some(b) => b,
        None => return label.to_owned(),
    };
    let v = chars_of(b);
    let prefix = chars_of("worktree/");
    if starts_with_chars(&v, &prefix) {
        string_of(&slice_chars(&v, prefix.len(), v.len()))
    } else {
        b.to_owned()
    }
}

/// One row of the sidebar's workspace list.
#[derive(Debug, Clone, PartialEq, Eq)]
pub enum WorkspaceListEntry {
    /// A workspace row; `indented` when it is a worktree nested in a group.
    Workspace { ws_idx: usize, indented: bool },
    /// A synthesized repository group header, shown above linked worktrees
    /// whose primary checkout is not open as its own workspace.
    RepoHeader { key: String },
}

/// Whether the entry after `idx` is a nested worktree row.
pub fn next_entry_is_indented_workspace(entries: &Vec<WorkspaceListEntry>, idx: usize) -> (r: bool)
    ensures
        r == (idx < usize::MAX && idx + 1 < entries@.len() && entries@[idx + 1] matches WorkspaceListEntry::Workspace {
            indented: true,
            ..
        }),
{
    let next = idx.saturating_add(1);
    if idx == usize::MAX || next >= entries.len() {
        return false;
    }
    match &entries[next] {
        WorkspaceListEntry::Workspace { indented, .. } => *indented,
        WorkspaceListEntry::RepoHeader { .. } => false,
    }
}

// ---------------------------------------------------------------------------
// Repository groups
// ---------------------------------------------------------------------------

/// The repository group of a workspace: key, repository root and whether it
/// is a linked worktree. Worktree membership takes precedence over the cached
/// git space.
pub open spec fn group_of(ws: Workspace) -> Option<(Seq<char>, Seq<char>, bool)> {
    match ws.worktree_space {
        Some(s) => Some((s.key@, s.repo_root@, s.is_linked_worktree)),
        None => match ws.cached_git_space {
            Some(s) => Some((s.key@, s.repo_root@, s.is_linked_worktree)),
            None => None,
        },
    }
}

/// The repository group of a workspace (key, repository root, linked?).
pub fn workspace_repo_group(ws: &Workspace) -> (r: Option<(&String, &String, bool)>)
    ensures
        match r {
            Some((k, root, linked)) => group_of(*ws) == Some((k@, root@, linked)),
            None => group_of(*ws) is None,
        },
{
    if let Some(space) = &ws.worktree_space {
        return Some((&space.key, &space.repo_root, space.is_linked_worktree));
    }
    if let Some(space) = &ws.cached_git_space {
        return Some((&space.key, &space.repo_root, space.is_linked_worktree));
    }
    None
}

/// Workspace `i` is a linked worktree of repository `key`.
pub open spec fn is_child(gs: Seq<Option<(Seq<char>, Seq<char>, bool)>>, i: int, key: Seq<char>) -> bool {
    gs[i] matches Some((k, _, linked)) && linked && k == key
}

/// The linked worktrees of repository `key` among workspaces `..upto`, in order.
pub open spec fn children_of(gs: Seq<Option<(Seq<char>, Seq<char>, bool)>>, key: Seq<char>, upto: int) -> Seq<usize>
    decreases upto,
{
    if upto <= 0 {
        Seq::empty()
    } else if is_child(gs, upto - 1, key) {
        children_of(gs, key, upto - 1).push((upto - 1) as usize)
    } else {
        children_of(gs, key, upto - 1)
    }
}

/// The repository root of group `key`: that of its first linked worktree.
pub open spec fn group_root(gs: Seq<Option<(Seq<char>, Seq<char>, bool)>>, key: Seq<char>) -> Seq<char> {
    let cs = children_of(gs, key, gs.len() as int);
    if cs.len() > 0 {
        gs[cs[0] as int].unwrap().1
    } else {
        Seq::empty()
    }
}

/// The first of workspaces `from..` that is the primary checkout of group
/// `key`: not linked, same key, and the group's repository root.
pub open spec fn primary_from(gs: Seq<Option<(Seq<char>, Seq<char>, bool)>>, key: Seq<char>, from: int) -> Option<int>
    decreases gs.len() - from,
{
    if from < 0 || from >= gs.len() {
        None
    } else if gs[from] matches Some((k, root, linked)) && !linked && k == key && root == group_root(gs, key) {
        Some(from)
    } else {
        primary_from(gs, key, from + 1)
    }
}

/// The open primary checkout heading group `key`, if the group has linked
/// worktrees at all.
pub open spec fn primary_of(gs: Seq<Option<(Seq<char>, Seq<char>, bool)>>, key: Seq<char>) -> Option<int> {
    if children_of(gs, key, gs.len() as int).len() > 0 {
        primary_from(gs, key, 0)
    } else {
        None
    }
}

/// The place of workspace `i` in the grouping: a linked worktree of its
/// group (`true`), the primary checkout heading its group (`false`), or
/// standalone (`None`).
pub open spec fn role_of(gs: Seq<Option<(Seq<char>, Seq<char>, bool)>>, i: int) -> Option<(Seq<char>, bool)> {
    match gs[i] {
        Some((key, _, linked)) => if linked {
            Some((key, true))
        } else if primary_of(gs, key) == Some(i) {
            Some((key, false))
        } else {
            None
        },
        None => None,
    }
}

/// A row of the list as plain values: a workspace row (index, indented) or a
/// synthesized header (its key).
pub open spec fn row_view(e: WorkspaceListEntry) -> (int, bool, Option<Seq<char>>) {
    match e {
        WorkspaceListEntry::Workspace { ws_idx, indented } => (ws_idx as int, indented, None),
        WorkspaceListEntry::RepoHeader { key } => (0, false, Some(key@)),
    }
}

/// The group whose rows the highlighted workspace belongs to.
pub open spec fn active_group(gs: Seq<Option<(Seq<char>, Seq<char>, bool)>>, visible: Option<usize>) -> Option<Seq<char>> {
    match visible {
        Some(v) => if v < gs.len() {
            match role_of(gs, v as int) {
                Some((key, _)) => Some(key),
                None => None,
            }
        } else {
            None
        },
        None => None,
    }
}

/// The rows of group `key`: its header (the open primary checkout, or a
/// synthesized header), then its linked worktrees indented; a collapsed group
/// shows only the highlighted worktree, when it is one of its own.
pub open spec fn group_rows(
    gs: Seq<Option<(Seq<char>, Seq<char>, bool)>>,
    key: Seq<char>,
    collapsed: Seq<Seq<char>>,
    visible: Option<usize>,
) -> Seq<(int, bool, Option<Seq<char>>)> {
    let primary = primary_of(gs, key);
    let header = match primary {
        Some(p) => (p, false, None),
        None => (0int, false, Some(key)),
    };
    let kids = children_of(gs, key, gs.len() as int);
    if collapsed.contains(key) {
        match visible {
            Some(v) => if primary != Some(v as int) && kids.contains(v) && active_group(gs, visible) == Some(key) {
                seq![header, (v as int, true, None)]
            } else {
                seq![header]
            },
            None => seq![header],
        }
    } else {
        seq![header] + kids.map_values(|c: usize| (c as int, true, None::<Seq<char>>))
    }
}

/// Workspace `j` belongs to group `key` (as worktree or primary checkout).
pub open spec fn in_group(gs: Seq<Option<(Seq<char>, Seq<char>, bool)>>, j: int, key: Seq<char>) -> bool {
    match role_of(gs, j) {
        Some((k, _)) => k == key,
        None => false,
    }
}

/// Some workspace before `i` belongs to group `key`.
pub open spec fn emitted_before(gs: Seq<Option<(Seq<char>, Seq<char>, bool)>>, key: Seq<char>, i: int) -> bool {
    exists|j: int| 0 <= j < i && #[trigger] in_group(gs, j, key)
}

/// The list rows contributed by workspaces `..upto`: a standalone workspace
/// gives its own row; the first workspace of a group gives the group's rows.
pub open spec fn list_rows(
    gs: Seq<Option<(Seq<char>, Seq<char>, bool)>>,
    collapsed: Seq<Seq<char>>,
    visible: Option<usize>,
    upto: int,
) -> Seq<(int, bool, Option<Seq<char>>)>
    decreases upto,
{
    if upto <= 0 {
        Seq::empty()
    } else {
        let before = list_rows(gs, collapsed, visible, upto - 1);
        match role_of(gs, upto - 1) {
            None => before.push((upto - 1, false, None)),
            Some((key, _)) => if emitted_before(gs, key, upto - 1) {
                before
            } else {
                before + group_rows(gs, key, collapsed, visible)
            },
        }
    }
}

/// The groups of a list of workspaces.
pub open spec fn groups_of(wss: Seq<Workspace>) -> Seq<Option<(Seq<char>, Seq<char>, bool)>> {
    wss.map_values(|ws: Workspace| group_of(ws))
}

/// A group as plain values.
pub open spec fn gview(g: Option<(String, String, bool)>) -> Option<(Seq<char>, Seq<char>, bool)> {
    match g {
        Some((k, r, l)) => Some((k@, r@, l)),
        None => None,
    }
}

/// The texts of a list of strings.
pub open spec fn key_texts(v: Seq<String>) -> Seq<Seq<char>> {
    v.map_values(|s: String| s@)
}

fn collect_groups(wss: &Vec<Workspace>) -> (gv: Vec<Option<(String, String, bool)>>)
    ensures
        gv@.map_values(|g: Option<(String, String, bool)>| gview(g)) == groups_of(wss@),
{
    let mut gv: Vec<Option<(String, String, bool)>> = Vec::new();
    let mut i: usize = 0;
    while i < wss.len()
        invariant
            i <= wss@.len(),
            gv@.map_values(|g: Option<(String, String, bool)>| gview(g)) == groups_of(wss@).subrange(0, i as int),
        decreases wss.len() - i,
    {
        let g = match workspace_repo_group(&wss[i]) {
            Some((k, r, l)) => Some((k.clone(), r.clone(), l)),
            None => None,
        };
        let ghost before = gv@;
        gv.push(g);
        proof {
            assert(gv@.map_values(|g: Option<(String, String, bool)>| gview(g)) =~= before.map_values(
                |g: Option<(String, String, bool)>| gview(g),
            ).push(gview(g)));
            assert(groups_of(wss@).subrange(0, i + 1 as int) =~= groups_of(wss@).subrange(0, i as int).push(group_of(wss@[i as int])));
        }
        i = i + 1;
    }
    proof {
        assert(groups_of(wss@).subrange(0, wss@.len() as int) =~= groups_of(wss@));
    }
    gv
}

fn children_vec(gv: &Vec<Option<(String, String, bool)>>, key: &str) -> (cs: Vec<usize>)
    ensures
        cs@ == children_of(gv@.map_values(|g: Option<(String, String, bool)>| gview(g)), key@, gv@.len() as int),
{
    let ghost gs = gv@.map_values(|g: Option<(String, String, bool)>| gview(g));
    let mut cs: Vec<usize> = Vec::new();
    let mut i: usize = 0;
    while i < gv.len()
        invariant
            gs == gv@.map_values(|g: Option<(String, String, bool)>| gview(g)),
            i <= gv@.len(),
            cs@ == children_of(gs, key@, i as int),
        decreases gv.len() - i,
    {
        proof {
            assert(gs[i as int] == gview(gv@[i as int]));
        }
        let hit = match &gv[i] {
            Some((k, _, linked)) => *linked && str_eq(k.as_str(), key),
            None => false,
        };
        if hit {
            cs.push(i);
        }
        i = i + 1;
    }
    cs
}

fn primary_index(gv: &Vec<Option<(String, String, bool)>>, key: &str) -> (r: Option<usize>)
    ensures
        opt_usize(r) == primary_of(gv@.map_values(|g: Option<(String, String, bool)>| gview(g)), key@),
{
    let ghost gs = gv@.map_values(|g: Option<(String, String, bool)>| gview(g));
    let cs = children_vec(gv, key);
    if cs.len() == 0 {
        return None;
    }
    proof {
        assert(gs.len() == gv.len());
        lemma_children_in_range(gs, key@, gs.len() as int);
        assert(gs[cs@[0] as int] == gview(gv@[cs@[0] as int]));
        lemma_children_are_children(gs, key@, gs.len() as int);
    }
    let root: &String = match &gv[cs[0]] {
        Some((_, r, _)) => r,
        None => {
            proof {
                assert(is_child(gs, cs@[0] as int, key@));
            }
            return None;
        },
    };
    let n = gv.len();
    let mut i: usize = n;
    let mut found: Option<usize> = None;
    while i > 0
        invariant
            gs == gv@.map_values(|g: Option<(String, String, bool)>| gview(g)),
            n == gv@.len(),
            root@ == group_root(gs, key@),
            i <= n,
            opt_usize(found) == primary_from(gs, key@, i as int),
        decreases i,
    {
        i = i - 1;
        proof {
            assert(gs[i as int] == gview(gv@[i as int]));
        }
        let hit = match &gv[i] {
            Some((k, r, linked)) => !*linked && str_eq(k.as_str(), key) && str_eq(r.as_str(), root.as_str()),
            None => false,
        };
        if hit {
            found = Some(i);
        }
    }
    found
}

proof fn lemma_children_in_range(gs: Seq<Option<(Seq<char>, Seq<char>, bool)>>, key: Seq<char>, upto: int)
    requires
        0 <= upto <= gs.len(),
    ensures
        forall|j: int| 0 <= j < children_of(gs, key, upto).len() ==> #[trigger] children_of(gs, key, upto)[j] < upto,
    decreases upto,
{
    if upto > 0 {
        lemma_children_in_range(gs, key, upto - 1);
        let prev = children_of(gs, key, upto - 1);
        if is_child(gs, upto - 1, key) {
            assert forall|j: int| 0 <= j < prev.len() + 1 implies #[trigger] prev.push((upto - 1) as usize)[j] < upto by {
                if j < prev.len() {
                    assert(prev.push((upto - 1) as usize)[j] == prev[j]);
                }
            }
        }
    }
}

proof fn lemma_children_are_children(gs: Seq<Option<(Seq<char>, Seq<char>, bool)>>, key: Seq<char>, upto: int)
    requires
        0 <= upto <= gs.len(),
        gs.len() <= usize::MAX,
    ensures
        forall|j: int| 0 <= j < children_of(gs, key, upto).len() ==> is_child(gs, #[trigger] children_of(gs, key, upto)[j] as int, key),
        forall|c: int| 0 <= c < upto && is_child(gs, c, key) ==> #[trigger] children_of(gs, key, upto).contains(c as usize),
    decreases upto,
{
    if upto > 0 {
        lemma_children_are_children(gs, key, upto - 1);
        let prev = children_of(gs, key, upto - 1);
        if is_child(gs, upto - 1, key) {
            let cur = prev.push((upto - 1) as usize);
            assert forall|j: int| 0 <= j < prev.len() implies #[trigger] cur[j] == prev[j] by {}
            assert(cur[prev.len() as int] as int == upto - 1);
            assert forall|c: int| 0 <= c < upto && is_child(gs, c, key) implies #[trigger] cur.contains(c as usize) by {
                if c < upto - 1 {
                    assert(prev.contains(c as usize));
                    let j = choose|j: int| 0 <= j < prev.len() && prev[j] == c as usize;
                    assert(cur[j] == c as usize);
                } else {
                    assert(cur[prev.len() as int] == c as usize);
                }
            }
        }
    }
}

/// An optional index as an optional integer.
pub open spec fn opt_usize(o: Option<usize>) -> Option<int> {
    match o {
        Some(u) => Some(u as int),
        None => None,
    }
}

fn role_at(gv: &Vec<Option<(String, String, bool)>>, i: usize) -> (r: Option<(String, bool)>)
    requires
        i < gv@.len(),
    ensures
        match r {
            Some((k, c)) => role_of(gv@.map_values(|g: Option<(String, String, bool)>| gview(g)), i as int) == Some((k@, c)),
            None => role_of(gv@.map_values(|g: Option<(String, String, bool)>| gview(g)), i as int) is None,
        },
{
    let ghost gs = gv@.map_values(|g: Option<(String, String, bool)>| gview(g));
    proof {
        assert(gs[i as int] == gview(gv@[i as int]));
    }
    match &gv[i] {
        Some((k, _, linked)) => {
            if *linked {
                Some((k.clone(), true))
            } else if primary_index(gv, k.as_str()) == Some(i) {
                Some((k.clone(), false))
            } else {
                None
            }
        },
        None => None,
    }
}

fn emitted_before_exec(gv: &Vec<Option<(String, String, bool)>>, key: &str, i: usize) -> (r: bool)
    requires
        i <= gv@.len(),
    ensures
        r == emitted_before(gv@.map_values(|g: Option<(String, String, bool)>| gview(g)), key@, i as int),
{
    let ghost gs = gv@.map_values(|g: Option<(String, String, bool)>| gview(g));
    let mut j: usize = 0;
    while j < i
        invariant
            gs == gv@.map_values(|g: Option<(String, String, bool)>| gview(g)),
            i <= gv@.len(),
            j <= i,
            forall|q: int| 0 <= q < j ==> !#[trigger] in_group(gs, q, key@),
        decreases i - j,
    {
        match role_at(gv, j) {
            Some((k, _)) => {
                if str_eq(k.as_str(), key) {
                    proof {
                        assert(in_group(gs, j as int, key@));
                    }
                    return true;
                }
            },
            None => {},
        }
        j = j + 1;
    }
    false
}

pub(crate) fn has_key(keys: &Vec<String>, key: &str) -> (r: bool)
    ensures
        r == key_texts(keys@).contains(key@),
{
    let ghost ts = key_texts(keys@);
    let mut k: usize = 0;
    while k < keys.len()
        invariant
            ts == key_texts(keys@),
            k <= keys@.len(),
            forall|q: int| 0 <= q < k ==> ts[q] != key@,
        decreases keys.len() - k,
    {
        if str_eq(keys[k].as_str(), key) {
            proof {
                assert(ts[k as int] == key@);
            }
            return true;
        }
        k = k + 1;
    }
    false
}

/// The workspace whose group stays open when its group is collapsed: the
/// highlighted one while navigating, else the active one.
pub open spec fn visible_index(navigating: bool, selected: usize, active: Option<usize>) -> Option<usize> {
    if navigating {
        Some(selected)
    } else {
        active
    }
}

/// The rows of the sidebar's workspace list. Linked worktrees are grouped by
/// repository under the open primary checkout (or a synthesized header when
/// none is open); a standalone workspace is its own row; groups sit at the
/// place of their first workspace; a collapsed group (key in
/// `collapsed_space_keys`) keeps only the highlighted worktree visible.
pub fn workspace_list_entries(
    workspaces: &Vec<Workspace>,
    collapsed_space_keys: &Vec<String>,
    navigating: bool,
    selected: usize,
    active: Option<usize>,
) -> (entries: Vec<WorkspaceListEntry>)
    ensures
        entries@.map_values(|e: WorkspaceListEntry| row_view(e)) == list_rows(
            groups_of(workspaces@),
            key_texts(collapsed_space_keys@),
            visible_index(navigating, selected, active),
            workspaces@.len() as int,
        ),
{
    let gv = collect_groups(workspaces);
    let ghost gs = gv@.map_values(|g: Option<(String, String, bool)>| gview(g));
    let ghost collapsed = key_texts(collapsed_space_keys@);
    let visible = if navigating { Some(selected) } else { active };
    let active_key: Option<String> = match visible {
        Some(v) => if v < gv.len() {
            match role_at(&gv, v) {
                Some((k, _)) => Some(k),
                None => None,
            }
        } else {
            None
        },
        None => None,
    };
    proof {
        assert(gs.len() == workspaces@.len());
        assert(match active_key {
            Some(k) => active_group(gs, visible) == Some(k@),
            None => active_group(gs, visible) is None,
        });
    }
    let n = gv.len();
    let mut entries: Vec<WorkspaceListEntry> = Vec::new();
    let mut i: usize = 0;
    while i < n
        invariant
            n == gv@.len(),
            gs == gv@.map_values(|g: Option<(String, String, bool)>| gview(g)),
            gs == groups_of(workspaces@),
            collapsed == key_texts(collapsed_space_keys@),
            match active_key {
                Some(k) => active_group(gs, visible) == Some(k@),
                None => active_group(gs, visible) is None,
            },
            i <= n,
            entries@.map_values(|e: WorkspaceListEntry| row_view(e)) == list_rows(gs, collapsed, visible, i as int),
        decreases n - i,
    {
        let ghost before = entries@.map_values(|e: WorkspaceListEntry| row_view(e));
        match role_at(&gv, i) {
            None => {
                entries.push(WorkspaceListEntry::Workspace { ws_idx: i, indented: false });
                proof {
                    assert(entries@.map_values(|e: WorkspaceListEntry| row_view(e)) =~= before.push((i as int, false, None)));
                }
            },
            Some((key, _)) => {
                if !emitted_before_exec(&gv, key.as_str(), i) {
                    let primary = primary_index(&gv, key.as_str());
                    match primary {
                        Some(p) => entries.push(WorkspaceListEntry::Workspace { ws_idx: p, indented: false }),
                        None => entries.push(WorkspaceListEntry::RepoHeader { key: key.clone() }),
                    }
                    let ghost header = match opt_usize(primary) {
                        Some(p) => (p, false, None),
                        None => (0int, false, Some(key@)),
                    };
                    proof {
                        assert(entries@.map_values(|e: WorkspaceListEntry| row_view(e)) =~= before.push(header));
                    }
                    let kids = children_vec(&gv, key.as_str());
                    let ghost mid = entries@.map_values(|e: WorkspaceListEntry| row_view(e));
                    if has_key(collapsed_space_keys, key.as_str()) {
                        let mut extra = false;
                        if let Some(v) = visible {
                            let same_group = match &active_key {
                                Some(ak) => str_eq(ak.as_str(), key.as_str()),
                                None => false,
                            };
                            let mut in_kids = false;
                            let mut q: usize = 0;
                            while q < kids.len()
                                invariant
                                    q <= kids@.len(),
                                    in_kids == kids@.subrange(0, q as int).contains(v),
                                decreases kids.len() - q,
                            {
                                proof {
                                    assert(kids@.subrange(0, q + 1 as int) =~= kids@.subrange(0, q as int).push(kids@[q as int]));
                                    vstd::seq_lib::lemma_seq_contains_after_push(kids@.subrange(0, q as int), kids@[q as int], v);
                                }
                                if kids[q] == v {
                                    in_kids = true;
                                }
                                q = q + 1;
                            }
                            proof {
                                assert(kids@.subrange(0, kids@.len() as int) =~= kids@);
                            }
                            if primary != Some(v) && in_kids && same_group {
                                entries.push(WorkspaceListEntry::Workspace { ws_idx: v, indented: true });
                                extra = true;
                                proof {
                                    assert(entries@.map_values(|e: WorkspaceListEntry| row_view(e)) =~= mid.push((v as int, true, None)));
                                }
                            }
                        }
                        proof {
                            assert(group_rows(gs, key@, collapsed, visible) =~= if extra {
                                seq![header, (visible.unwrap() as int, true, None)]
                            } else {
                                seq![header]
                            });
                        }
                    } else {
                        let mut q: usize = 0;
                        while q < kids.len()
                            invariant
                                q <= kids@.len(),
                                entries@.map_values(|e: WorkspaceListEntry| row_view(e)) == mid + kids@.subrange(0, q as int).map_values(
                                    |c: usize| (c as int, true, None::<Seq<char>>),
                                ),
                            decreases kids.len() - q,
                        {
                            let ghost prev = entries@.map_values(|e: WorkspaceListEntry| row_view(e));
                            entries.push(WorkspaceListEntry::Workspace { ws_idx: kids[q], indented: true });
                            proof {
                                assert(entries@.map_values(|e: WorkspaceListEntry| row_view(e)) =~= prev.push((kids@[q as int] as int, true, None)));
                                assert(kids@.subrange(0, q + 1 as int).map_values(|c: usize| (c as int, true, None::<Seq<char>>)) =~= kids@.subrange(0, q as int).map_values(
                                    |c: usize| (c as int, true, None::<Seq<char>>),
                                ).push((kids@[q as int] as int, true, None)));
                            }
                            q = q + 1;
                        }
                        proof {
                            assert(kids@.subrange(0, kids@.len() as int) =~= kids@);
                            assert(group_rows(gs, key@, collapsed, visible) =~= seq![header] + kids@.map_values(|c: usize| (c as int, true, None::<Seq<char>>)));
                        }
                    }
                    proof {
                        assert(entries@.map_values(|e: WorkspaceListEntry| row_view(e)) =~= before + group_rows(gs, key@, collapsed, visible));
                    }
                }
            },
        }
        i = i + 1;
    }
    entries
}

/// For a primary checkout heading a group of at least two workspaces: the
/// group's key and whether it is collapsed.
pub fn workspace_parent_group_state(
    workspaces: &Vec<Workspace>,
    collapsed_space_keys: &Vec<String>,
    ws_idx: usize,
) -> (r: Option<(String, bool)>)
    ensures
        match r {
            Some((key, collapsed)) => {
                &&& heads_group(workspaces@, ws_idx as int)
                &&& workspaces@[ws_idx as int].worktree_space.unwrap().key == key
                &&& collapsed == key_texts(collapsed_space_keys@).contains(key@)
            },
            None => !heads_group(workspaces@, ws_idx as int),
        },
{
    if ws_idx >= workspaces.len() {
        return None;
    }
    let space = match &workspaces[ws_idx].worktree_space {
        Some(s) => s,
        None => return None,
    };
    if space.is_linked_worktree {
        return None;
    }
    let mut count: usize = 0;
    let mut i: usize = 0;
    while i < workspaces.len()
        invariant
            i <= workspaces@.len(),
            count == members(workspaces@, space.key@, i as int),
            count <= i,
        decreases workspaces.len() - i,
    {
        let hit = match &workspaces[i].worktree_space {
            Some(m) => str_eq(m.key.as_str(), space.key.as_str()),
            None => false,
        };
        if hit {
            count = count + 1;
        }
        i = i + 1;
    }
    if count >= 2 {
        Some((space.key.clone(), has_key(collapsed_space_keys, space.key.as_str())))
    } else {
        None
    }
}

/// Workspace `i` is the (non-linked) explicit member heading a group of at
/// least two members.
pub open spec fn heads_group(wss: Seq<Workspace>, i: int) -> bool {
    0 <= i < wss.len() && match wss[i].worktree_space {
        Some(space) => !space.is_linked_worktree && members(wss, space.key@, wss.len() as int) >= 2,
        None => false,
    }
}

/// How many of workspaces `..upto` are explicit members of group `key`.
pub open spec fn members(wss: Seq<Workspace>, key: Seq<char>, upto: int) -> nat
    decreases upto,
{
    if upto <= 0 {
        0
    } else {
        members(wss, key, upto - 1) + if wss[upto - 1].worktree_space matches Some(m) && m.key@ == key { 1nat } else { 0nat }
    }
}

// ---------------------------------------------------------------------------
// Who heads a group
// ---------------------------------------------------------------------------

/// Workspace `w` heads a group whose linked worktree `c` is listed under it:
/// `w` is not linked, and its repository root is that of the group's (first)
/// linked worktree; `c` is a linked worktree with `w`'s key.
pub open spec fn heads_group_of(gs: Seq<Option<(Seq<char>, Seq<char>, bool)>>, w: int, c: int) -> bool {
    match gs[w] {
        Some((key, root, linked)) => !linked && root == group_root(gs, key) && is_child(gs, c, key),
        None => false,
    }
}

/// Every workspace row directly followed by an indented row in `rows` heads
/// the group of that row.
pub open spec fn headers_ok(gs: Seq<Option<(Seq<char>, Seq<char>, bool)>>, rows: Seq<(int, bool, Option<Seq<char>>)>) -> bool {
    forall|k: int|
        0 <= k && k + 1 < rows.len() && !(#[trigger] rows[k]).1 && rows[k].2 is None && rows[k + 1].1 ==> heads_group_of(
            gs,
            rows[k].0,
            rows[k + 1].0,
        )
}

proof fn lemma_children_of_are_children(gs: Seq<Option<(Seq<char>, Seq<char>, bool)>>, key: Seq<char>, upto: int)
    requires
        upto <= gs.len() <= usize::MAX,
    ensures
        forall|j: int| 0 <= j < children_of(gs, key, upto).len() ==> is_child(gs, #[trigger] children_of(gs, key, upto)[j] as int, key),
    decreases upto,
{
    if upto > 0 {
        lemma_children_of_are_children(gs, key, upto - 1);
        let prev = children_of(gs, key, upto - 1);
        if is_child(gs, upto - 1, key) {
            assert forall|j: int| 0 <= j < prev.len() + 1 implies is_child(gs, #[trigger] prev.push((upto - 1) as usize)[j] as int, key) by {
                if j < prev.len() {
                    assert(prev.push((upto - 1) as usize)[j] == prev[j]);
                }
            }
        }
    }
}

proof fn lemma_primary_from_is_primary(gs: Seq<Option<(Seq<char>, Seq<char>, bool)>>, key: Seq<char>, from: int)
    ensures
        primary_from(gs, key, from) matches Some(p) ==> (gs[p] matches Some((k, root, linked)) && !linked && k == key
            && root == group_root(gs, key)),
    decreases gs.len() - from,
{
    if 0 <= from < gs.len() {
        lemma_primary_from_is_primary(gs, key, from + 1);
    }
}

proof fn lemma_group_rows_headers(
    gs: Seq<Option<(Seq<char>, Seq<char>, bool)>>,
    key: Seq<char>,
    collapsed: Seq<Seq<char>>,
    visible: Option<usize>,
)
    requires
        gs.len() <= usize::MAX,
    ensures
        headers_ok(gs, group_rows(gs, key, collapsed, visible)),
        group_rows(gs, key, collapsed, visible).len() > 0,
        !group_rows(gs, key, collapsed, visible)[0].1,
{
    let primary = primary_of(gs, key);
    let header = match primary {
        Some(p) => (p, false, None),
        None => (0int, false, Some(key)),
    };
    let kids = children_of(gs, key, gs.len() as int);
    let rows = group_rows(gs, key, collapsed, visible);
    lemma_children_of_are_children(gs, key, gs.len() as int);
    lemma_primary_from_is_primary(gs, key, 0);
    let km = kids.map_values(|c: usize| (c as int, true, None::<Seq<char>>));
    assert forall|k: int|
        0 <= k && k + 1 < rows.len() && !(#[trigger] rows[k]).1 && rows[k].2 is None && rows[k + 1].1 implies heads_group_of(
        gs,
        rows[k].0,
        rows[k + 1].0,
    ) by {
        if collapsed.contains(key) {
            let v = visible.unwrap();
            assert(k == 0);
            assert(kids.contains(v));
            let j = choose|j: int| 0 <= j < kids.len() && kids[j] == v;
            assert(is_child(gs, kids[j] as int, key));
        } else {
            assert(rows == seq![header] + km);
            if k == 0 {
                assert(rows[1] == km[0]);
                assert(is_child(gs, kids[0] as int, key));
            } else {
                assert(rows[k] == km[k - 1]);
            }
        }
    }
    if !collapsed.contains(key) {
        assert(rows == seq![header] + km);
        assert(rows[0] == header);
    }
}

proof fn lemma_headers_concat(
    gs: Seq<Option<(Seq<char>, Seq<char>, bool)>>,
    a: Seq<(int, bool, Option<Seq<char>>)>,
    b: Seq<(int, bool, Option<Seq<char>>)>,
)
    requires
        headers_ok(gs, a),
        headers_ok(gs, b),
        b.len() > 0 ==> !b[0].1,
    ensures
        headers_ok(gs, a + b),
{
    let c = a + b;
    assert forall|k: int|
        0 <= k && k + 1 < c.len() && !(#[trigger] c[k]).1 && c[k].2 is None && c[k + 1].1 implies heads_group_of(
        gs,
        c[k].0,
        c[k + 1].0,
    ) by {
        if k + 1 < a.len() {
            assert(c[k] == a[k] && c[k + 1] == a[k + 1]);
        } else if k + 1 == a.len() {
            assert(c[k + 1] == b[0]);
        } else {
            assert(c[k] == b[k - a.len()] && c[k + 1] == b[k + 1 - a.len()]);
        }
    }
}

/// The workspace heading a group in the sidebar list is its primary
/// checkout: whenever a workspace row is directly followed by an indented
/// worktree row, the workspace is not a linked worktree, has the same key as
/// that worktree, and has the repository root of the group's linked
/// worktrees. A non-linked workspace sharing only the key, with another
/// repository root, never has a worktree listed under it, whatever its
/// position.
pub proof fn lemma_group_heads_are_primary_checkouts(
    gs: Seq<Option<(Seq<char>, Seq<char>, bool)>>,
    collapsed: Seq<Seq<char>>,
    visible: Option<usize>,
    upto: int,
)
    requires
        gs.len() <= usize::MAX,
    ensures
        headers_ok(gs, list_rows(gs, collapsed, visible, upto)),
    decreases upto,
{
    if upto > 0 {
        lemma_group_heads_are_primary_checkouts(gs, collapsed, visible, upto - 1);
        let before = list_rows(gs, collapsed, visible, upto - 1);
        match role_of(gs, upto - 1) {
            None => {
                let one = seq![(upto - 1, false, None::<Seq<char>>)];
                assert(before.push((upto - 1, false, None)) == before + one);
                lemma_headers_concat(gs, before, one);
            },
            Some((key, _)) => if !emitted_before(gs, key, upto - 1) {
                lemma_group_rows_headers(gs, key, collapsed, visible);
                lemma_headers_concat(gs, before, group_rows(gs, key, collapsed, visible));
            },
        }
    }
}

} // verus!
