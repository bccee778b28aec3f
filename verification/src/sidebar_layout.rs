//! Where the sidebar's sections, list bodies and rows sit on screen: the
//! body of each section below its header, how many entries fit, the scroll
//! metrics a scrollbar is drawn from, the clickable areas of the workspace
//! list, and the row a dragged workspace would be dropped before.
use vstd::prelude::*;
use crate::chooser::{min16, sat_sub16, Rect};
use crate::sidebar::{agent_panel_sort_label, has_key, key_texts, AgentPanelSort, WorkspaceListEntry};
use crate::workspace::Workspace;

verus! {

/// Rows above the workspace list: the section title and a blank row.
pub const WORKSPACE_SECTION_HEADER_ROWS: u16 = 2;
/// Rows above the agent panel: separator, title and a blank row.
pub const AGENT_PANEL_HEADER_ROWS: u16 = 3;
/// Rows above the pull-request inbox list.
pub const PR_INBOX_HEADER_ROWS: u16 = 3;
/// Rows one inbox entry takes: title, repository line and a gap.
pub const PR_ROW_HEIGHT: u16 = 3;
/// Height of a synthesized repository header row.
pub const REPO_HEADER_ROW_HEIGHT: u16 = 1;
/// Height of a nested worktree row: its name and its branch line.
pub const CHILD_ROW_HEIGHT: u16 = 2;
/// Widest the expand caret at the right of a worktree row gets.
pub const CARET_WIDTH: u16 = 6;

/// `a + b`, or the largest cell count when that overflows.
pub open spec fn sat_add16(a: u16, b: u16) -> u16 {
    if a + b <= u16::MAX { (a + b) as u16 } else { u16::MAX }
}

/// `a + b`, or the largest count when that overflows.
pub open spec fn sat_add(a: usize, b: usize) -> usize {
    if a + b <= usize::MAX { (a + b) as usize } else { usize::MAX }
}

/// `a - b`, or zero.
pub open spec fn sat_sub(a: usize, b: usize) -> usize {
    if a >= b { (a - b) as usize } else { 0 }
}

/// The rectangle `Rect::new` makes at `(x, y)` of the given size: shrunk
/// where needed so its right and bottom edges stay on the screen's axes.
pub open spec fn rect_at(x: u16, y: u16, width: u16, height: u16) -> Rect {
    Rect { x, y, width: min16(width, (u16::MAX - x) as u16), height: min16(height, (u16::MAX - y) as u16) }
}

/// The empty rectangle at the origin.
pub open spec fn no_rect() -> Rect {
    Rect { x: 0, y: 0, width: 0, height: 0 }
}

/// Where a scrolled list stands: how many rows lie below the view, how many
/// could at most, and how many rows the view shows.
#[derive(Debug, Clone, Copy, PartialEq, Eq, Structural)]
pub struct ScrollMetrics {
    pub offset_from_bottom: usize,
    pub max_offset_from_bottom: usize,
    pub viewport_rows: usize,
}

/// The metrics of a list of `total_rows` rows scrolled to `scroll`, whose
/// view shows `viewport_rows` of them.
pub open spec fn metrics_of(total_rows: usize, scroll: usize, viewport_rows: usize) -> ScrollMetrics {
    ScrollMetrics {
        offset_from_bottom: sat_sub(sat_sub(total_rows, scroll), viewport_rows),
        max_offset_from_bottom: sat_sub(total_rows, viewport_rows),
        viewport_rows,
    }
}

/// Scroll metrics of a list of `total_rows` rows scrolled to `scroll` with a
/// view of `viewport_rows` rows.
pub fn scroll_metrics(total_rows: usize, scroll: usize, viewport_rows: usize) -> (m: ScrollMetrics)
    ensures
        m == metrics_of(total_rows, scroll, viewport_rows),
{
    ScrollMetrics {
        offset_from_bottom: total_rows.saturating_sub(scroll).saturating_sub(viewport_rows),
        max_offset_from_bottom: total_rows.saturating_sub(viewport_rows),
        viewport_rows,
    }
}

/// The body of a section below `header_rows` header rows, one column
/// narrower when a scrollbar is shown; `footer` rows at the bottom stay out
/// of it. Empty when the section is no taller than its header.
pub open spec fn body_below(area: Rect, header_rows: u16, footer: u16, has_scrollbar: bool) -> Rect {
    if area.width == 0 || area.height <= header_rows {
        no_rect()
    } else {
        Rect {
            x: area.x,
            y: (area.y + header_rows) as u16,
            width: sat_sub16(area.width, if has_scrollbar { 1 } else { 0 }),
            height: (area.height - header_rows - footer) as u16,
        }
    }
}

/// The list body of the workspace section: below its two header rows and
/// above its footer row.
pub fn workspace_list_body_rect(area: Rect, has_scrollbar: bool) -> (r: Rect)
    requires
        crate::chooser::rect_ok(area),
    ensures
        r == body_below(area, WORKSPACE_SECTION_HEADER_ROWS, 1, has_scrollbar),
{
    if area.width == 0 || area.height <= WORKSPACE_SECTION_HEADER_ROWS {
        return Rect::empty();
    }
    let body_y = area.y + WORKSPACE_SECTION_HEADER_ROWS;
    let footer_y = area.y + (area.height - 1);
    let body_height = footer_y - body_y;
    let body_width = area.width.saturating_sub(if has_scrollbar { 1 } else { 0 });
    Rect::new(area.x, body_y, body_width, body_height)
}

/// The list body of the agent panel, below its three header rows.
pub fn agent_panel_body_rect(area: Rect, has_scrollbar: bool) -> (r: Rect)
    requires
        crate::chooser::rect_ok(area),
    ensures
        r == body_below(area, AGENT_PANEL_HEADER_ROWS, 0, has_scrollbar),
{
    if area.width == 0 || area.height <= AGENT_PANEL_HEADER_ROWS {
        return Rect::empty();
    }
    let body_y = area.y + AGENT_PANEL_HEADER_ROWS;
    let body_height = (area.y + area.height) - body_y;
    let body_width = area.width.saturating_sub(if has_scrollbar { 1 } else { 0 });
    Rect::new(area.x, body_y, body_width, body_height)
}

/// The list body of the pull-request inbox, below its three header rows.
pub fn pr_inbox_body_rect(area: Rect, has_scrollbar: bool) -> (r: Rect)
    requires
        crate::chooser::rect_ok(area),
    ensures
        r == body_below(area, PR_INBOX_HEADER_ROWS, 0, has_scrollbar),
{
    if area.width == 0 || area.height <= PR_INBOX_HEADER_ROWS {
        return Rect::empty();
    }
    let body_y = area.y + PR_INBOX_HEADER_ROWS;
    let body_height = (area.y + area.height) - body_y;
    let body_width = area.width.saturating_sub(if has_scrollbar { 1 } else { 0 });
    Rect::new(area.x, body_y, body_width, body_height)
}

/// How many agent entries fit in the agent panel `area`: each takes two rows,
/// with a gap row between consecutive entries.
pub fn agent_panel_visible_count(area: Rect) -> (n: usize)
    requires
        crate::chooser::rect_ok(area),
    ensures
        ({
            let body = body_below(area, AGENT_PANEL_HEADER_ROWS, 0, false);
            n == if body.width == 0 || body.height < 2 { 0 } else { ((body.height + 1) / 3) as usize }
        }),
{
    let body = agent_panel_body_rect(area, false);
    if body.width == 0 || body.height < 2 {
        return 0;
    }
    let mut used_rows: u16 = 0;
    let mut visible: usize = 0;
    while body.height - used_rows >= 2
        invariant
            used_rows <= body.height,
            used_rows == 3 * visible || (used_rows + 1 == 3 * visible && used_rows == body.height),
        decreases body.height - used_rows,
    {
        used_rows = used_rows + 2;
        visible = visible + 1;
        if used_rows < body.height {
            used_rows = used_rows + 1;
        }
    }
    visible
}

/// How many inbox entries fit in the inbox `area`, three rows each.
pub fn pr_inbox_visible_count(area: Rect) -> (n: usize)
    requires
        crate::chooser::rect_ok(area),
    ensures
        n == (body_below(area, PR_INBOX_HEADER_ROWS, 0, false).height / PR_ROW_HEIGHT) as usize,
{
    let body = pr_inbox_body_rect(area, false);
    if body.height == 0 {
        return 0;
    }
    (body.height / PR_ROW_HEIGHT) as usize
}

/// Scroll metrics of the agent panel `area` listing `total_rows` agents,
/// scrolled to `scroll`.
pub fn agent_panel_scroll_metrics(total_rows: usize, scroll: usize, area: Rect) -> (m: ScrollMetrics)
    requires
        crate::chooser::rect_ok(area),
    ensures
        ({
            let body = body_below(area, AGENT_PANEL_HEADER_ROWS, 0, false);
            let fit = if body.width == 0 || body.height < 2 { 0 } else { ((body.height + 1) / 3) as usize };
            m == metrics_of(total_rows, scroll, fit)
        }),
{
    let viewport_rows = agent_panel_visible_count(area);
    scroll_metrics(total_rows, scroll, viewport_rows)
}

/// Scroll metrics of the inbox `area` listing `total_rows` pull requests,
/// scrolled to `scroll`.
pub fn pr_inbox_scroll_metrics(total_rows: usize, scroll: usize, area: Rect) -> (m: ScrollMetrics)
    requires
        crate::chooser::rect_ok(area),
    ensures
        m == metrics_of(
            total_rows,
            scroll,
            (body_below(area, PR_INBOX_HEADER_ROWS, 0, false).height / PR_ROW_HEIGHT) as usize,
        ),
{
    let viewport_rows = pr_inbox_visible_count(area);
    scroll_metrics(total_rows, scroll, viewport_rows)
}

/// The sort toggle at the right end of the agent panel's title row, as wide
/// as its label.
pub fn agent_panel_toggle_rect(area: Rect, sort: AgentPanelSort) -> (r: Rect)
    requires
        crate::chooser::rect_ok(area),
    ensures
        ({
            let width: u16 = match sort {
                AgentPanelSort::Spaces => 7,
                AgentPanelSort::Priority => 8,
            };
            r == if area.width == 0 || area.height < 2 {
                no_rect()
            } else {
                let x = (area.x + sat_sub16(area.width, width)) as u16;
                Rect { x, y: (area.y + 1) as u16, width: min16(width, (u16::MAX - x) as u16), height: 1 }
            }
        }),
{
    if area.width == 0 || area.height < 2 {
        return Rect::empty();
    }
    let label = agent_panel_sort_label(sort);
    proof {
        reveal_strlit("grouped");
        reveal_strlit("priority");
    }
    let width: u16 = match sort {
        AgentPanelSort::Spaces => 7,
        AgentPanelSort::Priority => 8,
    };
    assert(label@.len() == width);
    Rect::new(area.x + area.width.saturating_sub(width), area.y + 1, width, 1)
}

/// The collapse toggle of the expanded sidebar: the cell left of the
/// separator column on the bottom row.
pub fn expanded_sidebar_toggle_rect(area: Rect) -> (r: Rect)
    requires
        crate::chooser::rect_ok(area),
    ensures
        r == if area.width <= 1 || area.height == 0 {
            no_rect()
        } else {
            Rect { x: (area.x + area.width - 2) as u16, y: (area.y + area.height - 1) as u16, width: 1, height: 1 }
        },
{
    if area.width <= 1 || area.height == 0 {
        return Rect::empty();
    }
    Rect::new(area.x + area.width.saturating_sub(2), area.y + area.height.saturating_sub(1), 1, 1)
}

/// The expand toggle of the collapsed sidebar: the middle cell of the bottom
/// row, left of the separator column.
pub fn collapsed_sidebar_toggle_rect(area: Rect) -> (r: Rect)
    requires
        crate::chooser::rect_ok(area),
    ensures
        r == if area.width <= 1 || area.height == 0 {
            no_rect()
        } else {
            Rect { x: (area.x + (area.width - 1) / 2) as u16, y: (area.y + area.height - 1) as u16, width: 1, height: 1 }
        },
{
    let bottom_y = area.y + area.height.saturating_sub(1);
    let content_w = area.width.saturating_sub(1);
    if content_w == 0 || area.height == 0 {
        return Rect::empty();
    }
    Rect::new(area.x + content_w / 2, bottom_y, 1, 1)
}

/// The collapsed sidebar's sections: the workspace glance on top, the
/// divider row, and the agent list below. Below seven rows there is no
/// divider and the glance takes everything.
pub fn collapsed_sidebar_sections(area: Rect) -> (r: (Rect, Option<u16>, Rect))
    requires
        crate::chooser::rect_ok(area),
    ensures
        ({
            let w = sat_sub16(area.width, 1);
            let content = Rect { x: area.x, y: area.y, width: w, height: area.height };
            let ws_h = (area.height + 1) / 2;
            if w == 0 || area.height == 0 {
                r == (no_rect(), None::<u16>, no_rect())
            } else if area.height < 7 {
                r == (content, None::<u16>, no_rect())
            } else {
                r == (
                    Rect { x: area.x, y: area.y, width: w, height: ws_h as u16 },
                    Some((area.y + ws_h) as u16),
                    Rect { x: area.x, y: (area.y + ws_h + 1) as u16, width: w, height: (area.height - ws_h - 1) as u16 },
                )
            }
        }),
{
    let content = Rect::new(area.x, area.y, area.width.saturating_sub(1), area.height);
    if content.width == 0 || content.height == 0 {
        return (Rect::empty(), None, Rect::empty());
    }
    if content.height < 7 {
        return (content, None, Rect::empty());
    }
    let total_h = content.height;
    let ws_h = total_h / 2 + total_h % 2;
    let detail_h = total_h - (ws_h + 1);
    let divider_y = content.y + ws_h;
    let ws_area = Rect::new(content.x, content.y, content.width, ws_h);
    let detail_area = Rect::new(content.x, divider_y + 1, content.width, detail_h);
    (ws_area, Some(divider_y), detail_area)
}

// ---------------------------------------------------------------------------
// The workspace list
// ---------------------------------------------------------------------------

/// Rows a top-level workspace row takes: two when it shows a branch line.
pub open spec fn ws_row_height(ws: Workspace) -> u16 {
    if ws.cached_git_branch is Some { 2 } else { 1 }
}

/// Rows a top-level workspace row takes: two when it shows a branch line.
pub fn workspace_row_height(ws: &Workspace) -> (h: u16)
    ensures
        h == ws_row_height(*ws),
{
    if ws.branch().is_some() { 2 } else { 1 }
}

/// The entry after `i` is a nested worktree row.
pub open spec fn next_is_indented(entries: Seq<WorkspaceListEntry>, i: int) -> bool {
    i + 1 < entries.len() && entries[i + 1] matches WorkspaceListEntry::Workspace { indented: true, .. }
}

/// Rows entry `i` needs for its own line(s) and, where one follows, the gap
/// row after it: a header takes one row and a gap; a workspace its row
/// height, and a gap unless it is a nested row followed by another nested
/// row. `None` for an entry naming no workspace.
pub open spec fn entry_rows(ws: Seq<Workspace>, entries: Seq<WorkspaceListEntry>, i: int) -> Option<(u16, u16)> {
    match entries[i] {
        WorkspaceListEntry::Workspace { ws_idx, indented } => if ws_idx < ws.len() {
            Some((
                if indented { CHILD_ROW_HEIGHT } else { ws_row_height(ws[ws_idx as int]) },
                if indented && next_is_indented(entries, i) { 0u16 } else { 1u16 },
            ))
        } else {
            None
        },
        WorkspaceListEntry::RepoHeader { .. } => Some((REPO_HEADER_ROW_HEIGHT, 1u16)),
    }
}

/// How many entries from `i` on fit in `height - used` more rows, having
/// counted `visible` already.
pub open spec fn fit_from(ws: Seq<Workspace>, entries: Seq<WorkspaceListEntry>, i: int, used: u16, height: u16, visible: nat) -> nat
    decreases entries.len() - i,
{
    if i < 0 || i >= entries.len() {
        visible
    } else {
        match entry_rows(ws, entries, i) {
            None => fit_from(ws, entries, i + 1, used, height, visible),
            Some((rows, gap)) => {
                let needed = sat_add16(rows, gap);
                if sat_add16(used, needed) > height {
                    visible
                } else {
                    fit_from(ws, entries, i + 1, sat_add16(used, needed), height, visible + 1)
                }
            },
        }
    }
}

/// How many workspace-list entries, from `scroll` on, fit in the list body
/// of the workspace section `area`.
pub fn workspace_list_visible_count(
    workspaces: &Vec<Workspace>,
    entries: &Vec<WorkspaceListEntry>,
    area: Rect,
    scroll: usize,
) -> (n: usize)
    requires
        crate::chooser::rect_ok(area),
    ensures
        ({
            let body = body_below(area, WORKSPACE_SECTION_HEADER_ROWS, 1, false);
            n == if body.width == 0 || body.height == 0 {
                0
            } else {
                fit_from(workspaces@, entries@, scroll as int, 0, body.height, 0)
            }
        }),
{
    let body = workspace_list_body_rect(area, false);
    if body.width == 0 || body.height == 0 {
        return 0;
    }
    let mut used_rows: u16 = 0;
    let mut visible: usize = 0;
    let mut i: usize = scroll;
    while i < entries.len()
        invariant
            scroll <= i,
            visible <= i,
            fit_from(workspaces@, entries@, i as int, used_rows, body.height, visible as nat) == fit_from(
                workspaces@,
                entries@,
                scroll as int,
                0,
                body.height,
                0,
            ),
        ensures
            fit_from(workspaces@, entries@, scroll as int, 0, body.height, 0) == visible,
        decreases entries.len() - i,
    {
        let rows = entry_rows_of(workspaces, entries, i);
        match rows {
            None => {},
            Some((row_height, gap)) => {
                let needed = row_height.saturating_add(gap);
                if used_rows.saturating_add(needed) > body.height {
                    break;
                }
                used_rows = used_rows.saturating_add(needed);
                visible = visible + 1;
            },
        }
        i = i + 1;
    }
    visible
}

/// How many entries of the workspace list in section `area` fit from
/// `scroll` on.
pub open spec fn list_fit(ws: Seq<Workspace>, entries: Seq<WorkspaceListEntry>, area: Rect, scroll: usize) -> usize {
    let body = body_below(area, WORKSPACE_SECTION_HEADER_ROWS, 1, false);
    if body.width == 0 || body.height == 0 {
        0
    } else {
        fit_from(ws, entries, scroll as int, 0, body.height, 0) as usize
    }
}

/// Scroll metrics of the workspace list in section `area`, counted in list
/// entries (headers and rows) rather than workspaces, with the stored
/// offset `workspace_scroll` kept on an entry.
pub fn workspace_list_scroll_metrics(
    workspaces: &Vec<Workspace>,
    entries: &Vec<WorkspaceListEntry>,
    area: Rect,
    workspace_scroll: usize,
) -> (m: ScrollMetrics)
    requires
        crate::chooser::rect_ok(area),
    ensures
        ({
            let total = entries@.len() as usize;
            let scroll = if workspace_scroll < sat_sub(total, 1) { workspace_scroll } else { sat_sub(total, 1) };
            m == metrics_of(total, scroll, list_fit(workspaces@, entries@, area, scroll))
        }),
{
    let total_rows = entries.len();
    let last = total_rows.saturating_sub(1);
    let scroll = if workspace_scroll < last { workspace_scroll } else { last };
    let viewport_rows = workspace_list_visible_count(workspaces, entries, area, scroll);
    scroll_metrics(total_rows, scroll, viewport_rows)
}

/// The stored workspace-list offset kept on an entry of a list of
/// `entry_count` entries; left as requested while the list body of section
/// `ws_area` has no rows.
pub fn normalized_workspace_scroll(entry_count: usize, ws_area: Rect, requested: usize) -> (s: usize)
    requires
        crate::chooser::rect_ok(ws_area),
    ensures
        s == if body_below(ws_area, WORKSPACE_SECTION_HEADER_ROWS, 1, false).height == 0 {
            requested
        } else if entry_count == 0 {
            0
        } else if requested < entry_count {
            requested
        } else {
            (entry_count - 1) as usize
        },
{
    let body = workspace_list_body_rect(ws_area, false);
    if body.height == 0 {
        return requested;
    }
    if entry_count == 0 {
        0
    } else if requested < entry_count {
        requested
    } else {
        entry_count - 1
    }
}

/// The clickable card of a workspace row in the list.
#[derive(Debug, Clone, Copy, PartialEq, Eq, Structural)]
pub struct WorkspaceCardArea {
    pub ws_idx: usize,
    pub rect: Rect,
    pub indented: bool,
}

/// The clickable row of a synthesized repository header.
#[derive(Debug, Clone, PartialEq, Eq)]
pub struct WorkspaceHeaderArea {
    pub key: String,
    pub rect: Rect,
}

/// The expand caret of a nested worktree row with several agents.
#[derive(Debug, Clone, Copy, PartialEq, Eq, Structural)]
pub struct WorktreeAgentToggleArea {
    pub ws_idx: usize,
    pub rect: Rect,
}

/// The areas laid out so far: workspace cards, repository headers, carets.
pub type ListAreas = (Seq<WorkspaceCardArea>, Seq<WorkspaceHeaderArea>, Seq<WorktreeAgentToggleArea>);

/// A nested worktree row shows its extra agents: the workspace's id is among
/// the expanded ones.
pub open spec fn is_expanded(expanded: Seq<String>, ws: Workspace) -> bool {
    key_texts(expanded).contains(ws.id@)
}

/// Lay out entries `i..` of the workspace list in `body` from row `row_y`
/// on, after the areas `acc` laid out so far. Each entry is placed below the
/// previous one; the first that does not fit, with its gap row, ends the
/// list. A nested worktree row grows by one row per extra agent when it is
/// expanded, and gets a caret when it has more than one agent.
pub open spec fn areas_from(
    ws: Seq<Workspace>,
    entries: Seq<WorkspaceListEntry>,
    details: Seq<usize>,
    expanded: Seq<String>,
    body: Rect,
    i: int,
    row_y: u16,
    acc: ListAreas,
) -> ListAreas
    decreases entries.len() - i,
{
    if i < 0 || i >= entries.len() {
        acc
    } else {
        let bottom = body.y + body.height;
        match entries[i] {
            WorkspaceListEntry::Workspace { ws_idx, indented } => if ws_idx >= ws.len() {
                areas_from(ws, entries, details, expanded, body, i + 1, row_y, acc)
            } else {
                let w = ws[ws_idx as int];
                let rh = if indented { CHILD_ROW_HEIGHT } else { ws_row_height(w) };
                let gap: u16 = if indented && next_is_indented(entries, i) { 0 } else { 1 };
                let count = if indented { details[ws_idx as int] } else { 0 };
                let sub: u16 = if indented && is_expanded(expanded, w) { sat_sub(count, 1) as u16 } else { 0 };
                let total = sat_add16(rh, sub);
                if sat_add16(sat_add16(row_y, total), gap) > bottom {
                    acc
                } else {
                    let card = WorkspaceCardArea {
                        ws_idx,
                        rect: rect_at(body.x, row_y, body.width, rh),
                        indented,
                    };
                    let cw = min16(CARET_WIDTH, body.width);
                    let carets = if indented && count > 1 {
                        acc.2.push(
                            WorktreeAgentToggleArea {
                                ws_idx,
                                rect: rect_at((body.x + body.width - cw) as u16, row_y, cw, 1),
                            },
                        )
                    } else {
                        acc.2
                    };
                    areas_from(
                        ws,
                        entries,
                        details,
                        expanded,
                        body,
                        i + 1,
                        sat_add16(row_y, sat_add16(total, gap)),
                        (acc.0.push(card), acc.1, carets),
                    )
                }
            },
            WorkspaceListEntry::RepoHeader { key } => if sat_add16(sat_add16(row_y, REPO_HEADER_ROW_HEIGHT), 1) > bottom {
                acc
            } else {
                let header = WorkspaceHeaderArea {
                    key,
                    rect: rect_at(body.x, row_y, body.width, REPO_HEADER_ROW_HEIGHT),
                };
                areas_from(
                    ws,
                    entries,
                    details,
                    expanded,
                    body,
                    i + 1,
                    sat_add16(row_y, 2),
                    (acc.0, acc.1.push(header), acc.2),
                )
            },
        }
    }
}

/// Rows `[y, y + height)` of each rectangle lie in `[top, bottom)`, each
/// one below the one before it.
pub open spec fn stacked(rects: Seq<Rect>, top: int, bottom: int) -> bool {
    &&& forall|k: int| 0 <= k < rects.len() ==> top <= #[trigger] rects[k].y && rects[k].y + rects[k].height <= bottom
    &&& forall|k: int, l: int| 0 <= k < l < rects.len() ==> #[trigger] rects[k].y + rects[k].height <= #[trigger] rects[l].y
}

/// The rectangles of the cards.
pub open spec fn card_rects(cards: Seq<WorkspaceCardArea>) -> Seq<Rect> {
    cards.map_values(|c: WorkspaceCardArea| c.rect)
}

/// The rectangles of the headers.
pub open spec fn header_rects(headers: Seq<WorkspaceHeaderArea>) -> Seq<Rect> {
    headers.map_values(|h: WorkspaceHeaderArea| h.rect)
}

proof fn lemma_stacked_push(rects: Seq<Rect>, r: Rect, top: int, row_y: int, bottom: int)
    requires
        stacked(rects, top, row_y),
        top <= r.y == row_y,
        r.y + r.height <= bottom,
    ensures
        stacked(rects.push(r), top, r.y + r.height),
{
    let p = rects.push(r);
    assert forall|k: int, l: int| 0 <= k < l < p.len() implies #[trigger] p[k].y + p[k].height <= #[trigger] p[l].y by {
        if l < rects.len() {
            assert(p[k] == rects[k] && p[l] == rects[l]);
        } else {
            assert(p[k] == rects[k]);
        }
    }
    assert forall|k: int| 0 <= k < p.len() implies top <= #[trigger] p[k].y && p[k].y + p[k].height <= r.y + r.height by {
        if k < rects.len() {
            assert(p[k] == rects[k]);
        }
    }
}

proof fn lemma_stacked_lower(rects: Seq<Rect>, top: int, a: int, b: int)
    requires
        stacked(rects, top, a),
        a <= b,
    ensures
        stacked(rects, top, b),
{
}

proof fn lemma_areas_stacked(
    ws: Seq<Workspace>,
    entries: Seq<WorkspaceListEntry>,
    details: Seq<usize>,
    expanded: Seq<String>,
    body: Rect,
    i: int,
    row_y: u16,
    acc: ListAreas,
)
    requires
        crate::chooser::rect_ok(body),
        body.y <= row_y <= body.y + body.height,
        stacked(card_rects(acc.0), body.y as int, row_y as int),
        stacked(header_rects(acc.1), body.y as int, row_y as int),
    ensures
        ({
            let r = areas_from(ws, entries, details, expanded, body, i, row_y, acc);
            &&& stacked(card_rects(r.0), body.y as int, body.y + body.height)
            &&& stacked(header_rects(r.1), body.y as int, body.y + body.height)
        }),
    decreases entries.len() - i,
{
    let bottom = body.y + body.height;
    if i < 0 || i >= entries.len() {
        lemma_stacked_lower(card_rects(acc.0), body.y as int, row_y as int, bottom);
        lemma_stacked_lower(header_rects(acc.1), body.y as int, row_y as int, bottom);
        return;
    }
    match entries[i] {
        WorkspaceListEntry::Workspace { ws_idx, indented } => {
            if ws_idx >= ws.len() {
                lemma_areas_stacked(ws, entries, details, expanded, body, i + 1, row_y, acc);
            } else {
                let w = ws[ws_idx as int];
                let rh = if indented { CHILD_ROW_HEIGHT } else { ws_row_height(w) };
                let gap: u16 = if indented && next_is_indented(entries, i) { 0 } else { 1 };
                let count = if indented { details[ws_idx as int] } else { 0 };
                let sub: u16 = if indented && is_expanded(expanded, w) { sat_sub(count, 1) as u16 } else { 0 };
                let total = sat_add16(rh, sub);
                if sat_add16(sat_add16(row_y, total), gap) > bottom {
                    lemma_stacked_lower(card_rects(acc.0), body.y as int, row_y as int, bottom);
                    lemma_stacked_lower(header_rects(acc.1), body.y as int, row_y as int, bottom);
                } else {
                    let card = WorkspaceCardArea { ws_idx, rect: rect_at(body.x, row_y, body.width, rh), indented };
                    let cw = min16(CARET_WIDTH, body.width);
                    let carets = if indented && count > 1 {
                        acc.2.push(
                            WorktreeAgentToggleArea { ws_idx, rect: rect_at((body.x + body.width - cw) as u16, row_y, cw, 1) },
                        )
                    } else {
                        acc.2
                    };
                    let next_y = sat_add16(row_y, sat_add16(total, gap));
                    lemma_stacked_push(card_rects(acc.0), card.rect, body.y as int, row_y as int, bottom);
                    assert(card_rects(acc.0.push(card)) =~= card_rects(acc.0).push(card.rect));
                    lemma_stacked_lower(card_rects(acc.0.push(card)), body.y as int, card.rect.y + card.rect.height, next_y as int);
                    lemma_stacked_lower(header_rects(acc.1), body.y as int, row_y as int, next_y as int);
                    lemma_areas_stacked(ws, entries, details, expanded, body, i + 1, next_y, (acc.0.push(card), acc.1, carets));
                }
            }
        },
        WorkspaceListEntry::RepoHeader { key } => {
            if sat_add16(sat_add16(row_y, REPO_HEADER_ROW_HEIGHT), 1) > bottom {
                lemma_stacked_lower(card_rects(acc.0), body.y as int, row_y as int, bottom);
                lemma_stacked_lower(header_rects(acc.1), body.y as int, row_y as int, bottom);
            } else {
                let header = WorkspaceHeaderArea { key, rect: rect_at(body.x, row_y, body.width, REPO_HEADER_ROW_HEIGHT) };
                let next_y = sat_add16(row_y, 2);
                lemma_stacked_push(header_rects(acc.1), header.rect, body.y as int, row_y as int, bottom);
                assert(header_rects(acc.1.push(header)) =~= header_rects(acc.1).push(header.rect));
                lemma_stacked_lower(header_rects(acc.1.push(header)), body.y as int, header.rect.y + header.rect.height, next_y as int);
                lemma_stacked_lower(card_rects(acc.0), body.y as int, row_y as int, next_y as int);
                lemma_areas_stacked(ws, entries, details, expanded, body, i + 1, next_y, (acc.0, acc.1.push(header), acc.2));
            }
        },
    }
}

/// The workspace list never draws past its body: the cards laid out lie in
/// the body's rows, each below the one before, and so do the repository
/// header rows.
pub proof fn lemma_list_areas_stay_in_body(
    ws: Seq<Workspace>,
    entries: Seq<WorkspaceListEntry>,
    details: Seq<usize>,
    expanded: Seq<String>,
    body: Rect,
    scroll: usize,
)
    requires
        crate::chooser::rect_ok(body),
    ensures
        ({
            let r = areas_from(ws, entries, details, expanded, body, scroll as int, body.y, (Seq::empty(), Seq::empty(), Seq::empty()));
            &&& stacked(card_rects(r.0), body.y as int, body.y + body.height)
            &&& stacked(header_rects(r.1), body.y as int, body.y + body.height)
        }),
{
    assert(card_rects(Seq::<WorkspaceCardArea>::empty()) =~= Seq::<Rect>::empty());
    assert(header_rects(Seq::<WorkspaceHeaderArea>::empty()) =~= Seq::<Rect>::empty());
    lemma_areas_stacked(ws, entries, details, expanded, body, scroll as int, body.y, (Seq::empty(), Seq::empty(), Seq::empty()));
}

/// The clickable areas of the workspace list drawn in the workspace section
/// `ws_area` and scrolled to entry `scroll`: workspace cards, synthesized
/// repository headers and the carets of worktree rows with several agents.
/// `detail_counts[i]` is how many agent panes workspace `i` shows, and
/// `expanded_worktree_agents` the ids of worktree rows opened to list them.
/// With `has_scrollbar` the list body leaves the right column free.
pub fn compute_workspace_list_areas(
    workspaces: &Vec<Workspace>,
    entries: &Vec<WorkspaceListEntry>,
    detail_counts: &Vec<usize>,
    expanded_worktree_agents: &Vec<String>,
    ws_area: Rect,
    scroll: usize,
    has_scrollbar: bool,
) -> (r: (Vec<WorkspaceCardArea>, Vec<WorkspaceHeaderArea>, Vec<WorktreeAgentToggleArea>))
    requires
        crate::chooser::rect_ok(ws_area),
        detail_counts@.len() == workspaces@.len(),
    ensures
        ({
            let body = body_below(ws_area, WORKSPACE_SECTION_HEADER_ROWS, 1, has_scrollbar);
            (r.0@, r.1@, r.2@) == if body.width == 0 || body.height == 0 {
                (Seq::empty(), Seq::empty(), Seq::empty())
            } else {
                areas_from(
                    workspaces@,
                    entries@,
                    detail_counts@,
                    expanded_worktree_agents@,
                    body,
                    scroll as int,
                    body.y,
                    (Seq::empty(), Seq::empty(), Seq::empty()),
                )
            }
        }),
{
    let mut cards: Vec<WorkspaceCardArea> = Vec::new();
    let mut headers: Vec<WorkspaceHeaderArea> = Vec::new();
    let mut carets: Vec<WorktreeAgentToggleArea> = Vec::new();
    let body = workspace_list_body_rect(ws_area, has_scrollbar);
    if body.width == 0 || body.height == 0 {
        return (cards, headers, carets);
    }
    let bottom = body.y + body.height;
    let mut row_y = body.y;
    let mut i = scroll;
    while i < entries.len()
        invariant
            crate::chooser::rect_ok(body),
            bottom == body.y + body.height,
            body.y <= row_y <= bottom,
            detail_counts@.len() == workspaces@.len(),
            areas_from(
                workspaces@,
                entries@,
                detail_counts@,
                expanded_worktree_agents@,
                body,
                i as int,
                row_y,
                (cards@, headers@, carets@),
            ) == areas_from(
                workspaces@,
                entries@,
                detail_counts@,
                expanded_worktree_agents@,
                body,
                scroll as int,
                body.y,
                (Seq::empty(), Seq::empty(), Seq::empty()),
            ),
        ensures
            (cards@, headers@, carets@) == areas_from(
                workspaces@,
                entries@,
                detail_counts@,
                expanded_worktree_agents@,
                body,
                scroll as int,
                body.y,
                (Seq::empty(), Seq::empty(), Seq::empty()),
            ),
        decreases entries.len() - i,
    {
        match &entries[i] {
            WorkspaceListEntry::Workspace { ws_idx, indented } => {
                let ws_idx = *ws_idx;
                let indented = *indented;
                if ws_idx < workspaces.len() {
                    let w = &workspaces[ws_idx];
                    let rh = if indented { CHILD_ROW_HEIGHT } else { workspace_row_height(w) };
                    let gap: u16 = if indented && next_entry_is_indented(entries, i) { 0 } else { 1 };
                    let count = if indented { detail_counts[ws_idx] } else { 0 };
                    let open = indented && has_key(expanded_worktree_agents, w.id.as_str());
                    let sub: u16 = if open { count.saturating_sub(1) as u16 } else { 0 };
                    let total = rh.saturating_add(sub);
                    if row_y.saturating_add(total).saturating_add(gap) > bottom {
                        break;
                    }
                    cards.push(WorkspaceCardArea { ws_idx, rect: Rect::new(body.x, row_y, body.width, rh), indented });
                    if indented && count > 1 {
                        let cw = if CARET_WIDTH < body.width { CARET_WIDTH } else { body.width };
                        let caret_x = body.x + (body.width - cw);
                        carets.push(WorktreeAgentToggleArea { ws_idx, rect: Rect::new(caret_x, row_y, cw, 1) });
                    }
                    row_y = row_y.saturating_add(total.saturating_add(gap));
                }
            },
            WorkspaceListEntry::RepoHeader { key } => {
                if row_y.saturating_add(REPO_HEADER_ROW_HEIGHT).saturating_add(1) > bottom {
                    break;
                }
                headers.push(WorkspaceHeaderArea { key: key.clone(), rect: Rect::new(body.x, row_y, body.width, REPO_HEADER_ROW_HEIGHT) });
                row_y = row_y.saturating_add(REPO_HEADER_ROW_HEIGHT + 1);
            },
        }
        i = i + 1;
    }
    (cards, headers, carets)
}

/// The first card, from position `k` on, of the workspace at position `idx`.
pub open spec fn card_of(cards: Seq<WorkspaceCardArea>, idx: usize, k: int) -> Option<WorkspaceCardArea>
    decreases cards.len() - k,
{
    if k < 0 || k >= cards.len() {
        None
    } else if cards[k].ws_idx == idx {
        Some(cards[k])
    } else {
        card_of(cards, idx, k + 1)
    }
}

/// The row above `card`, where it lies above the list's last row `bottom`.
pub open spec fn row_above(card: WorkspaceCardArea, bottom: int) -> Option<u16> {
    if card.rect.y >= 1 && card.rect.y - 1 < bottom {
        Some((card.rect.y - 1) as u16)
    } else {
        None
    }
}

/// The row at which a workspace dragged in the list of `area`, laid out as
/// `cards`, would be dropped to land at position `insert_idx`: the row above
/// the card now at that position, or the row below the last card when it
/// goes after it. `None` where that row is not on the list.
pub fn workspace_drop_indicator_row(cards: &Vec<WorkspaceCardArea>, area: Rect, insert_idx: usize) -> (r: Option<u16>)
    requires
        crate::chooser::rect_ok(area),
    ensures
        r == if area.height == 0 || cards@.len() == 0 {
            None
        } else {
            let bottom = area.y + area.height - 1;
            let first = cards@[0];
            let last = cards@.last();
            let below_last = sat_add16(last.rect.y, last.rect.height);
            if insert_idx == first.ws_idx {
                row_above(first, bottom)
            } else if insert_idx == sat_add(last.ws_idx, 1) && below_last < bottom {
                Some(below_last)
            } else {
                match card_of(cards@, insert_idx, 0) {
                    Some(card) => row_above(card, bottom),
                    None => None,
                }
            }
        },
{
    if area.height == 0 || cards.len() == 0 {
        return None;
    }
    let list_bottom = area.y + (area.height - 1);
    let first = cards[0];
    if insert_idx == first.ws_idx {
        return if first.rect.y >= 1 && first.rect.y - 1 < list_bottom { Some(first.rect.y - 1) } else { None };
    }
    let last = cards[cards.len() - 1];
    if insert_idx == last.ws_idx.saturating_add(1) {
        let row = last.rect.y.saturating_add(last.rect.height);
        if row < list_bottom {
            return Some(row);
        }
    }
    let mut k: usize = 0;
    while k < cards.len()
        invariant
            k <= cards@.len(),
            card_of(cards@, insert_idx, k as int) == card_of(cards@, insert_idx, 0),
            area.height > 0,
            cards@.len() > 0,
            list_bottom == area.y + area.height - 1,
            insert_idx != cards@[0].ws_idx,
            !(insert_idx == sat_add(cards@.last().ws_idx, 1)
                && sat_add16(cards@.last().rect.y, cards@.last().rect.height) < list_bottom),
        decreases cards.len() - k,
    {
        let card = cards[k];
        if card.ws_idx == insert_idx {
            return if card.rect.y >= 1 && card.rect.y - 1 < list_bottom { Some(card.rect.y - 1) } else { None };
        }
        k = k + 1;
    }
    None
}

/// The rows entry `i` takes and the gap row after it.
fn entry_rows_of(workspaces: &Vec<Workspace>, entries: &Vec<WorkspaceListEntry>, i: usize) -> (r: Option<(u16, u16)>)
    requires
        i < entries@.len(),
    ensures
        r == entry_rows(workspaces@, entries@, i as int),
{
    match &entries[i] {
        WorkspaceListEntry::Workspace { ws_idx, indented } => {
            if *ws_idx >= workspaces.len() {
                return None;
            }
            let row_height = if *indented { CHILD_ROW_HEIGHT } else { workspace_row_height(&workspaces[*ws_idx]) };
            let gap: u16 = if *indented && next_entry_is_indented(entries, i) { 0 } else { 1 };
            Some((row_height, gap))
        },
        WorkspaceListEntry::RepoHeader { .. } => Some((REPO_HEADER_ROW_HEIGHT, 1)),
    }
}

/// Whether the entry after `idx` is a nested worktree row.
fn next_entry_is_indented(entries: &Vec<WorkspaceListEntry>, idx: usize) -> (r: bool)
    ensures
        r == next_is_indented(entries@, idx as int),
{
    if entries.len() == 0 || idx >= entries.len() - 1 {
        return false;
    }
    match &entries[idx + 1] {
        WorkspaceListEntry::Workspace { indented, .. } => *indented,
        WorkspaceListEntry::RepoHeader { .. } => false,
    }
}

} // verus!
