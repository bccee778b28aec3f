//! Geometry and selection of the chooser overlays: where the popup, its
//! search line, list body and footer sit on screen, which row a click lands
//! on, how the highlighted row moves and stays scrolled into view, and what
//! keys and pointer events do to a chooser.
use vstd::prelude::*;
use crate::branch_chooser::{filtered_branch_indices, matching, filter_query, BranchChooserState};
use crate::home::KeyCode;
use crate::text::{ascii_lower, chars_of, contains_chars, has_substring, lower_chars, slice_chars, string_of, trim_ws};

verus! {

/// A screen rectangle in terminal cells.
#[derive(Debug, Clone, Copy, PartialEq, Eq, Structural)]
pub struct Rect {
    pub x: u16,
    pub y: u16,
    pub width: u16,
    pub height: u16,
}

/// The right and bottom edges of the rectangle fit on the screen's axes.
pub open spec fn rect_ok(r: Rect) -> bool {
    r.x + r.width <= u16::MAX && r.y + r.height <= u16::MAX
}

/// The smaller of two cell counts.
pub open spec fn min16(a: u16, b: u16) -> u16 {
    if a < b { a } else { b }
}

/// The larger of two cell counts.
pub open spec fn max16(a: u16, b: u16) -> u16 {
    if a > b { a } else { b }
}

/// `a - b`, or zero.
pub open spec fn sat_sub16(a: u16, b: u16) -> u16 {
    if a >= b { (a - b) as u16 } else { 0 }
}

impl Rect {
    /// The rectangle at `(x, y)` of the given size, shrunk where needed so its
    /// right and bottom edges stay on the screen's axes.
    pub fn new(x: u16, y: u16, width: u16, height: u16) -> (r: Rect)
        ensures
            rect_ok(r),
            r.x == x,
            r.y == y,
            r.width == min16(width, (u16::MAX - x) as u16),
            r.height == min16(height, (u16::MAX - y) as u16),
    {
        let room_x = u16::MAX - x;
        let room_y = u16::MAX - y;
        Rect {
            x,
            y,
            width: if width < room_x { width } else { room_x },
            height: if height < room_y { height } else { room_y },
        }
    }

    /// The empty rectangle at the origin.
    pub fn empty() -> (r: Rect)
        ensures
            r == (Rect { x: 0, y: 0, width: 0, height: 0 }),
    {
        Rect { x: 0, y: 0, width: 0, height: 0 }
    }

    /// The smallest rectangle covering both.
    pub fn union(self, other: Rect) -> (r: Rect)
        requires
            rect_ok(self),
            rect_ok(other),
        ensures
            rect_ok(r),
            r.x == min16(self.x, other.x),
            r.y == min16(self.y, other.y),
            r.x + r.width == max16((self.x + self.width) as u16, (other.x + other.width) as u16),
            r.y + r.height == max16((self.y + self.height) as u16, (other.y + other.height) as u16),
    {
        let x1 = if self.x < other.x { self.x } else { other.x };
        let y1 = if self.y < other.y { self.y } else { other.y };
        let r1 = self.x + self.width;
        let r2 = other.x + other.width;
        let b1 = self.y + self.height;
        let b2 = other.y + other.height;
        let x2 = if r1 > r2 { r1 } else { r2 };
        let y2 = if b1 > b2 { b1 } else { b2 };
        Rect { x: x1, y: y1, width: x2 - x1, height: y2 - y1 }
    }
}

/// Whether the cell `(col, row)` lies in `rect`.
pub fn rect_contains(rect: Rect, col: u16, row: u16) -> (r: bool)
    ensures
        r == (rect.x <= col < rect.x + rect.width && rect.y <= row < rect.y + rect.height),
{
    let right: u32 = rect.x as u32 + rect.width as u32;
    let bottom: u32 = rect.y as u32 + rect.height as u32;
    col >= rect.x && (col as u32) < right && row >= rect.y && (row as u32) < bottom
}

/// The inside of a rectangle framed by a one-cell border on all four sides.
pub fn bordered_inner(r: Rect) -> (inner: Rect)
    requires
        rect_ok(r),
    ensures
        rect_ok(inner),
        inner.x == if r.width > 0 { r.x + 1 } else { r.x as int },
        inner.y == if r.height > 0 { r.y + 1 } else { r.y as int },
        inner.width == sat_sub16(r.width, 2),
        inner.height == sat_sub16(r.height, 2),
{
    let right = r.x + r.width;
    let bottom = r.y + r.height;
    let x = if r.width > 0 { r.x + 1 } else { right };
    let y = if r.height > 0 { r.y + 1 } else { bottom };
    let width = if r.width >= 2 { r.width - 2 } else { 0 };
    let height = if r.height >= 2 { r.height - 2 } else { 0 };
    Rect { x, y, width, height }
}

/// The centred popup of a chooser: a sixth of the screen's width (at least
/// two cells) and of its height (at least one cell) as margins, and at least
/// four cells each way.
pub fn chooser_popup_rect(area: Rect) -> (popup: Rect)
    requires
        rect_ok(area),
        area.x + max16(area.width / 6, 2) <= u16::MAX,
        area.y + max16(area.height / 6, 1) <= u16::MAX,
    ensures
        rect_ok(popup),
        popup.x == area.x + max16(area.width / 6, 2),
        popup.y == area.y + max16(area.height / 6, 1),
        popup.width == min16(max16(sat_sub16(area.width, (2 * max16(area.width / 6, 2)) as u16), 4), (u16::MAX - popup.x) as u16),
        popup.height == min16(max16(sat_sub16(area.height, (2 * max16(area.height / 6, 1)) as u16), 4), (u16::MAX - popup.y) as u16),
{
    let mx = area.width / 6;
    let margin_x = if mx > 2 { mx } else { 2 };
    let my = area.height / 6;
    let margin_y = if my > 1 { my } else { 1 };
    let width = area.width.saturating_sub(margin_x * 2);
    let height = area.height.saturating_sub(margin_y * 2);
    Rect::new(area.x + margin_x, area.y + margin_y, if width > 4 { width } else { 4 }, if height > 4 { height } else { 4 })
}

/// The inside of a framed modal of at most `popup_w` by `popup_h` cells
/// centred in `area`, keeping two columns and one row of margin on each
/// side; `None` when less than four cells each way are left for it.
pub fn modal_inner(area: Rect, popup_w: u16, popup_h: u16) -> (r: Option<Rect>)
    requires
        rect_ok(area),
    ensures
        ({
            let w = min16(popup_w, sat_sub16(area.width, 4));
            let h = min16(popup_h, sat_sub16(area.height, 2));
            if w < 4 || h < 4 {
                r is None
            } else {
                let x = area.x + (area.width - w) / 2;
                let y = area.y + (area.height - h) / 2;
                r == Some(Rect { x: (x + 1) as u16, y: (y + 1) as u16, width: (w - 2) as u16, height: (h - 2) as u16 })
            }
        }),
{
    let room_w = area.width.saturating_sub(4);
    let room_h = area.height.saturating_sub(2);
    let w = if popup_w < room_w { popup_w } else { room_w };
    let h = if popup_h < room_h { popup_h } else { room_h };
    if w < 4 || h < 4 {
        return None;
    }
    let x = area.x + (area.width - w) / 2;
    let y = area.y + (area.height - h) / 2;
    let popup = Rect::new(x, y, w, h);
    Some(bordered_inner(popup))
}

/// The search line: the first row inside the popup's frame.
pub fn chooser_search_rect(inner: Rect) -> (r: Rect)
    requires
        rect_ok(inner),
    ensures
        r == (Rect { x: inner.x, y: inner.y, width: inner.width, height: min16(inner.height, 1) }),
{
    Rect::new(inner.x, inner.y, inner.width, if inner.height < 1 { inner.height } else { 1 })
}

/// The list body: the frame's inside without the search line, a separator
/// line and the footer line; empty when there is no room for a row.
pub fn chooser_body_rect(inner: Rect) -> (r: Rect)
    requires
        rect_ok(inner),
    ensures
        r == if inner.height <= 3 {
            Rect { x: 0, y: 0, width: 0, height: 0 }
        } else {
            Rect { x: inner.x, y: (inner.y + 2) as u16, width: inner.width, height: (inner.height - 3) as u16 }
        },
{
    if inner.height <= 3 {
        return Rect::empty();
    }
    Rect::new(inner.x, inner.y + 2, inner.width, inner.height - 3)
}

/// The footer line: the last row inside the popup's frame.
pub fn chooser_footer_rect(inner: Rect) -> (r: Rect)
    requires
        rect_ok(inner),
    ensures
        r == (Rect {
            x: inner.x,
            y: (inner.y + sat_sub16(inner.height, 1)) as u16,
            width: inner.width,
            height: min16(inner.height, 1),
        }),
{
    let y = inner.y + inner.height.saturating_sub(1);
    Rect::new(inner.x, y, inner.width, if inner.height < 1 { inner.height } else { 1 })
}

/// The scroll offset that brings row `selected` into a view of `viewport`
/// rows over `count` rows, moving as little as needed and never past the end.
pub open spec fn visible_scroll(selected: usize, scroll: usize, count: usize, viewport: usize) -> usize {
    if viewport == 0 {
        0
    } else {
        let s = if selected < scroll {
            selected
        } else if selected >= scroll + viewport {
            (selected + 1 - viewport) as usize
        } else {
            scroll
        };
        let max_scroll = if count >= viewport { (count - viewport) as usize } else { 0 };
        if s < max_scroll { s } else { max_scroll }
    }
}

/// The highlighted row of a list and the first row shown.
#[derive(Debug, Clone, Copy, PartialEq, Eq, Structural)]
pub struct ListSelection {
    pub selected: usize,
    pub scroll: usize,
}

impl ListSelection {
    /// Scroll so that the highlighted row is in view.
    pub fn ensure_visible(&mut self, count: usize, viewport: usize)
        ensures
            final(self).selected == old(self).selected,
            final(self).scroll == visible_scroll(old(self).selected, old(self).scroll, count, viewport),
            viewport > 0 && old(self).selected < count ==> final(self).scroll <= final(self).selected
                < final(self).scroll + viewport,
    {
        if viewport == 0 {
            self.scroll = 0;
            return;
        }
        let max_scroll = count.saturating_sub(viewport);
        if self.selected < self.scroll {
            self.scroll = self.selected;
        } else if self.selected >= self.scroll.saturating_add(viewport) {
            self.scroll = self.selected.saturating_add(1).saturating_sub(viewport);
        }
        if self.scroll > max_scroll {
            self.scroll = max_scroll;
        }
    }

    /// Move the highlight by `delta` rows within `count` rows (staying on the
    /// first or last row at the ends), then scroll it into view. With no rows
    /// the highlight and scroll reset.
    pub fn move_by(&mut self, delta: isize, count: usize, viewport: usize)
        requires
            count <= isize::MAX,
            -isize::MAX <= delta,
            (if old(self).selected < count { old(self).selected as int } else { count - 1 }) + delta <= isize::MAX,
        ensures
            count == 0 ==> final(self).selected == 0 && final(self).scroll == 0,
            count > 0 ==> {
                let current = if old(self).selected < count { old(self).selected as int } else { count - 1 };
                let target = current + delta;
                let sel = if target < 0 { 0 } else if target > count - 1 { count - 1 } else { target };
                &&& final(self).selected == sel
                &&& final(self).selected < count
                &&& final(self).scroll == visible_scroll(final(self).selected, old(self).scroll, count, viewport)
            },
    {
        if count == 0 {
            self.selected = 0;
            self.scroll = 0;
            return;
        }
        let last = (count - 1) as isize;
        let current: isize = if self.selected < count { self.selected as isize } else { last };
        let target = current + delta;
        self.selected = if target < 0 { 0 } else if target > last { last as usize } else { target as usize };
        self.ensure_visible(count, viewport);
    }

    /// Keep the highlight within `count` rows and scroll it into view.
    pub fn clamp(&mut self, count: usize, viewport: usize)
        ensures
            final(self).selected == if old(self).selected < count { old(self).selected } else if count > 0 {
                (count - 1) as usize
            } else {
                0
            },
            final(self).scroll == visible_scroll(final(self).selected, old(self).scroll, count, viewport),
    {
        let last = count.saturating_sub(1);
        if self.selected > last {
            self.selected = last;
        }
        self.ensure_visible(count, viewport);
    }

    /// The row under the cell `(col, row)` of list `body` showing `count`
    /// rows, if any.
    pub fn row_index_at(&self, body: Rect, count: usize, col: u16, row: u16) -> (r: Option<usize>)
        ensures
            match r {
                Some(i) => body.x <= col < body.x + body.width && body.y <= row < body.y + body.height
                    && i == self.scroll + (row - body.y) && i < count,
                None => !(body.x <= col < body.x + body.width && body.y <= row < body.y + body.height)
                    || self.scroll + (row - body.y) >= count,
            },
    {
        if !rect_contains(body, col, row) {
            return None;
        }
        let offset = (row - body.y) as usize;
        let idx = self.scroll.saturating_add(offset);
        if idx < count && self.scroll <= usize::MAX - offset {
            Some(idx)
        } else {
            None
        }
    }
}

impl BranchChooserState {
    /// The highlight and scroll of the branch list.
    pub fn selection(&self) -> (s: ListSelection)
        ensures
            s.selected == self.selected,
            s.scroll == self.scroll,
    {
        ListSelection { selected: self.selected, scroll: self.scroll }
    }

    /// Move the highlight by `delta` rows among the branches matching the
    /// query, keeping it in a body of `viewport` rows.
    pub fn move_selection(&mut self, delta: isize, viewport: usize)
        requires
            old(self).branches@.len() <= isize::MAX,
            -isize::MAX <= delta,
            old(self).selected + delta <= isize::MAX,
        ensures
            final(self).branches == old(self).branches,
            final(self).query == old(self).query,
            final(self).default_base == old(self).default_base,
            ({
                let count = matching(old(self).branches@, filter_query(old(self).query@), old(self).branches@.len() as int).len();
                &&& count == 0 ==> final(self).selected == 0 && final(self).scroll == 0
                &&& count > 0 ==> {
                    let current = if old(self).selected < count { old(self).selected as int } else { count - 1 };
                    let target = current + delta;
                    &&& final(self).selected == if target < 0 { 0 } else if target > count - 1 { count - 1 } else { target }
                    &&& final(self).selected < count
                    &&& final(self).scroll == visible_scroll(final(self).selected, old(self).scroll, count as usize, viewport)
                }
            }),
    {
        let count = filtered_branch_indices(self).len();
        proof {
            lemma_matching_len(self.branches@, filter_query(self.query@), self.branches@.len() as int);
        }
        let mut s = self.selection();
        s.move_by(delta, count, viewport);
        self.selected = s.selected;
        self.scroll = s.scroll;
    }

    /// Keep the highlight among the branches matching the query, scrolled
    /// into a body of `viewport` rows.
    pub fn clamp_selection(&mut self, viewport: usize)
        ensures
            final(self).branches == old(self).branches,
            final(self).query == old(self).query,
            final(self).default_base == old(self).default_base,
            ({
                let count = matching(old(self).branches@, filter_query(old(self).query@), old(self).branches@.len() as int).len();
                &&& final(self).selected == if old(self).selected < count { old(self).selected as int } else if count > 0 {
                    count - 1
                } else {
                    0
                }
                &&& final(self).scroll == visible_scroll(final(self).selected, old(self).scroll, count as usize, viewport)
            }),
    {
        let count = filtered_branch_indices(self).len();
        let mut s = self.selection();
        s.clamp(count, viewport);
        self.selected = s.selected;
        self.scroll = s.scroll;
    }

    /// The branch row under the cell `(col, row)` of the list `body`.
    pub fn row_index_at(&self, body: Rect, col: u16, row: u16) -> (r: Option<usize>)
        ensures
            ({
                let count = matching(self.branches@, filter_query(self.query@), self.branches@.len() as int).len();
                match r {
                    Some(i) => body.x <= col < body.x + body.width && body.y <= row < body.y + body.height
                        && i == self.scroll + (row - body.y) && i < count,
                    None => !(body.x <= col < body.x + body.width && body.y <= row < body.y + body.height)
                        || self.scroll + (row - body.y) >= count,
                }
            }),
    {
        let count = filtered_branch_indices(self).len();
        self.selection().row_index_at(body, count, col, row)
    }
}

// ---------------------------------------------------------------------------
// Pointer input on a chooser
// ---------------------------------------------------------------------------

/// What the pointer did over a chooser overlay.
#[derive(Debug, Clone, Copy, PartialEq, Eq, Structural)]
pub enum ChooserPointer {
    Moved,
    LeftDown,
    ScrollUp,
    ScrollDown,
    Other,
}

/// What the overlay does after a pointer event: stay open, take the
/// highlighted row, or close without choosing.
#[derive(Debug, Clone, Copy, PartialEq, Eq, Structural)]
pub enum ChooserOutcome {
    Stay,
    Accept,
    Dismiss,
}

/// The list row under `(col, row)` of a body showing `count` rows from
/// `scroll` on, if there is one.
pub open spec fn hit_row(scroll: usize, body: Rect, count: usize, col: u16, row: u16) -> Option<usize> {
    if body.x <= col < body.x + body.width && body.y <= row < body.y + body.height
        && scroll + (row - body.y) < count {
        Some((scroll + (row - body.y)) as usize)
    } else {
        None
    }
}

/// How far one wheel notch scrolls a chooser list.
pub const WHEEL_ROWS: usize = 3;

/// The highlight after scrolling the list to offset `scroll`: the highlight
/// follows the first visible row, kept within `count` rows.
pub open spec fn follow_scroll(scroll: usize, count: usize) -> usize {
    if scroll < count { scroll } else if count > 0 { (count - 1) as usize } else { 0 }
}

/// The effect of a pointer event on a chooser list: `before` and `after`
/// are the highlight and scroll around the event, `out` what the overlay
/// does next.
pub open spec fn pointer_step(
    before: ListSelection,
    kind: ChooserPointer,
    col: u16,
    row: u16,
    body: Rect,
    popup: Rect,
    count: usize,
    after: ListSelection,
    out: ChooserOutcome,
) -> bool {
        let viewport = body.height as usize;
        let hit = hit_row(before.scroll, body, count, col, row);
        match kind {
            ChooserPointer::Moved => out == ChooserOutcome::Stay && match hit {
                Some(i) => after.selected == i
                    && after.scroll == visible_scroll(i, before.scroll, count, viewport),
                None => after == before,
            },
            ChooserPointer::LeftDown => match hit {
                Some(i) => out == ChooserOutcome::Accept && after.selected == i
                    && after.scroll == before.scroll,
                None => after == before && out == if popup.x <= col < popup.x + popup.width
                    && popup.y <= row < popup.y + popup.height {
                    ChooserOutcome::Stay
                } else {
                    ChooserOutcome::Dismiss
                },
            },
            ChooserPointer::ScrollUp => {
                let top = if before.scroll >= WHEEL_ROWS { (before.scroll - WHEEL_ROWS) as usize } else { 0 };
                &&& out == ChooserOutcome::Stay
                &&& after.selected == follow_scroll(top, count)
                &&& after.scroll == visible_scroll(after.selected, top, count, viewport)
            },
            ChooserPointer::ScrollDown => {
                let max = if count >= viewport { (count - viewport) as usize } else { 0 };
                let down = if before.scroll + WHEEL_ROWS <= usize::MAX { (before.scroll + WHEEL_ROWS) as usize } else { usize::MAX };
                let top = if down < max { down } else { max };
                &&& out == ChooserOutcome::Stay
                &&& after.selected == follow_scroll(top, count)
                &&& after.scroll == visible_scroll(after.selected, top, count, viewport)
            },
            ChooserPointer::Other => out == ChooserOutcome::Stay && after == before,
        }
}

impl ListSelection {
    /// Apply a pointer event at `(col, row)` to a chooser whose list `body`
    /// shows `count` rows and whose frame is `popup`. Hovering a row
    /// highlights it, clicking a row highlights and accepts it, clicking
    /// outside the popup dismisses the chooser, and the wheel scrolls by
    /// three rows with the highlight following the top row.
    pub fn apply_pointer(&mut self, kind: ChooserPointer, col: u16, row: u16, body: Rect, popup: Rect, count: usize) -> (out: ChooserOutcome)
        ensures
            pointer_step(*old(self), kind, col, row, body, popup, count, *final(self), out),
    {
        let viewport = body.height as usize;
        match kind {
            ChooserPointer::Moved => {
                if let Some(i) = self.row_index_at(body, count, col, row) {
                    self.selected = i;
                    self.ensure_visible(count, viewport);
                }
                ChooserOutcome::Stay
            },
            ChooserPointer::LeftDown => {
                if let Some(i) = self.row_index_at(body, count, col, row) {
                    self.selected = i;
                    ChooserOutcome::Accept
                } else if !rect_contains(popup, col, row) {
                    ChooserOutcome::Dismiss
                } else {
                    ChooserOutcome::Stay
                }
            },
            ChooserPointer::ScrollUp => {
                self.scroll = self.scroll.saturating_sub(WHEEL_ROWS);
                self.selected = self.scroll;
                self.clamp(count, viewport);
                ChooserOutcome::Stay
            },
            ChooserPointer::ScrollDown => {
                let max = count.saturating_sub(viewport);
                let down = self.scroll.saturating_add(WHEEL_ROWS);
                self.scroll = if down < max { down } else { max };
                self.selected = self.scroll;
                self.clamp(count, viewport);
                ChooserOutcome::Stay
            },
            ChooserPointer::Other => ChooserOutcome::Stay,
        }
    }
}

/// Scrolling with [`visible_scroll`] puts a row of the list in view.
pub proof fn lemma_visible_scroll_shows(selected: usize, scroll: usize, count: usize, viewport: usize)
    requires
        viewport > 0,
        selected < count,
    ensures
        visible_scroll(selected, scroll, count, viewport) <= selected,
        selected < visible_scroll(selected, scroll, count, viewport) + viewport,
{
}

/// A pointer event never takes the highlight off the list or out of view:
/// when the highlighted row was a row of the list in view before the event,
/// it is one after it.
pub proof fn lemma_pointer_keeps_highlight_in_view(
    before: ListSelection,
    kind: ChooserPointer,
    col: u16,
    row: u16,
    body: Rect,
    popup: Rect,
    count: usize,
    after: ListSelection,
    out: ChooserOutcome,
)
    requires
        pointer_step(before, kind, col, row, body, popup, count, after, out),
        before.selected < count,
        before.scroll <= before.selected < before.scroll + body.height,
    ensures
        after.selected < count,
        after.scroll <= after.selected < after.scroll + body.height,
{
    let viewport = body.height as usize;
    if after.selected < count && viewport > 0 {
        lemma_visible_scroll_shows(after.selected, before.scroll, count, viewport);
        let up = if before.scroll >= WHEEL_ROWS { (before.scroll - WHEEL_ROWS) as usize } else { 0 };
        lemma_visible_scroll_shows(after.selected, up, count, viewport);
        let max = if count >= viewport { (count - viewport) as usize } else { 0 };
        let down = if before.scroll + WHEEL_ROWS <= usize::MAX { (before.scroll + WHEEL_ROWS) as usize } else { usize::MAX };
        let top = if down < max { down } else { max };
        lemma_visible_scroll_shows(after.selected, top, count, viewport);
    }
}

impl BranchChooserState {
    /// Apply a pointer event to the branch chooser whose list `body` and
    /// frame `popup` are given. Clicking a row also clears the typed query,
    /// so that the row clicked is the branch chosen.
    pub fn apply_pointer(&mut self, kind: ChooserPointer, col: u16, row: u16, body: Rect, popup: Rect) -> (out: ChooserOutcome)
        ensures
            ({
                let count = matching(old(self).branches@, filter_query(old(self).query@), old(self).branches@.len() as int).len() as usize;
                let before = ListSelection { selected: old(self).selected, scroll: old(self).scroll };
                let after = ListSelection { selected: final(self).selected, scroll: final(self).scroll };
                &&& final(self).branches == old(self).branches
                &&& final(self).default_base == old(self).default_base
                &&& pointer_step(before, kind, col, row, body, popup, count, after, out)
                &&& final(self).query@ == if out == ChooserOutcome::Accept { Seq::<char>::empty() } else { old(self).query@ }
            }),
    {
        let count = filtered_branch_indices(self).len();
        let mut s = self.selection();
        let out = s.apply_pointer(kind, col, row, body, popup, count);
        self.selected = s.selected;
        self.scroll = s.scroll;
        if out == ChooserOutcome::Accept {
            self.query = String::new();
        }
        out
    }
}

impl AgentChooserState {
    /// The highlight and scroll of the agent list.
    pub fn selection(&self) -> (s: ListSelection)
        ensures
            s.selected == self.selected,
            s.scroll == self.scroll,
    {
        ListSelection { selected: self.selected, scroll: self.scroll }
    }

    /// Move the highlight by `delta` rows among the agents matching the
    /// query, keeping it in a body of `viewport` rows.
    pub fn move_selection(&mut self, delta: isize, viewport: usize)
        requires
            old(self).agents@.len() <= isize::MAX,
            -isize::MAX <= delta,
            old(self).selected + delta <= isize::MAX,
        ensures
            final(self).agents == old(self).agents,
            final(self).query == old(self).query,
            ({
                let count = matching_agents(old(self).agents@, ascii_lower(trim_ws(old(self).query@)), old(self).agents@.len() as int).len();
                &&& count == 0 ==> final(self).selected == 0 && final(self).scroll == 0
                &&& count > 0 ==> {
                    let current = if old(self).selected < count { old(self).selected as int } else { count - 1 };
                    let target = current + delta;
                    &&& final(self).selected == if target < 0 { 0 } else if target > count - 1 { count - 1 } else { target }
                    &&& final(self).scroll == visible_scroll(final(self).selected, old(self).scroll, count as usize, viewport)
                }
            }),
    {
        let count = self.filtered_indices().len();
        proof {
            lemma_matching_agents_len(self.agents@, ascii_lower(trim_ws(self.query@)), self.agents@.len() as int);
        }
        let mut s = self.selection();
        s.move_by(delta, count, viewport);
        self.selected = s.selected;
        self.scroll = s.scroll;
    }

    /// Keep the highlight among the agents matching the query, scrolled into
    /// a body of `viewport` rows.
    pub fn clamp_selection(&mut self, viewport: usize)
        ensures
            final(self).agents == old(self).agents,
            final(self).query == old(self).query,
            ({
                let count = matching_agents(old(self).agents@, ascii_lower(trim_ws(old(self).query@)), old(self).agents@.len() as int).len();
                &&& final(self).selected == if old(self).selected < count { old(self).selected as int } else if count > 0 {
                    count - 1
                } else {
                    0
                }
                &&& final(self).scroll == visible_scroll(final(self).selected, old(self).scroll, count as usize, viewport)
            }),
    {
        let count = self.filtered_indices().len();
        let mut s = self.selection();
        s.clamp(count, viewport);
        self.selected = s.selected;
        self.scroll = s.scroll;
    }

    /// Apply a pointer event to the agent chooser whose list `body` and frame
    /// `popup` are given. Clicking a row also clears the typed query.
    pub fn apply_pointer(&mut self, kind: ChooserPointer, col: u16, row: u16, body: Rect, popup: Rect) -> (out: ChooserOutcome)
        ensures
            ({
                let count = matching_agents(old(self).agents@, ascii_lower(trim_ws(old(self).query@)), old(self).agents@.len() as int).len() as usize;
                let before = ListSelection { selected: old(self).selected, scroll: old(self).scroll };
                let after = ListSelection { selected: final(self).selected, scroll: final(self).scroll };
                &&& final(self).agents == old(self).agents
                &&& pointer_step(before, kind, col, row, body, popup, count, after, out)
                &&& final(self).query@ == if out == ChooserOutcome::Accept { Seq::<char>::empty() } else { old(self).query@ }
            }),
    {
        let count = self.filtered_indices().len();
        let mut s = self.selection();
        let out = s.apply_pointer(kind, col, row, body, popup, count);
        self.selected = s.selected;
        self.scroll = s.scroll;
        if out == ChooserOutcome::Accept {
            self.query = String::new();
        }
        out
    }
}

proof fn lemma_matching_agents_len(agents: Seq<String>, q: Seq<char>, upto: int)
    requires
        0 <= upto <= agents.len(),
    ensures
        matching_agents(agents, q, upto).len() <= upto,
    decreases upto,
{
    if upto > 0 {
        lemma_matching_agents_len(agents, q, upto - 1);
    }
}

// ---------------------------------------------------------------------------
// Typing into a chooser
// ---------------------------------------------------------------------------

/// A key pressed in a chooser, with its modifiers; `meta` stands for any
/// modifier other than shift, control and alt.
#[derive(Debug, Clone, Copy, PartialEq, Eq, Structural)]
pub struct ChooserKey {
    pub code: KeyCode,
    pub shift: bool,
    pub ctrl: bool,
    pub alt: bool,
    pub meta: bool,
}

/// What a key does in a chooser.
#[derive(Debug, Clone, Copy, PartialEq, Eq, Structural)]
pub enum ChooserEdit {
    /// Esc: clear the query, or leave the chooser when it is empty.
    Escape,
    /// Enter: take the highlighted row.
    Accept,
    /// Up/Down (or ctrl+p/ctrl+n): move the highlight.
    Move(isize),
    /// ctrl+u: clear the query.
    ClearQuery,
    /// Backspace: delete the last typed character.
    DeleteBack,
    /// A character typed with no modifier but shift.
    Type(char),
    /// Anything else.
    Ignore,
}

/// The edit a key makes in a chooser.
pub open spec fn chooser_edit(key: ChooserKey) -> ChooserEdit {
    let only_ctrl = key.ctrl && !key.shift && !key.alt && !key.meta;
    let typing = !key.ctrl && !key.alt && !key.meta;
    match key.code {
        KeyCode::Esc => ChooserEdit::Escape,
        KeyCode::Enter => ChooserEdit::Accept,
        KeyCode::Up => ChooserEdit::Move(-1isize),
        KeyCode::Down => ChooserEdit::Move(1isize),
        KeyCode::Char(c) => if only_ctrl && c == 'p' {
            ChooserEdit::Move(-1isize)
        } else if only_ctrl && c == 'n' {
            ChooserEdit::Move(1isize)
        } else if only_ctrl && c == 'u' {
            ChooserEdit::ClearQuery
        } else if typing {
            ChooserEdit::Type(c)
        } else {
            ChooserEdit::Ignore
        },
        KeyCode::Backspace => ChooserEdit::DeleteBack,
        _ => ChooserEdit::Ignore,
    }
}

/// The edit a key makes in a chooser.
pub fn chooser_key_edit(key: ChooserKey) -> (e: ChooserEdit)
    ensures
        e == chooser_edit(key),
{
    let only_ctrl = key.ctrl && !key.shift && !key.alt && !key.meta;
    let typing = !key.ctrl && !key.alt && !key.meta;
    match key.code {
        KeyCode::Esc => ChooserEdit::Escape,
        KeyCode::Enter => ChooserEdit::Accept,
        KeyCode::Up => ChooserEdit::Move(-1),
        KeyCode::Down => ChooserEdit::Move(1),
        KeyCode::Char(c) => if only_ctrl && c == 'p' {
            ChooserEdit::Move(-1)
        } else if only_ctrl && c == 'n' {
            ChooserEdit::Move(1)
        } else if only_ctrl && c == 'u' {
            ChooserEdit::ClearQuery
        } else if typing {
            ChooserEdit::Type(c)
        } else {
            ChooserEdit::Ignore
        },
        KeyCode::Backspace => ChooserEdit::DeleteBack,
        _ => ChooserEdit::Ignore,
    }
}

/// The query after an edit: cleared by Esc (when not already empty) and
/// ctrl+u, shortened by Backspace, extended by a typed character.
pub open spec fn edited_query(q: Seq<char>, e: ChooserEdit) -> Seq<char> {
    match e {
        ChooserEdit::Escape => Seq::empty(),
        ChooserEdit::ClearQuery => Seq::empty(),
        ChooserEdit::DeleteBack => if q.len() > 0 { q.drop_last() } else { q },
        ChooserEdit::Type(c) => q.push(c),
        _ => q,
    }
}

/// The edit changes the query and so re-filters the list.
pub open spec fn refilters(q: Seq<char>, e: ChooserEdit) -> bool {
    match e {
        ChooserEdit::Escape => q.len() > 0,
        ChooserEdit::ClearQuery | ChooserEdit::DeleteBack | ChooserEdit::Type(_) => true,
        _ => false,
    }
}

/// The highlight kept on one of `count` rows and scrolled into a view of
/// `viewport` rows.
pub open spec fn clamped(s: ListSelection, count: usize, viewport: usize) -> ListSelection {
    let sel = if s.selected < count { s.selected } else if count > 0 { (count - 1) as usize } else { 0 };
    ListSelection { selected: sel, scroll: visible_scroll(sel, s.scroll, count, viewport) }
}

/// The highlight moved by `delta` among `count` rows, staying on the first
/// or last row at the ends, and scrolled into view.
pub open spec fn moved(s: ListSelection, delta: isize, count: usize, viewport: usize) -> ListSelection {
    if count == 0 {
        ListSelection { selected: 0, scroll: 0 }
    } else {
        let current = if s.selected < count { s.selected as int } else { count - 1 };
        let target = current + delta;
        let sel = (if target < 0 { 0 } else if target > count - 1 { count - 1 } else { target }) as usize;
        ListSelection { selected: sel, scroll: visible_scroll(sel, s.scroll, count, viewport) }
    }
}

/// The effect of edit `e` on a chooser whose query is `q`, whose highlight
/// is `before` and whose list shows `count(q')` rows for a query `q'`:
/// `after` is the highlight after it and `out` what the chooser does next.
pub open spec fn chooser_step(
    q: Seq<char>,
    e: ChooserEdit,
    before: ListSelection,
    count_before: usize,
    count_after: usize,
    viewport: usize,
    after: ListSelection,
    out: ChooserOutcome,
) -> bool {
    &&& out == match e {
        ChooserEdit::Escape => if q.len() == 0 { ChooserOutcome::Dismiss } else { ChooserOutcome::Stay },
        ChooserEdit::Accept => ChooserOutcome::Accept,
        _ => ChooserOutcome::Stay,
    }
    &&& after == match e {
        ChooserEdit::Move(d) => moved(before, d, count_before, viewport),
        _ => if refilters(q, e) { clamped(before, count_after, viewport) } else { before },
    }
}

/// The query with its last character removed, if it has one.
fn delete_back(q: &String) -> (r: String)
    ensures
        r@ == if q@.len() > 0 { q@.drop_last() } else { q@ },
{
    let v = chars_of(q.as_str());
    if v.len() == 0 {
        return string_of(&v);
    }
    let w = slice_chars(&v, 0, v.len() - 1);
    proof {
        assert(w@ =~= q@.drop_last());
    }
    string_of(&w)
}

impl BranchChooserState {
    /// Apply a key to the branch chooser with a list body of `viewport`
    /// rows: edit the query (re-filtering and clamping the highlight), move
    /// the highlight, take the highlighted row, or step back when Esc is
    /// pressed with an empty query.
    pub fn apply_key(&mut self, key: ChooserKey, viewport: usize) -> (out: ChooserOutcome)
        requires
            old(self).branches@.len() < isize::MAX,
            old(self).selected < isize::MAX,
        ensures
            ({
                let e = chooser_edit(key);
                let q = old(self).query@;
                let n = old(self).branches@.len() as int;
                &&& final(self).branches == old(self).branches
                &&& final(self).default_base == old(self).default_base
                &&& final(self).query@ == edited_query(q, e)
                &&& chooser_step(
                    q,
                    e,
                    (ListSelection { selected: old(self).selected, scroll: old(self).scroll }),
                    matching(old(self).branches@, filter_query(q), n).len() as usize,
                    matching(old(self).branches@, filter_query(edited_query(q, e)), n).len() as usize,
                    viewport,
                    (ListSelection { selected: final(self).selected, scroll: final(self).scroll }),
                    out,
                )
            }),
    {
        let e = chooser_key_edit(key);
        proof {
            lemma_matching_len(self.branches@, filter_query(self.query@), self.branches@.len() as int);
            lemma_matching_len(self.branches@, filter_query(edited_query(self.query@, e)), self.branches@.len() as int);
        }
        match e {
            ChooserEdit::Escape => {
                if self.query.as_str().unicode_len() == 0 {
                    return ChooserOutcome::Dismiss;
                }
                self.query = String::new();
                self.clamp_selection(viewport);
                ChooserOutcome::Stay
            },
            ChooserEdit::Accept => ChooserOutcome::Accept,
            ChooserEdit::Move(d) => {
                self.move_selection(d, viewport);
                ChooserOutcome::Stay
            },
            ChooserEdit::ClearQuery => {
                self.query = String::new();
                self.clamp_selection(viewport);
                ChooserOutcome::Stay
            },
            ChooserEdit::DeleteBack => {
                self.query = delete_back(&self.query);
                self.clamp_selection(viewport);
                ChooserOutcome::Stay
            },
            ChooserEdit::Type(c) => {
                self.query.push(c);
                self.clamp_selection(viewport);
                ChooserOutcome::Stay
            },
            ChooserEdit::Ignore => ChooserOutcome::Stay,
        }
    }
}

impl AgentChooserState {
    /// Apply a key to the agent chooser with a list body of `viewport` rows,
    /// as for the branch chooser.
    pub fn apply_key(&mut self, key: ChooserKey, viewport: usize) -> (out: ChooserOutcome)
        requires
            old(self).agents@.len() < isize::MAX,
            old(self).selected < isize::MAX,
        ensures
            ({
                let e = chooser_edit(key);
                let q = old(self).query@;
                let n = old(self).agents@.len() as int;
                &&& final(self).agents == old(self).agents
                &&& final(self).query@ == edited_query(q, e)
                &&& chooser_step(
                    q,
                    e,
                    (ListSelection { selected: old(self).selected, scroll: old(self).scroll }),
                    matching_agents(old(self).agents@, ascii_lower(trim_ws(q)), n).len() as usize,
                    matching_agents(old(self).agents@, ascii_lower(trim_ws(edited_query(q, e))), n).len() as usize,
                    viewport,
                    (ListSelection { selected: final(self).selected, scroll: final(self).scroll }),
                    out,
                )
            }),
    {
        let e = chooser_key_edit(key);
        proof {
            lemma_matching_agents_len(self.agents@, ascii_lower(trim_ws(self.query@)), self.agents@.len() as int);
            lemma_matching_agents_len(self.agents@, ascii_lower(trim_ws(edited_query(self.query@, e))), self.agents@.len() as int);
        }
        match e {
            ChooserEdit::Escape => {
                if self.query.as_str().unicode_len() == 0 {
                    return ChooserOutcome::Dismiss;
                }
                self.query = String::new();
                self.clamp_selection(viewport);
                ChooserOutcome::Stay
            },
            ChooserEdit::Accept => ChooserOutcome::Accept,
            ChooserEdit::Move(d) => {
                self.move_selection(d, viewport);
                ChooserOutcome::Stay
            },
            ChooserEdit::ClearQuery => {
                self.query = String::new();
                self.clamp_selection(viewport);
                ChooserOutcome::Stay
            },
            ChooserEdit::DeleteBack => {
                self.query = delete_back(&self.query);
                self.clamp_selection(viewport);
                ChooserOutcome::Stay
            },
            ChooserEdit::Type(c) => {
                self.query.push(c);
                self.clamp_selection(viewport);
                ChooserOutcome::Stay
            },
            ChooserEdit::Ignore => ChooserOutcome::Stay,
        }
    }
}

proof fn lemma_matching_len(branches: Seq<String>, q: Seq<char>, upto: int)
    requires
        0 <= upto <= branches.len(),
    ensures
        matching(branches, q, upto).len() <= upto,
    decreases upto,
{
    if upto > 0 {
        lemma_matching_len(branches, q, upto - 1);
    }
}

// ---------------------------------------------------------------------------
// The agent chooser
// ---------------------------------------------------------------------------

/// What the agent chooser shows and has been typed into it.
#[derive(Debug, Clone)]
pub struct AgentChooserState {
    /// Agent labels, in display order.
    pub agents: Vec<String>,
    pub query: String,
    pub selected: usize,
    pub scroll: usize,
}

/// The positions among `agents[..upto]` matching the (trimmed, lowercased)
/// query `q`: everything for an empty query, else a case-insensitive
/// substring match.
pub open spec fn matching_agents(agents: Seq<String>, q: Seq<char>, upto: int) -> Seq<usize>
    decreases upto,
{
    if upto <= 0 {
        Seq::empty()
    } else if q.len() == 0 || has_substring(ascii_lower(agents[upto - 1]@), q) {
        matching_agents(agents, q, upto - 1).push((upto - 1) as usize)
    } else {
        matching_agents(agents, q, upto - 1)
    }
}

impl AgentChooserState {
    /// Positions into `agents` matching the query; an empty query matches all.
    pub fn filtered_indices(&self) -> (idx: Vec<usize>)
        ensures
            idx@ == matching_agents(self.agents@, ascii_lower(trim_ws(self.query@)), self.agents@.len() as int),
    {
        let q = lower_chars(&chars_of(self.query.as_str().trim()));
        let mut idx: Vec<usize> = Vec::new();
        let mut i: usize = 0;
        while i < self.agents.len()
            invariant
                q@ == ascii_lower(trim_ws(self.query@)),
                i <= self.agents@.len(),
                idx@ == matching_agents(self.agents@, q@, i as int),
            decreases self.agents.len() - i,
        {
            if q.len() == 0 || contains_chars(&lower_chars(&chars_of(self.agents[i].as_str())), &q) {
                idx.push(i);
            }
            i = i + 1;
        }
        idx
    }

    /// The agent label at the highlighted row of the filtered list.
    pub fn selected_agent(&self) -> (a: Option<String>)
        ensures
            ({
                let rows = matching_agents(self.agents@, ascii_lower(trim_ws(self.query@)), self.agents@.len() as int);
                match a {
                    Some(s) => self.selected < rows.len() && s == self.agents@[rows[self.selected as int] as int],
                    None => self.selected >= rows.len(),
                }
            }),
    {
        let rows = self.filtered_indices();
        if self.selected >= rows.len() {
            return None;
        }
        proof {
            lemma_matching_agents_in_range(self.agents@, ascii_lower(trim_ws(self.query@)), self.agents@.len() as int);
        }
        Some(self.agents[rows[self.selected]].clone())
    }
}

proof fn lemma_matching_agents_in_range(agents: Seq<String>, q: Seq<char>, upto: int)
    requires
        0 <= upto <= agents.len(),
    ensures
        forall|k: int| 0 <= k < matching_agents(agents, q, upto).len() ==> #[trigger] matching_agents(agents, q, upto)[k] < upto,
    decreases upto,
{
    if upto > 0 {
        lemma_matching_agents_in_range(agents, q, upto - 1);
        let prev = matching_agents(agents, q, upto - 1);
        if q.len() == 0 || has_substring(ascii_lower(agents[upto - 1]@), q) {
            assert forall|k: int| 0 <= k < prev.len() + 1 implies #[trigger] prev.push((upto - 1) as usize)[k] < upto by {
                if k < prev.len() {
                    assert(prev.push((upto - 1) as usize)[k] == prev[k]);
                }
            }
        }
    }
}

} // verus!
