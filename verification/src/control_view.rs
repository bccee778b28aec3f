//! What the home view's lists show, apart from how they are drawn: which
//! rows are scrolled into view, the lines of one person's pull-request list
//! with a title above each repository's run of PRs, the stack marker of a
//! review row, and the labels of the workspace list's tree.
use vstd::prelude::*;
use crate::chooser::{rect_ok, Rect};
use crate::pr_status::PersonPr;
use crate::repos::Repository;
use crate::sidebar::WorkspaceListEntry;
use crate::sidebar_layout::next_is_indented;
use crate::text::{chars_of, str_eq, string_of};
use crate::workspace::{decimal, decimal_of, Workspace};

verus! {

// ---------------------------------------------------------------------------
// Scrolling a list to its highlighted row
// ---------------------------------------------------------------------------

/// The offset keeping row `selected` in a view of `rows` rows: `scroll` while
/// the row is in view, else just far enough to bring it in.
pub open spec fn kept_in_view(scroll: usize, selected: usize, rows: usize) -> usize {
    if rows == 0 {
        0
    } else if selected < scroll {
        selected
    } else if selected >= scroll + rows {
        (selected + 1 - rows) as usize
    } else {
        scroll
    }
}

/// Scroll offset that keeps row `selected` within a view of `list_rows`
/// rows, reusing `scroll` while the row is already in view and otherwise
/// scrolling just far enough to bring it back.
pub fn scroll_to_keep_visible(scroll: usize, selected: usize, list_rows: usize) -> (r: usize)
    requires
        scroll + list_rows <= usize::MAX,
        selected < usize::MAX,
    ensures
        r == kept_in_view(scroll, selected, list_rows),
        list_rows > 0 ==> r <= selected < r + list_rows,
{
    if list_rows == 0 {
        return 0;
    }
    if selected < scroll {
        selected
    } else if selected >= scroll + list_rows {
        selected + 1 - list_rows
    } else {
        scroll
    }
}

/// `a` or `b`, whichever is smaller.
pub open spec fn min_usize(a: usize, b: usize) -> usize {
    if a < b { a } else { b }
}

/// What a list pane of `body_height` rows shows of `len` entries with entry
/// `wanted` highlighted: the bottom row is kept for key hints when the pane
/// has focus and room; the highlight is kept on an entry; the view starts at
/// the top unless the highlight lies below it.
pub struct ListWindow {
    pub list_rows: usize,
    pub selected: usize,
    pub scroll: usize,
}

/// The rows left for the list in a body of `body_height` rows.
pub open spec fn list_rows_of(body_height: u16, focused: bool) -> usize {
    (body_height - if focused && body_height >= 2 { 1int } else { 0int }) as usize
}

/// The window of the people list: `len` people, `wanted` highlighted.
pub fn pr_people_window(len: usize, wanted: usize, body_height: u16, focused: bool) -> (w: ListWindow)
    ensures
        w.list_rows == list_rows_of(body_height, focused),
        w.selected == min_usize(wanted, if len > 0 { (len - 1) as usize } else { 0 }),
        w.scroll == kept_in_view(0, w.selected, if w.list_rows > 0 { w.list_rows } else { 1 }),
{
    let reserve: u16 = if focused && body_height >= 2 { 1 } else { 0 };
    let list_rows = (body_height - reserve) as usize;
    let last = len.saturating_sub(1);
    let selected = if wanted < last { wanted } else { last };
    let rows = if list_rows > 1 { list_rows } else { 1 };
    let scroll = scroll_to_keep_visible(0, selected, rows);
    ListWindow { list_rows, selected, scroll }
}

/// A person's name in the people list; the user is marked as such.
pub fn person_display_name(login: &str, is_me: bool) -> (s: String)
    ensures
        s@ == if is_me { login@ + " (you)"@ } else { login@ },
{
    let mut v = chars_of(login);
    if is_me {
        v.push(' ');
        v.push('(');
        v.push('y');
        v.push('o');
        v.push('u');
        v.push(')');
    }
    let s = string_of(&v);
    proof {
        reveal_strlit(" (you)");
        if is_me {
            assert(s@ =~= login@ + " (you)"@);
        }
    }
    s
}

/// Where the agents pane puts its list: the body below its title row, the
/// key-hint row at the bottom while the pane has focus and is at least four
/// rows tall, and how many agents fit (each takes its name row, its status
/// row and a gap row).
#[derive(Debug, Clone, Copy, PartialEq, Eq, Structural)]
pub struct AgentsPaneLayout {
    pub body: Rect,
    pub hint_row: Option<u16>,
    pub shown: usize,
}

/// The layout of the agents pane `area` listing `entries` agents; `None`
/// when the pane is too small to show anything.
pub fn agents_pane_layout(area: Rect, focused: bool, entries: usize) -> (r: Option<AgentsPaneLayout>)
    requires
        rect_ok(area),
    ensures
        r == if area.width == 0 || area.height < 2 {
            None
        } else {
            let reserve = focused && area.height >= 4;
            let h = (area.height - 1 - if reserve { 1int } else { 0int }) as u16;
            let fit = ((h + 1) / 3) as usize;
            Some(AgentsPaneLayout {
                body: Rect { x: area.x, y: (area.y + 1) as u16, width: area.width, height: h },
                hint_row: if reserve { Some((area.y + area.height - 1) as u16) } else { None },
                shown: if entries < fit { entries } else { fit },
            })
        },
{
    if area.width == 0 || area.height < 2 {
        return None;
    }
    let reserve = focused && area.height >= 4;
    let h = area.height - 1 - if reserve { 1 } else { 0 };
    let body = Rect::new(area.x, area.y + 1, area.width, h);
    let hint_row = if reserve { Some(area.y + (area.height - 1)) } else { None };
    let fit = ((h as usize) + 1) / 3;
    Some(AgentsPaneLayout { body, hint_row, shown: if entries < fit { entries } else { fit } })
}

/// The first repository shown in the repository picker of `len`
/// repositories: the stored offset, kept on a repository.
pub fn repos_view_scroll(len: usize, repo_scroll: usize) -> (s: usize)
    ensures
        s == min_usize(repo_scroll, if len > 0 { (len - 1) as usize } else { 0 }),
{
    let last = len.saturating_sub(1);
    if repo_scroll < last { repo_scroll } else { last }
}

// ---------------------------------------------------------------------------
// One person's PR list
// ---------------------------------------------------------------------------

/// A line of one person's PR list: the title of a repository, or the PR at
/// a position among the person's visible rows.
#[derive(Debug, Clone, PartialEq, Eq)]
pub enum PersonLine {
    Title(String),
    Pr(usize),
}

/// A line as plain values: a title's text, or a PR's position.
pub open spec fn line_view(l: PersonLine) -> (Option<Seq<char>>, usize) {
    match l {
        PersonLine::Title(t) => (Some(t@), 0),
        PersonLine::Pr(i) => (None, i),
    }
}

/// The label of repository `key` among `repos[k..]`: the first one with that
/// key, or the key itself when none has it.
pub open spec fn repo_label(repos: Seq<Repository>, key: Seq<char>, k: int) -> Seq<char>
    decreases repos.len() - k,
{
    if k < 0 || k >= repos.len() {
        key
    } else if repos[k].key@ == key {
        repos[k].label@
    } else {
        repo_label(repos, key, k + 1)
    }
}

/// The repository key of row `j`.
pub open spec fn row_key(rows: Seq<(String, PersonPr)>, j: int) -> Seq<char> {
    rows[j].1.pr.repo_key@
}

/// The lines for the first `n` rows: each row's PR, preceded by its
/// repository's title where the repository differs from the row before.
pub open spec fn person_lines(rows: Seq<(String, PersonPr)>, repos: Seq<Repository>, n: int) -> Seq<(Option<Seq<char>>, usize)>
    decreases n,
{
    if n <= 0 {
        Seq::empty()
    } else {
        let prev = person_lines(rows, repos, n - 1);
        let titled = if n == 1 || row_key(rows, n - 1) != row_key(rows, n - 2) {
            prev.push((Some(repo_label(repos, row_key(rows, n - 1), 0)), 0usize))
        } else {
            prev
        };
        titled.push((None::<Seq<char>>, (n - 1) as usize))
    }
}

/// The PR positions shown by `lines`, in order.
pub open spec fn pr_indices(lines: Seq<(Option<Seq<char>>, usize)>) -> Seq<usize>
    decreases lines.len(),
{
    if lines.len() == 0 {
        Seq::empty()
    } else {
        let rest = pr_indices(lines.drop_last());
        match lines.last().0 {
            None => rest.push(lines.last().1),
            Some(_) => rest,
        }
    }
}

/// Every visible row of a person's PR list is shown, once and in order:
/// apart from the repository titles, the lines are the rows `0..n`.
pub proof fn lemma_person_lines_show_each_row_once(rows: Seq<(String, PersonPr)>, repos: Seq<Repository>, n: int)
    requires
        0 <= n <= rows.len(),
    ensures
        pr_indices(person_lines(rows, repos, n)) == Seq::new(n as nat, |j: int| j as usize),
    decreases n,
{
    if n > 0 {
        lemma_person_lines_show_each_row_once(rows, repos, n - 1);
        let prev = person_lines(rows, repos, n - 1);
        let titled = if n == 1 || row_key(rows, n - 1) != row_key(rows, n - 2) {
            prev.push((Some(repo_label(repos, row_key(rows, n - 1), 0)), 0usize))
        } else {
            prev
        };
        let lines = titled.push((None::<Seq<char>>, (n - 1) as usize));
        assert(lines.drop_last() =~= titled);
        if titled != prev {
            assert(titled.drop_last() =~= prev);
        }
        assert(pr_indices(titled) == pr_indices(prev));
        assert(Seq::new(n as nat, |j: int| j as usize) =~= Seq::new((n - 1) as nat, |j: int| j as usize).push((n - 1) as usize));
    }
}

/// The label of the repository with key `key`, or the key itself.
pub fn repo_label_of(repos: &Vec<Repository>, key: &str) -> (s: String)
    ensures
        s@ == repo_label(repos@, key@, 0),
{
    let mut k: usize = 0;
    while k < repos.len()
        invariant
            k <= repos@.len(),
            repo_label(repos@, key@, k as int) == repo_label(repos@, key@, 0),
        decreases repos.len() - k,
    {
        if str_eq(repos[k].key.as_str(), key) {
            return repos[k].label.clone();
        }
        k = k + 1;
    }
    key.to_string()
}

/// The lines of one person's PR list for its visible `rows` (stack prefix
/// and PR): a title line with the repository's label before each run of PRs
/// of one repository, then a line per PR. Titles are not selectable.
pub fn person_pr_lines(rows: &Vec<(String, PersonPr)>, repos: &Vec<Repository>) -> (lines: Vec<PersonLine>)
    ensures
        lines@.map_values(|l: PersonLine| line_view(l)) == person_lines(rows@, repos@, rows@.len() as int),
{
    let mut lines: Vec<PersonLine> = Vec::new();
    let mut j: usize = 0;
    while j < rows.len()
        invariant
            j <= rows@.len(),
            lines@.map_values(|l: PersonLine| line_view(l)) == person_lines(rows@, repos@, j as int),
        decreases rows.len() - j,
    {
        let ghost before = lines@;
        let new_repo = j == 0 || !str_eq(rows[j].1.pr.repo_key.as_str(), rows[j - 1].1.pr.repo_key.as_str());
        if new_repo {
            let label = repo_label_of(repos, rows[j].1.pr.repo_key.as_str());
            lines.push(PersonLine::Title(label));
        }
        let ghost mid = lines@;
        lines.push(PersonLine::Pr(j));
        proof {
            assert(lines@ == mid.push(PersonLine::Pr(j)));
            if new_repo {
                assert(mid.map_values(|l: PersonLine| line_view(l)) =~= before.map_values(|l: PersonLine| line_view(l)).push(
                    line_view(mid.last()),
                ));
            } else {
                assert(mid == before);
            }
            assert(lines@.map_values(|l: PersonLine| line_view(l)) =~= mid.map_values(|l: PersonLine| line_view(l)).push(
                (None::<Seq<char>>, j),
            ));
        }
        j = j + 1;
    }
    lines
}

/// The position of the first line, from `k` on, showing PR `selected`; the
/// top line when none does.
pub open spec fn pr_line_at(lines: Seq<(Option<Seq<char>>, usize)>, selected: usize, k: int) -> int
    decreases lines.len() - k,
{
    if k < 0 || k >= lines.len() {
        0
    } else if lines[k] == (None::<Seq<char>>, selected) {
        k
    } else {
        pr_line_at(lines, selected, k + 1)
    }
}

/// The line showing PR `selected`, or the top line when none does.
pub fn pr_line_position(lines: &Vec<PersonLine>, selected: usize) -> (p: usize)
    ensures
        p == pr_line_at(lines@.map_values(|l: PersonLine| line_view(l)), selected, 0),
        p < lines@.len() || p == 0,
        p < usize::MAX,
{
    let ghost views = lines@.map_values(|l: PersonLine| line_view(l));
    let mut k: usize = 0;
    while k < lines.len()
        invariant
            k <= lines@.len(),
            views == lines@.map_values(|l: PersonLine| line_view(l)),
            pr_line_at(views, selected, k as int) == pr_line_at(views, selected, 0),
        decreases lines.len() - k,
    {
        match &lines[k] {
            PersonLine::Pr(i) => {
                if *i == selected {
                    return k;
                }
            },
            PersonLine::Title(_) => {},
        }
        k = k + 1;
    }
    0
}

/// What one person's PR pane shows: its lines, the highlighted PR (kept on
/// a row), the rows left for the list and the first line in view, which
/// keeps the highlighted PR's line in view.
pub struct PersonPrView {
    pub lines: Vec<PersonLine>,
    pub selected: usize,
    pub list_rows: usize,
    pub scroll: usize,
}

/// The view of one person's PR pane for its visible `rows`, with PR
/// `wanted` highlighted, in a body of `body_height` rows.
pub fn person_pr_view(
    rows: &Vec<(String, PersonPr)>,
    repos: &Vec<Repository>,
    wanted: usize,
    body_height: u16,
    focused: bool,
) -> (v: PersonPrView)
    ensures
        v.lines@.map_values(|l: PersonLine| line_view(l)) == person_lines(rows@, repos@, rows@.len() as int),
        v.list_rows == list_rows_of(body_height, focused),
        v.selected == min_usize(wanted, if rows@.len() > 0 { (rows@.len() - 1) as usize } else { 0 }),
        v.scroll == kept_in_view(
            0,
            pr_line_at(v.lines@.map_values(|l: PersonLine| line_view(l)), v.selected, 0) as usize,
            if v.list_rows > 0 { v.list_rows } else { 1 },
        ),
{
    let lines = person_pr_lines(rows, repos);
    let reserve: u16 = if focused && body_height >= 2 { 1 } else { 0 };
    let list_rows = (body_height - reserve) as usize;
    let last = rows.len().saturating_sub(1);
    let selected = if wanted < last { wanted } else { last };
    let line = pr_line_position(&lines, selected);
    let view_rows = if list_rows > 1 { list_rows } else { 1 };
    let scroll = scroll_to_keep_visible(0, line, view_rows);
    PersonPrView { lines, selected, list_rows, scroll }
}

// ---------------------------------------------------------------------------
// Stack markers of the review picker
// ---------------------------------------------------------------------------

/// The position of the first `c` in `s[k..]`, if any.
pub open spec fn first_at(s: Seq<char>, c: char, k: int) -> Option<int>
    decreases s.len() - k,
{
    if k < 0 || k >= s.len() {
        None
    } else if s[k] == c {
        Some(k)
    } else {
        first_at(s, c, k + 1)
    }
}

/// `s` with its first `a` replaced by `b`; unchanged without an `a`.
pub open spec fn replace_first(s: Seq<char>, a: char, b: char) -> Seq<char> {
    match first_at(s, a, 0) {
        Some(i) => s.update(i, b),
        None => s,
    }
}

/// The open stack node of Graphite's connector art.
pub const OPEN_NODE: char = '◯';
/// The filled node marking the branch loaded in the main pane.
pub const FILLED_NODE: char = '◉';

/// A stack prefix with its first open node filled, marking the branch
/// loaded in the main pane.
pub fn promote_node(prefix: &str) -> (s: String)
    ensures
        s@ == replace_first(prefix@, OPEN_NODE, FILLED_NODE),
{
    let mut v = chars_of(prefix);
    let mut k: usize = 0;
    while k < v.len()
        invariant
            v@ == prefix@,
            k <= v@.len(),
            first_at(prefix@, OPEN_NODE, k as int) == first_at(prefix@, OPEN_NODE, 0),
        decreases v.len() - k,
    {
        if v[k] == OPEN_NODE {
            v.set(k, FILLED_NODE);
            return string_of(&v);
        }
        k = k + 1;
    }
    string_of(&v)
}

/// The marker column of a review-picker PR row: the stack art (`◯ ` on a
/// stack's top, `│ ` below it), blank for a PR outside any stack; the PR
/// checked out in the main pane gets a filled node.
pub fn review_pr_marker(graph_prefix: &str, is_main_pane: bool) -> (s: String)
    ensures
        s@ == if is_main_pane {
            if first_at(graph_prefix@, OPEN_NODE, 0) is Some {
                replace_first(graph_prefix@, OPEN_NODE, FILLED_NODE)
            } else {
                seq![FILLED_NODE, ' ']
            }
        } else if graph_prefix@.len() == 0 {
            seq![' ', ' ']
        } else {
            graph_prefix@
        },
{
    let v = chars_of(graph_prefix);
    if is_main_pane {
        let promoted = promote_node(graph_prefix);
        let mut k: usize = 0;
        while k < v.len()
            invariant
                v@ == graph_prefix@,
                k <= v@.len(),
                is_main_pane,
                promoted@ == replace_first(graph_prefix@, OPEN_NODE, FILLED_NODE),
                first_at(graph_prefix@, OPEN_NODE, k as int) == first_at(graph_prefix@, OPEN_NODE, 0),
            decreases v.len() - k,
        {
            if v[k] == OPEN_NODE {
                return promoted;
            }
            k = k + 1;
        }
        let mut m: Vec<char> = Vec::new();
        m.push(FILLED_NODE);
        m.push(' ');
        return string_of(&m);
    }
    if v.len() == 0 {
        let mut m: Vec<char> = Vec::new();
        m.push(' ');
        m.push(' ');
        return string_of(&m);
    }
    string_of(&v)
}

// ---------------------------------------------------------------------------
// The workspace list's tree
// ---------------------------------------------------------------------------

/// The workspaces of nested rows among `entries[..n]` that end their group:
/// no nested row follows them.
pub open spec fn last_children_upto(entries: Seq<WorkspaceListEntry>, n: int) -> Seq<usize>
    decreases n,
{
    if n <= 0 {
        Seq::empty()
    } else {
        let prev = last_children_upto(entries, n - 1);
        match entries[n - 1] {
            WorkspaceListEntry::Workspace { ws_idx, indented } => if indented && !next_is_indented(entries, n - 1) {
                prev.push(ws_idx)
            } else {
                prev
            },
            WorkspaceListEntry::RepoHeader { .. } => prev,
        }
    }
}

/// The workspaces whose nested rows end their group, drawn with the `└`
/// connector rather than `├`.
pub fn last_worktree_children(entries: &Vec<WorkspaceListEntry>) -> (r: Vec<usize>)
    ensures
        r@ == last_children_upto(entries@, entries@.len() as int),
{
    let mut r: Vec<usize> = Vec::new();
    let mut i: usize = 0;
    while i < entries.len()
        invariant
            i <= entries@.len(),
            r@ == last_children_upto(entries@, i as int),
        decreases entries.len() - i,
    {
        match &entries[i] {
            WorkspaceListEntry::Workspace { ws_idx, indented } => {
                let next_nested = i + 1 < entries.len() && match &entries[i + 1] {
                    WorkspaceListEntry::Workspace { indented, .. } => *indented,
                    WorkspaceListEntry::RepoHeader { .. } => false,
                };
                if *indented && !next_nested {
                    r.push(*ws_idx);
                }
            },
            WorkspaceListEntry::RepoHeader { .. } => {},
        }
        i = i + 1;
    }
    r
}

/// The tree connector of a nested worktree row.
pub fn worktree_connector(is_last_child: bool) -> (s: &'static str)
    ensures
        s@ == if is_last_child { " └ "@ } else { " ├ "@ },
{
    if is_last_child { " └ " } else { " ├ " }
}

/// The label of the repository header with key `key`, from workspaces
/// `ws[k..]`: the label of the first linked member of that repository, else
/// `repo`.
pub open spec fn header_label(ws: Seq<Workspace>, key: Seq<char>, k: int) -> Seq<char>
    decreases ws.len() - k,
{
    if k < 0 || k >= ws.len() {
        "repo"@
    } else if ws[k].worktree_space matches Some(m) && m.key@ == key {
        ws[k].worktree_space.unwrap().label@
    } else {
        header_label(ws, key, k + 1)
    }
}

/// The label shown on the synthesized header of repository `key`: taken
/// from a workspace's worktree membership in it, or `repo`.
pub fn repo_header_label(workspaces: &Vec<Workspace>, key: &str) -> (s: String)
    ensures
        s@ == header_label(workspaces@, key@, 0),
{
    let mut k: usize = 0;
    while k < workspaces.len()
        invariant
            k <= workspaces@.len(),
            header_label(workspaces@, key@, k as int) == header_label(workspaces@, key@, 0),
        decreases workspaces.len() - k,
    {
        match &workspaces[k].worktree_space {
            Some(m) => {
                if str_eq(m.key.as_str(), key) {
                    return m.label.clone();
                }
            },
            None => {},
        }
        k = k + 1;
    }
    proof {
        reveal_strlit("repo");
    }
    "repo".to_string()
}

/// The ahead/behind labels after a workspace's branch: `↑n` for commits
/// ahead of the upstream and `↓n` for commits behind, each only when
/// non-zero; `None` when there is neither or no upstream is known.
pub fn upstream_labels(ahead_behind: Option<(usize, usize)>) -> (r: Option<Vec<String>>)
    ensures
        r is Some <==> (ahead_behind matches Some((a, b)) && (a > 0 || b > 0)),
        r matches Some(v) ==> {
            let (a, b) = ahead_behind.unwrap();
            let up = seq!['↑'] + decimal_of(a as nat);
            let down = seq!['↓'] + decimal_of(b as nat);
            &&& v@.len() == (if a > 0 { 1int } else { 0 }) + (if b > 0 { 1int } else { 0 })
            &&& a > 0 ==> v@[0]@ == up
            &&& b > 0 ==> v@[v@.len() - 1]@ == down
        },
{
    match ahead_behind {
        None => None,
        Some((ahead, behind)) => {
            let mut parts: Vec<String> = Vec::new();
            if ahead > 0 {
                parts.push(arrow_count('↑', ahead));
            }
            if behind > 0 {
                parts.push(arrow_count('↓', behind));
            }
            if parts.len() == 0 {
                None
            } else {
                Some(parts)
            }
        },
    }
}

/// `arrow` followed by `n` in decimal.
fn arrow_count(arrow: char, n: usize) -> (s: String)
    ensures
        s@ == seq![arrow] + decimal_of(n as nat),
{
    let digits = chars_of(decimal(n).as_str());
    let mut v: Vec<char> = Vec::new();
    v.push(arrow);
    let mut k: usize = 0;
    while k < digits.len()
        invariant
            k <= digits@.len(),
            v@ == seq![arrow] + digits@.subrange(0, k as int),
        decreases digits.len() - k,
    {
        v.push(digits[k]);
        proof {
            assert(digits@.subrange(0, k + 1) =~= digits@.subrange(0, k as int).push(digits@[k as int]));
        }
        k = k + 1;
    }
    proof {
        assert(digits@.subrange(0, digits@.len() as int) =~= digits@);
    }
    string_of(&v)
}

} // verus!
