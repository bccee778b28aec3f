//! Pull requests awaiting the user's review, and their arrangement into
//! Graphite stacks for the branch picker's "reviewing" list.
use vstd::prelude::*;
use crate::text::str_eq;

verus! {

/// An open pull request awaiting the user's review.
#[derive(Debug, PartialEq, Eq)]
pub struct ReviewPr {
    pub number: u64,
    pub title: String,
    /// The PR author's login.
    pub author: String,
    /// The PR's head branch (what `gh pr checkout` checks out).
    pub head_branch: String,
    /// The PR's base branch (what the review diff is taken against).
    pub base_branch: String,
    pub url: String,
    /// Stack art rendered before the row: `◯ ` for the top of a stack, `│ `
    /// for the PRs under it, empty for a standalone PR.
    pub graph_prefix: String,
}

impl Clone for ReviewPr {
    fn clone(&self) -> (r: Self)
        ensures
            r == *self,
    {
        ReviewPr {
            number: self.number,
            title: self.title.clone(),
            author: self.author.clone(),
            head_branch: self.head_branch.clone(),
            base_branch: self.base_branch.clone(),
            url: self.url.clone(),
            graph_prefix: self.graph_prefix.clone(),
        }
    }
}

// ---------------------------------------------------------------------------
// The stacks, as a parent table
// ---------------------------------------------------------------------------

/// The last of `prs[..upto]` whose head branch is `branch`.
pub open spec fn head_owner(prs: Seq<ReviewPr>, branch: Seq<char>, upto: int) -> Option<int>
    decreases upto,
{
    if upto <= 0 {
        None
    } else if prs[upto - 1].head_branch@ == branch {
        Some(upto - 1)
    } else {
        head_owner(prs, branch, upto - 1)
    }
}

/// The PR that `prs[i]` sits on: the one whose head branch is its base branch
/// (a PR never sits on itself).
pub open spec fn parent_in(prs: Seq<ReviewPr>, i: int) -> Option<int> {
    match head_owner(prs, prs[i].base_branch@, prs.len() as int) {
        Some(j) => if j != i {
            Some(j)
        } else {
            None
        },
        None => None,
    }
}

/// The parent of each PR.
pub open spec fn parent_table(prs: Seq<ReviewPr>) -> Seq<Option<int>> {
    Seq::new(prs.len(), |i: int| parent_in(prs, i))
}

/// Every parent in the table is a position of the table.
pub open spec fn table_ok(pt: Seq<Option<int>>) -> bool {
    forall|i: int| 0 <= i < pt.len() ==> match #[trigger] pt[i] {
        Some(p) => 0 <= p < pt.len(),
        None => true,
    }
}

/// The children of `i` among positions `..upto`, in order.
pub open spec fn kids(pt: Seq<Option<int>>, i: int, upto: int) -> Seq<int>
    decreases upto,
{
    if upto <= 0 {
        Seq::empty()
    } else if pt[upto - 1] == Some(i) {
        kids(pt, i, upto - 1).push(upto - 1)
    } else {
        kids(pt, i, upto - 1)
    }
}

/// Climbing from `i` reaches a PR that sits on nothing within `fuel` steps.
pub open spec fn reaches_root(pt: Seq<Option<int>>, i: int, fuel: nat) -> bool
    decreases fuel,
{
    match pt[i] {
        None => true,
        Some(p) => fuel > 0 && reaches_root(pt, p, (fuel - 1) as nat),
    }
}

/// The PR reached by climbing from `i` for at most `fuel` steps.
pub open spec fn root_of(pt: Seq<Option<int>>, i: int, fuel: nat) -> int
    decreases fuel,
{
    match pt[i] {
        None => i,
        Some(p) => if fuel > 0 {
            root_of(pt, p, (fuel - 1) as nat)
        } else {
            i
        },
    }
}

/// `i` is in a stack that has a bottom (not in a base/head cycle).
pub open spec fn rooted(pt: Seq<Option<int>>, i: int) -> bool {
    reaches_root(pt, i, pt.len())
}

/// The bottoms of the stacks of `..upto`, each once, in the order of their
/// stacks' first member.
pub open spec fn roots(pt: Seq<Option<int>>, upto: int) -> Seq<int>
    decreases upto,
{
    if upto <= 0 {
        Seq::empty()
    } else {
        let r = roots(pt, upto - 1);
        let i = upto - 1;
        if rooted(pt, i) && !r.contains(root_of(pt, i, pt.len())) {
            r.push(root_of(pt, i, pt.len()))
        } else {
            r
        }
    }
}

/// The PRs of `..upto` caught in a base/head cycle, in order.
pub open spec fn unrooted(pt: Seq<Option<int>>, upto: int) -> Seq<int>
    decreases upto,
{
    if upto <= 0 {
        Seq::empty()
    } else if !rooted(pt, upto - 1) {
        unrooted(pt, upto - 1).push(upto - 1)
    } else {
        unrooted(pt, upto - 1)
    }
}

/// The stack above `i`, top first: each child's stack in order, then `i`
/// (expanded `fuel` levels deep).
pub open spec fn walk(pt: Seq<Option<int>>, i: int, fuel: nat) -> Seq<int>
    decreases fuel, 0nat,
{
    if fuel == 0 {
        seq![i]
    } else {
        walk_list(pt, kids(pt, i, pt.len() as int), (fuel - 1) as nat).push(i)
    }
}

/// The stacks above each of `cs`, in order.
pub open spec fn walk_list(pt: Seq<Option<int>>, cs: Seq<int>, fuel: nat) -> Seq<int>
    decreases fuel, cs.len(),
{
    if cs.len() == 0 {
        Seq::empty()
    } else {
        walk_list(pt, cs.drop_last(), fuel) + walk(pt, cs.last(), fuel)
    }
}

/// The display order of the PRs (as positions): each stack top first, the
/// stacks in the order of their first member, then the PRs of base/head
/// cycles in their own order.
pub open spec fn stack_order(pt: Seq<Option<int>>) -> Seq<int> {
    walk_list(pt, roots(pt, pt.len() as int), pt.len()) + unrooted(pt, pt.len() as int)
}

/// The stack art of position `i`: `◯ ` on a stack top, `│ ` on the PRs under
/// it, nothing on a standalone PR or one in a base/head cycle.
pub open spec fn stack_prefix(pt: Seq<Option<int>>, i: int) -> Seq<char> {
    if !rooted(pt, i) || (pt[i] is None && kids(pt, i, pt.len() as int).len() == 0) {
        Seq::empty()
    } else if kids(pt, i, pt.len() as int).len() == 0 {
        "◯ "@
    } else {
        "│ "@
    }
}

/// `r` is `p` with stack art `prefix`.
pub open spec fn with_prefix(r: ReviewPr, p: ReviewPr, prefix: Seq<char>) -> bool {
    &&& r.number == p.number
    &&& r.title == p.title
    &&& r.author == p.author
    &&& r.head_branch == p.head_branch
    &&& r.base_branch == p.base_branch
    &&& r.url == p.url
    &&& r.graph_prefix@ == prefix
}

// ---------------------------------------------------------------------------
// Computing it
// ---------------------------------------------------------------------------

/// The parent of each PR, by matching base branches to head branches.
fn compute_parents(prs: &Vec<ReviewPr>) -> (pt: Vec<Option<usize>>)
    ensures
        pt@.len() == prs@.len(),
        forall|i: int| 0 <= i < pt@.len() ==> opt_pos(#[trigger] pt@[i]) == parent_in(prs@, i),
{
    let n = prs.len();
    let mut pt: Vec<Option<usize>> = Vec::new();
    let mut i: usize = 0;
    while i < n
        invariant
            n == prs@.len(),
            i <= n,
            pt@.len() == i,
            forall|q: int| 0 <= q < i ==> opt_pos(#[trigger] pt@[q]) == parent_in(prs@, q),
        decreases n - i,
    {
        let mut owner: Option<usize> = None;
        let mut j: usize = 0;
        while j < n
            invariant
                n == prs@.len(),
                i < n,
                j <= n,
                opt_pos(owner) == head_owner(prs@, prs@[i as int].base_branch@, j as int),
            decreases n - j,
        {
            if str_eq(prs[j].head_branch.as_str(), prs[i].base_branch.as_str()) {
                owner = Some(j);
            }
            j = j + 1;
        }
        let p = match owner {
            Some(o) => if o != i {
                Some(o)
            } else {
                None
            },
            None => None,
        };
        pt.push(p);
        i = i + 1;
    }
    pt
}

proof fn lemma_head_owner_in_range(prs: Seq<ReviewPr>, branch: Seq<char>, upto: int)
    ensures
        head_owner(prs, branch, upto) matches Some(j) ==> 0 <= j < upto,
    decreases upto,
{
    if upto > 0 {
        lemma_head_owner_in_range(prs, branch, upto - 1);
    }
}

/// An optional position as an optional integer.
pub open spec fn opt_pos(o: Option<usize>) -> Option<int> {
    match o {
        Some(u) => Some(u as int),
        None => None,
    }
}

/// The table of optional positions as optional integers.
pub open spec fn table_view(pt: Seq<Option<usize>>) -> Seq<Option<int>> {
    pt.map_values(|o: Option<usize>| opt_pos(o))
}

/// Whether `i` is rooted, and the root it reaches.
fn climb(pt: &Vec<Option<usize>>, i: usize) -> (r: (bool, usize))
    requires
        table_ok(table_view(pt@)),
        i < pt@.len(),
    ensures
        r.0 == rooted(table_view(pt@), i as int),
        r.0 ==> r.1 == root_of(table_view(pt@), i as int, pt@.len() as nat),
        r.1 < pt@.len(),
{
    let ghost t = table_view(pt@);
    let n = pt.len();
    let mut root = i;
    let mut steps: usize = 0;
    loop
        invariant
            t == table_view(pt@),
            table_ok(t),
            n == pt@.len(),
            root < n,
            steps <= n,
            reaches_root(t, i as int, n as nat) == reaches_root(t, root as int, (n - steps) as nat),
            root_of(t, i as int, n as nat) == root_of(t, root as int, (n - steps) as nat),
        decreases n - steps,
    {
        proof {
            assert(t[root as int] == opt_pos(pt@[root as int]));
        }
        match pt[root] {
            None => {
                return (true, root);
            },
            Some(up) => {
                if steps == n {
                    return (false, root);
                }
                proof {
                    assert(0 <= up < n);
                }
                root = up;
                steps = steps + 1;
            },
        }
    }
}

/// Whether `v` holds `x`.
fn holds(v: &Vec<usize>, x: usize) -> (r: bool)
    ensures
        r == v@.map_values(|u: usize| u as int).contains(x as int),
{
    let ghost w = v@.map_values(|u: usize| u as int);
    let mut k: usize = 0;
    while k < v.len()
        invariant
            w == v@.map_values(|u: usize| u as int),
            k <= v@.len(),
            forall|q: int| 0 <= q < k ==> w[q] != x as int,
        decreases v.len() - k,
    {
        if v[k] == x {
            proof {
                assert(w[k as int] == x as int);
            }
            return true;
        }
        k = k + 1;
    }
    false
}

/// Append the stack above `i` (expanded `fuel` levels) to `out`.
fn emit_walk(pt: &Vec<Option<usize>>, i: usize, fuel: usize, out: &mut Vec<usize>)
    requires
        table_ok(table_view(pt@)),
        i < pt@.len(),
        forall|q: int| 0 <= q < old(out)@.len() ==> #[trigger] old(out)@[q] < pt@.len(),
    ensures
        final(out)@.map_values(|u: usize| u as int) == old(out)@.map_values(|u: usize| u as int) + walk(
            table_view(pt@),
            i as int,
            fuel as nat,
        ),
        forall|q: int| 0 <= q < final(out)@.len() ==> #[trigger] final(out)@[q] < pt@.len(),
    decreases fuel,
{
    let ghost t = table_view(pt@);
    let ghost start = out@.map_values(|u: usize| u as int);
    if fuel == 0 {
        out.push(i);
        proof {
            assert(out@.map_values(|u: usize| u as int) =~= start + seq![i as int]);
        }
        return;
    }
    let n = pt.len();
    let mut c: usize = 0;
    while c < n
        invariant
            t == table_view(pt@),
            table_ok(t),
            n == pt@.len(),
            i < n,
            fuel > 0,
            c <= n,
            out@.map_values(|u: usize| u as int) == start + walk_list(t, kids(t, i as int, c as int), (fuel - 1) as nat),
            forall|q: int| 0 <= q < out@.len() ==> #[trigger] out@[q] < n,
        decreases n - c,
    {
        let ghost before = out@.map_values(|u: usize| u as int);
        proof {
            assert(t[c as int] == opt_pos(pt@[c as int]));
        }
        if pt[c] == Some(i) {
            emit_walk(pt, c, fuel - 1, out);
            proof {
                let ks = kids(t, i as int, c + 1);
                assert(ks == kids(t, i as int, c as int).push(c as int));
                assert(ks.drop_last() =~= kids(t, i as int, c as int));
                assert(out@.map_values(|u: usize| u as int) =~= start + walk_list(t, ks, (fuel - 1) as nat));
            }
        } else {
            proof {
                assert(kids(t, i as int, c + 1) == kids(t, i as int, c as int));
            }
        }
        c = c + 1;
    }
    let ghost mid = out@.map_values(|u: usize| u as int);
    out.push(i);
    proof {
        assert(out@.map_values(|u: usize| u as int) =~= mid.push(i as int));
        assert(out@.map_values(|u: usize| u as int) =~= start + walk(t, i as int, fuel as nat));
    }
}

/// Group the PRs into their Graphite stacks and order each stack top-first.
///
/// A stacked PR's base branch is its parent's head branch, so chaining
/// `base_branch -> head_branch` reconstructs the stacks. Stacks keep the order
/// of their first member; within a stack the top-most PR comes first, parents
/// after their children. Rows get a `graph_prefix`: `◯ ` on stack tops, `│ ` on
/// the PRs they sit on, nothing on standalone PRs. PRs caught in a base/head
/// cycle are kept, flat, after the stacks.
pub fn partition_into_stacks(prs: Vec<ReviewPr>) -> (out: Vec<ReviewPr>)
    ensures
        ({
            let pt = parent_table(prs@);
            let ord = stack_order(pt);
            &&& out@.len() == ord.len()
            &&& forall|k: int|
                0 <= k < out@.len() ==> 0 <= ord[k] < prs@.len() && with_prefix(
                    #[trigger] out@[k],
                    prs@[ord[k]],
                    stack_prefix(pt, ord[k]),
                )
        }),
{
    let n = prs.len();
    let pt = compute_parents(&prs);
    let ghost t = table_view(pt@);
    proof {
        assert(t =~= parent_table(prs@));
        assert forall|i: int| 0 <= i < t.len() implies match #[trigger] t[i] {
            Some(p) => 0 <= p < t.len(),
            None => true,
        } by {
            assert(t[i] == opt_pos(pt@[i]));
            lemma_head_owner_in_range(prs@, prs@[i].base_branch@, prs@.len() as int);
        }
    }
    // Roots, in the order of their stacks' first member.
    let mut root_list: Vec<usize> = Vec::new();
    let mut rooted_flags: Vec<bool> = Vec::new();
    let mut i: usize = 0;
    while i < n
        invariant
            n == prs@.len(),
            n == pt@.len(),
            t == table_view(pt@),
            t == parent_table(prs@),
            table_ok(t),
            i <= n,
            root_list@.map_values(|u: usize| u as int) == roots(t, i as int),
            forall|q: int| 0 <= q < root_list@.len() ==> #[trigger] root_list@[q] < n,
            rooted_flags@.len() == i,
            forall|q: int| 0 <= q < i ==> #[trigger] rooted_flags@[q] == rooted(t, q),
        decreases n - i,
    {
        let (is_rooted, root) = climb(&pt, i);
        if is_rooted && !holds(&root_list, root) {
            root_list.push(root);
            proof {
                assert(root_list@.map_values(|u: usize| u as int) =~= roots(t, i as int).push(root as int));
            }
        }
        rooted_flags.push(is_rooted);
        i = i + 1;
    }
    // Each stack top-first, then the cycle members in order.
    let mut order: Vec<usize> = Vec::new();
    let mut r: usize = 0;
    while r < root_list.len()
        invariant
            n == pt@.len(),
            t == table_view(pt@),
            table_ok(t),
            root_list@.map_values(|u: usize| u as int) == roots(t, n as int),
            forall|q: int| 0 <= q < root_list@.len() ==> #[trigger] root_list@[q] < n,
            r <= root_list@.len(),
            order@.map_values(|u: usize| u as int) == walk_list(
                t,
                roots(t, n as int).subrange(0, r as int),
                n as nat,
            ),
            forall|q: int| 0 <= q < order@.len() ==> #[trigger] order@[q] < n,
        decreases root_list.len() - r,
    {
        let ghost rs = roots(t, n as int);
        proof {
            assert(rs[r as int] == root_list@[r as int] as int);
        }
        emit_walk(&pt, root_list[r], n, &mut order);
        proof {
            assert(rs.subrange(0, r + 1 as int).drop_last() =~= rs.subrange(0, r as int));
        }
        r = r + 1;
    }
    proof {
        assert(roots(t, n as int).subrange(0, root_list@.len() as int) =~= roots(t, n as int));
    }
    let mut u: usize = 0;
    while u < n
        invariant
            n == pt@.len(),
            rooted_flags@.len() == n,
            forall|q: int| 0 <= q < n ==> #[trigger] rooted_flags@[q] == rooted(t, q),
            u <= n,
            order@.map_values(|x: usize| x as int) == walk_list(t, roots(t, n as int), n as nat) + unrooted(t, u as int),
            forall|q: int| 0 <= q < order@.len() ==> #[trigger] order@[q] < n,
        decreases n - u,
    {
        let ghost before = order@.map_values(|x: usize| x as int);
        if !rooted_flags[u] {
            order.push(u);
            proof {
                assert(order@.map_values(|x: usize| x as int) =~= before.push(u as int));
                assert(order@.map_values(|x: usize| x as int) =~= walk_list(t, roots(t, n as int), n as nat) + unrooted(t, u + 1 as int));
            }
        }
        u = u + 1;
    }
    // Lay out the rows with their stack art.
    let ghost ord = stack_order(t);
    proof {
        assert(order@.map_values(|x: usize| x as int) == ord);
    }
    let mut out: Vec<ReviewPr> = Vec::new();
    let mut k: usize = 0;
    while k < order.len()
        invariant
            n == prs@.len(),
            n == pt@.len(),
            t == table_view(pt@),
            t == parent_table(prs@),
            rooted_flags@.len() == n,
            forall|q: int| 0 <= q < n ==> #[trigger] rooted_flags@[q] == rooted(t, q),
            order@.map_values(|x: usize| x as int) == ord,
            forall|q: int| 0 <= q < order@.len() ==> #[trigger] order@[q] < n,
            k <= order@.len(),
            out@.len() == k,
            forall|q: int|
                0 <= q < k ==> with_prefix(#[trigger] out@[q], prs@[ord[q]], stack_prefix(t, ord[q])),
        decreases order.len() - k,
    {
        let idx = order[k];
        proof {
            assert(ord[k as int] == idx as int);
        }
        let mut has_kids = false;
        let mut c: usize = 0;
        while c < n
            invariant
                n == pt@.len(),
                t == table_view(pt@),
                idx < n,
                c <= n,
                has_kids == (kids(t, idx as int, c as int).len() > 0),
            decreases n - c,
        {
            proof {
                assert(t[c as int] == opt_pos(pt@[c as int]));
            }
            if pt[c] == Some(idx) {
                has_kids = true;
            }
            c = c + 1;
        }
        proof {
            assert(t[idx as int] == opt_pos(pt@[idx as int]));
        }
        let prefix = if !rooted_flags[idx] || (pt[idx].is_none() && !has_kids) {
            String::new()
        } else if !has_kids {
            String::from_str("◯ ")
        } else {
            String::from_str("│ ")
        };
        let mut pr = prs[idx].clone();
        pr.graph_prefix = prefix;
        out.push(pr);
        k = k + 1;
    }
    out
}

// ---------------------------------------------------------------------------
// Every PR is shown exactly once
// ---------------------------------------------------------------------------

/// The PR reached from `x` by climbing `d` parent links, if the chain is that long.
pub open spec fn anc(pt: Seq<Option<int>>, x: int, d: nat) -> Option<int>
    decreases d,
{
    if d == 0 {
        Some(x)
    } else {
        match pt[x] {
            Some(p) => anc(pt, p, (d - 1) as nat),
            None => None,
        }
    }
}

proof fn lemma_anc_add(pt: Seq<Option<int>>, x: int, a: nat, b: nat)
    ensures
        anc(pt, x, a + b) == match anc(pt, x, a) {
            Some(y) => anc(pt, y, b),
            None => None,
        },
    decreases a,
{
    if a > 0 {
        match pt[x] {
            Some(p) => {
                lemma_anc_add(pt, p, (a - 1) as nat, b);
                assert((a - 1) as nat + b == (a + b - 1) as nat);
            },
            None => {},
        }
    }
}

proof fn lemma_anc_one(pt: Seq<Option<int>>, c: int)
    ensures
        anc(pt, c, 1) == pt[c],
{
    match pt[c] {
        Some(p) => {
            assert(anc(pt, p, 0) == Some(p));
        },
        None => {},
    }
}

proof fn lemma_anc_in_range(pt: Seq<Option<int>>, x: int, d: nat)
    requires
        table_ok(pt),
        0 <= x < pt.len(),
    ensures
        anc(pt, x, d) matches Some(y) ==> 0 <= y < pt.len(),
    decreases d,
{
    if d > 0 {
        match pt[x] {
            Some(p) => lemma_anc_in_range(pt, p, (d - 1) as nat),
            None => {},
        }
    }
}

/// Climbing from `x` never comes back to `x`.
pub open spec fn acyclic(pt: Seq<Option<int>>, x: int) -> bool {
    forall|k: nat| k >= 1 ==> #[trigger] anc(pt, x, k) != Some(x)
}

/// Climbing `d` links from `x` ends at a PR that sits on nothing.
pub open spec fn ends_at_root(pt: Seq<Option<int>>, x: int, d: nat) -> bool {
    match anc(pt, x, d) {
        Some(r) => pt[r] is None,
        None => false,
    }
}

/// Climbing from `x` ends at a PR that sits on nothing within `fuel` steps.
pub open spec fn ends_within(pt: Seq<Option<int>>, x: int, fuel: nat) -> bool {
    exists|d: nat| d <= fuel && #[trigger] ends_at_root(pt, x, d)
}

/// Two climbs from `x` that both end at a PR sitting on nothing have the same length.
proof fn lemma_root_unique(pt: Seq<Option<int>>, x: int, d1: nat, d2: nat)
    requires
        ends_at_root(pt, x, d1),
        ends_at_root(pt, x, d2),
    ensures
        d1 == d2,
{
    if d1 < d2 {
        lemma_anc_add(pt, x, d1, (d2 - d1) as nat);
        let r = anc(pt, x, d1).unwrap();
        assert(anc(pt, r, (d2 - d1) as nat) is None);
    } else if d2 < d1 {
        lemma_anc_add(pt, x, d2, (d1 - d2) as nat);
        let r = anc(pt, x, d2).unwrap();
        assert(anc(pt, r, (d1 - d2) as nat) is None);
    }
}

proof fn lemma_reaches_root(pt: Seq<Option<int>>, x: int, fuel: nat)
    requires
        table_ok(pt),
        0 <= x < pt.len(),
    ensures
        reaches_root(pt, x, fuel) <==> ends_within(pt, x, fuel),
        forall|d: nat| d <= fuel && #[trigger] ends_at_root(pt, x, d) ==> anc(pt, x, d) == Some(root_of(pt, x, fuel)),
    decreases fuel,
{
    match pt[x] {
        None => {
            assert(ends_at_root(pt, x, 0));
            assert forall|d: nat| d <= fuel && #[trigger] ends_at_root(pt, x, d) implies anc(pt, x, d) == Some(root_of(pt, x, fuel)) by {
                lemma_root_unique(pt, x, 0, d);
            }
        },
        Some(p) => {
            assert(0 <= p < pt.len());
            if fuel > 0 {
                lemma_reaches_root(pt, p, (fuel - 1) as nat);
                assert forall|d: nat| #[trigger] ends_at_root(pt, p, d) == ends_at_root(pt, x, d + 1) by {
                    assert(anc(pt, x, d + 1) == anc(pt, p, d));
                }
                if ends_within(pt, p, (fuel - 1) as nat) {
                    let d = choose|d: nat| d <= (fuel - 1) as nat && #[trigger] ends_at_root(pt, p, d);
                    assert(ends_at_root(pt, x, d + 1));
                }
                if ends_within(pt, x, fuel) {
                    let d = choose|d: nat| d <= fuel && #[trigger] ends_at_root(pt, x, d);
                    assert(d != 0);
                    assert(ends_at_root(pt, p, (d - 1) as nat));
                }
                assert forall|d: nat| d <= fuel && #[trigger] ends_at_root(pt, x, d) implies anc(pt, x, d) == Some(root_of(pt, x, fuel)) by {
                    assert(d != 0);
                    assert(anc(pt, x, d) == anc(pt, p, (d - 1) as nat));
                    assert(ends_at_root(pt, p, (d - 1) as nat));
                }
            } else {
                if ends_within(pt, x, fuel) {
                    let d = choose|d: nat| d <= fuel && #[trigger] ends_at_root(pt, x, d);
                    assert(d == 0);
                }
            }
        },
    }
}

/// `x` is `i` or lies above it in its stack, at most `f` links away.
pub open spec fn below(pt: Seq<Option<int>>, x: int, i: int, f: nat) -> bool {
    exists|d: nat| d <= f && #[trigger] anc(pt, x, d) == Some(i)
}

proof fn lemma_kids(pt: Seq<Option<int>>, i: int, upto: int)
    requires
        0 <= upto <= pt.len(),
    ensures
        forall|j: int| 0 <= j < kids(pt, i, upto).len() ==> 0 <= #[trigger] kids(pt, i, upto)[j] < upto && pt[kids(pt, i, upto)[j]] == Some(i),
        forall|a: int, b: int| 0 <= a < b < kids(pt, i, upto).len() ==> #[trigger] kids(pt, i, upto)[a] < #[trigger] kids(pt, i, upto)[b],
        forall|c: int| 0 <= c < upto && pt[c] == Some(i) ==> #[trigger] kids(pt, i, upto).contains(c),
    decreases upto,
{
    if upto > 0 {
        lemma_kids(pt, i, upto - 1);
        let prev = kids(pt, i, upto - 1);
        if pt[upto - 1] == Some(i) {
            let cur = prev.push(upto - 1);
            assert forall|j: int| 0 <= j < prev.len() implies #[trigger] cur[j] == prev[j] by {}
            assert(cur[prev.len() as int] == upto - 1);
            assert forall|c: int| 0 <= c < upto && pt[c] == Some(i) implies #[trigger] cur.contains(c) by {
                if c < upto - 1 {
                    assert(prev.contains(c));
                    let j = choose|j: int| 0 <= j < prev.len() && prev[j] == c;
                    assert(cur[j] == c);
                } else {
                    assert(cur[prev.len() as int] == c);
                }
            }
        }
    }
}

proof fn lemma_walk_members(pt: Seq<Option<int>>, i: int, f: nat)
    requires
        table_ok(pt),
        0 <= i < pt.len(),
    ensures
        forall|k: int| 0 <= k < walk(pt, i, f).len() ==> 0 <= #[trigger] walk(pt, i, f)[k] < pt.len(),
        forall|x: int| 0 <= x < pt.len() ==> (#[trigger] walk(pt, i, f).contains(x) <==> below(pt, x, i, f)),
    decreases f, 0nat,
{
    if f == 0 {
        assert forall|x: int| 0 <= x < pt.len() implies (#[trigger] walk(pt, i, f).contains(x) <==> below(pt, x, i, f)) by {
            if walk(pt, i, f).contains(x) {
                assert(walk(pt, i, f)[0] == x);
                assert(anc(pt, x, 0) == Some(i));
            }
            if below(pt, x, i, f) {
                let d = choose|d: nat| d <= f && #[trigger] anc(pt, x, d) == Some(i);
                assert(d == 0);
                assert(walk(pt, i, f)[0] == x);
            }
        }
    } else {
        let ks = kids(pt, i, pt.len() as int);
        let f1 = (f - 1) as nat;
        lemma_kids(pt, i, pt.len() as int);
        lemma_walk_list_members(pt, ks, f1);
        let wl = walk_list(pt, ks, f1);
        let w = wl.push(i);
        assert(walk(pt, i, f) == w);
        assert forall|k: int| 0 <= k < w.len() implies 0 <= #[trigger] w[k] < pt.len() by {
            if k < wl.len() {
                assert(w[k] == wl[k]);
            }
        }
        assert forall|x: int| 0 <= x < pt.len() implies (#[trigger] w.contains(x) <==> below(pt, x, i, f)) by {
            if w.contains(x) {
                let k = choose|k: int| 0 <= k < w.len() && w[k] == x;
                if k == wl.len() {
                    assert(anc(pt, x, 0) == Some(i));
                } else {
                    assert(wl[k] == x);
                    assert(wl.contains(x));
                    let j = choose|j: int| 0 <= j < ks.len() && #[trigger] walk(pt, ks[j], f1).contains(x);
                    lemma_walk_members(pt, ks[j], f1);
                    let d = choose|d: nat| d <= f1 && #[trigger] anc(pt, x, d) == Some(ks[j]);
                    lemma_anc_add(pt, x, d, 1);
                    lemma_anc_one(pt, ks[j]);
                    assert(anc(pt, ks[j], 1) == Some(i));
                    assert(anc(pt, x, d + 1) == Some(i));
                }
            }
            if below(pt, x, i, f) {
                let d = choose|d: nat| d <= f && #[trigger] anc(pt, x, d) == Some(i);
                if d == 0 {
                    assert(w[wl.len() as int] == x);
                } else {
                    lemma_anc_add(pt, x, (d - 1) as nat, 1);
                    let c = anc(pt, x, (d - 1) as nat).unwrap();
                    lemma_anc_in_range(pt, x, (d - 1) as nat);
                    lemma_anc_one(pt, c);
                    assert(pt[c] == Some(i));
                    assert(ks.contains(c));
                    let j = choose|j: int| 0 <= j < ks.len() && ks[j] == c;
                    lemma_walk_members(pt, c, f1);
                    assert(below(pt, x, c, f1));
                    assert(walk(pt, ks[j], f1).contains(x));
                    assert(wl.contains(x));
                    let k = choose|k: int| 0 <= k < wl.len() && wl[k] == x;
                    assert(w[k] == x);
                }
            }
        }
    }
}

proof fn lemma_walk_list_members(pt: Seq<Option<int>>, cs: Seq<int>, f: nat)
    requires
        table_ok(pt),
        forall|j: int| 0 <= j < cs.len() ==> 0 <= #[trigger] cs[j] < pt.len(),
    ensures
        forall|k: int| 0 <= k < walk_list(pt, cs, f).len() ==> 0 <= #[trigger] walk_list(pt, cs, f)[k] < pt.len(),
        forall|x: int| #[trigger] walk_list(pt, cs, f).contains(x) <==> exists|j: int| 0 <= j < cs.len() && #[trigger] walk(pt, cs[j], f).contains(x),
    decreases f, cs.len(),
{
    if cs.len() > 0 {
        let init = cs.drop_last();
        lemma_walk_list_members(pt, init, f);
        lemma_walk_members(pt, cs.last(), f);
        let a = walk_list(pt, init, f);
        let b = walk(pt, cs.last(), f);
        assert(walk_list(pt, cs, f) == a + b);
        assert forall|k: int| 0 <= k < (a + b).len() implies 0 <= #[trigger] (a + b)[k] < pt.len() by {
            if k < a.len() {
                assert((a + b)[k] == a[k]);
            } else {
                assert((a + b)[k] == b[k - a.len()]);
            }
        }
        assert forall|x: int| #[trigger] (a + b).contains(x) <==> exists|j: int| 0 <= j < cs.len() && #[trigger] walk(pt, cs[j], f).contains(x) by {
            if (a + b).contains(x) {
                let k = choose|k: int| 0 <= k < (a + b).len() && (a + b)[k] == x;
                if k < a.len() {
                    assert(a[k] == x);
                    assert(a.contains(x));
                    let j = choose|j: int| 0 <= j < init.len() && #[trigger] walk(pt, init[j], f).contains(x);
                    assert(cs[j] == init[j]);
                } else {
                    assert(b[k - a.len()] == x);
                    assert(b.contains(x));
                    assert(cs[cs.len() - 1] == cs.last());
                }
            }
            if exists|j: int| 0 <= j < cs.len() && #[trigger] walk(pt, cs[j], f).contains(x) {
                let j = choose|j: int| 0 <= j < cs.len() && #[trigger] walk(pt, cs[j], f).contains(x);
                if j < cs.len() - 1 {
                    assert(init[j] == cs[j]);
                    assert(a.contains(x));
                    let k = choose|k: int| 0 <= k < a.len() && a[k] == x;
                    assert((a + b)[k] == x);
                } else {
                    assert(b.contains(x));
                    let k = choose|k: int| 0 <= k < b.len() && b[k] == x;
                    assert((a + b)[k + a.len()] == x);
                }
            }
        }
    } else {
        assert forall|x: int| #[trigger] walk_list(pt, cs, f).contains(x) <==> exists|j: int| 0 <= j < cs.len() && #[trigger] walk(pt, cs[j], f).contains(x) by {
            if walk_list(pt, cs, f).contains(x) {
                let k = choose|k: int| 0 <= k < walk_list(pt, cs, f).len() && walk_list(pt, cs, f)[k] == x;
            }
        }
    }
}

/// No PR of `cs` lies (strictly) above another one of them.
pub open spec fn unrelated(pt: Seq<Option<int>>, cs: Seq<int>) -> bool {
    forall|a: int, b: int, k: nat|
        0 <= a < cs.len() && 0 <= b < cs.len() && a != b && k >= 1 ==> #[trigger] anc(pt, cs[a], k) != Some(#[trigger] cs[b])
}

/// A PR reached from `x` by `a` links and again by `b > a` links lies on a cycle.
proof fn lemma_two_depths(pt: Seq<Option<int>>, x: int, a: nat, b: nat, ya: int, yb: int)
    requires
        a < b,
        anc(pt, x, a) == Some(ya),
        anc(pt, x, b) == Some(yb),
    ensures
        anc(pt, ya, (b - a) as nat) == Some(yb),
{
    lemma_anc_add(pt, x, a, (b - a) as nat);
    assert(a + (b - a) as nat == b);
}

proof fn lemma_walk_list_distinct(pt: Seq<Option<int>>, cs: Seq<int>, f: nat)
    requires
        table_ok(pt),
        cs.no_duplicates(),
        forall|j: int| 0 <= j < cs.len() ==> 0 <= #[trigger] cs[j] < pt.len() && acyclic(pt, cs[j]),
        unrelated(pt, cs),
    ensures
        walk_list(pt, cs, f).no_duplicates(),
    decreases f, cs.len(),
{
    if cs.len() > 0 {
        let init = cs.drop_last();
        let last = cs.last();
        assert forall|a: int, b: int, k: nat|
            0 <= a < init.len() && 0 <= b < init.len() && a != b && k >= 1 implies #[trigger] anc(pt, init[a], k) != Some(#[trigger] init[b]) by {
            assert(init[a] == cs[a] && init[b] == cs[b]);
        }
        lemma_walk_list_distinct(pt, init, f);
        lemma_walk_distinct(pt, last, f);
        lemma_walk_list_members(pt, init, f);
        lemma_walk_members(pt, last, f);
        let wa = walk_list(pt, init, f);
        let wb = walk(pt, last, f);
        assert forall|p: int, q: int| 0 <= p < wa.len() && 0 <= q < wb.len() implies wa[p] != wb[q] by {
            if wa[p] == wb[q] {
                let x = wa[p];
                assert(wa.contains(x));
                let j = choose|j: int| 0 <= j < init.len() && #[trigger] walk(pt, init[j], f).contains(x);
                lemma_walk_members(pt, init[j], f);
                assert(wb.contains(x));
                let d1 = choose|d: nat| d <= f && #[trigger] anc(pt, x, d) == Some(init[j]);
                let d2 = choose|d: nat| d <= f && #[trigger] anc(pt, x, d) == Some(last);
                let jl = cs.len() - 1;
                assert(cs[j] == init[j] && cs[jl] == last);
                assert(cs[j] != cs[jl]);
                if d1 == d2 {
                } else if d1 < d2 {
                    lemma_two_depths(pt, x, d1, d2, init[j], last);
                    assert(anc(pt, cs[j], (d2 - d1) as nat) == Some(cs[jl]));
                } else {
                    lemma_two_depths(pt, x, d2, d1, last, init[j]);
                    assert(anc(pt, cs[jl], (d1 - d2) as nat) == Some(cs[j]));
                }
            }
        }
        vstd::seq_lib::lemma_no_dup_in_concat(wa, wb);
        assert(walk_list(pt, cs, f) == wa + wb);
    }
}

proof fn lemma_walk_distinct(pt: Seq<Option<int>>, i: int, f: nat)
    requires
        table_ok(pt),
        0 <= i < pt.len(),
        acyclic(pt, i),
    ensures
        walk(pt, i, f).no_duplicates(),
    decreases f, 0nat,
{
    if f > 0 {
        let ks = kids(pt, i, pt.len() as int);
        let f1 = (f - 1) as nat;
        lemma_kids(pt, i, pt.len() as int);
        // The children of an acyclic PR are acyclic and unrelated.
        assert forall|j: int| 0 <= j < ks.len() implies 0 <= #[trigger] ks[j] < pt.len() && acyclic(pt, ks[j]) by {
            let c = ks[j];
            lemma_anc_one(pt, c);
            assert forall|k: nat| k >= 1 implies #[trigger] anc(pt, c, k) != Some(c) by {
                if anc(pt, c, k) == Some(c) {
                    lemma_anc_add(pt, c, k, 1);
                    lemma_anc_add(pt, c, 1, k);
                    assert(anc(pt, i, k) == Some(i));
                }
            }
        }
        assert forall|a: int, b: int, k: nat|
            0 <= a < ks.len() && 0 <= b < ks.len() && a != b && k >= 1 implies #[trigger] anc(pt, ks[a], k) != Some(#[trigger] ks[b]) by {
            if anc(pt, ks[a], k) == Some(ks[b]) {
                lemma_anc_one(pt, ks[a]);
                lemma_anc_one(pt, ks[b]);
                lemma_anc_add(pt, ks[a], k, 1);
                lemma_anc_add(pt, ks[a], 1, k);
                assert(anc(pt, i, k) == Some(i));
            }
        }
        assert(ks.no_duplicates()) by {
            assert forall|a: int, b: int| 0 <= a < ks.len() && 0 <= b < ks.len() && a != b implies ks[a] != ks[b] by {
                if a < b {
                    assert(ks[a] < ks[b]);
                } else {
                    assert(ks[b] < ks[a]);
                }
            }
        }
        lemma_walk_list_distinct(pt, ks, f1);
        lemma_walk_list_members(pt, ks, f1);
        let wl = walk_list(pt, ks, f1);
        if wl.contains(i) {
            let j = choose|j: int| 0 <= j < ks.len() && #[trigger] walk(pt, ks[j], f1).contains(i);
            lemma_walk_members(pt, ks[j], f1);
            let d = choose|d: nat| d <= f1 && #[trigger] anc(pt, i, d) == Some(ks[j]);
            lemma_anc_add(pt, i, d, 1);
            lemma_anc_one(pt, ks[j]);
            assert(anc(pt, i, d + 1) == Some(i));
        }
        let w = wl.push(i);
        assert(walk(pt, i, f) == w);
        assert forall|a: int, b: int| 0 <= a < w.len() && 0 <= b < w.len() && a != b implies w[a] != w[b] by {
            if a < wl.len() && b < wl.len() {
                assert(w[a] == wl[a] && w[b] == wl[b]);
            } else if a < wl.len() {
                assert(w[a] == wl[a]);
                assert(w[b] == i);
                if wl[a] == i {
                    assert(wl.contains(i));
                }
            } else if b < wl.len() {
                assert(w[b] == wl[b]);
                assert(w[a] == i);
                if wl[b] == i {
                    assert(wl.contains(i));
                }
            }
        }
    }
}

proof fn lemma_roots(pt: Seq<Option<int>>, upto: int)
    requires
        table_ok(pt),
        0 <= upto <= pt.len(),
    ensures
        roots(pt, upto).no_duplicates(),
        forall|j: int| 0 <= j < roots(pt, upto).len() ==> 0 <= #[trigger] roots(pt, upto)[j] < pt.len() && pt[roots(pt, upto)[j]] is None,
        forall|x: int| 0 <= x < upto && rooted(pt, x) ==> #[trigger] roots(pt, upto).contains(root_of(pt, x, pt.len())),
    decreases upto,
{
    if upto > 0 {
        lemma_roots(pt, upto - 1);
        let prev = roots(pt, upto - 1);
        let i = upto - 1;
        let n = pt.len();
        if rooted(pt, i) && !prev.contains(root_of(pt, i, n)) {
            let r = root_of(pt, i, n);
            lemma_reaches_root(pt, i, n);
            let d = choose|d: nat| d <= n && #[trigger] ends_at_root(pt, i, d);
            lemma_anc_in_range(pt, i, d);
            assert(anc(pt, i, d) == Some(r));
            let cur = prev.push(r);
            assert forall|j: int| 0 <= j < prev.len() implies #[trigger] cur[j] == prev[j] by {}
            assert forall|a: int, b: int| 0 <= a < cur.len() && 0 <= b < cur.len() && a != b implies cur[a] != cur[b] by {
                if a < prev.len() && b < prev.len() {
                } else if a < prev.len() {
                    assert(prev.contains(prev[a]));
                } else if b < prev.len() {
                    assert(prev.contains(prev[b]));
                }
            }
            assert forall|x: int| 0 <= x < upto && rooted(pt, x) implies #[trigger] cur.contains(root_of(pt, x, n)) by {
                if x < upto - 1 {
                    assert(prev.contains(root_of(pt, x, n)));
                    let j = choose|j: int| 0 <= j < prev.len() && prev[j] == root_of(pt, x, n);
                    assert(cur[j] == root_of(pt, x, n));
                } else {
                    assert(cur[prev.len() as int] == r);
                }
            }
        }
    }
}

proof fn lemma_unrooted(pt: Seq<Option<int>>, upto: int)
    requires
        0 <= upto <= pt.len(),
    ensures
        forall|a: int, b: int| 0 <= a < b < unrooted(pt, upto).len() ==> #[trigger] unrooted(pt, upto)[a] < #[trigger] unrooted(pt, upto)[b],
        forall|j: int| 0 <= j < unrooted(pt, upto).len() ==> 0 <= #[trigger] unrooted(pt, upto)[j] < upto && !rooted(pt, unrooted(pt, upto)[j]),
        forall|x: int| 0 <= x < upto && !rooted(pt, x) ==> #[trigger] unrooted(pt, upto).contains(x),
    decreases upto,
{
    if upto > 0 {
        lemma_unrooted(pt, upto - 1);
        let prev = unrooted(pt, upto - 1);
        if !rooted(pt, upto - 1) {
            let cur = prev.push(upto - 1);
            assert forall|j: int| 0 <= j < prev.len() implies #[trigger] cur[j] == prev[j] by {}
            assert forall|x: int| 0 <= x < upto && !rooted(pt, x) implies #[trigger] cur.contains(x) by {
                if x < upto - 1 {
                    assert(prev.contains(x));
                    let j = choose|j: int| 0 <= j < prev.len() && prev[j] == x;
                    assert(cur[j] == x);
                } else {
                    assert(cur[prev.len() as int] == x);
                }
            }
        }
    }
}

/// Every PR handed to `partition_into_stacks` is shown exactly once: the
/// display order is a permutation of the PRs' positions (PRs caught in a
/// base/head cycle included).
pub proof fn lemma_every_pr_shown_once(prs: Seq<ReviewPr>)
    ensures
        ({
            let ord = stack_order(parent_table(prs));
            &&& ord.len() == prs.len()
            &&& ord.no_duplicates()
            &&& forall|k: int| 0 <= k < ord.len() ==> 0 <= #[trigger] ord[k] < prs.len()
            &&& forall|x: int| 0 <= x < prs.len() ==> #[trigger] ord.contains(x)
        }),
{
    let pt = parent_table(prs);
    let n = pt.len();
    assert forall|i: int| 0 <= i < pt.len() implies match #[trigger] pt[i] {
        Some(p) => 0 <= p < pt.len(),
        None => true,
    } by {
        lemma_head_owner_in_range(prs, prs[i].base_branch@, prs.len() as int);
    }
    let rs = roots(pt, n as int);
    lemma_roots(pt, n as int);
    lemma_unrooted(pt, n as int);
    assert forall|j: int| 0 <= j < rs.len() implies 0 <= #[trigger] rs[j] < pt.len() && acyclic(pt, rs[j]) by {
        assert forall|k: nat| k >= 1 implies #[trigger] anc(pt, rs[j], k) != Some(rs[j]) by {}
    }
    assert forall|a: int, b: int, k: nat|
        0 <= a < rs.len() && 0 <= b < rs.len() && a != b && k >= 1 implies #[trigger] anc(pt, rs[a], k) != Some(#[trigger] rs[b]) by {}
    lemma_walk_list_distinct(pt, rs, n);
    lemma_walk_list_members(pt, rs, n);
    let w = walk_list(pt, rs, n);
    let u = unrooted(pt, n as int);
    // The stacks hold only rooted PRs.
    assert forall|k: int| 0 <= k < w.len() implies rooted(pt, #[trigger] w[k]) by {
        let x = w[k];
        assert(w.contains(x));
        let j = choose|j: int| 0 <= j < rs.len() && #[trigger] walk(pt, rs[j], n).contains(x);
        lemma_walk_members(pt, rs[j], n);
        let d = choose|d: nat| d <= n && #[trigger] anc(pt, x, d) == Some(rs[j]);
        assert(ends_at_root(pt, x, d));
        lemma_reaches_root(pt, x, n);
    }
    assert forall|p: int, q: int| 0 <= p < w.len() && 0 <= q < u.len() implies w[p] != u[q] by {
        assert(rooted(pt, w[p]));
    }
    assert(u.no_duplicates()) by {
        assert forall|a: int, b: int| 0 <= a < u.len() && 0 <= b < u.len() && a != b implies u[a] != u[b] by {
            if a < b {
                assert(u[a] < u[b]);
            } else {
                assert(u[b] < u[a]);
            }
        }
    }
    vstd::seq_lib::lemma_no_dup_in_concat(w, u);
    let ord = w + u;
    assert(stack_order(pt) == ord);
    assert forall|k: int| 0 <= k < ord.len() implies 0 <= #[trigger] ord[k] < prs.len() by {
        if k < w.len() {
            assert(ord[k] == w[k]);
        } else {
            assert(ord[k] == u[k - w.len()]);
        }
    }
    assert forall|x: int| 0 <= x < prs.len() implies #[trigger] ord.contains(x) by {
        if rooted(pt, x) {
            lemma_reaches_root(pt, x, n);
            let d = choose|d: nat| d <= n && #[trigger] ends_at_root(pt, x, d);
            let r = root_of(pt, x, n);
            assert(anc(pt, x, d) == Some(r));
            assert(rs.contains(r));
            let j = choose|j: int| 0 <= j < rs.len() && rs[j] == r;
            lemma_walk_members(pt, r, n);
            assert(below(pt, x, r, n));
            assert(walk(pt, rs[j], n).contains(x));
            assert(w.contains(x));
            let k = choose|k: int| 0 <= k < w.len() && w[k] == x;
            assert(ord[k] == x);
        } else {
            assert(u.contains(x));
            let k = choose|k: int| 0 <= k < u.len() && u[k] == x;
            assert(ord[k + w.len()] == x);
        }
    }
    // A duplicate-free list of the positions 0..n has length n.
    let positions = vstd::set_lib::set_int_range(0, n as int);
    vstd::set_lib::lemma_int_range(0, n as int);
    assert(ord.to_set() =~= positions) by {
        assert forall|x: int| ord.to_set().contains(x) <==> positions.contains(x) by {
            if ord.to_set().contains(x) {
                let k = choose|k: int| 0 <= k < ord.len() && ord[k] == x;
            }
            if positions.contains(x) {
                assert(ord.contains(x));
            }
        }
    }
    ord.unique_seq_to_set();
}

} // verus!
