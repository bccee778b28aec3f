//! The Graphite stack graph across fetched pull requests: parent/child edges
//! from `base_ref → head_ref` chaining (scoped per repository), and its
//! rendering into box-drawn stack trees where hidden PRs' visible descendants
//! re-parent onto the nearest visible ancestor.
use vstd::prelude::*;
use crate::pr_status::FetchedPr;
use crate::text::{lex_lt, str_lt};

verus! {

/// One PR in the graph: its key `(repo_key, number)`, the index of its parent
/// node, and its first-appearance index (the last input position with its key).
#[derive(Debug, PartialEq, Eq)]
pub struct StackNode {
    pub repo_key: String,
    pub number: u64,
    pub parent: Option<usize>,
    pub order: usize,
}

/// A row in a rendered stack tree: the PR key plus the box-drawing connector
/// prefix (`├ `, `└─┬ `, `│ └ `, …) that draws the stack shape.
#[derive(Debug, PartialEq, Eq)]
pub struct StackRow {
    pub key: (String, u64),
    pub prefix: String,
}

/// The parent/child graph across every fetched PR. Built once and never
/// mutated by the pane's bucket toggles, so descendant links survive when an
/// intermediate PR is filtered out of view.
#[derive(Debug, PartialEq, Eq)]
pub struct StackGraph {
    nodes: Vec<StackNode>,
}

/// Every parent link points at a node of the graph.
pub open spec fn parents_in_range(nodes: Seq<StackNode>) -> bool {
    forall|k: int|
        0 <= k < nodes.len() ==> ((#[trigger] nodes[k]).parent matches Some(p) ==> p < nodes.len())
}

impl StackGraph {
    #[verifier::type_invariant]
    spec fn wf(self) -> bool {
        parents_in_range(self.nodes@)
    }
}

impl View for StackGraph {
    type V = Seq<StackNode>;

    closed spec fn view(&self) -> Seq<StackNode> {
        self.nodes@
    }
}

/// The graph with no PRs.
impl Default for StackGraph {
    fn default() -> (g: StackGraph)
        ensures
            g@.len() == 0,
    {
        StackGraph { nodes: Vec::new() }
    }
}

// ---------------------------------------------------------------------------
// What `build` computes
// ---------------------------------------------------------------------------

/// PR `j` has key `(repo, number)`.
pub open spec fn has_key(pr: FetchedPr, repo: Seq<char>, number: u64) -> bool {
    pr.repo_key@ == repo && pr.number == number
}

/// The last position in `prs[..upto]` whose PR has key `(repo, number)`.
pub open spec fn last_with_key(prs: Seq<FetchedPr>, repo: Seq<char>, number: u64, upto: int) -> Option<int>
    decreases upto,
{
    if upto <= 0 {
        None
    } else if has_key(prs[upto - 1], repo, number) {
        Some(upto - 1)
    } else {
        last_with_key(prs, repo, number, upto - 1)
    }
}

/// The last position in `prs[..upto]` whose PR has head branch `head` in `repo`.
pub open spec fn head_owner(prs: Seq<FetchedPr>, repo: Seq<char>, head: Seq<char>, upto: int) -> Option<int>
    decreases upto,
{
    if upto <= 0 {
        None
    } else if prs[upto - 1].repo_key@ == repo && prs[upto - 1].head_ref@ == head {
        Some(upto - 1)
    } else {
        head_owner(prs, repo, head, upto - 1)
    }
}

/// The position of PR `j`'s parent: the PR (in the same repo) whose head is
/// `j`'s base, unless that PR has `j`'s own key.
pub open spec fn edge_from(prs: Seq<FetchedPr>, j: int) -> Option<int> {
    match head_owner(prs, prs[j].repo_key@, prs[j].base_ref@, prs.len() as int) {
        Some(h) => if has_key(prs[h], prs[j].repo_key@, prs[j].number) {
            None
        } else {
            Some(h)
        },
        None => None,
    }
}

/// The parent position given by the last PR of `prs[..upto]` with key
/// `(repo, number)` that has one.
pub open spec fn last_edge(prs: Seq<FetchedPr>, repo: Seq<char>, number: u64, upto: int) -> Option<int>
    decreases upto,
{
    if upto <= 0 {
        None
    } else if has_key(prs[upto - 1], repo, number) && edge_from(prs, upto - 1) is Some {
        edge_from(prs, upto - 1)
    } else {
        last_edge(prs, repo, number, upto - 1)
    }
}

/// Node `k` of `nodes` carries key `(repo, number)`.
pub open spec fn node_has_key(nodes: Seq<StackNode>, k: int, repo: Seq<char>, number: u64) -> bool {
    nodes[k].repo_key@ == repo && nodes[k].number == number
}

/// No key occurs on two nodes.
pub open spec fn distinct_keys(nodes: Seq<StackNode>) -> bool {
    forall|a: int, b: int|
        0 <= a < nodes.len() && 0 <= b < nodes.len() && a != b ==> !node_has_key(
            nodes,
            a,
            (#[trigger] nodes[b]).repo_key@,
            (#[trigger] nodes[a]).number,
        ) || nodes[a].number != nodes[b].number
}

/// `nodes` is the stack graph of `prs`: one node per distinct key, each with
/// the last position of its key as order and the parent its last edge names.
pub open spec fn graph_of(nodes: Seq<StackNode>, prs: Seq<FetchedPr>) -> bool {
    &&& distinct_keys(nodes)
    &&& forall|j: int|
        0 <= j < prs.len() ==> exists|k: int|
            0 <= k < nodes.len() && node_has_key(nodes, k, (#[trigger] prs[j]).repo_key@, prs[j].number)
    &&& forall|k: int|
        0 <= k < nodes.len() ==> last_with_key(
            prs,
            (#[trigger] nodes[k]).repo_key@,
            nodes[k].number,
            prs.len() as int,
        ) == Some(nodes[k].order as int)
    &&& forall|k: int|
        0 <= k < nodes.len() ==> match last_edge(
            prs,
            (#[trigger] nodes[k]).repo_key@,
            nodes[k].number,
            prs.len() as int,
        ) {
            None => nodes[k].parent is None,
            Some(h) => nodes[k].parent matches Some(p) && p < nodes.len() && node_has_key(
                nodes,
                p as int,
                prs[h].repo_key@,
                prs[h].number,
            ),
        }
}

/// The node carrying key `(repo, number)`, if any.
fn find_node(nodes: &Vec<StackNode>, repo: &String, number: u64) -> (r: Option<usize>)
    ensures
        r matches Some(k) ==> k < nodes@.len() && node_has_key(nodes@, k as int, repo@, number),
        r is None ==> forall|k: int| 0 <= k < nodes@.len() ==> !node_has_key(nodes@, k, repo@, number),
{
    let mut k: usize = 0;
    while k < nodes.len()
        invariant
            k <= nodes@.len(),
            forall|q: int| 0 <= q < k ==> !node_has_key(nodes@, q, repo@, number),
        decreases nodes.len() - k,
    {
        if nodes[k].number == number && nodes[k].repo_key == *repo {
            return Some(k);
        }
        k = k + 1;
    }
    None
}

/// The last PR whose head branch is `head` in `repo`.
fn find_head_owner(prs: &Vec<FetchedPr>, repo: &String, head: &String) -> (r: Option<usize>)
    ensures
        r matches Some(h) ==> h < prs@.len() && head_owner(prs@, repo@, head@, prs@.len() as int) == Some(h as int),
        r is None ==> head_owner(prs@, repo@, head@, prs@.len() as int) is None,
{
    let mut upto: usize = prs.len();
    while upto > 0
        invariant
            upto <= prs@.len(),
            head_owner(prs@, repo@, head@, prs@.len() as int) == head_owner(prs@, repo@, head@, upto as int),
        decreases upto,
    {
        let pr = &prs[upto - 1];
        if pr.repo_key == *repo && pr.head_ref == *head {
            return Some(upto - 1);
        }
        upto = upto - 1;
    }
    None
}

impl StackGraph {
    /// Build the graph from all fetched PRs. An edge forms when one PR's
    /// `base_ref` equals another PR's `head_ref` *in the same repo*.
    pub fn build(prs: &Vec<FetchedPr>) -> (g: StackGraph)
        ensures
            graph_of(g@, prs@),
            parents_in_range(g@),
    {
        let mut nodes: Vec<StackNode> = Vec::new();
        let mut j: usize = 0;
        while j < prs.len()
            invariant
                j <= prs@.len(),
                distinct_keys(nodes@),
                forall|q: int|
                    0 <= q < j ==> exists|k: int|
                        0 <= k < nodes@.len() && node_has_key(
                            nodes@,
                            k,
                            (#[trigger] prs@[q]).repo_key@,
                            prs@[q].number,
                        ),
                forall|k: int|
                    0 <= k < nodes@.len() ==> last_with_key(
                        prs@,
                        (#[trigger] nodes@[k]).repo_key@,
                        nodes@[k].number,
                        j as int,
                    ) == Some(nodes@[k].order as int),
                forall|k: int| 0 <= k < nodes@.len() ==> (#[trigger] nodes@[k]).parent is None,
            decreases prs.len() - j,
        {
            let pr = &prs[j];
            let ghost old_nodes = nodes@;
            match find_node(&nodes, &pr.repo_key, pr.number) {
                Some(k) => {
                    let node = StackNode {
                        repo_key: pr.repo_key.clone(),
                        number: pr.number,
                        parent: None,
                        order: j,
                    };
                    nodes.set(k, node);
                    proof {
                        assert forall|q: int| 0 <= q < nodes@.len() implies last_with_key(
                            prs@,
                            (#[trigger] nodes@[q]).repo_key@,
                            nodes@[q].number,
                            j + 1,
                        ) == Some(nodes@[q].order as int) by {
                            if q != k {
                                assert(nodes@[q] == old_nodes[q]);
                            }
                        }
                        assert(distinct_keys(nodes@)) by {
                            assert forall|a: int, b: int|
                                0 <= a < nodes@.len() && 0 <= b < nodes@.len() && a != b implies !node_has_key(
                                nodes@,
                                a,
                                (#[trigger] nodes@[b]).repo_key@,
                                (#[trigger] nodes@[a]).number,
                            ) || nodes@[a].number != nodes@[b].number by {
                                assert(nodes@[a].repo_key@ == old_nodes[a].repo_key@);
                                assert(nodes@[b].repo_key@ == old_nodes[b].repo_key@);
                                assert(nodes@[a].number == old_nodes[a].number);
                                assert(nodes@[b].number == old_nodes[b].number);
                            }
                        }
                        assert forall|q: int| 0 <= q < j + 1 implies exists|kk: int|
                            0 <= kk < nodes@.len() && node_has_key(
                                nodes@,
                                kk,
                                (#[trigger] prs@[q]).repo_key@,
                                prs@[q].number,
                            ) by {
                            if q < j {
                                let kk = choose|kk: int|
                                    0 <= kk < old_nodes.len() && node_has_key(
                                        old_nodes,
                                        kk,
                                        prs@[q].repo_key@,
                                        prs@[q].number,
                                    );
                                assert(node_has_key(nodes@, kk, prs@[q].repo_key@, prs@[q].number));
                            } else {
                                assert(node_has_key(nodes@, k as int, prs@[q].repo_key@, prs@[q].number));
                            }
                        }
                    }
                },
                None => {
                    let node = StackNode {
                        repo_key: pr.repo_key.clone(),
                        number: pr.number,
                        parent: None,
                        order: j,
                    };
                    nodes.push(node);
                    proof {
                        assert forall|q: int| 0 <= q < nodes@.len() implies last_with_key(
                            prs@,
                            (#[trigger] nodes@[q]).repo_key@,
                            nodes@[q].number,
                            j + 1,
                        ) == Some(nodes@[q].order as int) by {
                            if q < old_nodes.len() {
                                assert(nodes@[q] == old_nodes[q]);
                                assert(!node_has_key(old_nodes, q, pr.repo_key@, pr.number));
                            }
                        }
                        assert(distinct_keys(nodes@)) by {
                            assert forall|a: int, b: int|
                                0 <= a < nodes@.len() && 0 <= b < nodes@.len() && a != b implies !node_has_key(
                                nodes@,
                                a,
                                (#[trigger] nodes@[b]).repo_key@,
                                (#[trigger] nodes@[a]).number,
                            ) || nodes@[a].number != nodes@[b].number by {
                                if a < old_nodes.len() {
                                    assert(nodes@[a] == old_nodes[a]);
                                }
                                if b < old_nodes.len() {
                                    assert(nodes@[b] == old_nodes[b]);
                                }
                                if a == old_nodes.len() {
                                    assert(!node_has_key(old_nodes, b, pr.repo_key@, pr.number));
                                }
                                if b == old_nodes.len() {
                                    assert(!node_has_key(old_nodes, a, pr.repo_key@, pr.number));
                                }
                            }
                        }
                        assert forall|q: int| 0 <= q < j + 1 implies exists|kk: int|
                            0 <= kk < nodes@.len() && node_has_key(
                                nodes@,
                                kk,
                                (#[trigger] prs@[q]).repo_key@,
                                prs@[q].number,
                            ) by {
                            if q < j {
                                let kk = choose|kk: int|
                                    0 <= kk < old_nodes.len() && node_has_key(
                                        old_nodes,
                                        kk,
                                        prs@[q].repo_key@,
                                        prs@[q].number,
                                    );
                                assert(nodes@[kk] == old_nodes[kk]);
                                assert(node_has_key(nodes@, kk, prs@[q].repo_key@, prs@[q].number));
                            } else {
                                assert(node_has_key(
                                    nodes@,
                                    old_nodes.len() as int,
                                    prs@[q].repo_key@,
                                    prs@[q].number,
                                ));
                            }
                        }
                    }
                },
            }
            j = j + 1;
        }
        // Edges: a PR's base is another PR's head in the same repo.
        let mut j: usize = 0;
        while j < prs.len()
            invariant
                j <= prs@.len(),
                distinct_keys(nodes@),
                forall|q: int|
                    0 <= q < prs@.len() ==> exists|k: int|
                        0 <= k < nodes@.len() && node_has_key(
                            nodes@,
                            k,
                            (#[trigger] prs@[q]).repo_key@,
                            prs@[q].number,
                        ),
                forall|k: int|
                    0 <= k < nodes@.len() ==> last_with_key(
                        prs@,
                        (#[trigger] nodes@[k]).repo_key@,
                        nodes@[k].number,
                        prs@.len() as int,
                    ) == Some(nodes@[k].order as int),
                forall|k: int|
                    0 <= k < nodes@.len() ==> match last_edge(
                        prs@,
                        (#[trigger] nodes@[k]).repo_key@,
                        nodes@[k].number,
                        j as int,
                    ) {
                        None => nodes@[k].parent is None,
                        Some(h) => nodes@[k].parent matches Some(p) && p < nodes@.len() && node_has_key(
                            nodes@,
                            p as int,
                            prs@[h].repo_key@,
                            prs@[h].number,
                        ),
                    },
            decreases prs.len() - j,
        {
            let pr = &prs[j];
            let ghost old_nodes = nodes@;
            let owner = find_head_owner(prs, &pr.repo_key, &pr.base_ref);
            let mut edge: Option<usize> = None;
            if let Some(h) = owner {
                let parent_pr = &prs[h];
                if !(parent_pr.number == pr.number && parent_pr.repo_key == pr.repo_key) {
                    edge = Some(h);
                }
            }
            proof {
                assert(match edge {
                    Some(h) => edge_from(prs@, j as int) == Some(h as int),
                    None => edge_from(prs@, j as int) is None,
                });
            }
            if let Some(h) = edge {
                let child = find_node(&nodes, &pr.repo_key, pr.number);
                let parent = find_node(&nodes, &prs[h].repo_key, prs[h].number);
                proof {
                    let kk = choose|kk: int|
                        0 <= kk < nodes@.len() && node_has_key(nodes@, kk, prs@[j as int].repo_key@, prs@[j as int].number);
                    let hh = choose|kk: int|
                        0 <= kk < nodes@.len() && node_has_key(nodes@, kk, prs@[h as int].repo_key@, prs@[h as int].number);
                }
                if let (Some(c), Some(p)) = (child, parent) {
                    let node = StackNode {
                        repo_key: nodes[c].repo_key.clone(),
                        number: nodes[c].number,
                        parent: Some(p),
                        order: nodes[c].order,
                    };
                    nodes.set(c, node);
                    proof {
                        assert forall|q: int| 0 <= q < prs@.len() implies exists|kk: int|
                            0 <= kk < nodes@.len() && node_has_key(
                                nodes@,
                                kk,
                                (#[trigger] prs@[q]).repo_key@,
                                prs@[q].number,
                            ) by {
                            let kk = choose|kk: int|
                                0 <= kk < old_nodes.len() && node_has_key(
                                    old_nodes,
                                    kk,
                                    prs@[q].repo_key@,
                                    prs@[q].number,
                                );
                            assert(node_has_key(nodes@, kk, prs@[q].repo_key@, prs@[q].number));
                        }
                        assert(distinct_keys(nodes@)) by {
                            assert forall|a: int, b: int|
                                0 <= a < nodes@.len() && 0 <= b < nodes@.len() && a != b implies !node_has_key(
                                nodes@,
                                a,
                                (#[trigger] nodes@[b]).repo_key@,
                                (#[trigger] nodes@[a]).number,
                            ) || nodes@[a].number != nodes@[b].number by {
                                assert(nodes@[a].repo_key@ == old_nodes[a].repo_key@);
                                assert(nodes@[b].repo_key@ == old_nodes[b].repo_key@);
                                assert(nodes@[a].number == old_nodes[a].number);
                                assert(nodes@[b].number == old_nodes[b].number);
                            }
                        }
                        assert forall|k: int| 0 <= k < nodes@.len() implies match last_edge(
                            prs@,
                            (#[trigger] nodes@[k]).repo_key@,
                            nodes@[k].number,
                            j + 1,
                        ) {
                            None => nodes@[k].parent is None,
                            Some(hh) => nodes@[k].parent matches Some(pp) && pp < nodes@.len()
                                && node_has_key(nodes@, pp as int, prs@[hh].repo_key@, prs@[hh].number),
                        } by {
                            if k != c {
                                assert(nodes@[k] == old_nodes[k]);
                                assert(!node_has_key(old_nodes, k, pr.repo_key@, pr.number));
                            }
                        }
                    }
                }
            } else {
                proof {
                    assert forall|k: int| 0 <= k < nodes@.len() implies last_edge(
                        prs@,
                        (#[trigger] nodes@[k]).repo_key@,
                        nodes@[k].number,
                        j + 1,
                    ) == last_edge(prs@, nodes@[k].repo_key@, nodes@[k].number, j as int) by {}
                }
            }
            j = j + 1;
        }
        proof {
            assert forall|k: int| 0 <= k < nodes@.len() implies ((#[trigger] nodes@[k]).parent matches Some(
                p,
            ) ==> p < nodes@.len()) by {
                match last_edge(prs@, nodes@[k].repo_key@, nodes@[k].number, prs@.len() as int) {
                    Some(h) => {},
                    None => {},
                }
            }
        }
        StackGraph { nodes }
    }
}

// ---------------------------------------------------------------------------
// What `visible_forest` renders
// ---------------------------------------------------------------------------

/// The nearest visible node on the parent chain starting at `cur`, looking at
/// most `fuel` hidden nodes up.
pub open spec fn visible_from(nodes: Seq<StackNode>, flags: Seq<bool>, cur: Option<usize>, fuel: nat) -> Option<int>
    decreases fuel,
{
    match cur {
        None => None,
        Some(p) => if flags[p as int] {
            Some(p as int)
        } else if fuel == 0 {
            None
        } else {
            visible_from(nodes, flags, nodes[p as int].parent, (fuel - 1) as nat)
        },
    }
}

/// The parent chain starting at `cur` ends, or reaches a visible node, within
/// `fuel` hidden nodes.
pub open spec fn resolves_from(nodes: Seq<StackNode>, flags: Seq<bool>, cur: Option<usize>, fuel: nat) -> bool
    decreases fuel,
{
    match cur {
        None => true,
        Some(p) => flags[p as int] || (fuel > 0 && resolves_from(
            nodes,
            flags,
            nodes[p as int].parent,
            (fuel - 1) as nat,
        )),
    }
}

/// The nearest visible ancestor of node `x` (climbing through hidden parents).
pub open spec fn visible_parent(nodes: Seq<StackNode>, flags: Seq<bool>, x: int) -> Option<int> {
    visible_from(nodes, flags, nodes[x].parent, nodes.len())
}

/// Climbing from every visible node ends: no chain of hidden parents loops.
pub open spec fn chains_resolve(nodes: Seq<StackNode>, flags: Seq<bool>) -> bool {
    forall|k: int|
        0 <= k < nodes.len() && flags[k] ==> resolves_from(
            nodes,
            flags,
            (#[trigger] nodes[k]).parent,
            nodes.len(),
        )
}

/// The indices below `n` that satisfy `f`, in increasing order.
pub open spec fn indices_where(n: nat, f: spec_fn(int) -> bool) -> Seq<int>
    decreases n,
{
    if n == 0 {
        Seq::empty()
    } else {
        let r = indices_where((n - 1) as nat, f);
        if f(n - 1) {
            r.push(n - 1)
        } else {
            r
        }
    }
}

/// `x` inserted into `s` before the first element it goes before.
pub open spec fn insert_sorted(x: int, s: Seq<int>, before: spec_fn(int, int) -> bool) -> Seq<int>
    decreases s.len(),
{
    if s.len() == 0 {
        seq![x]
    } else if before(x, s[0]) {
        seq![x] + s
    } else {
        seq![s[0]] + insert_sorted(x, s.drop_first(), before)
    }
}

/// `s` sorted by insertion under `before`.
pub open spec fn sorted_by(s: Seq<int>, before: spec_fn(int, int) -> bool) -> Seq<int>
    decreases s.len(),
{
    if s.len() == 0 {
        Seq::empty()
    } else {
        insert_sorted(s.last(), sorted_by(s.drop_last(), before), before)
    }
}

/// Roots are ordered by repository, then by first appearance.
pub open spec fn root_before(nodes: Seq<StackNode>, a: int, b: int) -> bool {
    lex_lt(nodes[a].repo_key@, nodes[b].repo_key@) || (nodes[a].repo_key@ == nodes[b].repo_key@
        && nodes[a].order < nodes[b].order)
}

/// Children are ordered by first appearance.
pub open spec fn child_before(nodes: Seq<StackNode>, a: int, b: int) -> bool {
    nodes[a].order < nodes[b].order
}

/// The root display order as a relation.
pub open spec fn root_order(nodes: Seq<StackNode>) -> spec_fn(int, int) -> bool {
    |a: int, b: int| root_before(nodes, a, b)
}

/// The child display order as a relation.
pub open spec fn child_order(nodes: Seq<StackNode>) -> spec_fn(int, int) -> bool {
    |a: int, b: int| child_before(nodes, a, b)
}

/// Visible nodes without a visible ancestor.
pub open spec fn is_root_of(nodes: Seq<StackNode>, flags: Seq<bool>) -> spec_fn(int) -> bool {
    |k: int| flags[k] && visible_parent(nodes, flags, k) is None
}

/// Visible nodes whose nearest visible ancestor is `x`.
pub open spec fn is_child_of(nodes: Seq<StackNode>, flags: Seq<bool>, x: int) -> spec_fn(int) -> bool {
    |k: int| flags[k] && visible_parent(nodes, flags, k) == Some(x)
}

/// The visible nodes with no visible ancestor, in display order.
pub open spec fn forest_roots(nodes: Seq<StackNode>, flags: Seq<bool>) -> Seq<int> {
    sorted_by(indices_where(nodes.len(), is_root_of(nodes, flags)), root_order(nodes))
}

/// The visible nodes whose nearest visible ancestor is `x`, in display order.
pub open spec fn forest_children(nodes: Seq<StackNode>, flags: Seq<bool>, x: int) -> Seq<int> {
    sorted_by(indices_where(nodes.len(), is_child_of(nodes, flags, x)), child_order(nodes))
}

/// The `│ ` / blank columns drawn for the ancestors of a row.
pub open spec fn spine(anc: Seq<bool>) -> Seq<char>
    decreases anc.len(),
{
    if anc.len() == 0 {
        Seq::empty()
    } else {
        spine(anc.drop_last()) + if anc.last() {
            "│ "@
        } else {
            "  "@
        }
    }
}

/// The connector drawn before a row: nothing for a root; otherwise the spine,
/// `└` for a last child or `├`, `─┬` when the row has children, and a space.
pub open spec fn row_prefix(anc: Seq<bool>, is_last: bool, is_root: bool, has_children: bool) -> Seq<char> {
    if is_root {
        Seq::empty()
    } else {
        spine(anc) + seq![if is_last { '└' } else { '├' }] + (if has_children {
            "─┬"@
        } else {
            Seq::empty()
        }) + seq![' ']
    }
}

/// The spine the children of a row inherit: a root adds no column; deeper
/// rows add `│` when more siblings follow, blank otherwise.
pub open spec fn child_spine(anc: Seq<bool>, is_last: bool, is_root: bool) -> Seq<bool> {
    if is_root {
        anc
    } else {
        anc.push(!is_last)
    }
}

/// The rows of the tree under `x`: `x` itself, then each child's tree.
pub open spec fn walk(
    nodes: Seq<StackNode>,
    flags: Seq<bool>,
    x: int,
    anc: Seq<bool>,
    is_last: bool,
    is_root: bool,
    fuel: nat,
) -> Seq<(int, Seq<char>)>
    decreases fuel, 0int,
{
    let kids = forest_children(nodes, flags, x);
    seq![(x, row_prefix(anc, is_last, is_root, kids.len() > 0))] + if fuel == 0 {
        Seq::empty()
    } else {
        walk_list(nodes, flags, kids, 0, child_spine(anc, is_last, is_root), (fuel - 1) as nat)
    }
}

/// The trees under `kids[i..]`, one after another.
pub open spec fn walk_list(
    nodes: Seq<StackNode>,
    flags: Seq<bool>,
    kids: Seq<int>,
    i: int,
    anc: Seq<bool>,
    fuel: nat,
) -> Seq<(int, Seq<char>)>
    decreases fuel, kids.len() - i,
{
    if i < 0 || i >= kids.len() {
        Seq::empty()
    } else {
        walk(nodes, flags, kids[i], anc, i + 1 == kids.len(), false, fuel) + walk_list(
            nodes,
            flags,
            kids,
            i + 1,
            anc,
            fuel,
        )
    }
}

/// The trees of `roots[i..]`, one after another.
pub open spec fn forest_from(nodes: Seq<StackNode>, flags: Seq<bool>, roots: Seq<int>, i: int) -> Seq<(int, Seq<char>)>
    decreases roots.len() - i,
{
    if i < 0 || i >= roots.len() {
        Seq::empty()
    } else {
        walk(nodes, flags, roots[i], Seq::empty(), true, true, nodes.len()) + forest_from(
            nodes,
            flags,
            roots,
            i + 1,
        )
    }
}

/// The whole rendered forest: `(node, prefix)` rows.
pub open spec fn forest(nodes: Seq<StackNode>, flags: Seq<bool>) -> Seq<(int, Seq<char>)> {
    forest_from(nodes, flags, forest_roots(nodes, flags), 0)
}

/// The `(node, prefix)` view of rendered rows.
pub open spec fn rows_view(rows: Seq<(usize, String)>) -> Seq<(int, Seq<char>)> {
    rows.map_values(|r: (usize, String)| (r.0 as int, r.1@))
}

/// Indices as integers.
pub open spec fn ints(s: Seq<usize>) -> Seq<int> {
    s.map_values(|u: usize| u as int)
}

/// An index as an integer.
pub open spec fn opt_int(o: Option<usize>) -> Option<int> {
    match o {
        Some(u) => Some(u as int),
        None => None,
    }
}

/// `rows` render the `(node, prefix)` rows `f` of the graph `nodes`.
pub open spec fn rows_match(rows: Seq<StackRow>, nodes: Seq<StackNode>, f: Seq<(int, Seq<char>)>) -> bool {
    &&& rows.len() == f.len()
    &&& forall|i: int|
        0 <= i < rows.len() ==> 0 <= (#[trigger] f[i]).0 < nodes.len() && rows[i].key.0
            == nodes[f[i].0].repo_key && rows[i].key.1 == nodes[f[i].0].number && rows[i].prefix@
            == f[i].1
}

/// The key of node `k`.
pub open spec fn node_key(nodes: Seq<StackNode>, k: int) -> (String, u64) {
    (nodes[k].repo_key, nodes[k].number)
}

/// `flags` records what `visible` answered for each node's key.
pub open spec fn answers<F: Fn(&(String, u64)) -> bool>(visible: F, nodes: Seq<StackNode>, flags: Seq<bool>) -> bool {
    &&& flags.len() == nodes.len()
    &&& forall|k: int| 0 <= k < nodes.len() ==> call_ensures(visible, (&node_key(nodes, k),), #[trigger] flags[k])
}

/// Inserting before the first element `x` goes before is `insert_sorted`.
proof fn lemma_insert_sorted(x: int, s: Seq<int>, before: spec_fn(int, int) -> bool, p: int)
    requires
        0 <= p <= s.len(),
        forall|i: int| 0 <= i < p ==> !before(x, #[trigger] s[i]),
        p < s.len() ==> before(x, s[p]),
    ensures
        insert_sorted(x, s, before) == s.insert(p, x),
    decreases s.len(),
{
    if s.len() == 0 {
        assert(s.insert(p, x) =~= seq![x]);
    } else if p == 0 {
        assert(s.insert(p, x) =~= seq![x] + s);
    } else {
        let t = s.drop_first();
        assert forall|i: int| 0 <= i < p - 1 implies !before(x, #[trigger] t[i]) by {
            assert(t[i] == s[i + 1]);
        }
        lemma_insert_sorted(x, t, before, p - 1);
        assert(s.insert(p, x) =~= seq![s[0]] + t.insert(p - 1, x));
    }
}

impl StackGraph {
    /// Whether node `a` is displayed before node `b` (roots: by repo, then first
    /// appearance; children: by first appearance).
    fn goes_before(&self, a: usize, b: usize, by_repo: bool) -> (r: bool)
        requires
            a < self@.len(),
            b < self@.len(),
        ensures
            r == if by_repo {
                (root_order(self@))(a as int, b as int)
            } else {
                (child_order(self@))(a as int, b as int)
            },
    {
        let na = &self.nodes[a];
        let nb = &self.nodes[b];
        if by_repo {
            str_lt(na.repo_key.as_str(), nb.repo_key.as_str()) || (na.repo_key == nb.repo_key
                && na.order < nb.order)
        } else {
            na.order < nb.order
        }
    }

    /// `s` sorted by insertion in display order.
    fn sort_for_display(&self, s: &Vec<usize>, by_repo: bool) -> (r: Vec<usize>)
        requires
            forall|i: int| 0 <= i < s@.len() ==> #[trigger] s@[i] < self@.len(),
        ensures
            ints(r@) == sorted_by(ints(s@), if by_repo { root_order(self@) } else { child_order(self@) }),
            forall|i: int| 0 <= i < r@.len() ==> #[trigger] r@[i] < self@.len(),
    {
        let ghost before = if by_repo { root_order(self@) } else { child_order(self@) };
        let mut r: Vec<usize> = Vec::new();
        let mut i: usize = 0;
        proof {
            assert(ints(s@).subrange(0, 0) =~= Seq::<int>::empty());
            assert(ints(r@) =~= Seq::<int>::empty());
        }
        while i < s.len()
            invariant
                i <= s@.len(),
                forall|q: int| 0 <= q < s@.len() ==> #[trigger] s@[q] < self@.len(),
                forall|q: int| 0 <= q < r@.len() ==> #[trigger] r@[q] < self@.len(),
                before == if by_repo { root_order(self@) } else { child_order(self@) },
                ints(r@) == sorted_by(ints(s@).subrange(0, i as int), before),
            decreases s.len() - i,
        {
            let x = s[i];
            let mut p: usize = 0;
            while p < r.len()
                invariant
                    p <= r@.len(),
                    x < self@.len(),
                    forall|q: int| 0 <= q < r@.len() ==> #[trigger] r@[q] < self@.len(),
                    before == if by_repo { root_order(self@) } else { child_order(self@) },
                    forall|q: int| 0 <= q < p ==> !before(x as int, #[trigger] ints(r@)[q]),
                ensures
                    p <= r@.len(),
                    forall|q: int| 0 <= q < p ==> !before(x as int, #[trigger] ints(r@)[q]),
                    p < r@.len() ==> before(x as int, ints(r@)[p as int]),
                decreases r.len() - p,
            {
                if self.goes_before(x, r[p], by_repo) {
                    break;
                }
                p = p + 1;
            }
            let ghost old_r = r@;
            proof {
                lemma_insert_sorted(x as int, ints(old_r), before, p as int);
                let pre = ints(s@).subrange(0, i as int);
                let post = ints(s@).subrange(0, i + 1);
                assert(post.drop_last() =~= pre);
                assert(post.last() == x as int);
            }
            r.insert(p, x);
            proof {
                assert(ints(r@) =~= ints(old_r).insert(p as int, x as int));
            }
            i = i + 1;
        }
        proof {
            assert(ints(s@).subrange(0, s@.len() as int) =~= ints(s@));
        }
        r
    }

    /// The nearest visible ancestor of node `x` (climbing through hidden parents).
    fn visible_parent_of(&self, flags: &Vec<bool>, x: usize) -> (r: Option<usize>)
        requires
            x < self@.len(),
            flags@.len() == self@.len(),
            resolves_from(self@, flags@, self@[x as int].parent, self@.len()),
        ensures
            opt_int(r) == visible_parent(self@, flags@, x as int),
            r matches Some(p) ==> p < self@.len(),
    {
        proof {
            use_type_invariant(self);
        }
        let mut cur = self.nodes[x].parent;
        let mut fuel: usize = self.nodes.len();
        loop
            invariant
                flags@.len() == self@.len(),
                parents_in_range(self@),
                cur matches Some(p) ==> p < self@.len(),
                self@[x as int].parent matches Some(p) ==> p < self@.len(),
                resolves_from(self@, flags@, cur, fuel as nat),
                visible_from(self@, flags@, cur, fuel as nat) == visible_parent(self@, flags@, x as int),
            decreases fuel,
        {
            match cur {
                None => {
                    return None;
                },
                Some(p) => {
                    if flags[p] {
                        return Some(p);
                    }
                    cur = self.nodes[p].parent;
                    fuel = fuel - 1;
                },
            }
        }
    }

    /// The number of PRs in the graph.
    pub fn node_count(&self) -> (n: usize)
        ensures
            n == self@.len(),
    {
        self.nodes.len()
    }

    /// The key of node `k`.
    pub fn node_key_at(&self, k: usize) -> (key: (&String, u64))
        requires
            k < self@.len(),
        ensures
            *key.0 == self@[k as int].repo_key,
            key.1 == self@[k as int].number,
    {
        (&self.nodes[k].repo_key, self.nodes[k].number)
    }

    /// Render the visible subset (node `k` is visible when `flags[k]`) as a
    /// forest of box-drawing stack trees. A hidden node emits nothing but its
    /// visible descendants re-parent onto the nearest visible ancestor. Roots
    /// are grouped by repo (so each repo's stacks are contiguous), then by
    /// first appearance.
    pub fn visible_forest_flags(&self, flags: &Vec<bool>) -> (rows: Vec<StackRow>)
        requires
            flags@.len() == self@.len(),
            chains_resolve(self@, flags@),
        ensures
            rows_match(rows@, self@, forest(self@, flags@)),
    {
        let n = self.nodes.len();
        // Nearest visible ancestor of each visible node.
        let mut vp: Vec<Option<usize>> = Vec::new();
        let mut k: usize = 0;
        while k < n
            invariant
                n == self@.len(),
                flags@.len() == n,
                chains_resolve(self@, flags@),
                k <= n,
                vp@.len() == k,
                forall|q: int| 0 <= q < k && flags@[q] ==> opt_int(#[trigger] vp@[q]) == visible_parent(self@, flags@, q),
                forall|q: int| 0 <= q < k ==> ((#[trigger] vp@[q]) matches Some(p) ==> p < n),
            decreases n - k,
        {
            if flags[k] {
                proof {
                    assert(resolves_from(self@, flags@, self@[k as int].parent, self@.len()));
                }
                vp.push(self.visible_parent_of(flags, k));
            } else {
                vp.push(None);
            }
            k = k + 1;
        }
        // Roots, in display order.
        let mut raw_roots: Vec<usize> = Vec::new();
        let mut k: usize = 0;
        while k < n
            invariant
                n == self@.len(),
                flags@.len() == n,
                vp@.len() == n,
                forall|q: int| 0 <= q < n && flags@[q] ==> opt_int(#[trigger] vp@[q]) == visible_parent(self@, flags@, q),
                k <= n,
                ints(raw_roots@) == indices_where(k as nat, is_root_of(self@, flags@)),
                forall|q: int| 0 <= q < raw_roots@.len() ==> #[trigger] raw_roots@[q] < n,
            decreases n - k,
        {
            let ghost before = raw_roots@;
            if flags[k] && vp[k].is_none() {
                raw_roots.push(k);
            }
            proof {
                assert(ints(raw_roots@) =~= indices_where((k + 1) as nat, is_root_of(self@, flags@)));
            }
            k = k + 1;
        }
        let roots = self.sort_for_display(&raw_roots, true);
        // Each node's visible children, in display order.
        let mut children: Vec<Vec<usize>> = Vec::new();
        let mut x: usize = 0;
        while x < n
            invariant
                n == self@.len(),
                flags@.len() == n,
                vp@.len() == n,
                forall|q: int| 0 <= q < n && flags@[q] ==> opt_int(#[trigger] vp@[q]) == visible_parent(self@, flags@, q),
                x <= n,
                children@.len() == x,
                forall|q: int| 0 <= q < x ==> ints((#[trigger] children@[q])@) == forest_children(self@, flags@, q),
                forall|q: int, i: int|
                    0 <= q < x && 0 <= i < children@[q]@.len() ==> #[trigger] children@[q]@[i] < n,
            decreases n - x,
        {
            let mut raw: Vec<usize> = Vec::new();
            let mut k: usize = 0;
            while k < n
                invariant
                    n == self@.len(),
                    flags@.len() == n,
                    vp@.len() == n,
                    x < n,
                    forall|q: int| 0 <= q < n && flags@[q] ==> opt_int(#[trigger] vp@[q]) == visible_parent(self@, flags@, q),
                    k <= n,
                    ints(raw@) == indices_where(k as nat, is_child_of(self@, flags@, x as int)),
                    forall|q: int| 0 <= q < raw@.len() ==> #[trigger] raw@[q] < n,
                decreases n - k,
            {
                let is_child = flags[k] && match vp[k] {
                    Some(p) => p == x,
                    None => false,
                };
                if is_child {
                    raw.push(k);
                }
                proof {
                    assert(ints(raw@) =~= indices_where((k + 1) as nat, is_child_of(self@, flags@, x as int)));
                }
                k = k + 1;
            }
            let sorted = self.sort_for_display(&raw, false);
            children.push(sorted);
            x = x + 1;
        }
        // Walk each root's tree.
        let mut out: Vec<(usize, String)> = Vec::new();
        let empty: Vec<bool> = Vec::new();
        let mut i: usize = 0;
        while i < roots.len()
            invariant
                n == self@.len(),
                flags@.len() == n,
                children@.len() == n,
                forall|q: int| 0 <= q < n ==> ints((#[trigger] children@[q])@) == forest_children(self@, flags@, q),
                forall|q: int, j: int|
                    0 <= q < n && 0 <= j < children@[q]@.len() ==> #[trigger] children@[q]@[j] < n,
                ints(roots@) == forest_roots(self@, flags@),
                forall|q: int| 0 <= q < roots@.len() ==> #[trigger] roots@[q] < n,
                empty@ == Seq::<bool>::empty(),
                i <= roots@.len(),
                rows_view(out@) + forest_from(self@, flags@, ints(roots@), i as int) == forest(self@, flags@),
                forall|q: int| 0 <= q < out@.len() ==> (#[trigger] out@[q]).0 < n,
            decreases roots.len() - i,
        {
            let ghost before = out@;
            self.walk_tree(flags, roots[i], &empty, true, true, &children, &mut out, n);
            proof {
                assert(ints(roots@)[i as int] == roots@[i as int] as int);
                assert(rows_view(out@) + forest_from(self@, flags@, ints(roots@), i + 1) =~= rows_view(before) + forest_from(self@, flags@, ints(roots@), i as int));
                assert forall|q: int| 0 <= q < out@.len() implies (#[trigger] out@[q]).0 < n by {
                    if q < before.len() {
                        assert(out@.subrange(0, before.len() as int)[q] == before[q]);
                    }
                }
            }
            i = i + 1;
        }
        proof {
            assert(rows_view(out@) =~= forest(self@, flags@));
        }
        // Attach each row's key.
        let mut rows: Vec<StackRow> = Vec::new();
        let mut j: usize = 0;
        while j < out.len()
            invariant
                n == self@.len(),
                rows_view(out@) == forest(self@, flags@),
                forall|q: int| 0 <= q < out@.len() ==> (#[trigger] out@[q]).0 < n,
                j <= out@.len(),
                rows@.len() == j,
                forall|q: int|
                    0 <= q < j ==> (#[trigger] rows@[q]).key.0 == self@[out@[q].0 as int].repo_key
                        && rows@[q].key.1 == self@[out@[q].0 as int].number && rows@[q].prefix@
                        == out@[q].1@,
            decreases out.len() - j,
        {
            let node = &self.nodes[out[j].0];
            rows.push(StackRow { key: (node.repo_key.clone(), node.number), prefix: out[j].1.clone() });
            j = j + 1;
        }
        proof {
            let f = forest(self@, flags@);
            assert forall|q: int| 0 <= q < rows@.len() implies 0 <= (#[trigger] f[q]).0 < self@.len()
                && rows@[q].key.0 == self@[f[q].0].repo_key && rows@[q].key.1 == self@[f[q].0].number
                && rows@[q].prefix@ == f[q].1 by {
                assert(f[q] == rows_view(out@)[q]);
            }
        }
        rows
    }

    /// Render the PRs that `visible` accepts as a forest of box-drawing stack
    /// trees (see [`Self::visible_forest_flags`]).
    pub fn visible_forest<F: Fn(&(String, u64)) -> bool>(&self, visible: &F) -> (rows: Vec<StackRow>)
        requires
            forall|k: int| 0 <= k < self@.len() ==> call_requires(*visible, (&#[trigger] node_key(self@, k),)),
            forall|flags: Seq<bool>| #[trigger] answers(*visible, self@, flags) ==> chains_resolve(self@, flags),
        ensures
            exists|flags: Seq<bool>| #[trigger] answers(*visible, self@, flags) && rows_match(rows@, self@, forest(self@, flags)),
    {
        let mut flags: Vec<bool> = Vec::new();
        let mut k: usize = 0;
        while k < self.nodes.len()
            invariant
                k <= self@.len(),
                flags@.len() == k,
                forall|q: int| 0 <= q < self@.len() ==> call_requires(*visible, (&#[trigger] node_key(self@, q),)),
                forall|q: int| 0 <= q < k ==> call_ensures(*visible, (&node_key(self@, q),), #[trigger] flags@[q]),
            decreases self@.len() - k,
        {
            let key = (self.nodes[k].repo_key.clone(), self.nodes[k].number);
            proof {
                assert(key == node_key(self@, k as int));
            }
            let b = visible(&key);
            flags.push(b);
            k = k + 1;
        }
        proof {
            assert(answers(*visible, self@, flags@));
        }
        self.visible_forest_flags(&flags)
    }

    /// Walk the tree under `x`, appending its rows to `out`.
    #[verifier::spinoff_prover]
    fn walk_tree(
        &self,
        flags: &Vec<bool>,
        x: usize,
        ancestors: &Vec<bool>,
        is_last: bool,
        is_root: bool,
        children: &Vec<Vec<usize>>,
        out: &mut Vec<(usize, String)>,
        fuel: usize,
    )
        requires
            x < self@.len(),
            flags@.len() == self@.len(),
            children@.len() == self@.len(),
            forall|k: int|
                0 <= k < self@.len() ==> ints((#[trigger] children@[k])@) == forest_children(self@, flags@, k),
            forall|k: int, i: int|
                0 <= k < self@.len() && 0 <= i < children@[k]@.len() ==> #[trigger] children@[k]@[i] < self@.len(),
        ensures
            rows_view(final(out)@) == rows_view(old(out)@) + walk(
                self@,
                flags@,
                x as int,
                ancestors@,
                is_last,
                is_root,
                fuel as nat,
            ),
            forall|i: int| 0 <= i < final(out)@.len() ==> (#[trigger] final(out)@[i]).0 < self@.len() || i < old(out)@.len(),
            final(out)@.subrange(0, old(out)@.len() as int) == old(out)@,
        decreases fuel, 0int,
    {
        let kids = &children[x];
        let mut prefix = String::new();
        if !is_root {
            let mut j: usize = 0;
            proof {
                assert(ancestors@.subrange(0, 0) =~= Seq::<bool>::empty());
            }
            while j < ancestors.len()
                invariant
                    j <= ancestors@.len(),
                    prefix@ == spine(ancestors@.subrange(0, j as int)),
                decreases ancestors.len() - j,
            {
                proof {
                    assert(ancestors@.subrange(0, j + 1).drop_last() =~= ancestors@.subrange(0, j as int));
                }
                if ancestors[j] {
                    prefix.append("│ ");
                } else {
                    prefix.append("  ");
                }
                j = j + 1;
            }
            proof {
                assert(ancestors@.subrange(0, ancestors@.len() as int) =~= ancestors@);
            }
            prefix.push(if is_last { '└' } else { '├' });
            if kids.len() > 0 {
                prefix.append("─┬");
            }
            prefix.push(' ');
        }
        proof {
            assert(ints(kids@).len() == kids@.len());
            if is_root {
                assert(prefix@ =~= Seq::<char>::empty());
            } else {
                assert(prefix@ =~= row_prefix(ancestors@, is_last, is_root, kids@.len() > 0));
            }
        }
        let ghost start = out@;
        out.push((x, prefix));
        proof {
            assert(rows_view(out@) =~= rows_view(start).push((x as int, row_prefix(ancestors@, is_last, is_root, kids@.len() > 0))));
        }
        if fuel == 0 {
            proof {
                assert(rows_view(out@) =~= rows_view(start) + walk(self@, flags@, x as int, ancestors@, is_last, is_root, fuel as nat));
                assert(out@.subrange(0, start.len() as int) =~= start);
            }
            return;
        }
        let mut child_ancestors: Vec<bool> = ancestors.clone();
        if !is_root {
            child_ancestors.push(!is_last);
        }
        proof {
            assert(child_ancestors@ =~= child_spine(ancestors@, is_last, is_root));
        }
        let ghost mid = out@;
        self.walk_children(flags, kids, 0, &child_ancestors, children, out, fuel - 1);
        proof {
            assert(rows_view(out@) =~= rows_view(start) + walk(self@, flags@, x as int, ancestors@, is_last, is_root, fuel as nat));
            assert(out@.subrange(0, mid.len() as int) =~= mid);
            assert(out@.subrange(0, start.len() as int) =~= start);
            assert forall|i: int| 0 <= i < out@.len() implies (#[trigger] out@[i]).0 < self@.len() || i < start.len() by {
                if i < mid.len() {
                    assert(out@[i] == mid[i]);
                }
            }
        }
    }

    /// Walk the trees under `kids[i..]`, appending their rows to `out`.
    fn walk_children(
        &self,
        flags: &Vec<bool>,
        kids: &Vec<usize>,
        i: usize,
        ancestors: &Vec<bool>,
        children: &Vec<Vec<usize>>,
        out: &mut Vec<(usize, String)>,
        fuel: usize,
    )
        requires
            i <= kids@.len(),
            forall|q: int| 0 <= q < kids@.len() ==> #[trigger] kids@[q] < self@.len(),
            flags@.len() == self@.len(),
            children@.len() == self@.len(),
            forall|k: int|
                0 <= k < self@.len() ==> ints((#[trigger] children@[k])@) == forest_children(self@, flags@, k),
            forall|k: int, q: int|
                0 <= k < self@.len() && 0 <= q < children@[k]@.len() ==> #[trigger] children@[k]@[q] < self@.len(),
        ensures
            rows_view(final(out)@) == rows_view(old(out)@) + walk_list(
                self@,
                flags@,
                ints(kids@),
                i as int,
                ancestors@,
                fuel as nat,
            ),
            forall|q: int| 0 <= q < final(out)@.len() ==> (#[trigger] final(out)@[q]).0 < self@.len() || q < old(out)@.len(),
            final(out)@.subrange(0, old(out)@.len() as int) == old(out)@,
        decreases fuel, kids@.len() - i,
    {
        let ghost start = out@;
        if i >= kids.len() {
            proof {
                assert(rows_view(out@) =~= rows_view(start) + walk_list(self@, flags@, ints(kids@), i as int, ancestors@, fuel as nat));
                assert(out@.subrange(0, start.len() as int) =~= start);
            }
            return;
        }
        self.walk_tree(flags, kids[i], ancestors, i + 1 == kids.len(), false, children, out, fuel);
        let ghost mid = out@;
        self.walk_children(flags, kids, i + 1, ancestors, children, out, fuel);
        proof {
            assert(ints(kids@)[i as int] == kids@[i as int] as int);
            assert(rows_view(out@) =~= rows_view(start) + walk_list(self@, flags@, ints(kids@), i as int, ancestors@, fuel as nat));
            assert(out@.subrange(0, mid.len() as int) =~= mid);
            assert(mid.subrange(0, start.len() as int) =~= start);
            assert(out@.subrange(0, start.len() as int) =~= start);
            assert forall|q: int| 0 <= q < out@.len() implies (#[trigger] out@[q]).0 < self@.len() || q < start.len() by {
                if q < mid.len() {
                    assert(out@[q] == mid[q]);
                }
            }
        }
    }
}

// ---------------------------------------------------------------------------
// Every visible PR is shown exactly once
// ---------------------------------------------------------------------------

/// The node reached from `y` by climbing `d` visible-parent links, if the
/// chain is that long.
pub open spec fn vanc(nodes: Seq<StackNode>, flags: Seq<bool>, y: int, d: nat) -> Option<int>
    decreases d,
{
    if d == 0 {
        Some(y)
    } else {
        match visible_parent(nodes, flags, y) {
            Some(p) => vanc(nodes, flags, p, (d - 1) as nat),
            None => None,
        }
    }
}

proof fn lemma_visible_from_visible(nodes: Seq<StackNode>, flags: Seq<bool>, cur: Option<usize>, fuel: nat)
    requires
        parents_in_range(nodes),
        flags.len() == nodes.len(),
        cur matches Some(c) ==> c < nodes.len(),
    ensures
        visible_from(nodes, flags, cur, fuel) matches Some(p) ==> 0 <= p < nodes.len() && flags[p],
    decreases fuel,
{
    match cur {
        None => {},
        Some(c) => if !flags[c as int] && fuel > 0 {
            lemma_visible_from_visible(nodes, flags, nodes[c as int].parent, (fuel - 1) as nat);
        },
    }
}

proof fn lemma_visible_parent_visible(nodes: Seq<StackNode>, flags: Seq<bool>, y: int)
    requires
        parents_in_range(nodes),
        flags.len() == nodes.len(),
        0 <= y < nodes.len(),
    ensures
        visible_parent(nodes, flags, y) matches Some(p) ==> 0 <= p < nodes.len() && flags[p],
{
    lemma_visible_from_visible(nodes, flags, nodes[y].parent, nodes.len());
}

proof fn lemma_vanc_add(nodes: Seq<StackNode>, flags: Seq<bool>, y: int, a: nat, b: nat)
    ensures
        vanc(nodes, flags, y, a + b) == match vanc(nodes, flags, y, a) {
            Some(z) => vanc(nodes, flags, z, b),
            None => None,
        },
    decreases a,
{
    if a > 0 {
        match visible_parent(nodes, flags, y) {
            Some(p) => {
                lemma_vanc_add(nodes, flags, p, (a - 1) as nat, b);
                assert((a - 1) as nat + b == (a + b - 1) as nat);
            },
            None => {},
        }
    }
}

proof fn lemma_vanc_one(nodes: Seq<StackNode>, flags: Seq<bool>, c: int)
    ensures
        vanc(nodes, flags, c, 1) == visible_parent(nodes, flags, c),
{
    match visible_parent(nodes, flags, c) {
        Some(p) => {
            assert(vanc(nodes, flags, p, 0) == Some(p));
        },
        None => {},
    }
}

proof fn lemma_vanc_visible(nodes: Seq<StackNode>, flags: Seq<bool>, y: int, d: nat)
    requires
        parents_in_range(nodes),
        flags.len() == nodes.len(),
        0 <= y < nodes.len(),
        flags[y],
    ensures
        vanc(nodes, flags, y, d) matches Some(z) ==> 0 <= z < nodes.len() && flags[z],
    decreases d,
{
    if d > 0 {
        lemma_visible_parent_visible(nodes, flags, y);
        match visible_parent(nodes, flags, y) {
            Some(p) => lemma_vanc_visible(nodes, flags, p, (d - 1) as nat),
            None => {},
        }
    }
}

proof fn lemma_vanc_none_persists(nodes: Seq<StackNode>, flags: Seq<bool>, y: int, a: nat, b: nat)
    requires
        a <= b,
        vanc(nodes, flags, y, a) is None,
    ensures
        vanc(nodes, flags, y, b) is None,
{
    lemma_vanc_add(nodes, flags, y, a, (b - a) as nat);
    assert(a + (b - a) as nat == b);
}

/// Climbing visible parents from `y` ends within `n` links: no cycle.
pub open spec fn chain_ends(nodes: Seq<StackNode>, flags: Seq<bool>, y: int) -> bool {
    vanc(nodes, flags, y, nodes.len()) is None
}

proof fn lemma_vanc_repeat(nodes: Seq<StackNode>, flags: Seq<bool>, x: int, k: nat, m: nat)
    requires
        vanc(nodes, flags, x, k) == Some(x),
    ensures
        vanc(nodes, flags, x, k * m) == Some(x),
    decreases m,
{
    if m > 0 {
        lemma_vanc_repeat(nodes, flags, x, k, (m - 1) as nat);
        lemma_vanc_add(nodes, flags, x, k, k * (m - 1) as nat);
        assert(k + k * (m - 1) as nat == k * m) by (nonlinear_arith)
            requires
                m > 0,
        ;
    } else {
        assert(k * m == 0) by (nonlinear_arith)
            requires
                m == 0,
        ;
    }
}

/// A node whose chain ends never comes back to itself.
proof fn lemma_no_cycle(nodes: Seq<StackNode>, flags: Seq<bool>, x: int, k: nat)
    requires
        chain_ends(nodes, flags, x),
        k >= 1,
    ensures
        vanc(nodes, flags, x, k) != Some(x),
{
    if vanc(nodes, flags, x, k) == Some(x) {
        let n = nodes.len();
        lemma_vanc_repeat(nodes, flags, x, k, n);
        assert(n <= k * n) by (nonlinear_arith)
            requires
                k >= 1,
        ;
        lemma_vanc_none_persists(nodes, flags, x, n, k * n);
    }
}

proof fn lemma_cons(a: int, t: Seq<int>)
    ensures
        (seq![a] + t).len() == t.len() + 1,
        forall|y: int| #[trigger] (seq![a] + t).contains(y) <==> (y == a || t.contains(y)),
        (seq![a] + t).no_duplicates() <==> (!t.contains(a) && t.no_duplicates()),
{
    let c = seq![a] + t;
    assert forall|i: int| 0 <= i < t.len() implies #[trigger] c[i + 1] == t[i] by {}
    assert(c[0] == a);
    assert forall|y: int| #[trigger] c.contains(y) <==> (y == a || t.contains(y)) by {
        if c.contains(y) {
            let i = choose|i: int| 0 <= i < c.len() && c[i] == y;
            if i > 0 {
                assert(t[i - 1] == y);
            }
        }
        if t.contains(y) {
            let i = choose|i: int| 0 <= i < t.len() && t[i] == y;
            assert(c[i + 1] == y);
        }
    }
    if c.no_duplicates() {
        if t.contains(a) {
            let i = choose|i: int| 0 <= i < t.len() && t[i] == a;
            assert(c[i + 1] == c[0]);
        }
        assert forall|i: int, j: int| 0 <= i < t.len() && 0 <= j < t.len() && i != j implies t[i] != t[j] by {
            assert(c[i + 1] == t[i] && c[j + 1] == t[j]);
        }
    }
    if !t.contains(a) && t.no_duplicates() {
        assert forall|i: int, j: int| 0 <= i < c.len() && 0 <= j < c.len() && i != j implies c[i] != c[j] by {
            if i > 0 && j > 0 {
                assert(c[i] == t[i - 1] && c[j] == t[j - 1]);
            } else if i == 0 {
                assert(c[j] == t[j - 1]);
            } else {
                assert(c[i] == t[i - 1]);
            }
        }
    }
}

proof fn lemma_insert_sorted_members(x: int, s: Seq<int>, before: spec_fn(int, int) -> bool)
    ensures
        insert_sorted(x, s, before).len() == s.len() + 1,
        forall|y: int| #[trigger] insert_sorted(x, s, before).contains(y) <==> (y == x || s.contains(y)),
        s.no_duplicates() && !s.contains(x) ==> insert_sorted(x, s, before).no_duplicates(),
    decreases s.len(),
{
    if s.len() == 0 {
        lemma_cons(x, s);
        assert(seq![x] + s =~= seq![x]);
    } else if before(x, s[0]) {
        lemma_cons(x, s);
    } else {
        let t = s.drop_first();
        lemma_insert_sorted_members(x, t, before);
        let r = insert_sorted(x, t, before);
        lemma_cons(s[0], r);
        lemma_cons(s[0], t);
        assert(s =~= seq![s[0]] + t);
    }
}

proof fn lemma_sorted_by_members(s: Seq<int>, before: spec_fn(int, int) -> bool)
    ensures
        sorted_by(s, before).len() == s.len(),
        forall|y: int| #[trigger] sorted_by(s, before).contains(y) <==> s.contains(y),
        s.no_duplicates() ==> sorted_by(s, before).no_duplicates(),
    decreases s.len(),
{
    if s.len() > 0 {
        let init = s.drop_last();
        lemma_sorted_by_members(init, before);
        let r = sorted_by(init, before);
        lemma_insert_sorted_members(s.last(), r, before);
        assert(s =~= init.push(s.last()));
        assert forall|y: int| #[trigger] s.contains(y) <==> (y == s.last() || init.contains(y)) by {
            if s.contains(y) {
                let i = choose|i: int| 0 <= i < s.len() && s[i] == y;
                if i < s.len() - 1 {
                    assert(init[i] == y);
                }
            }
            if init.contains(y) {
                let i = choose|i: int| 0 <= i < init.len() && init[i] == y;
                assert(s[i] == y);
            }
        }
        if s.no_duplicates() {
            assert forall|i: int, j: int| 0 <= i < init.len() && 0 <= j < init.len() && i != j implies init[i] != init[j] by {
                assert(init[i] == s[i] && init[j] == s[j]);
            }
            if init.contains(s.last()) {
                let i = choose|i: int| 0 <= i < init.len() && init[i] == s.last();
                assert(s[i] == s[s.len() - 1]);
            }
        }
    }
}

proof fn lemma_indices_where(n: nat, f: spec_fn(int) -> bool)
    ensures
        forall|y: int| #[trigger] indices_where(n, f).contains(y) <==> (0 <= y < n && f(y)),
        indices_where(n, f).no_duplicates(),
    decreases n,
{
    if n > 0 {
        let r = indices_where((n - 1) as nat, f);
        lemma_indices_where((n - 1) as nat, f);
        if f(n - 1) {
            let r2 = r.push(n - 1);
            assert forall|y: int| #[trigger] r2.contains(y) <==> (0 <= y < n && f(y)) by {
                if r2.contains(y) {
                    let i = choose|i: int| 0 <= i < r2.len() && r2[i] == y;
                    if i < r.len() {
                        assert(r[i] == y);
                        assert(r.contains(y));
                    }
                }
                if 0 <= y < n && f(y) {
                    if y < n - 1 {
                        assert(r.contains(y));
                        let i = choose|i: int| 0 <= i < r.len() && r[i] == y;
                        assert(r2[i] == y);
                    } else {
                        assert(r2[r.len() as int] == y);
                    }
                }
            }
            assert forall|i: int, j: int| 0 <= i < r2.len() && 0 <= j < r2.len() && i != j implies r2[i] != r2[j] by {
                if i < r.len() && j < r.len() {
                    assert(r2[i] == r[i] && r2[j] == r[j]);
                } else if i < r.len() {
                    assert(r.contains(r2[i]));
                } else if j < r.len() {
                    assert(r.contains(r2[j]));
                }
            }
        }
    }
}

/// The nodes of rendered rows, in order.
pub open spec fn row_nodes(rows: Seq<(int, Seq<char>)>) -> Seq<int> {
    rows.map_values(|r: (int, Seq<char>)| r.0)
}

proof fn lemma_row_nodes_concat(a: Seq<(int, Seq<char>)>, b: Seq<(int, Seq<char>)>)
    ensures
        row_nodes(a + b) == row_nodes(a) + row_nodes(b),
{
    assert(row_nodes(a + b) =~= row_nodes(a) + row_nodes(b));
}

/// Node `y` lies at most `f` visible-parent links below `x`.
pub open spec fn vbelow(nodes: Seq<StackNode>, flags: Seq<bool>, y: int, x: int, f: nat) -> bool {
    exists|d: nat| d <= f && #[trigger] vanc(nodes, flags, y, d) == Some(x)
}

proof fn lemma_children(nodes: Seq<StackNode>, flags: Seq<bool>, x: int)
    ensures
        forall|c: int| #[trigger] forest_children(nodes, flags, x).contains(c) <==> (0 <= c < nodes.len() && flags[c]
            && visible_parent(nodes, flags, c) == Some(x)),
        forest_children(nodes, flags, x).no_duplicates(),
{
    let s = indices_where(nodes.len(), is_child_of(nodes, flags, x));
    lemma_indices_where(nodes.len(), is_child_of(nodes, flags, x));
    lemma_sorted_by_members(s, child_order(nodes));
}

proof fn lemma_roots_members(nodes: Seq<StackNode>, flags: Seq<bool>)
    ensures
        forall|r: int| #[trigger] forest_roots(nodes, flags).contains(r) <==> (0 <= r < nodes.len() && flags[r]
            && visible_parent(nodes, flags, r) is None),
        forest_roots(nodes, flags).no_duplicates(),
{
    let s = indices_where(nodes.len(), is_root_of(nodes, flags));
    lemma_indices_where(nodes.len(), is_root_of(nodes, flags));
    lemma_sorted_by_members(s, root_order(nodes));
}

/// The nodes of the tree under the `j`-th of `kids`.
pub open spec fn kid_rows(nodes: Seq<StackNode>, flags: Seq<bool>, kids: Seq<int>, j: int, anc: Seq<bool>, f: nat) -> Seq<int> {
    row_nodes(walk(nodes, flags, kids[j], anc, j + 1 == kids.len(), false, f))
}

proof fn lemma_walk_members(
    nodes: Seq<StackNode>,
    flags: Seq<bool>,
    x: int,
    anc: Seq<bool>,
    is_last: bool,
    is_root: bool,
    f: nat,
)
    requires
        parents_in_range(nodes),
        flags.len() == nodes.len(),
        0 <= x < nodes.len(),
        flags[x],
    ensures
        forall|y: int| #[trigger] row_nodes(walk(nodes, flags, x, anc, is_last, is_root, f)).contains(y) <==> (0 <= y
            < nodes.len() && flags[y] && vbelow(nodes, flags, y, x, f)),
    decreases f, 0int,
{
    let kids = forest_children(nodes, flags, x);
    let head = seq![(x, row_prefix(anc, is_last, is_root, kids.len() > 0))];
    assert(row_nodes(head) =~= seq![x]);
    if f == 0 {
        let w = walk(nodes, flags, x, anc, is_last, is_root, f);
        assert(w =~= head);
        assert forall|y: int| #[trigger] row_nodes(w).contains(y) <==> (0 <= y < nodes.len() && flags[y] && vbelow(
            nodes,
            flags,
            y,
            x,
            f,
        )) by {
            if row_nodes(w).contains(y) {
                assert(row_nodes(w)[0] == y);
                assert(vanc(nodes, flags, y, 0) == Some(x));
            }
            if vbelow(nodes, flags, y, x, f) {
                let d = choose|d: nat| d <= f && #[trigger] vanc(nodes, flags, y, d) == Some(x);
                assert(d == 0);
                assert(row_nodes(w)[0] == y);
            }
        }
    } else {
        let f1 = (f - 1) as nat;
        let sp = child_spine(anc, is_last, is_root);
        let wl = walk_list(nodes, flags, kids, 0, sp, f1);
        let w = walk(nodes, flags, x, anc, is_last, is_root, f);
        assert(w == head + wl);
        lemma_row_nodes_concat(head, wl);
        lemma_children(nodes, flags, x);
        lemma_walk_list_members(nodes, flags, x, kids, 0, sp, f1);
        assert forall|y: int| #[trigger] row_nodes(w).contains(y) <==> (0 <= y < nodes.len() && flags[y] && vbelow(
            nodes,
            flags,
            y,
            x,
            f,
        )) by {
            let rw = row_nodes(w);
            assert(rw == seq![x] + row_nodes(wl));
            lemma_cons(x, row_nodes(wl));
            if rw.contains(y) {
                if y == x {
                    assert(vanc(nodes, flags, y, 0) == Some(x));
                } else {
                    assert(row_nodes(wl).contains(y));
                    let j = choose|j: int|
                        0 <= j < kids.len() && #[trigger] kid_rows(nodes, flags, kids, j, sp, f1).contains(y);
                    assert(kids.contains(kids[j]));
                    lemma_walk_members(nodes, flags, kids[j], sp, j + 1 == kids.len(), false, f1);
                    let d = choose|d: nat| d <= f1 && #[trigger] vanc(nodes, flags, y, d) == Some(kids[j]);
                    lemma_vanc_add(nodes, flags, y, d, 1);
                    lemma_vanc_one(nodes, flags, kids[j]);
                    assert(vanc(nodes, flags, y, d + 1) == Some(x));
                }
            }
            if 0 <= y < nodes.len() && flags[y] && vbelow(nodes, flags, y, x, f) {
                let d = choose|d: nat| d <= f && #[trigger] vanc(nodes, flags, y, d) == Some(x);
                if d == 0 {
                    assert(y == x);
                } else {
                    lemma_vanc_add(nodes, flags, y, (d - 1) as nat, 1);
                    let c = vanc(nodes, flags, y, (d - 1) as nat).unwrap();
                    lemma_vanc_visible(nodes, flags, y, (d - 1) as nat);
                    lemma_vanc_one(nodes, flags, c);
                    assert(visible_parent(nodes, flags, c) == Some(x));
                    assert(kids.contains(c));
                    let j = choose|j: int| 0 <= j < kids.len() && kids[j] == c;
                    lemma_walk_members(nodes, flags, c, sp, j + 1 == kids.len(), false, f1);
                    assert(vbelow(nodes, flags, y, c, f1));
                    assert(kid_rows(nodes, flags, kids, j, sp, f1).contains(y));
                    assert(row_nodes(wl).contains(y));
                }
            }
        }
    }
}

proof fn lemma_walk_list_members(
    nodes: Seq<StackNode>,
    flags: Seq<bool>,
    x: int,
    kids: Seq<int>,
    i: int,
    anc: Seq<bool>,
    f: nat,
)
    requires
        parents_in_range(nodes),
        flags.len() == nodes.len(),
        0 <= i,
        forall|c: int| #[trigger] kids.contains(c) ==> 0 <= c < nodes.len() && flags[c],
    ensures
        forall|y: int| #[trigger] row_nodes(walk_list(nodes, flags, kids, i, anc, f)).contains(y) <==> exists|j: int|
            i <= j < kids.len() && #[trigger] kid_rows(nodes, flags, kids, j, anc, f).contains(y),
    decreases f, kids.len() - i,
{
    let wl = walk_list(nodes, flags, kids, i, anc, f);
    if i >= kids.len() {
        assert forall|y: int| #[trigger] row_nodes(wl).contains(y) <==> exists|j: int|
            i <= j < kids.len() && #[trigger] kid_rows(nodes, flags, kids, j, anc, f).contains(y) by {
            if row_nodes(wl).contains(y) {
                let k = choose|k: int| 0 <= k < row_nodes(wl).len() && row_nodes(wl)[k] == y;
            }
        }
    } else {
        let a = walk(nodes, flags, kids[i], anc, i + 1 == kids.len(), false, f);
        let b = walk_list(nodes, flags, kids, i + 1, anc, f);
        assert(wl == a + b);
        lemma_row_nodes_concat(a, b);
        lemma_walk_list_members(nodes, flags, x, kids, i + 1, anc, f);
        assert forall|y: int| #[trigger] row_nodes(wl).contains(y) <==> exists|j: int|
            i <= j < kids.len() && #[trigger] kid_rows(nodes, flags, kids, j, anc, f).contains(y) by {
            let ra = row_nodes(a);
            let rb = row_nodes(b);
            assert(kid_rows(nodes, flags, kids, i, anc, f) == ra);
            if (ra + rb).contains(y) {
                let k = choose|k: int| 0 <= k < (ra + rb).len() && (ra + rb)[k] == y;
                if k < ra.len() {
                    assert(ra[k] == y);
                    assert(ra.contains(y));
                } else {
                    assert(rb[k - ra.len()] == y);
                    assert(rb.contains(y));
                }
            }
            if exists|j: int|
                i <= j < kids.len() && #[trigger] kid_rows(nodes, flags, kids, j, anc, f).contains(y) {
                let j = choose|j: int|
                    i <= j < kids.len() && #[trigger] kid_rows(nodes, flags, kids, j, anc, f).contains(y);
                if j == i {
                    let k = choose|k: int| 0 <= k < ra.len() && ra[k] == y;
                    assert((ra + rb)[k] == y);
                } else {
                    assert(rb.contains(y));
                    let k = choose|k: int| 0 <= k < rb.len() && rb[k] == y;
                    assert((ra + rb)[k + ra.len()] == y);
                }
            }
        }
    }
}

/// Every visible node's chain of visible parents ends: no cycle.
pub open spec fn all_chains_end(nodes: Seq<StackNode>, flags: Seq<bool>) -> bool {
    forall|k: int| 0 <= k < nodes.len() && flags[k] ==> #[trigger] chain_ends(nodes, flags, k)
}

/// Two nodes with the same visible parent `x` and a node below both are the
/// same node, unless `x` lies on a cycle.
proof fn lemma_siblings_disjoint(
    nodes: Seq<StackNode>,
    flags: Seq<bool>,
    x: int,
    c1: int,
    c2: int,
    y: int,
    d1: nat,
    d2: nat,
)
    requires
        visible_parent(nodes, flags, c1) == Some(x),
        visible_parent(nodes, flags, c2) == Some(x),
        vanc(nodes, flags, y, d1) == Some(c1),
        vanc(nodes, flags, y, d2) == Some(c2),
        chain_ends(nodes, flags, x),
    ensures
        c1 == c2,
{
    if d1 < d2 {
        let k = (d2 - d1) as nat;
        lemma_vanc_add(nodes, flags, y, d1, k);
        assert(d1 + k == d2);
        assert(vanc(nodes, flags, c1, k) == Some(c2));
        lemma_vanc_add(nodes, flags, c1, k, 1);
        lemma_vanc_one(nodes, flags, c2);
        lemma_vanc_add(nodes, flags, c1, 1, k);
        lemma_vanc_one(nodes, flags, c1);
        assert(vanc(nodes, flags, x, k) == Some(x));
        lemma_no_cycle(nodes, flags, x, k);
    } else if d2 < d1 {
        let k = (d1 - d2) as nat;
        lemma_vanc_add(nodes, flags, y, d2, k);
        assert(d2 + k == d1);
        assert(vanc(nodes, flags, c2, k) == Some(c1));
        lemma_vanc_add(nodes, flags, c2, k, 1);
        lemma_vanc_one(nodes, flags, c1);
        lemma_vanc_add(nodes, flags, c2, 1, k);
        lemma_vanc_one(nodes, flags, c2);
        assert(vanc(nodes, flags, x, k) == Some(x));
        lemma_no_cycle(nodes, flags, x, k);
    }
}

proof fn lemma_walk_distinct(
    nodes: Seq<StackNode>,
    flags: Seq<bool>,
    x: int,
    anc: Seq<bool>,
    is_last: bool,
    is_root: bool,
    f: nat,
)
    requires
        parents_in_range(nodes),
        flags.len() == nodes.len(),
        0 <= x < nodes.len(),
        flags[x],
        all_chains_end(nodes, flags),
    ensures
        row_nodes(walk(nodes, flags, x, anc, is_last, is_root, f)).no_duplicates(),
    decreases f, 0int,
{
    let kids = forest_children(nodes, flags, x);
    let head = seq![(x, row_prefix(anc, is_last, is_root, kids.len() > 0))];
    assert(row_nodes(head) =~= seq![x]);
    assert(chain_ends(nodes, flags, x));
    if f == 0 {
        let w = walk(nodes, flags, x, anc, is_last, is_root, f);
        assert(w =~= head);
    } else {
        let f1 = (f - 1) as nat;
        let sp = child_spine(anc, is_last, is_root);
        let wl = walk_list(nodes, flags, kids, 0, sp, f1);
        assert(walk(nodes, flags, x, anc, is_last, is_root, f) == head + wl);
        lemma_row_nodes_concat(head, wl);
        lemma_children(nodes, flags, x);
        lemma_walk_list_members(nodes, flags, x, kids, 0, sp, f1);
        lemma_walk_list_distinct(nodes, flags, x, kids, 0, sp, f1);
        lemma_cons(x, row_nodes(wl));
        if row_nodes(wl).contains(x) {
            let j = choose|j: int| 0 <= j < kids.len() && #[trigger] kid_rows(nodes, flags, kids, j, sp, f1).contains(x);
            assert(kids.contains(kids[j]));
            lemma_walk_members(nodes, flags, kids[j], sp, j + 1 == kids.len(), false, f1);
            let d = choose|d: nat| d <= f1 && #[trigger] vanc(nodes, flags, x, d) == Some(kids[j]);
            lemma_vanc_add(nodes, flags, x, d, 1);
            lemma_vanc_one(nodes, flags, kids[j]);
            lemma_no_cycle(nodes, flags, x, d + 1);
        }
    }
}

proof fn lemma_walk_list_distinct(
    nodes: Seq<StackNode>,
    flags: Seq<bool>,
    x: int,
    kids: Seq<int>,
    i: int,
    anc: Seq<bool>,
    f: nat,
)
    requires
        parents_in_range(nodes),
        flags.len() == nodes.len(),
        0 <= i,
        all_chains_end(nodes, flags),
        chain_ends(nodes, flags, x),
        kids.no_duplicates(),
        forall|c: int| #[trigger] kids.contains(c) ==> 0 <= c < nodes.len() && flags[c] && visible_parent(nodes, flags, c) == Some(x),
    ensures
        row_nodes(walk_list(nodes, flags, kids, i, anc, f)).no_duplicates(),
    decreases f, kids.len() - i,
{
    let wl = walk_list(nodes, flags, kids, i, anc, f);
    if i >= kids.len() {
        assert(row_nodes(wl) =~= Seq::<int>::empty());
    } else {
        let a = walk(nodes, flags, kids[i], anc, i + 1 == kids.len(), false, f);
        let b = walk_list(nodes, flags, kids, i + 1, anc, f);
        assert(wl == a + b);
        lemma_row_nodes_concat(a, b);
        assert(kids.contains(kids[i]));
        lemma_walk_distinct(nodes, flags, kids[i], anc, i + 1 == kids.len(), false, f);
        lemma_walk_list_distinct(nodes, flags, x, kids, i + 1, anc, f);
        lemma_walk_members(nodes, flags, kids[i], anc, i + 1 == kids.len(), false, f);
        lemma_walk_list_members(nodes, flags, x, kids, i + 1, anc, f);
        let ra = row_nodes(a);
        let rb = row_nodes(b);
        assert forall|p: int, q: int| 0 <= p < ra.len() && 0 <= q < rb.len() implies ra[p] != rb[q] by {
            if ra[p] == rb[q] {
                let y = ra[p];
                assert(ra.contains(y));
                assert(rb.contains(y));
                let j = choose|j: int| i + 1 <= j < kids.len() && #[trigger] kid_rows(nodes, flags, kids, j, anc, f).contains(y);
                assert(kids.contains(kids[j]));
                lemma_walk_members(nodes, flags, kids[j], anc, j + 1 == kids.len(), false, f);
                let d1 = choose|d: nat| d <= f && #[trigger] vanc(nodes, flags, y, d) == Some(kids[i]);
                let d2 = choose|d: nat| d <= f && #[trigger] vanc(nodes, flags, y, d) == Some(kids[j]);
                assert(kids[i] != kids[j]);
                lemma_siblings_disjoint(nodes, flags, x, kids[i], kids[j], y, d1, d2);
            }
        }
        vstd::seq_lib::lemma_no_dup_in_concat(ra, rb);
    }
}

/// The nodes of the tree under the `j`-th root.
pub open spec fn root_rows(nodes: Seq<StackNode>, flags: Seq<bool>, roots: Seq<int>, j: int) -> Seq<int> {
    row_nodes(walk(nodes, flags, roots[j], Seq::empty(), true, true, nodes.len()))
}

proof fn lemma_forest_from_members(nodes: Seq<StackNode>, flags: Seq<bool>, roots: Seq<int>, i: int)
    requires
        0 <= i,
    ensures
        forall|y: int| #[trigger] row_nodes(forest_from(nodes, flags, roots, i)).contains(y) <==> exists|j: int|
            i <= j < roots.len() && #[trigger] root_rows(nodes, flags, roots, j).contains(y),
    decreases roots.len() - i,
{
    let ff = forest_from(nodes, flags, roots, i);
    if i >= roots.len() {
        assert forall|y: int| #[trigger] row_nodes(ff).contains(y) <==> exists|j: int|
            i <= j < roots.len() && #[trigger] root_rows(nodes, flags, roots, j).contains(y) by {
            if row_nodes(ff).contains(y) {
                let k = choose|k: int| 0 <= k < row_nodes(ff).len() && row_nodes(ff)[k] == y;
            }
        }
    } else {
        let a = walk(nodes, flags, roots[i], Seq::empty(), true, true, nodes.len());
        let b = forest_from(nodes, flags, roots, i + 1);
        assert(ff == a + b);
        lemma_row_nodes_concat(a, b);
        lemma_forest_from_members(nodes, flags, roots, i + 1);
        let ra = row_nodes(a);
        let rb = row_nodes(b);
        assert(root_rows(nodes, flags, roots, i) == ra);
        assert forall|y: int| #[trigger] row_nodes(ff).contains(y) <==> exists|j: int|
            i <= j < roots.len() && #[trigger] root_rows(nodes, flags, roots, j).contains(y) by {
            if (ra + rb).contains(y) {
                let k = choose|k: int| 0 <= k < (ra + rb).len() && (ra + rb)[k] == y;
                if k < ra.len() {
                    assert(ra[k] == y);
                    assert(ra.contains(y));
                } else {
                    assert(rb[k - ra.len()] == y);
                    assert(rb.contains(y));
                }
            }
            if exists|j: int| i <= j < roots.len() && #[trigger] root_rows(nodes, flags, roots, j).contains(y) {
                let j = choose|j: int| i <= j < roots.len() && #[trigger] root_rows(nodes, flags, roots, j).contains(y);
                if j == i {
                    let k = choose|k: int| 0 <= k < ra.len() && ra[k] == y;
                    assert((ra + rb)[k] == y);
                } else {
                    assert(rb.contains(y));
                    let k = choose|k: int| 0 <= k < rb.len() && rb[k] == y;
                    assert((ra + rb)[k + ra.len()] == y);
                }
            }
        }
    }
}

/// Two roots with a node below both are the same root.
proof fn lemma_roots_disjoint(nodes: Seq<StackNode>, flags: Seq<bool>, r1: int, r2: int, y: int, d1: nat, d2: nat)
    requires
        visible_parent(nodes, flags, r1) is None,
        visible_parent(nodes, flags, r2) is None,
        vanc(nodes, flags, y, d1) == Some(r1),
        vanc(nodes, flags, y, d2) == Some(r2),
    ensures
        r1 == r2,
{
    if d1 < d2 {
        lemma_vanc_add(nodes, flags, y, d1, (d2 - d1) as nat);
        assert(d1 + (d2 - d1) as nat == d2);
        assert(vanc(nodes, flags, r1, (d2 - d1) as nat) is None);
    } else if d2 < d1 {
        lemma_vanc_add(nodes, flags, y, d2, (d1 - d2) as nat);
        assert(d2 + (d1 - d2) as nat == d1);
        assert(vanc(nodes, flags, r2, (d1 - d2) as nat) is None);
    }
}

proof fn lemma_forest_from_distinct(nodes: Seq<StackNode>, flags: Seq<bool>, roots: Seq<int>, i: int)
    requires
        parents_in_range(nodes),
        flags.len() == nodes.len(),
        0 <= i,
        all_chains_end(nodes, flags),
        roots.no_duplicates(),
        forall|r: int| #[trigger] roots.contains(r) ==> 0 <= r < nodes.len() && flags[r] && visible_parent(nodes, flags, r) is None,
    ensures
        row_nodes(forest_from(nodes, flags, roots, i)).no_duplicates(),
    decreases roots.len() - i,
{
    let ff = forest_from(nodes, flags, roots, i);
    if i >= roots.len() {
        assert(row_nodes(ff) =~= Seq::<int>::empty());
    } else {
        let a = walk(nodes, flags, roots[i], Seq::empty(), true, true, nodes.len());
        let b = forest_from(nodes, flags, roots, i + 1);
        assert(ff == a + b);
        lemma_row_nodes_concat(a, b);
        assert(roots.contains(roots[i]));
        lemma_walk_distinct(nodes, flags, roots[i], Seq::empty(), true, true, nodes.len());
        lemma_forest_from_distinct(nodes, flags, roots, i + 1);
        lemma_walk_members(nodes, flags, roots[i], Seq::empty(), true, true, nodes.len());
        lemma_forest_from_members(nodes, flags, roots, i + 1);
        let ra = row_nodes(a);
        let rb = row_nodes(b);
        assert forall|p: int, q: int| 0 <= p < ra.len() && 0 <= q < rb.len() implies ra[p] != rb[q] by {
            if ra[p] == rb[q] {
                let y = ra[p];
                assert(ra.contains(y));
                assert(rb.contains(y));
                let j = choose|j: int| i + 1 <= j < roots.len() && #[trigger] root_rows(nodes, flags, roots, j).contains(y);
                assert(roots.contains(roots[j]));
                lemma_walk_members(nodes, flags, roots[j], Seq::empty(), true, true, nodes.len());
                let d1 = choose|d: nat| d <= nodes.len() && #[trigger] vanc(nodes, flags, y, d) == Some(roots[i]);
                let d2 = choose|d: nat| d <= nodes.len() && #[trigger] vanc(nodes, flags, y, d) == Some(roots[j]);
                lemma_roots_disjoint(nodes, flags, roots[i], roots[j], y, d1, d2);
            }
        }
        vstd::seq_lib::lemma_no_dup_in_concat(ra, rb);
    }
}

/// Climbing `e` visible-parent links from `y` reaches a root.
pub open spec fn tops_at(nodes: Seq<StackNode>, flags: Seq<bool>, y: int, e: nat) -> bool {
    vanc(nodes, flags, y, e) matches Some(r) && visible_parent(nodes, flags, r) is None
}

/// Climbing from visible `y` past `d` links ends at a root within `n` links.
proof fn lemma_find_root(nodes: Seq<StackNode>, flags: Seq<bool>, y: int, d: nat)
    requires
        parents_in_range(nodes),
        flags.len() == nodes.len(),
        0 <= y < nodes.len(),
        flags[y],
        chain_ends(nodes, flags, y),
        d <= nodes.len(),
        vanc(nodes, flags, y, d) is Some,
    ensures
        exists|e: nat| e < nodes.len() && #[trigger] tops_at(nodes, flags, y, e),
    decreases nodes.len() - d,
{
    if d == nodes.len() {
        assert(false);
    } else {
        let r = vanc(nodes, flags, y, d).unwrap();
        lemma_vanc_add(nodes, flags, y, d, 1);
        lemma_vanc_one(nodes, flags, r);
        if visible_parent(nodes, flags, r) is None {
            assert(tops_at(nodes, flags, y, d));
        } else {
            lemma_find_root(nodes, flags, y, d + 1);
        }
    }
}

/// The rendered stack forest shows every visible PR exactly once and no
/// hidden one: a hidden PR's visible descendants are re-parented onto its
/// nearest visible ancestor rather than dropped. This holds whenever the
/// visible PRs' chains of visible parents end (no PR stacks on itself).
pub proof fn lemma_forest_shows_each_visible_pr_once(nodes: Seq<StackNode>, flags: Seq<bool>)
    requires
        parents_in_range(nodes),
        flags.len() == nodes.len(),
        all_chains_end(nodes, flags),
    ensures
        row_nodes(forest(nodes, flags)).no_duplicates(),
        forall|y: int| #[trigger] row_nodes(forest(nodes, flags)).contains(y) <==> (0 <= y < nodes.len() && flags[y]),
{
    let roots = forest_roots(nodes, flags);
    lemma_roots_members(nodes, flags);
    lemma_forest_from_distinct(nodes, flags, roots, 0);
    lemma_forest_from_members(nodes, flags, roots, 0);
    assert forall|y: int| #[trigger] row_nodes(forest(nodes, flags)).contains(y) <==> (0 <= y < nodes.len() && flags[y]) by {
        if row_nodes(forest(nodes, flags)).contains(y) {
            let j = choose|j: int| 0 <= j < roots.len() && #[trigger] root_rows(nodes, flags, roots, j).contains(y);
            assert(roots.contains(roots[j]));
            lemma_walk_members(nodes, flags, roots[j], Seq::empty(), true, true, nodes.len());
        }
        if 0 <= y < nodes.len() && flags[y] {
            assert(chain_ends(nodes, flags, y));
            assert(vanc(nodes, flags, y, 0) == Some(y));
            lemma_find_root(nodes, flags, y, 0);
            let e = choose|e: nat| e < nodes.len() && #[trigger] tops_at(nodes, flags, y, e);
            let r = vanc(nodes, flags, y, e).unwrap();
            lemma_vanc_visible(nodes, flags, y, e);
            assert(roots.contains(r));
            let j = choose|j: int| 0 <= j < roots.len() && roots[j] == r;
            lemma_walk_members(nodes, flags, r, Seq::empty(), true, true, nodes.len());
            assert(vbelow(nodes, flags, y, r, nodes.len()));
            assert(root_rows(nodes, flags, roots, j).contains(y));
        }
    }
}

/// The spine columns grow by one column per level.
proof fn lemma_spine_push(anc: Seq<bool>, b: bool)
    ensures
        spine(anc.push(b)) == spine(anc) + if b { "│ "@ } else { "  "@ },
{
    assert(anc.push(b).drop_last() =~= anc);
}

/// `p` begins with `q`.
pub open spec fn starts_with_seq(p: Seq<char>, q: Seq<char>) -> bool {
    q.len() <= p.len() && p.subrange(0, q.len() as int) == q
}

proof fn lemma_starts_with_trans(p: Seq<char>, q: Seq<char>, r: Seq<char>)
    requires
        starts_with_seq(p, q + r),
    ensures
        starts_with_seq(p, q),
{
    assert(p.subrange(0, q.len() as int) =~= (q + r).subrange(0, q.len() as int));
    assert((q + r).subrange(0, q.len() as int) =~= q);
}

proof fn lemma_walk_rows_start_with_spine(
    nodes: Seq<StackNode>,
    flags: Seq<bool>,
    x: int,
    anc: Seq<bool>,
    is_last: bool,
    f: nat,
)
    ensures
        forall|k: int| 0 <= k < walk(nodes, flags, x, anc, is_last, false, f).len() ==> starts_with_seq(
            (#[trigger] walk(nodes, flags, x, anc, is_last, false, f)[k]).1,
            spine(anc),
        ),
    decreases f, 0int,
{
    let kids = forest_children(nodes, flags, x);
    let w = walk(nodes, flags, x, anc, is_last, false, f);
    let first = row_prefix(anc, is_last, false, kids.len() > 0);
    let tail = seq![if is_last { '└' } else { '├' }] + (if kids.len() > 0 { "─┬"@ } else { Seq::empty() }) + seq![' '];
    assert(first =~= spine(anc) + tail);
    assert(first.subrange(0, spine(anc).len() as int) =~= spine(anc));
    if f == 0 {
        assert forall|k: int| 0 <= k < w.len() implies starts_with_seq((#[trigger] w[k]).1, spine(anc)) by {
            assert(w[k] == w[0]);
        }
    } else {
        let sp = child_spine(anc, is_last, false);
        let wl = walk_list(nodes, flags, kids, 0, sp, (f - 1) as nat);
        lemma_walk_list_rows_start_with_spine(nodes, flags, kids, 0, sp, (f - 1) as nat);
        lemma_spine_push(anc, !is_last);
        assert forall|k: int| 0 <= k < w.len() implies starts_with_seq((#[trigger] w[k]).1, spine(anc)) by {
            if k > 0 {
                assert(w[k] == wl[k - 1]);
                lemma_starts_with_trans(wl[k - 1].1, spine(anc), if !is_last { "│ "@ } else { "  "@ });
            }
        }
    }
}

proof fn lemma_walk_list_rows_start_with_spine(
    nodes: Seq<StackNode>,
    flags: Seq<bool>,
    kids: Seq<int>,
    i: int,
    anc: Seq<bool>,
    f: nat,
)
    ensures
        forall|k: int| 0 <= k < walk_list(nodes, flags, kids, i, anc, f).len() ==> starts_with_seq(
            (#[trigger] walk_list(nodes, flags, kids, i, anc, f)[k]).1,
            spine(anc),
        ),
    decreases f, kids.len() - i,
{
    if 0 <= i < kids.len() {
        let a = walk(nodes, flags, kids[i], anc, i + 1 == kids.len(), false, f);
        let b = walk_list(nodes, flags, kids, i + 1, anc, f);
        lemma_walk_rows_start_with_spine(nodes, flags, kids[i], anc, i + 1 == kids.len(), f);
        lemma_walk_list_rows_start_with_spine(nodes, flags, kids, i + 1, anc, f);
        let wl = walk_list(nodes, flags, kids, i, anc, f);
        assert(wl == a + b);
        assert forall|k: int| 0 <= k < wl.len() implies starts_with_seq((#[trigger] wl[k]).1, spine(anc)) by {
            if k < a.len() {
                assert(wl[k] == a[k]);
            } else {
                assert(wl[k] == b[k - a.len()]);
            }
        }
    }
}

/// The connector columns of a stack tree: below a non-root row, every row
/// of its subtree starts with the row's own ancestor columns followed by a
/// `│ ` column when the row has a later sibling (it is not the last child)
/// and a blank column when it is the last one. So a child of a non-last
/// child starts with `│ `, and the line down to the later sibling is drawn.
pub proof fn lemma_subtree_column_marks_later_sibling(
    nodes: Seq<StackNode>,
    flags: Seq<bool>,
    x: int,
    anc: Seq<bool>,
    is_last: bool,
    f: nat,
)
    ensures
        ({
            let w = walk(nodes, flags, x, anc, is_last, false, f);
            forall|k: int| 1 <= k < w.len() ==> starts_with_seq(
                (#[trigger] w[k]).1,
                spine(anc) + if is_last { "  "@ } else { "│ "@ },
            )
        }),
{
    let kids = forest_children(nodes, flags, x);
    let w = walk(nodes, flags, x, anc, is_last, false, f);
    if f > 0 {
        let sp = child_spine(anc, is_last, false);
        let wl = walk_list(nodes, flags, kids, 0, sp, (f - 1) as nat);
        lemma_walk_list_rows_start_with_spine(nodes, flags, kids, 0, sp, (f - 1) as nat);
        lemma_spine_push(anc, !is_last);
        assert forall|k: int| 1 <= k < w.len() implies starts_with_seq(
            (#[trigger] w[k]).1,
            spine(anc) + if is_last { "  "@ } else { "│ "@ },
        ) by {
            assert(w[k] == wl[k - 1]);
        }
    } else {
        assert(w.len() == 1);
    }
}

/// In a list of siblings, the subtree of the `j`-th one draws the `│ `
/// column exactly when a later sibling follows it.
pub proof fn lemma_sibling_subtree_column(
    nodes: Seq<StackNode>,
    flags: Seq<bool>,
    kids: Seq<int>,
    j: int,
    anc: Seq<bool>,
    f: nat,
)
    requires
        0 <= j < kids.len(),
    ensures
        ({
            let w = walk(nodes, flags, kids[j], anc, j + 1 == kids.len(), false, f);
            forall|k: int| 1 <= k < w.len() ==> starts_with_seq(
                (#[trigger] w[k]).1,
                spine(anc) + if j + 1 < kids.len() { "│ "@ } else { "  "@ },
            )
        }),
{
    lemma_subtree_column_marks_later_sibling(nodes, flags, kids[j], anc, j + 1 == kids.len(), f);
}

} // verus!
