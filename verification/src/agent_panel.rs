//! The order of the agent panel when sorted by priority: the agents needing
//! the user most come first, the most recently changed first among equals,
//! and otherwise the order of the spaces is kept; and the most urgent state
//! among several agents.
use vstd::prelude::*;
use crate::sidebar::{attention, workspace_attention_priority, AgentState};
use crate::text::str_eq;
use crate::workspace::Workspace;

verus! {

/// An agent as the priority sort sees it: its state, whether the user has
/// seen it since it changed, and the sequence number of its last change.
pub type AgentStatus = (AgentState, bool, Option<u64>);

/// The key an agent is sorted by: its attention priority and its last
/// change.
pub open spec fn rank_of(a: AgentStatus) -> (u8, Option<u64>) {
    (attention(a.0, a.1), a.2)
}

/// Change `x` is more recent than change `y`; an agent that never changed
/// comes after every one that did.
pub open spec fn newer(x: Option<u64>, y: Option<u64>) -> bool {
    match (x, y) {
        (Some(p), Some(q)) => p > q,
        (Some(_), None) => true,
        _ => false,
    }
}

/// Key `a` sorts strictly before key `b`: higher priority, or equal priority
/// and a more recent change.
pub open spec fn outranks(a: (u8, Option<u64>), b: (u8, Option<u64>)) -> bool {
    a.0 > b.0 || (a.0 == b.0 && newer(a.1, b.1))
}

/// Whether `a` outranks `b`.
fn outranks_exec(a: (u8, Option<u64>), b: (u8, Option<u64>)) -> (r: bool)
    ensures
        r == outranks(a, b),
{
    if a.0 != b.0 {
        return a.0 > b.0;
    }
    match (a.1, b.1) {
        (Some(p), Some(q)) => p > q,
        (Some(_), None) => true,
        _ => false,
    }
}

/// Keys neither of which outranks the other are equal, and outranking is
/// transitive through a key that is not above the third.
pub proof fn lemma_outranks_order(a: (u8, Option<u64>), b: (u8, Option<u64>), c: (u8, Option<u64>))
    ensures
        !outranks(a, b) && !outranks(b, a) ==> a == b,
        outranks(a, b) ==> !outranks(b, a),
        outranks(a, b) && !outranks(c, b) ==> outranks(a, c),
{
}

/// `order` lists the agents in priority order: a permutation of their
/// positions in which no agent comes after one it outranks, and agents of
/// equal rank keep the order of the spaces.
pub open spec fn priority_sorted(agents: Seq<AgentStatus>, order: Seq<usize>) -> bool {
    &&& order.len() == agents.len()
    &&& order.no_duplicates()
    &&& forall|q: int| 0 <= q < order.len() ==> #[trigger] order[q] < agents.len()
    &&& forall|x: int, y: int|
        0 <= x < y < order.len() ==> !outranks(rank_of(agents[order[y] as int]), rank_of(agents[#[trigger] order[x] as int]))
            && (rank_of(agents[order[x] as int]) == rank_of(agents[#[trigger] order[y] as int]) ==> order[x] < order[y])
}

/// The order in which the agent panel lists `agents` when sorted by
/// priority: blocked agents first, then finished ones not yet seen, then
/// working, then idle, then unknown; among equals the most recently changed
/// first; otherwise in the order of the spaces. Every agent is listed once.
pub fn agent_priority_order(agents: &Vec<AgentStatus>) -> (order: Vec<usize>)
    ensures
        priority_sorted(agents@, order@),
        forall|k: usize| k < agents@.len() ==> #[trigger] order@.contains(k),
{
    let mut order: Vec<usize> = Vec::new();
    let mut i: usize = 0;
    while i < agents.len()
        invariant
            i <= agents@.len(),
            order@.len() == i,
            order@.no_duplicates(),
            forall|q: int| 0 <= q < order@.len() ==> #[trigger] order@[q] < i,
            forall|k: usize| k < i ==> #[trigger] order@.contains(k),
            forall|x: int, y: int|
                0 <= x < y < order@.len() ==> !outranks(rank_of(agents@[order@[y] as int]), rank_of(agents@[#[trigger] order@[x] as int]))
                    && (rank_of(agents@[order@[x] as int]) == rank_of(agents@[#[trigger] order@[y] as int]) ==> order@[x] < order@[y]),
        decreases agents.len() - i,
    {
        let (state, seen, last) = agents[i];
        let key = (workspace_attention_priority(state, seen), last);
        assert(key == rank_of(agents@[i as int]));
        let mut p: usize = 0;
        while p < order.len()
            invariant
                p <= order@.len(),
                forall|q: int| 0 <= q < p ==> !outranks(key, rank_of(agents@[#[trigger] order@[q] as int])),
                forall|q: int| 0 <= q < order@.len() ==> #[trigger] order@[q] < i,
                i < agents@.len(),
            ensures
                p <= order@.len(),
                forall|q: int| 0 <= q < p ==> !outranks(key, rank_of(agents@[#[trigger] order@[q] as int])),
                p < order@.len() ==> outranks(key, rank_of(agents@[order@[p as int] as int])),
            decreases order.len() - p,
        {
            let (s2, seen2, last2) = agents[order[p]];
            let other = (workspace_attention_priority(s2, seen2), last2);
            if outranks_exec(key, other) {
                break;
            }
            p = p + 1;
        }
        let ghost before = order@;
        proof {
            // Everything from `p` on ranks strictly below the new agent.
            assert forall|q: int| p <= q < before.len() implies outranks(key, rank_of(agents@[#[trigger] before[q] as int])) by {
                let kp = rank_of(agents@[before[p as int] as int]);
                let kq = rank_of(agents@[before[q] as int]);
                if q > p {
                    assert(!outranks(kq, kp));
                }
                lemma_outranks_order(key, kp, kq);
            }
        }
        order.insert(p, i);
        proof {
            before.insert_ensures(p as int, i);
            let after = order@;
            assert forall|x: int, y: int|
                0 <= x < y < after.len() implies !outranks(rank_of(agents@[after[y] as int]), rank_of(agents@[#[trigger] after[x] as int]))
                    && (rank_of(agents@[after[x] as int]) == rank_of(agents@[#[trigger] after[y] as int]) ==> after[x] < after[y]) by {
                let kx = rank_of(agents@[after[x] as int]);
                let ky = rank_of(agents@[after[y] as int]);
                if y < p {
                    assert(after[x] == before[x] && after[y] == before[y]);
                } else if y == p {
                    assert(after[x] == before[x]);
                    assert(!outranks(key, kx));
                } else if x < p {
                    assert(after[x] == before[x] && after[y] == before[y - 1]);
                } else if x == p {
                    assert(after[y] == before[y - 1]);
                    assert(outranks(key, ky));
                    lemma_outranks_order(key, ky, key);
                } else {
                    assert(after[x] == before[x - 1] && after[y] == before[y - 1]);
                }
            }
            assert forall|a: int, b: int| 0 <= a < after.len() && 0 <= b < after.len() && a != b implies after[a] != after[b] by {
                if a != p as int && b != p as int {
                    let a0 = if a < p { a } else { a - 1 };
                    let b0 = if b < p { b } else { b - 1 };
                    assert(after[a] == before[a0] && after[b] == before[b0]);
                } else if a == p as int {
                    let b0 = if b < p { b } else { b - 1 };
                    assert(after[b] == before[b0]);
                } else {
                    let a0 = if a < p { a } else { a - 1 };
                    assert(after[a] == before[a0]);
                }
            }
            assert forall|q: int| 0 <= q < after.len() implies #[trigger] after[q] < i + 1 by {
                if q < p {
                    assert(after[q] == before[q]);
                } else if q > p {
                    assert(after[q] == before[q - 1]);
                }
            }
            assert forall|k: usize| k < i + 1 implies #[trigger] after.contains(k) by {
                if k < i {
                    assert(before.contains(k));
                    let w = choose|w: int| 0 <= w < before.len() && before[w] == k;
                    if w < p {
                        assert(after[w] == before[w]);
                    } else {
                        assert(after[w + 1] == before[w]);
                    }
                } else {
                    assert(after[p as int] == i);
                }
            }
        }
        i = i + 1;
    }
    order
}

/// The most urgent of the first `n` states kept by `keep`: the last of
/// those with the highest attention priority.
pub open spec fn most_urgent_upto(states: Seq<(AgentState, bool)>, keep: Seq<bool>, n: int) -> Option<(AgentState, bool)>
    decreases n,
{
    if n <= 0 {
        None
    } else {
        let prev = most_urgent_upto(states, keep, n - 1);
        let s = states[n - 1];
        if !keep[n - 1] {
            prev
        } else {
            match prev {
                None => Some(s),
                Some(b) => if attention(s.0, s.1) >= attention(b.0, b.1) { Some(s) } else { prev },
            }
        }
    }
}

/// The most urgent of `states` (state and whether seen): the last of those
/// with the highest attention priority; `None` without states.
pub fn most_urgent(states: &Vec<(AgentState, bool)>) -> (r: Option<(AgentState, bool)>)
    ensures
        r == most_urgent_upto(states@, Seq::new(states@.len(), |i: int| true), states@.len() as int),
{
    let ghost keep = Seq::new(states@.len(), |i: int| true);
    let mut best: Option<(AgentState, bool)> = None;
    let mut k: usize = 0;
    while k < states.len()
        invariant
            k <= states@.len(),
            keep == Seq::new(states@.len(), |i: int| true),
            best == most_urgent_upto(states@, keep, k as int),
        decreases states.len() - k,
    {
        let (st, seen) = states[k];
        best = match best {
            None => Some((st, seen)),
            Some((bs, bseen)) => if workspace_attention_priority(st, seen) >= workspace_attention_priority(bs, bseen) {
                Some((st, seen))
            } else {
                best
            },
        };
        k = k + 1;
    }
    best
}

/// Workspace `ws` is a worktree member of the repository group `key`.
pub open spec fn in_space(ws: Workspace, key: Seq<char>) -> bool {
    ws.worktree_space matches Some(m) && m.key@ == key
}

/// The state shown for the repository group `key`: the most urgent of the
/// aggregate states of its member workspaces (`aggregates[i]` being that of
/// `workspaces[i]`), or an unknown, seen state when it has no members.
pub fn space_aggregate_state(workspaces: &Vec<Workspace>, aggregates: &Vec<(AgentState, bool)>, key: &str) -> (r: (AgentState, bool))
    requires
        aggregates@.len() == workspaces@.len(),
    ensures
        r == match most_urgent_upto(
            aggregates@,
            Seq::new(workspaces@.len(), |i: int| in_space(workspaces@[i], key@)),
            workspaces@.len() as int,
        ) {
            Some(s) => s,
            None => (AgentState::Unknown, true),
        },
{
    let ghost keep = Seq::new(workspaces@.len(), |i: int| in_space(workspaces@[i], key@));
    let mut best: Option<(AgentState, bool)> = None;
    let mut k: usize = 0;
    while k < workspaces.len()
        invariant
            k <= workspaces@.len(),
            aggregates@.len() == workspaces@.len(),
            keep == Seq::new(workspaces@.len(), |i: int| in_space(workspaces@[i], key@)),
            best == most_urgent_upto(aggregates@, keep, k as int),
        decreases workspaces.len() - k,
    {
        let member = match &workspaces[k].worktree_space {
            Some(m) => str_eq(m.key.as_str(), key),
            None => false,
        };
        if member {
            let (st, seen) = aggregates[k];
            best = match best {
                None => Some((st, seen)),
                Some((bs, bseen)) => if workspace_attention_priority(st, seen) >= workspace_attention_priority(bs, bseen) {
                    Some((st, seen))
                } else {
                    best
                },
            };
        }
        k = k + 1;
    }
    match best {
        Some(s) => s,
        None => (AgentState::Unknown, true),
    }
}

} // verus!
