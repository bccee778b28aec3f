//! The branch chooser: filter local branches by a typed query, and turn the
//! query and highlighted row into the branch to check out or create.
use vstd::prelude::*;
use crate::text::{ascii_lower, chars_of, contains_chars, has_substring, lower_chars, str_eq, trim_ws};

verus! {

/// What the branch chooser shows and has been typed into it.
#[derive(Debug, Clone)]
pub struct BranchChooserState {
    /// Local branch names, in display order.
    pub branches: Vec<String>,
    /// The branch a new branch is created off.
    pub default_base: String,
    /// The typed filter, which doubles as the name of a new branch.
    pub query: String,
    /// Highlighted row among the filtered branches.
    pub selected: usize,
    /// First filtered row shown.
    pub scroll: usize,
}

/// The action a branch-chooser selection resolves to.
#[derive(Debug, Clone, PartialEq, Eq)]
pub enum BranchChoice {
    /// Check out an existing local branch in the new worktree.
    Existing(String),
    /// Create a new branch `name` off `base` in the new worktree.
    New { name: String, base: String },
}

/// `branch` matches the (trimmed, lowercased) query `q`: an empty query
/// matches everything, otherwise a case-insensitive substring match.
pub open spec fn branch_matches(branch: Seq<char>, q: Seq<char>) -> bool {
    q.len() == 0 || has_substring(ascii_lower(branch), q)
}

/// The positions among `branches[..upto]` matching `q`, in order.
pub open spec fn matching(branches: Seq<String>, q: Seq<char>, upto: int) -> Seq<usize>
    decreases upto,
{
    if upto <= 0 {
        Seq::empty()
    } else if branch_matches(branches[upto - 1]@, q) {
        matching(branches, q, upto - 1).push((upto - 1) as usize)
    } else {
        matching(branches, q, upto - 1)
    }
}

/// The query as the filter uses it: trimmed and ASCII-lowercased.
pub open spec fn filter_query(query: Seq<char>) -> Seq<char> {
    ascii_lower(trim_ws(query))
}

/// Positions into `state.branches` matching the current query
/// (case-insensitive substring). An empty query matches every branch.
pub fn filtered_branch_indices(state: &BranchChooserState) -> (idx: Vec<usize>)
    ensures
        idx@ == matching(state.branches@, filter_query(state.query@), state.branches@.len() as int),
{
    let q = lower_chars(&chars_of(state.query.as_str().trim()));
    let mut idx: Vec<usize> = Vec::new();
    let mut i: usize = 0;
    while i < state.branches.len()
        invariant
            q@ == filter_query(state.query@),
            i <= state.branches@.len(),
            idx@ == matching(state.branches@, q@, i as int),
        decreases state.branches.len() - i,
    {
        let keep = q.len() == 0 || contains_chars(&lower_chars(&chars_of(state.branches[i].as_str())), &q);
        if keep {
            idx.push(i);
        }
        i = i + 1;
    }
    idx
}

/// Some branch is named exactly `name`.
pub open spec fn has_branch(branches: Seq<String>, name: Seq<char>) -> bool {
    exists|k: int| 0 <= k < branches.len() && (#[trigger] branches[k])@ == name
}

/// Resolve the branch-chooser state into a [`BranchChoice`]:
/// - empty query: check out the highlighted existing branch;
/// - query exactly matches an existing branch: check it out;
/// - otherwise: create a new branch named by the query, off `default_base`.
pub fn resolve_branch_choice(state: &BranchChooserState) -> (c: Option<BranchChoice>)
    ensures
        ({
            let q = trim_ws(state.query@);
            let rows = matching(state.branches@, filter_query(state.query@), state.branches@.len() as int);
            if q.len() == 0 {
                if state.selected < rows.len() {
                    c matches Some(BranchChoice::Existing(b)) && b == state.branches@[rows[state.selected as int] as int]
                } else {
                    c is None
                }
            } else if has_branch(state.branches@, q) {
                c matches Some(BranchChoice::Existing(b)) && b@ == q
            } else {
                c matches Some(BranchChoice::New { name, base }) && name@ == q && base == state.default_base
            }
        }),
{
    let query = state.query.as_str().trim();
    if query.unicode_len() == 0 {
        let rows = filtered_branch_indices(state);
        if state.selected >= rows.len() {
            return None;
        }
        let idx = rows[state.selected];
        proof {
            lemma_matching_in_range(state.branches@, filter_query(state.query@), state.branches@.len() as int);
        }
        return Some(BranchChoice::Existing(state.branches[idx].clone()));
    }
    let mut k: usize = 0;
    while k < state.branches.len()
        invariant
            k <= state.branches@.len(),
            query@ == trim_ws(state.query@),
            query@.len() > 0,
            forall|j: int| 0 <= j < k ==> (#[trigger] state.branches@[j])@ != query@,
        decreases state.branches.len() - k,
    {
        if str_eq(state.branches[k].as_str(), query) {
            proof {
                assert(has_branch(state.branches@, query@));
            }
            return Some(BranchChoice::Existing(query.to_owned()));
        }
        k = k + 1;
    }
    Some(BranchChoice::New { name: query.to_owned(), base: state.default_base.clone() })
}

proof fn lemma_matching_in_range(branches: Seq<String>, q: Seq<char>, upto: int)
    requires
        0 <= upto <= branches.len(),
    ensures
        forall|k: int| 0 <= k < matching(branches, q, upto).len() ==> #[trigger] matching(branches, q, upto)[k] < upto,
    decreases upto,
{
    if upto > 0 {
        lemma_matching_in_range(branches, q, upto - 1);
        let prev = matching(branches, q, upto - 1);
        if branch_matches(branches[upto - 1]@, q) {
            assert forall|k: int| 0 <= k < prev.len() + 1 implies #[trigger] prev.push((upto - 1) as usize)[k] < upto by {
                if k < prev.len() {
                    assert(prev.push((upto - 1) as usize)[k] == prev[k]);
                }
            }
        }
    }
}

} // verus!
