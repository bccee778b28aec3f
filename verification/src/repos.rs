//! The repository registry: the git repositories found under the scan root,
//! one per repository even when several of its worktrees were found.
use vstd::prelude::*;
use crate::text::str_eq;
use crate::workspace::GitSpaceMetadata;

verus! {

/// A git repository surfaced in the repo chooser.
#[derive(Debug, Clone, PartialEq, Eq)]
pub struct Repository {
    /// Stable identity: canonical git common dir, shared across linked worktrees.
    pub key: String,
    /// Filesystem root of the primary (non-linked) checkout.
    pub root: String,
    /// Human label (the repository directory name).
    pub label: String,
}

/// The probe at position `winner(probes, key, upto)` stands for repository
/// `key` among `probes[..upto]`: the last one found, except that a primary
/// checkout is never replaced by a linked worktree found after it.
pub open spec fn winner(probes: Seq<GitSpaceMetadata>, key: Seq<char>, upto: int) -> Option<int>
    decreases upto,
{
    if upto <= 0 {
        None
    } else {
        let w = winner(probes, key, upto - 1);
        let p = probes[upto - 1];
        if p.key@ != key {
            w
        } else {
            match w {
                Some(j) => if !probes[j].is_linked_worktree && p.is_linked_worktree {
                    Some(j)
                } else {
                    Some(upto - 1)
                },
                None => Some(upto - 1),
            }
        }
    }
}

/// The repository keys of `probes[..upto]`, each once, in order of first appearance.
pub open spec fn keys_in_order(probes: Seq<GitSpaceMetadata>, upto: int) -> Seq<Seq<char>>
    decreases upto,
{
    if upto <= 0 {
        Seq::empty()
    } else {
        let ks = keys_in_order(probes, upto - 1);
        if ks.contains(probes[upto - 1].key@) {
            ks
        } else {
            ks.push(probes[upto - 1].key@)
        }
    }
}

/// `r` is the repository entry for probe `p`.
pub open spec fn repo_of(r: Repository, p: GitSpaceMetadata) -> bool {
    r.key == p.key && r.root == p.repo_root && r.label == p.label
}

/// `r` is the entry of repository `key` among `probes[..upto]`.
pub open spec fn entry_ok(probes: Seq<GitSpaceMetadata>, key: Seq<char>, upto: int, r: Repository) -> bool {
    match winner(probes, key, upto) {
        Some(w) => 0 <= w < upto && repo_of(r, probes[w]),
        None => false,
    }
}

/// Whether the entry of repository `key` comes from a primary checkout.
pub open spec fn primary_ok(probes: Seq<GitSpaceMetadata>, key: Seq<char>, upto: int, b: bool) -> bool {
    match winner(probes, key, upto) {
        Some(w) => b == !probes[w].is_linked_worktree,
        None => false,
    }
}

/// The repositories among `probes`, in order of first appearance of their
/// key, each from the probe that stands for it.
pub open spec fn deduped(out: Seq<Repository>, probes: Seq<GitSpaceMetadata>, upto: int) -> bool {
    let ks = keys_in_order(probes, upto);
    &&& out.len() == ks.len()
    &&& forall|k: int| 0 <= k < out.len() ==> entry_ok(probes, ks[k], upto, #[trigger] out[k])
}

proof fn lemma_winner_in_range(probes: Seq<GitSpaceMetadata>, key: Seq<char>, upto: int)
    ensures
        winner(probes, key, upto) matches Some(w) ==> 0 <= w < upto && probes[w].key@ == key,
        winner(probes, key, upto) is None ==> forall|i: int| 0 <= i < upto ==> probes[i].key@ != key,
    decreases upto,
{
    if upto > 0 {
        lemma_winner_in_range(probes, key, upto - 1);
    }
}

proof fn lemma_keys_in_order(probes: Seq<GitSpaceMetadata>, upto: int)
    requires
        0 <= upto <= probes.len(),
    ensures
        forall|x: Seq<char>| #[trigger] keys_in_order(probes, upto).contains(x) <==> exists|i: int| 0 <= i < upto && probes[i].key@ == x,
    decreases upto,
{
    if upto > 0 {
        lemma_keys_in_order(probes, upto - 1);
        let ks = keys_in_order(probes, upto - 1);
        let x0 = probes[upto - 1].key@;
        assert forall|x: Seq<char>| #[trigger] keys_in_order(probes, upto).contains(x) <==> exists|i: int| 0 <= i < upto && probes[i].key@ == x by {
            vstd::seq_lib::lemma_seq_contains_after_push(ks, x0, x);
            if exists|i: int| 0 <= i < upto && probes[i].key@ == x {
                let i = choose|i: int| 0 <= i < upto && probes[i].key@ == x;
                if i < upto - 1 {
                    assert(ks.contains(x));
                }
            }
            if ks.contains(x) {
                let i = choose|i: int| 0 <= i < upto - 1 && probes[i].key@ == x;
            }
        }
    }
}

proof fn lemma_keys_distinct(probes: Seq<GitSpaceMetadata>, upto: int)
    requires
        0 <= upto <= probes.len(),
    ensures
        keys_in_order(probes, upto).no_duplicates(),
    decreases upto,
{
    if upto > 0 {
        lemma_keys_distinct(probes, upto - 1);
        let ks = keys_in_order(probes, upto - 1);
        let x = probes[upto - 1].key@;
        if !ks.contains(x) {
            let ks2 = ks.push(x);
            assert forall|a: int, b: int| 0 <= a < ks2.len() && 0 <= b < ks2.len() && a != b implies ks2[a] != ks2[b] by {
                if a < ks.len() && b < ks.len() {
                    assert(ks2[a] == ks[a] && ks2[b] == ks[b]);
                } else if a < ks.len() {
                    assert(ks2[a] == ks[a]);
                    assert(ks.contains(ks[a]));
                } else {
                    assert(ks2[b] == ks[b]);
                    assert(ks.contains(ks[b]));
                }
            }
        }
    }
}

/// The position of the entry for repository `key`.
fn find_key(out: &Vec<Repository>, key: &str) -> (r: Option<usize>)
    ensures
        match r {
            Some(j) => j < out@.len() && out@[j as int].key@ == key@,
            None => forall|q: int| 0 <= q < out@.len() ==> (#[trigger] out@[q]).key@ != key@,
        },
{
    let mut j: usize = 0;
    while j < out.len()
        invariant
            j <= out@.len(),
            forall|q: int| 0 <= q < j ==> (#[trigger] out@[q]).key@ != key@,
        decreases out.len() - j,
    {
        if str_eq(out[j].key.as_str(), key) {
            return Some(j);
        }
        j = j + 1;
    }
    None
}

/// Collapse probes of the same repository into one entry, keeping the
/// primary checkout's root over a linked worktree's, in order of first
/// appearance of each repository.
pub fn dedup_repositories(probes: &Vec<GitSpaceMetadata>) -> (out: Vec<Repository>)
    ensures
        deduped(out@, probes@, probes@.len() as int),
{
    let mut out: Vec<Repository> = Vec::new();
    let mut primary: Vec<bool> = Vec::new();
    let mut i: usize = 0;
    while i < probes.len()
        invariant
            i <= probes@.len(),
            primary@.len() == out@.len(),
            deduped(out@, probes@, i as int),
            forall|k: int| 0 <= k < out@.len() ==> primary_ok(probes@, keys_in_order(probes@, i as int)[k], i as int, #[trigger] primary@[k]),
        decreases probes.len() - i,
    {
        let p = &probes[i];
        let ghost ks = keys_in_order(probes@, i as int);
        let ghost ks2 = keys_in_order(probes@, i + 1);
        proof {
            lemma_keys_in_order(probes@, i as int);
            lemma_keys_distinct(probes@, i as int);
            assert forall|k: int| 0 <= k < out@.len() implies (#[trigger] out@[k]).key@ == ks[k] by {
                lemma_winner_in_range(probes@, ks[k], i as int);
                assert(entry_ok(probes@, ks[k], i as int, out@[k]));
            }
        }
        let ghost old_out = out@;
        let ghost old_primary = primary@;
        match find_key(&out, p.key.as_str()) {
            Some(j) => {
                proof {
                    assert(ks.contains(p.key@));
                    assert(ks2 == ks);
                }
                let keep = primary[j] && p.is_linked_worktree;
                if !keep {
                    out.set(j, Repository { key: p.key.clone(), root: p.repo_root.clone(), label: p.label.clone() });
                    primary.set(j, !p.is_linked_worktree);
                }
                proof {
                    assert forall|k: int|
                        0 <= k < out@.len() implies entry_ok(probes@, ks2[k], i + 1, #[trigger] out@[k]) && primary_ok(probes@, ks2[k], i + 1, primary@[k]) by {
                        lemma_winner_in_range(probes@, ks[k], i as int);
                        if k != j {
                            assert(ks[k] != ks[j as int]);
                            assert(out@[k] == old_out[k]);
                        }
                    }
                }
            },
            None => {
                proof {
                    assert(!ks.contains(p.key@)) by {
                        if ks.contains(p.key@) {
                            let q = choose|q: int| 0 <= q < ks.len() && ks[q] == p.key@;
                            assert(out@[q].key@ == ks[q]);
                        }
                    }
                    assert(ks2 == ks.push(p.key@));
                    assert(winner(probes@, p.key@, i as int) is None) by {
                        lemma_winner_in_range(probes@, p.key@, i as int);
                        if winner(probes@, p.key@, i as int) is Some {
                            let w = winner(probes@, p.key@, i as int).unwrap();
                            assert(ks.contains(probes@[w].key@));
                        }
                    }
                }
                out.push(Repository { key: p.key.clone(), root: p.repo_root.clone(), label: p.label.clone() });
                primary.push(!p.is_linked_worktree);
                proof {
                    assert forall|k: int|
                        0 <= k < out@.len() implies entry_ok(probes@, ks2[k], i + 1, #[trigger] out@[k]) && primary_ok(probes@, ks2[k], i + 1, primary@[k]) by {
                        if k < old_out.len() {
                            lemma_winner_in_range(probes@, ks[k], i as int);
                            assert(ks2[k] == ks[k]);
                            assert(ks[k] != p.key@) by {
                                assert(ks.contains(ks[k]));
                            }
                            assert(out@[k] == old_out[k]);
                            assert(primary@[k] == old_primary[k]);
                        } else {
                            assert(ks2[k] == p.key@);
                        }
                    }
                }
            },
        }
        i = i + 1;
    }
    out
}

} // verus!
