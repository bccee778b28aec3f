//! Where new and opened worktrees come from: the repository a workspace's
//! worktree actions start from, and the group memberships recorded once an
//! existing worktree is opened as a workspace.
use vstd::prelude::*;
use crate::workspace::{GitSpaceMetadata, Workspace, WorktreeSpaceMembership};

verus! {


/// The repository metadata a worktree membership records.
pub open spec fn membership_space(m: WorktreeSpaceMembership) -> GitSpaceMetadata {
    GitSpaceMetadata {
        key: m.key,
        label: m.label,
        repo_root: m.repo_root,
        checkout_path: m.checkout_path,
        is_linked_worktree: m.is_linked_worktree,
    }
}

/// Where a workspace's worktree actions start from: its own membership (if
/// it has one), the repository, the checkout new worktrees are made from,
/// and the workspace's id.
#[derive(Debug)]
pub struct WorktreeSource {
    pub membership: Option<WorktreeSpaceMembership>,
    pub space: GitSpaceMetadata,
    pub checkout_path: String,
    pub workspace_id: String,
}

fn copy_membership(m: &WorktreeSpaceMembership) -> (r: WorktreeSpaceMembership)
    ensures
        r == *m,
{
    WorktreeSpaceMembership {
        key: m.key.clone(),
        label: m.label.clone(),
        repo_root: m.repo_root.clone(),
        checkout_path: m.checkout_path.clone(),
        is_linked_worktree: m.is_linked_worktree,
    }
}

fn copy_space(g: &GitSpaceMetadata) -> (r: GitSpaceMetadata)
    ensures
        r == *g,
{
    GitSpaceMetadata {
        key: g.key.clone(),
        label: g.label.clone(),
        repo_root: g.repo_root.clone(),
        checkout_path: g.checkout_path.clone(),
        is_linked_worktree: g.is_linked_worktree,
    }
}

/// The git metadata of a workspace: the cached one, else `probed` (what
/// probing its identity directory found).
pub open spec fn git_of(ws: Workspace, probed: Option<GitSpaceMetadata>) -> Option<GitSpaceMetadata> {
    match ws.cached_git_space {
        Some(g) => Some(g),
        None => probed,
    }
}

/// Where the worktree actions of workspace `ws_idx` start from. They start
/// from a repository's parent checkout: a linked worktree, by membership or
/// by its git metadata, is refused, and so is a workspace outside git. The
/// workspace's membership, when it has one, names the repository and the
/// checkout; otherwise its git metadata does, from the repository root.
/// `probed` is what probing the workspace's identity directory found; it is
/// only looked at when no git metadata is cached.
pub fn worktree_source_metadata(workspaces: &Vec<Workspace>, ws_idx: usize, probed: Option<GitSpaceMetadata>) -> (r: Result<
    WorktreeSource,
    String,
>)
    ensures
        ws_idx >= workspaces@.len() ==> (r matches Err(e) && e@ == "Workspace not found."@),
        ws_idx < workspaces@.len() ==> {
            let ws = workspaces@[ws_idx as int];
            let git = git_of(ws, probed);
            if (ws.worktree_space matches Some(m) && m.is_linked_worktree) || (git matches Some(g) && g.is_linked_worktree) {
                r matches Err(e) && e@ == "New and open worktree actions start from the repo parent workspace."@
            } else {
                match ws.worktree_space {
                    Some(m) => r matches Ok(s) && s.membership == Some(m) && s.space == membership_space(m)
                        && s.checkout_path == m.checkout_path && s.workspace_id == ws.id,
                    None => match git {
                        Some(g) => r matches Ok(s) && s.membership is None && s.space == g && s.checkout_path
                            == g.repo_root && s.workspace_id == ws.id,
                        None => r matches Err(e) && e@ == "Herdr worktree actions require a workspace inside a Git work tree."@,
                    },
                }
            }
        },
{
    if ws_idx >= workspaces.len() {
        return Err("Workspace not found.".to_string());
    }
    let ws = &workspaces[ws_idx];
    let membership = match &ws.worktree_space {
        Some(m) => Some(copy_membership(m)),
        None => None,
    };
    if let Some(m) = &membership {
        if m.is_linked_worktree {
            return Err("New and open worktree actions start from the repo parent workspace.".to_string());
        }
    }
    let git = match &ws.cached_git_space {
        Some(g) => Some(copy_space(g)),
        None => probed,
    };
    if let Some(g) = &git {
        if g.is_linked_worktree {
            return Err("New and open worktree actions start from the repo parent workspace.".to_string());
        }
    }
    match membership {
        Some(m) => {
            let space = GitSpaceMetadata {
                key: m.key.clone(),
                label: m.label.clone(),
                repo_root: m.repo_root.clone(),
                checkout_path: m.checkout_path.clone(),
                is_linked_worktree: m.is_linked_worktree,
            };
            let checkout_path = m.checkout_path.clone();
            Ok(WorktreeSource { membership: Some(m), space, checkout_path, workspace_id: ws.id.clone() })
        },
        None => match git {
            Some(g) => {
                let checkout_path = g.repo_root.clone();
                Ok(WorktreeSource { membership: None, space: g, checkout_path, workspace_id: ws.id.clone() })
            },
            None => Err("Herdr worktree actions require a workspace inside a Git work tree.".to_string()),
        },
    }
}

/// The first workspace, from `k` on, with id `id`.
pub open spec fn workspace_with_id(ws: Seq<Workspace>, id: Seq<char>, k: int) -> Option<int>
    decreases ws.len() - k,
{
    if k < 0 || k >= ws.len() {
        None
    } else if ws[k].id@ == id {
        Some(k)
    } else {
        workspace_with_id(ws, id, k + 1)
    }
}

/// Workspace `b` is `a` with only its worktree membership replaced by `m`.
pub open spec fn with_membership(a: Workspace, b: Workspace, m: Option<WorktreeSpaceMembership>) -> bool {
    b == (Workspace { worktree_space: m, ..a })
}

/// What is recorded when an existing worktree is opened as workspace
/// `target_ws_idx` from the source workspace with id `source_workspace_id`:
/// the source keeps the membership it had, or becomes the primary checkout
/// of repository `repo_key` (named `repo_name`, at `source_repo_root`,
/// checked out at `source_checkout_path`); the target becomes a member of
/// the same repository checked out at `target_path`, linked or not as
/// `target_is_linked_worktree` says. The other workspaces are unchanged.
pub fn mark_opened_existing_worktree_membership(
    workspaces: &mut Vec<Workspace>,
    source_workspace_id: &str,
    source_existing_membership: Option<WorktreeSpaceMembership>,
    source_checkout_path: String,
    source_repo_root: String,
    repo_key: String,
    repo_name: String,
    target_ws_idx: usize,
    target_path: String,
    target_is_linked_worktree: bool,
)
    ensures
        final(workspaces)@.len() == old(workspaces)@.len(),
        ({
            let source = workspace_with_id(old(workspaces)@, source_workspace_id@, 0);
            let source_m = match source_existing_membership {
                Some(m) => m,
                None => WorktreeSpaceMembership {
                    key: repo_key,
                    label: repo_name,
                    repo_root: source_repo_root,
                    checkout_path: source_checkout_path,
                    is_linked_worktree: false,
                },
            };
            let target_m = WorktreeSpaceMembership {
                key: repo_key,
                label: repo_name,
                repo_root: source_repo_root,
                checkout_path: target_path,
                is_linked_worktree: target_is_linked_worktree,
            };
            forall|i: int|
                0 <= i < old(workspaces)@.len() ==> if i == target_ws_idx {
                    with_membership(old(workspaces)@[i], #[trigger] final(workspaces)@[i], Some(target_m))
                } else if source == Some(i) {
                    with_membership(old(workspaces)@[i], final(workspaces)@[i], Some(source_m))
                } else {
                    final(workspaces)@[i] == old(workspaces)@[i]
                }
        }),
{
    let ghost w0 = workspaces@;
    let mut k: usize = 0;
    let mut source: Option<usize> = None;
    while k < workspaces.len()
        invariant_except_break
            source is None,
        invariant
            workspaces@ == w0,
            k <= w0.len(),
            workspace_with_id(w0, source_workspace_id@, k as int) == workspace_with_id(w0, source_workspace_id@, 0),
        ensures
            workspaces@ == w0,
            source matches Some(s) ==> s < w0.len() && workspace_with_id(w0, source_workspace_id@, 0) == Some(s as int),
            source is None ==> workspace_with_id(w0, source_workspace_id@, 0) is None,
        decreases workspaces.len() - k,
    {
        if crate::text::str_eq(workspaces[k].id.as_str(), source_workspace_id) {
            source = Some(k);
            break;
        }
        k = k + 1;
    }
    let source_m = match source_existing_membership {
        Some(m) => m,
        None => WorktreeSpaceMembership {
            key: repo_key.clone(),
            label: repo_name.clone(),
            repo_root: source_repo_root.clone(),
            checkout_path: source_checkout_path,
            is_linked_worktree: false,
        },
    };
    let ghost sm = source_m;
    if let Some(s) = source {
        let mut ws = workspaces.remove(s);
        ws.worktree_space = Some(source_m);
        workspaces.insert(s, ws);
        proof {
            assert(workspaces@ =~= w0.update(s as int, Workspace { worktree_space: Some(sm), ..w0[s as int] }));
        }
    }
    let ghost w1 = workspaces@;
    let target_m = WorktreeSpaceMembership {
        key: repo_key,
        label: repo_name,
        repo_root: source_repo_root,
        checkout_path: target_path,
        is_linked_worktree: target_is_linked_worktree,
    };
    let ghost tm = target_m;
    if target_ws_idx < workspaces.len() {
        let mut ws = workspaces.remove(target_ws_idx);
        ws.worktree_space = Some(target_m);
        workspaces.insert(target_ws_idx, ws);
        proof {
            assert(workspaces@ =~= w1.update(target_ws_idx as int, Workspace { worktree_space: Some(tm), ..w1[target_ws_idx as int] }));
        }
    }
    proof {
        assert(w1.len() == w0.len());
    }
}

} // verus!
