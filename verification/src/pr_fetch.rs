//! The computing half of the PR-status refresh: recognising GitHub remotes,
//! keeping the search results that belong to the scanned repositories,
//! reading each PR's review detail, and assembling the snapshot.
use vstd::prelude::*;
use crate::pr_status::{
    aggregate_people, grouping_ok, CiState, FetchedPr, PrStatusSnapshot, ReviewSubmission,
    ReviewThread,
};
use crate::stack_graph::{graph_of, StackGraph};
use crate::text::{
    append_str, chars_of, ends_with, ends_with_chars, slice_chars, starts_with, starts_with_chars, str_eq,
    string_of, trim_ws,
};

verus! {

// ---------------------------------------------------------------------------
// GitHub remotes
// ---------------------------------------------------------------------------

/// The part of a GitHub remote URL after its host, for the ssh and https shapes.
pub open spec fn after_github_host(url: Seq<char>) -> Option<Seq<char>> {
    if starts_with(url, "git@github.com:"@) {
        Some(url.subrange("git@github.com:"@.len() as int, url.len() as int))
    } else if starts_with(url, "ssh://git@github.com/"@) {
        Some(url.subrange("ssh://git@github.com/"@.len() as int, url.len() as int))
    } else if starts_with(url, "https://github.com/"@) {
        Some(url.subrange("https://github.com/"@.len() as int, url.len() as int))
    } else if starts_with(url, "http://github.com/"@) {
        Some(url.subrange("http://github.com/"@.len() as int, url.len() as int))
    } else {
        None
    }
}

/// `s` without a trailing `.git`.
pub open spec fn without_git_suffix(s: Seq<char>) -> Seq<char> {
    if ends_with(s, ".git"@) {
        s.subrange(0, s.len() - ".git"@.len())
    } else {
        s
    }
}

/// `s` without leading slashes.
pub open spec fn trim_start_slashes(s: Seq<char>) -> Seq<char>
    decreases s.len(),
{
    if s.len() > 0 && s[0] == '/' {
        trim_start_slashes(s.drop_first())
    } else {
        s
    }
}

/// `s` without trailing slashes.
pub open spec fn trim_end_slashes(s: Seq<char>) -> Seq<char>
    decreases s.len(),
{
    if s.len() > 0 && s.last() == '/' {
        trim_end_slashes(s.drop_last())
    } else {
        s
    }
}

/// The position of the first `/` in `s`.
pub open spec fn first_slash(s: Seq<char>) -> Option<int> {
    if exists|i: int| 0 <= i < s.len() && s[i] == '/' {
        Some(choose|i: int| 0 <= i < s.len() && s[i] == '/' && forall|j: int| 0 <= j < i ==> s[j] != '/')
    } else {
        None
    }
}

/// `owner/name` of a GitHub remote URL (ssh or https, with or without `.git`),
/// or `None` for another host or a URL without both parts.
pub open spec fn github_owner_name_of(url: Seq<char>) -> Option<Seq<char>> {
    match after_github_host(url) {
        None => None,
        Some(rest) => {
            let rest = trim_end_slashes(trim_start_slashes(without_git_suffix(rest)));
            match first_slash(rest) {
                None => None,
                Some(i) => if i == 0 || i + 1 == rest.len() {
                    None
                } else {
                    Some(rest)
                },
            }
        },
    }
}

/// The first position of `/` in `v`.
fn find_slash(v: &Vec<char>) -> (r: Option<usize>)
    ensures
        opt_int(r) == first_slash(v@),
        r matches Some(i) ==> i < v@.len(),
{
    let mut i: usize = 0;
    while i < v.len()
        invariant
            i <= v@.len(),
            forall|j: int| 0 <= j < i ==> v@[j] != '/',
        decreases v.len() - i,
    {
        if v[i] == '/' {
            proof {
                let c = choose|c: int| 0 <= c < v@.len() && v@[c] == '/' && forall|j: int| 0 <= j < c ==> v@[j] != '/';
                if c < i {
                } else if c > i {
                    assert(v@[i as int] == '/');
                }
            }
            return Some(i);
        }
        i = i + 1;
    }
    None
}

/// An index as an integer.
pub open spec fn opt_int(o: Option<usize>) -> Option<int> {
    match o {
        Some(u) => Some(u as int),
        None => None,
    }
}

/// The part of `u` after a GitHub host prefix.
fn strip_github_host(u: &Vec<char>) -> (r: Option<Vec<char>>)
    ensures
        match r {
            Some(v) => after_github_host(u@) == Some(v@),
            None => after_github_host(u@) is None,
        },
{
    let p0 = chars_of("git@github.com:");
    if starts_with_chars(u, &p0) {
        return Some(slice_chars(u, p0.len(), u.len()));
    }
    let p1 = chars_of("ssh://git@github.com/");
    if starts_with_chars(u, &p1) {
        return Some(slice_chars(u, p1.len(), u.len()));
    }
    let p2 = chars_of("https://github.com/");
    if starts_with_chars(u, &p2) {
        return Some(slice_chars(u, p2.len(), u.len()));
    }
    let p3 = chars_of("http://github.com/");
    if starts_with_chars(u, &p3) {
        return Some(slice_chars(u, p3.len(), u.len()));
    }
    None
}

/// `v` without a trailing `.git`.
fn strip_git_suffix(v: Vec<char>) -> (r: Vec<char>)
    ensures
        r@ == without_git_suffix(v@),
{
    let git = chars_of(".git");
    if ends_with_chars(&v, &git) {
        slice_chars(&v, 0, v.len() - git.len())
    } else {
        v
    }
}

/// `v` without slashes at either end.
fn trim_slashes(rest: &Vec<char>) -> (r: Vec<char>)
    ensures
        r@ == trim_end_slashes(trim_start_slashes(rest@)),
{
    let mut start: usize = 0;
    proof {
        assert(rest@.subrange(0, rest@.len() as int) =~= rest@);
    }
    while start < rest.len() && rest[start] == '/'
        invariant
            start <= rest@.len(),
            trim_start_slashes(rest@) == trim_start_slashes(rest@.subrange(start as int, rest@.len() as int)),
        decreases rest.len() - start,
    {
        proof {
            assert(rest@.subrange(start as int, rest@.len() as int).drop_first() =~= rest@.subrange(start + 1, rest@.len() as int));
        }
        start = start + 1;
    }
    let mut end: usize = rest.len();
    proof {
        let t = rest@.subrange(start as int, rest@.len() as int);
        if start < rest@.len() {
            assert(t[0] == rest@[start as int]);
        }
        assert(trim_start_slashes(t) == t);
    }
    while end > start && rest[end - 1] == '/'
        invariant
            start <= end <= rest@.len(),
            trim_end_slashes(trim_start_slashes(rest@)) == trim_end_slashes(rest@.subrange(start as int, end as int)),
        decreases end - start,
    {
        proof {
            assert(rest@.subrange(start as int, end as int).drop_last() =~= rest@.subrange(start as int, end - 1));
        }
        end = end - 1;
    }
    let core = slice_chars(rest, start, end);
    proof {
        if core@.len() > 0 {
            assert(core@.last() == rest@[end - 1]);
        }
        assert(trim_end_slashes(core@) == core@);
    }
    core
}

/// Parse `owner/name` out of a GitHub remote URL (ssh or https, with/without
/// `.git`). Returns `None` for non-GitHub hosts.
pub fn parse_github_owner_name(url: &str) -> (r: Option<String>)
    ensures
        match r {
            Some(s) => github_owner_name_of(url@) == Some(s@),
            None => github_owner_name_of(url@) is None,
        },
{
    let u = chars_of(url);
    let rest = match strip_github_host(&u) {
        Some(rest) => rest,
        None => return None,
    };
    let rest = strip_git_suffix(rest);
    let core = trim_slashes(&rest);
    match find_slash(&core) {
        None => None,
        Some(i) => {
            if i == 0 || i + 1 == core.len() {
                None
            } else {
                Some(string_of(&core))
            }
        },
    }
}

// ---------------------------------------------------------------------------
// Keeping the search results of the scanned repositories
// ---------------------------------------------------------------------------

/// The Unicode lowercase of a text, as `str::to_lowercase` computes it.
pub uninterp spec fn unicode_lowercase(s: Seq<char>) -> Seq<char>;

/// `str::to_lowercase`: the Unicode lowercase of `s`. The full Unicode case
/// mapping is not spelled out; the result is named by `unicode_lowercase`.
#[verifier::external_body]
fn to_lowercase(s: &str) -> (r: String)
    ensures
        r@ == unicode_lowercase(s@),
{
    s.to_lowercase()
}

/// The repository key registered for `owner/name` (lowercased) in `map`: the
/// first entry with that name.
pub open spec fn map_get(map: Seq<(String, String)>, k: Seq<char>) -> Option<Seq<char>>
    decreases map.len(),
{
    if map.len() == 0 {
        None
    } else if map[0].0@ == k {
        Some(map[0].1@)
    } else {
        map_get(map.drop_first(), k)
    }
}

/// The key of the last of `pairs[..upto]` whose lowercased name is `k`.
pub open spec fn last_owner(pairs: Seq<(String, String)>, k: Seq<char>, upto: int) -> Option<Seq<char>>
    decreases upto,
{
    if upto <= 0 {
        None
    } else if unicode_lowercase(pairs[upto - 1].0@) == k {
        Some(pairs[upto - 1].1@)
    } else {
        last_owner(pairs, k, upto - 1)
    }
}

/// `map` maps each lowercased `owner/name` of `pairs` to the key of the last
/// pair with that name, once each.
pub open spec fn owner_map_of(map: Seq<(String, String)>, pairs: Seq<(String, String)>) -> bool {
    &&& forall|i: int|
        0 <= i < map.len() ==> last_owner(pairs, (#[trigger] map[i]).0@, pairs.len() as int) == Some(
            map[i].1@,
        )
    &&& forall|k: Seq<char>| #[trigger] last_owner(pairs, k, pairs.len() as int) is Some ==> map_get(map, k) is Some
    &&& forall|i: int, j: int|
        0 <= i < map.len() && 0 <= j < map.len() && i != j ==> (#[trigger] map[i]).0@ != (
        #[trigger] map[j]).0@
}

proof fn lemma_map_get(map: Seq<(String, String)>, k: Seq<char>, i: int)
    requires
        0 <= i < map.len(),
        map[i].0@ == k,
        forall|a: int, b: int| 0 <= a < map.len() && 0 <= b < map.len() && a != b ==> (#[trigger] map[a]).0@ != (#[trigger] map[b]).0@,
    ensures
        map_get(map, k) == Some(map[i].1@),
    decreases map.len(),
{
    if i > 0 {
        let t = map.drop_first();
        assert(map[0].0@ != k);
        assert forall|a: int, b: int| 0 <= a < t.len() && 0 <= b < t.len() && a != b implies (#[trigger] t[a]).0@ != (#[trigger] t[b]).0@ by {
            assert(t[a] == map[a + 1] && t[b] == map[b + 1]);
        }
        lemma_map_get(t, k, i - 1);
    }
}

proof fn lemma_map_get_none(map: Seq<(String, String)>, k: Seq<char>)
    requires
        forall|i: int| 0 <= i < map.len() ==> (#[trigger] map[i]).0@ != k,
    ensures
        map_get(map, k) is None,
    decreases map.len(),
{
    if map.len() > 0 {
        let t = map.drop_first();
        assert forall|i: int| 0 <= i < t.len() implies (#[trigger] t[i]).0@ != k by {
            assert(t[i] == map[i + 1]);
        }
        lemma_map_get_none(t, k);
    }
}

/// Map each scanned repository's GitHub `owner/name` (lowercased) to its key;
/// a later repository with the same name replaces an earlier one.
pub fn repo_owner_map(pairs: &Vec<(String, String)>) -> (map: Vec<(String, String)>)
    ensures
        owner_map_of(map@, pairs@),
{
    let mut map: Vec<(String, String)> = Vec::new();
    let mut j: usize = 0;
    while j < pairs.len()
        invariant
            j <= pairs@.len(),
            forall|i: int|
                0 <= i < map@.len() ==> last_owner(pairs@, (#[trigger] map@[i]).0@, j as int) == Some(
                    map@[i].1@,
                ),
            forall|k: Seq<char>| #[trigger] last_owner(pairs@, k, j as int) is Some ==> exists|i: int|
                0 <= i < map@.len() && map@[i].0@ == k,
            forall|a: int, b: int|
                0 <= a < map@.len() && 0 <= b < map@.len() && a != b ==> (#[trigger] map@[a]).0@ != (
                #[trigger] map@[b]).0@,
        decreases pairs.len() - j,
    {
        let name = to_lowercase(pairs[j].0.as_str());
        let key = pairs[j].1.clone();
        let mut found: Option<usize> = None;
        let mut i: usize = 0;
        while i < map.len()
            invariant_except_break
                found is None,
            invariant
                i <= map@.len(),
                forall|q: int| 0 <= q < i ==> (#[trigger] map@[q]).0@ != name@,
            ensures
                found matches Some(f) ==> f < map@.len() && map@[f as int].0@ == name@,
                found is None ==> forall|q: int| 0 <= q < map@.len() ==> (#[trigger] map@[q]).0@ != name@,
            decreases map.len() - i,
        {
            if map[i].0 == name {
                found = Some(i);
                break;
            }
            i = i + 1;
        }
        let ghost old_map = map@;
        match found {
            Some(f) => {
                map.set(f, (name, key));
            },
            None => {
                map.push((name, key));
            },
        }
        proof {
            assert forall|q: int| 0 <= q < map@.len() implies last_owner(pairs@, (#[trigger] map@[q]).0@, j + 1) == Some(map@[q].1@) by {
                if q < old_map.len() && map@[q] == old_map[q] {
                }
            }
            assert forall|k: Seq<char>| #[trigger] last_owner(pairs@, k, j + 1) is Some implies exists|q: int|
                0 <= q < map@.len() && map@[q].0@ == k by {
                if k == unicode_lowercase(pairs@[j as int].0@) {
                    match found {
                        Some(f) => { assert(map@[f as int].0@ == k); },
                        None => { assert(map@[map@.len() - 1].0@ == k); },
                    }
                } else {
                    assert(last_owner(pairs@, k, j as int) is Some);
                    let q = choose|q: int| 0 <= q < old_map.len() && old_map[q].0@ == k;
                    assert(map@[q].0@ == k);
                }
            }
            assert forall|a: int, b: int|
                0 <= a < map@.len() && 0 <= b < map@.len() && a != b implies (#[trigger] map@[a]).0@ != (
                #[trigger] map@[b]).0@ by {
                if a < old_map.len() && map@[a] != old_map[a] {
                } 
                if a < old_map.len() {
                    assert(map@[a].0@ == old_map[a].0@);
                }
                if b < old_map.len() {
                    assert(map@[b].0@ == old_map[b].0@);
                }
            }
        }
        j = j + 1;
    }
    proof {
        assert forall|k: Seq<char>| #[trigger] last_owner(pairs@, k, pairs@.len() as int) is Some implies map_get(map@, k) is Some by {
            let q = choose|q: int| 0 <= q < map@.len() && map@[q].0@ == k;
            lemma_map_get(map@, k, q);
        }
    }
    map
}

/// One node of a global PR search (ids and scalar fields only). A non-PR
/// result has number 0 and an empty id.
#[derive(Debug)]
pub struct RefNode {
    pub id: String,
    pub number: u64,
    pub title: String,
    pub url: String,
    pub is_draft: bool,
    pub base_ref_name: String,
    pub head_ref_name: String,
    pub author: Option<String>,
    pub name_with_owner: String,
}

/// The three searches: my PRs, PRs requesting my review, PRs I reviewed.
#[derive(Debug)]
pub struct RefData {
    pub viewer_login: String,
    pub mine: Vec<RefNode>,
    pub requested: Vec<RefNode>,
    pub reviewed_by: Vec<RefNode>,
}

/// A PR from the searches: identity and scalar fields, before detail is fetched.
#[derive(Debug)]
pub struct PrRef {
    pub id: String,
    pub number: u64,
    pub title: String,
    pub url: String,
    pub author: String,
    pub is_draft: bool,
    pub base_ref: String,
    pub head_ref: String,
    pub repo_key: String,
}

/// The repository key of a search node, when it is a PR of a scanned repository.
pub open spec fn local_repo(map: Seq<(String, String)>, node: RefNode) -> Option<Seq<char>> {
    if node.number == 0 || node.id@.len() == 0 {
        None
    } else {
        map_get(map, unicode_lowercase(node.name_with_owner@))
    }
}

/// The positions of `nodes[..n]` kept: PRs of scanned repositories, each
/// `(repo_key, number)` once (its first occurrence).
pub open spec fn kept(map: Seq<(String, String)>, nodes: Seq<RefNode>, n: nat) -> Seq<int>
    decreases n,
{
    if n == 0 {
        Seq::empty()
    } else {
        let r = kept(map, nodes, (n - 1) as nat);
        let node = nodes[n - 1];
        match local_repo(map, node) {
            None => r,
            Some(key) => if exists|q: int|
                0 <= q < r.len() && local_repo(map, nodes[#[trigger] r[q]]) == Some(key)
                    && nodes[r[q]].number == node.number {
                r
            } else {
                r.push(n - 1)
            },
        }
    }
}

/// An author's login; GitHub shows a deleted account as "ghost".
pub open spec fn login_or_ghost(author: Option<String>) -> Seq<char> {
    match author {
        Some(a) => a@,
        None => "ghost"@,
    }
}

/// `r` is the ref taken from search node `node` of repository `key`.
pub open spec fn ref_of(r: PrRef, node: RefNode, key: Seq<char>) -> bool {
    &&& r.id == node.id
    &&& r.number == node.number
    &&& r.title == node.title
    &&& r.url == node.url
    &&& r.author@ == login_or_ghost(node.author)
    &&& r.is_draft == node.is_draft
    &&& r.base_ref == node.base_ref_name
    &&& r.head_ref == node.head_ref_name
    &&& r.repo_key@ == key
}

/// The nodes of all three searches, in order.
pub open spec fn all_nodes(data: RefData) -> Seq<RefNode> {
    data.mine@ + data.requested@ + data.reviewed_by@
}

/// The first entry of `map` named `k`.
fn lookup_repo(map: &Vec<(String, String)>, k: &String) -> (r: Option<String>)
    ensures
        match r {
            Some(v) => map_get(map@, k@) == Some(v@),
            None => map_get(map@, k@) is None,
        },
{
    let mut i: usize = 0;
    proof {
        assert(map@.subrange(0, map@.len() as int) =~= map@);
    }
    while i < map.len()
        invariant
            i <= map@.len(),
            map_get(map@, k@) == map_get(map@.subrange(i as int, map@.len() as int), k@),
        decreases map.len() - i,
    {
        proof {
            assert(map@.subrange(i as int, map@.len() as int).drop_first() =~= map@.subrange(i + 1, map@.len() as int));
        }
        if map[i].0 == *k {
            return Some(map[i].1.clone());
        }
        i = i + 1;
    }
    None
}

/// `refs` are the refs taken, in order, from the nodes at positions `keep`.
pub open spec fn refs_from(map: Seq<(String, String)>, nodes: Seq<RefNode>, keep: Seq<int>, refs: Seq<PrRef>) -> bool {
    &&& refs.len() == keep.len()
    &&& forall|q: int|
        0 <= q < refs.len() ==> 0 <= keep[q] < nodes.len() && local_repo(map, nodes[keep[q]]) is Some
            && ref_of(#[trigger] refs[q], nodes[keep[q]], local_repo(map, nodes[keep[q]]).unwrap())
}

/// Appending a ref taken from a kept node keeps `refs_from`.
proof fn lemma_refs_push(
    map: Seq<(String, String)>,
    nodes: Seq<RefNode>,
    keep: Seq<int>,
    refs: Seq<PrRef>,
    keep2: Seq<int>,
    refs2: Seq<PrRef>,
)
    requires
        refs_from(map, nodes, keep, refs),
        keep2.len() == keep.len() + 1,
        refs2.len() == refs.len() + 1,
        forall|q: int| 0 <= q < keep.len() ==> keep2[q] == keep[q] && refs2[q] == refs[q],
        0 <= keep2.last() < nodes.len(),
        local_repo(map, nodes[keep2.last()]) is Some,
        ref_of(refs2.last(), nodes[keep2.last()], local_repo(map, nodes[keep2.last()]).unwrap()),
    ensures
        refs_from(map, nodes, keep2, refs2),
{
    assert forall|q: int| 0 <= q < refs2.len() implies 0 <= keep2[q] < nodes.len() && local_repo(map, nodes[keep2[q]]) is Some
        && ref_of(#[trigger] refs2[q], nodes[keep2[q]], local_repo(map, nodes[keep2[q]]).unwrap()) by {
        if q < refs.len() {
            assert(refs2[q] == refs[q]);
            assert(keep2[q] == keep[q]);
        }
    }
}

/// Turn the searches into `PrRef`s, keeping only PRs in a scanned repository
/// (case-insensitive owner/name match) and each PR once even when it appears
/// in more than one search.
pub fn select_local_refs(data: RefData, repo_by_owner_name: &Vec<(String, String)>) -> (refs: Vec<PrRef>)
    ensures
        refs_from(
            repo_by_owner_name@,
            all_nodes(data),
            kept(repo_by_owner_name@, all_nodes(data), all_nodes(data).len()),
            refs@,
        ),
{
    let ghost nodes0 = all_nodes(data);
    let map = repo_by_owner_name;
    let RefData { viewer_login: _, mine, requested, reviewed_by } = data;
    let mut nodes = mine;
    let mut requested = requested;
    let mut reviewed_by = reviewed_by;
    nodes.append(&mut requested);
    nodes.append(&mut reviewed_by);
    proof {
        assert(nodes@ =~= nodes0);
    }
    let mut refs: Vec<PrRef> = Vec::new();
    let mut i: usize = 0;
    let ghost mut keep: Seq<int> = Seq::empty();
    while i < nodes.len()
        invariant
            i <= nodes@.len(),
            nodes@ == nodes0,
            keep == kept(map@, nodes@, i as nat),
            forall|q: int| 0 <= q < keep.len() ==> 0 <= #[trigger] keep[q] < i,
            refs_from(map@, nodes@, keep, refs@),
        decreases nodes.len() - i,
    {
        let ghost r2 = kept(map@, nodes@, (i + 1) as nat);
        let node = &nodes[i];
        let ghost old_refs = refs@;
        let mut key_found: Option<String> = None;
        if node.number != 0 && node.id.as_str().unicode_len() != 0 {
            let lower = to_lowercase(node.name_with_owner.as_str());
            key_found = lookup_repo(map, &lower);
        }
        proof {
            if key_found is Some {
                assert(local_repo(map@, nodes@[i as int]) == Some(key_found.unwrap()@));
            } else {
                assert(local_repo(map@, nodes@[i as int]) is None);
            }
        }
        match key_found {
            Some(key) => {
                let mut seen = false;
                let mut q: usize = 0;
                while q < refs.len()
                    invariant
                        q <= refs@.len(),
                        refs_from(map@, nodes@, keep, refs@),
                        seen == exists|x: int|
                            0 <= x < q && local_repo(map@, nodes@[#[trigger] keep[x]]) == Some(key@)
                                && nodes@[keep[x]].number == node.number,
                    decreases refs.len() - q,
                {
                    proof {
                        assert(ref_of(refs@[q as int], nodes@[keep[q as int]], local_repo(map@, nodes@[keep[q as int]]).unwrap()));
                    }
                    if refs[q].number == node.number && refs[q].repo_key == key {
                        seen = true;
                    }
                    q = q + 1;
                }
                if !seen {
                    let author = match &node.author {
                        Some(a) => a.clone(),
                        None => String::from_str("ghost"),
                    };
                    refs.push(PrRef {
                        id: node.id.clone(),
                        number: node.number,
                        title: node.title.clone(),
                        url: node.url.clone(),
                        author,
                        is_draft: node.is_draft,
                        base_ref: node.base_ref_name.clone(),
                        head_ref: node.head_ref_name.clone(),
                        repo_key: key,
                    });
                    proof {
                        assert(r2 == keep.push(i as int));
                        lemma_refs_push(map@, nodes@, keep, old_refs, r2, refs@);
                    }
                } else {
                    proof {
                        assert(r2 == keep);
                    }
                }
            },
            None => {
                proof {
                    assert(r2 == keep);
                }
            },
        }
        proof {
            assert forall|q: int| 0 <= q < r2.len() implies 0 <= #[trigger] r2[q] < i + 1 by {
                if q < keep.len() {
                    assert(r2[q] == keep[q]);
                }
            }
            keep = r2;
        }
        i = i + 1;
    }
    refs
}

// ---------------------------------------------------------------------------
// Per-PR review detail
// ---------------------------------------------------------------------------

/// One submitted review as GitHub reports it.
#[derive(Debug)]
pub struct RawReview {
    pub state: String,
    /// The review author's login; absent for a deleted account.
    pub author: Option<String>,
}

/// One review thread as GitHub reports it: resolution and the authors of its
/// comments (oldest first; an author is absent for a deleted account).
#[derive(Debug)]
pub struct RawThread {
    pub is_resolved: bool,
    pub comment_authors: Vec<Option<String>>,
}

/// The detail of one PR: its reviews, its review threads, and for each commit
/// fetched (oldest first) the state of its status-check rollup, if it has one.
#[derive(Debug)]
pub struct RawDetailNode {
    pub reviews: Vec<RawReview>,
    pub review_threads: Vec<RawThread>,
    pub commit_rollups: Vec<Option<String>>,
}

/// Review detail of one PR, ready to merge into its `FetchedPr`.
#[derive(Debug)]
pub struct PrDetail {
    pub threads: Vec<ReviewThread>,
    pub reviews: Vec<ReviewSubmission>,
    pub ci: CiState,
}

/// A PR with no detail: no threads, no reviews, unknown CI.
impl Default for PrDetail {
    fn default() -> (d: PrDetail)
        ensures
            d.threads@.len() == 0,
            d.reviews@.len() == 0,
            d.ci == CiState::Unknown,
    {
        PrDetail { threads: Vec::new(), reviews: Vec::new(), ci: CiState::Unknown }
    }
}

/// The CI state a status-check rollup state stands for.
pub open spec fn ci_of_state(state: Seq<char>) -> CiState {
    if state == "SUCCESS"@ {
        CiState::Passing
    } else if state == "FAILURE"@ || state == "ERROR"@ {
        CiState::Failing
    } else if state == "PENDING"@ || state == "EXPECTED"@ {
        CiState::Pending
    } else {
        CiState::Unknown
    }
}

/// The CI state of a PR: that of its latest commit's rollup, unknown when
/// there is no commit or no rollup.
pub open spec fn ci_of(rollups: Seq<Option<String>>) -> CiState {
    if rollups.len() == 0 {
        CiState::Unknown
    } else {
        match rollups.last() {
            Some(state) => ci_of_state(state@),
            None => CiState::Unknown,
        }
    }
}

/// The author of a thread's most recent comment.
pub open spec fn last_author(authors: Seq<Option<String>>) -> Option<String> {
    if authors.len() == 0 {
        None
    } else {
        authors.last()
    }
}

/// `t` is the thread read from `raw`.
pub open spec fn thread_from(t: ReviewThread, raw: RawThread) -> bool {
    &&& t.is_resolved == raw.is_resolved
    &&& t.last_comment_author == last_author(raw.comment_authors@)
}

/// `r` is the review read from `raw`; a deleted review author has an empty login.
pub open spec fn review_from(r: ReviewSubmission, raw: RawReview) -> bool {
    &&& r.state == raw.state
    &&& r.author@ == match raw.author {
        Some(a) => a@,
        None => Seq::<char>::empty(),
    }
}

/// `d` is the detail read from `raw`.
pub open spec fn detail_from(d: PrDetail, raw: RawDetailNode) -> bool {
    &&& d.threads@.len() == raw.review_threads@.len()
    &&& forall|i: int| 0 <= i < d.threads@.len() ==> thread_from(#[trigger] d.threads@[i], raw.review_threads@[i])
    &&& d.reviews@.len() == raw.reviews@.len()
    &&& forall|i: int| 0 <= i < d.reviews@.len() ==> review_from(#[trigger] d.reviews@[i], raw.reviews@[i])
    &&& d.ci == ci_of(raw.commit_rollups@)
}

/// The CI state of a rollup state.
fn ci_from_state(state: &str) -> (c: CiState)
    ensures
        c == ci_of_state(state@),
{
    if str_eq(state, "SUCCESS") {
        CiState::Passing
    } else if str_eq(state, "FAILURE") || str_eq(state, "ERROR") {
        CiState::Failing
    } else if str_eq(state, "PENDING") || str_eq(state, "EXPECTED") {
        CiState::Pending
    } else {
        CiState::Unknown
    }
}

/// Read the detail of one PR: each thread's resolution and last replier, each
/// review's state and author, and the CI state of the latest commit.
pub fn detail_from_raw(node: RawDetailNode) -> (d: PrDetail)
    ensures
        detail_from(d, node),
{
    let ghost raw = node;
    let RawDetailNode { reviews: raw_reviews, review_threads, commit_rollups } = node;
    let mut threads: Vec<ReviewThread> = Vec::new();
    let mut i: usize = 0;
    while i < review_threads.len()
        invariant
            review_threads@ == raw.review_threads@,
            i <= review_threads@.len(),
            threads@.len() == i,
            forall|q: int| 0 <= q < i ==> thread_from(#[trigger] threads@[q], review_threads@[q]),
        decreases review_threads.len() - i,
    {
        let t = &review_threads[i];
        let n = t.comment_authors.len();
        let last = if n == 0 {
            None
        } else {
            t.comment_authors[n - 1].clone()
        };
        threads.push(ReviewThread { is_resolved: t.is_resolved, last_comment_author: last });
        i = i + 1;
    }
    let mut reviews: Vec<ReviewSubmission> = Vec::new();
    let mut j: usize = 0;
    while j < raw_reviews.len()
        invariant
            raw_reviews@ == raw.reviews@,
            j <= raw_reviews@.len(),
            reviews@.len() == j,
            forall|q: int| 0 <= q < j ==> review_from(#[trigger] reviews@[q], raw_reviews@[q]),
        decreases raw_reviews.len() - j,
    {
        let r = &raw_reviews[j];
        let author = match &r.author {
            Some(a) => a.clone(),
            None => String::new(),
        };
        reviews.push(ReviewSubmission { state: r.state.clone(), author });
        j = j + 1;
    }
    let k = commit_rollups.len();
    let ci = if k == 0 {
        CiState::Unknown
    } else {
        match &commit_rollups[k - 1] {
            Some(state) => ci_from_state(state.as_str()),
            None => CiState::Unknown,
        }
    };
    PrDetail { threads, reviews, ci }
}

/// `ds` is the detail of one chunk of `want` requested PRs read from the
/// `nodes` returned: one detail per node (none for a non-PR node), then empty
/// details for any PR the response left out.
pub open spec fn chunk_details(ds: Seq<PrDetail>, nodes: Seq<Option<RawDetailNode>>, want: nat) -> bool {
    &&& ds.len() == if nodes.len() < want { want } else { nodes.len() }
    &&& forall|i: int| 0 <= i < nodes.len() ==> match nodes[i] {
        Some(raw) => detail_from(#[trigger] ds[i], raw),
        None => ds[i].threads@.len() == 0 && ds[i].reviews@.len() == 0 && ds[i].ci == CiState::Unknown,
    }
    &&& forall|i: int|
        nodes.len() <= i < ds.len() ==> (#[trigger] ds[i]).threads@.len() == 0 && ds[i].reviews@.len() == 0
            && ds[i].ci == CiState::Unknown
}

/// Read the detail nodes returned for a chunk of `want` requested PRs, keeping
/// the details aligned one to one with the request even when the response has
/// fewer nodes than ids.
pub fn details_for_chunk(nodes: Vec<Option<RawDetailNode>>, want: usize) -> (ds: Vec<PrDetail>)
    ensures
        chunk_details(ds@, nodes@, want as nat),
{
    let ghost raw = nodes@;
    let n = nodes.len();
    let mut nodes = nodes;
    let mut rev: Vec<Option<RawDetailNode>> = Vec::new();
    while nodes.len() > 0
        invariant
            n == raw.len(),
            nodes@ == raw.subrange(0, nodes@.len() as int),
            rev@.len() + nodes@.len() == n,
            forall|q: int| 0 <= q < rev@.len() ==> #[trigger] rev@[q] == raw[n - 1 - q],
        decreases nodes.len(),
    {
        let node = nodes.pop().unwrap();
        proof {
            assert(raw.subrange(0, nodes@.len() + 1 as int)[nodes@.len() as int] == raw[nodes@.len() as int]);
        }
        rev.push(node);
        proof {
            assert(nodes@ =~= raw.subrange(0, nodes@.len() as int));
        }
    }
    let mut ds: Vec<PrDetail> = Vec::new();
    while rev.len() > 0
        invariant
            n == raw.len(),
            rev@.len() + ds@.len() == n,
            forall|q: int| 0 <= q < rev@.len() ==> #[trigger] rev@[q] == raw[n - 1 - q],
            forall|i: int| 0 <= i < ds@.len() ==> match raw[i] {
                Some(r) => detail_from(#[trigger] ds@[i], r),
                None => ds@[i].threads@.len() == 0 && ds@[i].reviews@.len() == 0 && ds@[i].ci == CiState::Unknown,
            },
        decreases rev.len(),
    {
        let ghost at = ds@.len() as int;
        let node = rev.pop().unwrap();
        proof {
            assert(node == raw[at]);
        }
        let d = match node {
            Some(raw_node) => detail_from_raw(raw_node),
            None => PrDetail::default(),
        };
        ds.push(d);
    }
    while ds.len() < want
        invariant
            n == raw.len(),
            n <= ds@.len(),
            ds@.len() <= if n < want { want as int } else { n as int },
            forall|i: int| 0 <= i < n ==> match raw[i] {
                Some(r) => detail_from(#[trigger] ds@[i], r),
                None => ds@[i].threads@.len() == 0 && ds@[i].reviews@.len() == 0 && ds@[i].ci == CiState::Unknown,
            },
            forall|i: int|
                n <= i < ds@.len() ==> (#[trigger] ds@[i]).threads@.len() == 0 && ds@[i].reviews@.len() == 0
                    && ds@[i].ci == CiState::Unknown,
        decreases want - ds.len(),
    {
        ds.push(PrDetail::default());
    }
    ds
}

// ---------------------------------------------------------------------------
// Merging searches and detail, and the snapshot
// ---------------------------------------------------------------------------

/// `pr` merges search result `r` with its detail `d`.
pub open spec fn merged(pr: FetchedPr, r: PrRef, d: PrDetail) -> bool {
    &&& pr.number == r.number
    &&& pr.title == r.title
    &&& pr.url == r.url
    &&& pr.author == r.author
    &&& pr.is_draft == r.is_draft
    &&& pr.base_ref == r.base_ref
    &&& pr.head_ref == r.head_ref
    &&& pr.repo_key == r.repo_key
    &&& pr.threads@ == d.threads@
    &&& pr.reviews@ == d.reviews@
    &&& pr.ci == d.ci
}

/// Pair each search result with its detail, in order; a result without a
/// detail (or a detail without a result) is left out.
pub fn fetched_from_parts(refs: &Vec<PrRef>, details: &Vec<PrDetail>) -> (prs: Vec<FetchedPr>)
    ensures
        prs@.len() == if refs@.len() < details@.len() { refs@.len() } else { details@.len() },
        forall|i: int| 0 <= i < prs@.len() ==> merged(#[trigger] prs@[i], refs@[i], details@[i]),
{
    let n = if refs.len() < details.len() { refs.len() } else { details.len() };
    let mut prs: Vec<FetchedPr> = Vec::new();
    let mut i: usize = 0;
    while i < n
        invariant
            n <= refs@.len(),
            n <= details@.len(),
            i <= n,
            prs@.len() == i,
            forall|q: int| 0 <= q < i ==> merged(#[trigger] prs@[q], refs@[q], details@[q]),
        decreases n - i,
    {
        let r = &refs[i];
        let d = &details[i];
        let threads = d.threads.clone();
        let reviews = d.reviews.clone();
        proof {
            assert(threads@ =~= d.threads@);
            assert(reviews@ =~= d.reviews@);
        }
        prs.push(FetchedPr {
            number: r.number,
            title: r.title.clone(),
            url: r.url.clone(),
            author: r.author.clone(),
            is_draft: r.is_draft,
            base_ref: r.base_ref.clone(),
            head_ref: r.head_ref.clone(),
            repo_key: r.repo_key.clone(),
            threads,
            reviews,
            ci: d.ci,
        });
        i = i + 1;
    }
    prs
}

/// The viewer a snapshot is for: the login the fetch reported, else the one
/// looked up separately, else nobody.
pub open spec fn viewer_of(reported: Seq<char>, fallback: Option<String>) -> Seq<char> {
    if reported.len() > 0 {
        reported
    } else {
        match fallback {
            Some(v) => v@,
            None => Seq::<char>::empty(),
        }
    }
}

/// The snapshot of a refresh with no GitHub repository to ask about: nobody's
/// PRs, no stacks, no errors.
pub fn empty_snapshot(fallback_viewer: Option<String>, generated_at: std::time::SystemTime) -> (snap: PrStatusSnapshot)
    ensures
        snap.viewer_login@ == viewer_of(Seq::<char>::empty(), fallback_viewer),
        snap.people@.len() == 0,
        snap.stacks@.len() == 0,
        snap.generated_at == generated_at,
        snap.errors@.len() == 0,
{
    let viewer_login = match fallback_viewer {
        Some(v) => v,
        None => String::new(),
    };
    PrStatusSnapshot {
        viewer_login,
        people: Vec::new(),
        stacks: StackGraph::default(),
        generated_at,
        errors: Vec::new(),
    }
}

/// Whether the fetch left the viewer unknown, so that it must be looked up
/// separately before the snapshot is assembled.
pub fn needs_viewer_lookup(fetched: &Result<(String, Vec<FetchedPr>), String>) -> (r: bool)
    ensures
        r == match fetched {
            Ok((v, _)) => v@.len() == 0,
            Err(_) => true,
        },
{
    match fetched {
        Ok((v, _)) => v.as_str().unicode_len() == 0,
        Err(_) => true,
    }
}

/// Assemble the snapshot from the outcome of the fetch: the PRs grouped per
/// person and their stack graph, or, when the fetch failed, no PRs and the
/// failure as the one error.
pub fn snapshot_from_fetch(
    fetched: Result<(String, Vec<FetchedPr>), String>,
    fallback_viewer: Option<String>,
    generated_at: std::time::SystemTime,
) -> (snap: PrStatusSnapshot)
    ensures
        snap.generated_at == generated_at,
        match fetched {
            Ok((v, prs)) => {
                &&& snap.viewer_login@ == viewer_of(v@, fallback_viewer)
                &&& grouping_ok(snap.people@, prs@, snap.viewer_login@)
                &&& graph_of(snap.stacks@, prs@)
                &&& snap.errors@.len() == 0
            },
            Err(e) => {
                &&& snap.viewer_login@ == viewer_of(Seq::<char>::empty(), fallback_viewer)
                &&& snap.people@.len() == 0
                &&& snap.stacks@.len() == 0
                &&& snap.errors@ == seq![e]
            },
        },
{
    match fetched {
        Ok((v, prs)) => {
            let viewer = if v.as_str().unicode_len() > 0 {
                v
            } else {
                match fallback_viewer {
                    Some(f) => f,
                    None => String::new(),
                }
            };
            let people = aggregate_people(&prs, viewer.as_str());
            let stacks = StackGraph::build(&prs);
            PrStatusSnapshot { viewer_login: viewer, people, stacks, generated_at, errors: Vec::new() }
        },
        Err(e) => {
            let viewer_login = match fallback_viewer {
                Some(f) => f,
                None => String::new(),
            };
            let mut errors: Vec<String> = Vec::new();
            errors.push(e);
            PrStatusSnapshot {
                viewer_login,
                people: Vec::new(),
                stacks: StackGraph::default(),
                generated_at,
                errors,
            }
        },
    }
}

// ---------------------------------------------------------------------------
// Talking to `gh`: queries sent and answers read
// ---------------------------------------------------------------------------

/// `parts` joined with `sep` between each two.
pub open spec fn joined(parts: Seq<Seq<char>>, sep: Seq<char>) -> Seq<char>
    decreases parts.len(),
{
    if parts.len() == 0 {
        Seq::empty()
    } else if parts.len() == 1 {
        parts[0]
    } else {
        joined(parts.drop_last(), sep) + sep + parts.last()
    }
}

/// The texts of a list of strings.
pub open spec fn texts(v: Seq<String>) -> Seq<Seq<char>> {
    v.map_values(|s: String| s@)
}

/// The error a GraphQL answer without data stands for: its error messages
/// joined with "; ", or a generic message when there are none to show.
pub open spec fn graphql_error_of(errors: Option<Vec<String>>) -> Seq<char> {
    match errors {
        Some(es) => if joined(texts(es@), "; "@).len() > 0 {
            joined(texts(es@), "; "@)
        } else {
            "no data in gh response"@
        },
        None => "no data in gh response"@,
    }
}

/// Join texts with a separator.
fn join_strings(parts: &Vec<String>, sep: &str) -> (r: String)
    ensures
        r@ == joined(texts(parts@), sep@),
{
    let mut r = String::new();
    let mut i: usize = 0;
    while i < parts.len()
        invariant
            i <= parts@.len(),
            r@ == joined(texts(parts@.subrange(0, i as int)), sep@),
        decreases parts.len() - i,
    {
        let ghost before = parts@.subrange(0, i as int);
        let ghost after = parts@.subrange(0, i + 1 as int);
        proof {
            assert(texts(after).drop_last() =~= texts(before));
            assert(texts(after).last() == parts@[i as int]@);
        }
        if i > 0 {
            append_str(&mut r, sep);
        }
        append_str(&mut r, parts[i].as_str());
        proof {
            if i == 0 {
                assert(r@ =~= texts(after)[0]);
            } else {
                assert(r@ =~= joined(texts(before), sep@) + sep@ + texts(after).last());
            }
        }
        i = i + 1;
    }
    proof {
        assert(parts@.subrange(0, parts@.len() as int) =~= parts@);
    }
    r
}

/// The message for a GraphQL answer that carries no data.
pub fn graphql_error_message(errors: Option<Vec<String>>) -> (m: String)
    ensures
        m@ == graphql_error_of(errors),
{
    match errors {
        Some(es) => {
            let j = join_strings(&es, "; ");
            if j.as_str().unicode_len() > 0 {
                j
            } else {
                String::from_str("no data in gh response")
            }
        },
        None => String::from_str("no data in gh response"),
    }
}

/// The viewer's login read from `gh`'s output: the trimmed text, unless empty.
pub fn viewer_login_from_output(stdout: &str) -> (r: Option<String>)
    ensures
        match r {
            Some(l) => l@ == trim_ws(stdout@) && l@.len() > 0,
            None => trim_ws(stdout@).len() == 0,
        },
{
    let t = stdout.trim();
    if t.unicode_len() == 0 {
        None
    } else {
        Some(t.to_owned())
    }
}

/// The error of a `gh` run that exited unsuccessfully: its trimmed standard
/// error, or a message naming the exit status when that is empty.
pub fn gh_failure_message(stderr: &str, status: &str) -> (m: String)
    ensures
        m@ == if trim_ws(stderr@).len() > 0 {
            trim_ws(stderr@)
        } else {
            "gh exited unsuccessfully ("@ + status@ + ")"@
        },
{
    let t = stderr.trim();
    if t.unicode_len() > 0 {
        t.to_owned()
    } else {
        let mut m = String::from_str("gh exited unsuccessfully (");
        append_str(&mut m, status);
        append_str(&mut m, ")");
        m
    }
}

/// The review-detail fields asked of each PR.
pub open spec fn detail_fields() -> Seq<char> {
    "reviews(last: 50) { nodes { state author { login } } } reviewThreads(first: 50) { nodes { isResolved comments(last: 1) { nodes { author { login } } } } } commits(last: 1) { nodes { commit { statusCheckRollup { state } } } }"@
}

/// A node id as a GraphQL string literal.
pub open spec fn quoted(id: Seq<char>) -> Seq<char> {
    "\""@ + id + "\""@
}

/// The detail query for the PRs with node ids `ids`, in order.
pub open spec fn detail_query_of(ids: Seq<String>) -> Seq<char> {
    "query=query { nodes(ids: ["@ + joined(texts(ids).map_values(|id: Seq<char>| quoted(id)), ","@)
        + "]) { ... on PullRequest { "@ + detail_fields() + " } } }"@
}

/// Build the query that fetches the review detail of the PRs with node ids
/// `ids` (GitHub answers in the same order).
pub fn detail_query(ids: &Vec<String>) -> (q: String)
    ensures
        q@ == detail_query_of(ids@),
{
    let mut quoted_ids: Vec<String> = Vec::new();
    let mut i: usize = 0;
    while i < ids.len()
        invariant
            i <= ids@.len(),
            quoted_ids@.len() == i,
            forall|k: int| 0 <= k < i ==> (#[trigger] quoted_ids@[k])@ == quoted(ids@[k]@),
        decreases ids.len() - i,
    {
        let mut one = String::from_str("\"");
        append_str(&mut one, ids[i].as_str());
        append_str(&mut one, "\"");
        quoted_ids.push(one);
        i = i + 1;
    }
    proof {
        assert(texts(quoted_ids@) =~= texts(ids@).map_values(|id: Seq<char>| quoted(id)));
    }
    let joined_ids = join_strings(&quoted_ids, ",");
    let mut q = String::from_str("query=query { nodes(ids: [");
    append_str(&mut q, joined_ids.as_str());
    append_str(&mut q, "]) { ... on PullRequest { ");
    append_str(&mut q, "reviews(last: 50) { nodes { state author { login } } } reviewThreads(first: 50) { nodes { isResolved comments(last: 1) { nodes { author { login } } } } } commits(last: 1) { nodes { commit { statusCheckRollup { state } } } }");
    append_str(&mut q, " } } }");
    q
}

} // verus!
