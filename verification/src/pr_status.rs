//! Review status of the user's pull requests and of those they review: which
//! bucket each PR falls in (red: waiting for me, green: approved, grey: waiting
//! on the other side), the per-person grouping the PR pane shows, and the
//! Graphite stack graph that draws parents and children.
use vstd::prelude::*;
use crate::review_pr::ReviewPr;
use crate::stack_graph::{chains_resolve, forest, StackGraph};
use crate::text::{chars_of, lex_lt, str_eq, str_lt, lemma_lex_lt_total, lemma_lex_lt_transitive};

verus! {

/// Which review state a PR is in, from the current user's point of view.
/// Priority when a PR could fit more than one: RED > GREEN > GREY.
#[derive(Debug, Clone, Copy, PartialEq, Eq, Structural)]
pub enum PrBucket {
    /// Waiting for me: an unresolved thread where I wasn't the last to reply,
    /// or (for others' PRs) an unreviewed PR with no threads at all.
    Red,
    /// Approved: others' PRs by me, my PRs by anyone.
    Green,
    /// Waiting on the other side: every unresolved thread has me as the last
    /// replier, or (for my PRs) it is unreviewed.
    Grey,
}

/// The last comment's author on one review thread, plus whether the thread is
/// resolved (resolved threads need no reply, so they don't make a PR red).
#[derive(Debug, PartialEq, Eq)]
pub struct ReviewThread {
    pub is_resolved: bool,
    /// Login of the author of the thread's most recent comment (`None` only for
    /// the degenerate empty thread).
    pub last_comment_author: Option<String>,
}

impl Clone for ReviewThread {
    fn clone(&self) -> (r: Self)
        ensures
            r == *self,
    {
        ReviewThread {
            is_resolved: self.is_resolved,
            last_comment_author: self.last_comment_author.clone(),
        }
    }
}

/// One submitted review on a PR (`APPROVED` / `CHANGES_REQUESTED` / `COMMENTED`
/// / `DISMISSED` / `PENDING`) and who submitted it.
#[derive(Debug, PartialEq, Eq)]
pub struct ReviewSubmission {
    pub state: String,
    pub author: String,
}

impl Clone for ReviewSubmission {
    fn clone(&self) -> (r: Self)
        ensures
            r == *self,
    {
        ReviewSubmission { state: self.state.clone(), author: self.author.clone() }
    }
}

/// CI status of a PR's latest commit, from its status-check rollup.
#[derive(Debug, Clone, Copy, PartialEq, Eq, Structural)]
pub enum CiState {
    /// No checks, or status unknown.
    Unknown,
    /// Checks pending / running.
    Pending,
    /// All checks passed.
    Passing,
    /// At least one check failed or errored.
    Failing,
}

/// No checks is the default CI state.
impl Default for CiState {
    fn default() -> (r: CiState)
        ensures
            r == CiState::Unknown,
    {
        CiState::Unknown
    }
}

/// A fetched PR with everything classification and stacking need.
#[derive(Debug, PartialEq, Eq)]
pub struct FetchedPr {
    pub number: u64,
    pub title: String,
    pub url: String,
    /// The PR author's login.
    pub author: String,
    pub is_draft: bool,
    /// Base branch (`baseRefName`) — the parent edge in a Graphite stack.
    pub base_ref: String,
    /// Head branch (`headRefName`).
    pub head_ref: String,
    /// Owning repository's stable key; scopes stack edges.
    pub repo_key: String,
    pub threads: Vec<ReviewThread>,
    pub reviews: Vec<ReviewSubmission>,
    /// CI status of the PR's latest commit (status-check rollup).
    pub ci: CiState,
}

/// Two fetched PRs carry the same data.
pub open spec fn same_pr(a: FetchedPr, b: FetchedPr) -> bool {
    &&& a.number == b.number
    &&& a.title == b.title
    &&& a.url == b.url
    &&& a.author == b.author
    &&& a.is_draft == b.is_draft
    &&& a.base_ref == b.base_ref
    &&& a.head_ref == b.head_ref
    &&& a.repo_key == b.repo_key
    &&& a.threads@ == b.threads@
    &&& a.reviews@ == b.reviews@
    &&& a.ci == b.ci
}

impl Clone for FetchedPr {
    fn clone(&self) -> (r: Self)
        ensures
            same_pr(r, *self),
    {
        let threads = self.threads.clone();
        let reviews = self.reviews.clone();
        proof {
            assert(threads@ =~= self.threads@);
            assert(reviews@ =~= self.reviews@);
        }
        FetchedPr {
            number: self.number,
            title: self.title.clone(),
            url: self.url.clone(),
            author: self.author.clone(),
            is_draft: self.is_draft,
            base_ref: self.base_ref.clone(),
            head_ref: self.head_ref.clone(),
            repo_key: self.repo_key.clone(),
            threads,
            reviews,
            ci: self.ci,
        }
    }
}

impl FetchedPr {
    /// Adapt to the [`ReviewPr`] the review-mode flow consumes.
    pub fn to_review_pr(&self) -> (r: ReviewPr)
        ensures
            r.number == self.number,
            r.title == self.title,
            r.author == self.author,
            r.head_branch == self.head_ref,
            r.base_branch == self.base_ref,
            r.url == self.url,
            r.graph_prefix@ == Seq::<char>::empty(),
    {
        ReviewPr {
            number: self.number,
            title: self.title.clone(),
            author: self.author.clone(),
            head_branch: self.head_ref.clone(),
            base_branch: self.base_ref.clone(),
            url: self.url.clone(),
            graph_prefix: String::new(),
        }
    }
}

/// An unresolved thread whose last comment is not mine awaits my reply.
pub open spec fn thread_awaits(t: ReviewThread, me: Seq<char>) -> bool {
    !t.is_resolved && match t.last_comment_author {
        Some(a) => a@ != me,
        None => true,
    }
}

/// Some thread of the PR awaits my reply.
pub open spec fn waiting_on_me(pr: FetchedPr, me: Seq<char>) -> bool {
    exists|i: int| 0 <= i < pr.threads@.len() && thread_awaits(#[trigger] pr.threads@[i], me)
}

/// A review that decides something (a comment or a pending review does not).
pub open spec fn meaningful_review(r: ReviewSubmission) -> bool {
    r.state@ != "COMMENTED"@ && r.state@ != "PENDING"@
}

/// The state of `author`'s most recent meaningful review, if any.
pub open spec fn latest_state(reviews: Seq<ReviewSubmission>, author: Seq<char>) -> Option<
    Seq<char>,
>
    decreases reviews.len(),
{
    if reviews.len() == 0 {
        None
    } else {
        let r = reviews.last();
        if meaningful_review(r) && r.author@ == author {
            Some(r.state@)
        } else {
            latest_state(reviews.drop_last(), author)
        }
    }
}

/// Whether the PR counts as approved: for my PRs, anyone's latest
/// meaningful review is `APPROVED`; for others' PRs, only my own.
pub open spec fn is_approved(pr: FetchedPr, me: Seq<char>) -> bool {
    if pr.author@ == me {
        exists|a: Seq<char>| #[trigger] latest_state(pr.reviews@, a) == Some("APPROVED"@)
    } else {
        latest_state(pr.reviews@, me) == Some("APPROVED"@)
    }
}

/// The bucket of a PR for the current user `me`. Priority RED > GREEN > GREY.
pub open spec fn bucket_of(pr: FetchedPr, me: Seq<char>) -> PrBucket {
    if waiting_on_me(pr, me) {
        PrBucket::Red
    } else if pr.author@ != me && pr.threads@.len() == 0 {
        PrBucket::Red
    } else if is_approved(pr, me) {
        PrBucket::Green
    } else {
        PrBucket::Grey
    }
}

/// Each author of a review in `reviews[..upto]` with a meaningful review, paired with the
/// state of their most recent one; no author occurs twice.
pub open spec fn latest_table(
    table: Seq<(String, String)>,
    reviews: Seq<ReviewSubmission>,
) -> bool {
    &&& forall|j: int|
        0 <= j < table.len() ==> latest_state(reviews, (#[trigger] table[j]).0@) == Some(
            table[j].1@,
        )
    &&& forall|a: Seq<char>|
        (#[trigger] latest_state(reviews, a)) is Some ==> exists|j: int|
            0 <= j < table.len() && (#[trigger] table[j]).0@ == a
    &&& forall|j: int, k: int|
        0 <= j < table.len() && 0 <= k < table.len() && j != k ==> (#[trigger] table[j]).0@
            != (#[trigger] table[k]).0@
}

/// One more review changes only its author's latest state.
proof fn lemma_latest_step(before: Seq<ReviewSubmission>, r: ReviewSubmission, a: Seq<char>)
    ensures
        latest_state(before.push(r), a) == (if meaningful_review(r) && r.author@ == a {
            Some(r.state@)
        } else {
            latest_state(before, a)
        }),
{
    assert(before.push(r).drop_last() =~= before);
}

/// A comment or a pending review changes nothing: appending a `COMMENTED`
/// or `PENDING` review to a PR leaves every author's latest deciding review
/// and the PR's bucket as they were (an approval followed only by a comment
/// from the same person still counts as an approval).
pub proof fn lemma_comment_keeps_bucket(pr: FetchedPr, later: FetchedPr, r: ReviewSubmission, me: Seq<char>)
    requires
        later.author == pr.author,
        later.threads@ == pr.threads@,
        later.reviews@ == pr.reviews@.push(r),
        r.state@ == "COMMENTED"@ || r.state@ == "PENDING"@,
    ensures
        forall|a: Seq<char>| #[trigger] latest_state(later.reviews@, a) == latest_state(pr.reviews@, a),
        bucket_of(later, me) == bucket_of(pr, me),
{
    assert forall|a: Seq<char>| #[trigger] latest_state(later.reviews@, a) == latest_state(pr.reviews@, a) by {
        lemma_latest_step(pr.reviews@, r, a);
    }
    assert(waiting_on_me(later, me) == waiting_on_me(pr, me));
    if pr.author@ == me {
        if is_approved(pr, me) {
            let a = choose|a: Seq<char>| #[trigger] latest_state(pr.reviews@, a) == Some("APPROVED"@);
            assert(latest_state(later.reviews@, a) == Some("APPROVED"@));
        }
        if is_approved(later, me) {
            let a = choose|a: Seq<char>| #[trigger] latest_state(later.reviews@, a) == Some("APPROVED"@);
            assert(latest_state(pr.reviews@, a) == Some("APPROVED"@));
        }
    }
}

/// Each author's most recent *meaningful* review state. Reviews arrive
/// oldest-first, so a later one wins; `COMMENTED`/`PENDING` are ignored so a
/// stray comment doesn't override a real APPROVED/CHANGES_REQUESTED.
pub fn latest_state_by_author(pr: &FetchedPr) -> (table: Vec<(String, String)>)
    ensures
        latest_table(table@, pr.reviews@),
{
    let mut table: Vec<(String, String)> = Vec::new();
    let mut i: usize = 0;
    proof {
        assert(pr.reviews@.subrange(0, 0) =~= Seq::<ReviewSubmission>::empty());
    }
    while i < pr.reviews.len()
        invariant
            i <= pr.reviews@.len(),
            latest_table(table@, pr.reviews@.subrange(0, i as int)),
        decreases pr.reviews.len() - i,
    {
        let ghost before = pr.reviews@.subrange(0, i as int);
        let ghost after = pr.reviews@.subrange(0, i + 1);
        let review = &pr.reviews[i];
        proof {
            assert(after =~= before.push(*review));
        }
        let skip = str_eq(review.state.as_str(), "COMMENTED") || str_eq(
            review.state.as_str(),
            "PENDING",
        );
        let ghost old_table = table@;
        if !skip {
            let mut found: Option<usize> = None;
            let mut j: usize = 0;
            while j < table.len()
                invariant_except_break
                    found is None,
                invariant
                    j <= table@.len(),
                    forall|k: int| 0 <= k < j ==> (#[trigger] table@[k]).0@ != review.author@,
                ensures
                    found matches Some(f) ==> f < table@.len() && table@[f as int].0@
                        == review.author@,
                    found is None ==> forall|k: int|
                        0 <= k < table@.len() ==> (#[trigger] table@[k]).0@ != review.author@,
                decreases table.len() - j,
            {
                if table[j].0 == review.author {
                    found = Some(j);
                    break;
                }
                j = j + 1;
            }
            match found {
                Some(j) => {
                    table.set(j, (review.author.clone(), review.state.clone()));
                },
                None => {
                    table.push((review.author.clone(), review.state.clone()));
                },
            }
            proof {
                assert(meaningful_review(*review));
                assert forall|k: int| 0 <= k < table@.len() implies latest_state(
                    after,
                    (#[trigger] table@[k]).0@,
                ) == Some(table@[k].1@) by {
                    lemma_latest_step(before, *review, table@[k].0@);
                    if k < old_table.len() && table@[k] == old_table[k] {
                    }
                }
                assert forall|a: Seq<char>| (#[trigger] latest_state(after, a)) is Some implies exists|
                    j: int,
                | 0 <= j < table@.len() && (#[trigger] table@[j]).0@ == a by {
                    lemma_latest_step(before, *review, a);
                    if a == review.author@ {
                        match found {
                            Some(jj) => {
                                assert(table@[jj as int].0@ == a);
                            },
                            None => {
                                assert(table@[table@.len() - 1].0@ == a);
                            },
                        }
                    } else {
                        assert(latest_state(before, a) is Some);
                        let jj = choose|jj: int|
                            0 <= jj < old_table.len() && (#[trigger] old_table[jj]).0@ == a;
                        assert(table@[jj].0@ == a);
                    }
                }
            }
        } else {
            proof {
                assert forall|a: Seq<char>| #[trigger] latest_state(after, a) == latest_state(
                    before,
                    a,
                ) by {
                    lemma_latest_step(before, *review, a);
                }
            }
        }
        i = i + 1;
    }
    proof {
        assert(pr.reviews@.subrange(0, pr.reviews@.len() as int) =~= pr.reviews@);
    }
    table
}

/// Whether the PR counts as approved (see [`is_approved`]).
pub fn pr_is_approved(pr: &FetchedPr, me: &str, is_mine: bool) -> (r: bool)
    requires
        is_mine == (pr.author@ == me@),
    ensures
        r == is_approved(*pr, me@),
{
    let table = latest_state_by_author(pr);
    let approved = chars_of("APPROVED");
    if is_mine {
        let mut j: usize = 0;
        while j < table.len()
            invariant
                j <= table@.len(),
                approved@ == "APPROVED"@,
                is_mine,
                is_mine == (pr.author@ == me@),
                latest_table(table@, pr.reviews@),
                forall|k: int| 0 <= k < j ==> (#[trigger] table@[k]).1@ != "APPROVED"@,
            decreases table.len() - j,
        {
            if str_eq(table[j].1.as_str(), "APPROVED") {
                proof {
                    let a = table@[j as int].0@;
                    assert(latest_state(pr.reviews@, a) == Some(table@[j as int].1@));
                    assert(table@[j as int].1@ == "APPROVED"@);
                    assert(latest_state(pr.reviews@, a) == Some("APPROVED"@));
                    assert(pr.author@ == me@);
                    assert(is_approved(*pr, me@));
                }
                return true;
            }
            j = j + 1;
        }
        proof {
            assert forall|a: Seq<char>| #[trigger]
                latest_state(pr.reviews@, a) != Some("APPROVED"@) by {
                if latest_state(pr.reviews@, a) is Some {
                    let k = choose|k: int| 0 <= k < table@.len() && (#[trigger] table@[k]).0@ == a;
                    assert(latest_state(pr.reviews@, table@[k].0@) == Some(table@[k].1@));
                }
            }
        }
        false
    } else {
        let mut j: usize = 0;
        while j < table.len()
            invariant
                j <= table@.len(),
                !is_mine,
                is_mine == (pr.author@ == me@),
                latest_table(table@, pr.reviews@),
                forall|k: int| 0 <= k < j ==> (#[trigger] table@[k]).0@ != me@,
            decreases table.len() - j,
        {
            if str_eq(table[j].0.as_str(), me) {
                let r = str_eq(table[j].1.as_str(), "APPROVED");
                proof {
                    assert(latest_state(pr.reviews@, table@[j as int].0@) == Some(
                        table@[j as int].1@,
                    ));
                    assert(pr.author@ != me@);
                    if r {
                        assert(latest_state(pr.reviews@, me@) == Some("APPROVED"@));
                    } else {
                        assert(table@[j as int].1@ != "APPROVED"@);
                        assert(latest_state(pr.reviews@, me@) != Some("APPROVED"@));
                    }
                }
                return r;
            }
            j = j + 1;
        }
        proof {
            if latest_state(pr.reviews@, me@) is Some {
                let k = choose|k: int| 0 <= k < table@.len() && (#[trigger] table@[k]).0@ == me@;
            }
        }
        false
    }
}

/// Classify one PR for the current user (`me`). Priority RED > GREEN > GREY.
///
/// Resolved threads need no reply, so only UNRESOLVED threads drive the
/// last-replier logic; a PR with no review threads at all is "unreviewed".
pub fn classify_pr(pr: &FetchedPr, me: &str) -> (b: PrBucket)
    ensures
        b == bucket_of(*pr, me@),
{
    let is_mine = str_eq(pr.author.as_str(), me);
    let mut waiting = false;
    let mut i: usize = 0;
    while i < pr.threads.len()
        invariant
            i <= pr.threads@.len(),
            waiting == exists|k: int| 0 <= k < i && thread_awaits(#[trigger] pr.threads@[k], me@),
        decreases pr.threads.len() - i,
    {
        let t = &pr.threads[i];
        if !t.is_resolved {
            let not_me = match &t.last_comment_author {
                Some(a) => !str_eq(a.as_str(), me),
                None => true,
            };
            if not_me {
                waiting = true;
            }
        }
        proof {
            if waiting {
                if thread_awaits(pr.threads@[i as int], me@) {
                    assert(thread_awaits(pr.threads@[i as int], me@));
                }
            }
        }
        i = i + 1;
    }
    if waiting {
        return PrBucket::Red;
    }
    if !is_mine && pr.threads.len() == 0 {
        return PrBucket::Red;
    }
    if pr_is_approved(pr, me, is_mine) {
        return PrBucket::Green;
    }
    PrBucket::Grey
}

/// One PR under a person, with its computed bucket.
#[derive(Debug, PartialEq, Eq)]
pub struct PersonPr {
    pub pr: FetchedPr,
    pub bucket: PrBucket,
}

impl Clone for PersonPr {
    fn clone(&self) -> (r: Self)
        ensures
            same_pr(r.pr, self.pr),
            r.bucket == self.bucket,
    {
        PersonPr { pr: self.pr.clone(), bucket: self.bucket }
    }
}

/// All of one person's PRs (mine, or one reviewing-author's), with bucket tallies.
#[derive(Debug, PartialEq, Eq)]
pub struct PersonPrs {
    pub login: String,
    pub is_me: bool,
    pub prs: Vec<PersonPr>,
    pub red: usize,
    pub green: usize,
    pub grey: usize,
    /// PRs with failing CI — independent of red/green/grey (a PR can be both).
    pub ci: usize,
}

/// The PRs of `prs` written by `login`, in order.
pub open spec fn authored_by(prs: Seq<FetchedPr>, login: Seq<char>) -> Seq<FetchedPr>
    decreases prs.len(),
{
    if prs.len() == 0 {
        Seq::empty()
    } else {
        let rest = authored_by(prs.drop_last(), login);
        if prs.last().author@ == login {
            rest.push(prs.last())
        } else {
            rest
        }
    }
}

/// How many of `s` are in bucket `b`.
pub open spec fn count_bucket(s: Seq<PersonPr>, b: PrBucket) -> nat
    decreases s.len(),
{
    if s.len() == 0 {
        0
    } else {
        count_bucket(s.drop_last(), b) + if s.last().bucket == b {
            1nat
        } else {
            0nat
        }
    }
}

/// How many of `s` have failing CI.
pub open spec fn count_failing(s: Seq<PersonPr>) -> nat
    decreases s.len(),
{
    if s.len() == 0 {
        0
    } else {
        count_failing(s.drop_last()) + if s.last().pr.ci == CiState::Failing {
            1nat
        } else {
            0nat
        }
    }
}

/// `p` is the grouping of `login`'s PRs among `prs`: each one classified for
/// `viewer`, in the order they came, with the bucket and failing-CI tallies.
pub open spec fn person_ok(p: PersonPrs, prs: Seq<FetchedPr>, viewer: Seq<char>) -> bool {
    let mine = authored_by(prs, p.login@);
    &&& p.is_me == (p.login@ == viewer)
    &&& mine.len() > 0
    &&& p.prs@.len() == mine.len()
    &&& forall|k: int|
        0 <= k < mine.len() ==> same_pr((#[trigger] p.prs@[k]).pr, mine[k]) && p.prs@[k].bucket
            == bucket_of(mine[k], viewer)
    &&& p.red == count_bucket(p.prs@, PrBucket::Red)
    &&& p.green == count_bucket(p.prs@, PrBucket::Green)
    &&& p.grey == count_bucket(p.prs@, PrBucket::Grey)
    &&& p.ci == count_failing(p.prs@)
}

/// Display order among the other people: most red first, then by login.
pub open spec fn ranked_before(a: PersonPrs, b: PersonPrs) -> bool {
    a.red > b.red || (a.red == b.red && lex_lt(a.login@, b.login@))
}

/// No login occurs twice.
pub open spec fn distinct_logins(people: Seq<PersonPrs>) -> bool {
    forall|i: int, j: int|
        0 <= i < people.len() && 0 <= j < people.len() && i != j ==> (#[trigger] people[i]).login@
            != (#[trigger] people[j]).login@
}

/// Some entry of `people` is `login`'s.
pub open spec fn covers(people: Seq<PersonPrs>, login: Seq<char>) -> bool {
    exists|k: int| 0 <= k < people.len() && (#[trigger] people[k]).login@ == login
}

/// `people` is exactly the per-author grouping of `prs` for `viewer`: one entry
/// per author, me first (when I wrote any), the others most-red first, then by
/// login.
pub open spec fn grouping_ok(people: Seq<PersonPrs>, prs: Seq<FetchedPr>, viewer: Seq<char>) -> bool {
    &&& forall|k: int| 0 <= k < people.len() ==> person_ok(#[trigger] people[k], prs, viewer)
    &&& distinct_logins(people)
    &&& forall|j: int| 0 <= j < prs.len() ==> #[trigger] covers(people, prs[j].author@)
    &&& forall|k: int| 0 <= k < people.len() && (#[trigger] people[k]).is_me ==> k == 0
    &&& forall|i: int, j: int|
        0 <= i < j < people.len() && !(#[trigger] people[i]).is_me ==> ranked_before(
            people[i],
            #[trigger] people[j],
        )
}

proof fn lemma_authored_step(prs: Seq<FetchedPr>, pr: FetchedPr, login: Seq<char>)
    ensures
        authored_by(prs.push(pr), login) == (if pr.author@ == login {
            authored_by(prs, login).push(pr)
        } else {
            authored_by(prs, login)
        }),
{
    assert(prs.push(pr).drop_last() =~= prs);
}

proof fn lemma_count_step(s: Seq<PersonPr>, x: PersonPr)
    ensures
        count_bucket(s.push(x), PrBucket::Red) == count_bucket(s, PrBucket::Red) + if x.bucket
            == PrBucket::Red {
            1nat
        } else {
            0nat
        },
        count_bucket(s.push(x), PrBucket::Green) == count_bucket(s, PrBucket::Green) + if x.bucket
            == PrBucket::Green {
            1nat
        } else {
            0nat
        },
        count_bucket(s.push(x), PrBucket::Grey) == count_bucket(s, PrBucket::Grey) + if x.bucket
            == PrBucket::Grey {
            1nat
        } else {
            0nat
        },
        count_failing(s.push(x)) == count_failing(s) + if x.pr.ci == CiState::Failing {
            1nat
        } else {
            0nat
        },
{
    assert(s.push(x).drop_last() =~= s);
}

proof fn lemma_counts_bounded(s: Seq<PersonPr>)
    ensures
        count_bucket(s, PrBucket::Red) <= s.len(),
        count_bucket(s, PrBucket::Green) <= s.len(),
        count_bucket(s, PrBucket::Grey) <= s.len(),
        count_failing(s) <= s.len(),
    decreases s.len(),
{
    if s.len() > 0 {
        lemma_counts_bounded(s.drop_last());
    }
}

proof fn lemma_authored_len(prs: Seq<FetchedPr>, login: Seq<char>)
    ensures
        authored_by(prs, login).len() <= prs.len(),
        authored_by(prs, login).len() > 0 <==> exists|j: int|
            0 <= j < prs.len() && (#[trigger] prs[j]).author@ == login,
    decreases prs.len(),
{
    if prs.len() > 0 {
        lemma_authored_len(prs.drop_last(), login);
        if exists|j: int| 0 <= j < prs.drop_last().len() && (#[trigger] prs.drop_last()[j]).author@ == login {
            let j = choose|j: int| 0 <= j < prs.drop_last().len() && (#[trigger] prs.drop_last()[j]).author@ == login;
            assert(prs[j].author@ == login);
        }
        if exists|j: int| 0 <= j < prs.len() && (#[trigger] prs[j]).author@ == login {
            let j = choose|j: int| 0 <= j < prs.len() && (#[trigger] prs[j]).author@ == login;
            if j < prs.len() - 1 {
                assert(prs.drop_last()[j].author@ == login);
            }
        }
    }
}

/// Both equal PR data classify the same way.
proof fn lemma_bucket_same(a: FetchedPr, b: FetchedPr, viewer: Seq<char>)
    requires
        same_pr(a, b),
    ensures
        bucket_of(a, viewer) == bucket_of(b, viewer),
{
    assert(waiting_on_me(a, viewer) == waiting_on_me(b, viewer));
    assert(is_approved(a, viewer) == is_approved(b, viewer));
}

/// Take `v[j]` out, leaving the rest in place.
fn take_at(v: &mut Vec<PersonPrs>, j: usize) -> (x: PersonPrs)
    requires
        j < old(v)@.len(),
    ensures
        x == old(v)@[j as int],
        final(v)@ == old(v)@.remove(j as int),
{
    v.remove(j)
}

/// Group PRs by author (me first, others most-red first), classifying each.
pub fn aggregate_people(prs: &Vec<FetchedPr>, viewer: &str) -> (people: Vec<PersonPrs>)
    ensures
        grouping_ok(people@, prs@, viewer@),
{
    // Phase 1: group in order of first appearance.
    let mut groups: Vec<PersonPrs> = Vec::new();
    let mut i: usize = 0;
    while i < prs.len()
        invariant
            i <= prs@.len(),
            forall|k: int|
                0 <= k < groups@.len() ==> person_ok(
                    #[trigger] groups@[k],
                    prs@.subrange(0, i as int),
                    viewer@,
                ),
            distinct_logins(groups@),
            forall|j: int| 0 <= j < i ==> #[trigger] covers(groups@, prs@[j].author@),
        decreases prs.len() - i,
    {
        let ghost before = prs@.subrange(0, i as int);
        let ghost after = prs@.subrange(0, i + 1);
        let pr = &prs[i];
        proof {
            assert(after =~= before.push(*pr));
            lemma_authored_len(before, pr.author@);
        }
        let bucket = classify_pr(pr, viewer);
        let entry = PersonPr { pr: pr.clone(), bucket };
        proof {
            lemma_bucket_same(entry.pr, *pr, viewer@);
        }
        let mut found: Option<usize> = None;
        let mut j: usize = 0;
        while j < groups.len()
            invariant_except_break
                found is None,
            invariant
                j <= groups@.len(),
                forall|k: int| 0 <= k < j ==> (#[trigger] groups@[k]).login@ != pr.author@,
            ensures
                found matches Some(f) ==> f < groups@.len() && groups@[f as int].login@ == pr.author@,
                found is None ==> forall|k: int|
                    0 <= k < groups@.len() ==> (#[trigger] groups@[k]).login@ != pr.author@,
            decreases groups.len() - j,
        {
            if groups[j].login == pr.author {
                found = Some(j);
                break;
            }
            j = j + 1;
        }
        let ghost old_groups = groups@;
        match found {
            Some(j) => {
                let mut g = take_at(&mut groups, j);
                let ghost old_g = g;
                proof {
                    lemma_counts_bounded(g.prs@);
                    lemma_authored_len(before, g.login@);
                    lemma_authored_step(before, *pr, g.login@);
                }
                match bucket {
                    PrBucket::Red => { g.red = g.red + 1; },
                    PrBucket::Green => { g.green = g.green + 1; },
                    PrBucket::Grey => { g.grey = g.grey + 1; },
                }
                if pr.ci == CiState::Failing {
                    g.ci = g.ci + 1;
                }
                g.prs.push(entry);
                proof {
                    lemma_count_step(old_g.prs@, entry);
                    assert(person_ok(g, after, viewer@));
                }
                groups.insert(j, g);
                proof {
                    assert forall|k: int| 0 <= k < groups@.len() implies person_ok(
                        #[trigger] groups@[k],
                        after,
                        viewer@,
                    ) by {
                        if k != j {
                            assert(groups@[k] == old_groups[k]);
                            lemma_authored_step(before, *pr, groups@[k].login@);
                        }
                    }
                    assert(distinct_logins(groups@)) by {
                        assert forall|a: int, b: int|
                            0 <= a < groups@.len() && 0 <= b < groups@.len() && a != b implies (
                        #[trigger] groups@[a]).login@ != (#[trigger] groups@[b]).login@ by {
                            assert(groups@[a].login == old_groups[a].login);
                            assert(groups@[b].login == old_groups[b].login);
                        }
                    }
                    assert forall|jj: int| 0 <= jj < i + 1 implies #[trigger] covers(groups@, prs@[jj].author@) by {
                        if jj == i {
                            assert(groups@[j as int].login@ == prs@[jj].author@);
                        } else {
                            assert(covers(old_groups, prs@[jj].author@));
                            let k = choose|k: int|
                                0 <= k < old_groups.len() && (#[trigger] old_groups[k]).login@
                                    == prs@[jj].author@;
                            assert(groups@[k].login == old_groups[k].login);
                            assert(groups@[k].login@ == prs@[jj].author@);
                        }
                    }
                }
            },
            None => {
                let mut g = PersonPrs {
                    login: pr.author.clone(),
                    is_me: str_eq(pr.author.as_str(), viewer),
                    prs: Vec::new(),
                    red: 0,
                    green: 0,
                    grey: 0,
                    ci: 0,
                };
                match bucket {
                    PrBucket::Red => { g.red = 1; },
                    PrBucket::Green => { g.green = 1; },
                    PrBucket::Grey => { g.grey = 1; },
                }
                if pr.ci == CiState::Failing {
                    g.ci = 1;
                }
                let ghost empty_prs = g.prs@;
                g.prs.push(entry);
                proof {
                    if authored_by(before, pr.author@).len() > 0 {
                        let jj = choose|jj: int|
                            0 <= jj < before.len() && (#[trigger] before[jj]).author@ == pr.author@;
                        assert(before[jj] == prs@[jj]);
                        assert(covers(old_groups, prs@[jj].author@));
                        let k = choose|k: int|
                            0 <= k < old_groups.len() && (#[trigger] old_groups[k]).login@
                                == prs@[jj].author@;
                        assert(false);
                    }
                    assert(empty_prs =~= Seq::<PersonPr>::empty());
                    lemma_count_step(empty_prs, entry);
                    assert(authored_by(before, pr.author@).len() == 0);
                    lemma_authored_step(before, *pr, pr.author@);
                    assert(authored_by(after, pr.author@) =~= seq![*pr]);
                    assert(person_ok(g, after, viewer@));
                }
                groups.push(g);
                proof {
                    assert forall|k: int| 0 <= k < groups@.len() implies person_ok(
                        #[trigger] groups@[k],
                        after,
                        viewer@,
                    ) by {
                        if k < old_groups.len() {
                            assert(groups@[k] == old_groups[k]);
                            lemma_authored_step(before, *pr, groups@[k].login@);
                        }
                    }
                    assert forall|jj: int| 0 <= jj < i + 1 implies #[trigger] covers(groups@, prs@[jj].author@) by {
                        if jj == i {
                            assert(groups@[old_groups.len() as int].login@ == prs@[jj].author@);
                        } else {
                            assert(covers(old_groups, prs@[jj].author@));
                            let k = choose|k: int|
                                0 <= k < old_groups.len() && (#[trigger] old_groups[k]).login@
                                    == prs@[jj].author@;
                            assert(groups@[k] == old_groups[k]);
                            assert(groups@[k].login@ == prs@[jj].author@);
                        }
                    }
                }
            },
        }
        i = i + 1;
    }
    proof {
        assert(prs@.subrange(0, prs@.len() as int) =~= prs@);
    }
    // Phase 2: me first, the others in rank order.
    let ghost g0 = groups@;
    let n = groups.len();
    let mut me_idx: Option<usize> = None;
    let mut k: usize = 0;
    while k < n
        invariant_except_break
            me_idx is None,
        invariant
            n == g0.len(),
            groups@ == g0,
            k <= n,
            forall|q: int| 0 <= q < k ==> !(#[trigger] g0[q]).is_me,
        ensures
            me_idx matches Some(m) ==> m < n && g0[m as int].is_me,
            me_idx is None ==> forall|q: int| 0 <= q < n ==> !(#[trigger] g0[q]).is_me,
        decreases n - k,
    {
        if groups[k].is_me {
            me_idx = Some(k);
            break;
        }
        k = k + 1;
    }
    // Indices of the others, kept in rank order by insertion.
    let mut order: Vec<usize> = Vec::new();
    let mut i: usize = 0;
    while i < n
        invariant
            n == g0.len(),
            groups@ == g0,
            i <= n,
            distinct_logins(g0),
            me_idx matches Some(m) ==> m < n && g0[m as int].is_me,
            forall|q: int| 0 <= q < n && (#[trigger] g0[q]).is_me ==> me_idx == Some(q as usize),
            forall|a: int| 0 <= a < order@.len() ==> (#[trigger] order@[a]) < i && !g0[order@[a] as int].is_me,
            forall|a: int, b: int|
                0 <= a < order@.len() && 0 <= b < order@.len() && a != b ==> #[trigger] order@[a]
                    != #[trigger] order@[b],
            forall|q: int|
                0 <= q < i && !(#[trigger] g0[q]).is_me ==> exists|a: int|
                    0 <= a < order@.len() && order@[a] == q,
            forall|a: int, b: int|
                0 <= a < b < order@.len() ==> ranked_before(
                    g0[#[trigger] order@[a] as int],
                    g0[#[trigger] order@[b] as int],
                ),
        decreases n - i,
    {
        if !groups[i].is_me {
            let g = &groups[i];
            let mut pos: usize = 0;
            while pos < order.len()
                invariant
                    n == g0.len(),
                    groups@ == g0,
                    i < n,
                    *g == g0[i as int],
                    pos <= order@.len(),
                    forall|a: int| 0 <= a < order@.len() ==> (#[trigger] order@[a]) < i,
                    distinct_logins(g0),
                    forall|a: int| 0 <= a < pos ==> ranked_before(g0[#[trigger] order@[a] as int], *g),
                ensures
                    pos <= order@.len(),
                    forall|a: int| 0 <= a < pos ==> ranked_before(g0[#[trigger] order@[a] as int], *g),
                    pos < order@.len() ==> ranked_before(*g, g0[order@[pos as int] as int]),
                decreases order.len() - pos,
            {
                let o = &groups[order[pos]];
                let ahead = g.red > o.red || (g.red == o.red && str_lt(
                    g.login.as_str(),
                    o.login.as_str(),
                ));
                if ahead {
                    break;
                }
                proof {
                    assert(g0[order@[pos as int] as int].login@ != g.login@);
                    lemma_lex_lt_total(g.login@, o.login@);
                }
                pos = pos + 1;
            }
            let ghost old_order = order@;
            proof {
                if pos < old_order.len() {
                    assert(ranked_before(*g, g0[old_order[pos as int] as int]));
                }
            }
            order.insert(pos, i);
            proof {
                assert(order@ =~= old_order.insert(pos as int, i));
                assert forall|a: int, b: int| 0 <= a < b < order@.len() implies ranked_before(
                    g0[#[trigger] order@[a] as int],
                    g0[#[trigger] order@[b] as int],
                ) by {
                    if b < pos {
                        assert(order@[a] == old_order[a] && order@[b] == old_order[b]);
                    } else if b == pos {
                        assert(order@[a] == old_order[a]);
                    } else if a < pos {
                        assert(order@[a] == old_order[a] && order@[b] == old_order[b - 1]);
                        lemma_ranked_transitive(g0[old_order[a] as int], *g, g0[old_order[pos as int] as int]);
                        if b - 1 > pos {
                            lemma_ranked_transitive(g0[old_order[a] as int], g0[old_order[pos as int] as int], g0[old_order[b - 1] as int]);
                        }
                    } else if a == pos {
                        assert(order@[b] == old_order[b - 1]);
                        if b - 1 > pos {
                            lemma_ranked_transitive(*g, g0[old_order[pos as int] as int], g0[old_order[b - 1] as int]);
                        }
                    } else {
                        assert(order@[a] == old_order[a - 1] && order@[b] == old_order[b - 1]);
                    }
                }
                assert forall|q: int|
                    0 <= q < i + 1 && !(#[trigger] g0[q]).is_me implies exists|a: int|
                        0 <= a < order@.len() && order@[a] == q by {
                    if q == i {
                        assert(order@[pos as int] == q);
                    } else {
                        let a = choose|a: int| 0 <= a < old_order.len() && old_order[a] == q;
                        if a < pos {
                            assert(order@[a] == q);
                        } else {
                            assert(order@[a + 1] == q);
                        }
                    }
                }
                assert forall|a: int, b: int|
                    0 <= a < order@.len() && 0 <= b < order@.len() && a != b implies #[trigger] order@[a]
                        != #[trigger] order@[b] by {
                    let aa = if a < pos { a } else if a == pos { -1 } else { a - 1 };
                    let bb = if b < pos { b } else if b == pos { -1 } else { b - 1 };
                    if aa >= 0 { assert(order@[a] == old_order[aa]); }
                    if bb >= 0 { assert(order@[b] == old_order[bb]); }
                }
            }
        }
        i = i + 1;
    }
    // Move the groups out into the result, in the chosen order.
    let mut slots: Vec<Option<PersonPrs>> = Vec::new();
    while groups.len() > 0
        invariant
            n == g0.len(),
            slots@.len() + groups@.len() == n,
            groups@ == g0.subrange(slots@.len() as int, n as int),
            forall|q: int| 0 <= q < slots@.len() ==> #[trigger] slots@[q] == Some(g0[q]),
        decreases groups@.len(),
    {
        let ghost before = groups@;
        let x = take_at(&mut groups, 0);
        proof {
            assert(groups@ =~= g0.subrange(slots@.len() + 1int, n as int));
        }
        slots.push(Some(x));
    }
    let mut people: Vec<PersonPrs> = Vec::new();
    if let Some(m) = me_idx {
        let x = slots.remove(m);
        slots.insert(m, None);
        match x {
            Some(p) => people.push(p),
            None => {},
        }
    }
    let offset = people.len();
    let mut a: usize = 0;
    while a < order.len()
        invariant
            n == g0.len(),
            slots@.len() == n,
            a <= order@.len(),
            offset <= 1,
            me_idx is None ==> offset == 0,
            me_idx matches Some(m) ==> offset == 1 && people@[0] == g0[m as int] && m < n,
            people@.len() == offset + a,
            forall|q: int| 0 <= q < order@.len() ==> (#[trigger] order@[q]) < n && !g0[order@[q] as int].is_me,
            forall|q: int, r: int|
                0 <= q < order@.len() && 0 <= r < order@.len() && q != r ==> #[trigger] order@[q]
                    != #[trigger] order@[r],
            forall|q: int| a <= q < order@.len() ==> slots@[#[trigger] order@[q] as int] == Some(g0[order@[q] as int]),
            forall|q: int| 0 <= q < a ==> people@[offset + q] == g0[#[trigger] order@[q] as int],
        decreases order.len() - a,
    {
        let idx = order[a];
        let x = slots.remove(idx);
        slots.insert(idx, None);
        proof {
            assert forall|q: int| a + 1 <= q < order@.len() implies slots@[#[trigger] order@[q] as int] == Some(g0[order@[q] as int]) by {
                assert(order@[q] != order@[a as int]);
            }
        }
        match x {
            Some(p) => people.push(p),
            None => {},
        }
        a = a + 1;
    }
    proof {
        let out = people@;
        assert forall|q: int| 0 <= q < out.len() implies person_ok(#[trigger] out[q], prs@, viewer@) by {
            if q >= offset {
                assert(out[q] == g0[order@[q - offset] as int]);
            }
        }
        assert(distinct_logins(out)) by {
            assert forall|x: int, y: int|
                0 <= x < out.len() && 0 <= y < out.len() && x != y implies (#[trigger] out[x]).login@
                    != (#[trigger] out[y]).login@ by {
                let gx = if x < offset { me_idx.unwrap() as int } else { order@[x - offset] as int };
                let gy = if y < offset { me_idx.unwrap() as int } else { order@[y - offset] as int };
                assert(out[x] == g0[gx]);
                assert(out[y] == g0[gy]);
                if x >= offset && y >= offset {
                    assert(order@[x - offset] != order@[y - offset]);
                }
            }
        }
        assert forall|j: int| 0 <= j < prs@.len() implies #[trigger] covers(out, prs@[j].author@) by {
            assert(covers(g0, prs@[j].author@));
            let kk = choose|kk: int| 0 <= kk < g0.len() && (#[trigger] g0[kk]).login@ == prs@[j].author@;
            if g0[kk].is_me {
                assert(out[0] == g0[kk]);
                assert(out[0].login@ == prs@[j].author@);
            } else {
                let aa = choose|aa: int| 0 <= aa < order@.len() && order@[aa] == kk;
                assert(out[offset + aa] == g0[kk]);
                assert(out[offset + aa].login@ == prs@[j].author@);
            }
        }
        assert forall|q: int| 0 <= q < out.len() && (#[trigger] out[q]).is_me implies q == 0 by {
            if q >= offset {
                assert(out[q] == g0[order@[q - offset] as int]);
            }
        }
        assert forall|x: int, y: int|
            0 <= x < y < out.len() && !(#[trigger] out[x]).is_me implies ranked_before(
                out[x],
                #[trigger] out[y],
            ) by {
            assert(x >= offset);
            assert(out[x] == g0[order@[x - offset] as int]);
            assert(out[y] == g0[order@[y - offset] as int]);
        }
    }
    people
}

/// `ranked_before` is transitive.
proof fn lemma_ranked_transitive(a: PersonPrs, b: PersonPrs, c: PersonPrs)
    requires
        ranked_before(a, b),
        ranked_before(b, c),
    ensures
        ranked_before(a, c),
{
    if a.red == b.red && b.red == c.red {
        lemma_lex_lt_transitive(a.login@, b.login@, c.login@);
    }
}

/// The wall-clock time a snapshot was taken.
#[verifier::external_type_specification]
#[verifier::external_body]
pub struct ExSystemTime(std::time::SystemTime);

/// The immutable snapshot the PR pane renders.
pub struct PrStatusSnapshot {
    pub viewer_login: String,
    /// Me first, then reviewing authors (most-red first).
    pub people: Vec<PersonPrs>,
    /// Full parent/child graph across all fetched PRs, independent of buckets.
    pub stacks: StackGraph,
    pub generated_at: std::time::SystemTime,
    /// Per-repo fetch failures (repo label + message); drives a "stale" badge.
    pub errors: Vec<String>,
}

/// Whether a PR in bucket `b` is shown: red always, green and grey by toggle.
pub open spec fn shows(b: PrBucket, show_green: bool, show_grey: bool) -> bool {
    match b {
        PrBucket::Red => true,
        PrBucket::Green => show_green,
        PrBucket::Grey => show_grey,
    }
}

/// The last of `pp[..upto]` whose PR has key `(repo, number)`.
pub open spec fn last_person_pr(pp: Seq<PersonPr>, repo: Seq<char>, number: u64, upto: int) -> Option<int>
    decreases upto,
{
    if upto <= 0 {
        None
    } else if pp[upto - 1].pr.repo_key@ == repo && pp[upto - 1].pr.number == number {
        Some(upto - 1)
    } else {
        last_person_pr(pp, repo, number, upto - 1)
    }
}

/// Which graph nodes are visible for a person: those that are one of the
/// person's PRs in a shown bucket.
pub open spec fn person_flags(
    nodes: Seq<crate::stack_graph::StackNode>,
    pp: Seq<PersonPr>,
    show_green: bool,
    show_grey: bool,
) -> Seq<bool> {
    Seq::new(
        nodes.len(),
        |k: int|
            match last_person_pr(pp, nodes[k].repo_key@, nodes[k].number, pp.len() as int) {
                Some(i) => shows(pp[i].bucket, show_green, show_grey),
                None => false,
            },
    )
}

/// The first person with login `login`, from index `i` on.
pub open spec fn find_person(people: Seq<PersonPrs>, login: Seq<char>, i: int) -> Option<int>
    decreases people.len() - i,
{
    if i < 0 || i >= people.len() {
        None
    } else if people[i].login@ == login {
        Some(i)
    } else {
        find_person(people, login, i + 1)
    }
}

/// Rendered forest rows paired with the person's PR of the row's key (rows
/// with no such PR are left out): `(prefix, index into the person's PRs)`.
pub open spec fn person_rows(
    f: Seq<(int, Seq<char>)>,
    nodes: Seq<crate::stack_graph::StackNode>,
    pp: Seq<PersonPr>,
) -> Seq<(Seq<char>, int)>
    decreases f.len(),
{
    if f.len() == 0 {
        Seq::empty()
    } else {
        let rest = person_rows(f.drop_last(), nodes, pp);
        let row = f.last();
        match last_person_pr(pp, nodes[row.0].repo_key@, nodes[row.0].number, pp.len() as int) {
            Some(i) => rest.push((row.1, i)),
            None => rest,
        }
    }
}

/// The person's PR rows the pane shows, for the person at `p` of the snapshot.
pub open spec fn visible_rows_of(snap: PrStatusSnapshot, p: int, show_green: bool, show_grey: bool) -> Seq<(Seq<char>, int)> {
    let pp = snap.people@[p].prs@;
    person_rows(
        forest(snap.stacks@, person_flags(snap.stacks@, pp, show_green, show_grey)),
        snap.stacks@,
        pp,
    )
}

/// The last of `pp` whose PR has key `(repo, number)`.
fn find_person_pr(pp: &Vec<PersonPr>, repo: &String, number: u64) -> (r: Option<usize>)
    ensures
        opt_usize_int(r) == last_person_pr(pp@, repo@, number, pp@.len() as int),
        r matches Some(i) ==> i < pp@.len(),
{
    let mut upto: usize = pp.len();
    while upto > 0
        invariant
            upto <= pp@.len(),
            last_person_pr(pp@, repo@, number, pp@.len() as int) == last_person_pr(pp@, repo@, number, upto as int),
        decreases upto,
    {
        let q = &pp[upto - 1];
        if q.pr.number == number && q.pr.repo_key == *repo {
            return Some(upto - 1);
        }
        upto = upto - 1;
    }
    None
}

/// An index as an integer.
pub open spec fn opt_usize_int(o: Option<usize>) -> Option<int> {
    match o {
        Some(u) => Some(u as int),
        None => None,
    }
}

impl PrStatusSnapshot {
    /// Stack-ordered visible PRs for one person, honoring the green/grey toggles
    /// (red is always shown). Returns `(connector_prefix, PersonPr)` rows where
    /// the prefix is the box-drawing stack art (`├ `, `└─┬ `, `│ └ `, …); a
    /// hidden PR's visible descendants re-parent onto the nearest visible
    /// ancestor, and roots are grouped by repo.
    pub fn visible_person_rows(&self, login: &str, show_green: bool, show_grey: bool) -> (rows: Vec<(String, PersonPr)>)
        requires
            find_person(self.people@, login@, 0) matches Some(p) ==> chains_resolve(
                self.stacks@,
                person_flags(self.stacks@, self.people@[p].prs@, show_green, show_grey),
            ),
        ensures
            match find_person(self.people@, login@, 0) {
                None => rows@.len() == 0,
                Some(p) => {
                    let want = visible_rows_of(*self, p, show_green, show_grey);
                    &&& rows@.len() == want.len()
                    &&& forall|j: int|
                        0 <= j < rows@.len() ==> (#[trigger] rows@[j]).0@ == want[j].0 && same_pr(
                            rows@[j].1.pr,
                            self.people@[p].prs@[want[j].1].pr,
                        ) && rows@[j].1.bucket == self.people@[p].prs@[want[j].1].bucket
                },
            },
    {
        let mut p: usize = 0;
        while p < self.people.len()
            invariant
                p <= self.people@.len(),
                find_person(self.people@, login@, 0) == find_person(self.people@, login@, p as int),
            ensures
                p <= self.people@.len(),
                find_person(self.people@, login@, 0) == find_person(self.people@, login@, p as int),
                p < self.people@.len() ==> self.people@[p as int].login@ == login@,
            decreases self.people.len() - p,
        {
            if str_eq(self.people[p].login.as_str(), login) {
                break;
            }
            p = p + 1;
        }
        if p >= self.people.len() {
            return Vec::new();
        }
        let person = &self.people[p];
        proof {
            assert(find_person(self.people@, login@, 0) == Some(p as int));
        }
        let graph = &self.stacks;
        let n = graph.node_count();
        let ghost nodes = graph@;
        let ghost want_flags = person_flags(nodes, person.prs@, show_green, show_grey);
        let mut flags: Vec<bool> = Vec::new();
        let mut k: usize = 0;
        while k < n
            invariant
                n == nodes.len(),
                nodes == graph@,
                want_flags == person_flags(nodes, person.prs@, show_green, show_grey),
                k <= n,
                flags@ == want_flags.subrange(0, k as int),
            decreases n - k,
        {
            let (repo, number) = graph.node_key_at(k);
            let found = find_person_pr(&person.prs, repo, number);
            let b = match found {
                Some(i) => match person.prs[i].bucket {
                    PrBucket::Red => true,
                    PrBucket::Green => show_green,
                    PrBucket::Grey => show_grey,
                },
                None => false,
            };
            flags.push(b);
            proof {
                assert(flags@ =~= want_flags.subrange(0, k + 1));
            }
            k = k + 1;
        }
        proof {
            assert(flags@ =~= want_flags);
        }
        let forest_rows = graph.visible_forest_flags(&flags);
        let ghost f = forest(nodes, want_flags);
        let mut rows: Vec<(String, PersonPr)> = Vec::new();
        let mut j: usize = 0;
        while j < forest_rows.len()
            invariant
                nodes == graph@,
                f == forest(nodes, want_flags),
                crate::stack_graph::rows_match(forest_rows@, nodes, f),
                j <= forest_rows@.len(),
                rows@.len() == person_rows(f.subrange(0, j as int), nodes, person.prs@).len(),
                forall|q: int|
                    0 <= q < rows@.len() ==> (#[trigger] rows@[q]).0@ == person_rows(
                        f.subrange(0, j as int),
                        nodes,
                        person.prs@,
                    )[q].0 && same_pr(
                        rows@[q].1.pr,
                        person.prs@[person_rows(f.subrange(0, j as int), nodes, person.prs@)[q].1].pr,
                    ) && rows@[q].1.bucket == person.prs@[person_rows(
                        f.subrange(0, j as int),
                        nodes,
                        person.prs@,
                    )[q].1].bucket,
                forall|q: int|
                    0 <= q < person_rows(f.subrange(0, j as int), nodes, person.prs@).len() ==> 0 <= (
                    #[trigger] person_rows(f.subrange(0, j as int), nodes, person.prs@)[q]).1
                        < person.prs@.len(),
            decreases forest_rows.len() - j,
        {
            let row = &forest_rows[j];
            let ghost before = person_rows(f.subrange(0, j as int), nodes, person.prs@);
            proof {
                assert(f.subrange(0, j + 1).drop_last() =~= f.subrange(0, j as int));
                assert(f.subrange(0, j + 1).last() == f[j as int]);
            }
            let found = find_person_pr(&person.prs, &row.key.0, row.key.1);
            match found {
                Some(i) => {
                    rows.push((row.prefix.clone(), person.prs[i].clone()));
                },
                None => {},
            }
            j = j + 1;
        }
        proof {
            assert(f.subrange(0, f.len() as int) =~= f);
        }
        rows
    }
}

} // verus!
