use herdr_core::review_pr::{partition_into_stacks, ReviewPr};

fn pr(number: u64, head: &str, base: &str) -> ReviewPr {
    ReviewPr {
        number,
        title: format!("pr {number}"),
        author: "alice".to_string(),
        head_branch: head.to_string(),
        base_branch: base.to_string(),
        url: format!("https://github.com/acme/proj/pull/{number}"),
        graph_prefix: String::new(),
    }
}

#[test]
fn stacks_chain_base_to_head_top_first() {
    let prs = partition_into_stacks(vec![
        pr(2, "feat/two", "feat/one"),
        pr(99, "lone/fix", "master"),
        pr(3, "feat/three", "feat/two"),
        pr(1, "feat/one", "master"),
    ]);
    let view: Vec<(u64, &str)> = prs.iter().map(|p| (p.number, p.graph_prefix.as_str())).collect();
    assert_eq!(view, vec![(3, "◯ "), (2, "│ "), (1, "│ "), (99, "")]);
}

#[test]
fn stacks_with_two_children_keep_subtrees_contiguous() {
    let prs = partition_into_stacks(vec![
        pr(11, "a/base", "master"),
        pr(12, "a/left", "a/base"),
        pr(13, "a/right", "a/base"),
    ]);
    let view: Vec<(u64, &str)> = prs.iter().map(|p| (p.number, p.graph_prefix.as_str())).collect();
    assert_eq!(view, vec![(12, "◯ "), (13, "◯ "), (11, "│ ")]);
}

#[test]
fn base_head_cycle_falls_back_to_flat_rows() {
    let prs = partition_into_stacks(vec![pr(1, "a", "b"), pr(2, "b", "a")]);
    assert_eq!(prs.len(), 2, "cycle members must not be dropped");
    assert!(prs.iter().all(|p| p.graph_prefix.is_empty()));
}

#[test]
fn empty_list_stays_empty() {
    assert!(partition_into_stacks(Vec::new()).is_empty());
}

#[test]
fn fields_other_than_the_prefix_are_kept() {
    let prs = partition_into_stacks(vec![pr(1, "a", "main"), pr(2, "b", "a")]);
    assert_eq!(prs[0].number, 2);
    assert_eq!(prs[0].head_branch, "b");
    assert_eq!(prs[0].base_branch, "a");
    assert_eq!(prs[0].title, "pr 2");
    assert_eq!(prs[1].number, 1);
}

#[test]
fn a_pr_hanging_off_a_cycle_is_kept_flat_after_the_stacks() {
    // 1 <-> 2 form a cycle; 3 sits on 2; 4 is standalone.
    let prs = partition_into_stacks(vec![pr(1, "a", "b"), pr(2, "b", "a"), pr(3, "c", "b"), pr(4, "d", "main")]);
    let view: Vec<(u64, &str)> = prs.iter().map(|p| (p.number, p.graph_prefix.as_str())).collect();
    assert_eq!(view, vec![(4, ""), (1, ""), (2, ""), (3, "")]);
}

#[test]
fn later_pr_with_the_same_head_is_the_parent() {
    // Two PRs share head "x": the later one is the parent of the PR based on x.
    let prs = partition_into_stacks(vec![pr(1, "x", "main"), pr(2, "x", "main"), pr(3, "y", "x")]);
    let view: Vec<(u64, &str)> = prs.iter().map(|p| (p.number, p.graph_prefix.as_str())).collect();
    assert_eq!(view, vec![(1, ""), (3, "◯ "), (2, "│ ")]);
}
