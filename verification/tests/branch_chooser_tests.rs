use herdr_core::branch_chooser::{filtered_branch_indices, resolve_branch_choice, BranchChoice, BranchChooserState};

fn state(branches: &[&str], query: &str) -> BranchChooserState {
    BranchChooserState {
        branches: branches.iter().map(|b| b.to_string()).collect(),
        default_base: "main".into(),
        query: query.into(),
        selected: 0,
        scroll: 0,
    }
}

#[test]
fn filter_is_case_insensitive_substring() {
    let s = state(&["main", "feature/Login", "fix-bug"], "log");
    assert_eq!(filtered_branch_indices(&s), vec![1]);
}

#[test]
fn exact_match_resolves_to_existing() {
    let s = state(&["main", "dev"], "dev");
    assert_eq!(resolve_branch_choice(&s), Some(BranchChoice::Existing("dev".into())));
}

#[test]
fn new_name_resolves_to_new_off_default_base() {
    let s = state(&["main"], "feature/new-thing");
    assert_eq!(
        resolve_branch_choice(&s),
        Some(BranchChoice::New { name: "feature/new-thing".into(), base: "main".into() })
    );
}

#[test]
fn empty_query_uses_highlighted_existing() {
    let mut s = state(&["main", "dev"], "");
    s.selected = 1;
    assert_eq!(resolve_branch_choice(&s), Some(BranchChoice::Existing("dev".into())));
}

#[test]
fn empty_query_matches_every_branch() {
    let s = state(&["main", "dev", "x"], "   ");
    assert_eq!(filtered_branch_indices(&s), vec![0, 1, 2]);
}

#[test]
fn query_is_trimmed_and_lowercased() {
    let s = state(&["MAIN", "Feature/LOGIN", "fix"], "  LoG ");
    assert_eq!(filtered_branch_indices(&s), vec![1]);
}

#[test]
fn empty_query_with_selection_past_the_rows_resolves_to_nothing() {
    let mut s = state(&["main"], "");
    s.selected = 3;
    assert_eq!(resolve_branch_choice(&s), None);
    let s = state(&[], "");
    assert_eq!(resolve_branch_choice(&s), None);
}

#[test]
fn trimmed_query_names_the_new_branch() {
    let s = state(&["main"], "  topic  ");
    assert_eq!(
        resolve_branch_choice(&s),
        Some(BranchChoice::New { name: "topic".into(), base: "main".into() })
    );
}
