use git_shell::index::Index;
use git_shell::repo::num_hours_between;

fn paths(list: &[&str]) -> Vec<String> {
    list.iter().map(|s| s.to_string()).collect()
}

#[test]
fn hours_between_exact() {
    assert_eq!(num_hours_between(0, 7200), 2);
    assert_eq!(num_hours_between(0, 3599), 0);
    assert_eq!(num_hours_between(0, 3600), 1);
    assert_eq!(num_hours_between(100, 100), 0);
}

#[test]
fn hours_between_future_commit_truncates_toward_zero() {
    assert_eq!(num_hours_between(18000, 0), -5);
    assert_eq!(num_hours_between(3599, 0), 0);
}

#[test]
fn index_keeps_stored_order() {
    let ix = Index::new(paths(&["a", "b", "c"]), false);
    assert_eq!(ix.get_repos(), paths(&["a", "b", "c"]));
    assert!(!ix.has_cache());
    let cached = Index::new(paths(&["a"]), true);
    assert!(cached.has_cache());
}

#[test]
fn last_commit_order_is_youngest_first() {
    let ix = Index::new(paths(&["a", "b", "c"]), true);
    let ages: Vec<i64> = vec![5, 2, 9];
    assert_eq!(ix.get_repos_by_last_commit(&ages), paths(&["b", "a", "c"]));
}

#[test]
fn last_commit_order_ties_are_stable() {
    let ix = Index::new(paths(&["a", "b", "c"]), false);
    let ages: Vec<i64> = vec![3, 3, 1];
    assert_eq!(ix.get_repos_by_last_commit(&ages), paths(&["c", "a", "b"]));
}

#[test]
fn unreadable_history_sorts_last() {
    let ix = Index::new(paths(&["broken", "fresh"]), false);
    let ages: Vec<i64> = vec![i64::MAX, 0];
    assert_eq!(ix.get_repos_by_last_commit(&ages), paths(&["fresh", "broken"]));
}
