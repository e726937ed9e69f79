use commit_notifier::error::Error;
use commit_notifier::repo::graph::{gather_commits, is_parent, CommitGraph};
use commit_notifier::repo::update::{branch_commit, branch_name_map_filter, watching_branches};
use regex::Regex;

fn commit(id: &str, parents: &[&str]) -> (String, Vec<String>) {
    (
        id.to_owned(),
        parents.iter().map(|p| (*p).to_owned()).collect(),
    )
}

fn diamond() -> CommitGraph {
    // A <- B, A <- C, {B, C} <- M
    CommitGraph {
        commits: vec![
            commit("A", &[]),
            commit("B", &["A"]),
            commit("C", &["A"]),
            commit("M", &["B", "C"]),
        ],
        branches: vec![("origin/main".to_owned(), "M".to_owned())],
    }
}

#[test]
fn gather_commits_collects_the_closure() {
    let g = diamond();
    let mut all = gather_commits(&g, &"M".to_owned());
    all.sort();
    assert_eq!(
        all,
        vec!["A".to_owned(), "B".to_owned(), "C".to_owned(), "M".to_owned()]
    );
    let mut part = gather_commits(&g, &"B".to_owned());
    part.sort();
    assert_eq!(part, vec!["A".to_owned(), "B".to_owned()]);
}

#[test]
fn is_parent_classifies_ancestry() {
    let g = diamond();
    let o = |s: &str| s.to_owned();
    assert!(is_parent(&g, &o("A"), &o("M")));
    assert!(is_parent(&g, &o("B"), &o("M")));
    assert!(is_parent(&g, &o("C"), &o("M")));
    assert!(is_parent(&g, &o("M"), &o("M")));
    assert!(!is_parent(&g, &o("M"), &o("B")));
    assert!(!is_parent(&g, &o("B"), &o("C")));
    assert!(!is_parent(&g, &o("Z"), &o("M")));
}

#[test]
fn branch_name_map_filter_normalizes() {
    assert_eq!(branch_name_map_filter("origin/HEAD"), None);
    assert_eq!(branch_name_map_filter("origin/main"), Some("main"));
    assert_eq!(
        branch_name_map_filter("origin/feature/x"),
        Some("feature/x")
    );
    assert_eq!(branch_name_map_filter("upstream/dev"), Some("upstream/dev"));
    assert_eq!(branch_name_map_filter("main"), Some("main"));
}

#[test]
fn watching_branches_filters_and_normalizes() {
    let g = CommitGraph {
        commits: vec![],
        branches: vec![
            ("origin/HEAD".to_owned(), "B".to_owned()),
            ("origin/main".to_owned(), "B".to_owned()),
            ("origin/dev".to_owned(), "C".to_owned()),
            ("origin/release/1.0".to_owned(), "D".to_owned()),
        ],
    };
    let re = Regex::new("^(main|release/.*)$").unwrap();
    let mut watched = watching_branches(&g, &re);
    watched.sort();
    assert_eq!(watched, vec!["main".to_owned(), "release/1.0".to_owned()]);
}

#[test]
fn branch_commit_resolves_through_origin() {
    let g = diamond();
    assert_eq!(branch_commit(&g, "main").unwrap(), "M");
    let err = branch_commit(&g, "missing").unwrap_err();
    assert!(matches!(err, Error::UnknownRemoteBranch(n) if n == "missing"));
}
