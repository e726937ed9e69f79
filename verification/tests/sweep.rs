use commit_notifier::error::Error;
use commit_notifier::repo::cache;
use commit_notifier::repo::graph::CommitGraph;
use commit_notifier::repo::update::update_cache;
use regex::Regex;
use rusqlite::Connection;

fn commit(id: &str, parents: &[&str]) -> (String, Vec<String>) {
    (
        id.to_owned(),
        parents.iter().map(|p| (*p).to_owned()).collect(),
    )
}

fn branch(name: &str, tip: &str) -> (String, String) {
    (name.to_owned(), tip.to_owned())
}

/// `main` at A<-B, `feature` at A<-B<-C.
fn initial_graph() -> CommitGraph {
    CommitGraph {
        commits: vec![
            commit("A", &[]),
            commit("B", &["A"]),
            commit("C", &["B"]),
        ],
        branches: vec![branch("origin/main", "B"), branch("origin/feature", "C")],
    }
}

fn fresh_store() -> Connection {
    cache::open_memory_store().unwrap()
}

fn row_count(conn: &Connection) -> i64 {
    conn.query_row("SELECT COUNT(*) FROM commits_cache", (), |row| row.get(0))
        .unwrap()
}

fn branches_of(conn: &Connection, commit: &str) -> Vec<String> {
    let mut v = cache::query_cache_commit(conn, commit).unwrap();
    v.sort();
    v
}

#[test]
fn initial_sweep_scenario() {
    let mut conn = fresh_store();
    let re = Regex::new("^(main|feature)$").unwrap();
    let g = initial_graph();
    update_cache(&mut conn, &g, &re).unwrap();

    let mut known = cache::branches(&conn).unwrap();
    known.sort();
    assert_eq!(known, vec!["feature".to_owned(), "main".to_owned()]);
    assert_eq!(cache::query_branch(&conn, "main").unwrap(), "B");
    assert_eq!(cache::query_branch(&conn, "feature").unwrap(), "C");

    // 3 distinct commit ids cached; 2 rows for main, 3 for feature
    assert_eq!(row_count(&conn), 5);
    assert_eq!(
        branches_of(&conn, "A"),
        vec!["feature".to_owned(), "main".to_owned()]
    );
    assert_eq!(
        branches_of(&conn, "B"),
        vec!["feature".to_owned(), "main".to_owned()]
    );
    assert_eq!(branches_of(&conn, "C"), vec!["feature".to_owned()]);
    assert!(cache::query_cache(&conn, "main", "A").unwrap());
    assert!(!cache::query_cache(&conn, "main", "C").unwrap());
}

#[test]
fn second_sweep_writes_nothing() {
    let mut conn = fresh_store();
    let re = Regex::new("^(main|feature)$").unwrap();
    let g = initial_graph();
    update_cache(&mut conn, &g, &re).unwrap();
    let rows_before = row_count(&conn);

    update_cache(&mut conn, &g, &re).unwrap();
    assert_eq!(row_count(&conn), rows_before);
    assert_eq!(cache::query_branch(&conn, "main").unwrap(), "B");
    assert_eq!(cache::query_branch(&conn, "feature").unwrap(), "C");
    assert_eq!(
        branches_of(&conn, "A"),
        vec!["feature".to_owned(), "main".to_owned()]
    );
}

#[test]
fn fast_forward_adds_exactly_the_new_commits() {
    let mut conn = fresh_store();
    let re = Regex::new("^(main|feature)$").unwrap();
    update_cache(&mut conn, &initial_graph(), &re).unwrap();
    let rows_before = row_count(&conn);

    // feature fast-forwards C -> D
    let g2 = CommitGraph {
        commits: vec![
            commit("A", &[]),
            commit("B", &["A"]),
            commit("C", &["B"]),
            commit("D", &["C"]),
        ],
        branches: vec![branch("origin/main", "B"), branch("origin/feature", "D")],
    };
    update_cache(&mut conn, &g2, &re).unwrap();

    assert_eq!(row_count(&conn), rows_before + 1);
    assert_eq!(cache::query_branch(&conn, "feature").unwrap(), "D");
    assert_eq!(cache::query_branch(&conn, "main").unwrap(), "B");
    assert_eq!(branches_of(&conn, "D"), vec!["feature".to_owned()]);
    assert!(cache::query_cache(&conn, "feature", "D").unwrap());
    assert!(!cache::query_cache(&conn, "main", "D").unwrap());
}

#[test]
fn fast_forward_by_two_linear_commits() {
    let mut conn = fresh_store();
    let re = Regex::new("^main$").unwrap();
    let g1 = CommitGraph {
        commits: vec![commit("A", &[]), commit("B", &["A"])],
        branches: vec![branch("origin/main", "B")],
    };
    update_cache(&mut conn, &g1, &re).unwrap();
    let rows_before = row_count(&conn);

    let g2 = CommitGraph {
        commits: vec![
            commit("A", &[]),
            commit("B", &["A"]),
            commit("C", &["B"]),
            commit("D", &["C"]),
        ],
        branches: vec![branch("origin/main", "D")],
    };
    update_cache(&mut conn, &g2, &re).unwrap();

    assert_eq!(row_count(&conn), rows_before + 2);
    assert_eq!(branches_of(&conn, "C"), vec!["main".to_owned()]);
    assert_eq!(branches_of(&conn, "D"), vec!["main".to_owned()]);
}

#[test]
fn rewrite_leaves_exactly_the_new_closure() {
    let mut conn = fresh_store();
    let re = Regex::new("^feature$").unwrap();
    let g1 = CommitGraph {
        commits: vec![
            commit("A", &[]),
            commit("B", &["A"]),
            commit("C", &["B"]),
        ],
        branches: vec![branch("origin/feature", "C")],
    };
    update_cache(&mut conn, &g1, &re).unwrap();

    // force-move feature to E, a sibling of B, not a descendant of C
    let g2 = CommitGraph {
        commits: vec![
            commit("A", &[]),
            commit("B", &["A"]),
            commit("C", &["B"]),
            commit("E", &["A"]),
        ],
        branches: vec![branch("origin/feature", "E")],
    };
    update_cache(&mut conn, &g2, &re).unwrap();

    assert_eq!(cache::query_branch(&conn, "feature").unwrap(), "E");
    assert!(cache::query_cache(&conn, "feature", "A").unwrap());
    assert!(cache::query_cache(&conn, "feature", "E").unwrap());
    assert!(!cache::query_cache(&conn, "feature", "B").unwrap());
    assert!(!cache::query_cache(&conn, "feature", "C").unwrap());
    assert_eq!(row_count(&conn), 2);
}

#[test]
fn unwatch_deletes_facts_and_head() {
    let mut conn = fresh_store();
    let both = Regex::new("^(main|feature)$").unwrap();
    update_cache(&mut conn, &initial_graph(), &both).unwrap();

    let only_main = Regex::new("^main$").unwrap();
    update_cache(&mut conn, &initial_graph(), &only_main).unwrap();

    let known = cache::branches(&conn).unwrap();
    assert_eq!(known, vec!["main".to_owned()]);
    let err = cache::query_branch(&conn, "feature").unwrap_err();
    assert!(matches!(err, Error::UnknownBranch(_)));
    assert_eq!(branches_of(&conn, "C"), Vec::<String>::new());
    assert_eq!(branches_of(&conn, "A"), vec!["main".to_owned()]);
    assert_eq!(row_count(&conn), 2);
}

#[test]
fn merge_commit_fast_forward() {
    let mut conn = fresh_store();
    let re = Regex::new("^main$").unwrap();
    let g1 = CommitGraph {
        commits: vec![
            commit("A", &[]),
            commit("B", &["A"]),
            commit("X", &["A"]),
        ],
        branches: vec![branch("origin/main", "B")],
    };
    update_cache(&mut conn, &g1, &re).unwrap();

    // M merges B and X; B is an ancestor of M, so this is a fast-forward
    let g2 = CommitGraph {
        commits: vec![
            commit("A", &[]),
            commit("B", &["A"]),
            commit("X", &["A"]),
            commit("M", &["B", "X"]),
        ],
        branches: vec![branch("origin/main", "M")],
    };
    update_cache(&mut conn, &g2, &re).unwrap();

    assert_eq!(cache::query_branch(&conn, "main").unwrap(), "M");
    assert!(cache::query_cache(&conn, "main", "X").unwrap());
    assert!(cache::query_cache(&conn, "main", "M").unwrap());
    assert_eq!(row_count(&conn), 4);
}

#[test]
fn initialize_is_idempotent_and_keeps_rows() {
    let mut conn = Connection::open_in_memory().unwrap();
    cache::initialize(&mut conn).unwrap();
    cache::store_branch(&mut conn, "main", "A").unwrap();
    cache::store_cache(&mut conn, "main", "A").unwrap();
    // calling initialize again keeps the schema and every row
    cache::initialize(&mut conn).unwrap();
    assert_eq!(cache::query_branch(&conn, "main").unwrap(), "A");
    assert!(cache::query_cache(&conn, "main", "A").unwrap());
    assert_eq!(row_count(&conn), 1);
}

#[test]
fn duplicate_head_insert_is_a_db_error() {
    let mut conn = fresh_store();
    cache::store_branch(&mut conn, "main", "A").unwrap();
    let err = cache::store_branch(&mut conn, "main", "B").unwrap_err();
    assert!(matches!(err, Error::DB(_)));
    // the failed insert left the record unchanged
    assert_eq!(cache::query_branch(&conn, "main").unwrap(), "A");
}

#[test]
fn empty_watch_set_tracks_nothing() {
    let mut conn = fresh_store();
    let re = Regex::new("^$").unwrap();
    update_cache(&mut conn, &initial_graph(), &re).unwrap();
    assert_eq!(cache::branches(&conn).unwrap(), Vec::<String>::new());
    assert_eq!(row_count(&conn), 0);
}

#[test]
fn empty_graph_sweep_is_empty() {
    let mut conn = fresh_store();
    let re = Regex::new(".*").unwrap();
    let g = CommitGraph {
        commits: vec![],
        branches: vec![],
    };
    update_cache(&mut conn, &g, &re).unwrap();
    assert_eq!(cache::branches(&conn).unwrap(), Vec::<String>::new());
    assert_eq!(row_count(&conn), 0);
}
