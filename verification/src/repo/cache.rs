//! The reachability store: a persistent index of `(branch, commit)` facts
//! plus one recorded head per tracked branch, kept in SQLite.
//!
//! Contracts are stated over the model functions of the trusted boundary in
//! [`crate::repo::sql`]: the rows ([`facts_of`], [`heads_of`]), the
//! transaction state ([`tx_open`] and the rollback point
//! [`saved_facts_of`] / [`saved_heads_of`]), and the schema
//! ([`schema_ready`]). A failing write either leaves the rows as the
//! completed statements left them, or rolls an enclosing open transaction
//! back to its start ([`tx_reverted`]).

use vstd::prelude::*;

use crate::error::Error;
use crate::repo::sql;
pub use crate::repo::sql::{
    facts_of, heads_of, saved_facts_of, saved_heads_of, schema_ready, settled_facts_of,
    settled_heads_of, store_unchanged, tx_open, tx_preserved, tx_reverted,
};

verus! {

/// The set of `(branch, commit)` pairs for `branch` taken over all of
/// `commits`.
pub open spec fn fact_pairs(branch: Seq<char>, commits: Seq<Seq<char>>) -> Set<
    (Seq<char>, Seq<char>),
> {
    Set::new(|p: (Seq<char>, Seq<char>)| p.0 == branch && commits.contains(p.1))
}

/// Opens a fresh in-memory store with its schema created: it is empty,
/// tracks no branch, and holds no open transaction.
pub fn open_memory_store() -> (r: Result<rusqlite::Connection, Error>)
    ensures
        r matches Ok(c) ==> {
            &&& facts_of(c) == Set::<(Seq<char>, Seq<char>)>::empty()
            &&& heads_of(c) == Map::<Seq<char>, Seq<char>>::empty()
            &&& !tx_open(c)
            &&& schema_ready(c)
        },
        r matches Err(e) ==> e matches Error::DB(_),
{
    let mut conn = match sql::open_memory() {
        Ok(c) => c,
        Err(e) => {
            return Err(Error::DB(e));
        },
    };
    match initialize(&mut conn) {
        Ok(()) => Ok(conn),
        Err(e) => Err(e),
    }
}

/// Idempotent schema creation; rows already present are kept, and on
/// success the schema exists.
pub fn initialize(conn: &mut rusqlite::Connection) -> (r: Result<(), Error>)
    ensures
        r is Ok ==> store_unchanged(*old(conn), *final(conn)) && schema_ready(*final(conn)),
        r is Err ==> store_unchanged(*old(conn), *final(conn)) || tx_reverted(
            *old(conn),
            *final(conn),
        ),
        r matches Err(e) ==> e matches Error::DB(_),
{
    match sql::create_schema(conn) {
        Ok(()) => Ok(()),
        Err(e) => Err(Error::DB(e)),
    }
}

/// All branches with a head record.
pub fn branches(conn: &rusqlite::Connection) -> (r: Result<Vec<String>, Error>)
    ensures
        r matches Ok(v) ==> {
            &&& forall|b: Seq<char>| #[trigger]
                v.deep_view().contains(b) <==> heads_of(*conn).dom().contains(b)
            &&& forall|i: int, j: int| 0 <= i < j < v.len() ==> v[i]@ != v[j]@
        },
        r matches Err(e) ==> e matches Error::DB(_),
{
    match sql::head_list(conn) {
        Ok(v) => Ok(v),
        Err(e) => Err(Error::DB(e)),
    }
}

/// The head commit recorded for `branch`; `UnknownBranch` exactly when the
/// store has no record for it.
pub fn query_branch(conn: &rusqlite::Connection, branch: &str) -> (r: Result<String, Error>)
    ensures
        r matches Ok(c) ==> heads_of(*conn).dom().contains(branch@) && c@ == heads_of(
            *conn,
        )[branch@],
        r matches Err(e) ==> match e {
            Error::UnknownBranch(n) => !heads_of(*conn).dom().contains(branch@) && n@ == branch@,
            Error::DB(_) => true,
            _ => false,
        },
{
    match sql::head_lookup(conn, branch) {
        Ok(Some(c)) => Ok(c),
        Ok(None) => Err(Error::UnknownBranch(branch.to_owned())),
        Err(e) => Err(Error::DB(e)),
    }
}

/// First head record for a branch; fails on a database error, in particular
/// when a record for `branch` already exists (primary-key conflict).
pub fn store_branch(conn: &mut rusqlite::Connection, branch: &str, commit: &str) -> (r: Result<
    (),
    Error,
>)
    ensures
        r is Ok ==> {
            &&& !heads_of(*old(conn)).dom().contains(branch@)
            &&& heads_of(*final(conn)) == heads_of(*old(conn)).insert(branch@, commit@)
            &&& facts_of(*final(conn)) == facts_of(*old(conn))
            &&& tx_preserved(*old(conn), *final(conn))
        },
        r is Err ==> store_unchanged(*old(conn), *final(conn)) || tx_reverted(
            *old(conn),
            *final(conn),
        ),
        r matches Err(e) ==> e matches Error::DB(_),
{
    match sql::head_insert(conn, branch, commit) {
        Ok(()) => Ok(()),
        Err(e) => Err(Error::DB(e)),
    }
}

/// Rewrites the head record of `branch`; a branch without a record is left
/// without one.
pub fn update_branch(conn: &mut rusqlite::Connection, branch: &str, commit: &str) -> (r: Result<
    (),
    Error,
>)
    ensures
        r is Ok ==> {
            &&& heads_of(*final(conn)) == (if heads_of(*old(conn)).dom().contains(branch@) {
                heads_of(*old(conn)).insert(branch@, commit@)
            } else {
                heads_of(*old(conn))
            })
            &&& facts_of(*final(conn)) == facts_of(*old(conn))
            &&& tx_preserved(*old(conn), *final(conn))
        },
        r is Err ==> store_unchanged(*old(conn), *final(conn)) || tx_reverted(
            *old(conn),
            *final(conn),
        ),
        r matches Err(e) ==> e matches Error::DB(_),
{
    match sql::head_update(conn, branch, commit) {
        Ok(()) => Ok(()),
        Err(e) => Err(Error::DB(e)),
    }
}

/// Point membership test: is `(branch, commit)` a recorded fact?
pub fn query_cache(conn: &rusqlite::Connection, branch: &str, commit: &str) -> (r: Result<
    bool,
    Error,
>)
    ensures
        r matches Ok(b) ==> b == facts_of(*conn).contains((branch@, commit@)),
        r matches Err(e) ==> e matches Error::DB(_),
{
    match sql::fact_query(conn, branch, commit) {
        Ok(b) => Ok(b),
        Err(e) => Err(Error::DB(e)),
    }
}

/// Reverse lookup: all branches recorded as containing `commit`, each once.
pub fn query_cache_commit(conn: &rusqlite::Connection, commit: &str) -> (r: Result<
    Vec<String>,
    Error,
>)
    ensures
        r matches Ok(v) ==> {
            &&& forall|b: Seq<char>| #[trigger]
                v.deep_view().contains(b) <==> facts_of(*conn).contains((b, commit@))
            &&& forall|i: int, j: int| 0 <= i < j < v.len() ==> v[i]@ != v[j]@
        },
        r matches Err(e) ==> e matches Error::DB(_),
{
    match sql::fact_branches(conn, commit) {
        Ok(v) => Ok(v),
        Err(e) => Err(Error::DB(e)),
    }
}

/// One new reachability fact.
pub fn store_cache(conn: &mut rusqlite::Connection, branch: &str, commit: &str) -> (r: Result<
    (),
    Error,
>)
    ensures
        r is Ok ==> {
            &&& facts_of(*final(conn)) == facts_of(*old(conn)).insert((branch@, commit@))
            &&& heads_of(*final(conn)) == heads_of(*old(conn))
            &&& tx_preserved(*old(conn), *final(conn))
        },
        r is Err ==> store_unchanged(*old(conn), *final(conn)) || tx_reverted(
            *old(conn),
            *final(conn),
        ),
        r matches Err(e) ==> e matches Error::DB(_),
{
    match sql::fact_insert(conn, branch, commit) {
        Ok(()) => Ok(()),
        Err(e) => Err(Error::DB(e)),
    }
}

/// Deletes the head record and every reachability fact of `branch`. On
/// failure either the rows stand as the completed statements left them
/// (possibly only the head record dropped), or an enclosing open
/// transaction was rolled back.
pub fn remove_branch(conn: &mut rusqlite::Connection, branch: &str) -> (r: Result<(), Error>)
    ensures
        r is Ok ==> {
            &&& heads_of(*final(conn)) == heads_of(*old(conn)).remove(branch@)
            &&& facts_of(*final(conn)) == facts_of(*old(conn)).filter(
                |p: (Seq<char>, Seq<char>)| p.0 != branch@,
            )
            &&& tx_preserved(*old(conn), *final(conn))
        },
        r is Err ==> {
            ||| {
                &&& facts_of(*final(conn)) == facts_of(*old(conn))
                &&& (heads_of(*final(conn)) == heads_of(*old(conn)) || heads_of(*final(conn))
                    == heads_of(*old(conn)).remove(branch@))
                &&& tx_preserved(*old(conn), *final(conn))
            }
            ||| tx_reverted(*old(conn), *final(conn))
        },
        r matches Err(e) ==> e matches Error::DB(_),
{
    match sql::branch_delete(conn, branch) {
        Ok(()) => Ok(()),
        Err(e) => Err(Error::DB(e)),
    }
}

/// Bulk insert of reachability facts for one branch. On success the store
/// gains exactly the `(branch, commit)` pair of every given commit; on a
/// database error either a prefix of them stands inserted, or an enclosing
/// open transaction was rolled back.
pub fn batch_store_cache(
    conn: &mut rusqlite::Connection,
    branch: &str,
    commits: &Vec<String>,
) -> (r: Result<(), Error>)
    ensures
        r is Ok ==> {
            &&& facts_of(*final(conn)) == facts_of(*old(conn)).union(
                fact_pairs(branch@, commits.deep_view()),
            )
            &&& heads_of(*final(conn)) == heads_of(*old(conn))
            &&& tx_preserved(*old(conn), *final(conn))
        },
        r is Err ==> {
            ||| {
                &&& heads_of(*final(conn)) == heads_of(*old(conn))
                &&& facts_of(*old(conn)).subset_of(facts_of(*final(conn)))
                &&& facts_of(*final(conn)).subset_of(
                    facts_of(*old(conn)).union(fact_pairs(branch@, commits.deep_view())),
                )
                &&& tx_preserved(*old(conn), *final(conn))
            }
            ||| tx_reverted(*old(conn), *final(conn))
        },
        r matches Err(e) ==> e matches Error::DB(_),
{
    let ghost facts0 = facts_of(*conn);
    let ghost heads0 = heads_of(*conn);
    let mut i: usize = 0;
    while i < commits.len()
        invariant
            0 <= i <= commits.len(),
            facts0 == facts_of(*old(conn)),
            heads0 == heads_of(*old(conn)),
            heads_of(*conn) == heads0,
            tx_preserved(*old(conn), *conn),
            facts_of(*conn) == facts0.union(
                fact_pairs(branch@, commits.deep_view().subrange(0, i as int)),
            ),
        decreases commits.len() - i,
    {
        let ghost pre = *conn;
        match store_cache(conn, branch, commits[i].as_str()) {
            Ok(()) => {
                proof {
                    lemma_subrange_grow(commits.deep_view(), i as int);
                    assert(facts0.union(
                        fact_pairs(branch@, commits.deep_view().subrange(0, i + 1 as int)),
                    ) =~= facts_of(pre).insert((branch@, commits.deep_view()[i as int])));
                }
            },
            Err(e) => {
                proof {
                    lemma_prefix_pairs_subset(branch@, commits.deep_view(), i as int);
                    if tx_reverted(pre, *conn) {
                        assert(tx_reverted(*old(conn), *conn));
                    }
                }
                return Err(e);
            },
        }
        i = i + 1;
    }
    proof {
        assert(commits.deep_view().subrange(0, commits.len() as int) =~= commits.deep_view());
    }
    Ok(())
}

proof fn lemma_subrange_grow(s: Seq<Seq<char>>, i: int)
    requires
        0 <= i < s.len(),
    ensures
        forall|x: Seq<char>| #[trigger]
            s.subrange(0, i + 1).contains(x) <==> (s.subrange(0, i).contains(x) || x == s[i]),
{
    assert forall|x: Seq<char>| #[trigger]
        s.subrange(0, i + 1).contains(x) <==> (s.subrange(0, i).contains(x) || x == s[i]) by {
        if s.subrange(0, i + 1).contains(x) {
            let j = choose|j: int| 0 <= j < i + 1 && #[trigger] s.subrange(0, i + 1)[j] == x;
            if j < i {
                assert(s.subrange(0, i)[j] == x);
            }
        }
        if s.subrange(0, i).contains(x) {
            let j = choose|j: int| 0 <= j < i && #[trigger] s.subrange(0, i)[j] == x;
            assert(s.subrange(0, i + 1)[j] == x);
        }
        assert(s.subrange(0, i + 1)[i] == s[i]);
    }
}

proof fn lemma_prefix_pairs_subset(branch: Seq<char>, commits: Seq<Seq<char>>, i: int)
    requires
        0 <= i <= commits.len(),
    ensures
        fact_pairs(branch, commits.subrange(0, i)).subset_of(fact_pairs(branch, commits)),
{
    assert forall|p: (Seq<char>, Seq<char>)|
        fact_pairs(branch, commits.subrange(0, i)).contains(p) implies fact_pairs(
        branch,
        commits,
    ).contains(p) by {
        let j = choose|j: int| 0 <= j < i && #[trigger] commits.subrange(0, i)[j] == p.1;
        assert(commits[j] == p.1);
    }
}

} // verus!
