//! The trusted boundary around the SQLite reachability store.
//!
//! The store holds two tables: `commits_cache(branch, commit_hash)`, one row
//! per reachability fact, and `branches(branch PRIMARY KEY, current_commit)`,
//! one head record per tracked branch. The spec functions [`facts_of`] and
//! [`heads_of`] name the contents of those tables as seen through a
//! connection, uncommitted changes included; [`tx_open`] whether the
//! connection holds an open explicit transaction, and [`saved_facts_of`] /
//! [`saved_heads_of`] the rows such a transaction would restore on rollback
//! (their value is unspecified while no transaction is open). Every wrapper
//! below states what its SQL does to these, on success and on failure: a
//! failing statement either is aborted by itself, leaving the rows as the
//! completed statements left them, or — for I/O-class errors — rolls the
//! whole enclosing open transaction back to its start.

use rusqlite::Error as SqliteError;
use rusqlite::OptionalExtension;
use vstd::prelude::*;

verus! {

/// The error type of the `rusqlite` database driver, declared so that it
/// can appear in signatures and be wrapped by the library's own error type.
#[verifier::external_type_specification]
#[verifier::external_body]
pub struct ExSqliteError(SqliteError);

/// A SQLite connection of the `rusqlite` crate, declared so that it can
/// stand in signatures. The store's contents as seen through a connection
/// are named by [`facts_of`] and [`heads_of`].
#[verifier::external_type_specification]
#[verifier::external_body]
pub struct ExConnection(rusqlite::Connection);

/// Names the contents of the `commits_cache` table as seen through `conn`:
/// the set of `(branch, commit_hash)` pairs that occur in its rows,
/// uncommitted changes included.
pub uninterp spec fn facts_of(conn: rusqlite::Connection) -> Set<(Seq<char>, Seq<char>)>;

/// Names the contents of the `branches` table as seen through `conn`: the
/// map from each `branch` (the primary key) to its `current_commit`,
/// uncommitted changes included.
pub uninterp spec fn heads_of(conn: rusqlite::Connection) -> Map<Seq<char>, Seq<char>>;

/// Names whether `conn` holds an open explicit transaction (begun with
/// `BEGIN` and neither committed nor rolled back).
pub uninterp spec fn tx_open(conn: rusqlite::Connection) -> bool;

/// Names the `commits_cache` rows that rolling back the open transaction
/// would restore: the rows at the enclosing `BEGIN`. Unspecified while no
/// transaction is open.
pub uninterp spec fn saved_facts_of(conn: rusqlite::Connection) -> Set<(Seq<char>, Seq<char>)>;

/// Names the `branches` rows that rolling back the open transaction would
/// restore. Unspecified while no transaction is open.
pub uninterp spec fn saved_heads_of(conn: rusqlite::Connection) -> Map<Seq<char>, Seq<char>>;

/// Names whether the store's schema (the two tables and the reverse index)
/// exists in the database behind `conn`.
pub uninterp spec fn schema_ready(conn: rusqlite::Connection) -> bool;

/// The transaction state carries over: open stays open, closed stays
/// closed, and an open transaction keeps its rollback point.
pub open spec fn tx_preserved(pre: rusqlite::Connection, post: rusqlite::Connection) -> bool {
    &&& tx_open(post) == tx_open(pre)
    &&& (tx_open(pre) ==> saved_facts_of(post) == saved_facts_of(pre) && saved_heads_of(post)
        == saved_heads_of(pre))
}

/// Nothing happened to the rows or the transaction.
pub open spec fn store_unchanged(pre: rusqlite::Connection, post: rusqlite::Connection) -> bool {
    &&& facts_of(post) == facts_of(pre)
    &&& heads_of(post) == heads_of(pre)
    &&& tx_preserved(pre, post)
}

/// An I/O-class failure rolled the enclosing open transaction back: the
/// rows revert to its start and the transaction is closed.
pub open spec fn tx_reverted(pre: rusqlite::Connection, post: rusqlite::Connection) -> bool {
    &&& tx_open(pre)
    &&& !tx_open(post)
    &&& facts_of(post) == saved_facts_of(pre)
    &&& heads_of(post) == saved_heads_of(pre)
}

/// The `commits_cache` rows a caller is left with once any transaction
/// still open is rolled back (rusqlite rolls an open transaction back when
/// the connection is dropped).
pub open spec fn settled_facts_of(conn: rusqlite::Connection) -> Set<(Seq<char>, Seq<char>)> {
    if tx_open(conn) {
        saved_facts_of(conn)
    } else {
        facts_of(conn)
    }
}

/// The `branches` rows a caller is left with once any transaction still
/// open is rolled back.
pub open spec fn settled_heads_of(conn: rusqlite::Connection) -> Map<Seq<char>, Seq<char>> {
    if tx_open(conn) {
        saved_heads_of(conn)
    } else {
        heads_of(conn)
    }
}

/// Relies on `rusqlite::Connection::open_in_memory`: a fresh in-memory
/// database holds no tables, hence no rows, and its connection holds no
/// open transaction.
#[verifier::external_body]
pub(crate) fn open_memory() -> (r: Result<rusqlite::Connection, SqliteError>)
    ensures
        r matches Ok(c) ==> {
            &&& facts_of(c) == Set::<(Seq<char>, Seq<char>)>::empty()
            &&& heads_of(c) == Map::<Seq<char>, Seq<char>>::empty()
            &&& !tx_open(c)
        },
{
    rusqlite::Connection::open_in_memory()
}

/// Relies on `rusqlite::Connection::execute_batch` running three
/// `CREATE ... IF NOT EXISTS` statements: on success the schema exists and
/// no rows were added or dropped; the statements change no rows on failure
/// either, though an I/O-class failure may roll back an enclosing open
/// transaction.
#[verifier::external_body]
pub(crate) fn create_schema(conn: &mut rusqlite::Connection) -> (r: Result<
    (),
    SqliteError,
>)
    ensures
        r is Ok ==> store_unchanged(*old(conn), *final(conn)) && schema_ready(*final(conn)),
        r is Err ==> store_unchanged(*old(conn), *final(conn)) || tx_reverted(
            *old(conn),
            *final(conn),
        ),
{
    let c: &rusqlite::Connection = conn;
    c.execute_batch(
        "CREATE TABLE IF NOT EXISTS commits_cache (
            branch        TEXT    NOT NULL,
            commit_hash   TEXT    NOT NULL
        );
        CREATE TABLE IF NOT EXISTS branches (
            branch           TEXT    NOT NULL PRIMARY KEY,
            current_commit   TEXT    NOT NULL
        );
        CREATE INDEX IF NOT EXISTS idx_commit_branches
        ON commits_cache (commit_hash);",
    )
}

/// Relies on `rusqlite::Statement::query_map` over
/// `SELECT branch FROM branches`: one row per primary key, so the returned
/// names are exactly the tracked branches, without repetition.
#[verifier::external_body]
pub(crate) fn head_list(conn: &rusqlite::Connection) -> (r: Result<
    Vec<String>,
    SqliteError,
>)
    ensures
        r matches Ok(v) ==> {
            &&& forall|b: Seq<char>| #[trigger]
                v.deep_view().contains(b) <==> heads_of(*conn).dom().contains(b)
            &&& forall|i: int, j: int| 0 <= i < j < v.len() ==> v[i]@ != v[j]@
        },
{
    let mut stmt = conn.prepare("SELECT branch FROM branches")?;
    let rows = stmt.query_map((), |row| row.get(0))?;
    rows.collect()
}

/// Relies on `rusqlite::Connection::query_row` over the `branches` primary
/// key: returns the head commit recorded for `branch`, or `None` when the
/// branch has no record.
#[verifier::external_body]
pub(crate) fn head_lookup(conn: &rusqlite::Connection, branch: &str) -> (r: Result<
    Option<String>,
    SqliteError,
>)
    ensures
        r matches Ok(h) ==> match h {
            Some(c) => heads_of(*conn).dom().contains(branch@) && c@ == heads_of(*conn)[branch@],
            None => !heads_of(*conn).dom().contains(branch@),
        },
{
    conn.query_row(
        "SELECT current_commit FROM branches WHERE branch = ?1",
        (branch,),
        |row| row.get(0),
    ).optional()
}

/// Relies on `rusqlite::Connection::execute` running an `INSERT` into
/// `branches`: it succeeds exactly when no row with this primary key exists
/// (barring database failure), and then adds exactly that record.
#[verifier::external_body]
pub(crate) fn head_insert(conn: &mut rusqlite::Connection, branch: &str, commit: &str) -> (r:
    Result<(), SqliteError>)
    ensures
        r is Ok ==> {
            &&& !heads_of(*old(conn)).dom().contains(branch@)
            &&& heads_of(*final(conn)) == heads_of(*old(conn)).insert(branch@, commit@)
            &&& facts_of(*final(conn)) == facts_of(*old(conn))
            &&& tx_preserved(*old(conn), *final(conn))
        },
        r is Err ==> store_unchanged(*old(conn), *final(conn)) || tx_reverted(
            *old(conn),
            *final(conn),
        ),
{
    let c: &rusqlite::Connection = conn;
    c.execute(
        "INSERT INTO branches (branch, current_commit) VALUES (?1, ?2)",
        (branch, commit),
    ).map(|_| ())
}

/// Relies on `rusqlite::Connection::execute` running an `UPDATE` on
/// `branches`: it rewrites the head of `branch` when a record exists and
/// does nothing when none does.
#[verifier::external_body]
pub(crate) fn head_update(conn: &mut rusqlite::Connection, branch: &str, commit: &str) -> (r:
    Result<(), SqliteError>)
    ensures
        r is Ok ==> {
            &&& heads_of(*final(conn)) == (if heads_of(*old(conn)).dom().contains(branch@) {
                heads_of(*old(conn)).insert(branch@, commit@)
            } else {
                heads_of(*old(conn))
            })
            &&& facts_of(*final(conn)) == facts_of(*old(conn))
            &&& tx_preserved(*old(conn), *final(conn))
        },
        r is Err ==> store_unchanged(*old(conn), *final(conn)) || tx_reverted(
            *old(conn),
            *final(conn),
        ),
{
    let c: &rusqlite::Connection = conn;
    c.execute(
        "UPDATE branches SET current_commit = ?2 WHERE branch = ?1",
        (branch, commit),
    ).map(|_| ())
}

/// Relies on `rusqlite::Connection::execute` running an `INSERT` into
/// `commits_cache`: on success the table's rows gain exactly this pair.
#[verifier::external_body]
pub(crate) fn fact_insert(conn: &mut rusqlite::Connection, branch: &str, commit: &str) -> (r:
    Result<(), SqliteError>)
    ensures
        r is Ok ==> {
            &&& facts_of(*final(conn)) == facts_of(*old(conn)).insert((branch@, commit@))
            &&& heads_of(*final(conn)) == heads_of(*old(conn))
            &&& tx_preserved(*old(conn), *final(conn))
        },
        r is Err ==> store_unchanged(*old(conn), *final(conn)) || tx_reverted(
            *old(conn),
            *final(conn),
        ),
{
    let c: &rusqlite::Connection = conn;
    c.execute(
        "INSERT INTO commits_cache (branch, commit_hash) VALUES (?1, ?2)",
        (branch, commit),
    ).map(|_| ())
}

/// Relies on `rusqlite::Statement::exists` over a point `SELECT` on
/// `commits_cache`: true exactly when a row with this pair exists.
#[verifier::external_body]
pub(crate) fn fact_query(conn: &rusqlite::Connection, branch: &str, commit: &str) -> (r: Result<
    bool,
    SqliteError,
>)
    ensures
        r matches Ok(b) ==> b == facts_of(*conn).contains((branch@, commit@)),
{
    let mut stmt = conn.prepare(
        "SELECT 1 FROM commits_cache WHERE branch = ?1 AND commit_hash = ?2",
    )?;
    stmt.exists((branch, commit))
}

/// Relies on `rusqlite::Statement::query_map` over
/// `SELECT DISTINCT branch FROM commits_cache WHERE commit_hash = ?1`:
/// the returned names are exactly the branches recorded as containing
/// `commit`, without repetition.
#[verifier::external_body]
pub(crate) fn fact_branches(conn: &rusqlite::Connection, commit: &str) -> (r: Result<
    Vec<String>,
    SqliteError,
>)
    ensures
        r matches Ok(v) ==> {
            &&& forall|b: Seq<char>| #[trigger]
                v.deep_view().contains(b) <==> facts_of(*conn).contains((b, commit@))
            &&& forall|i: int, j: int| 0 <= i < j < v.len() ==> v[i]@ != v[j]@
        },
{
    let mut stmt = conn.prepare(
        "SELECT DISTINCT branch FROM commits_cache WHERE commit_hash = ?1",
    )?;
    let rows = stmt.query_map((commit,), |row| row.get(0))?;
    rows.collect()
}

/// Relies on `rusqlite::Connection::execute` running two `DELETE`
/// statements: the first drops the head record of `branch`, the second all
/// of its reachability facts. On failure either the rows stand as the
/// completed statements left them (possibly only the head dropped), or an
/// I/O-class error rolled an enclosing open transaction back.
#[verifier::external_body]
pub(crate) fn branch_delete(conn: &mut rusqlite::Connection, branch: &str) -> (r: Result<
    (),
    SqliteError,
>)
    ensures
        r is Ok ==> {
            &&& heads_of(*final(conn)) == heads_of(*old(conn)).remove(branch@)
            &&& facts_of(*final(conn)) == facts_of(*old(conn)).filter(
                |p: (Seq<char>, Seq<char>)| p.0 != branch@,
            )
            &&& tx_preserved(*old(conn), *final(conn))
        },
        r is Err ==> {
            ||| {
                &&& facts_of(*final(conn)) == facts_of(*old(conn))
                &&& (heads_of(*final(conn)) == heads_of(*old(conn)) || heads_of(*final(conn))
                    == heads_of(*old(conn)).remove(branch@))
                &&& tx_preserved(*old(conn), *final(conn))
            }
            ||| tx_reverted(*old(conn), *final(conn))
        },
{
    let c: &rusqlite::Connection = conn;
    c.execute("DELETE FROM branches WHERE branch = ?1", (branch,))?;
    c.execute("DELETE FROM commits_cache WHERE branch = ?1", (branch,))?;
    Ok(())
}

/// Relies on `rusqlite::Connection::execute_batch` running `BEGIN`: it
/// succeeds exactly when no transaction is open, opens one whose rollback
/// point is the current rows, and changes no rows; a failing `BEGIN` opens
/// nothing and changes nothing.
#[verifier::external_body]
pub(crate) fn tx_begin(conn: &mut rusqlite::Connection) -> (r: Result<(), SqliteError>)
    ensures
        facts_of(*final(conn)) == facts_of(*old(conn)),
        heads_of(*final(conn)) == heads_of(*old(conn)),
        r is Ok ==> {
            &&& !tx_open(*old(conn))
            &&& tx_open(*final(conn))
            &&& saved_facts_of(*final(conn)) == facts_of(*old(conn))
            &&& saved_heads_of(*final(conn)) == heads_of(*old(conn))
        },
        r is Err ==> tx_preserved(*old(conn), *final(conn)),
{
    let c: &rusqlite::Connection = conn;
    c.execute_batch("BEGIN")
}

/// Relies on `rusqlite::Connection::execute_batch` running `COMMIT`: on
/// success the rows seen through this connection are unchanged (they only
/// become durable) and the transaction is closed; on failure either the
/// transaction stays open with its rows and rollback point kept, or an
/// I/O-class error rolled it back to its start.
#[verifier::external_body]
pub(crate) fn tx_commit(conn: &mut rusqlite::Connection) -> (r: Result<(), SqliteError>)
    ensures
        r is Ok ==> {
            &&& heads_of(*final(conn)) == heads_of(*old(conn))
            &&& facts_of(*final(conn)) == facts_of(*old(conn))
            &&& !tx_open(*final(conn))
        },
        r is Err ==> store_unchanged(*old(conn), *final(conn)) || tx_reverted(
            *old(conn),
            *final(conn),
        ),
{
    let c: &rusqlite::Connection = conn;
    c.execute_batch("COMMIT")
}

/// Relies on `rusqlite::Connection::execute_batch` running `ROLLBACK`: on
/// success there was an open transaction and the rows revert to its start;
/// on failure either nothing happened (in particular when no transaction
/// was open), or the transaction was nonetheless rolled back.
#[verifier::external_body]
pub(crate) fn tx_rollback(conn: &mut rusqlite::Connection) -> (r: Result<(), SqliteError>)
    ensures
        r is Ok ==> tx_reverted(*old(conn), *final(conn)),
        r is Err ==> store_unchanged(*old(conn), *final(conn)) || tx_reverted(
            *old(conn),
            *final(conn),
        ),
{
    let c: &rusqlite::Connection = conn;
    c.execute_batch("ROLLBACK")
}

} // verus!
