//! The reachability updater: one sweep diffs the watched branches against
//! the tracked ones, classifies each retained branch's movement with the
//! ancestor classifier, and drives either an incremental delta walk or a
//! full rebuild walk, writing results per branch.

use vstd::prelude::*;

use crate::error::Error;
use crate::is_prefix_of;
use crate::pattern::{regex_is_match, regex_matches};
use crate::repo::cache;
use crate::repo::cache::{
    facts_of, heads_of, saved_facts_of, saved_heads_of, settled_facts_of, settled_heads_of,
    tx_open,
};
use crate::repo::graph::{
    ancestors, avoids, bfs_inv, contains_string, gather_commits, id_universe, is_parent, is_walk,
    lemma_avoid_closed_reaches, lemma_bfs_complete, lemma_bfs_expand, lemma_bfs_init,
    lemma_bfs_measure_bounds, lemma_bfs_skip, lemma_id_universe_finite, lemma_push_contains,
    lemma_reaches_step, lemma_reaches_trans, lookup_tip, reaches, reaches_avoiding, CommitGraph,
};
use crate::repo::sql;

verus! {

/// A raw remote branch name, normalized: the symbolic `origin/HEAD` pointer
/// is excluded, a leading `origin/` qualifier is stripped, any other name is
/// kept as it is.
pub open spec fn normalized(name: Seq<char>) -> Option<Seq<char>> {
    if name == "origin/HEAD"@ {
        None
    } else if is_prefix_of("origin/"@, name) {
        Some(name.skip("origin/"@.len() as int))
    } else {
        Some(name)
    }
}

/// Compares two string slices by contents.
fn str_eq(a: &str, b: &str) -> (r: bool)
    ensures
        r == (a@ == b@),
{
    let sa: String = a.to_owned();
    let sb: String = b.to_owned();
    sa == sb
}

/// Normalizes a raw remote branch name; `None` excludes the name from
/// watching.
pub fn branch_name_map_filter<'a>(name: &'a str) -> (r: Option<&'a str>)
    ensures
        match r {
            Some(s) => normalized(name@) == Some(s@),
            None => normalized(name@) is None,
        },
{
    proof {
        reveal_strlit("origin/HEAD");
        reveal_strlit("origin/");
    }
    if str_eq(name, "origin/HEAD") {
        return None;
    }
    let n = name.unicode_len();
    if n >= 7 {
        let head = name.substring_char(0, 7);
        if str_eq(head, "origin/") {
            let rest = name.substring_char(7, n);
            proof {
                assert(is_prefix_of("origin/"@, name@));
                assert(rest@ =~= name@.skip(7));
            }
            return Some(rest);
        }
    }
    proof {
        assert(!is_prefix_of("origin/"@, name@));
    }
    Some(name)
}

/// The branch names a sweep watches: normalized remote branch names of the
/// graph snapshot that match the configured inclusion pattern.
pub open spec fn watched_set(g: CommitGraph, re: regex::Regex) -> Set<Seq<char>> {
    Set::new(
        |b: Seq<char>|
            exists|k: int|
                0 <= k < g.branches@.len() && normalized(#[trigger] g.branches@[k].0@) == Some(b)
                    && regex_matches(re, b),
    )
}

/// The remote branches to watch: every listed branch whose normalized name
/// matches `branch_regex`, each name once.
pub fn watching_branches(graph: &CommitGraph, branch_regex: &regex::Regex) -> (r: Vec<String>)
    ensures
        forall|b: Seq<char>| #[trigger]
            r.deep_view().contains(b) <==> watched_set(*graph, *branch_regex).contains(b),
        forall|i: int, j: int| 0 <= i < j < r.len() ==> r[i]@ != r[j]@,
{
    let mut out: Vec<String> = Vec::new();
    let mut i: usize = 0;
    while i < graph.branches.len()
        invariant
            0 <= i <= graph.branches.len(),
            forall|b: Seq<char>| #[trigger]
                out.deep_view().contains(b) <==> exists|k: int|
                    0 <= k < i && normalized(#[trigger] graph.branches@[k].0@) == Some(b)
                        && regex_matches(*branch_regex, b),
            forall|p: int, q: int| 0 <= p < q < out.len() ==> out[p]@ != out[q]@,
        decreases graph.branches.len() - i,
    {
        let ghost pre = out.deep_view();
        let ghost raw = graph.branches@[i as int].0@;
        match branch_name_map_filter(graph.branches[i].0.as_str()) {
            None => {
                proof {
                    assert(normalized(raw) is None);
                }
            },
            Some(name) => {
                if regex_is_match(branch_regex, name) {
                    let owned = name.to_owned();
                    if !contains_string(&out, &owned) {
                        let ghost old_len = out.len() as int;
                        out.push(owned);
                        proof {
                            let nd = out.deep_view();
                            assert(nd.len() == pre.len() + 1);
                            assert(out@[old_len]@ == name@);
                            assert forall|k: int| 0 <= k < pre.len() implies nd[k] == pre[k] by {}
                            assert(out.deep_view() =~~= pre.push(name@));
                            lemma_push_contains(pre, name@);
                            assert forall|p: int, q: int|
                                0 <= p < q < out.len() implies out[p]@ != out[q]@ by {
                                if q == old_len {
                                    if out[p]@ == name@ {
                                        assert(pre[p] == name@);
                                        assert(pre.contains(name@));
                                    }
                                }
                            }
                        }
                    }
                }
            },
        }
        proof {
            assert forall|b: Seq<char>| #[trigger] out.deep_view().contains(b) implies exists|k: int|
                0 <= k < i + 1 && normalized(#[trigger] graph.branches@[k].0@) == Some(b)
                    && regex_matches(*branch_regex, b) by {
                if pre.contains(b) {
                    let k = choose|k: int|
                        0 <= k < i && normalized(#[trigger] graph.branches@[k].0@) == Some(b)
                            && regex_matches(*branch_regex, b);
                    assert(normalized(graph.branches@[k].0@) == Some(b));
                } else {
                    assert(normalized(graph.branches@[i as int].0@) == Some(b));
                }
            }
            assert forall|b: Seq<char>|
                (exists|k: int|
                    0 <= k < i + 1 && normalized(#[trigger] graph.branches@[k].0@) == Some(b)
                        && regex_matches(*branch_regex, b)) implies
                out.deep_view().contains(b) by {
                let k = choose|k: int|
                    0 <= k < i + 1 && normalized(#[trigger] graph.branches@[k].0@) == Some(b)
                        && regex_matches(*branch_regex, b);
                if k < i {
                    assert(pre.contains(b));
                }
            }
        }
        i = i + 1;
    }
    proof {
        assert forall|b: Seq<char>| #[trigger] out.deep_view().contains(b) implies watched_set(
            *graph,
            *branch_regex,
        ).contains(b) by {}
        assert forall|b: Seq<char>| watched_set(*graph, *branch_regex).contains(b) implies
            out.deep_view().contains(b) by {}
    }
    out
}

/// The raw remote name a watched branch resolves through: `origin/` plus
/// the normalized name.
pub open spec fn origin_prefixed(name: Seq<char>) -> Seq<char> {
    "origin/"@ + name
}

/// The tip a sweep records for watched branch `b`: the commit id of
/// `origin/b`, or the empty id when the snapshot lacks that branch (a sweep
/// then fails before using it).
pub open spec fn tip_of_watched(g: CommitGraph, b: Seq<char>) -> Seq<char> {
    match g.tip_of(origin_prefixed(b)) {
        Some(c) => c,
        None => Seq::empty(),
    }
}

proof fn lemma_lookup_tip_skip(rows: Seq<(String, String)>, name: Seq<char>, i: int)
    requires
        0 <= i <= rows.len(),
        forall|k: int| 0 <= k < i ==> rows[k].0@ != name,
    ensures
        lookup_tip(rows, name) == lookup_tip(rows.skip(i), name),
    decreases i,
{
    if i > 0 {
        assert(rows[0].0@ != name);
        assert(rows.drop_first() =~= rows.skip(1));
        lemma_lookup_tip_skip(rows.skip(1), name, i - 1);
        assert(rows.skip(1).skip(i - 1) =~= rows.skip(i));
    } else {
        assert(rows.skip(0) =~= rows);
    }
}

/// Resolves a normalized branch name to its current remote tip commit,
/// through the raw name `origin/{branch}`.
pub fn branch_commit(graph: &CommitGraph, branch: &str) -> (r: Result<String, Error>)
    ensures
        r matches Ok(c) ==> graph.tip_of(origin_prefixed(branch@)) == Some(c@),
        r matches Err(e) ==> graph.tip_of(origin_prefixed(branch@)) is None && (e matches
            Error::UnknownRemoteBranch(n) && n@ == branch@),
{
    let mut full: String = "origin/".to_owned();
    full.append(branch);
    proof {
        assert(full@ == origin_prefixed(branch@));
    }
    let mut i: usize = 0;
    while i < graph.branches.len()
        invariant
            0 <= i <= graph.branches.len(),
            full@ == origin_prefixed(branch@),
            forall|k: int| 0 <= k < i ==> graph.branches@[k].0@ != full@,
        decreases graph.branches.len() - i,
    {
        if graph.branches[i].0 == full {
            proof {
                lemma_lookup_tip_skip(graph.branches@, full@, i as int);
                assert(graph.branches@.skip(i as int)[0] == graph.branches@[i as int]);
            }
            return Ok(graph.branches[i].1.clone());
        }
        i = i + 1;
    }
    proof {
        lemma_lookup_tip_skip(graph.branches@, full@, graph.branches.len() as int);
    }
    Err(Error::UnknownRemoteBranch(branch.to_owned()))
}

/// Membership in a prefix extended by one element.
proof fn lemma_prefix_grow(s: Seq<Seq<char>>, i: int)
    requires
        0 <= i < s.len(),
    ensures
        forall|x: Seq<char>| #[trigger]
            s.subrange(0, i + 1).contains(x) <==> (s.subrange(0, i).contains(x) || x == s[i]),
{
    assert forall|x: Seq<char>| #[trigger] s.subrange(0, i + 1).contains(x) implies (s.subrange(
        0,
        i,
    ).contains(x) || x == s[i]) by {
        let k = choose|k: int| 0 <= k < i + 1 && #[trigger] s.subrange(0, i + 1)[k] == x;
        if k < i {
            assert(s.subrange(0, i)[k] == x);
        }
    }
    assert forall|x: Seq<char>| (s.subrange(0, i).contains(x) || x == s[i]) implies #[trigger]
        s.subrange(0, i + 1).contains(x) by {
        if s.subrange(0, i).contains(x) {
            let k = choose|k: int| 0 <= k < i && #[trigger] s.subrange(0, i)[k] == x;
            assert(s.subrange(0, i + 1)[k] == x);
        } else {
            assert(s.subrange(0, i + 1)[i] == x);
        }
    }
}

/// The elements of `a` that are not in `b`, in order, each once.
pub fn vec_diff(a: &Vec<String>, b: &Vec<String>) -> (r: Vec<String>)
    requires
        forall|i: int, j: int| 0 <= i < j < a.len() ==> a[i]@ != a[j]@,
    ensures
        forall|x: Seq<char>| #[trigger]
            r.deep_view().contains(x) <==> (a.deep_view().contains(x) && !b.deep_view().contains(
                x,
            )),
        forall|i: int, j: int| 0 <= i < j < r.len() ==> r[i]@ != r[j]@,
{
    let mut out: Vec<String> = Vec::new();
    let mut i: usize = 0;
    while i < a.len()
        invariant
            0 <= i <= a.len(),
            forall|p: int, q: int| 0 <= p < q < a.len() ==> a[p]@ != a[q]@,
            forall|x: Seq<char>| #[trigger]
                out.deep_view().contains(x) <==> (a.deep_view().subrange(0, i as int).contains(x)
                    && !b.deep_view().contains(x)),
            forall|p: int, q: int| 0 <= p < q < out.len() ==> out[p]@ != out[q]@,
        decreases a.len() - i,
    {
        let ghost pre = out.deep_view();
        proof {
            lemma_prefix_grow(a.deep_view(), i as int);
            if a.deep_view().subrange(0, i as int).contains(a.deep_view()[i as int]) {
                let k = choose|k: int|
                    0 <= k < i && #[trigger] a.deep_view().subrange(0, i as int)[k]
                        == a.deep_view()[i as int];
                assert(a[k]@ == a[i as int]@);
                assert(false);
            }
        }
        if !contains_string(b, &a[i]) {
            let ghost old_len = out.len() as int;
            out.push(a[i].clone());
            proof {
                let nd = out.deep_view();
                assert(nd.len() == pre.len() + 1);
                assert(out@[old_len]@ == a[i as int]@);
                assert forall|k: int| 0 <= k < pre.len() implies nd[k] == pre[k] by {}
                assert(out.deep_view() =~~= pre.push(a[i as int]@));
                lemma_push_contains(pre, a[i as int]@);
                assert forall|p: int, q: int| 0 <= p < q < out.len() implies out[p]@ != out[q]@ by {
                    if q == old_len {
                        if out[p]@ == a[i as int]@ {
                            assert(pre[p] == a[i as int]@);
                            assert(pre.contains(a[i as int]@));
                        }
                    }
                }
            }
        }
        i = i + 1;
    }
    proof {
        assert(a.deep_view().subrange(0, a.len() as int) =~~= a.deep_view());
    }
    out
}

/// The elements of `a` that are also in `b`, in order, each once.
fn vec_intersect(a: &Vec<String>, b: &Vec<String>) -> (r: Vec<String>)
    requires
        forall|i: int, j: int| 0 <= i < j < a.len() ==> a[i]@ != a[j]@,
    ensures
        forall|x: Seq<char>| #[trigger]
            r.deep_view().contains(x) <==> (a.deep_view().contains(x) && b.deep_view().contains(
                x,
            )),
        forall|i: int, j: int| 0 <= i < j < r.len() ==> r[i]@ != r[j]@,
{
    let mut out: Vec<String> = Vec::new();
    let mut i: usize = 0;
    while i < a.len()
        invariant
            0 <= i <= a.len(),
            forall|p: int, q: int| 0 <= p < q < a.len() ==> a[p]@ != a[q]@,
            forall|x: Seq<char>| #[trigger]
                out.deep_view().contains(x) <==> (a.deep_view().subrange(0, i as int).contains(x)
                    && b.deep_view().contains(x)),
            forall|p: int, q: int| 0 <= p < q < out.len() ==> out[p]@ != out[q]@,
        decreases a.len() - i,
    {
        let ghost pre = out.deep_view();
        proof {
            lemma_prefix_grow(a.deep_view(), i as int);
            if a.deep_view().subrange(0, i as int).contains(a.deep_view()[i as int]) {
                let k = choose|k: int|
                    0 <= k < i && #[trigger] a.deep_view().subrange(0, i as int)[k]
                        == a.deep_view()[i as int];
                assert(a[k]@ == a[i as int]@);
                assert(false);
            }
        }
        if contains_string(b, &a[i]) {
            let ghost old_len = out.len() as int;
            out.push(a[i].clone());
            proof {
                let nd = out.deep_view();
                assert(nd.len() == pre.len() + 1);
                assert(out@[old_len]@ == a[i as int]@);
                assert forall|k: int| 0 <= k < pre.len() implies nd[k] == pre[k] by {}
                assert(out.deep_view() =~~= pre.push(a[i as int]@));
                lemma_push_contains(pre, a[i as int]@);
                assert forall|p: int, q: int| 0 <= p < q < out.len() implies out[p]@ != out[q]@ by {
                    if q == old_len {
                        if out[p]@ == a[i as int]@ {
                            assert(pre[p] == a[i as int]@);
                            assert(pre.contains(a[i as int]@));
                        }
                    }
                }
            }
        }
        i = i + 1;
    }
    proof {
        assert(a.deep_view().subrange(0, a.len() as int) =~~= a.deep_view());
    }
    out
}


/// The commits the store records for `branch`.
pub open spec fn cached_set(facts: Set<(Seq<char>, Seq<char>)>, branch: Seq<char>) -> Set<
    Seq<char>,
> {
    Set::new(|c: Seq<char>| facts.contains((branch, c)))
}

/// The store's data invariant: every fact belongs to a tracked branch, and
/// each tracked branch's facts are exactly the ancestor closure of its
/// recorded head.
pub open spec fn store_inv(
    g: CommitGraph,
    facts: Set<(Seq<char>, Seq<char>)>,
    heads: Map<Seq<char>, Seq<char>>,
) -> bool {
    &&& forall|b: Seq<char>, c: Seq<char>| #[trigger]
        facts.contains((b, c)) ==> heads.dom().contains(b)
    &&& forall|b: Seq<char>, c: Seq<char>|
        #![trigger facts.contains((b, c))]
        #![trigger reaches(g, heads[b], c)]
        heads.dom().contains(b) ==> (facts.contains((b, c)) <==> reaches(g, heads[b], c))
}

/// What one completed sweep leaves behind: the tracked branches are exactly
/// the watched ones, each head is the current remote tip, and the facts are
/// exactly each watched branch's ancestor closure of that tip.
pub open spec fn sweep_post(
    g: CommitGraph,
    re: regex::Regex,
    facts: Set<(Seq<char>, Seq<char>)>,
    heads: Map<Seq<char>, Seq<char>>,
) -> bool {
    &&& forall|b: Seq<char>| #[trigger]
        heads.dom().contains(b) <==> watched_set(g, re).contains(b)
    &&& forall|b: Seq<char>| #[trigger]
        watched_set(g, re).contains(b) ==> heads[b] == tip_of_watched(g, b)
    &&& forall|b: Seq<char>, c: Seq<char>|
        #![trigger facts.contains((b, c))]
        #![trigger reaches(g, tip_of_watched(g, b), c)]
        facts.contains((b, c)) <==> (watched_set(g, re).contains(b) && reaches(
            g,
            tip_of_watched(g, b),
            c,
        ))
}

/// The incremental delta walk: walks backward from `tip`, stops each path at
/// a commit already recorded for `branch`, and collects the newly discovered
/// commit ids, each once.
pub fn gather_new_commits(
    conn: &rusqlite::Connection,
    graph: &CommitGraph,
    branch: &str,
    tip: &String,
) -> (r: Result<Vec<String>, Error>)
    ensures
        r matches Ok(v) ==> {
            &&& forall|c: Seq<char>| #[trigger]
                v.deep_view().contains(c) <==> reaches_avoiding(
                    *graph,
                    tip@,
                    c,
                    cached_set(facts_of(*conn), branch@),
                )
            &&& forall|i: int, j: int| 0 <= i < j < v.len() ==> v[i]@ != v[j]@
        },
        r matches Err(e) ==> e matches Error::DB(_),
{
    let ghost avoid = cached_set(facts_of(*conn), branch@);
    let mut visited: Vec<String> = Vec::new();
    let mut queue: Vec<String> = Vec::new();
    queue.push(tip.clone());
    let mut qi: usize = 0;
    proof {
        lemma_bfs_init(*graph, tip@, avoid);
        assert(queue.deep_view() =~~= seq![tip@]);
        assert(visited.deep_view() =~~= Seq::<Seq<char>>::empty());
        lemma_id_universe_finite(*graph, tip@);
    }
    while qi < queue.len()
        invariant
            bfs_inv(
                *graph,
                tip@,
                avoid,
                visited.deep_view(),
                queue.deep_view(),
                qi as int,
            ),
            avoid == cached_set(facts_of(*conn), branch@),
            id_universe(*graph, tip@).finite(),
        decreases
                id_universe(*graph, tip@).len()
                    - visited.deep_view().to_set().len(),
                queue.len() - qi,
    {
        proof {
            lemma_bfs_measure_bounds(*graph, tip@, visited.deep_view());
        }
        let c = queue[qi].clone();
        proof {
            assert(queue.deep_view()[qi as int] == c@);
        }
        let exist = match cache::query_cache(conn, branch, c.as_str()) {
            Ok(e) => e,
            Err(e) => {
                return Err(e);
            },
        };
        proof {
            assert(exist == avoid.contains(c@));
        }
        if !exist && !contains_string(&visited, &c) {
            let ps = graph.parents(&c);
            let ghost pre_v = visited.deep_view();
            let ghost pre_q = queue.deep_view();
            proof {
                lemma_bfs_expand(
                    *graph,
                    tip@,
                    avoid,
                    pre_v,
                    pre_q,
                    qi as int,
                    ps.deep_view(),
                );
            }
            visited.push(c.clone());
            let mut j: usize = 0;
            while j < ps.len()
                invariant
                    0 <= j <= ps.len(),
                    queue.deep_view() =~~= pre_q + ps.deep_view().subrange(0, j as int),
                decreases ps.len() - j,
            {
                let ghost mid_q = queue.deep_view();
                queue.push(ps[j].clone());
                proof {
                    let nq = queue.deep_view();
                    assert(nq.len() == mid_q.len() + 1);
                    assert(queue@[mid_q.len() as int]@ == ps.deep_view()[j as int]);
                    assert forall|k: int| 0 <= k < mid_q.len() implies nq[k] == mid_q[k] by {}
                    assert(queue.deep_view() =~~= pre_q + ps.deep_view().subrange(0, j + 1 as int));
                }
                j = j + 1;
            }
            proof {
                assert(ps.deep_view().subrange(0, ps.len() as int) =~~= ps.deep_view());
                assert(visited.deep_view() =~~= pre_v.push(c@));
                assert(queue.deep_view() =~~= pre_q + ps.deep_view());
                lemma_bfs_measure_bounds(*graph, tip@, visited.deep_view());
                lemma_push_contains(pre_v, c@);
                assert(visited.deep_view().to_set() =~= pre_v.to_set().insert(c@));
            }
        } else {
            proof {
                lemma_bfs_skip(
                    *graph,
                    tip@,
                    avoid,
                    visited.deep_view(),
                    queue.deep_view(),
                    qi as int,
                );
            }
        }
        qi = qi + 1;
    }
    proof {
        lemma_bfs_complete(
            *graph,
            tip@,
            avoid,
            visited.deep_view(),
            queue.deep_view(),
        );
        assert forall|i: int, j: int| 0 <= i < j < visited.len() implies visited[i]@
            != visited[j]@ by {
            assert(visited.deep_view()[i] == visited[i]@);
            assert(visited.deep_view()[j] == visited[j]@);
        }
    }
    Ok(visited)
}

/// Abandons a failed per-branch transaction: attempts a rollback and moves
/// on. Whatever the rollback's own outcome, the rows that remain once any
/// still-open transaction unwinds are exactly those it would have restored.
fn abort_tx(conn: &mut rusqlite::Connection)
    ensures
        settled_facts_of(*final(conn)) == settled_facts_of(*old(conn)),
        settled_heads_of(*final(conn)) == settled_heads_of(*old(conn)),
{
    let _ = sql::tx_rollback(conn);
}

/// Applies a fast-forward movement of `branch` to `tip`: discovers the
/// commits introduced since the recorded head with the delta walk and
/// commits them together with the new head in one transaction. On failure
/// the branch's unit of work leaves nothing behind: once any transaction
/// left open unwinds, the rows are those at entry.
fn fast_forward_branch(
    conn: &mut rusqlite::Connection,
    graph: &CommitGraph,
    branch: &str,
    tip: &String,
) -> (r: Result<(), Error>)
    requires
        !tx_open(*old(conn)),
        heads_of(*old(conn)).dom().contains(branch@),
        forall|c: Seq<char>| #[trigger]
            facts_of(*old(conn)).contains((branch@, c)) <==> reaches(
                *graph,
                heads_of(*old(conn))[branch@],
                c,
            ),
        reaches(*graph, tip@, heads_of(*old(conn))[branch@]),
    ensures
        r is Ok ==> {
            &&& heads_of(*final(conn)) == heads_of(*old(conn)).insert(branch@, tip@)
            &&& forall|x: Seq<char>, c: Seq<char>| #[trigger]
                facts_of(*final(conn)).contains((x, c)) <==> (facts_of(*old(conn)).contains((x, c))
                    || (x == branch@ && reaches(*graph, tip@, c)))
            &&& !tx_open(*final(conn))
        },
        r is Err ==> {
            &&& settled_facts_of(*final(conn)) == facts_of(*old(conn))
            &&& settled_heads_of(*final(conn)) == heads_of(*old(conn))
        },
        r matches Err(e) ==> e matches Error::DB(_),
{
    let ghost facts0 = facts_of(*conn);
    let ghost heads0 = heads_of(*conn);
    let ghost h0 = heads_of(*conn)[branch@];
    let ghost avoid = cached_set(facts0, branch@);
    let new_commits = match gather_new_commits(&*conn, graph, branch, tip) {
        Ok(v) => v,
        Err(e) => {
            return Err(e);
        },
    };
    proof {
        // the stop set is exactly the old head's closure, which is closed
        // under parent steps, so the delta walk finds exactly the commits
        // reachable from the tip and not yet recorded
        assert forall|x: Seq<char>, y: Seq<char>|
            #![trigger avoid.contains(x), graph.edge(x, y)]
            avoid.contains(x) && graph.edge(x, y) implies avoid.contains(y) by {
            lemma_reaches_step(*graph, h0, x, y);
        }
        if avoid.contains(tip@) {
            assert forall|c: Seq<char>| #[trigger]
                new_commits.deep_view().contains(c) implies false by {
                let p = choose|p: Seq<Seq<char>>|
                    is_walk(*graph, p, tip@, c) && avoids(p, avoid);
                assert(!avoid.contains(p[0]));
            }
            assert forall|c: Seq<char>| reaches(*graph, tip@, c) implies facts0.contains(
                (branch@, c),
            ) by {
                lemma_reaches_trans(*graph, h0, tip@, c);
            }
        } else {
            assert forall|c: Seq<char>| #[trigger]
                new_commits.deep_view().contains(c) <==> (reaches(*graph, tip@, c)
                    && !avoid.contains(c)) by {
                lemma_avoid_closed_reaches(*graph, tip@, c, avoid);
            }
        }
    }
    match sql::tx_begin(conn) {
        Ok(()) => (),
        Err(e) => {
            return Err(Error::DB(e));
        },
    }
    match cache::batch_store_cache(conn, branch, &new_commits) {
        Ok(()) => (),
        Err(e) => {
            proof {
                assert(settled_facts_of(*conn) == facts0);
                assert(settled_heads_of(*conn) == heads0);
            }
            abort_tx(conn);
            return Err(e);
        },
    }
    match cache::update_branch(conn, branch, tip.as_str()) {
        Ok(()) => (),
        Err(e) => {
            proof {
                assert(settled_facts_of(*conn) == facts0);
                assert(settled_heads_of(*conn) == heads0);
            }
            abort_tx(conn);
            return Err(e);
        },
    }
    match sql::tx_commit(conn) {
        Ok(()) => (),
        Err(e) => {
            proof {
                assert(settled_facts_of(*conn) == facts0);
                assert(settled_heads_of(*conn) == heads0);
            }
            abort_tx(conn);
            return Err(Error::DB(e));
        },
    }
    proof {
        assert forall|x: Seq<char>, c: Seq<char>| #[trigger]
            facts_of(*conn).contains((x, c)) <==> (facts0.contains((x, c)) || (x == branch@
                && reaches(*graph, tip@, c))) by {
            assert(facts_of(*conn) == facts0.union(
                cache::fact_pairs(branch@, new_commits.deep_view()),
            ));
            if x == branch@ && reaches(*graph, tip@, c) && !facts0.contains((x, c)) {
                assert(!avoid.contains(c));
                assert(!avoid.contains(tip@)) by {
                    if avoid.contains(tip@) {
                        lemma_reaches_trans(*graph, h0, tip@, c);
                    }
                }
                assert(new_commits.deep_view().contains(c));
            }
            if cache::fact_pairs(branch@, new_commits.deep_view()).contains((x, c)) {
                assert(new_commits.deep_view().contains(c));
                if avoid.contains(tip@) {
                    assert(false);
                } else {
                    assert(reaches(*graph, tip@, c));
                }
            }
        }
    }
    Ok(())
}

/// Rebuilds `branch` from scratch: collects the complete ancestor closure
/// of `tip` with an unbounded full walk and commits it together with a
/// fresh head record in one transaction. On failure the branch's unit of
/// work leaves nothing behind: once any transaction left open unwinds, the
/// rows are those at entry.
fn rebuild_branch(
    conn: &mut rusqlite::Connection,
    graph: &CommitGraph,
    branch: &str,
    tip: &String,
) -> (r: Result<(), Error>)
    requires
        !tx_open(*old(conn)),
    ensures
        r is Ok ==> {
            &&& heads_of(*final(conn)) == heads_of(*old(conn)).insert(branch@, tip@)
            &&& forall|x: Seq<char>, c: Seq<char>| #[trigger]
                facts_of(*final(conn)).contains((x, c)) <==> (facts_of(*old(conn)).contains((x, c))
                    || (x == branch@ && reaches(*graph, tip@, c)))
            &&& !tx_open(*final(conn))
        },
        r is Err ==> {
            &&& settled_facts_of(*final(conn)) == facts_of(*old(conn))
            &&& settled_heads_of(*final(conn)) == heads_of(*old(conn))
        },
        r matches Err(e) ==> e matches Error::DB(_),
{
    let ghost facts0 = facts_of(*conn);
    let ghost heads0 = heads_of(*conn);
    let commits = gather_commits(graph, tip);
    match sql::tx_begin(conn) {
        Ok(()) => (),
        Err(e) => {
            return Err(Error::DB(e));
        },
    }
    match cache::batch_store_cache(conn, branch, &commits) {
        Ok(()) => (),
        Err(e) => {
            proof {
                assert(settled_facts_of(*conn) == facts0);
                assert(settled_heads_of(*conn) == heads0);
            }
            abort_tx(conn);
            return Err(e);
        },
    }
    match cache::store_branch(conn, branch, tip.as_str()) {
        Ok(()) => (),
        Err(e) => {
            proof {
                assert(settled_facts_of(*conn) == facts0);
                assert(settled_heads_of(*conn) == heads0);
            }
            abort_tx(conn);
            return Err(e);
        },
    }
    match sql::tx_commit(conn) {
        Ok(()) => (),
        Err(e) => {
            proof {
                assert(settled_facts_of(*conn) == facts0);
                assert(settled_heads_of(*conn) == heads0);
            }
            abort_tx(conn);
            return Err(Error::DB(e));
        },
    }
    proof {
        assert forall|x: Seq<char>, c: Seq<char>| #[trigger]
            facts_of(*conn).contains((x, c)) <==> (facts0.contains((x, c)) || (x == branch@
                && reaches(*graph, tip@, c))) by {
            assert(facts_of(*conn) == facts0.union(
                cache::fact_pairs(branch@, commits.deep_view()),
            ));
        }
    }
    Ok(())
}

/// Whether `x` occurs among the first `n` elements of `s`.
pub open spec fn in_prefix(s: Seq<Seq<char>>, n: int, x: Seq<char>) -> bool {
    exists|k: int| 0 <= k < n && s[k] == x
}

proof fn lemma_in_prefix_grow(s: Seq<Seq<char>>, n: int)
    requires
        0 <= n < s.len(),
    ensures
        forall|x: Seq<char>| #[trigger] in_prefix(s, n + 1, x) <==> (in_prefix(s, n, x) || x == s[n]),
{
    assert forall|x: Seq<char>| #[trigger] in_prefix(s, n + 1, x) implies (in_prefix(s, n, x) || x
        == s[n]) by {
        let k = choose|k: int| 0 <= k < n + 1 && s[k] == x;
        if k < n {
            assert(in_prefix(s, n, x));
        }
    }
    assert forall|x: Seq<char>| (in_prefix(s, n, x) || x == s[n]) implies #[trigger] in_prefix(
        s,
        n + 1,
        x,
    ) by {
        if in_prefix(s, n, x) {
            let k = choose|k: int| 0 <= k < n && s[k] == x;
            assert(0 <= k < n + 1 && s[k] == x);
        } else {
            assert(0 <= n < n + 1 && s[n] == x);
        }
    }
}

proof fn lemma_in_prefix_all(s: Seq<Seq<char>>)
    ensures
        forall|x: Seq<char>| #[trigger] s.contains(x) <==> in_prefix(s, s.len() as int, x),
{
    assert forall|x: Seq<char>| #[trigger] s.contains(x) implies in_prefix(s, s.len() as int, x) by {
        let k = choose|k: int| 0 <= k < s.len() && s[k] == x;
        assert(0 <= k < s.len() && s[k] == x);
    }
    assert forall|x: Seq<char>| in_prefix(s, s.len() as int, x) implies #[trigger] s.contains(x) by {
        let k = choose|k: int| 0 <= k < s.len() && s[k] == x;
        assert(s[k] == x);
    }
}

/// One sweep of the reachability updater. Starting from a store that
/// satisfies the data invariant, it diffs the watched branches against the
/// tracked ones, skips unmoved branches, advances fast-forwarded branches
/// incrementally, invalidates unwatched and rewritten branches, and rebuilds
/// the latter and newly watched branches from scratch. On success the store
/// tracks exactly the watched branches, each at its current tip with its
/// exact ancestor closure, and no transaction is left open. On failure,
/// should a per-branch transaction be left open, its rollback point is a
/// consistent store satisfying the data invariant: no branch's delta or
/// rebuild group is ever half-committed.
pub fn update_cache(
    conn: &mut rusqlite::Connection,
    graph: &CommitGraph,
    branch_regex: &regex::Regex,
) -> (r: Result<(), Error>)
    requires
        store_inv(*graph, facts_of(*old(conn)), heads_of(*old(conn))),
        !tx_open(*old(conn)),
    ensures
        r is Ok ==> sweep_post(
            *graph,
            *branch_regex,
            facts_of(*final(conn)),
            heads_of(*final(conn)),
        ),
        r is Ok ==> !tx_open(*final(conn)),
        r is Ok && sweep_post(
            *graph,
            *branch_regex,
            facts_of(*old(conn)),
            heads_of(*old(conn)),
        ) ==> facts_of(*final(conn)) == facts_of(*old(conn)) && heads_of(*final(conn)) == heads_of(
            *old(conn),
        ),
        r matches Err(e) ==> (e matches Error::UnknownRemoteBranch(n) ==> watched_set(
            *graph,
            *branch_regex,
        ).contains(n@) && graph.tip_of(origin_prefixed(n@)) is None),
        r is Err ==> (tx_open(*final(conn)) ==> store_inv(
            *graph,
            saved_facts_of(*final(conn)),
            saved_heads_of(*final(conn)),
        )),
{
    let ghost g = *graph;
    let ghost w = watched_set(*graph, *branch_regex);
    let ghost heads0 = heads_of(*conn);
    let ghost facts0 = facts_of(*conn);

    let watched = watching_branches(graph, branch_regex);
    let old_branches = match cache::branches(&*conn) {
        Ok(v) => v,
        Err(e) => {
            return Err(e);
        },
    };
    let mut new_branches = vec_diff(&watched, &old_branches);
    let update_branches = vec_intersect(&watched, &old_branches);
    let mut remove_branches = vec_diff(&old_branches, &watched);
    let ghost mut rw: Set<Seq<char>> = Set::empty();

    // retained branches: skip, fast-forward, or defer to rebuild
    let mut i: usize = 0;
    while i < update_branches.len()
        invariant
            0 <= i <= update_branches.len(),
            g == *graph,
            w == watched_set(*graph, *branch_regex),
            store_inv(g, facts_of(*conn), heads_of(*conn)),
            !tx_open(*conn),
            forall|x: Seq<char>| #[trigger]
                heads_of(*conn).dom().contains(x) <==> heads0.dom().contains(x),
            forall|x: Seq<char>| #[trigger]
                update_branches.deep_view().contains(x) <==> (w.contains(x)
                    && heads0.dom().contains(x)),
            forall|p: int, q: int|
                0 <= p < q < update_branches.len() ==> update_branches[p]@ != update_branches[q]@,
            forall|k: int|
                0 <= k < i ==> (rw.contains(#[trigger] update_branches.deep_view()[k])
                    || heads_of(*conn)[update_branches.deep_view()[k]] == tip_of_watched(
                    g,
                    update_branches.deep_view()[k],
                )),
            forall|x: Seq<char>| #[trigger]
                rw.contains(x) ==> in_prefix(update_branches.deep_view(), i as int, x),
            forall|x: Seq<char>| #[trigger]
                new_branches.deep_view().contains(x) <==> ((w.contains(x)
                    && !heads0.dom().contains(x)) || rw.contains(x)),
            forall|x: Seq<char>| #[trigger]
                remove_branches.deep_view().contains(x) <==> ((heads0.dom().contains(x)
                    && !w.contains(x)) || rw.contains(x)),
            forall|p: int, q: int|
                0 <= p < q < new_branches.len() ==> new_branches[p]@ != new_branches[q]@,
            forall|p: int, q: int|
                0 <= p < q < remove_branches.len() ==> remove_branches[p]@ != remove_branches[q]@,
        decreases update_branches.len() - i,
    {
        let b = update_branches[i].clone();
        proof {
            assert(update_branches.deep_view()[i as int] == b@);
            assert(update_branches.deep_view().contains(b@));
        }
        let tip = match branch_commit(graph, b.as_str()) {
            Ok(c) => c,
            Err(e) => {
                proof {
                    assert(w.contains(b@));
                }
                return Err(e);
            },
        };
        proof {
            assert(tip_of_watched(g, b@) == tip@);
        }
        let old_commit = match cache::query_branch(&*conn, b.as_str()) {
            Ok(c) => c,
            Err(e) => {
                return Err(e);
            },
        };
        if tip == old_commit {
            // unmoved: the recorded head already is the current tip
            proof {
                assert(heads_of(*conn)[b@] == tip_of_watched(g, b@));
            }
        } else if is_parent(graph, &old_commit, &tip) {
            // fast-forward: walk only the newly introduced commits
            let ghost pre_facts = facts_of(*conn);
            let ghost pre_heads = heads_of(*conn);
            proof {
                assert(pre_heads.dom().contains(b@));
                assert(pre_heads[b@] == old_commit@);
                assert forall|c: Seq<char>| #[trigger]
                    pre_facts.contains((b@, c)) <==> reaches(g, pre_heads[b@], c) by {
                    assert(pre_heads.dom().contains(b@));
                }
            }
            match fast_forward_branch(conn, graph, b.as_str(), &tip) {
                Ok(()) => (),
                Err(e) => {
                    proof {
                        if tx_open(*conn) {
                            assert(saved_facts_of(*conn) == pre_facts);
                            assert(saved_heads_of(*conn) == pre_heads);
                        }
                    }
                    return Err(e);
                },
            }
            proof {
                let nf = facts_of(*conn);
                let nh = heads_of(*conn);
                assert(nh == pre_heads.insert(b@, tip@));
                assert forall|x: Seq<char>, c: Seq<char>|
                    #![trigger nf.contains((x, c))]
                    nf.contains((x, c)) implies nh.dom().contains(x) by {
                    if !pre_facts.contains((x, c)) {
                        assert(x == b@);
                    }
                }
                assert forall|x: Seq<char>, c: Seq<char>|
                    #![trigger nf.contains((x, c))]
                    #![trigger reaches(g, nh[x], c)]
                    nh.dom().contains(x) implies (nf.contains((x, c)) <==> reaches(
                    g,
                    nh[x],
                    c,
                )) by {
                    if x == b@ {
                        assert(reaches(g, tip@, pre_heads[b@]));
                        if pre_facts.contains((b@, c)) {
                            assert(reaches(g, pre_heads[b@], c));
                            lemma_reaches_trans(g, tip@, pre_heads[b@], c);
                        }
                    } else {
                        assert(pre_heads.dom().contains(x));
                        assert(nf.contains((x, c)) <==> pre_facts.contains((x, c)));
                        assert(nh[x] == pre_heads[x]);
                    }
                }
                assert forall|k: int|
                    0 <= k < i + 1 implies (rw.contains(
                    #[trigger] update_branches.deep_view()[k],
                ) || heads_of(*conn)[update_branches.deep_view()[k]] == tip_of_watched(
                    g,
                    update_branches.deep_view()[k],
                )) by {
                    let x = update_branches.deep_view()[k];
                    if k < i {
                        if !rw.contains(x) {
                            assert(update_branches[k as int]@ != update_branches[i as int]@);
                            assert(x != b@);
                            assert(nh[x] == pre_heads[x]);
                        }
                    } else {
                        assert(nh[b@] == tip@);
                    }
                }
            }
        } else {
            // rewritten history: invalidate, then rebuild under the new tip
            let ghost pre_new = new_branches.deep_view();
            let ghost pre_rm = remove_branches.deep_view();
            proof {
                if rw.contains(b@) {
                    let k = choose|k: int|
                        0 <= k < i && update_branches.deep_view()[k] == b@;
                    assert(update_branches[k]@ == update_branches[i as int]@);
                    assert(false);
                }
            }
            remove_branches.push(b.clone());
            new_branches.push(b.clone());
            proof {
                let nn = new_branches.deep_view();
                assert(nn.len() == pre_new.len() + 1);
                assert(new_branches@[pre_new.len() as int]@ == b@);
                assert forall|k: int| 0 <= k < pre_new.len() implies nn[k] == pre_new[k] by {}
                assert(nn =~~= pre_new.push(b@));
                lemma_push_contains(pre_new, b@);
                let nr = remove_branches.deep_view();
                assert(nr.len() == pre_rm.len() + 1);
                assert(remove_branches@[pre_rm.len() as int]@ == b@);
                assert forall|k: int| 0 <= k < pre_rm.len() implies nr[k] == pre_rm[k] by {}
                assert(nr =~~= pre_rm.push(b@));
                lemma_push_contains(pre_rm, b@);
                rw = rw.insert(b@);
                assert forall|x: Seq<char>| #[trigger] rw.contains(x) implies in_prefix(
                    update_branches.deep_view(),
                    i + 1 as int,
                    x,
                ) by {
                    if x == b@ {
                        assert(update_branches.deep_view()[i as int] == x);
                    } else {
                        let k = choose|k: int|
                            0 <= k < i && update_branches.deep_view()[k] == x;
                        assert(0 <= k < i + 1 && update_branches.deep_view()[k] == x);
                    }
                }
                assert forall|p: int, q: int|
                    0 <= p < q < new_branches.len() implies new_branches[p]@
                    != new_branches[q]@ by {
                    if q == pre_new.len() {
                        if new_branches[p]@ == b@ {
                            assert(pre_new[p] == b@);
                            assert(pre_new.contains(b@));
                        }
                    }
                }
                assert forall|p: int, q: int|
                    0 <= p < q < remove_branches.len() implies remove_branches[p]@
                    != remove_branches[q]@ by {
                    if q == pre_rm.len() {
                        if remove_branches[p]@ == b@ {
                            assert(pre_rm[p] == b@);
                            assert(pre_rm.contains(b@));
                        }
                    }
                }
            }
        }
        i = i + 1;
    }

    let ghost heads_a = heads_of(*conn);
    let ghost facts_a = facts_of(*conn);
    proof {
        lemma_in_prefix_all(update_branches.deep_view());
        assert forall|x: Seq<char>| #[trigger] rw.contains(x) implies (w.contains(x)
            && heads0.dom().contains(x)) by {
            assert(in_prefix(update_branches.deep_view(), update_branches.len() as int, x));
            assert(update_branches.deep_view().contains(x));
        }
        assert forall|x: Seq<char>|
            (w.contains(x) && heads0.dom().contains(x) && !rw.contains(x)) implies heads_a[x]
            == tip_of_watched(g, x) by {
            assert(update_branches.deep_view().contains(x));
            let k = choose|k: int|
                0 <= k < update_branches.deep_view().len() && update_branches.deep_view()[k] == x;
            assert(rw.contains(update_branches.deep_view()[k]) || heads_a[update_branches.deep_view()[k]]
                == tip_of_watched(g, update_branches.deep_view()[k]));
        }
    }

    // unwatched and rewritten branches: delete facts and head together
    let mut i: usize = 0;
    while i < remove_branches.len()
        invariant
            0 <= i <= remove_branches.len(),
            g == *graph,
            !tx_open(*conn),
            forall|x: Seq<char>| #[trigger]
                heads_of(*conn).dom().contains(x) <==> (heads_a.dom().contains(x) && !in_prefix(
                    remove_branches.deep_view(),
                    i as int,
                    x,
                )),
            forall|x: Seq<char>| #[trigger]
                heads_of(*conn).dom().contains(x) ==> heads_of(*conn)[x] == heads_a[x],
            forall|x: Seq<char>, c: Seq<char>| #[trigger]
                facts_of(*conn).contains((x, c)) <==> (facts_a.contains((x, c)) && !in_prefix(
                    remove_branches.deep_view(),
                    i as int,
                    x,
                )),
        decreases remove_branches.len() - i,
    {
        let b = remove_branches[i].clone();
        proof {
            assert(remove_branches.deep_view()[i as int] == b@);
        }
        let ghost pre_heads = heads_of(*conn);
        let ghost pre_facts = facts_of(*conn);
        match cache::remove_branch(conn, b.as_str()) {
            Ok(()) => (),
            Err(e) => {
                proof {
                    assert(!tx_open(*conn));
                }
                return Err(e);
            },
        }
        proof {
            lemma_in_prefix_grow(remove_branches.deep_view(), i as int);
            assert(heads_of(*conn) == pre_heads.remove(b@));
            assert(facts_of(*conn) == pre_facts.filter(
                |p: (Seq<char>, Seq<char>)| p.0 != b@,
            ));
            assert forall|x: Seq<char>, c: Seq<char>| #[trigger]
                facts_of(*conn).contains((x, c)) <==> (facts_a.contains((x, c)) && !in_prefix(
                    remove_branches.deep_view(),
                    i + 1 as int,
                    x,
                )) by {
                assert(facts_of(*conn).contains((x, c)) <==> (pre_facts.contains((x, c)) && x
                    != b@));
            }
        }
        i = i + 1;
    }

    let ghost heads_b = heads_of(*conn);
    let ghost facts_b = facts_of(*conn);
    proof {
        lemma_in_prefix_all(remove_branches.deep_view());
    }

    // newly watched and rewritten branches: full rebuild under the new tip
    let mut i: usize = 0;
    while i < new_branches.len()
        invariant
            0 <= i <= new_branches.len(),
            g == *graph,
            w == watched_set(*graph, *branch_regex),
            !tx_open(*conn),
            store_inv(g, facts_a, heads_a),
            forall|x: Seq<char>| #[trigger]
                heads_a.dom().contains(x) <==> heads0.dom().contains(x),
            forall|x: Seq<char>| #[trigger]
                heads_b.dom().contains(x) <==> (heads_a.dom().contains(x)
                    && !remove_branches.deep_view().contains(x)),
            forall|x: Seq<char>| #[trigger]
                heads_b.dom().contains(x) ==> heads_b[x] == heads_a[x],
            forall|x: Seq<char>, c: Seq<char>| #[trigger]
                facts_b.contains((x, c)) <==> (facts_a.contains((x, c))
                    && !remove_branches.deep_view().contains(x)),
            forall|x: Seq<char>| #[trigger]
                remove_branches.deep_view().contains(x) <==> ((heads0.dom().contains(x)
                    && !w.contains(x)) || rw.contains(x)),
            forall|x: Seq<char>|
                (w.contains(x) && heads0.dom().contains(x) && !rw.contains(x)) ==> heads_a[x]
                    == tip_of_watched(g, x),
            forall|x: Seq<char>| #[trigger]
                new_branches.deep_view().contains(x) <==> ((w.contains(x)
                    && !heads0.dom().contains(x)) || rw.contains(x)),
            forall|x: Seq<char>| #[trigger] rw.contains(x) ==> w.contains(x),
            forall|p: int, q: int|
                0 <= p < q < new_branches.len() ==> new_branches[p]@ != new_branches[q]@,
            forall|x: Seq<char>| #[trigger]
                heads_of(*conn).dom().contains(x) <==> (heads_b.dom().contains(x) || in_prefix(
                    new_branches.deep_view(),
                    i as int,
                    x,
                )),
            forall|x: Seq<char>|
                in_prefix(new_branches.deep_view(), i as int, x) ==> heads_of(*conn)[x]
                    == tip_of_watched(g, x),
            forall|x: Seq<char>| #[trigger]
                heads_of(*conn).dom().contains(x) && !in_prefix(
                    new_branches.deep_view(),
                    i as int,
                    x,
                ) ==> heads_of(*conn)[x] == heads_b[x],
            forall|x: Seq<char>, c: Seq<char>| #[trigger]
                facts_of(*conn).contains((x, c)) <==> (facts_b.contains((x, c)) || (in_prefix(
                    new_branches.deep_view(),
                    i as int,
                    x,
                ) && reaches(g, tip_of_watched(g, x), c))),
        decreases new_branches.len() - i,
    {
        let b = new_branches[i].clone();
        proof {
            assert(new_branches.deep_view()[i as int] == b@);
            assert(new_branches.deep_view().contains(b@));
            assert(w.contains(b@));
        }
        let tip = match branch_commit(graph, b.as_str()) {
            Ok(c) => c,
            Err(e) => {
                proof {
                    assert(w.contains(b@));
                }
                return Err(e);
            },
        };
        proof {
            assert(tip_of_watched(g, b@) == tip@);
        }
        let ghost pre_heads = heads_of(*conn);
        let ghost pre_facts = facts_of(*conn);
        proof {
            // the store between two rebuilds is consistent: every tracked
            // branch holds exactly the closure of its recorded head
            assert forall|x: Seq<char>, c: Seq<char>| #[trigger]
                pre_facts.contains((x, c)) implies pre_heads.dom().contains(x) by {
                if facts_b.contains((x, c)) {
                    assert(facts_a.contains((x, c)));
                    assert(heads_a.dom().contains(x));
                    assert(!remove_branches.deep_view().contains(x));
                    assert(heads_b.dom().contains(x));
                } else {
                    assert(in_prefix(new_branches.deep_view(), i as int, x));
                }
            }
            assert forall|x: Seq<char>, c: Seq<char>|
                #![trigger pre_facts.contains((x, c))]
                #![trigger reaches(g, pre_heads[x], c)]
                pre_heads.dom().contains(x) implies (pre_facts.contains((x, c)) <==> reaches(
                g,
                pre_heads[x],
                c,
            )) by {
                if in_prefix(new_branches.deep_view(), i as int, x) {
                    assert(pre_heads[x] == tip_of_watched(g, x));
                    let k = choose|k: int| 0 <= k < i && new_branches.deep_view()[k] == x;
                    assert(new_branches.deep_view()[k] == x);
                    assert(new_branches.deep_view().contains(x));
                    if facts_b.contains((x, c)) {
                        if rw.contains(x) {
                            assert(remove_branches.deep_view().contains(x));
                        } else {
                            assert(!heads0.dom().contains(x));
                            assert(facts_a.contains((x, c)));
                            assert(heads_a.dom().contains(x));
                        }
                        assert(false);
                    }
                } else {
                    assert(heads_b.dom().contains(x));
                    assert(pre_heads[x] == heads_b[x]);
                    assert(heads_b[x] == heads_a[x]);
                    assert(!remove_branches.deep_view().contains(x));
                    assert(heads_a.dom().contains(x));
                    assert(facts_b.contains((x, c)) <==> facts_a.contains((x, c)));
                    assert(facts_a.contains((x, c)) <==> reaches(g, heads_a[x], c));
                    assert(pre_facts.contains((x, c)) <==> facts_b.contains((x, c)));
                }
            }
            assert(store_inv(g, pre_facts, pre_heads));
        }
        match rebuild_branch(conn, graph, b.as_str(), &tip) {
            Ok(()) => (),
            Err(e) => {
                proof {
                    if tx_open(*conn) {
                        assert(saved_facts_of(*conn) == pre_facts);
                        assert(saved_heads_of(*conn) == pre_heads);
                    }
                }
                return Err(e);
            },
        }
        proof {
            lemma_in_prefix_grow(new_branches.deep_view(), i as int);
            assert(heads_of(*conn) == pre_heads.insert(b@, tip@));
            assert forall|x: Seq<char>|
                in_prefix(new_branches.deep_view(), i + 1 as int, x) implies heads_of(*conn)[x]
                == tip_of_watched(g, x) by {
                if x != b@ {
                    assert(in_prefix(new_branches.deep_view(), i as int, x));
                }
            }
            assert forall|x: Seq<char>, c: Seq<char>| #[trigger]
                facts_of(*conn).contains((x, c)) <==> (facts_b.contains((x, c)) || (in_prefix(
                    new_branches.deep_view(),
                    i + 1 as int,
                    x,
                ) && reaches(g, tip_of_watched(g, x), c))) by {
                assert(facts_of(*conn).contains((x, c)) <==> (pre_facts.contains((x, c)) || (x
                    == b@ && reaches(g, tip@, c))));
            }
            assert forall|x: Seq<char>| #[trigger]
                heads_of(*conn).dom().contains(x) && !in_prefix(
                    new_branches.deep_view(),
                    i + 1 as int,
                    x,
                ) implies heads_of(*conn)[x] == heads_b[x] by {
                assert(x != b@);
            }
        }
        i = i + 1;
    }

    // the store now mirrors the watched branches exactly
    proof {
        lemma_in_prefix_all(new_branches.deep_view());
        let hf = heads_of(*conn);
        let ff = facts_of(*conn);
        assert forall|x: Seq<char>| #[trigger] hf.dom().contains(x) <==> w.contains(x) by {
            if hf.dom().contains(x) {
                if new_branches.deep_view().contains(x) {
                    assert(w.contains(x) || rw.contains(x));
                } else {
                    assert(heads_b.dom().contains(x));
                    assert(heads_a.dom().contains(x));
                    assert(heads0.dom().contains(x));
                    assert(!remove_branches.deep_view().contains(x));
                }
            } else {
                if w.contains(x) {
                    if !new_branches.deep_view().contains(x) {
                        assert(heads0.dom().contains(x) && !rw.contains(x));
                        assert(!remove_branches.deep_view().contains(x));
                        assert(heads_a.dom().contains(x));
                        assert(heads_b.dom().contains(x));
                    }
                    assert(false);
                }
            }
        }
        assert forall|x: Seq<char>| #[trigger] w.contains(x) implies hf[x] == tip_of_watched(
            g,
            x,
        ) by {
            if new_branches.deep_view().contains(x) {
            } else {
                assert(heads0.dom().contains(x) && !rw.contains(x));
                assert(heads_a[x] == tip_of_watched(g, x));
                assert(!remove_branches.deep_view().contains(x));
                assert(heads_b.dom().contains(x));
                assert(heads_b[x] == heads_a[x]);
                assert(hf.dom().contains(x));
                assert(hf[x] == heads_b[x]);
            }
        }
        assert forall|x: Seq<char>, c: Seq<char>|
            #![trigger ff.contains((x, c))]
            #![trigger reaches(g, tip_of_watched(g, x), c)]
            ff.contains((x, c)) <==> (w.contains(x) && reaches(g, tip_of_watched(g, x), c)) by {
            if ff.contains((x, c)) {
                if facts_b.contains((x, c)) {
                    assert(facts_a.contains((x, c)));
                    assert(!remove_branches.deep_view().contains(x));
                    assert(heads_a.dom().contains(x));
                    assert(heads0.dom().contains(x));
                    assert(!rw.contains(x));
                    assert(w.contains(x));
                    assert(heads_a[x] == tip_of_watched(g, x));
                    assert(reaches(g, heads_a[x], c));
                } else {
                    assert(new_branches.deep_view().contains(x));
                    assert(w.contains(x) || rw.contains(x));
                }
            } else {
                if w.contains(x) && reaches(g, tip_of_watched(g, x), c) {
                    if new_branches.deep_view().contains(x) {
                        assert(ff.contains((x, c)));
                    } else {
                        assert(heads0.dom().contains(x) && !rw.contains(x));
                        assert(heads_a[x] == tip_of_watched(g, x));
                        assert(heads_a.dom().contains(x));
                        assert(reaches(g, heads_a[x], c));
                        assert(facts_a.contains((x, c)));
                        assert(!remove_branches.deep_view().contains(x));
                        assert(facts_b.contains((x, c)));
                        assert(ff.contains((x, c)));
                    }
                    assert(false);
                }
            }
        }
        if sweep_post(g, *branch_regex, facts0, heads0) {
            lemma_sweep_idempotent(
                g,
                *branch_regex,
                facts0,
                heads0,
                facts_of(*conn),
                heads_of(*conn),
            );
        }
    }
    Ok(())
}


/// Law: the state a sweep leaves is determined by the graph snapshot and
/// the inclusion pattern alone. In particular a second sweep over an
/// unchanged remote finds every branch at its recorded head and changes
/// nothing: the store after it equals the store before it.
pub proof fn lemma_sweep_idempotent(
    g: CommitGraph,
    re: regex::Regex,
    facts1: Set<(Seq<char>, Seq<char>)>,
    heads1: Map<Seq<char>, Seq<char>>,
    facts2: Set<(Seq<char>, Seq<char>)>,
    heads2: Map<Seq<char>, Seq<char>>,
)
    requires
        sweep_post(g, re, facts1, heads1),
        sweep_post(g, re, facts2, heads2),
    ensures
        facts2 == facts1,
        heads2 == heads1,
{
    assert forall|b: Seq<char>, c: Seq<char>|
        facts1.contains((b, c)) == facts2.contains((b, c)) by {
        assert(facts1.contains((b, c)) <==> (watched_set(g, re).contains(b) && reaches(
            g,
            tip_of_watched(g, b),
            c,
        )));
        assert(facts2.contains((b, c)) <==> (watched_set(g, re).contains(b) && reaches(
            g,
            tip_of_watched(g, b),
            c,
        )));
    }
    assert forall|p: (Seq<char>, Seq<char>)|
        facts1.contains(p) == facts2.contains(p) by {
        assert(facts1.contains((p.0, p.1)) == facts2.contains((p.0, p.1)));
    }
    assert(facts2 =~= facts1);
    assert forall|b: Seq<char>| heads1.dom().contains(b) == heads2.dom().contains(b) by {
        assert(heads1.dom().contains(b) <==> watched_set(g, re).contains(b));
        assert(heads2.dom().contains(b) <==> watched_set(g, re).contains(b));
    }
    assert forall|b: Seq<char>| #[trigger]
        heads1.dom().contains(b) implies heads1[b] == heads2[b] by {
        assert(watched_set(g, re).contains(b));
    }
    assert(heads2 =~~= heads1);
}

/// Law: after a sweep, a fast-forwarded branch keeps every previously
/// recorded commit and records exactly the commits newly reachable from its
/// advanced tip; every commit reachable from the new tip is recorded.
pub proof fn lemma_fast_forward_delta(
    g: CommitGraph,
    re: regex::Regex,
    facts0: Set<(Seq<char>, Seq<char>)>,
    heads0: Map<Seq<char>, Seq<char>>,
    facts1: Set<(Seq<char>, Seq<char>)>,
    heads1: Map<Seq<char>, Seq<char>>,
    b: Seq<char>,
)
    requires
        store_inv(g, facts0, heads0),
        sweep_post(g, re, facts1, heads1),
        watched_set(g, re).contains(b),
        heads0.dom().contains(b),
        reaches(g, tip_of_watched(g, b), heads0[b]),
    ensures
        forall|c: Seq<char>| #[trigger] facts0.contains((b, c)) ==> facts1.contains((b, c)),
        forall|c: Seq<char>| #[trigger]
            facts1.contains((b, c)) <==> (facts0.contains((b, c)) || (reaches(
                g,
                tip_of_watched(g, b),
                c,
            ) && !reaches(g, heads0[b], c))),
        forall|c: Seq<char>|
            reaches(g, tip_of_watched(g, b), c) ==> #[trigger] facts1.contains((b, c)),
{
    assert forall|c: Seq<char>| #[trigger] facts0.contains((b, c)) implies facts1.contains(
        (b, c),
    ) by {
        assert(reaches(g, heads0[b], c));
        lemma_reaches_trans(g, tip_of_watched(g, b), heads0[b], c);
    }
    assert forall|c: Seq<char>| #[trigger]
        facts1.contains((b, c)) <==> (facts0.contains((b, c)) || (reaches(
            g,
            tip_of_watched(g, b),
            c,
        ) && !reaches(g, heads0[b], c))) by {
        if reaches(g, heads0[b], c) {
            lemma_reaches_trans(g, tip_of_watched(g, b), heads0[b], c);
            assert(facts0.contains((b, c)));
        }
    }
}

/// Law: after a sweep, a watched branch whose history was rewritten holds
/// exactly the full ancestor closure of its new tip, and nothing reachable
/// only from the old head remains.
pub proof fn lemma_rewrite_exact(
    g: CommitGraph,
    re: regex::Regex,
    facts1: Set<(Seq<char>, Seq<char>)>,
    heads1: Map<Seq<char>, Seq<char>>,
    b: Seq<char>,
)
    requires
        sweep_post(g, re, facts1, heads1),
        watched_set(g, re).contains(b),
    ensures
        heads1[b] == tip_of_watched(g, b),
        forall|c: Seq<char>| #[trigger]
            facts1.contains((b, c)) <==> ancestors(g, tip_of_watched(g, b)).contains(c),
        forall|c: Seq<char>|
            !reaches(g, tip_of_watched(g, b), c) ==> !(#[trigger] facts1.contains((b, c))),
{
}

/// Law: after a sweep, the reverse index holds a branch for a commit
/// exactly when the branch is watched and the commit lies in the ancestor
/// closure of its tip.
pub proof fn lemma_reverse_index(
    g: CommitGraph,
    re: regex::Regex,
    facts1: Set<(Seq<char>, Seq<char>)>,
    heads1: Map<Seq<char>, Seq<char>>,
    b: Seq<char>,
    c: Seq<char>,
)
    requires
        sweep_post(g, re, facts1, heads1),
    ensures
        facts1.contains((b, c)) <==> (watched_set(g, re).contains(b) && ancestors(
            g,
            tip_of_watched(g, b),
        ).contains(c)),
{
}

/// Law: after a sweep, a branch that is not watched, because it was removed
/// from the pattern or never matched it, has no facts and no head record.
pub proof fn lemma_unwatch_clears(
    g: CommitGraph,
    re: regex::Regex,
    facts1: Set<(Seq<char>, Seq<char>)>,
    heads1: Map<Seq<char>, Seq<char>>,
    b: Seq<char>,
)
    requires
        sweep_post(g, re, facts1, heads1),
        !watched_set(g, re).contains(b),
    ensures
        !heads1.dom().contains(b),
        forall|c: Seq<char>| !(#[trigger] facts1.contains((b, c))),
{
}

} // verus!
