//! An in-memory snapshot of a repository's commit graph: each commit id with
//! the ids of its parents, and each remote branch name with its tip commit.
//! All traversal state is explicit and keyed by commit id; the graph itself
//! is read-only.

use vstd::prelude::*;
use vstd::set_lib::lemma_len_subset;

verus! {

/// A read-only snapshot of a commit graph and its remote branch tips.
pub struct CommitGraph {
    /// Each commit id with the ids of its parent commits.
    pub commits: Vec<(String, Vec<String>)>,
    /// Each remote branch name, as listed (for instance `origin/main`),
    /// with its current tip commit id.
    pub branches: Vec<(String, String)>,
}

/// The parent list recorded for `id` in `rows`, first match wins.
pub open spec fn lookup_parents(rows: Seq<(String, Vec<String>)>, id: Seq<char>) -> Option<
    Seq<Seq<char>>,
>
    decreases rows.len(),
{
    if rows.len() == 0 {
        None
    } else if rows[0].0@ == id {
        Some(rows[0].1.deep_view())
    } else {
        lookup_parents(rows.drop_first(), id)
    }
}

/// The tip recorded for `name` in `rows`, first match wins.
pub open spec fn lookup_tip(rows: Seq<(String, String)>, name: Seq<char>) -> Option<Seq<char>>
    decreases rows.len(),
{
    if rows.len() == 0 {
        None
    } else if rows[0].0@ == name {
        Some(rows[0].1@)
    } else {
        lookup_tip(rows.drop_first(), name)
    }
}

impl CommitGraph {
    /// The parents of commit `id`; a commit the snapshot does not list has
    /// none.
    pub open spec fn parents_of(self, id: Seq<char>) -> Seq<Seq<char>> {
        match lookup_parents(self.commits@, id) {
            Some(ps) => ps,
            None => Seq::empty(),
        }
    }

    /// One parent step: `parent` is a direct parent of `child`.
    pub open spec fn edge(self, child: Seq<char>, parent: Seq<char>) -> bool {
        self.parents_of(child).contains(parent)
    }

    /// The tip commit recorded for the raw remote branch name `raw_name`.
    pub open spec fn tip_of(self, raw_name: Seq<char>) -> Option<Seq<char>> {
        lookup_tip(self.branches@, raw_name)
    }
}

/// Consecutive elements of `p` are parent steps in `g`.
pub open spec fn is_chain(g: CommitGraph, p: Seq<Seq<char>>) -> bool {
    forall|i: int| 0 <= i < p.len() - 1 ==> #[trigger] g.edge(p[i], p[i + 1])
}

/// `p` is a walk in `g` that starts at `from`, ends at `to`, and follows
/// parent edges.
pub open spec fn is_walk(g: CommitGraph, p: Seq<Seq<char>>, from: Seq<char>, to: Seq<char>) -> bool {
    &&& p.len() > 0
    &&& p.first() == from
    &&& p.last() == to
    &&& is_chain(g, p)
}

/// `to` equals `from` or is one of its ancestors: some parent-edge walk
/// leads from `from` to `to`.
pub open spec fn reaches(g: CommitGraph, from: Seq<char>, to: Seq<char>) -> bool {
    exists|p: Seq<Seq<char>>| is_walk(g, p, from, to)
}

/// No commit of `p` lies in `avoid`.
pub open spec fn avoids(p: Seq<Seq<char>>, avoid: Set<Seq<char>>) -> bool {
    forall|i: int| 0 <= i < p.len() ==> !avoid.contains(#[trigger] p[i])
}

/// Like [`reaches`], but every commit on the walk, endpoints included, lies
/// outside `avoid`.
pub open spec fn reaches_avoiding(
    g: CommitGraph,
    from: Seq<char>,
    to: Seq<char>,
    avoid: Set<Seq<char>>,
) -> bool {
    exists|p: Seq<Seq<char>>| is_walk(g, p, from, to) && avoids(p, avoid)
}

/// The ancestor closure of `from`: itself and everything reachable over
/// parent edges.
pub open spec fn ancestors(g: CommitGraph, from: Seq<char>) -> Set<Seq<char>> {
    Set::new(|c: Seq<char>| reaches(g, from, c))
}


/// What a sequence extended by one element holds.
pub proof fn lemma_push_contains(s: Seq<Seq<char>>, x: Seq<char>)
    ensures
        forall|b: Seq<char>| #[trigger] s.push(x).contains(b) <==> (s.contains(b) || b == x),
{
    assert forall|b: Seq<char>| #[trigger] s.push(x).contains(b) implies (s.contains(b) || b == x) by {
        let k = choose|k: int| 0 <= k < s.push(x).len() && s.push(x)[k] == b;
        if k < s.len() {
            assert(s[k] == b);
        }
    }
    assert forall|b: Seq<char>| (s.contains(b) || b == x) implies #[trigger] s.push(x).contains(
        b,
    ) by {
        if s.contains(b) {
            let k = choose|k: int| 0 <= k < s.len() && s[k] == b;
            assert(s.push(x)[k] == b);
        } else {
            assert(s.push(x)[s.len() as int] == b);
        }
    }
}

/// Extracts one edge of a chain.
proof fn lemma_chain_edge(g: CommitGraph, p: Seq<Seq<char>>, i: int)
    requires
        is_chain(g, p),
        0 <= i < p.len() - 1,
    ensures
        g.edge(p[i], p[i + 1]),
{
    assert(g.edge(p[i], p[i + 1]));
}

/// Extending a walk by one parent edge.
pub proof fn lemma_reaches_step(g: CommitGraph, a: Seq<char>, b: Seq<char>, c: Seq<char>)
    requires
        reaches(g, a, b),
        g.edge(b, c),
    ensures
        reaches(g, a, c),
{
    let p = choose|p: Seq<Seq<char>>| is_walk(g, p, a, b);
    let q = p.push(c);
    assert forall|i: int| 0 <= i < q.len() - 1 implies #[trigger] g.edge(q[i], q[i + 1]) by {
        if i < p.len() - 1 {
            assert(g.edge(p[i], p[i + 1]));
        } else {
            assert(q[i] == p.last());
        }
    }
    assert(is_walk(g, q, a, c));
}

/// Extending an avoiding walk by one parent edge outside `avoid`.
pub proof fn lemma_reaches_avoiding_step(
    g: CommitGraph,
    a: Seq<char>,
    b: Seq<char>,
    c: Seq<char>,
    avoid: Set<Seq<char>>,
)
    requires
        reaches_avoiding(g, a, b, avoid),
        g.edge(b, c),
        !avoid.contains(c),
    ensures
        reaches_avoiding(g, a, c, avoid),
{
    let p = choose|p: Seq<Seq<char>>| is_walk(g, p, a, b) && avoids(p, avoid);
    let q = p.push(c);
    assert forall|i: int| 0 <= i < q.len() - 1 implies #[trigger] g.edge(q[i], q[i + 1]) by {
        if i < p.len() - 1 {
            assert(g.edge(p[i], p[i + 1]));
        } else {
            assert(q[i] == p.last());
        }
    }
    assert forall|i: int| 0 <= i < q.len() implies !avoid.contains(#[trigger] q[i]) by {
        if i < p.len() {
            assert(!avoid.contains(p[i]));
        }
    }
    assert(is_walk(g, q, a, c) && avoids(q, avoid));
}

/// Reachability is transitive.
pub proof fn lemma_reaches_trans(g: CommitGraph, a: Seq<char>, b: Seq<char>, c: Seq<char>)
    requires
        reaches(g, a, b),
        reaches(g, b, c),
    ensures
        reaches(g, a, c),
{
    let p = choose|p: Seq<Seq<char>>| is_walk(g, p, a, b);
    let q = choose|q: Seq<Seq<char>>| is_walk(g, q, b, c);
    let r = p + q.drop_first();
    assert forall|i: int| 0 <= i < r.len() - 1 implies #[trigger] g.edge(r[i], r[i + 1]) by {
        if i < p.len() - 1 {
            assert(r[i] == p[i] && r[i + 1] == p[i + 1]);
            assert(g.edge(p[i], p[i + 1]));
        } else if i == p.len() - 1 {
            if q.len() > 1 {
                assert(r[i] == p.last() && r[i + 1] == q[1]);
                lemma_chain_edge(g, q, 0);
            }
        } else {
            let j = i - p.len();
            assert(r[i] == q[j + 1] && r[i + 1] == q[j + 2]);
            assert(g.edge(q[j + 1], q[j + 2]));
        }
    }
    if q.len() == 1 {
        assert(r =~= p);
        assert(is_walk(g, r, a, c));
    } else {
        assert(r.last() == q.last());
        assert(is_walk(g, r, a, c));
    }
}

/// A walk that avoids nothing witnesses plain reachability, and conversely.
pub proof fn lemma_reaches_avoiding_empty(g: CommitGraph, from: Seq<char>, to: Seq<char>)
    ensures
        reaches(g, from, to) <==> reaches_avoiding(g, from, to, Set::<Seq<char>>::empty()),
{
    if reaches(g, from, to) {
        let p = choose|p: Seq<Seq<char>>| is_walk(g, p, from, to);
        assert(avoids(p, Set::<Seq<char>>::empty()));
    }
    if reaches_avoiding(g, from, to, Set::<Seq<char>>::empty()) {
        let p = choose|p: Seq<Seq<char>>|
            is_walk(g, p, from, to) && avoids(p, Set::<Seq<char>>::empty());
        assert(is_walk(g, p, from, to));
    }
}

/// Walking a chain that avoids `avoid` cannot leave a set that is closed
/// under parent steps except into `avoid`.
proof fn lemma_chain_stays(g: CommitGraph, p: Seq<Seq<char>>, s: Set<Seq<char>>, avoid: Set<
    Seq<char>,
>)
    requires
        p.len() > 0,
        is_chain(g, p),
        avoids(p, avoid),
        s.contains(p.first()),
        forall|x: Seq<char>, y: Seq<char>|
            #![trigger s.contains(x), g.edge(x, y)]
            s.contains(x) && g.edge(x, y) ==> s.contains(y) || avoid.contains(y),
    ensures
        s.contains(p.last()),
    decreases p.len(),
{
    if p.len() == 1 {
    } else {
        lemma_chain_edge(g, p, 0);
        assert(g.edge(p[0], p[1]));
        assert(!avoid.contains(p[1]));
        assert(s.contains(p[1]));
        let q = p.drop_first();
        assert forall|i: int| 0 <= i < q.len() - 1 implies #[trigger] g.edge(q[i], q[i + 1]) by {
            lemma_chain_edge(g, p, i + 1);
            assert(p[i + 1 + 1] == p[i + 2]);
        }
        assert forall|i: int| 0 <= i < q.len() implies !avoid.contains(#[trigger] q[i]) by {
            assert(!avoid.contains(p[i + 1]));
        }
        lemma_chain_stays(g, q, s, avoid);
        assert(q.last() == p.last());
    }
}

/// A set that contains `from` and is closed under parent steps, except for
/// steps into `avoid`, contains everything reachable from `from` on walks
/// that stay outside `avoid`.
pub proof fn lemma_closed_contains_reachable(
    g: CommitGraph,
    s: Set<Seq<char>>,
    avoid: Set<Seq<char>>,
    from: Seq<char>,
    to: Seq<char>,
)
    requires
        reaches_avoiding(g, from, to, avoid),
        s.contains(from) || avoid.contains(from),
        forall|x: Seq<char>, y: Seq<char>|
            #![trigger s.contains(x), g.edge(x, y)]
            s.contains(x) && g.edge(x, y) ==> s.contains(y) || avoid.contains(y),
    ensures
        s.contains(to),
{
    let p = choose|p: Seq<Seq<char>>| is_walk(g, p, from, to) && avoids(p, avoid);
    assert(!avoid.contains(p.first()));
    lemma_chain_stays(g, p, s, avoid);
}

/// When `avoid` is itself closed under parent steps, a walk that starts
/// outside it can never enter it, so avoiding walks exist exactly to the
/// reachable commits outside `avoid`.
pub proof fn lemma_avoid_closed_reaches(
    g: CommitGraph,
    from: Seq<char>,
    to: Seq<char>,
    avoid: Set<Seq<char>>,
)
    requires
        forall|x: Seq<char>, y: Seq<char>|
            #![trigger avoid.contains(x), g.edge(x, y)]
            avoid.contains(x) && g.edge(x, y) ==> avoid.contains(y),
        !avoid.contains(from),
    ensures
        reaches_avoiding(g, from, to, avoid) <==> (reaches(g, from, to) && !avoid.contains(to)),
{
    if reaches_avoiding(g, from, to, avoid) {
        let p = choose|p: Seq<Seq<char>>| is_walk(g, p, from, to) && avoids(p, avoid);
        assert(is_walk(g, p, from, to));
        assert(!avoid.contains(p.last()));
    }
    if reaches(g, from, to) && !avoid.contains(to) {
        let p = choose|p: Seq<Seq<char>>| is_walk(g, p, from, to);
        if !avoids(p, avoid) {
            let i = choose|i: int| 0 <= i < p.len() && avoid.contains(#[trigger] p[i]);
            let q = p.skip(i);
            assert forall|k: int| 0 <= k < q.len() - 1 implies #[trigger] g.edge(q[k], q[k + 1]) by {
                lemma_chain_edge(g, p, k + i);
                assert(p[k + i + 1] == q[k + 1]);
            }
            assert(q[0] == p[i]);
            assert(q.last() == p.last());
            lemma_chain_stays(g, q, avoid, Set::<Seq<char>>::empty());
            assert(false);
        }
    }
}

/// The ids that occur in the rows of a commit table: every commit id and
/// every parent id.
pub open spec fn ids_of_rows(rows: Seq<(String, Vec<String>)>) -> Set<Seq<char>>
    decreases rows.len(),
{
    if rows.len() == 0 {
        Set::empty()
    } else {
        rows[0].1.deep_view().to_set().insert(rows[0].0@).union(ids_of_rows(rows.drop_first()))
    }
}

proof fn lemma_ids_of_rows_finite(rows: Seq<(String, Vec<String>)>)
    ensures
        ids_of_rows(rows).finite(),
    decreases rows.len(),
{
    broadcast use vstd::seq_lib::seq_to_set_is_finite;

    if rows.len() > 0 {
        lemma_ids_of_rows_finite(rows.drop_first());
    }
}

proof fn lemma_parents_in_ids(rows: Seq<(String, Vec<String>)>, id: Seq<char>, y: Seq<char>)
    requires
        lookup_parents(rows, id) matches Some(ps) && ps.contains(y),
    ensures
        ids_of_rows(rows).contains(y),
    decreases rows.len(),
{
    if rows.len() == 0 {
    } else if rows[0].0@ == id {
        assert(rows[0].1.deep_view().to_set().contains(y));
    } else {
        lemma_parents_in_ids(rows.drop_first(), id, y);
    }
}

/// Every id a walk can ever visit: the ids in the table plus the start.
pub open spec fn id_universe(g: CommitGraph, start: Seq<char>) -> Set<Seq<char>> {
    ids_of_rows(g.commits@).insert(start)
}

pub proof fn lemma_id_universe_finite(g: CommitGraph, start: Seq<char>)
    ensures
        id_universe(g, start).finite(),
{
    lemma_ids_of_rows_finite(g.commits@);
}

pub proof fn lemma_parents_in_universe(g: CommitGraph, start: Seq<char>, id: Seq<char>, y: Seq<
    char,
>)
    requires
        g.parents_of(id).contains(y),
    ensures
        id_universe(g, start).contains(y),
{
    if lookup_parents(g.commits@, id) matches Some(ps) {
        lemma_parents_in_ids(g.commits@, id, y);
    }
}

/// Whether `x` still waits in `q` at or after position `qi`.
pub open spec fn pending(q: Seq<Seq<char>>, qi: int, x: Seq<char>) -> bool {
    exists|k: int| qi <= k < q.len() && q[k] == x
}

/// The invariant every walk of this module maintains: `v` are the collected
/// commits, `q` the work queue whose first `qi` entries are done, `avoid`
/// the stop set.
pub open spec fn bfs_inv(
    g: CommitGraph,
    start: Seq<char>,
    avoid: Set<Seq<char>>,
    v: Seq<Seq<char>>,
    q: Seq<Seq<char>>,
    qi: int,
) -> bool {
    &&& 0 <= qi <= q.len()
    &&& forall|k: int|
        0 <= k < q.len() ==> avoid.contains(#[trigger] q[k]) || reaches_avoiding(
            g,
            start,
            q[k],
            avoid,
        )
    &&& forall|k: int|
        0 <= k < v.len() ==> reaches_avoiding(g, start, #[trigger] v[k], avoid) && !avoid.contains(
            v[k],
        )
    &&& v.contains(start) || avoid.contains(start) || pending(q, qi, start)
    &&& forall|k: int, y: Seq<char>|
        0 <= k < v.len() && #[trigger] g.parents_of(v[k]).contains(y) ==> v.contains(y)
            || avoid.contains(y) || pending(q, qi, y)
    &&& v.no_duplicates()
    &&& forall|k: int| 0 <= k < q.len() ==> id_universe(g, start).contains(#[trigger] q[k])
    &&& forall|k: int| 0 <= k < v.len() ==> id_universe(g, start).contains(#[trigger] v[k])
}

/// The invariant holds at the start, with the start commit queued.
pub proof fn lemma_bfs_init(g: CommitGraph, start: Seq<char>, avoid: Set<Seq<char>>)
    ensures
        bfs_inv(g, start, avoid, Seq::empty(), seq![start], 0),
{
    if !avoid.contains(start) {
        let p = seq![start];
        assert(is_walk(g, p, start, start) && avoids(p, avoid));
    }
    assert(pending(seq![start], 0, start)) by {
        assert(seq![start][0] == start);
    }
    assert(Seq::<Seq<char>>::empty().no_duplicates());
}

/// Passing over an already collected or avoided queue entry keeps the
/// invariant.
pub proof fn lemma_bfs_skip(
    g: CommitGraph,
    start: Seq<char>,
    avoid: Set<Seq<char>>,
    v: Seq<Seq<char>>,
    q: Seq<Seq<char>>,
    qi: int,
)
    requires
        bfs_inv(g, start, avoid, v, q, qi),
        qi < q.len(),
        v.contains(q[qi]) || avoid.contains(q[qi]),
    ensures
        bfs_inv(g, start, avoid, v, q, qi + 1),
{
    let c = q[qi];
    assert forall|x: Seq<char>| pending(q, qi, x) implies pending(q, qi + 1, x) || x == c by {
        let k = choose|k: int| qi <= k < q.len() && q[k] == x;
        if k > qi {
            assert(pending(q, qi + 1, x));
        }
    }
    if pending(q, qi, start) && !pending(q, qi + 1, start) {
        assert(start == c);
        assert(v.contains(start) || avoid.contains(start));
    }
    assert forall|k: int, y: Seq<char>|
        0 <= k < v.len() && #[trigger] g.parents_of(v[k]).contains(y) implies v.contains(y)
        || avoid.contains(y) || pending(q, qi + 1, y) by {
        if pending(q, qi, y) && !pending(q, qi + 1, y) {
            assert(y == c);
        }
    }
}

/// Collecting a fresh queue entry and queueing its parents keeps the
/// invariant.
pub proof fn lemma_bfs_expand(
    g: CommitGraph,
    start: Seq<char>,
    avoid: Set<Seq<char>>,
    v: Seq<Seq<char>>,
    q: Seq<Seq<char>>,
    qi: int,
    ps: Seq<Seq<char>>,
)
    requires
        bfs_inv(g, start, avoid, v, q, qi),
        qi < q.len(),
        !v.contains(q[qi]),
        !avoid.contains(q[qi]),
        ps == g.parents_of(q[qi]),
    ensures
        bfs_inv(g, start, avoid, v.push(q[qi]), q + ps, qi + 1),
        reaches_avoiding(g, start, q[qi], avoid),
{
    let c = q[qi];
    let v2 = v.push(c);
    let q2 = q + ps;
    assert(reaches_avoiding(g, start, c, avoid));

    // the collected commits are reachable on avoiding walks
    assert forall|k: int| 0 <= k < v2.len() implies reaches_avoiding(g, start, #[trigger] v2[k], avoid)
        && !avoid.contains(v2[k]) by {
        if k < v.len() {
            assert(reaches_avoiding(g, start, v[k], avoid));
        }
    }

    // queue entries: the old ones carry over, the new ones are parents of c
    assert forall|k: int| 0 <= k < q2.len() implies avoid.contains(#[trigger] q2[k])
        || reaches_avoiding(g, start, q2[k], avoid) by {
        if k < q.len() {
            assert(avoid.contains(q[k]) || reaches_avoiding(g, start, q[k], avoid));
        } else {
            let y = ps[k - q.len()];
            assert(g.parents_of(c).contains(y));
            assert(g.edge(c, y));
            if !avoid.contains(y) {
                lemma_reaches_avoiding_step(g, start, c, y, avoid);
            }
        }
    }

    // the start stays accounted for
    if v.contains(start) {
        let m = choose|m: int| 0 <= m < v.len() && v[m] == start;
        assert(v2[m] == start);
        assert(v2.contains(start));
    } else if pending(q, qi, start) {
        let k = choose|k: int| qi <= k < q.len() && q[k] == start;
        if k == qi {
            assert(v2[v.len() as int] == start);
            assert(v2.contains(start));
        } else {
            assert(q2[k] == start);
            assert(pending(q2, qi + 1, start));
        }
    }

    // parents of collected commits stay accounted for
    assert forall|k: int, y: Seq<char>|
        0 <= k < v2.len() && #[trigger] g.parents_of(v2[k]).contains(y) implies v2.contains(y)
        || avoid.contains(y) || pending(q2, qi + 1, y) by {
        if k < v.len() {
            assert(g.parents_of(v[k]).contains(y));
            if pending(q, qi, y) {
                let m = choose|m: int| qi <= m < q.len() && q[m] == y;
                if m == qi {
                    assert(v2[v.len() as int] == y);
                    assert(v2.contains(y));
                } else {
                    assert(q2[m] == y);
                    assert(pending(q2, qi + 1, y));
                }
            } else if v.contains(y) {
                let m = choose|m: int| 0 <= m < v.len() && v[m] == y;
                assert(v2[m] == y);
                assert(v2.contains(y));
            }
        } else {
            assert(v2[k] == c);
            let m = choose|m: int| 0 <= m < ps.len() && ps[m] == y;
            assert(q2[q.len() + m] == y);
            assert(pending(q2, qi + 1, y));
        }
    }

    // no duplicates in the collected commits
    assert forall|i: int, j: int|
        0 <= i < v2.len() && 0 <= j < v2.len() && i != j implies v2[i] != v2[j] by {
        if i < v.len() && j < v.len() {
            assert(v.no_duplicates());
            assert(v[i] != v[j]);
        } else if j == v.len() {
            assert(v2[j] == c);
            if v2[i] == c {
                assert(v[i] == c);
                assert(v.contains(c));
            }
        } else {
            assert(v2[i] == c);
            if v2[j] == c {
                assert(v[j] == c);
                assert(v.contains(c));
            }
        }
    }
    assert(v2.no_duplicates());

    // everything stays inside the finite id universe
    assert forall|k: int| 0 <= k < q2.len() implies id_universe(g, start).contains(
        #[trigger] q2[k],
    ) by {
        if k < q.len() {
            assert(id_universe(g, start).contains(q[k]));
        } else {
            let y = ps[k - q.len()];
            assert(g.parents_of(c).contains(y));
            lemma_parents_in_universe(g, start, c, y);
        }
    }
    assert forall|k: int| 0 <= k < v2.len() implies id_universe(g, start).contains(
        #[trigger] v2[k],
    ) by {
        if k < v.len() {
            assert(id_universe(g, start).contains(v[k]));
        }
    }
}

/// With the queue exhausted, the collected commits are exactly what avoiding
/// walks can reach.
pub proof fn lemma_bfs_complete(
    g: CommitGraph,
    start: Seq<char>,
    avoid: Set<Seq<char>>,
    v: Seq<Seq<char>>,
    q: Seq<Seq<char>>,
)
    requires
        bfs_inv(g, start, avoid, v, q, q.len() as int),
    ensures
        forall|c: Seq<char>| #[trigger] v.contains(c) <==> reaches_avoiding(g, start, c, avoid),
{
    let s = Set::new(|x: Seq<char>| v.contains(x));
    assert forall|x: Seq<char>, y: Seq<char>|
        #![trigger s.contains(x), g.edge(x, y)]
        s.contains(x) && g.edge(x, y) implies s.contains(y) || avoid.contains(y) by {
        let k = choose|k: int| 0 <= k < v.len() && v[k] == x;
        assert(g.parents_of(v[k]).contains(y));
        assert(!pending(q, q.len() as int, y));
    }
    assert(!pending(q, q.len() as int, start));
    assert forall|c: Seq<char>| reaches_avoiding(g, start, c, avoid) implies v.contains(c) by {
        lemma_closed_contains_reachable(g, s, avoid, start, c);
        assert(s.contains(c));
    }
    assert forall|c: Seq<char>| #[trigger] v.contains(c) implies reaches_avoiding(
        g,
        start,
        c,
        avoid,
    ) by {
        let k = choose|k: int| 0 <= k < v.len() && v[k] == c;
        assert(reaches_avoiding(g, start, v[k], avoid));
    }
}

/// Whether the string vector holds `s`, compared by contents.
pub fn contains_string(v: &Vec<String>, s: &String) -> (r: bool)
    ensures
        r == v.deep_view().contains(s@),
{
    let mut i: usize = 0;
    while i < v.len()
        invariant
            0 <= i <= v.len(),
            forall|k: int| 0 <= k < i ==> v.deep_view()[k] != s@,
        decreases v.len() - i,
    {
        if v[i] == *s {
            assert(v.deep_view()[i as int] == s@);
            return true;
        }
        i = i + 1;
    }
    false
}

/// Copies a vector of strings, keeping contents.
fn clone_string_vec(v: &Vec<String>) -> (r: Vec<String>)
    ensures
        r.deep_view() == v.deep_view(),
{
    let mut out: Vec<String> = Vec::new();
    let mut i: usize = 0;
    while i < v.len()
        invariant
            0 <= i <= v.len(),
            out.deep_view() =~~= v.deep_view().subrange(0, i as int),
        decreases v.len() - i,
    {
        let ghost mid = out.deep_view();
        out.push(v[i].clone());
        proof {
            let nd = out.deep_view();
            assert(nd.len() == mid.len() + 1);
            assert(out@[mid.len() as int]@ == v.deep_view()[i as int]);
            assert forall|k: int| 0 <= k < mid.len() implies nd[k] == mid[k] by {}
            assert(out.deep_view() =~~= v.deep_view().subrange(0, i + 1 as int));
        }
        i = i + 1;
    }
    proof {
        assert(v.deep_view().subrange(0, v.len() as int) =~~= v.deep_view());
    }
    out
}

proof fn lemma_lookup_skip(rows: Seq<(String, Vec<String>)>, id: Seq<char>, i: int)
    requires
        0 <= i <= rows.len(),
        forall|k: int| 0 <= k < i ==> rows[k].0@ != id,
    ensures
        lookup_parents(rows, id) == lookup_parents(rows.skip(i), id),
    decreases i,
{
    if i > 0 {
        assert(rows[0].0@ != id);
        assert(rows.drop_first() =~= rows.skip(1));
        lemma_lookup_skip(rows.skip(1), id, i - 1);
        assert(rows.skip(1).skip(i - 1) =~= rows.skip(i));
    } else {
        assert(rows.skip(0) =~= rows);
    }
}

impl CommitGraph {
    /// The parents of `id`, as recorded in this snapshot; a commit the
    /// snapshot does not list has none.
    pub fn parents(&self, id: &String) -> (r: Vec<String>)
        ensures
            r.deep_view() == self.parents_of(id@),
    {
        let mut i: usize = 0;
        while i < self.commits.len()
            invariant
                0 <= i <= self.commits.len(),
                forall|k: int| 0 <= k < i ==> self.commits@[k].0@ != id@,
            decreases self.commits.len() - i,
        {
            if self.commits[i].0 == *id {
                proof {
                    lemma_lookup_skip(self.commits@, id@, i as int);
                    assert(self.commits@.skip(i as int)[0] == self.commits@[i as int]);
                }
                return clone_string_vec(&self.commits[i].1);
            }
            i = i + 1;
        }
        proof {
            lemma_lookup_skip(self.commits@, id@, self.commits.len() as int);
        }
        Vec::new()
    }
}

/// The collected set's cardinality equals its count and stays within the
/// universe.
pub proof fn lemma_bfs_measure_bounds(g: CommitGraph, start: Seq<char>, v: Seq<Seq<char>>)
    requires
        v.no_duplicates(),
        forall|k: int| 0 <= k < v.len() ==> id_universe(g, start).contains(#[trigger] v[k]),
    ensures
        v.to_set().finite(),
        v.to_set().len() == v.len(),
        v.to_set().len() <= id_universe(g, start).len(),
{
    broadcast use vstd::seq_lib::seq_to_set_is_finite;

    v.unique_seq_to_set();
    lemma_id_universe_finite(g, start);
    assert forall|x: Seq<char>| v.to_set().contains(x) implies id_universe(g, start).contains(
        x,
    ) by {
        let k = choose|k: int| 0 <= k < v.len() && v[k] == x;
        assert(id_universe(g, start).contains(v[k]));
    }
    lemma_len_subset(v.to_set(), id_universe(g, start));
}

/// The complete ancestor closure of `commit`: an unbounded walk backward
/// over parent edges, collecting every reachable commit exactly once.
pub fn gather_commits(graph: &CommitGraph, commit: &String) -> (r: Vec<String>)
    ensures
        forall|c: Seq<char>| #[trigger] r.deep_view().contains(c) <==> reaches(*graph, commit@, c),
        forall|i: int, j: int| 0 <= i < j < r.len() ==> r[i]@ != r[j]@,
{
    let ghost avoid = Set::<Seq<char>>::empty();
    let mut visited: Vec<String> = Vec::new();
    let mut queue: Vec<String> = Vec::new();
    queue.push(commit.clone());
    let mut qi: usize = 0;
    proof {
        lemma_bfs_init(*graph, commit@, avoid);
        assert(queue.deep_view() =~~= seq![commit@]);
        assert(visited.deep_view() =~~= Seq::<Seq<char>>::empty());
        lemma_id_universe_finite(*graph, commit@);
    }
    while qi < queue.len()
        invariant
            bfs_inv(*graph, commit@, avoid, visited.deep_view(), queue.deep_view(), qi as int),
            avoid == Set::<Seq<char>>::empty(),
            id_universe(*graph, commit@).finite(),
        decreases
                id_universe(*graph, commit@).len() - visited.deep_view().to_set().len(),
                queue.len() - qi,
    {
        proof {
            lemma_bfs_measure_bounds(*graph, commit@, visited.deep_view());
        }
        let c = queue[qi].clone();
        proof {
            assert(queue.deep_view()[qi as int] == c@);
        }
        if !contains_string(&visited, &c) {
            let ps = graph.parents(&c);
            let ghost pre_v = visited.deep_view();
            let ghost pre_q = queue.deep_view();
            proof {
                lemma_bfs_expand(*graph, commit@, avoid, pre_v, pre_q, qi as int, ps.deep_view());
            }
            visited.push(c.clone());
            let mut j: usize = 0;
            while j < ps.len()
                invariant
                    0 <= j <= ps.len(),
                    queue.deep_view() =~~= pre_q + ps.deep_view().subrange(0, j as int),
                decreases ps.len() - j,
            {
                let ghost mid_q = queue.deep_view();
                queue.push(ps[j].clone());
                proof {
                    let nq = queue.deep_view();
                    assert(nq.len() == mid_q.len() + 1);
                    assert(queue@[mid_q.len() as int]@ == ps.deep_view()[j as int]);
                    assert forall|k: int| 0 <= k < mid_q.len() implies nq[k] == mid_q[k] by {}
                    assert(queue.deep_view() =~~= pre_q + ps.deep_view().subrange(0, j + 1 as int));
                }
                j = j + 1;
            }
            proof {
                assert(ps.deep_view().subrange(0, ps.len() as int) =~~= ps.deep_view());
                assert(visited.deep_view() =~~= pre_v.push(c@));
                assert(queue.deep_view() =~~= pre_q + ps.deep_view());
                lemma_bfs_measure_bounds(*graph, commit@, visited.deep_view());
                lemma_push_contains(pre_v, c@);
                assert(visited.deep_view().to_set() =~= pre_v.to_set().insert(c@));
            }
        } else {
            proof {
                lemma_bfs_skip(
                    *graph,
                    commit@,
                    avoid,
                    visited.deep_view(),
                    queue.deep_view(),
                    qi as int,
                );
            }
        }
        qi = qi + 1;
    }
    proof {
        lemma_bfs_complete(*graph, commit@, avoid, visited.deep_view(), queue.deep_view());
        assert forall|c: Seq<char>| #[trigger]
            visited.deep_view().contains(c) <==> reaches(*graph, commit@, c) by {
            lemma_reaches_avoiding_empty(*graph, commit@, c);
        }
        assert forall|i: int, j: int| 0 <= i < j < visited.len() implies visited[i]@
            != visited[j]@ by {
            assert(visited.deep_view()[i] == visited[i]@);
            assert(visited.deep_view()[j] == visited[j]@);
        }
    }
    visited
}

/// Ancestor classification: whether `parent` equals `child` or is one of
/// its ancestors, decided by an unbounded breadth-first walk backward from
/// `child` with a visited set.
pub fn is_parent(graph: &CommitGraph, parent: &String, child: &String) -> (r: bool)
    ensures
        r == reaches(*graph, child@, parent@),
{
    let ghost avoid = Set::<Seq<char>>::empty();
    let mut visited: Vec<String> = Vec::new();
    let mut queue: Vec<String> = Vec::new();
    queue.push(child.clone());
    let mut qi: usize = 0;
    proof {
        lemma_bfs_init(*graph, child@, avoid);
        assert(queue.deep_view() =~~= seq![child@]);
        assert(visited.deep_view() =~~= Seq::<Seq<char>>::empty());
        lemma_id_universe_finite(*graph, child@);
    }
    while qi < queue.len()
        invariant
            bfs_inv(*graph, child@, avoid, visited.deep_view(), queue.deep_view(), qi as int),
            avoid == Set::<Seq<char>>::empty(),
            id_universe(*graph, child@).finite(),
            forall|k: int| 0 <= k < visited.len() ==> visited.deep_view()[k] != parent@,
        decreases
                id_universe(*graph, child@).len() - visited.deep_view().to_set().len(),
                queue.len() - qi,
    {
        proof {
            lemma_bfs_measure_bounds(*graph, child@, visited.deep_view());
        }
        let c = queue[qi].clone();
        proof {
            assert(queue.deep_view()[qi as int] == c@);
        }
        if c == *parent {
            proof {
                assert(reaches_avoiding(*graph, child@, c@, avoid));
                lemma_reaches_avoiding_empty(*graph, child@, c@);
            }
            return true;
        }
        if !contains_string(&visited, &c) {
            let ps = graph.parents(&c);
            let ghost pre_v = visited.deep_view();
            let ghost pre_q = queue.deep_view();
            proof {
                lemma_bfs_expand(*graph, child@, avoid, pre_v, pre_q, qi as int, ps.deep_view());
            }
            visited.push(c.clone());
            let mut j: usize = 0;
            while j < ps.len()
                invariant
                    0 <= j <= ps.len(),
                    queue.deep_view() =~~= pre_q + ps.deep_view().subrange(0, j as int),
                decreases ps.len() - j,
            {
                let ghost mid_q = queue.deep_view();
                queue.push(ps[j].clone());
                proof {
                    let nq = queue.deep_view();
                    assert(nq.len() == mid_q.len() + 1);
                    assert(queue@[mid_q.len() as int]@ == ps.deep_view()[j as int]);
                    assert forall|k: int| 0 <= k < mid_q.len() implies nq[k] == mid_q[k] by {}
                    assert(queue.deep_view() =~~= pre_q + ps.deep_view().subrange(0, j + 1 as int));
                }
                j = j + 1;
            }
            proof {
                assert(ps.deep_view().subrange(0, ps.len() as int) =~~= ps.deep_view());
                assert(visited.deep_view() =~~= pre_v.push(c@));
                assert(queue.deep_view() =~~= pre_q + ps.deep_view());
                lemma_bfs_measure_bounds(*graph, child@, visited.deep_view());
                lemma_push_contains(pre_v, c@);
                assert(visited.deep_view().to_set() =~= pre_v.to_set().insert(c@));
            }
        } else {
            proof {
                lemma_bfs_skip(
                    *graph,
                    child@,
                    avoid,
                    visited.deep_view(),
                    queue.deep_view(),
                    qi as int,
                );
            }
        }
        qi = qi + 1;
    }
    proof {
        lemma_bfs_complete(*graph, child@, avoid, visited.deep_view(), queue.deep_view());
        if reaches(*graph, child@, parent@) {
            lemma_reaches_avoiding_empty(*graph, child@, parent@);
            assert(visited.deep_view().contains(parent@));
            let k = choose|k: int|
                0 <= k < visited.deep_view().len() && visited.deep_view()[k] == parent@;
            assert(false);
        }
    }
    false
}

} // verus!
