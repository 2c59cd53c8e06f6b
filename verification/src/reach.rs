//! Paths, connectivity, and single-source shortest distances by
//! breadth-first search.

use vstd::prelude::*;
use crate::graph::Graph;

verus! {

/// `p` is a walk in `g`: a nonempty sequence of in-range handles in which
/// consecutive entries are adjacent.
pub open spec fn is_path(g: Graph, p: Seq<int>) -> bool {
    &&& p.len() >= 1
    &&& forall|k: int| 0 <= k < p.len() ==> 0 <= (#[trigger] p[k]) < g.n()
    &&& forall|k: int| #![trigger p[k]] 0 <= k < p.len() - 1 ==> g.edge(p[k], p[k + 1])
}

/// `p` is a walk from `i` to `j`.
pub open spec fn connects(g: Graph, p: Seq<int>, i: int, j: int) -> bool {
    is_path(g, p) && p.first() == i && p.last() == j
}

/// Some walk leads from `i` to `j` (in particular, `i` reaches itself).
pub open spec fn connected(g: Graph, i: int, j: int) -> bool {
    exists|p: Seq<int>| connects(g, p, i, j)
}

/// Some walk of exactly `d` steps leads from `i` to `j`.
pub open spec fn has_dist(g: Graph, i: int, j: int, d: int) -> bool {
    exists|p: Seq<int>| connects(g, p, i, j) && p.len() == d + 1
}

/// `d` is the length of the shortest walk from `i` to `j`.
pub open spec fn is_shortest_dist(g: Graph, i: int, j: int, d: int) -> bool {
    has_dist(g, i, j, d) && forall|d2: int| 0 <= d2 < d ==> !has_dist(g, i, j, d2)
}

/// A node reaches itself by the one-node walk.
pub proof fn lemma_connected_refl(g: Graph, i: int)
    requires
        0 <= i < g.n(),
    ensures
        connected(g, i, i),
        has_dist(g, i, i, 0),
{
    let p = seq![i];
    assert(p.first() == i && p.last() == i);
    assert(connects(g, p, i, i) && p.len() == 0 + 1);
}

/// A walk extended along an edge is still a walk.
pub proof fn lemma_path_extend(g: Graph, p: Seq<int>, i: int, j: int, m: int)
    requires
        connects(g, p, i, j),
        g.edge(j, m),
    ensures
        connects(g, p.push(m), i, m),
{
    let q = p.push(m);
    assert(q.last() == m && q.first() == p.first());
    assert forall|k: int| 0 <= k < q.len() - 1 implies #[trigger] g.edge(q[k], q[k + 1]) by {
        if k < p.len() - 1 {
            assert(q[k] == p[k] && q[k + 1] == p[k + 1]);
            assert(g.edge(p[k], p[k + 1]));
        } else {
            assert(q[k] == p.last() && q[k + 1] == m);
        }
    }
}

/// Reachability is transitive.
pub proof fn lemma_connected_trans(g: Graph, i: int, j: int, k: int)
    requires
        connected(g, i, j),
        connected(g, j, k),
    ensures
        connected(g, i, k),
{
    let p = choose|p: Seq<int>| connects(g, p, i, j);
    let q = choose|q: Seq<int>| connects(g, q, j, k);
    lemma_path_concat(g, p, q);
}

/// Two walks sharing an endpoint compose into reachability.
pub proof fn lemma_path_concat(g: Graph, p: Seq<int>, q: Seq<int>)
    requires
        is_path(g, p),
        is_path(g, q),
        p.last() == q.first(),
    ensures
        connected(g, p.first(), q.last()),
    decreases q.len(),
{
    if q.len() == 1 {
        assert(q.last() == q.first());
        assert(connects(g, p, p.first(), q.last()));
    } else {
        let q2 = q.subrange(1, q.len() as int);
        assert(g.edge(q[0], q[1]));
        let p2 = p.push(q[1]);
        assert(connects(g, p, p.first(), p.last()));
        lemma_path_extend(g, p, p.first(), p.last(), q[1]);
        assert(is_path(g, q2)) by {
            assert forall|k: int| 0 <= k < q2.len() - 1 implies #[trigger] g.edge(q2[k], q2[k + 1]) by {
                assert(q2[k] == q[k + 1] && q2[k + 1] == q[k + 2]);
                assert(g.edge(q[k + 1], q[k + 1 + 1]));
            }
        }
        assert(p2.last() == q2.first());
        lemma_path_concat(g, p2, q2);
        assert(p2.first() == p.first() && q2.last() == q.last());
    }
}

/// The distance table is fully relaxed from `src`: the source is at
/// distance zero and no edge can improve a recorded distance by more
/// than one.
pub open spec fn fully_relaxed(g: Graph, src: int, dist: Seq<Option<usize>>) -> bool {
    &&& dist.len() == g.n()
    &&& 0 <= src < g.n()
    &&& dist[src] == Some(0usize)
    &&& forall|u: int, j: int|
        0 <= u < g.n() && dist[u] is Some && #[trigger] g.edge(u, j)
            ==> dist[j] is Some && (dist[j]->0 as int) <= (dist[u]->0 as int) + 1
}

/// Over a fully relaxed table, every walk from `src` to `j` bounds the
/// recorded distance of `j`.
pub proof fn lemma_relaxed_bound(g: Graph, src: int, dist: Seq<Option<usize>>, p: Seq<int>)
    requires
        fully_relaxed(g, src, dist),
        is_path(g, p),
        p.first() == src,
    ensures
        dist[p.last()] is Some,
        (dist[p.last()]->0 as int) <= p.len() - 1,
    decreases p.len(),
{
    if p.len() == 1 {
        assert(p.last() == src);
    } else {
        let p2 = p.drop_last();
        assert(is_path(g, p2)) by {
            assert forall|k: int| 0 <= k < p2.len() - 1 implies #[trigger] g.edge(p2[k], p2[k + 1]) by {
                assert(p2[k] == p[k] && p2[k + 1] == p[k + 1]);
                assert(g.edge(p[k], p[k + 1]));
            }
        }
        lemma_relaxed_bound(g, src, dist, p2);
        assert(g.edge(p2.last(), p.last())) by {
            assert(p[p.len() - 2] == p2.last() && p[p.len() - 1] == p.last());
            assert(g.edge(p[p.len() - 2], p[p.len() - 2 + 1]));
        }
    }
}

/// The number of filled entries of a distance table.
pub open spec fn count_some(s: Seq<Option<usize>>) -> nat
    decreases s.len(),
{
    if s.len() == 0 {
        0
    } else {
        count_some(s.drop_last()) + if s.last() is Some {
            1nat
        } else {
            0nat
        }
    }
}

/// At most every entry is filled.
pub proof fn lemma_count_some_le(s: Seq<Option<usize>>)
    ensures
        count_some(s) <= s.len(),
    decreases s.len(),
{
    if s.len() > 0 {
        lemma_count_some_le(s.drop_last());
    }
}

/// An all-empty table has count zero.
pub proof fn lemma_count_some_none(s: Seq<Option<usize>>)
    requires
        forall|t: int| 0 <= t < s.len() ==> (#[trigger] s[t]) is None,
    ensures
        count_some(s) == 0,
    decreases s.len(),
{
    if s.len() > 0 {
        lemma_count_some_none(s.drop_last());
    }
}

/// Filling one empty entry raises the count by one.
pub proof fn lemma_count_some_update(s: Seq<Option<usize>>, i: int, v: Option<usize>)
    requires
        0 <= i < s.len(),
        s[i] is None,
        v is Some,
    ensures
        count_some(s.update(i, v)) == count_some(s) + 1,
    decreases s.len(),
{
    let t = s.update(i, v);
    if i == s.len() - 1 {
        assert(t.drop_last() =~= s.drop_last());
        assert(t.last() == v && s.last() == s[i]);
    } else {
        assert(t.drop_last() =~= s.drop_last().update(i, v));
        assert(t.last() == s.last());
        lemma_count_some_update(s.drop_last(), i, v);
    }
}

/// Breadth-first shortest distances from `src`. The entry of node `u` is
/// `Some(d)` exactly when `u` is reachable from `src` and the shortest
/// walk between them has `d` steps, and `None` exactly when `u` is
/// unreachable from `src`.
#[verifier::rlimit(100)]
pub fn bfs_distances(g: &Graph, src: usize) -> (dist: Vec<Option<usize>>)
    requires
        g.wf(),
        src < g.n(),
    ensures
        dist@.len() == g.n(),
        dist@[src as int] == Some(0usize),
        forall|u: int|
            0 <= u < g.n() && (#[trigger] dist@[u]) is Some
                ==> is_shortest_dist(*g, src as int, u, dist@[u]->0 as int)
                    && (dist@[u]->0 as int) < g.n(),
        forall|u: int|
            0 <= u < g.n() && (#[trigger] dist@[u]) is None
                ==> !connected(*g, src as int, u),
{
    let n = g.node_count();
    let mut dist: Vec<Option<usize>> = Vec::new();
    let mut i: usize = 0;
    while i < n
        invariant
            i <= n,
            dist@.len() == i,
            forall|t: int| 0 <= t < i ==> (#[trigger] dist@[t]) is None,
        decreases n - i,
    {
        dist.push(None);
        i = i + 1;
    }
    proof {
        lemma_count_some_none(dist@);
    }
    let ghost dist0 = dist@;
    dist.set(src, Some(0));
    proof {
        lemma_count_some_update(dist0, src as int, Some(0usize));
    }
    let mut frontier: Vec<usize> = Vec::new();
    frontier.push(src);
    let mut d: usize = 0;
    let mut visited: usize = 1;
    proof {
        lemma_connected_refl(*g, src as int);
        assert(frontier@[0] == src);
        assert(frontier@.contains(src));
        assert(forall|u: int|
            0 <= u < n && u != src ==> (#[trigger] dist@[u]) is None);
    }
    while frontier.len() > 0
        invariant
            g.wf(),
            n == g.n(),
            src < n,
            dist@.len() == n,
            dist@[src as int] == Some(0usize),
            visited == count_some(dist@),
            visited <= n,
            frontier@.len() > 0 ==> d < visited,
            // soundness: every recorded distance is witnessed by a walk
            forall|u: int|
                0 <= u < n && (#[trigger] dist@[u]) is Some
                    ==> has_dist(*g, src as int, u, dist@[u]->0 as int)
                        && (dist@[u]->0 as int) < visited,
            // the frontier holds exactly the nodes recorded at level d
            forall|t: int|
                0 <= t < frontier@.len()
                    ==> (#[trigger] frontier@[t]) < n
                        && dist@[frontier@[t] as int] == Some(d),
            forall|u: int|
                0 <= u < n && (#[trigger] dist@[u]) is Some
                    ==> (dist@[u]->0 as int) <= d
                        && ((dist@[u]->0 as int) == d ==> frontier@.contains(u as usize)),
            // every level below d is fully relaxed
            forall|u: int, j: int|
                0 <= u < n && (#[trigger] dist@[u]) is Some && (dist@[u]->0 as int) < d
                    && #[trigger] g.edge(u, j)
                    ==> dist@[j] is Some && (dist@[j]->0 as int) <= (dist@[u]->0 as int) + 1,
        decreases n - visited, frontier@.len(),
    {
        let ghost pre_visited = visited as int;
        let mut next: Vec<usize> = Vec::new();
        let mut fi: usize = 0;
        while fi < frontier.len()
            invariant
                g.wf(),
                n == g.n(),
                src < n,
                dist@.len() == n,
                dist@[src as int] == Some(0usize),
                visited == count_some(dist@),
                visited <= n,
                d < pre_visited,
                visited as int == pre_visited + next@.len(),
                fi <= frontier@.len(),
                frontier@.len() > 0,
                forall|u: int|
                    0 <= u < n && (#[trigger] dist@[u]) is Some
                        ==> has_dist(*g, src as int, u, dist@[u]->0 as int),
                forall|t: int|
                    0 <= t < frontier@.len()
                        ==> (#[trigger] frontier@[t]) < n
                            && dist@[frontier@[t] as int] == Some(d),
                forall|t: int|
                    0 <= t < next@.len()
                        ==> (#[trigger] next@[t]) < n
                            && dist@[next@[t] as int] == Some((d + 1) as usize),
                forall|u: int|
                    0 <= u < n && (#[trigger] dist@[u]) is Some
                        ==> (dist@[u]->0 as int) <= d + 1
                            && ((dist@[u]->0 as int) == d ==> frontier@.contains(u as usize))
                            && ((dist@[u]->0 as int) == d + 1 ==> next@.contains(u as usize)),
                forall|u: int, j: int|
                    0 <= u < n && (#[trigger] dist@[u]) is Some && (dist@[u]->0 as int) < d
                        && #[trigger] g.edge(u, j)
                        ==> dist@[j] is Some
                            && (dist@[j]->0 as int) <= (dist@[u]->0 as int) + 1,
                forall|t: int, j: int|
                    0 <= t < fi && #[trigger] g.edge(frontier@[t] as int, j)
                        ==> dist@[j] is Some && (dist@[j]->0 as int) <= d + 1,
            decreases frontier@.len() - fi,
        {
            let u = frontier[fi];
            let row = g.neighbors(u);
            let row_len = row.len();
            let mut ni: usize = 0;
            while ni < row_len
                invariant
                    g.wf(),
                    n == g.n(),
                    src < n,
                    dist@.len() == n,
                    dist@[src as int] == Some(0usize),
                    visited == count_some(dist@),
                    visited <= n,
                    d < pre_visited,
                    visited as int == pre_visited + next@.len(),
                    fi < frontier@.len(),
                    u == frontier@[fi as int],
                    u < n,
                    dist@[u as int] == Some(d),
                    row@ == g.adj@[u as int]@,
                    row_len == row@.len(),
                    ni <= row_len,
                    forall|u2: int|
                        0 <= u2 < n && (#[trigger] dist@[u2]) is Some
                            ==> has_dist(*g, src as int, u2, dist@[u2]->0 as int),
                    forall|t: int|
                        0 <= t < frontier@.len()
                            ==> (#[trigger] frontier@[t]) < n
                                && dist@[frontier@[t] as int] == Some(d),
                    forall|t: int|
                        0 <= t < next@.len()
                            ==> (#[trigger] next@[t]) < n
                                && dist@[next@[t] as int] == Some((d + 1) as usize),
                    forall|u2: int|
                        0 <= u2 < n && (#[trigger] dist@[u2]) is Some
                            ==> (dist@[u2]->0 as int) <= d + 1
                                && ((dist@[u2]->0 as int) == d
                                    ==> frontier@.contains(u2 as usize))
                                && ((dist@[u2]->0 as int) == d + 1
                                    ==> next@.contains(u2 as usize)),
                    forall|u2: int, j: int|
                        0 <= u2 < n && (#[trigger] dist@[u2]) is Some
                            && (dist@[u2]->0 as int) < d && #[trigger] g.edge(u2, j)
                            ==> dist@[j] is Some
                                && (dist@[j]->0 as int) <= (dist@[u2]->0 as int) + 1,
                    forall|t: int, j: int|
                        0 <= t < fi && #[trigger] g.edge(frontier@[t] as int, j)
                            ==> dist@[j] is Some && (dist@[j]->0 as int) <= d + 1,
                    forall|k: int|
                        0 <= k < ni
                            ==> dist@[(#[trigger] row@[k]) as int] is Some
                                && (dist@[row@[k] as int]->0 as int) <= d + 1,
                decreases row_len - ni,
            {
                let v = row[ni];
                assert(v < n);
                if dist[v].is_none() {
                    proof {
                        assert(g.edge(u as int, v as int)) by {
                            assert(g.adj@[u as int]@[ni as int] == v);
                        }
                        let p = choose|p: Seq<int>|
                            connects(*g, p, src as int, u as int) && p.len() == d + 1;
                        lemma_path_extend(*g, p, src as int, u as int, v as int);
                        assert(has_dist(*g, src as int, v as int, d + 1)) by {
                            assert(connects(*g, p.push(v as int), src as int, v as int)
                                && p.push(v as int).len() == (d + 1) + 1);
                        }
                        lemma_count_some_update(dist@, v as int, Some((d + 1) as usize));
                        lemma_count_some_le(dist@.update(v as int, Some((d + 1) as usize)));
                    }
                    let ghost pre_next = next@;
                    let ghost pre_dist = dist@;
                    dist.set(v, Some(d + 1));
                    next.push(v);
                    visited = visited + 1;
                    proof {
                        assert(next@[next@.len() - 1] == v);
                        assert(next@.contains(v));
                        assert forall|w: usize| pre_next.contains(w) implies next@.contains(w)
                        by {
                            let t = choose|t: int| 0 <= t < pre_next.len() && pre_next[t] == w;
                            assert(next@[t] == w);
                        }
                        assert forall|u2: int|
                            0 <= u2 < n && (#[trigger] dist@[u2]) is Some implies
                            has_dist(*g, src as int, u2, dist@[u2]->0 as int)
                        by {
                            if u2 != v as int {
                                assert(dist@[u2] == pre_dist[u2]);
                            }
                        }
                        assert forall|t: int| 0 <= t < frontier@.len() implies
                            (#[trigger] frontier@[t]) < n
                                && dist@[frontier@[t] as int] == Some(d)
                        by {
                            assert(pre_dist[frontier@[t] as int] == Some(d));
                        }
                        assert forall|t: int| 0 <= t < next@.len() implies
                            (#[trigger] next@[t]) < n
                                && dist@[next@[t] as int] == Some((d + 1) as usize)
                        by {
                            if t < pre_next.len() {
                                assert(next@[t] == pre_next[t]);
                                assert(pre_dist[pre_next[t] as int] == Some((d + 1) as usize));
                            }
                        }
                        assert forall|u2: int|
                            0 <= u2 < n && (#[trigger] dist@[u2]) is Some implies
                            (dist@[u2]->0 as int) <= d + 1
                                && ((dist@[u2]->0 as int) == d
                                    ==> frontier@.contains(u2 as usize))
                                && ((dist@[u2]->0 as int) == d + 1
                                    ==> next@.contains(u2 as usize))
                        by {
                            if u2 != v as int {
                                assert(dist@[u2] == pre_dist[u2]);
                            }
                        }
                        assert forall|u2: int, j: int|
                            0 <= u2 < n && (#[trigger] dist@[u2]) is Some
                                && (dist@[u2]->0 as int) < d && #[trigger] g.edge(u2, j) implies
                            dist@[j] is Some
                                && (dist@[j]->0 as int) <= (dist@[u2]->0 as int) + 1
                        by {
                            assert(u2 != v as int);
                            assert(pre_dist[u2] == dist@[u2]);
                            assert(pre_dist[j] is Some);
                            if j != v as int {
                                assert(dist@[j] == pre_dist[j]);
                            }
                        }
                        assert forall|t: int, j: int|
                            0 <= t < fi && #[trigger] g.edge(frontier@[t] as int, j) implies
                            dist@[j] is Some && (dist@[j]->0 as int) <= d + 1
                        by {
                            assert(pre_dist[j] is Some
                                && (pre_dist[j]->0 as int) <= d + 1);
                            if j != v as int {
                                assert(dist@[j] == pre_dist[j]);
                            }
                        }
                        assert forall|k: int| 0 <= k < ni + 1 implies
                            dist@[(#[trigger] row@[k]) as int] is Some
                                && (dist@[row@[k] as int]->0 as int) <= d + 1
                        by {
                            if k < ni && row@[k] as int != v as int {
                                assert(dist@[row@[k] as int] == pre_dist[row@[k] as int]);
                            }
                        }
                    }
                } else {
                    proof {
                        assert(dist@[row@[ni as int] as int] is Some);
                    }
                }
                ni = ni + 1;
            }
            proof {
                assert forall|j: int| #[trigger] g.edge(u as int, j) implies
                    dist@[j] is Some && (dist@[j]->0 as int) <= d + 1
                by {
                    let k = choose|k: int|
                        0 <= k < g.adj@[u as int]@.len() && g.adj@[u as int]@[k] == j as usize;
                    assert(row@[k] == j as usize);
                }
            }
            fi = fi + 1;
        }
        proof {
            assert forall|u2: int, j: int|
                0 <= u2 < n && (#[trigger] dist@[u2]) is Some
                    && (dist@[u2]->0 as int) < d + 1 && #[trigger] g.edge(u2, j) implies
                dist@[j] is Some && (dist@[j]->0 as int) <= (dist@[u2]->0 as int) + 1
            by {
                if (dist@[u2]->0 as int) == d {
                    assert(frontier@.contains(u2 as usize));
                    let t = choose|t: int|
                        0 <= t < frontier@.len() && frontier@[t] == u2 as usize;
                    assert(g.edge(frontier@[t] as int, j));
                }
            }
            assert forall|u2: int|
                0 <= u2 < n && (#[trigger] dist@[u2]) is Some implies
                (dist@[u2]->0 as int) < visited
            by {
                if (dist@[u2]->0 as int) == d + 1 {
                    assert(next@.contains(u2 as usize));
                    let t = choose|t: int| 0 <= t < next@.len() && next@[t] == u2 as usize;
                    assert(next@.len() >= 1);
                }
            }
        }
        frontier = next;
        d = d + 1;
    }
    proof {
        assert(fully_relaxed(*g, src as int, dist@)) by {
            assert forall|u: int, j: int|
                0 <= u < g.n() && dist@[u] is Some && #[trigger] g.edge(u, j) implies
                dist@[j] is Some && (dist@[j]->0 as int) <= (dist@[u]->0 as int) + 1
            by {
                assert((dist@[u]->0 as int) < d);
            }
        }
        assert forall|u: int|
            0 <= u < g.n() && (#[trigger] dist@[u]) is Some implies
            is_shortest_dist(*g, src as int, u, dist@[u]->0 as int)
        by {
            assert forall|d2: int| 0 <= d2 < dist@[u]->0 implies
                !has_dist(*g, src as int, u, d2)
            by {
                if has_dist(*g, src as int, u, d2) {
                    let p = choose|p: Seq<int>|
                        connects(*g, p, src as int, u) && p.len() == d2 + 1;
                    lemma_relaxed_bound(*g, src as int, dist@, p);
                }
            }
        }
        assert forall|u: int|
            0 <= u < g.n() && (#[trigger] dist@[u]) is None implies
            !connected(*g, src as int, u)
        by {
            if connected(*g, src as int, u) {
                let p = choose|p: Seq<int>| connects(*g, p, src as int, u);
                lemma_relaxed_bound(*g, src as int, dist@, p);
            }
        }
    }
    dist
}

} // verus!
