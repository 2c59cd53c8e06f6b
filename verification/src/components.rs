//! Counting maximal connected subgraphs.

use vstd::prelude::*;
use crate::graph::Graph;
use crate::model::{Player, first_seen, share_group, views_of, lemma_first_seen_contains};
use crate::reach::{bfs_distances, connected, connects, has_dist, is_path,
    lemma_connected_trans};

verus! {

/// Node `i` is the representative of its component: no node with a
/// smaller handle reaches it.
pub open spec fn is_rep(g: Graph, i: int) -> bool {
    &&& 0 <= i < g.n()
    &&& forall|j: int| 0 <= j < i ==> !connected(g, j, i)
}

/// The number of representatives among the first `i` nodes: each
/// component is counted exactly once, at its smallest handle.
pub open spec fn rep_count(g: Graph, i: int) -> nat
    decreases i,
{
    if i <= 0 {
        0
    } else {
        rep_count(g, i - 1) + if is_rep(g, i - 1) {
            1nat
        } else {
            0nat
        }
    }
}

/// At most one representative per node.
pub proof fn lemma_rep_count_le(g: Graph, i: int)
    requires
        0 <= i,
    ensures
        rep_count(g, i) <= i,
    decreases i,
{
    if i > 0 {
        lemma_rep_count_le(g, i - 1);
    }
}

/// Count the maximal connected subgraphs of `g`: the number of nodes
/// that no smaller-handle node reaches, which is the number of
/// equivalence classes of reachability. An isolated node is its own
/// component.
pub fn find_connected_components(g: &Graph) -> (r: usize)
    requires
        g.wf(),
    ensures
        r == rep_count(*g, g.n()),
        r <= g.n(),
{
    let n = g.node_count();
    let mut visited: Vec<bool> = Vec::new();
    let mut t: usize = 0;
    while t < n
        invariant
            t <= n,
            visited@.len() == t,
            forall|u: int| 0 <= u < t ==> !(#[trigger] visited@[u]),
        decreases n - t,
    {
        visited.push(false);
        t = t + 1;
    }
    let mut count: usize = 0;
    let mut i: usize = 0;
    while i < n
        invariant
            g.wf(),
            n == g.n(),
            i <= n,
            visited@.len() == n,
            count == rep_count(*g, i as int),
            count <= i,
            forall|u: int|
                0 <= u < n
                    ==> ((#[trigger] visited@[u])
                        <==> exists|j: int| 0 <= j < i && connected(*g, j, u)),
        decreases n - i,
    {
        if !visited[i] {
            proof {
                assert(is_rep(*g, i as int)) by {
                    assert forall|j: int| 0 <= j < i implies !connected(*g, j, i as int) by {
                        if connected(*g, j, i as int) {
                            assert(visited@[i as int]);
                        }
                    }
                }
                lemma_rep_count_le(*g, i as int);
            }
            count = count + 1;
            let dist = bfs_distances(g, i);
            let ghost pre_visited = visited@;
            let mut u: usize = 0;
            while u < n
                invariant
                    n == g.n(),
                    u <= n,
                    visited@.len() == n,
                    dist@.len() == n,
                    forall|w: int|
                        0 <= w < n && (#[trigger] dist@[w]) is Some
                            ==> has_dist(*g, i as int, w, dist@[w]->0 as int),
                    forall|w: int|
                        0 <= w < n && (#[trigger] dist@[w]) is None
                            ==> !connected(*g, i as int, w),
                    forall|w: int|
                        0 <= w < u
                            ==> ((#[trigger] visited@[w])
                                <==> (pre_visited[w] || dist@[w] is Some)),
                    forall|w: int| u <= w < n ==> (#[trigger] visited@[w]) == pre_visited[w],
                decreases n - u,
            {
                if dist[u].is_some() {
                    visited.set(u, true);
                }
                u = u + 1;
            }
            proof {
                assert forall|w: int| 0 <= w < n implies
                    ((#[trigger] visited@[w])
                        <==> exists|j: int| 0 <= j < i + 1 && connected(*g, j, w))
                by {
                    if visited@[w] {
                        if pre_visited[w] {
                            let j = choose|j: int| 0 <= j < i && connected(*g, j, w);
                            assert(connected(*g, j, w));
                        } else {
                            assert(dist@[w] is Some);
                            let p = choose|p: Seq<int>|
                                connects(*g, p, i as int, w)
                                    && p.len() == (dist@[w]->0 as int) + 1;
                            assert(connected(*g, i as int, w));
                        }
                    }
                    if exists|j: int| 0 <= j < i + 1 && connected(*g, j, w) {
                        let j = choose|j: int| 0 <= j < i + 1 && connected(*g, j, w);
                        if j < i {
                            assert(pre_visited[w]);
                        } else {
                            assert(connected(*g, i as int, w));
                            if dist@[w] is None {
                                assert(false);
                            }
                        }
                        assert(visited@[w]);
                    }
                }
            }
        } else {
            proof {
                assert(!is_rep(*g, i as int)) by {
                    let j = choose|j: int| 0 <= j < i && connected(*g, j, i as int);
                }
                assert forall|w: int| 0 <= w < n implies
                    ((#[trigger] visited@[w])
                        <==> exists|j: int| 0 <= j < i + 1 && connected(*g, j, w))
                by {
                    if exists|j: int| 0 <= j < i + 1 && connected(*g, j, w) {
                        let j = choose|j: int| 0 <= j < i + 1 && connected(*g, j, w);
                        if j == i {
                            let j0 = choose|j0: int| 0 <= j0 < i && connected(*g, j0, i as int);
                            lemma_connected_trans(*g, j0, i as int, w);
                            assert(connected(*g, j0, w));
                        }
                        assert(visited@[w]);
                    }
                }
            }
        }
        i = i + 1;
    }
    count
}

/// The groups of `rs` have disjoint membership: every record of one
/// name carries one team.
pub open spec fn disjoint_groups(rs: Seq<Player>) -> bool {
    forall|k: int, l: int|
        #![trigger rs[k], rs[l]]
        0 <= k < rs.len() && 0 <= l < rs.len()
            && rs[k].player_name@ == rs[l].player_name@
            ==> rs[k].team@ == rs[l].team@
}

/// Under disjoint membership, sharing a group is transitive.
pub proof fn lemma_share_group_trans(rs: Seq<Player>, a: Seq<char>, b: Seq<char>, c: Seq<char>)
    requires
        disjoint_groups(rs),
        share_group(rs, a, b),
        share_group(rs, b, c),
    ensures
        share_group(rs, a, c),
{
    let (k, l) = choose|k: int, l: int|
        0 <= k < rs.len() && 0 <= l < rs.len()
            && rs[k].player_name@ == a && rs[l].player_name@ == b
            && rs[k].team@ == rs[l].team@;
    let (k2, l2) = choose|k2: int, l2: int|
        0 <= k2 < rs.len() && 0 <= l2 < rs.len()
            && rs[k2].player_name@ == b && rs[l2].player_name@ == c
            && rs[k2].team@ == rs[l2].team@;
    assert(rs[l].team@ == rs[k2].team@);
}

/// In a graph built from records with disjoint membership, a walk can
/// only stay inside one group.
proof fn lemma_walk_stays_in_group(rs: Seq<Player>, g: Graph, p: Seq<int>, i: int, j: int)
    requires
        Graph::builds(rs, g),
        disjoint_groups(rs),
        connects(g, p, i, j),
    ensures
        i == j || share_group(rs, g.name_at(i), g.name_at(j)),
    decreases p.len(),
{
    if p.len() > 1 {
        let p2 = p.drop_last();
        let j2 = p2.last();
        assert(connects(g, p2, i, j2)) by {
            assert forall|k: int| #![trigger p2[k]] 0 <= k < p2.len() - 1 implies
                g.edge(p2[k], p2[k + 1]) by {
                assert(p2[k] == p[k] && p2[k + 1] == p[k + 1]);
                assert(g.edge(p[k], p[k + 1]));
            }
        }
        assert(g.edge(j2, j)) by {
            assert(p[p.len() - 2] == j2 && p[p.len() - 1] == j);
            assert(g.edge(p[p.len() - 2], p[p.len() - 2 + 1]));
        }
        assert(j2 != j && share_group(rs, g.name_at(j2), g.name_at(j)));
        lemma_walk_stays_in_group(rs, g, p2, i, j2);
        if i != j2 && i != j {
            lemma_share_group_trans(rs, g.name_at(i), g.name_at(j2), g.name_at(j));
        }
        if i == j2 && i != j {
            assert(share_group(rs, g.name_at(i), g.name_at(j)));
        }
    }
}

/// In a graph built from records with disjoint membership, two nodes
/// are connected exactly when they are equal or share a group.
pub proof fn lemma_connected_iff_share(rs: Seq<Player>, g: Graph, i: int, j: int)
    requires
        Graph::builds(rs, g),
        disjoint_groups(rs),
        0 <= i < g.n(),
        0 <= j < g.n(),
    ensures
        connected(g, i, j) <==> (i == j || share_group(rs, g.name_at(i), g.name_at(j))),
{
    if connected(g, i, j) {
        let p = choose|p: Seq<int>| connects(g, p, i, j);
        lemma_walk_stays_in_group(rs, g, p, i, j);
    }
    if i == j {
        crate::reach::lemma_connected_refl(g, i);
    } else if share_group(rs, g.name_at(i), g.name_at(j)) {
        assert(g.edge(i, j));
        let p = seq![i, j];
        assert(p.first() == i && p.last() == j);
        assert(is_path(g, p)) by {
            assert(p[0int] == i && p[1int] == j);
        }
        assert(connects(g, p, i, j));
    }
}

/// Node `i` is the first node of its group: no earlier node shares a
/// group with it.
pub open spec fn first_of_group(rs: Seq<Player>, g: Graph, i: int) -> bool {
    &&& 0 <= i < g.n()
    &&& forall|j: int| 0 <= j < i ==> !share_group(rs, g.name_at(j), g.name_at(i))
}

/// The number of groups with at least one member among the first `i`
/// nodes: each group is counted once, at its first node.
pub open spec fn group_count(rs: Seq<Player>, g: Graph, i: int) -> nat
    decreases i,
{
    if i <= 0 {
        0
    } else {
        group_count(rs, g, i - 1) + if first_of_group(rs, g, i - 1) {
            1nat
        } else {
            0nat
        }
    }
}

/// For groups with disjoint membership, each of size at least one, the
/// component count of the built graph equals the number of groups:
/// every group forms one clique, reachable from nowhere else.
pub proof fn lemma_components_count_groups(rs: Seq<Player>, g: Graph, i: int)
    requires
        Graph::builds(rs, g),
        disjoint_groups(rs),
        0 <= i <= g.n(),
    ensures
        rep_count(g, i) == group_count(rs, g, i),
    decreases i,
{
    if i > 0 {
        lemma_components_count_groups(rs, g, i - 1);
        assert(is_rep(g, i - 1) <==> first_of_group(rs, g, i - 1)) by {
            assert forall|j: int| #![trigger g.name_at(j)] 0 <= j < i - 1 implies
                (connected(g, j, i - 1)
                    <==> share_group(rs, g.name_at(j), g.name_at(i - 1)))
            by {
                lemma_connected_iff_share(rs, g, j, i - 1);
            }
        }
    }
}

} // verus!
