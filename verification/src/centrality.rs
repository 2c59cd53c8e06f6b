//! Closeness centrality as an exact rational score.

use vstd::prelude::*;
use crate::graph::Graph;
use crate::reach::{bfs_distances, connected, connects, has_dist, is_shortest_dist,
    lemma_connected_refl};

verus! {

/// A closeness score, held exactly as the nonnegative rational
/// `num / den`. A node `v` in a graph of `N` nodes with distance sum
/// `D(v) > 0` scores `(N - 1) / D(v)`; an isolated node scores `0 / 1`.
/// Equality of the struct is equality of the representation; comparison
/// of the value goes by `le`.
#[derive(Clone, Copy, Debug, PartialEq, Eq, Structural)]
pub struct Centrality {
    pub num: u64,
    pub den: u64,
}

impl Centrality {
    /// The value `self` is at most the value `other`, by cross
    /// multiplication (denominators are nonnegative).
    pub open spec fn spec_le(self, other: Centrality) -> bool {
        self.num * other.den <= other.num * self.den
    }

    /// Compare two scores as rationals.
    pub fn le(&self, other: &Centrality) -> (r: bool)
        ensures
            r == self.spec_le(*other),
    {
        proof {
            assert((self.num as int) * (other.den as int)
                <= 0xffff_ffff_ffff_ffff * 0xffff_ffff_ffff_ffff) by (nonlinear_arith)
                requires
                    self.num <= 0xffff_ffff_ffff_ffff,
                    other.den <= 0xffff_ffff_ffff_ffff,
            ;
            assert((other.num as int) * (self.den as int)
                <= 0xffff_ffff_ffff_ffff * 0xffff_ffff_ffff_ffff) by (nonlinear_arith)
                requires
                    other.num <= 0xffff_ffff_ffff_ffff,
                    self.den <= 0xffff_ffff_ffff_ffff,
            ;
        }
        let a = (self.num as u128) * (other.den as u128);
        let b = (other.num as u128) * (self.den as u128);
        a <= b
    }
}

/// The shortest distance from `i` to `j`; meaningful only where some
/// walk connects them.
pub open spec fn spec_dist(g: Graph, i: int, j: int) -> int {
    choose|d: int| is_shortest_dist(g, i, j, d)
}

/// Shortest distances are unique.
pub proof fn lemma_shortest_unique(g: Graph, i: int, j: int, d1: int, d2: int)
    requires
        is_shortest_dist(g, i, j, d1),
        is_shortest_dist(g, i, j, d2),
    ensures
        d1 == d2,
{
    let p1 = choose|p: Seq<int>| connects(g, p, i, j) && p.len() == d1 + 1;
    let p2 = choose|p: Seq<int>| connects(g, p, i, j) && p.len() == d2 + 1;
    if d1 < d2 {
        assert(has_dist(g, i, j, d1));
        assert(!has_dist(g, i, j, d1));
    }
    if d2 < d1 {
        assert(has_dist(g, i, j, d2));
        assert(!has_dist(g, i, j, d2));
    }
}

/// A recorded shortest distance pins down `spec_dist`.
pub proof fn lemma_spec_dist_is(g: Graph, i: int, j: int, d: int)
    requires
        is_shortest_dist(g, i, j, d),
    ensures
        spec_dist(g, i, j) == d,
        connected(g, i, j),
{
    let d0 = choose|d0: int| is_shortest_dist(g, i, j, d0);
    lemma_shortest_unique(g, i, j, d0, d);
    let p = choose|p: Seq<int>| connects(g, p, i, j) && p.len() == d + 1;
    assert(connects(g, p, i, j));
}

/// A node is at distance zero from itself.
pub proof fn lemma_spec_dist_self(g: Graph, v: int)
    requires
        0 <= v < g.n(),
    ensures
        spec_dist(g, v, v) == 0,
{
    lemma_connected_refl(g, v);
    assert(is_shortest_dist(g, v, v, 0));
    lemma_spec_dist_is(g, v, v, 0);
}

/// `D(v)` restricted to the first `i` nodes: the sum of the shortest
/// distances from `v` to each reachable node among them.
pub open spec fn sum_dist_prefix(g: Graph, v: int, i: int) -> int
    decreases i,
{
    if i <= 0 {
        0
    } else {
        sum_dist_prefix(g, v, i - 1) + if connected(g, v, i - 1) {
            spec_dist(g, v, i - 1)
        } else {
            0
        }
    }
}

/// The closeness score of node `v`: `(N - 1) / D(v)` over the global
/// node count `N`, and exactly zero where `v` reaches no other node.
pub open spec fn spec_closeness(g: Graph, v: int) -> Centrality {
    let dsum = sum_dist_prefix(g, v, g.n());
    if dsum > 0 {
        Centrality { num: (g.n() - 1) as u64, den: dsum as u64 }
    } else {
        Centrality { num: 0, den: 1 }
    }
}

/// The distance sum of a node that reaches nothing else is zero.
proof fn lemma_sum_dist_isolated(g: Graph, v: int, i: int)
    requires
        0 <= v < g.n(),
        0 <= i <= g.n(),
        forall|u: int| 0 <= u < g.n() && u != v ==> !connected(g, v, u),
    ensures
        sum_dist_prefix(g, v, i) == 0,
    decreases i,
{
    if i > 0 {
        lemma_sum_dist_isolated(g, v, i - 1);
        if i - 1 == v {
            lemma_spec_dist_self(g, v);
        }
    }
}

/// A node with no incident edges scores exactly zero.
pub proof fn lemma_isolated_node_scores_zero(g: Graph, v: int)
    requires
        g.wf(),
        0 <= v < g.n(),
        forall|j: int| !(#[trigger] g.edge(v, j)),
    ensures
        spec_closeness(g, v) == (Centrality { num: 0, den: 1 }),
{
    assert forall|u: int| 0 <= u < g.n() && u != v implies !connected(g, v, u) by {
        if connected(g, v, u) {
            let p = choose|p: Seq<int>| connects(g, p, v, u);
            assert(p.len() >= 2);
            assert(p[0] == v);
            assert(g.edge(p[0int], p[0int + 1]));
        }
    }
    lemma_sum_dist_isolated(g, v, g.n());
}

/// In a complete graph every other node sits at distance one.
proof fn lemma_sum_dist_clique(g: Graph, v: int, i: int)
    requires
        g.wf(),
        0 <= v < g.n(),
        0 <= i <= g.n(),
        forall|a: int, b: int|
            0 <= a < g.n() && 0 <= b < g.n() && a != b ==> #[trigger] g.edge(a, b),
    ensures
        sum_dist_prefix(g, v, i) == if v < i {
            i - 1
        } else {
            i
        },
    decreases i,
{
    if i > 0 {
        lemma_sum_dist_clique(g, v, i - 1);
        let u = i - 1;
        if u == v {
            lemma_spec_dist_self(g, v);
        } else {
            let p = seq![v, u];
            assert(p.first() == v && p.last() == u && p.len() == 2);
            assert(g.edge(p[0], p[1]));
            assert(connects(g, p, v, u));
            assert(has_dist(g, v, u, 1));
            assert(is_shortest_dist(g, v, u, 1)) by {
                if has_dist(g, v, u, 0) {
                    let q = choose|q: Seq<int>| connects(g, q, v, u) && q.len() == 0 + 1;
                    assert(q.first() == q.last());
                }
            }
            lemma_spec_dist_is(g, v, u, 1);
        }
    }
}

/// In one clique of `M >= 2` nodes, every node's distance sum is
/// `M - 1`, so with the global count `N == M` every score is exactly
/// `(M - 1) / (M - 1)`: the rational one.
pub proof fn lemma_clique_scores_one(g: Graph, v: int)
    requires
        g.wf(),
        2 <= g.n(),
        0 <= v < g.n(),
        forall|a: int, b: int|
            0 <= a < g.n() && 0 <= b < g.n() && a != b ==> #[trigger] g.edge(a, b),
    ensures
        spec_closeness(g, v) == (Centrality {
            num: (g.n() - 1) as u64,
            den: (g.n() - 1) as u64,
        }),
{
    lemma_sum_dist_clique(g, v, g.n());
    assert(sum_dist_prefix(g, v, g.n()) == g.n() - 1);
}

/// Closeness centrality of every node: breadth-first shortest paths from
/// each source in turn. The result has one score per node, in handle
/// order; every score of a connected node is `(N - 1) / D(v)`, and every
/// isolated node scores zero.
pub fn compute_closeness_centrality(g: &Graph) -> (scores: Vec<Centrality>)
    requires
        g.wf(),
    ensures
        scores@.len() == g.n(),
        forall|v: int| 0 <= v < g.n() ==> (#[trigger] scores@[v]) == spec_closeness(*g, v),
        forall|v: int| 0 <= v < g.n() ==> (#[trigger] scores@[v]).den >= 1,
{
    let n = g.node_count();
    let mut scores: Vec<Centrality> = Vec::new();
    let mut v: usize = 0;
    while v < n
        invariant
            g.wf(),
            n == g.n(),
            v <= n,
            scores@.len() == v,
            forall|w: int| 0 <= w < v ==> (#[trigger] scores@[w]) == spec_closeness(*g, w),
            forall|w: int| 0 <= w < v ==> (#[trigger] scores@[w]).den >= 1,
        decreases n - v,
    {
        let dist = bfs_distances(g, v);
        let mut dsum: u64 = 0;
        let mut u: usize = 0;
        while u < n
            invariant
                g.wf(),
                n == g.n(),
                v < n,
                u <= n,
                dist@.len() == n,
                forall|w: int|
                    0 <= w < n && (#[trigger] dist@[w]) is Some
                        ==> is_shortest_dist(*g, v as int, w, dist@[w]->0 as int)
                            && (dist@[w]->0 as int) < n,
                forall|w: int|
                    0 <= w < n && (#[trigger] dist@[w]) is None
                        ==> !connected(*g, v as int, w),
                dsum == sum_dist_prefix(*g, v as int, u as int),
                dsum <= (u as int) * (n as int),
            decreases n - u,
        {
            proof {
                assert((u as int + 1) * (n as int) == u as int * (n as int) + n as int)
                    by (nonlinear_arith);
                assert((u as int + 1) * (n as int) <= (n as int) * (n as int))
                    by (nonlinear_arith)
                    requires u as int + 1 <= n as int, 0 <= n as int,
                ;
                assert((n as int) * (n as int) < 0x1_0000_0000 * 0x1_0000_0000)
                    by (nonlinear_arith)
                    requires 0 <= (n as int) < 0x1_0000_0000,
                ;
            }
            match dist[u] {
                Some(dd) => {
                    proof {
                        lemma_spec_dist_is(*g, v as int, u as int, dd as int);
                    }
                    dsum = dsum + dd as u64;
                }
                None => {}
            }
            u = u + 1;
        }
        proof {
            assert((n as int) * (n as int) < 0x1_0000_0000 * 0x1_0000_0000)
                by (nonlinear_arith)
                requires n < 0x1_0000_0000;
        }
        let score = if dsum > 0 {
            Centrality { num: (n - 1) as u64, den: dsum }
        } else {
            Centrality { num: 0, den: 1 }
        };
        scores.push(score);
        v = v + 1;
    }
    scores
}

} // verus!
