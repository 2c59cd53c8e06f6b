//! The teammate graph: nodes with stable integer handles and a symmetric,
//! duplicate-free adjacency structure.

use vstd::prelude::*;
use crate::model::{Player, first_seen, has_name, in_group, share_group, views_of,
    lemma_first_seen_contains, lemma_first_seen_no_dup, lemma_first_seen_len,
    lemma_in_group_step};

verus! {

/// An undirected, unweighted graph. Node `i` is the player whose name is
/// `names[i]`; handles are assigned in order of first occurrence in the
/// input. `adj[i]` lists the neighbors of node `i`, without duplicates.
pub struct Graph {
    pub names: Vec<String>,
    pub adj: Vec<Vec<usize>>,
}

impl Graph {
    /// The number of nodes, as a mathematical integer.
    pub open spec fn n(self) -> int {
        self.names@.len() as int
    }

    /// The name of node `i`, as a sequence of characters.
    pub open spec fn name_at(self, i: int) -> Seq<char> {
        self.names@[i]@
    }

    /// Nodes `i` and `j` are adjacent.
    pub open spec fn edge(self, i: int, j: int) -> bool {
        &&& 0 <= i < self.n()
        &&& 0 <= j < self.n()
        &&& self.adj@[i]@.contains(j as usize)
    }

    /// Structural invariant: one adjacency row per node; rows hold only
    /// in-range handles, no self-loops, no duplicates; adjacency is
    /// symmetric; names are pairwise distinct; and the node count stays
    /// below 2^32 so that distance sums fit in 64 bits.
    pub open spec fn wf(self) -> bool {
        &&& self.adj@.len() == self.names@.len()
        &&& self.names@.len() < 0x1_0000_0000
        &&& forall|i: int, k: int|
            0 <= i < self.n() && 0 <= k < self.adj@[i]@.len()
                ==> (#[trigger] self.adj@[i]@[k]) < self.names@.len()
        &&& forall|i: int, k: int|
            0 <= i < self.n() && 0 <= k < self.adj@[i]@.len()
                ==> (#[trigger] self.adj@[i]@[k]) != i
        &&& forall|i: int, k1: int, k2: int|
            0 <= i < self.n() && 0 <= k1 < k2 < self.adj@[i]@.len()
                ==> (#[trigger] self.adj@[i]@[k1]) != (#[trigger] self.adj@[i]@[k2])
        &&& forall|i: int, j: int| #[trigger] self.edge(i, j) ==> self.edge(j, i)
        &&& forall|i1: int, i2: int|
            0 <= i1 < i2 < self.n() ==> self.name_at(i1) != self.name_at(i2)
    }

    /// The graph `g` is exactly what construction from the records `rs`
    /// must produce: its nodes are the distinct names of `rs` in first-seen
    /// order, and two distinct nodes are adjacent exactly when some team
    /// contains both their names.
    pub open spec fn builds(rs: Seq<Player>, g: Graph) -> bool {
        &&& g.wf()
        &&& views_of(g.names@) == first_seen(rs)
        &&& forall|i: int, j: int|
            0 <= i < g.n() && 0 <= j < g.n()
                ==> (#[trigger] g.edge(i, j)
                    <==> (i != j && share_group(rs, g.name_at(i), g.name_at(j))))
    }

    /// The number of nodes.
    pub fn node_count(&self) -> (r: usize)
        ensures
            r == self.n(),
    {
        self.names.len()
    }

    /// The name of node `i`.
    pub fn node_name(&self, i: usize) -> (r: &String)
        requires
            i < self.n(),
        ensures
            r@ == self.name_at(i as int),
    {
        &self.names[i]
    }

    /// The handles adjacent to node `i`.
    pub fn neighbors(&self, i: usize) -> (r: &Vec<usize>)
        requires
            self.wf(),
            i < self.n(),
        ensures
            r@ == self.adj@[i as int]@,
    {
        &self.adj[i]
    }

    /// Whether nodes `i` and `j` are adjacent.
    pub fn has_edge(&self, i: usize, j: usize) -> (r: bool)
        requires
            self.wf(),
            i < self.n(),
            j < self.n(),
        ensures
            r == self.edge(i as int, j as int),
    {
        contains_usize(&self.adj[i], j)
    }

    /// Sum of the lengths of the first `i` adjacency rows. Under `wf` the
    /// rows are duplicate-free and symmetric, so the full sum is twice the
    /// number of undirected edges.
    pub open spec fn degree_sum(self, i: int) -> int
        decreases i,
    {
        if i <= 0 {
            0
        } else {
            self.degree_sum(i - 1) + self.adj@[i - 1]@.len()
        }
    }

    /// The number of undirected edges: half the total degree.
    pub fn edge_count(&self) -> (r: u64)
        requires
            self.wf(),
        ensures
            r == self.degree_sum(self.n()) / 2,
    {
        let ghost gn = self.n();
        let n = self.names.len();
        let mut sum: u64 = 0;
        let mut i: usize = 0;
        while i < n
            invariant
                self.wf(),
                n == self.n(),
                0 <= i <= n,
                sum == self.degree_sum(i as int),
                sum <= (i as int) * 0x1_0000_0000,
            decreases n - i,
        {
            proof {
                lemma_row_len_bound(self.adj@[i as int]@, self.n());
            }
            assert((i + 1) as int * 0x1_0000_0000 == i as int * 0x1_0000_0000 + 0x1_0000_0000)
                by (nonlinear_arith);
            sum = sum + self.adj[i].len() as u64;
            i = i + 1;
        }
        sum / 2
    }
}

/// Some entry of `gs` has the characters `t`.
pub open spec fn teams_contain(gs: Seq<String>, t: Seq<char>) -> bool {
    exists|g: int| 0 <= g < gs.len() && gs[g]@ == t
}

/// Some member row holds both handles `i` and `j`.
pub open spec fn group_mates(members: Seq<Vec<usize>>, i: usize, j: usize) -> bool {
    exists|g: int|
        0 <= g < members.len() && (#[trigger] members[g])@.contains(i) && members[g]@.contains(j)
}

/// Handle `j` appears in the adjacency row of handle `i`.
pub open spec fn adj_edge(adj: Seq<Vec<usize>>, i: int, j: int) -> bool {
    0 <= i < adj.len() && 0 <= j < adj.len() && adj[i]@.contains(j as usize)
}

/// Every row holds only handles below `n`, without duplicates.
pub open spec fn rows_ok(members: Seq<Vec<usize>>, n: int) -> bool {
    &&& forall|g: int, k: int|
        0 <= g < members.len() && 0 <= k < members[g]@.len()
            ==> (#[trigger] members[g]@[k]) < n
    &&& forall|g: int, k1: int, k2: int|
        0 <= g < members.len() && 0 <= k1 < k2 < members[g]@.len()
            ==> (#[trigger] members[g]@[k1]) != (#[trigger] members[g]@[k2])
}

/// The node list `names` holds exactly the distinct names of `players`,
/// in first-seen order.
pub open spec fn names_ok(players: Seq<Player>, names: Seq<String>) -> bool {
    &&& views_of(names) == first_seen(players)
    &&& forall|i1: int, i2: int|
        0 <= i1 < i2 < names.len() ==> names[i1]@ != names[i2]@
}

/// The grouping `(group_names, members)` is exactly the partition of the
/// node handles of `names` by the teams named in the first `upto` records.
pub open spec fn grouping_ok(
    players: Seq<Player>,
    names: Seq<String>,
    group_names: Seq<String>,
    members: Seq<Vec<usize>>,
    upto: int,
) -> bool {
    &&& group_names.len() == members.len()
    &&& forall|g1: int, g2: int|
        0 <= g1 < g2 < group_names.len() ==> group_names[g1]@ != group_names[g2]@
    &&& rows_ok(members, names.len() as int)
    &&& forall|rp: int| 0 <= rp < upto ==> teams_contain(group_names, players[rp].team@)
    &&& forall|g: int, k: usize|
        0 <= g < members.len() && (k as int) < names.len()
            ==> (#[trigger] members[g]@.contains(k)
                <==> in_group(players.take(upto), names[k as int]@, group_names[g]@))
}

/// Appending to a sequence adds exactly one possible member.
proof fn lemma_push_contains(s: Seq<usize>, v: usize, w: usize)
    ensures
        s.push(v).contains(w) <==> (s.contains(w) || w == v),
{
    if s.push(v).contains(w) {
        let k = choose|k: int| 0 <= k < s.push(v).len() && s.push(v)[k] == w;
        if k < s.len() {
            assert(s[k] == w);
        }
    }
    if s.contains(w) {
        let k = choose|k: int| 0 <= k < s.len() && s[k] == w;
        assert(s.push(v)[k] == w);
    }
    if w == v {
        assert(s.push(v)[s.len() as int] == w);
    }
}

/// Index of the first entry of `names` whose characters equal `target`'s.
fn find_string(names: &Vec<String>, target: &String) -> (r: Option<usize>)
    ensures
        match r {
            Some(i) => (i as int) < names@.len() && names@[i as int]@ == target@,
            None => forall|k: int| 0 <= k < names@.len() ==> names@[k]@ != target@,
        },
{
    let mut i: usize = 0;
    while i < names.len()
        invariant
            i <= names@.len(),
            forall|k: int| 0 <= k < i ==> names@[k]@ != target@,
        decreases names@.len() - i,
    {
        if names[i] == *target {
            return Some(i);
        }
        i = i + 1;
    }
    None
}

/// Whether `v` holds the handle `x`.
fn contains_usize(v: &Vec<usize>, x: usize) -> (r: bool)
    ensures
        r == v@.contains(x),
{
    let mut i: usize = 0;
    while i < v.len()
        invariant
            i <= v@.len(),
            forall|k: int| 0 <= k < i ==> v@[k] != x,
        decreases v@.len() - i,
    {
        if v[i] == x {
            return true;
        }
        i = i + 1;
    }
    assert(!v@.contains(x));
    false
}

/// One node per distinct name, in first-seen order.
fn collect_names(players: &Vec<Player>) -> (names: Vec<String>)
    ensures
        names_ok(players@, names@),
{
    let mut names: Vec<String> = Vec::new();
    let mut r: usize = 0;
    while r < players.len()
        invariant
            r <= players@.len(),
            views_of(names@) == first_seen(players@.take(r as int)),
        decreases players@.len() - r,
    {
        let found = find_string(&names, &players[r].player_name);
        proof {
            assert(players@.take(r as int + 1).drop_last() =~= players@.take(r as int));
            assert(players@.take(r as int + 1).last() == players@[r as int]);
        }
        match found {
            Some(i) => {
                proof {
                    assert(views_of(names@)[i as int] == names@[i as int]@);
                    assert(first_seen(players@.take(r as int)).contains(
                        players@[r as int].player_name@));
                }
            }
            None => {
                proof {
                    if first_seen(players@.take(r as int)).contains(
                        players@[r as int].player_name@) {
                        let w = choose|w: int|
                            0 <= w < views_of(names@).len()
                                && views_of(names@)[w] == players@[r as int].player_name@;
                        assert(names@[w]@ == players@[r as int].player_name@);
                        assert(false);
                    }
                }
                let ghost old_names = names@;
                names.push(players[r].player_name.clone());
                proof {
                    assert(views_of(names@) =~= views_of(old_names).push(
                        players@[r as int].player_name@));
                }
            }
        }
        r = r + 1;
    }
    proof {
        assert(players@.take(players@.len() as int) =~= players@);
        lemma_first_seen_no_dup(players@);
        assert forall|i1: int, i2: int|
            0 <= i1 < i2 < names@.len() implies names@[i1]@ != names@[i2]@
        by {
            assert(views_of(names@)[i1] == names@[i1]@);
            assert(views_of(names@)[i2] == names@[i2]@);
        }
    }
    names
}

/// Partition the node handles by team: one entry per distinct team name,
/// each row listing (without repetition) the handles of the names that
/// some record puts in that team.
fn collect_groups(players: &Vec<Player>, names: &Vec<String>) -> (r: (Vec<String>, Vec<Vec<usize>>))
    requires
        names_ok(players@, names@),
    ensures
        grouping_ok(players@, names@, r.0@, r.1@, players@.len() as int),
{
    let mut group_names: Vec<String> = Vec::new();
    let mut members: Vec<Vec<usize>> = Vec::new();
    let mut r: usize = 0;
    while r < players.len()
        invariant
            r <= players@.len(),
            names_ok(players@, names@),
            grouping_ok(players@, names@, group_names@, members@, r as int),
        decreases players@.len() - r,
    {
        let ghost nm = players@[r as int].player_name@;
        let ghost tm = players@[r as int].team@;
        // the handle of this record's name
        let idx_opt = find_string(names, &players[r].player_name);
        proof {
            lemma_first_seen_contains(players@, nm);
            assert(has_name(players@, nm));
            if idx_opt is None {
                let w = choose|w: int|
                    0 <= w < first_seen(players@).len() && first_seen(players@)[w] == nm;
                assert(views_of(names@)[w] == names@[w]@);
                assert(false);
            }
        }
        let idx = idx_opt.unwrap();
        // the row of this record's team, made if absent
        let gsel = find_string(&group_names, &players[r].team);
        let g: usize;
        match gsel {
            Some(gi) => {
                g = gi;
            }
            None => {
                g = group_names.len();
                let ghost old_group_names = group_names@;
                let ghost old_members = members@;
                group_names.push(players[r].team.clone());
                members.push(Vec::new());
                proof {
                    assert forall|rp: int| 0 <= rp < r implies
                        teams_contain(group_names@, players@[rp].team@)
                    by {
                        let w = choose|w: int|
                            0 <= w < old_group_names.len()
                                && old_group_names[w]@ == players@[rp].team@;
                        assert(group_names@[w]@ == players@[rp].team@);
                    }
                    assert forall|g2: int, k: usize|
                        0 <= g2 < members@.len() && (k as int) < names@.len() implies
                        (#[trigger] members@[g2]@.contains(k)
                            <==> in_group(players@.take(r as int), names@[k as int]@,
                                group_names@[g2]@))
                    by {
                        if g2 < old_members.len() {
                            assert(members@[g2] == old_members[g2]);
                            assert(group_names@[g2] == old_group_names[g2]);
                        } else {
                            // the new, empty row: no record before r names this team
                            assert(members@[g2]@.len() == 0);
                            if in_group(players@.take(r as int), names@[k as int]@, tm) {
                                let w = choose|w: int|
                                    0 <= w < players@.take(r as int).len()
                                        && players@.take(r as int)[w].player_name@
                                            == names@[k as int]@
                                        && players@.take(r as int)[w].team@ == tm;
                                assert(teams_contain(old_group_names, players@[w].team@));
                                let wg = choose|wg: int|
                                    0 <= wg < old_group_names.len()
                                        && old_group_names[wg]@ == players@[w].team@;
                                assert(false);
                            }
                        }
                    }
                }
            }
        }
        assert(g < group_names@.len() && group_names@[g as int]@ == tm);
        assert(grouping_ok(players@, names@, group_names@, members@, r as int));
        // the handle joins the row if it is not yet there
        let ghost pre_members = members@;
        let row_has = contains_usize(&members[g], idx);
        if !row_has {
            let dest = &mut members[g];
            dest.push(idx);
        }
        proof {
            if !pre_members[g as int]@.contains(idx) {
                assert(members@[g as int]@ == pre_members[g as int]@.push(idx));
                lemma_push_contains(pre_members[g as int]@, idx, idx);
            }
            assert(members@[g as int]@.contains(idx));
            assert forall|g2: int, k: usize|
                0 <= g2 < members@.len() && (k as int) < names@.len() implies
                (#[trigger] members@[g2]@.contains(k)
                    <==> in_group(players@.take(r as int + 1), names@[k as int]@,
                        group_names@[g2]@))
            by {
                lemma_in_group_step(players@, r as int, names@[k as int]@, group_names@[g2]@);
                if g2 == g {
                    lemma_push_contains(pre_members[g2]@, idx, k);
                    if k == idx {
                        assert(in_group(players@.take(r as int + 1), names@[k as int]@,
                            group_names@[g2]@));
                    } else {
                        assert(names@[k as int]@ != nm);
                        assert(members@[g2]@.contains(k) == pre_members[g2]@.contains(k));
                    }
                } else {
                    assert(members@[g2] == pre_members[g2]);
                    assert(group_names@[g2]@ != tm);
                }
            }
            assert forall|g2: int, k1: int, k2: int|
                0 <= g2 < members@.len() && 0 <= k1 < k2 < members@[g2]@.len() implies
                (#[trigger] members@[g2]@[k1]) != (#[trigger] members@[g2]@[k2])
            by {
                if g2 == g && !pre_members[g2]@.contains(idx)
                    && k2 == members@[g2]@.len() - 1 {
                    assert(members@[g2]@[k1] == pre_members[g2]@[k1]);
                }
            }
            assert(grouping_ok(players@, names@, group_names@, members@, r as int + 1));
        }
        r = r + 1;
    }
    proof {
        assert(players@.take(players@.len() as int) =~= players@);
    }
    (group_names, members)
}

/// Structural adjacency invariant over bare rows: one row per node, rows
/// in-range, self-loop-free, duplicate-free, and symmetric.
pub open spec fn adj_wf(adj: Seq<Vec<usize>>, n: int) -> bool {
    &&& adj.len() == n
    &&& forall|i: int, k: int|
        0 <= i < n && 0 <= k < adj[i]@.len() ==> (#[trigger] adj[i]@[k]) < n
    &&& forall|i: int, k: int|
        0 <= i < n && 0 <= k < adj[i]@.len() ==> (#[trigger] adj[i]@[k]) != i
    &&& forall|i: int, k1: int, k2: int|
        0 <= i < n && 0 <= k1 < k2 < adj[i]@.len()
            ==> (#[trigger] adj[i]@[k1]) != (#[trigger] adj[i]@[k2])
    &&& forall|i: int, j: int| #[trigger] adj_edge(adj, i, j) ==> adj_edge(adj, j, i)
}

/// Every adjacent pair of handles shares a member row.
pub open spec fn adj_sound(adj: Seq<Vec<usize>>, members: Seq<Vec<usize>>) -> bool {
    forall|i: int, j: int|
        #[trigger] adj_edge(adj, i, j) ==> i != j && group_mates(members, i as usize, j as usize)
}

/// Connect every unordered pair of handles within each member row: one
/// clique per team.
fn build_cliques(n: usize, members: &Vec<Vec<usize>>) -> (adj: Vec<Vec<usize>>)
    requires
        rows_ok(members@, n as int),
    ensures
        adj_wf(adj@, n as int),
        forall|i: int, j: int|
            #[trigger] adj_edge(adj@, i, j)
                <==> (0 <= i < n && 0 <= j < n && i != j
                    && group_mates(members@, i as usize, j as usize)),
{
    let mut adj: Vec<Vec<usize>> = Vec::new();
    let mut i: usize = 0;
    while i < n
        invariant
            i <= n,
            adj@.len() == i,
            forall|t: int| 0 <= t < i ==> (#[trigger] adj@[t]@).len() == 0,
        decreases n - i,
    {
        adj.push(Vec::new());
        i = i + 1;
    }
    let mut g: usize = 0;
    while g < members.len()
        invariant
            g <= members@.len(),
            rows_ok(members@, n as int),
            adj_wf(adj@, n as int),
            adj_sound(adj@, members@),
            forall|g2: int, p: int, q: int|
                0 <= g2 < g && 0 <= p < members@[g2]@.len() && 0 <= q < members@[g2]@.len()
                    && p != q
                    ==> adj_edge(adj@, (#[trigger] members@[g2]@[p]) as int,
                        (#[trigger] members@[g2]@[q]) as int),
        decreases members@.len() - g,
    {
        let row_len = members[g].len();
        let mut a: usize = 0;
        while a < row_len
            invariant
                a <= row_len,
                g < members@.len(),
                row_len == members@[g as int]@.len(),
                rows_ok(members@, n as int),
                adj_wf(adj@, n as int),
                adj_sound(adj@, members@),
                forall|g2: int, p: int, q: int|
                    0 <= g2 < g && 0 <= p < members@[g2]@.len() && 0 <= q < members@[g2]@.len()
                        && p != q
                        ==> adj_edge(adj@, (#[trigger] members@[g2]@[p]) as int,
                            (#[trigger] members@[g2]@[q]) as int),
                forall|p: int, q: int|
                    0 <= p < q < row_len && p < a
                        ==> adj_edge(adj@, (#[trigger] members@[g as int]@[p]) as int,
                            (#[trigger] members@[g as int]@[q]) as int),
            decreases row_len - a,
        {
            let mut b: usize = a + 1;
            while b < row_len
                invariant
                    a < b <= row_len,
                    a < row_len,
                    g < members@.len(),
                    row_len == members@[g as int]@.len(),
                    rows_ok(members@, n as int),
                    adj_wf(adj@, n as int),
                    adj_sound(adj@, members@),
                    forall|g2: int, p: int, q: int|
                        0 <= g2 < g && 0 <= p < members@[g2]@.len()
                            && 0 <= q < members@[g2]@.len() && p != q
                            ==> adj_edge(adj@, (#[trigger] members@[g2]@[p]) as int,
                                (#[trigger] members@[g2]@[q]) as int),
                    forall|p: int, q: int|
                        0 <= p < q < row_len && p < a
                            ==> adj_edge(adj@, (#[trigger] members@[g as int]@[p]) as int,
                                (#[trigger] members@[g as int]@[q]) as int),
                    forall|q: int|
                        a < q < b
                            ==> adj_edge(adj@, members@[g as int]@[a as int] as int,
                                (#[trigger] members@[g as int]@[q]) as int),
                decreases row_len - b,
            {
                let x = members[g][a];
                let y = members[g][b];
                assert(x != y);
                assert(x < n && y < n);
                let ghost pre = adj@;
                let row_has = contains_usize(&adj[x], y);
                if !row_has {
                    let dx = &mut adj[x];
                    dx.push(y);
                    let dy = &mut adj[y];
                    dy.push(x);
                    proof {
                        assert(adj@[x as int]@ == pre[x as int]@.push(y));
                        assert(adj@[y as int]@ == pre[y as int]@.push(x));
                        assert(!pre[y as int]@.contains(x)) by {
                            if pre[y as int]@.contains(x) {
                                assert(adj_edge(pre, y as int, x as int));
                                assert(adj_edge(pre, x as int, y as int));
                            }
                        }
                        assert forall|i2: int, j2: int| #[trigger] adj_edge(adj@, i2, j2)
                            implies (adj_edge(pre, i2, j2)
                                || (i2 == x && j2 == y) || (i2 == y && j2 == x))
                        by {
                            if i2 == x {
                                lemma_push_contains(pre[x as int]@, y, j2 as usize);
                            } else if i2 == y {
                                lemma_push_contains(pre[y as int]@, x, j2 as usize);
                            }
                        }
                        assert forall|i2: int, j2: int| adj_edge(pre, i2, j2)
                            implies #[trigger] adj_edge(adj@, i2, j2)
                        by {
                            if i2 == x {
                                lemma_push_contains(pre[x as int]@, y, j2 as usize);
                            } else if i2 == y {
                                lemma_push_contains(pre[y as int]@, x, j2 as usize);
                            }
                        }
                        lemma_push_contains(pre[x as int]@, y, y);
                        lemma_push_contains(pre[y as int]@, x, x);
                        assert(adj_edge(adj@, x as int, y as int));
                        assert(adj_edge(adj@, y as int, x as int));
                        assert(group_mates(members@, x, y) && group_mates(members@, y, x)) by {
                            assert(members@[g as int]@.contains(x)) by {
                                assert(members@[g as int]@[a as int] == x);
                            }
                            assert(members@[g as int]@.contains(y)) by {
                                assert(members@[g as int]@[b as int] == y);
                            }
                        }
                        // rows stay duplicate-free and in range
                        assert forall|i2: int, k1: int, k2: int|
                            0 <= i2 < n && 0 <= k1 < k2 < adj@[i2]@.len() implies
                            (#[trigger] adj@[i2]@[k1]) != (#[trigger] adj@[i2]@[k2])
                        by {
                            if i2 == x && k2 == adj@[i2]@.len() - 1 {
                                assert(adj@[i2]@[k1] == pre[i2]@[k1]);
                                assert(!pre[x as int]@.contains(y));
                            } else if i2 == y && k2 == adj@[i2]@.len() - 1 {
                                assert(adj@[i2]@[k1] == pre[i2]@[k1]);
                                assert(!pre[y as int]@.contains(x));
                            }
                        }
                        assert(adj_wf(adj@, n as int));
                        assert(adj_sound(adj@, members@));
                    }
                } else {
                    proof {
                        assert(adj_edge(adj@, x as int, y as int));
                    }
                }
                proof {
                    assert(adj_edge(adj@, members@[g as int]@[a as int] as int,
                        members@[g as int]@[b as int] as int));
                }
                b = b + 1;
            }
            a = a + 1;
        }
        proof {
            assert forall|p: int, q: int|
                0 <= p < members@[g as int]@.len() && 0 <= q < members@[g as int]@.len()
                    && p != q implies
                adj_edge(adj@, (#[trigger] members@[g as int]@[p]) as int,
                    (#[trigger] members@[g as int]@[q]) as int)
            by {
                if q < p {
                    assert(adj_edge(adj@, members@[g as int]@[q] as int,
                        members@[g as int]@[p] as int));
                }
            }
        }
        g = g + 1;
    }
    proof {
        assert forall|i2: int, j2: int|
            0 <= i2 < n && 0 <= j2 < n && i2 != j2
                && group_mates(members@, i2 as usize, j2 as usize) implies
            #[trigger] adj_edge(adj@, i2, j2)
        by {
            let g2 = choose|g2: int|
                0 <= g2 < members@.len() && (#[trigger] members@[g2])@.contains(i2 as usize)
                    && members@[g2]@.contains(j2 as usize);
            let p = choose|p: int|
                0 <= p < members@[g2]@.len() && members@[g2]@[p] == i2 as usize;
            let q = choose|q: int|
                0 <= q < members@[g2]@.len() && members@[g2]@[q] == j2 as usize;
            assert(p != q);
            assert(adj_edge(adj@, members@[g2]@[p] as int, members@[g2]@[q] as int));
        }
    }
    adj
}

/// Build the teammate graph from roster records: one node per distinct
/// name in first-seen order, and one clique per team. Two distinct nodes
/// end up adjacent exactly when some team contains both their names.
pub fn create_graph(players: &Vec<Player>) -> (g: Graph)
    requires
        players@.len() < 0x1_0000_0000,
    ensures
        Graph::builds(players@, g),
{
    let names = collect_names(players);
    let (group_names, members) = collect_groups(players, &names);
    let n = names.len();
    let adj = build_cliques(n, &members);
    let g = Graph { names, adj };
    proof {
        lemma_first_seen_len(players@);
        assert(first_seen(players@).len() == views_of(g.names@).len());
        assert(players@.take(players@.len() as int) =~= players@);
        assert forall|i: int, j: int| 0 <= i < g.n() && 0 <= j < g.n() implies
            (#[trigger] g.edge(i, j)
                <==> (i != j && share_group(players@, g.name_at(i), g.name_at(j))))
        by {
            assert(g.edge(i, j) == adj_edge(g.adj@, i, j));
            if group_mates(members@, i as usize, j as usize) && i != j {
                let g2 = choose|g2: int|
                    0 <= g2 < members@.len()
                        && (#[trigger] members@[g2])@.contains(i as usize)
                        && members@[g2]@.contains(j as usize);
                assert(in_group(players@, g.names@[i]@, group_names@[g2]@));
                assert(in_group(players@, g.names@[j]@, group_names@[g2]@));
                let k = choose|k: int|
                    0 <= k < players@.len() && players@[k].player_name@ == g.names@[i]@
                        && players@[k].team@ == group_names@[g2]@;
                let l = choose|l: int|
                    0 <= l < players@.len() && players@[l].player_name@ == g.names@[j]@
                        && players@[l].team@ == group_names@[g2]@;
                assert(share_group(players@, g.name_at(i), g.name_at(j)));
            }
            if i != j && share_group(players@, g.name_at(i), g.name_at(j)) {
                let (k, l) = choose|k: int, l: int|
                    0 <= k < players@.len() && 0 <= l < players@.len()
                        && players@[k].player_name@ == g.name_at(i)
                        && players@[l].player_name@ == g.name_at(j)
                        && players@[k].team@ == players@[l].team@;
                assert(teams_contain(group_names@, players@[k].team@));
                let g2 = choose|g2: int|
                    0 <= g2 < group_names@.len() && group_names@[g2]@ == players@[k].team@;
                assert(in_group(players@, g.names@[i]@, group_names@[g2]@));
                assert(in_group(players@, g.names@[j]@, group_names@[g2]@));
                assert(members@[g2]@.contains(i as usize));
                assert(members@[g2]@.contains(j as usize));
                assert(group_mates(members@, i as usize, j as usize));
            }
        }
        assert(g.wf());
    }
    g
}

/// Graph construction is deterministic: two graphs built from the same
/// record sequence have the same node names, in the same order, and the
/// same edges.
pub proof fn lemma_builder_deterministic(rs: Seq<Player>, g1: Graph, g2: Graph)
    requires
        Graph::builds(rs, g1),
        Graph::builds(rs, g2),
    ensures
        views_of(g1.names@) == views_of(g2.names@),
        g1.n() == g2.n(),
        forall|i: int, j: int| #[trigger] g1.edge(i, j) <==> #[trigger] g2.edge(i, j),
{
    assert(views_of(g1.names@).len() == g1.names@.len());
    assert(views_of(g2.names@).len() == g2.names@.len());
    assert forall|i: int, j: int| #[trigger] g1.edge(i, j) <==> #[trigger] g2.edge(i, j) by {
        assert forall|t: int| 0 <= t < g1.n() implies g1.name_at(t) == g2.name_at(t) by {
            assert(views_of(g1.names@)[t] == g1.names@[t]@);
            assert(views_of(g2.names@)[t] == g2.names@[t]@);
        }
        if g1.edge(i, j) {
            assert(g2.edge(i, j));
        }
        if g2.edge(i, j) {
            assert(g1.edge(i, j));
        }
    }
}

/// In a complete graph, the adjacency row of a node holds every other
/// node exactly once.
proof fn lemma_complete_row_len(g: Graph, i: int)
    requires
        g.wf(),
        0 <= i < g.n(),
        forall|a: int, b: int|
            0 <= a < g.n() && 0 <= b < g.n() && a != b ==> #[trigger] g.edge(a, b),
    ensures
        g.adj@[i]@.len() == g.n() - 1,
{
    let row = g.adj@[i]@;
    let t = row.map_values(|u: usize| u as int);
    assert(t.no_duplicates()) by {
        assert forall|k1: int, k2: int|
            0 <= k1 < t.len() && 0 <= k2 < t.len() && k1 != k2 implies t[k1] != t[k2]
        by {
            if k1 < k2 {
                assert(row[k1] != row[k2]);
            } else {
                assert(row[k2] != row[k1]);
            }
        }
    }
    t.unique_seq_to_set();
    let full = vstd::set_lib::set_int_range(0, g.n());
    let r = full.remove(i);
    assert(t.to_set() =~= r) by {
        assert forall|x: int| t.to_set().contains(x) implies r.contains(x) by {
            let k = choose|k: int| 0 <= k < t.len() && t[k] == x;
            assert(row[k] < g.names@.len() && row[k] != i);
        }
        assert forall|x: int| r.contains(x) implies t.to_set().contains(x) by {
            assert(g.edge(i, x));
            assert(row.contains(x as usize));
            let k = choose|k: int| 0 <= k < row.len() && row[k] == x as usize;
            assert(t[k] == x);
        }
    }
    vstd::set_lib::lemma_int_range(0, g.n());
    vstd::set::axiom_set_remove_len(full, i);
}

/// The degree sum of the first `i` nodes of a complete graph.
proof fn lemma_complete_degree_sum(g: Graph, i: int)
    requires
        g.wf(),
        0 <= i <= g.n(),
        forall|a: int, b: int|
            0 <= a < g.n() && 0 <= b < g.n() && a != b ==> #[trigger] g.edge(a, b),
    ensures
        g.degree_sum(i) == i * (g.n() - 1),
    decreases i,
{
    if i > 0 {
        lemma_complete_degree_sum(g, i - 1);
        lemma_complete_row_len(g, i - 1);
        assert(g.degree_sum(i) == g.degree_sum(i - 1) + g.adj@[i - 1]@.len());
        assert(i * (g.n() - 1) == (i - 1) * (g.n() - 1) + (g.n() - 1)) by (nonlinear_arith);
    } else {
        assert(0int * (g.n() - 1) == 0) by (nonlinear_arith);
    }
}

/// In a single clique of `M` nodes, the degree sum is `M * (M - 1)`, so
/// the edge count, half of it, is `M * (M - 1) / 2`: every unordered
/// pair of distinct nodes is one edge.
pub proof fn lemma_clique_edge_count(g: Graph)
    requires
        g.wf(),
        forall|a: int, b: int|
            0 <= a < g.n() && 0 <= b < g.n() && a != b ==> #[trigger] g.edge(a, b),
    ensures
        g.degree_sum(g.n()) == g.n() * (g.n() - 1),
{
    lemma_complete_degree_sum(g, g.n());
}

/// A sequence of pairwise-distinct handles below `n` has at most `n` entries.
pub proof fn lemma_row_len_bound(s: Seq<usize>, n: int)
    requires
        0 <= n,
        forall|k: int| 0 <= k < s.len() ==> (#[trigger] s[k]) < n,
        forall|k1: int, k2: int| 0 <= k1 < k2 < s.len() ==> s[k1] != s[k2],
    ensures
        s.len() <= n,
{
    let t = s.map_values(|u: usize| u as int);
    assert(t.no_duplicates()) by {
        assert forall|k1: int, k2: int|
            0 <= k1 < t.len() && 0 <= k2 < t.len() && k1 != k2 implies t[k1] != t[k2]
        by {
            if k1 < k2 {
                assert(s[k1] != s[k2]);
            } else {
                assert(s[k2] != s[k1]);
            }
        }
    }
    t.unique_seq_to_set();
    let r = vstd::set_lib::set_int_range(0, n);
    assert(t.to_set().subset_of(r)) by {
        assert forall|x: int| t.to_set().contains(x) implies r.contains(x) by {
            let k = choose|k: int| 0 <= k < t.len() && t[k] == x;
            assert(s[k] < n);
        }
    }
    vstd::set_lib::lemma_int_range(0, n);
    vstd::set_lib::lemma_len_subset(t.to_set(), r);
}

} // verus!
