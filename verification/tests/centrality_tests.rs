use closeness_centrality::{
    compute_closeness_centrality, create_graph, find_connected_components, Centrality, Player,
};

fn player(name: &str, team: &str) -> Player {
    Player { player_name: name.to_string(), team: team.to_string() }
}

fn score(num: u64, den: u64) -> Centrality {
    Centrality { num, den }
}

#[test]
fn test_single_clique_scores_one() {
    // one team of three: 3 nodes, 3 edges, 1 component, every score 1.0
    let players = vec![
        player("p1", "A"),
        player("p2", "A"),
        player("p3", "A"),
    ];
    let graph = create_graph(&players);
    assert_eq!(graph.node_count(), 3);
    assert_eq!(graph.edge_count(), 3);
    assert_eq!(find_connected_components(&graph), 1);
    let scores = compute_closeness_centrality(&graph);
    assert_eq!(scores.len(), 3);
    for s in &scores {
        // D(v) = 2, N = 3: (3 - 1) / 2, the rational one
        assert_eq!(*s, score(2, 2));
        assert_eq!(s.num as f64 / s.den as f64, 1.0);
    }
}

#[test]
fn test_pair_and_isolated_node() {
    // one team of two and one singleton: 1 edge, 2 components;
    // the paired nodes score (3 - 1) / 1 = 2.0, the singleton 0.0
    let players = vec![
        player("p1", "A"),
        player("p2", "A"),
        player("p3", "B"),
    ];
    let graph = create_graph(&players);
    assert_eq!(graph.node_count(), 3);
    assert_eq!(graph.edge_count(), 1);
    assert_eq!(find_connected_components(&graph), 2);
    let scores = compute_closeness_centrality(&graph);
    assert_eq!(scores[0], score(2, 1));
    assert_eq!(scores[1], score(2, 1));
    assert_eq!(scores[2], score(0, 1));
    assert_eq!(scores[0].num as f64 / scores[0].den as f64, 2.0);
    assert_eq!(scores[2].num as f64 / scores[2].den as f64, 0.0);
}

#[test]
fn test_isolated_nodes_score_zero() {
    // all groups are singletons: every node isolated, every score 0
    let players = vec![
        player("a", "T1"),
        player("b", "T2"),
        player("c", "T3"),
        player("d", "T4"),
    ];
    let graph = create_graph(&players);
    assert_eq!(graph.edge_count(), 0);
    assert_eq!(find_connected_components(&graph), 4);
    let scores = compute_closeness_centrality(&graph);
    for s in &scores {
        assert_eq!(*s, score(0, 1));
    }
}

#[test]
fn test_bridge_node_distances() {
    // teams A:[x, y] and B:[y, z] form the path x - y - z;
    // D(x) = 1 + 2 = 3, D(y) = 2, D(z) = 3, N = 3
    let players = vec![
        player("x", "A"),
        player("y", "A"),
        player("y", "B"),
        player("z", "B"),
    ];
    let graph = create_graph(&players);
    let scores = compute_closeness_centrality(&graph);
    assert_eq!(scores[0], score(2, 3));
    assert_eq!(scores[1], score(2, 2));
    assert_eq!(scores[2], score(2, 3));
}

#[test]
fn test_deflated_scores_use_global_count() {
    // two separate pairs: each node has D = 1 but N = 4, so the
    // numerator is the global 4 - 1 = 3, not the component-local 1
    let players = vec![
        player("a", "T1"),
        player("b", "T1"),
        player("c", "T2"),
        player("d", "T2"),
    ];
    let graph = create_graph(&players);
    assert_eq!(find_connected_components(&graph), 2);
    let scores = compute_closeness_centrality(&graph);
    for s in &scores {
        assert_eq!(*s, score(3, 1));
    }
}
