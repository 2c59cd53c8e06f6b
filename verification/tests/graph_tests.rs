use closeness_centrality::{create_graph, find_connected_components, Player};

fn player(name: &str, team: &str) -> Player {
    Player { player_name: name.to_string(), team: team.to_string() }
}

#[test]
fn test_create_graph() {
    let players = vec![
        player("Player1", "TeamA"),
        player("Player2", "TeamA"),
        player("Player3", "TeamB"),
    ];
    let graph = create_graph(&players);
    assert_eq!(graph.node_count(), 3);
    assert_eq!(graph.edge_count(), 1);
}

#[test]
fn test_empty_input() {
    let players = vec![];
    let graph = create_graph(&players);
    assert_eq!(graph.node_count(), 0);
    assert_eq!(graph.edge_count(), 0);
    assert_eq!(find_connected_components(&graph), 0);
}

#[test]
fn test_duplicate_records_make_one_node() {
    let players = vec![
        player("p1", "A"),
        player("p1", "A"),
        player("p1", "A"),
    ];
    let graph = create_graph(&players);
    assert_eq!(graph.node_count(), 1);
    assert_eq!(graph.edge_count(), 0);
    assert_eq!(find_connected_components(&graph), 1);
}

#[test]
fn test_nodes_in_first_seen_order() {
    let players = vec![
        player("z", "A"),
        player("m", "B"),
        player("z", "B"),
        player("a", "A"),
    ];
    let graph = create_graph(&players);
    assert_eq!(graph.node_count(), 3);
    assert_eq!(graph.node_name(0).as_str(), "z");
    assert_eq!(graph.node_name(1).as_str(), "m");
    assert_eq!(graph.node_name(2).as_str(), "a");
}

#[test]
fn test_group_cliques_and_components() {
    // groups of sizes 3, 2, 1: edge count 3 + 1 + 0, components 3
    let players = vec![
        player("a", "T1"),
        player("b", "T1"),
        player("c", "T1"),
        player("d", "T2"),
        player("e", "T2"),
        player("f", "T3"),
    ];
    let graph = create_graph(&players);
    assert_eq!(graph.node_count(), 6);
    assert_eq!(graph.edge_count(), 4);
    assert_eq!(find_connected_components(&graph), 3);
    assert!(graph.has_edge(0, 1));
    assert!(graph.has_edge(0, 2));
    assert!(graph.has_edge(1, 2));
    assert!(graph.has_edge(3, 4));
    assert!(!graph.has_edge(0, 3));
    assert!(!graph.has_edge(2, 5));
    assert!(!graph.has_edge(0, 0));
}

#[test]
fn test_shared_member_bridges_groups() {
    let players = vec![
        player("x", "A"),
        player("y", "A"),
        player("y", "B"),
        player("z", "B"),
    ];
    let graph = create_graph(&players);
    assert_eq!(graph.node_count(), 3);
    assert_eq!(graph.edge_count(), 2);
    assert!(graph.has_edge(0, 1));
    assert!(graph.has_edge(1, 2));
    assert!(!graph.has_edge(0, 2));
    assert_eq!(find_connected_components(&graph), 1);
}

#[test]
fn test_builder_idempotent() {
    let players = vec![
        player("a", "T1"),
        player("b", "T1"),
        player("c", "T2"),
        player("b", "T2"),
        player("a", "T1"),
    ];
    let g1 = create_graph(&players);
    let g2 = create_graph(&players);
    assert_eq!(g1.node_count(), g2.node_count());
    assert_eq!(g1.edge_count(), g2.edge_count());
    let n = g1.node_count();
    for i in 0..n {
        assert_eq!(g1.node_name(i), g2.node_name(i));
        for j in 0..n {
            assert_eq!(g1.has_edge(i, j), g2.has_edge(i, j));
        }
    }
}
