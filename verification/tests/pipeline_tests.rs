use closeness_centrality::{
    compute_closeness_centrality, create_graph, find_connected_components, rank_scores, Player,
};

fn player(name: &str, team: &str) -> Player {
    Player { player_name: name.to_string(), team: team.to_string() }
}

#[test]
fn test_full_run_over_two_teams() {
    let players = vec![
        player("a", "T1"),
        player("b", "T1"),
        player("c", "T1"),
        player("d", "T2"),
        player("e", "T2"),
    ];
    let graph = create_graph(&players);
    assert_eq!(find_connected_components(&graph), 2);
    let scores = compute_closeness_centrality(&graph);
    let rankings = rank_scores(&scores, 20);
    // fewer nodes than the capacity: both sets hold every node
    assert_eq!(rankings.top().len(), 5);
    assert_eq!(rankings.bottom().len(), 5);
    // the pair of T2 scores 4/1, the trio of T1 scores 4/2, so the
    // pair leads the top set and the trio leads the bottom set
    assert_eq!(rankings.top()[0].node, 3);
    assert_eq!(rankings.top()[1].node, 4);
    assert_eq!(rankings.top()[2].node, 0);
    assert_eq!(rankings.bottom()[0].node, 0);
}

#[test]
fn test_full_run_capped_at_capacity() {
    let mut players = Vec::new();
    for i in 0..30 {
        players.push(player(&format!("p{}", i), "ALL"));
    }
    let graph = create_graph(&players);
    assert_eq!(find_connected_components(&graph), 1);
    let scores = compute_closeness_centrality(&graph);
    let rankings = rank_scores(&scores, 20);
    // more nodes than the capacity: the sets are capped at 20
    assert_eq!(rankings.top().len(), 20);
    assert_eq!(rankings.bottom().len(), 20);
    // all scores are equal in one clique: ties fall to the handle
    for (t, entry) in rankings.top().iter().enumerate() {
        assert_eq!(entry.node, t);
        assert_eq!(entry.score.num, 29);
        assert_eq!(entry.score.den, 29);
    }
}
