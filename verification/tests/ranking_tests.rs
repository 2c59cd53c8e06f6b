use closeness_centrality::{rank_scores, Centrality, RankExtractor};

fn score(num: u64, den: u64) -> Centrality {
    Centrality { num, den }
}

#[test]
fn test_top_and_bottom_of_stream() {
    // scores 5, 1, 3, 9, 2 with capacity 2:
    // top = [9, 5], bottom = [1, 2]
    let mut ex = RankExtractor::new(2);
    ex.insert(score(5, 1), 0);
    ex.insert(score(1, 1), 1);
    ex.insert(score(3, 1), 2);
    ex.insert(score(9, 1), 3);
    ex.insert(score(2, 1), 4);
    let top = ex.top();
    assert_eq!(top.len(), 2);
    assert_eq!(top[0].score, score(9, 1));
    assert_eq!(top[0].node, 3);
    assert_eq!(top[1].score, score(5, 1));
    assert_eq!(top[1].node, 0);
    let bottom = ex.bottom();
    assert_eq!(bottom.len(), 2);
    assert_eq!(bottom[0].score, score(1, 1));
    assert_eq!(bottom[0].node, 1);
    assert_eq!(bottom[1].score, score(2, 1));
    assert_eq!(bottom[1].node, 4);
}

#[test]
fn test_sizes_are_capped_by_capacity() {
    let scores = vec![score(4, 1), score(2, 1), score(7, 2), score(1, 3), score(5, 4)];
    let ex = rank_scores(&scores, 3);
    assert_eq!(ex.top().len(), 3);
    assert_eq!(ex.bottom().len(), 3);
}

#[test]
fn test_sizes_below_capacity_match_stream() {
    let scores = vec![score(4, 1), score(2, 1)];
    let ex = rank_scores(&scores, 20);
    assert_eq!(ex.top().len(), 2);
    assert_eq!(ex.bottom().len(), 2);
}

#[test]
fn test_equal_values_with_different_shapes() {
    // 2/1 and 4/2 are the same value: the tie falls to the node handle
    let scores = vec![score(4, 2), score(1, 1), score(2, 1)];
    let ex = rank_scores(&scores, 2);
    let top = ex.top();
    assert_eq!(top[0].node, 0);
    assert_eq!(top[1].node, 2);
    let bottom = ex.bottom();
    assert_eq!(bottom[0].score, score(1, 1));
    assert_eq!(bottom[1].node, 0);
}

#[test]
fn test_tie_break_prefers_smaller_handle() {
    let mut ex = RankExtractor::new(2);
    ex.insert(score(3, 1), 0);
    ex.insert(score(3, 1), 1);
    ex.insert(score(3, 1), 2);
    let top = ex.top();
    assert_eq!(top[0].node, 0);
    assert_eq!(top[1].node, 1);
    let bottom = ex.bottom();
    assert_eq!(bottom[0].node, 0);
    assert_eq!(bottom[1].node, 1);
}

#[test]
fn test_zero_capacity_keeps_nothing() {
    let scores = vec![score(4, 1), score(2, 1)];
    let ex = rank_scores(&scores, 0);
    assert_eq!(ex.top().len(), 0);
    assert_eq!(ex.bottom().len(), 0);
}

#[test]
fn test_top_sorted_descending_bottom_ascending() {
    let scores = vec![score(2, 3), score(2, 2), score(2, 3), score(0, 1)];
    let ex = rank_scores(&scores, 4);
    let top = ex.top();
    // descending by value, handle ascending on the 2/3 tie
    assert_eq!(top[0].node, 1);
    assert_eq!(top[1].node, 0);
    assert_eq!(top[2].node, 2);
    assert_eq!(top[3].node, 3);
    let bottom = ex.bottom();
    assert_eq!(bottom[0].node, 3);
    assert_eq!(bottom[1].node, 0);
    assert_eq!(bottom[2].node, 2);
    assert_eq!(bottom[3].node, 1);
}
