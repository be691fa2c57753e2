use rank_propagation::error::EngineError;
use rank_propagation::node::{NodeState, COMMIT_THRESHOLD};

fn node_with_edges(rank: i64, edges: &[(usize, i64)]) -> NodeState {
    let mut node = NodeState::new(rank);
    for (destination, weight) in edges {
        node.apply_edge_change(*destination, *weight).unwrap();
    }
    node
}

#[test]
fn the_threshold_is_six() {
    assert_eq!(COMMIT_THRESHOLD, 6);
}

#[test]
fn a_new_node_has_its_rank_and_nothing_else() {
    let node = NodeState::new(1000);
    assert_eq!(node.rank(), 1000);
    assert_eq!(node.pending_diff(), 0);
    assert!(node.adjacency().is_empty());
}

#[test]
fn the_first_edge_gets_all_that_is_passed_on() {
    let mut node = NodeState::new(1000);
    let told = node.apply_edge_change(4, 1).unwrap();
    assert_eq!(told, vec![(4, 833)]);
    assert_eq!(node.adjacency(), &vec![(4, 1)]);
    assert_eq!(node.rank(), 1000);
}

#[test]
fn a_second_edge_takes_from_the_first() {
    let mut node = node_with_edges(1000, &[(4, 1)]);
    let told = node.apply_edge_change(2, 1).unwrap();
    assert_eq!(told, vec![(2, 417), (4, -417)]);
    assert_eq!(node.adjacency(), &vec![(2, 1), (4, 1)]);
}

#[test]
fn edges_are_kept_by_ascending_destination() {
    let node = node_with_edges(0, &[(9, 1), (3, 1), (5, 2), (3, 1)]);
    assert_eq!(node.adjacency(), &vec![(3, 2), (5, 2), (9, 1)]);
}

#[test]
fn an_edge_change_tells_the_difference_of_the_allocations() {
    let mut node = node_with_edges(6, &[(1, 1), (2, 1)]);
    let told = node.apply_edge_change(3, 1).unwrap();
    assert_eq!(told, vec![(1, -1), (3, 1)]);
    assert_eq!(node.adjacency(), &vec![(1, 1), (2, 1), (3, 1)]);
}

#[test]
fn a_greater_weight_multiplies_what_the_edge_is_sent() {
    let mut node = node_with_edges(12, &[(1, 1), (2, 1)]);
    let told = node.apply_edge_change(2, 2).unwrap();
    assert_eq!(told, vec![(2, 10)]);
    assert_eq!(node.adjacency(), &vec![(1, 1), (2, 3)]);
}

#[test]
fn an_edge_whose_weight_becomes_zero_is_gone() {
    let mut node = node_with_edges(6, &[(1, 1), (2, 1)]);
    let told = node.apply_edge_change(1, -1).unwrap();
    assert_eq!(told, vec![(1, -3), (2, 3)]);
    assert_eq!(node.adjacency(), &vec![(2, 1)]);
}

#[test]
fn the_last_edge_takes_back_all_it_was_sent() {
    let mut node = node_with_edges(6, &[(2, 1)]);
    let told = node.apply_edge_change(2, -1).unwrap();
    assert_eq!(told, vec![(2, -5)]);
    assert!(node.adjacency().is_empty());
}

#[test]
fn an_edge_change_of_zero_changes_nothing() {
    let mut node = node_with_edges(6, &[(1, 1), (2, 1)]);
    let told = node.apply_edge_change(2, 0).unwrap();
    assert!(told.is_empty());
    assert_eq!(node.adjacency(), &vec![(1, 1), (2, 1)]);
    let told = node.apply_edge_change(7, 0).unwrap();
    assert!(told.is_empty());
    assert_eq!(node.adjacency(), &vec![(1, 1), (2, 1)]);
}

#[test]
fn a_weight_below_zero_is_refused() {
    let mut node = node_with_edges(6, &[(1, 1), (2, 1)]);
    assert_eq!(node.apply_edge_change(2, -2), Err(EngineError::NonPositiveWeight));
    assert_eq!(node.adjacency(), &vec![(1, 1), (2, 1)]);
    assert_eq!(node.apply_edge_change(5, -1), Err(EngineError::NonPositiveWeight));
    assert_eq!(node.adjacency(), &vec![(1, 1), (2, 1)]);
    assert_eq!(node.rank(), 6);
}

#[test]
fn a_weight_beyond_the_greatest_value_is_refused() {
    let mut node = node_with_edges(0, &[(1, i64::MAX)]);
    assert_eq!(node.apply_edge_change(1, 1), Err(EngineError::Overflow));
    assert_eq!(node.adjacency(), &vec![(1, i64::MAX)]);
}

#[test]
fn an_edge_that_would_be_sent_too_much_is_refused() {
    let mut node = NodeState::new(6);
    assert_eq!(node.apply_edge_change(1, i64::MAX), Err(EngineError::Overflow));
    assert!(node.adjacency().is_empty());
}

#[test]
fn small_rank_changes_are_held_back() {
    let mut node = node_with_edges(1000, &[(1, 1), (2, 1)]);
    assert!(node.apply_rank_delta(2).unwrap().is_empty());
    assert_eq!(node.pending_diff(), 2);
    assert!(node.apply_rank_delta(3).unwrap().is_empty());
    assert_eq!(node.pending_diff(), 5);
    assert!(node.apply_rank_delta(-9).unwrap().is_empty());
    assert_eq!(node.pending_diff(), -4);
    assert_eq!(node.rank(), 1000);
}

#[test]
fn rank_is_committed_when_the_threshold_is_reached() {
    let mut node = node_with_edges(0, &[(1, 1), (2, 1)]);
    assert!(node.apply_rank_delta(5).unwrap().is_empty());
    let told = node.apply_rank_delta(1).unwrap();
    assert_eq!(told, vec![(1, 3), (2, 2)]);
    assert_eq!(node.rank(), 6);
    assert_eq!(node.pending_diff(), 0);
}

#[test]
fn a_rank_change_of_six_is_committed_at_once() {
    let mut node = node_with_edges(0, &[(1, 1), (2, 1)]);
    let told = node.apply_rank_delta(6).unwrap();
    assert_eq!(told, vec![(1, 3), (2, 2)]);
    assert_eq!(node.rank(), 6);
    assert_eq!(node.pending_diff(), 0);
}

#[test]
fn a_rank_change_of_five_is_not_committed() {
    let mut node = node_with_edges(0, &[(1, 1), (2, 1)]);
    assert!(node.apply_rank_delta(5).unwrap().is_empty());
    assert_eq!(node.rank(), 0);
    assert_eq!(node.pending_diff(), 5);
    assert!(node.apply_rank_delta(-10).unwrap().is_empty());
    assert_eq!(node.rank(), 0);
    assert_eq!(node.pending_diff(), -5);
}

#[test]
fn rank_is_taken_away_when_the_threshold_is_reached_below() {
    let mut node = node_with_edges(1000, &[(1, 1), (2, 1)]);
    assert!(node.apply_rank_delta(-4).unwrap().is_empty());
    let told = node.apply_rank_delta(-8).unwrap();
    assert_eq!(node.rank(), 988);
    assert_eq!(node.pending_diff(), 0);
    assert_eq!(told, vec![(1, -5), (2, -5)]);
}

#[test]
fn what_was_held_back_is_committed_with_the_rest() {
    let mut node = node_with_edges(100, &[(3, 1)]);
    assert!(node.apply_rank_delta(4).unwrap().is_empty());
    let told = node.apply_rank_delta(20).unwrap();
    assert_eq!(node.rank(), 124);
    assert_eq!(node.pending_diff(), 0);
    assert_eq!(told, vec![(3, 20)]);
}

#[test]
fn a_commit_that_changes_no_share_tells_nothing() {
    let mut node = node_with_edges(0, &[(1, 1)]);
    let told = node.apply_rank_delta(6).unwrap();
    assert_eq!(told, vec![(1, 5)]);
    let mut leaf = NodeState::new(0);
    assert!(leaf.apply_rank_delta(600).unwrap().is_empty());
    assert_eq!(leaf.rank(), 600);
}

#[test]
fn a_negative_rank_is_refused() {
    let mut node = node_with_edges(5, &[(1, 1)]);
    assert_eq!(node.apply_rank_delta(-6), Err(EngineError::NegativeRank));
    assert_eq!(node.rank(), 5);
    assert_eq!(node.pending_diff(), 0);
    assert!(node.apply_rank_delta(-5).unwrap().is_empty());
    assert_eq!(node.pending_diff(), -5);
    assert_eq!(node.apply_rank_delta(-1), Err(EngineError::NegativeRank));
    assert_eq!(node.pending_diff(), -5);
}

#[test]
fn a_rank_beyond_the_greatest_value_is_refused() {
    let mut node = NodeState::new(i64::MAX - 3);
    assert_eq!(node.apply_rank_delta(6), Err(EngineError::Overflow));
    assert_eq!(node.rank(), i64::MAX - 3);
    assert_eq!(node.apply_rank_delta(i64::MAX), Err(EngineError::Overflow));
    assert_eq!(node.apply_rank_delta(i64::MIN), Err(EngineError::NegativeRank));
}

#[test]
fn a_rank_that_would_send_too_much_is_refused() {
    let mut node = node_with_edges(2, &[(1, i64::MAX)]);
    assert_eq!(node.apply_rank_delta(6), Err(EngineError::Overflow));
    assert_eq!(node.rank(), 2);
    assert_eq!(node.pending_diff(), 0);
}
