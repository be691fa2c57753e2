use rank_propagation::driver::Driver;
use rank_propagation::error::EngineError;
use rank_propagation::key::Edge;
use rank_propagation::phase::{release, step, Batch, Phase};
use rank_propagation::store::NodeStore;
use timely::progress::frontier::Antichain;

fn at(time: usize) -> Antichain<usize> {
    Antichain::from_elem(time)
}

fn edge(source: usize, destination: usize) -> Edge {
    Edge { source, destination }
}

fn contents(batches: &[Batch]) -> Vec<(usize, Vec<(usize, i64)>)> {
    batches.iter().map(|b| (b.time, b.deltas.clone())).collect()
}

#[test]
fn two_edges_and_a_rank_change_of_six() {
    let mut driver = Driver::new(0);
    driver.stash_edge(0, 0, 1, 1).unwrap();
    driver.stash_edge(0, 0, 2, 1).unwrap();
    driver.stash_rank(0, 0, 6).unwrap();
    driver.advance(at(1), at(1));
    let batches = driver.pulse().unwrap();
    assert_eq!(contents(&batches), vec![(0, vec![(1, 3), (2, 2)])]);
    let node = driver.store().node(0).unwrap();
    assert_eq!(node.rank(), 6);
    assert_eq!(node.pending_diff(), 0);
    assert_eq!(node.adjacency(), &vec![(1, 1), (2, 1)]);
}

#[test]
fn nothing_is_released_before_the_frontiers_move() {
    let mut driver = Driver::new(1000);
    driver.stash_edge(0, 0, 1, 1).unwrap();
    driver.stash_rank(0, 0, 6).unwrap();
    assert!(!driver.is_closed(0));
    assert!(driver.pulse().unwrap().is_empty());
    assert_eq!(driver.store().len(), 0);
}

#[test]
fn a_timestamp_waits_for_both_frontiers() {
    let mut driver = Driver::new(1000);
    driver.stash_edge(0, 0, 1, 1).unwrap();
    driver.advance(at(1), at(0));
    assert!(driver.pulse().unwrap().is_empty());
    driver.advance(at(0), at(1));
    assert!(driver.pulse().unwrap().is_empty());
    driver.advance(at(1), at(1));
    assert!(driver.is_closed(0));
    assert_eq!(contents(&driver.pulse().unwrap()), vec![(0, vec![(1, 833)])]);
    assert!(driver.pulse().unwrap().is_empty());
}

#[test]
fn timestamps_are_released_in_ascending_order() {
    let mut driver = Driver::new(0);
    driver.stash_rank(2, 0, 12).unwrap();
    driver.stash_edge(1, 0, 5, 1).unwrap();
    driver.stash_rank(0, 0, 6).unwrap();
    driver.stash_edge(3, 0, 5, 1).unwrap();
    driver.advance(at(3), at(3));
    let batches = driver.pulse().unwrap();
    assert_eq!(contents(&batches), vec![(0, vec![]), (1, vec![(5, 5)]), (2, vec![(5, 10)])]);
    assert_eq!(driver.store().node(0).unwrap().rank(), 18);
    driver.advance(at(4), at(4));
    let batches = driver.pulse().unwrap();
    assert_eq!(contents(&batches), vec![(3, vec![(5, 15)])]);
}

#[test]
fn edge_changes_are_applied_before_rank_changes() {
    let mut driver = Driver::new(0);
    driver.stash_rank(0, 0, 6).unwrap();
    driver.stash_edge(0, 0, 1, 1).unwrap();
    driver.advance(at(1), at(1));
    let batches = driver.pulse().unwrap();
    assert_eq!(contents(&batches), vec![(0, vec![(1, 5)])]);
}

#[test]
fn the_order_of_arrival_does_not_matter() {
    let edges = [(0usize, 1usize, 1i64), (0, 2, 1), (3, 0, 2), (0, 1, 1), (3, 0, -1), (0, 2, -1)];
    let ranks = [(0usize, 4i64), (3, 7), (0, 3), (1, 2), (3, -1)];
    let mut forward = Driver::new(100);
    for (source, destination, weight) in edges.iter() {
        forward.stash_edge(0, *source, *destination, *weight).unwrap();
    }
    for (node, delta) in ranks.iter() {
        forward.stash_rank(0, *node, *delta).unwrap();
    }
    let mut backward = Driver::new(100);
    for (node, delta) in ranks.iter().rev() {
        backward.stash_rank(0, *node, *delta).unwrap();
    }
    for (source, destination, weight) in edges.iter().rev() {
        backward.stash_edge(0, *source, *destination, *weight).unwrap();
    }
    forward.advance(at(1), at(1));
    backward.advance(at(1), at(1));
    let one = forward.pulse().unwrap();
    let other = backward.pulse().unwrap();
    assert_eq!(contents(&one), contents(&other));
    assert_eq!(contents(&one), vec![(0, vec![(0, 88), (1, 178)])]);
    for id in 0..4 {
        let a = forward.store().node(id).unwrap();
        let b = backward.store().node(id).unwrap();
        assert_eq!(a.rank(), b.rank());
        assert_eq!(a.pending_diff(), b.pending_diff());
        assert_eq!(a.adjacency(), b.adjacency());
    }
    assert_eq!(forward.store().node(0).unwrap().rank(), 107);
    assert_eq!(forward.store().node(0).unwrap().adjacency(), &vec![(1, 2)]);
    assert_eq!(forward.store().node(1).unwrap().pending_diff(), 2);
    assert_eq!(forward.store().node(3).unwrap().rank(), 106);
}

#[test]
fn changes_that_cancel_leave_no_trace() {
    let mut driver = Driver::new(1000);
    driver.stash_edge(0, 4, 1, 1).unwrap();
    driver.stash_edge(0, 4, 1, -1).unwrap();
    driver.stash_rank(0, 4, 50).unwrap();
    driver.stash_rank(0, 4, -50).unwrap();
    driver.advance(at(1), at(1));
    assert_eq!(contents(&driver.pulse().unwrap()), vec![(0, vec![])]);
    assert_eq!(driver.store().len(), 0);
}

#[test]
fn a_round_without_net_change_hands_out_an_empty_batch() {
    let mut driver = Driver::new(1000);
    driver.stash_edge(0, 0, 1, 1).unwrap();
    driver.advance(at(1), at(1));
    driver.pulse().unwrap();
    driver.stash_rank(1, 0, 3).unwrap();
    driver.advance(at(2), at(2));
    assert_eq!(contents(&driver.pulse().unwrap()), vec![(1, vec![])]);
}

#[test]
fn deltas_of_several_nodes_are_merged_by_destination() {
    let mut driver = Driver::new(600);
    driver.stash_edge(0, 0, 9, 1).unwrap();
    driver.stash_edge(0, 1, 9, 1).unwrap();
    driver.stash_edge(0, 2, 3, 1).unwrap();
    driver.advance(at(1), at(1));
    assert_eq!(contents(&driver.pulse().unwrap()), vec![(0, vec![(3, 500), (9, 1000)])]);
}

#[test]
fn a_record_for_a_released_timestamp_is_refused() {
    let mut driver = Driver::new(1000);
    driver.stash_edge(2, 0, 1, 1).unwrap();
    driver.advance(at(3), at(3));
    driver.pulse().unwrap();
    assert_eq!(driver.stash_edge(2, 0, 1, 1), Err(EngineError::TimestampReuse));
    assert_eq!(driver.stash_rank(2, 0, 1), Err(EngineError::TimestampReuse));
    assert_eq!(driver.stash_rank(1, 0, 1), Err(EngineError::TimestampReuse));
    assert_eq!(driver.stash_rank(3, 0, 1), Ok(()));
    assert_eq!(driver.stash_edge(3, 0, 1, 1), Ok(()));
}

#[test]
fn a_pulse_stops_at_the_first_refusal() {
    let mut driver = Driver::new(0);
    driver.stash_rank(0, 0, 6).unwrap();
    driver.stash_rank(1, 0, -7).unwrap();
    driver.stash_rank(2, 0, 6).unwrap();
    driver.advance(at(3), at(3));
    assert!(matches!(driver.pulse(), Err(EngineError::NegativeRank)));
    assert_eq!(driver.store().node(0).unwrap().rank(), 6);
}

#[test]
fn a_pulse_refuses_records_whose_net_does_not_fit() {
    let mut driver = Driver::new(0);
    driver.stash_rank(0, 0, i64::MAX).unwrap();
    driver.stash_rank(0, 0, 1).unwrap();
    driver.advance(at(1), at(1));
    assert!(matches!(driver.pulse(), Err(EngineError::Overflow)));
    assert_eq!(driver.store().len(), 0);
}

#[test]
fn a_pulse_refuses_a_negative_weight() {
    let mut driver = Driver::new(0);
    driver.stash_edge(0, 0, 1, -1).unwrap();
    driver.advance(at(1), at(1));
    assert!(matches!(driver.pulse(), Err(EngineError::NonPositiveWeight)));
}

#[test]
fn a_release_goes_through_its_phases() {
    let mut store = NodeStore::new(0);
    let phase = Phase::Draining {
        time: 7,
        edges: vec![(edge(0, 2), 1), (edge(0, 1), 1), (edge(0, 2), 1), (edge(0, 2), -1)],
        ranks: vec![(0, 2), (0, 4)],
    };
    let (phase, batch) = step(phase, &mut store).unwrap();
    assert!(batch.is_none());
    match &phase {
        Phase::Applying { time, edges, ranks } => {
            assert_eq!(*time, 7);
            assert_eq!(edges, &vec![(edge(0, 1), 1), (edge(0, 2), 1)]);
            assert_eq!(ranks, &vec![(0, 6)]);
        },
        _ => panic!("the changes should await application"),
    }
    assert_eq!(store.len(), 0);
    let (phase, batch) = step(phase, &mut store).unwrap();
    assert!(batch.is_none());
    match &phase {
        Phase::Emitting { time, outgoing } => {
            assert_eq!(*time, 7);
            assert_eq!(outgoing, &vec![(1, 3), (2, 2)]);
        },
        _ => panic!("the deltas should await compaction"),
    }
    assert_eq!(store.node(0).unwrap().rank(), 6);
    let (phase, batch) = step(phase, &mut store).unwrap();
    assert!(matches!(phase, Phase::Idle));
    let batch = batch.unwrap();
    assert_eq!(batch.time, 7);
    assert_eq!(batch.deltas, vec![(1, 3), (2, 2)]);
}

#[test]
fn an_idle_release_stays_idle() {
    let mut store = NodeStore::new(0);
    let (phase, batch) = step(Phase::Idle, &mut store).unwrap();
    assert!(matches!(phase, Phase::Idle));
    assert!(batch.is_none());
    assert_eq!(store.len(), 0);
}

#[test]
fn emitting_merges_what_was_told_about_one_destination() {
    let mut store = NodeStore::new(0);
    let phase = Phase::Emitting { time: 3, outgoing: vec![(5, 2), (1, -4), (5, -2), (1, 1)] };
    let (_, batch) = step(phase, &mut store).unwrap();
    let batch = batch.unwrap();
    assert_eq!(batch.time, 3);
    assert_eq!(batch.deltas, vec![(1, -3)]);
}

#[test]
fn a_phase_fails_where_a_net_does_not_fit() {
    let mut store = NodeStore::new(0);
    let phase = Phase::Emitting { time: 3, outgoing: vec![(5, i64::MAX), (5, 1)] };
    assert!(matches!(step(phase, &mut store), Err(EngineError::Overflow)));
    let phase =
        Phase::Draining { time: 3, edges: vec![(edge(0, 1), i64::MIN), (edge(0, 1), -1)], ranks: vec![] };
    assert!(matches!(step(phase, &mut store), Err(EngineError::Overflow)));
    let phase = Phase::Applying { time: 3, edges: vec![], ranks: vec![(2, -6)] };
    assert!(matches!(step(phase, &mut store), Err(EngineError::NegativeRank)));
}

#[test]
fn release_is_the_three_phases_in_a_row() {
    let mut store = NodeStore::new(0);
    let batch = release(&mut store, 4, vec![(edge(0, 2), 1), (edge(0, 1), 1)], vec![(0, 6)]).unwrap();
    assert_eq!(batch.time, 4);
    assert_eq!(batch.deltas, vec![(1, 3), (2, 2)]);
    let batch = release(&mut store, 5, vec![(edge(0, 3), 1)], vec![]).unwrap();
    assert_eq!(batch.deltas, vec![(1, -1), (3, 1)]);
    let batch = release(&mut store, 6, vec![], vec![(0, 1), (0, 1)]).unwrap();
    assert!(batch.deltas.is_empty());
    assert_eq!(store.node(0).unwrap().pending_diff(), 2);
}

#[test]
fn inputs_that_have_ended_close_every_timestamp() {
    let mut driver = Driver::new(0);
    driver.stash_edge(usize::MAX, 0, 1, 1).unwrap();
    driver.stash_rank(usize::MAX, 0, 6).unwrap();
    driver.stash_rank(5, 0, 6).unwrap();
    driver.advance(Antichain::new(), at(9));
    assert_eq!(contents(&driver.pulse().unwrap()), vec![(5, vec![])]);
    driver.advance(Antichain::new(), Antichain::new());
    assert!(driver.is_closed(usize::MAX));
    assert_eq!(contents(&driver.pulse().unwrap()), vec![(usize::MAX, vec![(1, 10)])]);
    assert_eq!(driver.store().node(0).unwrap().rank(), 12);
}
