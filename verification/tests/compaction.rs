use rank_propagation::compact::{compact, try_compact};
use rank_propagation::key::{key_ordering, Edge, Key};
use std::cmp::Ordering;

fn edge(source: usize, destination: usize) -> Edge {
    Edge { source, destination }
}

fn total(list: &[(usize, i64)]) -> i128 {
    list.iter().map(|e| e.1 as i128).sum()
}

#[test]
fn compact_merges_records_of_one_key() {
    let mut list = vec![(3usize, 1i64), (1, 2), (3, 4)];
    compact(&mut list);
    assert_eq!(list, vec![(1, 2), (3, 5)]);
}

#[test]
fn compact_sorts_by_key() {
    let mut list = vec![(9usize, 1i64), (4, 1), (7, 1), (0, 1)];
    compact(&mut list);
    assert_eq!(list, vec![(0, 1), (4, 1), (7, 1), (9, 1)]);
}

#[test]
fn compact_drops_keys_of_net_zero() {
    let mut list = vec![(1usize, 5i64), (2, 1), (1, -5)];
    compact(&mut list);
    assert_eq!(list, vec![(2, 1)]);
}

#[test]
fn compact_drops_zero_records() {
    let mut list = vec![(1usize, 0i64), (2, 0)];
    compact(&mut list);
    assert_eq!(list, Vec::<(usize, i64)>::new());
}

#[test]
fn compact_of_nothing_is_nothing() {
    let mut list: Vec<(usize, i64)> = Vec::new();
    compact(&mut list);
    assert!(list.is_empty());
}

#[test]
fn compact_keeps_negative_nets() {
    let mut list = vec![(5usize, 3i64), (5, -10), (2, -1)];
    compact(&mut list);
    assert_eq!(list, vec![(2, -1), (5, -7)]);
}

#[test]
fn compact_is_idempotent() {
    let mut list = vec![(4usize, 1i64), (2, 7), (4, -3), (8, 2), (2, -7), (1, 9)];
    compact(&mut list);
    let once = list.clone();
    compact(&mut list);
    assert_eq!(list, once);
    assert_eq!(once, vec![(1, 9), (4, -2), (8, 2)]);
}

#[test]
fn compact_conserves_the_total() {
    let mut list = vec![(4usize, 11i64), (2, 7), (4, -3), (8, 2), (2, -7), (1, 9), (8, -40)];
    let before = total(&list);
    compact(&mut list);
    assert_eq!(total(&list), before);
    assert_eq!(before, -21);
}

#[test]
fn compact_orders_edges_by_source_then_destination() {
    let mut list = vec![
        (edge(1, 0), 1i64),
        (edge(0, 9), 1),
        (edge(1, 0), 2),
        (edge(0, 2), 4),
        (edge(0, 9), -1),
    ];
    compact(&mut list);
    assert_eq!(list, vec![(edge(0, 2), 4), (edge(1, 0), 3)]);
}

#[test]
fn compact_does_not_depend_on_the_order_of_the_records() {
    let mut one = vec![(3usize, 1i64), (1, 2), (3, 4), (2, -2), (1, 1)];
    let mut other = vec![(1usize, 1i64), (2, -2), (3, 4), (3, 1), (1, 2)];
    compact(&mut one);
    compact(&mut other);
    assert_eq!(one, other);
    assert_eq!(one, vec![(1, 3), (2, -2), (3, 5)]);
}

#[test]
fn try_compact_reports_a_net_that_does_not_fit() {
    let mut list = vec![(1usize, i64::MAX), (0, 4), (1, 1)];
    assert!(!try_compact(&mut list));
    assert_eq!(list, vec![(0, 4), (1, i64::MAX), (1, 1)]);
}

#[test]
fn try_compact_reports_a_net_below_the_least_value() {
    let mut list = vec![(7usize, i64::MIN), (7, -1)];
    assert!(!try_compact(&mut list));
}

#[test]
fn try_compact_allows_partial_sums_that_do_not_fit() {
    let mut list = vec![(1usize, i64::MAX), (1, i64::MAX), (1, -i64::MAX)];
    assert!(try_compact(&mut list));
    assert_eq!(list, vec![(1, i64::MAX)]);
}

#[test]
fn try_compact_reaches_the_least_value() {
    let mut list = vec![(1usize, i64::MIN + 5), (1, -5)];
    assert!(try_compact(&mut list));
    assert_eq!(list, vec![(1, i64::MIN)]);
}

#[test]
fn try_compact_compacts_what_fits() {
    let mut list = vec![(2usize, 5i64), (1, 1), (2, -5)];
    assert!(try_compact(&mut list));
    assert_eq!(list, vec![(1, 1)]);
}

#[test]
fn node_ids_precede_by_value() {
    assert!(3usize.precedes(&4));
    assert!(!4usize.precedes(&4));
    assert!(!5usize.precedes(&4));
}

#[test]
fn edges_precede_by_source_first() {
    assert!(edge(1, 9).precedes(&edge(2, 0)));
    assert!(edge(1, 3).precedes(&edge(1, 4)));
    assert!(!edge(1, 4).precedes(&edge(1, 4)));
    assert!(!edge(2, 0).precedes(&edge(1, 9)));
    assert!(edge(0, usize::MAX).precedes(&edge(1, 0)));
}

#[test]
fn key_ordering_is_three_way() {
    assert_eq!(key_ordering(&1usize, &2usize), Ordering::Less);
    assert_eq!(key_ordering(&2usize, &2usize), Ordering::Equal);
    assert_eq!(key_ordering(&3usize, &2usize), Ordering::Greater);
    assert_eq!(key_ordering(&edge(1, 1), &edge(1, 2)), Ordering::Less);
    assert_eq!(key_ordering(&edge(1, 2), &edge(1, 2)), Ordering::Equal);
    assert_eq!(key_ordering(&edge(2, 0), &edge(1, 2)), Ordering::Greater);
}
