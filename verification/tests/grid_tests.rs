use lifes_progress::ledger::{EnergyTransaction, TransactionHistory, TransactionType};
use lifes_progress::quadtree::{keeps_body, quadrant_index, quadrant_sides};
use lifes_progress::wave_grid::{grid_index, interior_chunks};

#[test]
fn grid_index_is_row_major() {
    assert_eq!(grid_index(0, 0, 4, 3), 0);
    assert_eq!(grid_index(3, 0, 4, 3), 3);
    assert_eq!(grid_index(1, 2, 4, 3), 9);
    assert_eq!(grid_index(3, 2, 4, 3), 11);
}

#[test]
fn chunks_of_grid_without_interior_are_empty() {
    assert_eq!(interior_chunks(1), vec![]);
    assert_eq!(interior_chunks(2), vec![]);
}

#[test]
fn chunks_of_small_grid_cover_its_interior() {
    assert_eq!(interior_chunks(3), vec![(1, 1)]);
    assert_eq!(interior_chunks(10), vec![(1, 8)]);
    assert_eq!(interior_chunks(33), vec![(1, 31)]);
}

#[test]
fn chunks_of_grid_with_remainder_two_are_full() {
    assert_eq!(interior_chunks(34), vec![(1, 32)]);
    assert_eq!(interior_chunks(66), vec![(1, 32), (33, 64)]);
}

#[test]
fn last_chunk_is_cut_at_last_interior_row() {
    assert_eq!(interior_chunks(50), vec![(1, 32), (33, 48)]);
    assert_eq!(interior_chunks(100), vec![(1, 32), (33, 64), (65, 96), (97, 98)]);
}

#[test]
fn every_interior_row_lies_in_exactly_one_chunk() {
    for n in 1..200usize {
        let chunks = interior_chunks(n);
        for r in 0..n {
            let holding = chunks.iter().filter(|(start, end)| *start <= r && r <= *end).count();
            let interior = r >= 1 && r + 2 <= n;
            assert_eq!(holding, if interior { 1 } else { 0 }, "n = {}, r = {}", n, r);
        }
    }
}

#[test]
fn quadrant_numbering() {
    assert_eq!(quadrant_index(false, false), 0);
    assert_eq!(quadrant_index(true, false), 1);
    assert_eq!(quadrant_index(false, true), 2);
    assert_eq!(quadrant_index(true, true), 3);
    for q in 0..4 {
        let (right, below) = quadrant_sides(q);
        assert_eq!(quadrant_index(right, below), q);
    }
}

#[test]
fn node_keeps_bodies_until_full_or_at_max_depth() {
    assert!(keeps_body(0, 8, 0, 8, false));
    assert!(keeps_body(0, 8, 7, 8, false));
    assert!(!keeps_body(0, 8, 8, 8, false));
    assert!(!keeps_body(2, 8, 0, 8, true));
    assert!(keeps_body(8, 8, 100, 8, true));
}

fn transaction(kind: TransactionType, source: Option<u64>, destination: Option<u64>, tag: u32) -> EnergyTransaction<u32> {
    EnergyTransaction { transaction_type: kind, source, destination, payload: tag }
}

#[test]
fn history_is_newest_first_and_bounded() {
    let mut history = TransactionHistory::new(2);
    history.record_transaction(transaction(TransactionType::Input, None, None, 1));
    history.record_transaction(transaction(TransactionType::Output, None, None, 2));
    history.record_transaction(transaction(TransactionType::Input, None, None, 3));
    let tags: Vec<u32> = history.transactions.iter().map(|t| t.payload).collect();
    assert_eq!(tags, vec![3, 2]);
    assert_eq!(history.max_history, 2);
}

#[test]
fn history_with_zero_capacity_stays_empty() {
    let mut history = TransactionHistory::new(0);
    history.record_transaction(transaction(TransactionType::Input, None, None, 1));
    assert!(history.transactions.is_empty());
}

#[test]
fn transactions_with_entity_finds_source_and_destination() {
    let mut history = TransactionHistory::new(100);
    history.record_transaction(transaction(TransactionType::Input, Some(1), Some(2), 10));
    history.record_transaction(transaction(TransactionType::Output, Some(3), None, 11));
    history.record_transaction(transaction(TransactionType::Input, None, Some(1), 12));
    let found: Vec<u32> = history.transactions_with_entity(1).iter().map(|t| t.payload).collect();
    assert_eq!(found, vec![12, 10]);
    assert!(history.transactions_with_entity(9).is_empty());
}
