use block_partitioner::edges::add_edges;
use block_partitioner::rounds::discarding_round;
use block_partitioner::{
    AnalyzedTransaction, CrossShardEdge, KeyRegistry, LocationTracker, ShardedTxnIndex, TxnFatId,
};

#[test]
fn fat_ids_order_by_round_then_shard_then_index() {
    let a = TxnFatId::new(0, 1, 9);
    let b = TxnFatId::new(0, 2, 0);
    let c = TxnFatId::new(1, 0, 0);
    let d = TxnFatId::new(1, 0, 3);
    assert!(a.precedes(&b));
    assert!(b.precedes(&c));
    assert!(c.precedes(&d));
    assert!(!d.precedes(&c));
    assert!(!a.precedes(&a));
    assert!(a < b && b < c && c < d);
    assert!(d > c && a <= a);
    let mut ids = vec![d, b, c, a];
    ids.sort();
    assert_eq!(ids, vec![a, b, c, d]);
    assert_eq!(a.round_id, 0);
    assert_eq!(a.shard_id, 1);
    assert_eq!(a.old_txn_idx, 9);
}

#[test]
fn registry_assigns_dense_ids_on_first_sight() {
    let txns = vec![
        AnalyzedTransaction::new(77, vec![10, 11], vec![12]),
        AnalyzedTransaction::new(55, vec![12], vec![10]),
        AnalyzedTransaction::new(77, vec![10, 10], vec![]),
    ];
    let reg = KeyRegistry::build(&txns, 4);
    assert_eq!(reg.sender_ids, vec![0, 1, 0]);
    assert_eq!(reg.num_senders, 2);
    assert_eq!(reg.location_keys, vec![10, 11, 12]);
    assert_eq!(reg.location_ids, vec![vec![0, 1, 2], vec![2, 0], vec![0, 0]]);
    assert_eq!(reg.trackers.len(), 3);
    assert_eq!(reg.trackers[0].anchor_shard_id, 2);
    assert_eq!(reg.trackers[1].anchor_shard_id, 3);
    assert_eq!(reg.trackers[2].anchor_shard_id, 0);
    assert_eq!(reg.trackers[0].candidate_writers, vec![0, 2]);
    assert_eq!(reg.trackers[1].candidate_writers, vec![0]);
    assert_eq!(reg.trackers[2].candidate_writers, vec![1]);
    assert!(reg.trackers[0].promoted_txn_ids.is_empty());
}

#[test]
fn tracker_range_query_and_promotion() {
    let mut t = LocationTracker::new(1);
    t.add_candidate_writer(2);
    t.add_candidate_writer(2);
    t.add_candidate_writer(5);
    assert_eq!(t.candidate_writers, vec![2, 5]);
    assert!(t.has_write_in_range(0, 3));
    assert!(!t.has_write_in_range(3, 5));
    assert!(t.has_write_in_range(3, 6));
    assert!(!t.has_write_in_range(4, 2));

    t.promote_txn_id(TxnFatId::new(0, 0, 2), true);
    t.promote_txn_id(TxnFatId::new(0, 0, 2), false);
    t.promote_txn_id(TxnFatId::new(0, 1, 4), false);
    assert_eq!(t.promoted_txn_ids, vec![TxnFatId::new(0, 0, 2), TxnFatId::new(0, 1, 4)]);
    assert_eq!(t.promoted_writer_ids, vec![TxnFatId::new(0, 0, 2)]);
}

fn three_writers() -> Vec<AnalyzedTransaction> {
    (0..3u64).map(|i| AnalyzedTransaction::new(i, vec![42], vec![])).collect()
}

fn edge(txn_index: usize, shard_id: usize, round_id: usize, location: u64) -> CrossShardEdge {
    CrossShardEdge { txn: ShardedTxnIndex { txn_index, shard_id, round_id }, location }
}

#[test]
fn discarding_round_runs_on_later_rounds() {
    let txns = three_writers();
    let mut reg = KeyRegistry::build(&txns, 2);
    let (accepted, discarded) = discarding_round(0, &txns, &mut reg, &vec![vec![0, 1], vec![2]], &vec![0, 2]);
    assert_eq!(accepted, vec![vec![0, 1], vec![]]);
    assert_eq!(discarded, vec![Vec::<usize>::new(), vec![2]]);
    // Same start table: transaction 2 still sees the writes of 0 and 1.
    let (again, still) = discarding_round(1, &txns, &mut reg, &discarded, &vec![0, 2]);
    assert_eq!(again, vec![Vec::<usize>::new(), vec![]]);
    assert_eq!(still, vec![Vec::<usize>::new(), vec![2]]);
    assert_eq!(reg.trackers[0].promoted_txn_ids.len(), 2);
    // A start table with nothing upstream of shard 1 lets it through.
    let (later, none) = discarding_round(1, &txns, &mut reg, &discarded, &vec![2, 2]);
    assert_eq!(later, vec![Vec::<usize>::new(), vec![2]]);
    assert_eq!(none, vec![Vec::<usize>::new(), vec![]]);
    assert_eq!(
        reg.trackers[0].promoted_writer_ids,
        vec![TxnFatId::new(0, 0, 0), TxnFatId::new(0, 0, 1), TxnFatId::new(1, 1, 2)]
    );
}

#[test]
fn discarding_round_gates_later_transactions_of_a_discarded_sender() {
    // Sender 9 sends transactions 1 and 2; transaction 1 conflicts on key 0.
    let txns = vec![
        AnalyzedTransaction::new(1, vec![0], vec![]),
        AnalyzedTransaction::new(9, vec![0], vec![]),
        AnalyzedTransaction::new(9, vec![7], vec![]),
        AnalyzedTransaction::new(3, vec![], vec![]),
    ];
    let mut reg = KeyRegistry::build(&txns, 2);
    let (accepted, discarded) =
        discarding_round(0, &txns, &mut reg, &vec![vec![0], vec![1, 2, 3]], &vec![0, 1]);
    assert_eq!(accepted, vec![vec![0], vec![3]]);
    assert_eq!(discarded, vec![Vec::<usize>::new(), vec![1, 2]]);
}

#[test]
fn edge_builder_works_on_any_grid() {
    let txns = three_writers();
    let mut reg = KeyRegistry::build(&txns, 2);
    // One round; shard 0 lists transaction 1 before 0.
    reg.promote(&txns, 0, TxnFatId::new(0, 0, 0));
    reg.promote(&txns, 1, TxnFatId::new(0, 0, 1));
    reg.promote(&txns, 2, TxnFatId::new(0, 1, 2));
    let grid = vec![vec![vec![1, 0], vec![2]]];
    let out = add_edges(&txns, 2, &reg, &grid);
    assert_eq!(out.len(), 2);
    assert_eq!(out[0].sub_blocks.len(), 1);
    assert_eq!(out[0].sub_blocks[0].start_index, 0);
    assert_eq!(out[1].sub_blocks[0].start_index, 2);
    let ids: Vec<usize> = out[0].sub_blocks[0].transactions.iter().map(|t| t.txn_id).collect();
    assert_eq!(ids, vec![1, 0]);
    let last = &out[1].sub_blocks[0].transactions[0];
    // The greatest writer before cell (0, 1) is transaction 1, at dense index 0.
    assert_eq!(last.required_edges, vec![edge(0, 0, 0, 42)]);
    let t1 = &out[0].sub_blocks[0].transactions[0];
    assert_eq!(t1.dependent_edges, vec![edge(2, 1, 0, 42)]);
    assert!(out[0].sub_blocks[0].transactions[1].dependent_edges.is_empty());
}
