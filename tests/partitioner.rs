use block_partitioner::{
    uniform_partition, AnalyzedTransaction, CrossShardEdge, OmegaPartitioner, ShardedTxnIndex,
    SubBlocksForShard,
};

fn txn(sender: u64, writes: &[u64], reads: &[u64]) -> AnalyzedTransaction {
    AnalyzedTransaction::new(sender, writes.to_vec(), reads.to_vec())
}

fn edge(txn_index: usize, shard_id: usize, round_id: usize, location: u64) -> CrossShardEdge {
    CrossShardEdge { txn: ShardedTxnIndex { txn_index, shard_id, round_id }, location }
}

fn cell_ids(out: &[SubBlocksForShard], round_id: usize, shard_id: usize) -> Vec<usize> {
    out[shard_id].sub_blocks[round_id].transactions.iter().map(|t| t.txn_id).collect()
}

#[test]
fn test_uniform_partition() {
    let actual = uniform_partition(18, 5);
    assert_eq!(vec![4, 4, 4, 3, 3], actual.iter().map(|v| v.len()).collect::<Vec<usize>>());
    assert_eq!((0..18).collect::<Vec<usize>>(), actual.concat());

    let actual = uniform_partition(18, 3);
    assert_eq!(vec![6, 6, 6], actual.iter().map(|v| v.len()).collect::<Vec<usize>>());
    assert_eq!((0..18).collect::<Vec<usize>>(), actual.concat());
}

#[test]
fn uniform_partition_small_and_empty() {
    assert_eq!(uniform_partition(0, 3), vec![Vec::<usize>::new(), vec![], vec![]]);
    assert_eq!(uniform_partition(2, 5), vec![vec![0], vec![1], vec![], vec![], vec![]]);
    assert_eq!(uniform_partition(7, 1), vec![(0..7).collect::<Vec<usize>>()]);
}

#[test]
fn three_writers_of_one_key_on_two_shards() {
    // Key 42 has anchor shard 0. Shard 0 holds transactions 0 and 1, shard 1
    // holds transaction 2, which sees the anchor shard's earlier writes.
    let txns = vec![txn(1, &[42], &[]), txn(2, &[42], &[]), txn(3, &[42], &[])];
    let out = OmegaPartitioner::new(4).partition(&txns, 2);
    assert_eq!(out.len(), 2);
    assert_eq!(out[0].shard_id, 0);
    assert_eq!(out[1].shard_id, 1);
    assert_eq!(cell_ids(&out, 0, 0), vec![0, 1]);
    assert_eq!(cell_ids(&out, 0, 1), Vec::<usize>::new());
    assert_eq!(cell_ids(&out, 1, 0), Vec::<usize>::new());
    assert_eq!(cell_ids(&out, 1, 1), vec![2]);

    assert_eq!(out[0].sub_blocks[0].start_index, 0);
    assert_eq!(out[1].sub_blocks[0].start_index, 2);
    assert_eq!(out[0].sub_blocks[1].start_index, 2);
    assert_eq!(out[1].sub_blocks[1].start_index, 2);

    let first = &out[0].sub_blocks[0].transactions[0];
    assert!(first.required_edges.is_empty());
    assert!(first.dependent_edges.is_empty());
    let second = &out[0].sub_blocks[0].transactions[1];
    assert!(second.required_edges.is_empty());
    assert_eq!(second.dependent_edges, vec![edge(2, 1, 1, 42)]);
    let last = &out[1].sub_blocks[1].transactions[0];
    assert_eq!(last.required_edges, vec![edge(1, 0, 0, 42)]);
    assert!(last.dependent_edges.is_empty());
}

#[test]
fn odd_key_anchored_on_last_shard_causes_no_discard() {
    // Key 7 has anchor shard 1: shard 1 starts at its own anchor, so nothing conflicts.
    let txns = vec![txn(1, &[7], &[]), txn(2, &[7], &[]), txn(3, &[7], &[])];
    let out = OmegaPartitioner::new(1).partition(&txns, 2);
    assert_eq!(cell_ids(&out, 0, 0), vec![0, 1]);
    assert_eq!(cell_ids(&out, 0, 1), vec![2]);
    assert_eq!(cell_ids(&out, 1, 1), Vec::<usize>::new());
    let last = &out[1].sub_blocks[0].transactions[0];
    assert_eq!(last.required_edges, vec![edge(1, 0, 0, 7)]);
    assert_eq!(out[0].sub_blocks[0].transactions[1].dependent_edges, vec![edge(2, 1, 0, 7)]);
}

#[test]
fn sender_order_is_kept_across_rounds() {
    // Transaction 2 conflicts (its key 0 was written by transaction 0 in the
    // anchor shard), so transaction 3 of the same sender must not run before it.
    let txns = vec![
        txn(1, &[0], &[]),
        txn(3, &[], &[5]),
        txn(2, &[0], &[]),
        txn(2, &[7], &[]),
    ];
    let out = OmegaPartitioner::new(2).partition(&txns, 2);
    assert_eq!(cell_ids(&out, 0, 0), vec![0, 1]);
    assert_eq!(cell_ids(&out, 0, 1), Vec::<usize>::new());
    assert_eq!(cell_ids(&out, 1, 1), vec![2, 3]);
}

#[test]
fn every_index_scheduled_exactly_once() {
    let txns: Vec<AnalyzedTransaction> = (0..20u64)
        .map(|i| txn(i % 3, &[i % 4], &[(i + 1) % 5]))
        .collect();
    for shards in 1..6usize {
        let out = OmegaPartitioner::new(2).partition(&txns, shards);
        assert_eq!(out.len(), shards);
        let mut seen = vec![0usize; txns.len()];
        let mut dense = 0usize;
        for round_id in 0..2 {
            for shard_id in 0..shards {
                let block = &out[shard_id].sub_blocks[round_id];
                assert_eq!(block.start_index, dense);
                dense += block.transactions.len();
                for t in &block.transactions {
                    seen[t.txn_id] += 1;
                }
            }
        }
        assert_eq!(dense, txns.len());
        assert!(seen.iter().all(|c| *c == 1));
    }
}

#[test]
fn required_edge_points_at_closest_earlier_writer() {
    // Three shards of two transactions; key 4 has anchor shard 1. Transactions
    // 0 (shard 0) and 2 (shard 1) write it and are accepted; transaction 4
    // (shard 2) sees the write of transaction 2 and lands in the catch-all
    // cell. Its required edge names the closer writer, transaction 2.
    let txns = vec![
        txn(10, &[4], &[]),
        txn(11, &[], &[]),
        txn(12, &[4], &[]),
        txn(13, &[], &[]),
        txn(14, &[4], &[]),
        txn(15, &[], &[]),
    ];
    let out = OmegaPartitioner::new(3).partition(&txns, 3);
    assert_eq!(cell_ids(&out, 0, 0), vec![0, 1]);
    assert_eq!(cell_ids(&out, 0, 1), vec![2, 3]);
    assert_eq!(cell_ids(&out, 0, 2), vec![5]);
    assert_eq!(cell_ids(&out, 1, 2), vec![4]);
    let t4 = &out[2].sub_blocks[1].transactions[0];
    assert_eq!(t4.txn_id, 4);
    assert_eq!(t4.required_edges, vec![edge(2, 1, 0, 4)]);
    let t0 = &out[0].sub_blocks[0].transactions[0];
    assert_eq!(t0.dependent_edges, vec![edge(2, 1, 0, 4)]);
    let t2 = &out[1].sub_blocks[0].transactions[0];
    assert_eq!(t2.required_edges, vec![edge(0, 0, 0, 4)]);
    assert_eq!(t2.dependent_edges, vec![edge(5, 2, 1, 4)]);
}

#[test]
fn catch_all_transactions_share_their_predecessor() {
    // Key 3 has anchor shard 0: transactions 3 and 4 both see the write of
    // transaction 0, land in the same catch-all cell, and both wait for it.
    let txns = vec![
        txn(10, &[3], &[]),
        txn(11, &[], &[]),
        txn(12, &[], &[]),
        txn(13, &[3], &[]),
        txn(14, &[3], &[]),
        txn(15, &[], &[]),
    ];
    let out = OmegaPartitioner::new(3).partition(&txns, 3);
    assert_eq!(cell_ids(&out, 1, 2), vec![3, 4]);
    let t3 = &out[2].sub_blocks[1].transactions[0];
    assert_eq!(t3.required_edges, vec![edge(0, 0, 0, 3)]);
    let t4 = &out[2].sub_blocks[1].transactions[1];
    assert_eq!(t4.required_edges, vec![edge(0, 0, 0, 3)]);
    let t0 = &out[0].sub_blocks[0].transactions[0];
    assert_eq!(t0.dependent_edges, vec![edge(4, 2, 1, 3), edge(5, 2, 1, 3)]);
}

#[test]
fn partitioning_twice_gives_identical_results() {
    let txns: Vec<AnalyzedTransaction> = (0..30u64)
        .map(|i| txn(i % 4, &[i % 6, 100 + i % 2], &[(i * 7) % 9]))
        .collect();
    let partitioner = OmegaPartitioner::new(8);
    let first = partitioner.partition(&txns, 4);
    let second = partitioner.partition(&txns, 4);
    assert_eq!(first, second);
}

#[test]
fn empty_block_gives_empty_sub_blocks() {
    let out = OmegaPartitioner::new(1).partition(&Vec::new(), 3);
    assert_eq!(out.len(), 3);
    for (shard_id, shard) in out.iter().enumerate() {
        assert_eq!(shard.shard_id, shard_id);
        assert_eq!(shard.sub_blocks.len(), 2);
        for block in &shard.sub_blocks {
            assert_eq!(block.start_index, 0);
            assert!(block.transactions.is_empty());
        }
    }
}

#[test]
fn single_shard_accepts_everything() {
    let txns = vec![txn(1, &[5], &[6]), txn(1, &[6], &[5]), txn(2, &[5], &[])];
    let out = OmegaPartitioner::new(1).partition(&txns, 1);
    assert_eq!(cell_ids(&out, 0, 0), vec![0, 1, 2]);
    assert_eq!(cell_ids(&out, 1, 0), Vec::<usize>::new());
    for t in &out[0].sub_blocks[0].transactions {
        assert!(t.required_edges.is_empty());
        assert!(t.dependent_edges.is_empty());
    }
}

#[test]
fn repeated_location_in_hints_gives_one_edge() {
    let txns = vec![txn(1, &[42], &[]), txn(2, &[], &[]), txn(3, &[42, 42], &[42])];
    let out = OmegaPartitioner::new(1).partition(&txns, 2);
    assert_eq!(cell_ids(&out, 0, 0), vec![0, 1]);
    assert_eq!(cell_ids(&out, 1, 1), vec![2]);
    let last = &out[1].sub_blocks[1].transactions[0];
    assert_eq!(last.required_edges, vec![edge(0, 0, 0, 42)]);
    assert!(last.dependent_edges.is_empty());
    let first = &out[0].sub_blocks[0].transactions[0];
    assert_eq!(first.dependent_edges, vec![edge(2, 1, 1, 42)]);
}

#[test]
fn dependent_edges_mirror_required_edges() {
    let txns: Vec<AnalyzedTransaction> = (0..40u64)
        .map(|i| txn(i % 5, &[i % 7, 20 + i % 3], &[(i * 5) % 11]))
        .collect();
    for shards in 1..5usize {
        let out = OmegaPartitioner::new(2).partition(&txns, shards);
        // (dense index, shard, round) of each scheduled transaction, with its edges.
        let mut placed = Vec::new();
        for round_id in 0..2 {
            for shard_id in 0..shards {
                let block = &out[shard_id].sub_blocks[round_id];
                for (pos, t) in block.transactions.iter().enumerate() {
                    placed.push((ShardedTxnIndex { txn_index: block.start_index + pos, shard_id, round_id }, t));
                }
            }
        }
        for (me, t) in &placed {
            for e in &t.required_edges {
                let (_, src) = placed.iter().find(|(at, _)| *at == e.txn).unwrap();
                assert!(src.dependent_edges.contains(&CrossShardEdge { txn: *me, location: e.location }));
            }
            for e in &t.dependent_edges {
                let (_, dst) = placed.iter().find(|(at, _)| *at == e.txn).unwrap();
                assert!(dst.required_edges.contains(&CrossShardEdge { txn: *me, location: e.location }));
            }
        }
    }
}
