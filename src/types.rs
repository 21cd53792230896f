//! Input transactions and the partitioned output: per shard, one sub-block per
//! round, each transaction carrying its cross-shard edges.
use vstd::prelude::*;

verus! {

/// A transaction as the partitioner sees it: who sent it and which storage
/// locations it writes and reads. Senders and locations are identified by
/// 64-bit keys, which must identify them one-to-one: two distinct senders (or
/// locations) must not share a key, or they are treated as one. A location's
/// anchor shard is its key modulo the shard count. The payload itself stays
/// with the caller, addressed by the transaction's original index in the
/// block.
#[derive(Debug, PartialEq, Eq)]
pub struct AnalyzedTransaction {
    pub sender: u64,
    pub write_hints: Vec<u64>,
    pub read_hints: Vec<u64>,
}

impl AnalyzedTransaction {
    /// Every location touched, writes first, then reads.
    pub open spec fn hints(self) -> Seq<u64> {
        self.write_hints@ + self.read_hints@
    }

    pub fn new(sender: u64, write_hints: Vec<u64>, read_hints: Vec<u64>) -> (r: Self)
        ensures
            r.sender == sender,
            r.write_hints@ == write_hints@,
            r.read_hints@ == read_hints@,
    {
        AnalyzedTransaction { sender, write_hints, read_hints }
    }
}

/// Where a transaction runs: its dense position in the partitioned block, and
/// its (round, shard) cell.
#[derive(Copy, Clone, Debug, PartialEq, Eq, Structural)]
pub struct ShardedTxnIndex {
    pub txn_index: usize,
    pub shard_id: usize,
    pub round_id: usize,
}

/// An ordering constraint with another transaction, caused by one storage location.
#[derive(Copy, Clone, Debug, PartialEq, Eq, Structural)]
pub struct CrossShardEdge {
    pub txn: ShardedTxnIndex,
    pub location: u64,
}

/// A scheduled transaction, given by its original index, with the edges it must
/// wait for (required) and the edges that must wait for it (dependent).
#[derive(Debug, PartialEq, Eq)]
pub struct TransactionWithDependencies {
    pub txn_id: usize,
    pub required_edges: Vec<CrossShardEdge>,
    pub dependent_edges: Vec<CrossShardEdge>,
}

/// The transactions of one (round, shard) cell, with the dense index of the first.
#[derive(Debug, PartialEq, Eq)]
pub struct SubBlock {
    pub start_index: usize,
    pub transactions: Vec<TransactionWithDependencies>,
}

/// All sub-blocks of one shard, one per round.
#[derive(Debug, PartialEq, Eq)]
pub struct SubBlocksForShard {
    pub shard_id: usize,
    pub sub_blocks: Vec<SubBlock>,
}

pub struct TxnDepsView {
    pub txn_id: usize,
    pub required_edges: Seq<CrossShardEdge>,
    pub dependent_edges: Seq<CrossShardEdge>,
}

pub struct SubBlockView {
    pub start_index: usize,
    pub transactions: Seq<TxnDepsView>,
}

pub struct ShardView {
    pub shard_id: usize,
    pub sub_blocks: Seq<SubBlockView>,
}

impl View for TransactionWithDependencies {
    type V = TxnDepsView;

    open spec fn view(&self) -> TxnDepsView {
        TxnDepsView {
            txn_id: self.txn_id,
            required_edges: self.required_edges@,
            dependent_edges: self.dependent_edges@,
        }
    }
}

impl View for SubBlock {
    type V = SubBlockView;

    open spec fn view(&self) -> SubBlockView {
        SubBlockView {
            start_index: self.start_index,
            transactions: self.transactions@.map_values(|t: TransactionWithDependencies| t@),
        }
    }
}

impl View for SubBlocksForShard {
    type V = ShardView;

    open spec fn view(&self) -> ShardView {
        ShardView {
            shard_id: self.shard_id,
            sub_blocks: self.sub_blocks@.map_values(|b: SubBlock| b@),
        }
    }
}

/// The partitioned block as a value: one view per shard.
pub open spec fn output_view(out: Seq<SubBlocksForShard>) -> Seq<ShardView> {
    out.map_values(|s: SubBlocksForShard| s@)
}

} // verus!
