//! Sharded block partitioning: assigns every transaction of a block to a
//! (round, shard) execution slot and computes the cross-shard ordering edges
//! that a sharded executor must obey.
//!
//! The round engine (`rounds::discarding_round`) works on any round's
//! candidate lists, and the edge builder (`edges::add_edges`) on any
//! well-formed grid with matching trackers; each is proved against a
//! contract over its own inputs. `OmegaPartitioner::partition` runs them for
//! the fixed two-round schedule and is proved to compute exactly
//! `model::partition_model` (the module `bridge` connects the two views).
//! The module `laws` proves the properties of that model: completeness of
//! the grid, per-sender order, soundness and minimality of required edges,
//! soundness of dependent edges, dependent edges as the mirror of required
//! edges, determinism, and the three-writers scenario for any key.
pub mod bridge;
pub mod chunks;
pub mod edges;
pub mod fat_id;
pub mod grid;
pub mod laws;
pub mod lemmas;
pub mod model;
pub mod partitioner;
pub mod registry;
pub mod rounds;
pub mod types;

pub use chunks::uniform_partition;
pub use fat_id::TxnFatId;
pub use partitioner::OmegaPartitioner;
pub use registry::{KeyRegistry, LocationTracker};
pub use types::{
    AnalyzedTransaction, CrossShardEdge, ShardedTxnIndex, SubBlock, SubBlocksForShard,
    TransactionWithDependencies,
};
