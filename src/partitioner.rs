//! The partitioner: key registry, initial assignment, the two rounds, and the
//! edge builder, run in that order on one block.
use vstd::prelude::*;
use crate::chunks::{chunk, chunk_start, lemma_chunk_start_mono, lemma_chunk_start_zero_and_end, uniform_partition};
use crate::bridge::{is_model_grid, lemma_model_grid_wf, lemma_model_output, lemma_model_trackers};
use crate::edges::add_edges;
use crate::model::{cell, partition_model, range_where};
use crate::registry::{block_fits, KeyRegistry};
use crate::chunks::lemma_chunk_step;
use crate::model::slots_where;
use crate::rounds::{
    candidates_wf, discarding_round, initial_round, is_candidate, lemma_initial_round,
    promote_catch_all, round_slots, shard_split,
};
use crate::types::{output_view, AnalyzedTransaction, SubBlocksForShard};

verus! {

/// Assigns the transactions of a block to (round, shard) slots in two rounds:
/// a discarding round on each shard's initial range, then a catch-all cell for
/// everything discarded.
pub struct OmegaPartitioner {
    /// How many workers a caller intends to run the shards' sub-blocks on.
    /// Partitioning itself runs on the calling thread, and its result does
    /// not depend on this count.
    pub num_threads: usize,
}

impl OmegaPartitioner {
    pub fn new(num_threads: usize) -> (r: Self)
        ensures
            r.num_threads == num_threads,
    {
        OmegaPartitioner { num_threads }
    }

    /// Partitions `txns` over `num_executor_shards` shards. The result has one
    /// entry per shard, each with the sub-blocks of rounds 0 and 1, and is
    /// exactly the model's partitioning of the block.
    pub fn partition(&self, txns: &Vec<AnalyzedTransaction>, num_executor_shards: usize) -> (r: Vec<
        SubBlocksForShard,
    >)
        requires
            num_executor_shards > 0,
            block_fits(txns@),
        ensures
            output_view(r@) == partition_model(txns@, num_executor_shards as nat),
    {
        let ghost n = txns@.len();
        let ghost k = num_executor_shards as nat;
        let num_txns = txns.len();
        let mut reg = KeyRegistry::build(txns, num_executor_shards);
        let remaining_txns = uniform_partition(num_txns, num_executor_shards);

        let mut start_txn_ids_by_shard_id: Vec<usize> = Vec::with_capacity(num_executor_shards);
        let mut next_start: usize = 0;
        let mut shard_id: usize = 0;
        proof {
            lemma_chunk_start_zero_and_end(n, k);
        }
        while shard_id < num_executor_shards
            invariant
                k == num_executor_shards > 0,
                n == num_txns == txns@.len(),
                remaining_txns@.len() == k,
                forall|s: int| 0 <= s < k ==> #[trigger] remaining_txns@[s]@ == chunk(n, k, s as nat),
                shard_id <= num_executor_shards,
                next_start == chunk_start(n, k, shard_id as nat),
                start_txn_ids_by_shard_id@.len() == shard_id,
                forall|s: int| 0 <= s < shard_id ==> #[trigger] start_txn_ids_by_shard_id@[s] == chunk_start(n, k, s as nat),
            decreases num_executor_shards - shard_id,
        {
            proof {
                lemma_chunk_start_zero_and_end(n, k);
                lemma_chunk_start_mono(n, k, shard_id as nat, (shard_id + 1) as nat);
                lemma_chunk_start_mono(n, k, (shard_id + 1) as nat, k);
            }
            start_txn_ids_by_shard_id.push(next_start);
            next_start = next_start + remaining_txns[shard_id].len();
            shard_id += 1;
        }

        let ghost reg_built = reg;
        proof {
            assert(candidates_wf(n, remaining_txns@)) by {
                lemma_chunk_start_zero_and_end(n, k);
                assert forall|s: int, p: int| is_candidate(remaining_txns@, s, p) implies #[trigger] remaining_txns@[s]@[p] < n by {
                    lemma_chunk_start_mono(n, k, s as nat, (s + 1) as nat);
                    lemma_chunk_start_mono(n, k, (s + 1) as nat, k);
                }
                assert forall|s: int, a: int, b: int|
                    0 <= s < remaining_txns@.len() && 0 <= a < b < remaining_txns@[s]@.len() implies #[trigger] remaining_txns@[s]@[a]
                        < #[trigger] remaining_txns@[s]@[b] by {
                    lemma_chunk_start_mono(n, k, s as nat, (s + 1) as nat);
                    lemma_chunk_start_mono(n, k, (s + 1) as nat, k);
                }
                assert forall|sa: int, pa: int, sb: int, pb: int|
                    is_candidate(remaining_txns@, sa, pa) && is_candidate(remaining_txns@, sb, pb) && #[trigger] remaining_txns@[sa]@[pa]
                        == #[trigger] remaining_txns@[sb]@[pb] implies sa == sb && pa == pb by {
                    lemma_chunk_start_mono(n, k, sa as nat, (sa + 1) as nat);
                    lemma_chunk_start_mono(n, k, sb as nat, (sb + 1) as nat);
                    lemma_chunk_start_mono(n, k, (sa + 1) as nat, k);
                    lemma_chunk_start_mono(n, k, (sb + 1) as nat, k);
                    if sa < sb {
                        lemma_chunk_start_mono(n, k, (sa + 1) as nat, sb as nat);
                    } else if sb < sa {
                        lemma_chunk_start_mono(n, k, (sb + 1) as nat, sa as nat);
                    }
                }
            }
        }
        let (accepted, discarded) = discarding_round(
            0,
            txns,
            &mut reg,
            &remaining_txns,
            &start_txn_ids_by_shard_id,
        );
        proof {
            let cands = remaining_txns@;
            let starts = start_txn_ids_by_shard_id@;
            assert(initial_round(n, k, cands, starts));
            lemma_chunk_start_zero_and_end(n, k);
            assert forall|s: int| 0 <= s < k implies (#[trigger] accepted@[s])@ == range_where(
                txns@, k, chunk_start(n, k, s as nat), chunk_start(n, k, (s + 1) as nat), true)
                && discarded@[s]@ == range_where(
                txns@, k, chunk_start(n, k, s as nat), chunk_start(n, k, (s + 1) as nat), false) by {
                lemma_chunk_start_mono(n, k, s as nat, (s + 1) as nat);
                lemma_initial_round(txns@, k, cands, starts, 0, true, s as nat, cands[s]@.len());
                assert(discarded@[s]@ == shard_split(txns@, k, cands, starts, s, cands[s]@.len(), false));
            }
            assert forall|s: int| 0 <= s < k implies (#[trigger] discarded@[s])@ == range_where(
                txns@, k, chunk_start(n, k, s as nat), chunk_start(n, k, (s + 1) as nat), false) by {
                assert(accepted@[s]@ == range_where(
                    txns@, k, chunk_start(n, k, s as nat), chunk_start(n, k, (s + 1) as nat), true));
            }
            assert forall|id: int| 0 <= id < reg.trackers@.len() implies {
                let t = #[trigger] reg.trackers@[id];
                let key = reg.location_keys@[id];
                &&& t.promoted_writer_ids@ == slots_where(txns@, k, key, n, true, true)
                    + slots_where(txns@, k, key, 0, false, true)
                &&& t.promoted_txn_ids@ == slots_where(txns@, k, key, n, true, false)
                    + slots_where(txns@, k, key, 0, false, false)
            } by {
                let key = reg.location_keys@[id];
                let t0 = reg_built.trackers@[id];
                lemma_initial_round(txns@, k, cands, starts, key, true, (k - 1) as nat, cands[k - 1]@.len());
                lemma_initial_round(txns@, k, cands, starts, key, false, (k - 1) as nat, cands[k - 1]@.len());
                lemma_chunk_step(n, k, (k - 1) as nat);
                assert(round_slots(txns@, k, cands, starts, 0, key, true, k, 0) == round_slots(
                    txns@, k, cands, starts, 0, key, true, (k - 1) as nat, cands[k - 1]@.len()));
                assert(round_slots(txns@, k, cands, starts, 0, key, false, k, 0) == round_slots(
                    txns@, k, cands, starts, 0, key, false, (k - 1) as nat, cands[k - 1]@.len()));
                assert(t0.promoted_writer_ids@ =~= slots_where(txns@, k, key, 0, false, true));
                assert(t0.promoted_txn_ids@ =~= slots_where(txns@, k, key, 0, false, false));
                assert(reg.trackers@[id].promoted_writer_ids@ =~= slots_where(txns@, k, key, n, true, true)
                    + slots_where(txns@, k, key, 0, false, true));
                assert(reg.trackers@[id].promoted_txn_ids@ =~= slots_where(txns@, k, key, n, true, false)
                    + slots_where(txns@, k, key, 0, false, false));
            }
        }
        let last_round_txns = promote_catch_all(txns, &mut reg, &discarded);

        let mut last_round: Vec<Vec<usize>> = Vec::with_capacity(num_executor_shards);
        let mut shard_id: usize = 0;
        while shard_id + 1 < num_executor_shards
            invariant
                k == num_executor_shards > 0,
                shard_id + 1 <= num_executor_shards,
                last_round@.len() == shard_id,
                forall|s: int| 0 <= s < shard_id ==> (#[trigger] last_round@[s])@ == cell(txns@, k, 1, s as nat),
            decreases num_executor_shards - shard_id,
        {
            last_round.push(Vec::new());
            shard_id += 1;
        }
        last_round.push(last_round_txns);
        let mut txn_id_matrix: Vec<Vec<Vec<usize>>> = Vec::with_capacity(2);
        txn_id_matrix.push(accepted);
        txn_id_matrix.push(last_round);
        proof {
            assert forall|r: int, s: int| 0 <= r < 2 && 0 <= s < k implies (#[trigger] txn_id_matrix@[r]@[s])@ == cell(
                txns@,
                k,
                r as nat,
                s as nat,
            ) by {
                if r == 1 && s + 1 == k {
                    assert(txn_id_matrix@[r]@[s]@ == range_where(txns@, k, 0, n, false));
                }
            }
        }
        proof {
            assert(is_model_grid(txns@, k, txn_id_matrix@));
            lemma_model_grid_wf(txns@, k, txn_id_matrix@);
            lemma_model_trackers(txns@, k, txn_id_matrix@, reg);
            lemma_model_output(txns@, k, txn_id_matrix@, reg);
        }
        add_edges(txns, num_executor_shards, &reg, &txn_id_matrix)
    }
}

} // verus!
