//! The partitioning of a block as mathematical functions of its transactions
//! and the shard count. The executable code is proved to compute exactly these.
use vstd::prelude::*;
use crate::chunks::{chunk_start, shard_of};
use crate::fat_id::TxnFatId;
use crate::types::{
    AnalyzedTransaction, CrossShardEdge, ShardView, ShardedTxnIndex, SubBlockView, TxnDepsView,
};

verus! {

/// Number of rounds: one discarding round, then the catch-all round.
pub const NUM_ROUNDS: usize = 2;

/// Transaction `i` writes location `key`.
pub open spec fn writes(txns: Seq<AnalyzedTransaction>, i: int, key: u64) -> bool {
    txns[i].write_hints@.contains(key)
}

/// Transaction `i` writes or reads location `key`.
pub open spec fn touches(txns: Seq<AnalyzedTransaction>, i: int, key: u64) -> bool {
    txns[i].hints().contains(key)
}

/// The anchor shard of a location: the reference point for conflict detection,
/// fixed by the location's key alone.
pub open spec fn anchor_shard(key: u64, k: nat) -> nat {
    key as nat % k
}

/// Transaction `i` conflicts in the discarding round when one of its locations
/// is written by a transaction whose original index lies in
/// `[start of the location's anchor shard, start of i's own shard)`.
pub open spec fn conflicts(txns: Seq<AnalyzedTransaction>, k: nat, i: int) -> bool {
    let n = txns.len();
    exists|key: u64, w: int|
        #![trigger touches(txns, i, key), writes(txns, w, key)]
        touches(txns, i, key) && writes(txns, w, key) && 0 <= w < n && chunk_start(
            n,
            k,
            anchor_shard(key, k),
        ) <= w < chunk_start(n, k, shard_of(n, k, i as nat))
}

/// Transaction `i` is accepted in the discarding round when neither it nor any
/// earlier transaction of the same sender conflicts.
pub open spec fn accepted(txns: Seq<AnalyzedTransaction>, k: nat, i: int) -> bool {
    forall|j: int|
        0 <= j <= i && txns[j].sender == txns[i].sender ==> !#[trigger] conflicts(txns, k, j)
}

/// The final slot of transaction `i`: its initial shard in round 0 when accepted,
/// the catch-all cell (round 1, last shard) otherwise.
pub open spec fn slot(txns: Seq<AnalyzedTransaction>, k: nat, i: int) -> TxnFatId {
    if accepted(txns, k, i) {
        TxnFatId {
            round_id: 0,
            shard_id: shard_of(txns.len(), k, i as nat) as usize,
            old_txn_idx: i as usize,
        }
    } else {
        TxnFatId { round_id: 1, shard_id: (k - 1) as usize, old_txn_idx: i as usize }
    }
}

/// The indices in `[a, b)` whose acceptance equals `acc`, in order.
pub open spec fn range_where(
    txns: Seq<AnalyzedTransaction>,
    k: nat,
    a: nat,
    b: nat,
    acc: bool,
) -> Seq<usize>
    decreases b,
{
    if b <= a {
        Seq::empty()
    } else {
        let prev = range_where(txns, k, a, (b - 1) as nat, acc);
        if accepted(txns, k, b - 1) == acc {
            prev.push((b - 1) as usize)
        } else {
            prev
        }
    }
}

/// The partition grid: the original indices scheduled in cell (round `r`, shard `s`).
pub open spec fn cell(txns: Seq<AnalyzedTransaction>, k: nat, r: nat, s: nat) -> Seq<usize> {
    let n = txns.len();
    if r == 0 {
        range_where(txns, k, chunk_start(n, k, s), chunk_start(n, k, s + 1), true)
    } else if s + 1 == k {
        range_where(txns, k, 0, n, false)
    } else {
        Seq::empty()
    }
}

/// The dense index of the first transaction of cell (`r`, `s`), walking the grid
/// round-major, shard-minor.
pub open spec fn start_index(txns: Seq<AnalyzedTransaction>, k: nat, r: nat, s: nat) -> nat {
    let n = txns.len();
    if r == 0 {
        range_where(txns, k, 0, chunk_start(n, k, s), true).len()
    } else {
        range_where(txns, k, 0, n, true).len()
    }
}

/// The dense index of transaction `i`.
pub open spec fn new_index(txns: Seq<AnalyzedTransaction>, k: nat, i: int) -> nat {
    if accepted(txns, k, i) {
        range_where(txns, k, 0, i as nat, true).len()
    } else {
        range_where(txns, k, 0, txns.len(), true).len() + range_where(
            txns,
            k,
            0,
            i as nat,
            false,
        ).len()
    }
}

/// Slots of the transactions below `m` with acceptance `acc` that write `key`
/// (or, when `write_only` is false, touch it), in order of original index.
pub open spec fn slots_where(
    txns: Seq<AnalyzedTransaction>,
    k: nat,
    key: u64,
    m: nat,
    acc: bool,
    write_only: bool,
) -> Seq<TxnFatId>
    decreases m,
{
    if m == 0 {
        Seq::empty()
    } else {
        let j = m - 1;
        let prev = slots_where(txns, k, key, (m - 1) as nat, acc, write_only);
        if accepted(txns, k, j) == acc && (if write_only {
            writes(txns, j, key)
        } else {
            touches(txns, j, key)
        }) {
            prev.push(slot(txns, k, j))
        } else {
            prev
        }
    }
}

/// The promoted writers of `key`, in slot order.
pub open spec fn promoted_writers(txns: Seq<AnalyzedTransaction>, k: nat, key: u64) -> Seq<
    TxnFatId,
> {
    slots_where(txns, k, key, txns.len(), true, true) + slots_where(
        txns,
        k,
        key,
        txns.len(),
        false,
        true,
    )
}

/// All promoted touches (writers and readers) of `key`, in slot order.
pub open spec fn promoted_touches(txns: Seq<AnalyzedTransaction>, k: nat, key: u64) -> Seq<
    TxnFatId,
> {
    slots_where(txns, k, key, txns.len(), true, false) + slots_where(
        txns,
        k,
        key,
        txns.len(),
        false,
        false,
    )
}

/// How many entries of `v` lie strictly before `x`.
pub open spec fn count_below(v: Seq<TxnFatId>, x: TxnFatId) -> nat
    decreases v.len(),
{
    if v.len() == 0 {
        0
    } else {
        count_below(v.drop_last(), x) + if v.last().spec_lt(x) {
            1nat
        } else {
            0nat
        }
    }
}

/// The greatest entry of a sorted `v` strictly before `x`.
pub open spec fn last_before(v: Seq<TxnFatId>, x: TxnFatId) -> Option<TxnFatId> {
    let c = count_below(v, x);
    if c > 0 {
        Some(v[c - 1])
    } else {
        None
    }
}

/// An edge to the transaction in slot `f`, on `key`.
pub open spec fn edge_to(
    txns: Seq<AnalyzedTransaction>,
    k: nat,
    f: TxnFatId,
    key: u64,
) -> CrossShardEdge {
    CrossShardEdge {
        txn: ShardedTxnIndex {
            txn_index: new_index(txns, k, f.old_txn_idx as int) as usize,
            shard_id: f.shard_id,
            round_id: f.round_id,
        },
        location: key,
    }
}

/// The start of the cell of slot `f`.
pub open spec fn cell_start(f: TxnFatId) -> TxnFatId {
    TxnFatId { round_id: f.round_id, shard_id: f.shard_id, old_txn_idx: 0 }
}

/// The start of the cell after the cell of slot `f` in the same round.
pub open spec fn next_cell_start(f: TxnFatId) -> TxnFatId {
    TxnFatId { round_id: f.round_id, shard_id: (f.shard_id + 1) as usize, old_txn_idx: 0 }
}

/// The writer that transaction `i` must wait for on `key`: the last promoted
/// writer in a strictly earlier cell.
pub open spec fn required_source(txns: Seq<AnalyzedTransaction>, k: nat, i: int, key: u64) -> Option<
    TxnFatId,
> {
    last_before(promoted_writers(txns, k, key), cell_start(slot(txns, k, i)))
}

/// Required edges of `i` for its first `h` hints; a location listed twice
/// counts once.
pub open spec fn required_edges_upto(
    txns: Seq<AnalyzedTransaction>,
    k: nat,
    i: int,
    h: nat,
) -> Seq<CrossShardEdge>
    decreases h,
{
    if h == 0 {
        Seq::empty()
    } else {
        let key = txns[i].hints()[h - 1];
        let prev = required_edges_upto(txns, k, i, (h - 1) as nat);
        if txns[i].hints().take(h - 1).contains(key) {
            prev
        } else {
            match required_source(txns, k, i, key) {
                Some(w) => prev.push(edge_to(txns, k, w, key)),
                None => prev,
            }
        }
    }
}

/// Required edges of transaction `i`.
pub open spec fn required_edges(txns: Seq<AnalyzedTransaction>, k: nat, i: int) -> Seq<
    CrossShardEdge,
> {
    required_edges_upto(txns, k, i, txns[i].hints().len())
}

/// True when `i` is the last promoted writer of `key` within its own cell.
pub open spec fn is_last_writer_in_cell(
    txns: Seq<AnalyzedTransaction>,
    k: nat,
    i: int,
    key: u64,
) -> bool {
    let ws = promoted_writers(txns, k, key);
    let f = slot(txns, k, i);
    let lo = TxnFatId { round_id: f.round_id, shard_id: f.shard_id, old_txn_idx: (i + 1) as usize };
    forall|j: int|
        0 <= j < ws.len() ==> !(lo.spec_le(#[trigger] ws[j]) && ws[j].spec_lt(next_cell_start(f)))
}

/// Followers of a writer on `key`, walking the promoted touches `ts` from
/// position `p` while they do not lie beyond `end`; after a follower that
/// writes `key`, the walk ends with that follower's cell.
pub open spec fn walk_followers(
    txns: Seq<AnalyzedTransaction>,
    k: nat,
    key: u64,
    ts: Seq<TxnFatId>,
    p: nat,
    end: TxnFatId,
) -> Seq<CrossShardEdge>
    decreases ts.len() - p,
{
    if p >= ts.len() {
        Seq::empty()
    } else if end.spec_lt(ts[p as int]) {
        Seq::empty()
    } else {
        let f = ts[p as int];
        let next_end = if writes(txns, f.old_txn_idx as int, key) {
            next_cell_start(f)
        } else {
            end
        };
        seq![edge_to(txns, k, f, key)] + walk_followers(txns, k, key, ts, p + 1, next_end)
    }
}

/// A slot beyond every cell of the grid.
pub open spec fn grid_end(k: nat) -> TxnFatId {
    TxnFatId { round_id: NUM_ROUNDS, shard_id: k as usize, old_txn_idx: 0 }
}

/// The transactions that must wait for `i` on `key`, which `i` writes.
pub open spec fn dependents_on(txns: Seq<AnalyzedTransaction>, k: nat, i: int, key: u64) -> Seq<
    CrossShardEdge,
> {
    if is_last_writer_in_cell(txns, k, i, key) {
        let ts = promoted_touches(txns, k, key);
        walk_followers(
            txns,
            k,
            key,
            ts,
            count_below(ts, next_cell_start(slot(txns, k, i))),
            grid_end(k),
        )
    } else {
        Seq::empty()
    }
}

/// Dependent edges of `i` for its first `h` write hints; a location listed
/// twice counts once.
pub open spec fn dependent_edges_upto(
    txns: Seq<AnalyzedTransaction>,
    k: nat,
    i: int,
    h: nat,
) -> Seq<CrossShardEdge>
    decreases h,
{
    if h == 0 {
        Seq::empty()
    } else {
        let key = txns[i].write_hints@[h - 1];
        let prev = dependent_edges_upto(txns, k, i, (h - 1) as nat);
        if txns[i].write_hints@.take(h - 1).contains(key) {
            prev
        } else {
            prev + dependents_on(txns, k, i, key)
        }
    }
}

/// Dependent edges of transaction `i`.
pub open spec fn dependent_edges(txns: Seq<AnalyzedTransaction>, k: nat, i: int) -> Seq<
    CrossShardEdge,
> {
    dependent_edges_upto(txns, k, i, txns[i].write_hints@.len())
}

/// Transaction `i` with its edges, as scheduled.
pub open spec fn txn_model(txns: Seq<AnalyzedTransaction>, k: nat, i: int) -> TxnDepsView {
    TxnDepsView {
        txn_id: i as usize,
        required_edges: required_edges(txns, k, i),
        dependent_edges: dependent_edges(txns, k, i),
    }
}

/// The sub-block of cell (`r`, `s`).
pub open spec fn sub_block_model(txns: Seq<AnalyzedTransaction>, k: nat, r: nat, s: nat) -> SubBlockView {
    SubBlockView {
        start_index: start_index(txns, k, r, s) as usize,
        transactions: cell(txns, k, r, s).map_values(|i: usize| txn_model(txns, k, i as int)),
    }
}

/// The partitioned block: per shard, its sub-blocks of rounds 0 and 1.
pub open spec fn partition_model(txns: Seq<AnalyzedTransaction>, k: nat) -> Seq<ShardView> {
    Seq::new(
        k,
        |s: int|
            ShardView {
                shard_id: s as usize,
                sub_blocks: seq![
                    sub_block_model(txns, k, 0, s as nat),
                    sub_block_model(txns, k, 1, s as nat),
                ],
            },
    )
}

} // verus!
