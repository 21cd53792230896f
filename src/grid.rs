//! The edge builder's view of its inputs: any partition grid, rounds by
//! shards, in which each transaction sits in exactly one cell, together with
//! trackers whose promoted sets hold exactly the grid's slots.
use vstd::prelude::*;
use crate::fat_id::TxnFatId;
use crate::lemmas::fat_sorted;
use crate::model::{cell_start, count_below, last_before, next_cell_start, touches, writes};
use crate::registry::KeyRegistry;
use crate::types::{AnalyzedTransaction, CrossShardEdge, ShardView, ShardedTxnIndex, SubBlockView, TxnDepsView};

verus! {

/// Cell (`r`, `s`) of `grid` holds `i` at position `p`.
pub open spec fn at_cell(grid: Seq<Vec<Vec<usize>>>, r: int, s: int, p: int, i: int) -> bool {
    0 <= r < grid.len() && 0 <= s < grid[r]@.len() && 0 <= p < grid[r]@[s]@.len()
        && grid[r]@[s]@[p] == i
}

/// Transaction `i` sits somewhere in `grid`.
pub open spec fn placed(grid: Seq<Vec<Vec<usize>>>, i: int) -> bool {
    exists|r: int, s: int, p: int| #[trigger] at_cell(grid, r, s, p, i)
}

/// The number of entries in the cells before (`r`, `s`), walking the grid
/// round-major, shard-minor, with `k` shards per round.
pub open spec fn cells_before(grid: Seq<Vec<Vec<usize>>>, k: nat, r: nat, s: nat) -> nat
    decreases r, s,
{
    if s == 0 {
        if r == 0 {
            0
        } else {
            cells_before(grid, k, (r - 1) as nat, k)
        }
    } else {
        cells_before(grid, k, r, (s - 1) as nat) + grid[r as int]@[s - 1]@.len()
    }
}

/// A grid of `n` transactions over `k` shards: at least one round of `k`
/// cells, entries below `n`, each transaction in exactly one cell at exactly
/// one position (so the cells hold `n` entries in all).
pub open spec fn grid_wf(n: nat, k: nat, grid: Seq<Vec<Vec<usize>>>) -> bool {
    &&& 0 < grid.len() <= usize::MAX
    &&& 0 < k <= usize::MAX
    &&& n < usize::MAX
    &&& forall|r: int| 0 <= r < grid.len() ==> (#[trigger] grid[r])@.len() == k
    &&& forall|r: int, s: int, p: int|
        0 <= r < grid.len() && 0 <= s < k && 0 <= p < grid[r]@[s]@.len() ==> #[trigger] grid[r]@[s]@[p] < n
    &&& forall|i: int| 0 <= i < n ==> #[trigger] placed(grid, i)
    &&& forall|ra: int, sa: int, pa: int, rb: int, sb: int, pb: int, i: int|
        #[trigger] at_cell(grid, ra, sa, pa, i) && #[trigger] at_cell(grid, rb, sb, pb, i) ==> ra == rb
            && sa == sb && pa == pb
    &&& cells_before(grid, k, grid.len(), 0) == n
}

/// Where transaction `i` sits: round, shard and position.
pub open spec fn place_of(grid: Seq<Vec<Vec<usize>>>, i: int) -> (int, int, int) {
    choose|r: int, s: int, p: int| at_cell(grid, r, s, p, i)
}

/// The slot of transaction `i` in `grid`.
pub open spec fn gslot(grid: Seq<Vec<Vec<usize>>>, i: int) -> TxnFatId {
    let (r, s, p) = place_of(grid, i);
    TxnFatId { round_id: r as usize, shard_id: s as usize, old_txn_idx: i as usize }
}

/// The dense index of transaction `i`: its cell's start plus its position.
pub open spec fn gnew_index(grid: Seq<Vec<Vec<usize>>>, k: nat, i: int) -> nat {
    let (r, s, p) = place_of(grid, i);
    (cells_before(grid, k, r as nat, s as nat) + p) as nat
}

/// The promoted writers of the location of hint `h` of transaction `i`.
pub open spec fn hint_writers(reg: KeyRegistry, i: int, h: int) -> Seq<TxnFatId> {
    reg.trackers@[reg.location_ids@[i]@[h] as int].promoted_writer_ids@
}

/// The promoted touches of the location of hint `h` of transaction `i`.
pub open spec fn hint_touches(reg: KeyRegistry, i: int, h: int) -> Seq<TxnFatId> {
    reg.trackers@[reg.location_ids@[i]@[h] as int].promoted_txn_ids@
}

/// A promoted set of `key` holds, in slot order, exactly the grid slots of the
/// transactions that write it (or touch it, when `write_only` is false).
pub open spec fn promoted_set_matches(
    txns: Seq<AnalyzedTransaction>,
    grid: Seq<Vec<Vec<usize>>>,
    key: u64,
    v: Seq<TxnFatId>,
    write_only: bool,
) -> bool {
    &&& fat_sorted(v)
    &&& forall|j: int|
        0 <= j < v.len() ==> {
            let f = #[trigger] v[j];
            &&& f.old_txn_idx < txns.len()
            &&& f == gslot(grid, f.old_txn_idx as int)
            &&& if write_only {
                writes(txns, f.old_txn_idx as int, key)
            } else {
                touches(txns, f.old_txn_idx as int, key)
            }
        }
    &&& forall|i: int|
        0 <= i < txns.len() && (if write_only {
            writes(txns, i, key)
        } else {
            touches(txns, i, key)
        }) ==> v.contains(#[trigger] gslot(grid, i))
}

/// Every tracker's promoted sets match the grid.
pub open spec fn trackers_match(
    txns: Seq<AnalyzedTransaction>,
    grid: Seq<Vec<Vec<usize>>>,
    reg: KeyRegistry,
) -> bool {
    forall|id: int|
        0 <= id < reg.trackers@.len() ==> {
            let t = #[trigger] reg.trackers@[id];
            let key = reg.location_keys@[id];
            &&& promoted_set_matches(txns, grid, key, t.promoted_writer_ids@, true)
            &&& promoted_set_matches(txns, grid, key, t.promoted_txn_ids@, false)
        }
}

/// The edge to the transaction in slot `f`, on `key`.
pub open spec fn gedge_to(grid: Seq<Vec<Vec<usize>>>, k: nat, f: TxnFatId, key: u64) -> CrossShardEdge {
    CrossShardEdge {
        txn: ShardedTxnIndex {
            txn_index: gnew_index(grid, k, f.old_txn_idx as int) as usize,
            shard_id: f.shard_id,
            round_id: f.round_id,
        },
        location: key,
    }
}

/// Required edges of `i` for its first `h` hints: per distinct location, an
/// edge to the greatest promoted writer before the start of `i`'s cell.
pub open spec fn grequired_upto(
    txns: Seq<AnalyzedTransaction>,
    k: nat,
    grid: Seq<Vec<Vec<usize>>>,
    reg: KeyRegistry,
    i: int,
    h: nat,
) -> Seq<CrossShardEdge>
    decreases h,
{
    if h == 0 {
        Seq::empty()
    } else {
        let key = txns[i].hints()[h - 1];
        let prev = grequired_upto(txns, k, grid, reg, i, (h - 1) as nat);
        if txns[i].hints().take(h - 1).contains(key) {
            prev
        } else {
            match last_before(hint_writers(reg, i, h - 1), cell_start(gslot(grid, i))) {
                Some(w) => prev.push(gedge_to(grid, k, w, key)),
                None => prev,
            }
        }
    }
}

/// `i` is the last promoted writer, within its cell, of the location of its hint `h`.
pub open spec fn glast_writer_in_cell(grid: Seq<Vec<Vec<usize>>>, reg: KeyRegistry, i: int, h: int) -> bool {
    let ws = hint_writers(reg, i, h);
    let f = gslot(grid, i);
    let lo = TxnFatId { round_id: f.round_id, shard_id: f.shard_id, old_txn_idx: (i + 1) as usize };
    forall|j: int|
        0 <= j < ws.len() ==> !(lo.spec_le(#[trigger] ws[j]) && ws[j].spec_lt(next_cell_start(f)))
}

/// The walk of section "dependent edges": from position `p` of the promoted
/// touches `ts`, add each follower not beyond `end`; after a follower that
/// writes `key`, the walk ends with that follower's cell.
pub open spec fn gwalk(
    txns: Seq<AnalyzedTransaction>,
    k: nat,
    grid: Seq<Vec<Vec<usize>>>,
    key: u64,
    ts: Seq<TxnFatId>,
    p: nat,
    end: TxnFatId,
) -> Seq<CrossShardEdge>
    decreases ts.len() - p,
{
    if p >= ts.len() {
        Seq::empty()
    } else if end.spec_lt(ts[p as int]) {
        Seq::empty()
    } else {
        let f = ts[p as int];
        let next_end = if writes(txns, f.old_txn_idx as int, key) {
            next_cell_start(f)
        } else {
            end
        };
        seq![gedge_to(grid, k, f, key)] + gwalk(txns, k, grid, key, ts, p + 1, next_end)
    }
}

/// A slot beyond every cell of a grid with `rounds` rounds of `k` shards.
pub open spec fn gend(rounds: nat, k: nat) -> TxnFatId {
    TxnFatId { round_id: rounds as usize, shard_id: k as usize, old_txn_idx: 0 }
}

/// Dependent edges of `i` for its first `h` write hints.
pub open spec fn gdependent_upto(
    txns: Seq<AnalyzedTransaction>,
    k: nat,
    grid: Seq<Vec<Vec<usize>>>,
    reg: KeyRegistry,
    i: int,
    h: nat,
) -> Seq<CrossShardEdge>
    decreases h,
{
    if h == 0 {
        Seq::empty()
    } else {
        let key = txns[i].write_hints@[h - 1];
        let prev = gdependent_upto(txns, k, grid, reg, i, (h - 1) as nat);
        if txns[i].write_hints@.take(h - 1).contains(key) {
            prev
        } else if glast_writer_in_cell(grid, reg, i, h - 1) {
            let ts = hint_touches(reg, i, h - 1);
            prev + gwalk(
                txns,
                k,
                grid,
                key,
                ts,
                count_below(ts, next_cell_start(gslot(grid, i))),
                gend(grid.len(), k),
            )
        } else {
            prev
        }
    }
}

pub open spec fn gtxn_model(
    txns: Seq<AnalyzedTransaction>,
    k: nat,
    grid: Seq<Vec<Vec<usize>>>,
    reg: KeyRegistry,
    i: int,
) -> TxnDepsView {
    TxnDepsView {
        txn_id: i as usize,
        required_edges: grequired_upto(txns, k, grid, reg, i, txns[i].hints().len()),
        dependent_edges: gdependent_upto(txns, k, grid, reg, i, txns[i].write_hints@.len()),
    }
}

pub open spec fn gsub_block(
    txns: Seq<AnalyzedTransaction>,
    k: nat,
    grid: Seq<Vec<Vec<usize>>>,
    reg: KeyRegistry,
    r: int,
    s: int,
) -> SubBlockView {
    SubBlockView {
        start_index: cells_before(grid, k, r as nat, s as nat) as usize,
        transactions: grid[r]@[s]@.map_values(|i: usize| gtxn_model(txns, k, grid, reg, i as int)),
    }
}

/// The edge builder's output for `grid`: per shard, one sub-block per round.
pub open spec fn grid_output(
    txns: Seq<AnalyzedTransaction>,
    k: nat,
    grid: Seq<Vec<Vec<usize>>>,
    reg: KeyRegistry,
) -> Seq<ShardView> {
    Seq::new(
        k,
        |s: int|
            ShardView {
                shard_id: s as usize,
                sub_blocks: Seq::new(grid.len(), |r: int| gsub_block(txns, k, grid, reg, r, s)),
            },
    )
}

/// Entries of cells up to (`r`, `s`) never outnumber the grid's total.
pub proof fn lemma_cells_before_mono(grid: Seq<Vec<Vec<usize>>>, k: nat, r: nat, s: nat, r2: nat, s2: nat)
    requires
        r < r2 || (r == r2 && s <= s2),
        s <= k,
        s2 <= k,
    ensures
        cells_before(grid, k, r, s) <= cells_before(grid, k, r2, s2),
    decreases r2, s2,
{
    if r == r2 && s == s2 {
    } else if s2 == 0 {
        lemma_cells_before_mono(grid, k, r, s, (r2 - 1) as nat, k);
    } else {
        lemma_cells_before_mono(grid, k, r, s, r2, (s2 - 1) as nat);
    }
}

/// In a well-formed grid, `place_of` finds the one place of `i`.
pub proof fn lemma_place(grid: Seq<Vec<Vec<usize>>>, n: nat, k: nat, i: int)
    requires
        grid_wf(n, k, grid),
        0 <= i < n,
    ensures
        ({
            let (r, s, p) = place_of(grid, i);
            &&& at_cell(grid, r, s, p, i)
            &&& forall|ra: int, sa: int, pa: int| #[trigger] at_cell(grid, ra, sa, pa, i) ==> ra == r && sa == s && pa == p
            &&& gslot(grid, i).round_id == r && gslot(grid, i).shard_id == s
            &&& gslot(grid, i).old_txn_idx == i
            &&& s < k
        }),
{
    assert(placed(grid, i));
    let (r, s, p) = place_of(grid, i);
    assert(at_cell(grid, r, s, p, i));
    assert(grid[r]@.len() == k);
    assert forall|ra: int, sa: int, pa: int| #[trigger] at_cell(grid, ra, sa, pa, i) implies ra == r && sa == s && pa == p by {}
}

} // verus!
