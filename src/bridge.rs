//! The fixed two-round run seen as an instance of the general edge builder:
//! its grid is well formed, its trackers match the grid, and the builder's
//! output on it is the model's partitioning.
use vstd::prelude::*;
use crate::chunks::{chunk_start, lemma_chunk_start_mono, lemma_chunk_start_zero_and_end};
use crate::fat_id::TxnFatId;
use crate::grid::{
    at_cell, cells_before, gdependent_upto, gedge_to, gend, glast_writer_in_cell, gnew_index,
    grequired_upto, grid_output, grid_wf, gslot, gsub_block, gtxn_model, gwalk, hint_touches,
    hint_writers, lemma_place, place_of, placed, promoted_set_matches, trackers_match,
};
use crate::laws::{member_index, writer_index};
use crate::lemmas::{
    lemma_cell_entry, lemma_in_own_cell, lemma_promoted, lemma_range_where_concat,
    lemma_range_where_split, lemma_slots_where, promoted_entries_ok,
};
use crate::model::{
    cell, dependent_edges_upto, edge_to, grid_end, is_last_writer_in_cell,
    new_index, partition_model, promoted_touches, promoted_writers, range_where,
    required_edges_upto, slot, slots_where, start_index, sub_block_model, txn_model,
    walk_followers, NUM_ROUNDS,
};
use crate::registry::KeyRegistry;
use crate::types::AnalyzedTransaction;

verus! {

/// `grid` holds the model's two rounds of cells.
pub open spec fn is_model_grid(txns: Seq<AnalyzedTransaction>, k: nat, grid: Seq<Vec<Vec<usize>>>) -> bool {
    &&& grid.len() == NUM_ROUNDS
    &&& forall|r: int| 0 <= r < NUM_ROUNDS ==> (#[trigger] grid[r])@.len() == k
    &&& forall|r: int, s: int|
        0 <= r < NUM_ROUNDS && 0 <= s < k ==> (#[trigger] grid[r]@[s])@ == cell(txns, k, r as nat, s as nat)
}

proof fn lemma_model_cells_before(txns: Seq<AnalyzedTransaction>, k: nat, grid: Seq<Vec<Vec<usize>>>, r: nat, s: nat)
    requires
        0 < k <= usize::MAX,
        txns.len() < usize::MAX,
        is_model_grid(txns, k, grid),
        r < 2,
        s <= k,
    ensures
        cells_before(grid, k, r, s) == if r == 0 {
            range_where(txns, k, 0, chunk_start(txns.len(), k, s), true).len()
        } else {
            range_where(txns, k, 0, txns.len(), true).len() + if s == k {
                range_where(txns, k, 0, txns.len(), false).len()
            } else {
                0
            }
        },
    decreases r, s,
{
    let n = txns.len();
    lemma_chunk_start_zero_and_end(n, k);
    if s == 0 {
        if r == 0 {
            assert(range_where(txns, k, 0, 0, true) == Seq::<usize>::empty());
        } else {
            lemma_model_cells_before(txns, k, grid, 0, k);
        }
    } else {
        lemma_model_cells_before(txns, k, grid, r, (s - 1) as nat);
        assert(grid[r as int]@[s - 1]@ == cell(txns, k, r, (s - 1) as nat));
        if r == 0 {
            lemma_chunk_start_mono(n, k, (s - 1) as nat, s);
            lemma_chunk_start_mono(n, k, 0, (s - 1) as nat);
            lemma_range_where_concat(txns, k, 0, chunk_start(n, k, (s - 1) as nat), chunk_start(n, k, s), true);
        }
    }
}

/// The model grid's cell starts are the model's start indices, and it holds `n` entries.
pub proof fn lemma_model_starts(txns: Seq<AnalyzedTransaction>, k: nat, grid: Seq<Vec<Vec<usize>>>)
    requires
        0 < k <= usize::MAX,
        txns.len() < usize::MAX,
        is_model_grid(txns, k, grid),
    ensures
        forall|r: nat, s: nat| r < 2 && s < k ==> #[trigger] cells_before(grid, k, r, s) == start_index(txns, k, r, s),
        cells_before(grid, k, 2, 0) == txns.len(),
{
    assert forall|r: nat, s: nat| r < 2 && s < k implies #[trigger] cells_before(grid, k, r, s) == start_index(txns, k, r, s) by {
        lemma_model_cells_before(txns, k, grid, r, s);
    }
    lemma_model_cells_before(txns, k, grid, 1, k);
    lemma_range_where_split(txns, k, 0, txns.len());
}

/// The model grid is well formed; each transaction's grid slot and dense
/// index are the model's.
pub proof fn lemma_model_grid_wf(txns: Seq<AnalyzedTransaction>, k: nat, grid: Seq<Vec<Vec<usize>>>)
    requires
        0 < k <= usize::MAX,
        txns.len() < usize::MAX,
        is_model_grid(txns, k, grid),
    ensures
        grid_wf(txns.len(), k, grid),
        forall|i: int| 0 <= i < txns.len() ==> #[trigger] gslot(grid, i) == slot(txns, k, i),
        forall|i: int| 0 <= i < txns.len() ==> #[trigger] gnew_index(grid, k, i) == new_index(txns, k, i),
{
    let n = txns.len();
    lemma_model_starts(txns, k, grid);
    assert forall|r: int, s: int, p: int|
        0 <= r < grid.len() && 0 <= s < k && 0 <= p < grid[r]@[s]@.len() implies #[trigger] grid[r]@[s]@[p] < n by {
        assert(grid[r]@[s]@ == cell(txns, k, r as nat, s as nat));
        lemma_cell_entry(txns, k, r as nat, s as nat, p);
    }
    assert forall|i: int| 0 <= i < n implies #[trigger] placed(grid, i) by {
        lemma_in_own_cell(txns, k, i);
        let f = slot(txns, k, i);
        let c = cell(txns, k, f.round_id as nat, f.shard_id as nat);
        let p = choose|p: int| 0 <= p < c.len() && c[p] == i as usize;
        assert(grid[f.round_id as int]@[f.shard_id as int]@ == c);
        assert(at_cell(grid, f.round_id as int, f.shard_id as int, p, i));
    }
    assert forall|ra: int, sa: int, pa: int, rb: int, sb: int, pb: int, i: int|
        #[trigger] at_cell(grid, ra, sa, pa, i) && #[trigger] at_cell(grid, rb, sb, pb, i) implies ra == rb
            && sa == sb && pa == pb by {
        assert(grid[ra]@[sa]@ == cell(txns, k, ra as nat, sa as nat));
        assert(grid[rb]@[sb]@ == cell(txns, k, rb as nat, sb as nat));
        lemma_cell_entry(txns, k, ra as nat, sa as nat, pa);
        lemma_cell_entry(txns, k, rb as nat, sb as nat, pb);
    }
    assert(grid_wf(n, k, grid));
    assert forall|i: int| 0 <= i < n implies #[trigger] gslot(grid, i) == slot(txns, k, i) && gnew_index(grid, k, i) == new_index(txns, k, i) by {
        lemma_place(grid, n, k, i);
        let (r, s, p) = place_of(grid, i);
        assert(grid[r]@[s]@ == cell(txns, k, r as nat, s as nat));
        lemma_cell_entry(txns, k, r as nat, s as nat, p);
    }
    assert forall|i: int| 0 <= i < n implies #[trigger] gnew_index(grid, k, i) == new_index(txns, k, i) by {
        assert(gslot(grid, i) == slot(txns, k, i));
    }
}

/// After the catch-all, the trackers hold exactly the model grid's slots.
pub proof fn lemma_model_trackers(
    txns: Seq<AnalyzedTransaction>,
    k: nat,
    grid: Seq<Vec<Vec<usize>>>,
    reg: KeyRegistry,
)
    requires
        0 < k <= usize::MAX,
        txns.len() < usize::MAX,
        is_model_grid(txns, k, grid),
        reg.trackers_at(txns, k, txns.len(), txns.len()),
    ensures
        trackers_match(txns, grid, reg),
{
    let n = txns.len();
    lemma_model_grid_wf(txns, k, grid);
    assert forall|id: int| 0 <= id < reg.trackers@.len() implies {
        let t = #[trigger] reg.trackers@[id];
        let key = reg.location_keys@[id];
        &&& promoted_set_matches(txns, grid, key, t.promoted_writer_ids@, true)
        &&& promoted_set_matches(txns, grid, key, t.promoted_txn_ids@, false)
    } by {
        let key = reg.location_keys@[id];
        let t = reg.trackers@[id];
        lemma_promoted(txns, k, key);
        let ws = promoted_writers(txns, k, key);
        let ts = promoted_touches(txns, k, key);
        assert(t.promoted_writer_ids@ == ws);
        assert(t.promoted_txn_ids@ == ts);
        lemma_slots_where(txns, k, key, n, true, true);
        lemma_slots_where(txns, k, key, n, false, true);
        lemma_slots_where(txns, k, key, n, true, false);
        lemma_slots_where(txns, k, key, n, false, false);
        let wa = slots_where(txns, k, key, n, true, true);
        let wb = slots_where(txns, k, key, n, false, true);
        let ta = slots_where(txns, k, key, n, true, false);
        let tb = slots_where(txns, k, key, n, false, false);
        assert forall|j: int| 0 <= j < ws.len() implies crate::model::writes(txns, (#[trigger] ws[j]).old_txn_idx as int, key) by {
            if j < wa.len() {
                assert(ws[j] == wa[j]);
            } else {
                assert(ws[j] == wb[j - wa.len()]);
            }
        }
        assert forall|j: int| 0 <= j < ts.len() implies crate::model::touches(txns, (#[trigger] ts[j]).old_txn_idx as int, key) by {
            if j < ta.len() {
                assert(ts[j] == ta[j]);
            } else {
                assert(ts[j] == tb[j - ta.len()]);
            }
        }
        assert forall|i: int| 0 <= i < n && crate::model::writes(txns, i, key) implies ws.contains(#[trigger] gslot(grid, i)) by {
            let y = writer_index(txns, k, key, i);
        }
        assert forall|i: int| 0 <= i < n && crate::model::touches(txns, i, key) implies ts.contains(#[trigger] gslot(grid, i)) by {
            let y = member_index(txns, k, key, i);
        }
    }
}

proof fn lemma_walk_same(
    txns: Seq<AnalyzedTransaction>,
    k: nat,
    grid: Seq<Vec<Vec<usize>>>,
    key: u64,
    ts: Seq<TxnFatId>,
    p: nat,
    end: TxnFatId,
)
    requires
        forall|j: int| 0 <= j < ts.len() ==> gnew_index(grid, k, (#[trigger] ts[j]).old_txn_idx as int) == new_index(txns, k, ts[j].old_txn_idx as int),
    ensures
        gwalk(txns, k, grid, key, ts, p, end) == walk_followers(txns, k, key, ts, p, end),
    decreases ts.len() - p,
{
    if p < ts.len() && !end.spec_lt(ts[p as int]) {
        let f = ts[p as int];
        let next_end = if crate::model::writes(txns, f.old_txn_idx as int, key) {
            crate::model::next_cell_start(f)
        } else {
            end
        };
        lemma_walk_same(txns, k, grid, key, ts, p + 1, next_end);
        assert(gedge_to(grid, k, f, key) == edge_to(txns, k, f, key));
    }
}

/// On the model grid, each transaction's edges are the model's.
proof fn lemma_model_txn(
    txns: Seq<AnalyzedTransaction>,
    k: nat,
    grid: Seq<Vec<Vec<usize>>>,
    reg: KeyRegistry,
    i: int,
)
    requires
        0 < k <= usize::MAX,
        txns.len() < usize::MAX,
        is_model_grid(txns, k, grid),
        reg.locations_wf(txns, txns.len()),
        reg.trackers_at(txns, k, txns.len(), txns.len()),
        0 <= i < txns.len(),
    ensures
        gtxn_model(txns, k, grid, reg, i) == txn_model(txns, k, i),
{
    let n = txns.len();
    lemma_model_grid_wf(txns, k, grid);
    let hs = txns[i].hints();
    assert forall|h: int| 0 <= h < hs.len() implies #[trigger] hint_writers(reg, i, h) == promoted_writers(txns, k, hs[h])
        && hint_touches(reg, i, h) == promoted_touches(txns, k, hs[h]) && promoted_entries_ok(txns, k, hint_touches(reg, i, h))
        && promoted_entries_ok(txns, k, hint_writers(reg, i, h)) by {
        let id = reg.location_ids@[i]@[h];
        assert(reg.location_keys@[id as int] == hs[h]);
        assert(reg.trackers@[id as int].promoted_writer_ids@ == promoted_writers(txns, k, hs[h]));
        lemma_promoted(txns, k, hs[h]);
    }
    assert forall|h: nat| h <= hs.len() implies #[trigger] grequired_upto(txns, k, grid, reg, i, h) == required_edges_upto(txns, k, i, h) by {
        lemma_required_same(txns, k, grid, reg, i, h);
    }
    let ws = txns[i].write_hints@;
    assert forall|h: nat| h <= ws.len() implies #[trigger] gdependent_upto(txns, k, grid, reg, i, h) == dependent_edges_upto(txns, k, i, h) by {
        lemma_dependent_same(txns, k, grid, reg, i, h);
    }
}

proof fn lemma_required_same(
    txns: Seq<AnalyzedTransaction>,
    k: nat,
    grid: Seq<Vec<Vec<usize>>>,
    reg: KeyRegistry,
    i: int,
    h: nat,
)
    requires
        0 < k <= usize::MAX,
        txns.len() < usize::MAX,
        grid_wf(txns.len(), k, grid),
        forall|x: int| 0 <= x < txns.len() ==> #[trigger] gslot(grid, x) == slot(txns, k, x),
        forall|x: int| 0 <= x < txns.len() ==> #[trigger] gnew_index(grid, k, x) == new_index(txns, k, x),
        0 <= i < txns.len(),
        h <= txns[i].hints().len(),
        forall|x: int| 0 <= x < txns[i].hints().len() ==> #[trigger] hint_writers(reg, i, x) == promoted_writers(txns, k, txns[i].hints()[x])
            && hint_touches(reg, i, x) == promoted_touches(txns, k, txns[i].hints()[x]) && promoted_entries_ok(txns, k, hint_touches(reg, i, x))
            && promoted_entries_ok(txns, k, hint_writers(reg, i, x)),
    ensures
        grequired_upto(txns, k, grid, reg, i, h) == required_edges_upto(txns, k, i, h),
    decreases h,
{
    if h > 0 {
        lemma_required_same(txns, k, grid, reg, i, (h - 1) as nat);
        let key = txns[i].hints()[h - 1];
        let ws = hint_writers(reg, i, h - 1);
        assert(ws == promoted_writers(txns, k, key));
        let x = crate::model::cell_start(slot(txns, k, i));
        match crate::model::last_before(ws, x) {
            Some(w) => {
                crate::lemmas::lemma_count_below_sorted(ws, x);
                let c = crate::model::count_below(ws, x);
                assert(w == ws[c - 1]);
                assert(gedge_to(grid, k, w, key) == edge_to(txns, k, w, key));
            },
            None => {},
        }
    }
}

proof fn lemma_dependent_same(
    txns: Seq<AnalyzedTransaction>,
    k: nat,
    grid: Seq<Vec<Vec<usize>>>,
    reg: KeyRegistry,
    i: int,
    h: nat,
)
    requires
        0 < k <= usize::MAX,
        txns.len() < usize::MAX,
        grid.len() == NUM_ROUNDS,
        grid_wf(txns.len(), k, grid),
        forall|x: int| 0 <= x < txns.len() ==> #[trigger] gslot(grid, x) == slot(txns, k, x),
        forall|x: int| 0 <= x < txns.len() ==> #[trigger] gnew_index(grid, k, x) == new_index(txns, k, x),
        0 <= i < txns.len(),
        h <= txns[i].write_hints@.len(),
        forall|x: int| 0 <= x < txns[i].hints().len() ==> #[trigger] hint_writers(reg, i, x) == promoted_writers(txns, k, txns[i].hints()[x])
            && hint_touches(reg, i, x) == promoted_touches(txns, k, txns[i].hints()[x]) && promoted_entries_ok(txns, k, hint_touches(reg, i, x))
            && promoted_entries_ok(txns, k, hint_writers(reg, i, x)),
    ensures
        gdependent_upto(txns, k, grid, reg, i, h) == dependent_edges_upto(txns, k, i, h),
    decreases h,
{
    if h > 0 {
        lemma_dependent_same(txns, k, grid, reg, i, (h - 1) as nat);
        let key = txns[i].write_hints@[h - 1];
        assert(txns[i].hints()[h - 1] == key);
        assert(hint_writers(reg, i, h - 1) == promoted_writers(txns, k, key));
        let ts = hint_touches(reg, i, h - 1);
        assert(ts == promoted_touches(txns, k, key));
        assert(glast_writer_in_cell(grid, reg, i, h - 1) == is_last_writer_in_cell(txns, k, i, key));
        assert forall|j: int| 0 <= j < ts.len() implies gnew_index(grid, k, (#[trigger] ts[j]).old_txn_idx as int) == new_index(txns, k, ts[j].old_txn_idx as int) by {}
        lemma_walk_same(txns, k, grid, key, ts, crate::model::count_below(ts, crate::model::next_cell_start(slot(txns, k, i))), gend(2, k));
        assert(gend(grid.len(), k) == grid_end(k));
    }
}

/// On the model grid with the trackers after the catch-all, the edge
/// builder's output is the model's partitioning.
pub proof fn lemma_model_output(
    txns: Seq<AnalyzedTransaction>,
    k: nat,
    grid: Seq<Vec<Vec<usize>>>,
    reg: KeyRegistry,
)
    requires
        0 < k <= usize::MAX,
        txns.len() < usize::MAX,
        is_model_grid(txns, k, grid),
        reg.locations_wf(txns, txns.len()),
        reg.trackers_at(txns, k, txns.len(), txns.len()),
    ensures
        grid_output(txns, k, grid, reg) == partition_model(txns, k),
{
    let n = txns.len();
    lemma_model_starts(txns, k, grid);
    lemma_model_grid_wf(txns, k, grid);
    assert forall|r: int, s: int| 0 <= r < 2 && 0 <= s < k implies #[trigger] gsub_block(txns, k, grid, reg, r, s) == sub_block_model(txns, k, r as nat, s as nat) by {
        assert(cells_before(grid, k, r as nat, s as nat) == start_index(txns, k, r as nat, s as nat));
        let c = cell(txns, k, r as nat, s as nat);
        assert(grid[r]@[s]@ == c);
        assert forall|q: int| 0 <= q < c.len() implies gtxn_model(txns, k, grid, reg, #[trigger] c[q] as int) == txn_model(txns, k, c[q] as int) by {
            lemma_cell_entry(txns, k, r as nat, s as nat, q);
            lemma_model_txn(txns, k, grid, reg, c[q] as int);
        }
        assert(gsub_block(txns, k, grid, reg, r, s).transactions =~= sub_block_model(txns, k, r as nat, s as nat).transactions);
    }
    assert forall|s: int| 0 <= s < k implies #[trigger] grid_output(txns, k, grid, reg)[s] == partition_model(txns, k)[s] by {
        assert(gsub_block(txns, k, grid, reg, 0, s) == sub_block_model(txns, k, 0, s as nat));
        assert(gsub_block(txns, k, grid, reg, 1, s) == sub_block_model(txns, k, 1, s as nat));
        assert(grid_output(txns, k, grid, reg)[s].sub_blocks =~= partition_model(txns, k)[s].sub_blocks);
    }
    assert(grid_output(txns, k, grid, reg) =~= partition_model(txns, k));
}

} // verus!
