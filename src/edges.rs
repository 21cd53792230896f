//! The edge builder: dense re-indexing of a partition grid, and each
//! transaction's required and dependent cross-shard edges.
use vstd::prelude::*;
use crate::fat_id::TxnFatId;
use crate::grid::{
    at_cell, cells_before, gdependent_upto, gedge_to, gend, glast_writer_in_cell, gnew_index,
    grequired_upto, grid_output, grid_wf, gslot, gsub_block, gtxn_model, gwalk, hint_touches,
    hint_writers, lemma_cells_before_mono, lemma_place, place_of, promoted_set_matches,
    trackers_match,
};
use crate::lemmas::{fat_sorted, lemma_count_below};
use crate::model::{cell_start, count_below, last_before, next_cell_start, writes};
use crate::registry::{block_fits, KeyRegistry};
use crate::types::{
    output_view, AnalyzedTransaction, CrossShardEdge, ShardedTxnIndex, SubBlock, SubBlocksForShard,
    TransactionWithDependencies,
};

verus! {

/// Everything the edge builder reads: a well-formed grid over the block's
/// transactions, and a registry whose trackers hold exactly the grid's slots.
pub open spec fn edge_inputs_wf(
    txns: Seq<AnalyzedTransaction>,
    k: nat,
    reg: KeyRegistry,
    grid: Seq<Vec<Vec<usize>>>,
) -> bool {
    &&& block_fits(txns)
    &&& reg.locations_wf(txns, txns.len())
    &&& grid_wf(txns.len(), k, grid)
    &&& trackers_match(txns, grid, reg)
}

/// Cell starts and dense indices as computed: `starts[r][s]` is the number of
/// entries before cell (`r`, `s`), `dense[i]` the dense index of `i`.
pub open spec fn dense_wf(
    n: nat,
    k: nat,
    grid: Seq<Vec<Vec<usize>>>,
    starts: Seq<Vec<usize>>,
    dense: Seq<usize>,
) -> bool {
    &&& starts.len() == grid.len()
    &&& forall|r: int| 0 <= r < grid.len() ==> (#[trigger] starts[r])@.len() == k
    &&& forall|r: int, s: int|
        0 <= r < grid.len() && 0 <= s < k ==> #[trigger] starts[r]@[s] == cells_before(
            grid,
            k,
            r as nat,
            s as nat,
        )
    &&& dense.len() == n
    &&& forall|i: int| 0 <= i < n ==> #[trigger] dense[i] == gnew_index(grid, k, i)
}

/// Position `(ra, sa, pa)` comes before position `(r, s, p)` in the walk.
pub open spec fn walked_before(r: int, s: int, p: int, ra: int, sa: int, pa: int) -> bool {
    ra < r || (ra == r && (sa < s || (sa == s && pa < p)))
}

/// Walks the grid round-major, shard-minor, and within a cell in its order,
/// numbering the transactions densely; records each cell's first number.
fn dense_indices(
    num_txns: usize,
    num_shards: usize,
    grid: &Vec<Vec<Vec<usize>>>,
) -> (r: (Vec<Vec<usize>>, Vec<usize>))
    requires
        grid_wf(num_txns as nat, num_shards as nat, grid@),
    ensures
        dense_wf(num_txns as nat, num_shards as nat, grid@, r.0@, r.1@),
{
    let ghost n = num_txns as nat;
    let ghost k = num_shards as nat;
    let ghost g = grid@;
    let num_rounds = grid.len();
    let mut new_indices: Vec<usize> = Vec::with_capacity(num_txns);
    while new_indices.len() < num_txns
        invariant
            new_indices@.len() <= num_txns,
        decreases num_txns - new_indices@.len(),
    {
        new_indices.push(0);
    }
    let mut start_index_matrix: Vec<Vec<usize>> = Vec::with_capacity(num_rounds);
    let mut global_txn_counter: usize = 0;
    let mut round_id: usize = 0;
    while round_id < num_rounds
        invariant
            g == grid@,
            num_rounds == g.len(),
            grid_wf(n, k, g),
            n == num_txns,
            k == num_shards,
            round_id <= num_rounds,
            global_txn_counter == cells_before(g, k, round_id as nat, 0),
            new_indices@.len() == n,
            start_index_matrix@.len() == round_id,
            forall|r: int| 0 <= r < round_id ==> (#[trigger] start_index_matrix@[r])@.len() == k,
            forall|r: int, s: int|
                0 <= r < round_id && 0 <= s < k ==> #[trigger] start_index_matrix@[r]@[s]
                    == cells_before(g, k, r as nat, s as nat),
            forall|ra: int, sa: int, pa: int|
                at_cell(g, ra, sa, pa, g[ra]@[sa]@[pa] as int) && walked_before(round_id as int, 0, 0, ra, sa, pa)
                    ==> new_indices@[#[trigger] g[ra]@[sa]@[pa] as int] == cells_before(g, k, ra as nat, sa as nat) + pa,
        decreases num_rounds - round_id,
    {
        let row_cells = &grid[round_id];
        let mut row: Vec<usize> = Vec::with_capacity(num_shards);
        let mut shard_id: usize = 0;
        while shard_id < num_shards
            invariant
                g == grid@,
                num_rounds == g.len(),
                grid_wf(n, k, g),
                n == num_txns,
                k == num_shards,
                round_id < num_rounds,
                *row_cells == g[round_id as int],
                shard_id <= num_shards,
                global_txn_counter == cells_before(g, k, round_id as nat, shard_id as nat),
                new_indices@.len() == n,
                row@.len() == shard_id,
                forall|s: int| 0 <= s < shard_id ==> #[trigger] row@[s] == cells_before(g, k, round_id as nat, s as nat),
                forall|ra: int, sa: int, pa: int|
                    at_cell(g, ra, sa, pa, g[ra]@[sa]@[pa] as int) && walked_before(round_id as int, shard_id as int, 0, ra, sa, pa)
                        ==> new_indices@[#[trigger] g[ra]@[sa]@[pa] as int] == cells_before(g, k, ra as nat, sa as nat) + pa,
            decreases num_shards - shard_id,
        {
            let txn_ids = &row_cells[shard_id];
            proof {
                lemma_cells_before_mono(g, k, round_id as nat, (shard_id + 1) as nat, num_rounds as nat, 0);
            }
            assert(global_txn_counter + txn_ids@.len() <= n);
            let mut pos: usize = 0;
            while pos < txn_ids.len()
                invariant
                    g == grid@,
                    num_rounds == g.len(),
                    grid_wf(n, k, g),
                    n == num_txns,
                    k == num_shards,
                    round_id < num_rounds,
                    shard_id < num_shards,
                    *txn_ids == g[round_id as int]@[shard_id as int],
                    pos <= txn_ids@.len(),
                    global_txn_counter == cells_before(g, k, round_id as nat, shard_id as nat),
                    global_txn_counter + txn_ids@.len() <= n,
                    new_indices@.len() == n,
                    forall|ra: int, sa: int, pa: int|
                        at_cell(g, ra, sa, pa, g[ra]@[sa]@[pa] as int) && walked_before(round_id as int, shard_id as int, pos as int, ra, sa, pa)
                            ==> new_indices@[#[trigger] g[ra]@[sa]@[pa] as int] == cells_before(g, k, ra as nat, sa as nat) + pa,
                decreases txn_ids@.len() - pos,
            {
                let txn_id = txn_ids[pos];
                assert(at_cell(g, round_id as int, shard_id as int, pos as int, txn_id as int));
                let ghost before = new_indices@;
                new_indices.set(txn_id, global_txn_counter + pos);
                proof {
                    assert forall|ra: int, sa: int, pa: int|
                        at_cell(g, ra, sa, pa, g[ra]@[sa]@[pa] as int) && walked_before(round_id as int, shard_id as int, pos + 1, ra, sa, pa)
                            implies new_indices@[#[trigger] g[ra]@[sa]@[pa] as int] == cells_before(g, k, ra as nat, sa as nat) + pa by {
                        if g[ra]@[sa]@[pa] == txn_id {
                            assert(ra == round_id && sa == shard_id && pa == pos);
                        } else {
                            assert(walked_before(round_id as int, shard_id as int, pos as int, ra, sa, pa));
                        }
                    }
                }
                pos += 1;
            }
            row.push(global_txn_counter);
            global_txn_counter = global_txn_counter + txn_ids.len();
            shard_id += 1;
        }
        start_index_matrix.push(row);
        round_id += 1;
    }
    proof {
        assert forall|i: int| 0 <= i < n implies #[trigger] new_indices@[i] == gnew_index(g, k, i) by {
            lemma_place(g, n, k, i);
            let (r, s, p) = place_of(g, i);
            assert(g[r]@[s]@[p] == i);
        }
    }
    (start_index_matrix, new_indices)
}

/// Position of the first entry of the sorted `v` that is not before `x`.
fn lower_bound(v: &Vec<TxnFatId>, x: &TxnFatId) -> (r: usize)
    requires
        fat_sorted(v@),
    ensures
        r <= v@.len(),
        forall|j: int| 0 <= j < r ==> (#[trigger] v@[j]).spec_lt(*x),
        forall|j: int| r <= j < v@.len() ==> !(#[trigger] v@[j]).spec_lt(*x),
        r == count_below(v@, *x),
{
    let mut lo: usize = 0;
    let mut hi: usize = v.len();
    while lo < hi
        invariant
            hi <= v@.len(),
            lo <= hi,
            fat_sorted(v@),
            forall|j: int| 0 <= j < lo ==> (#[trigger] v@[j]).spec_lt(*x),
            forall|j: int| hi <= j < v@.len() ==> !(#[trigger] v@[j]).spec_lt(*x),
        decreases hi - lo,
    {
        let mid = lo + (hi - lo) / 2;
        if v[mid].precedes(x) {
            proof {
                assert forall|j: int| 0 <= j < mid + 1 implies (#[trigger] v@[j]).spec_lt(*x) by {
                    if j < mid {
                        assert(v@[j].spec_lt(v@[mid as int]));
                    }
                }
            }
            lo = mid + 1;
        } else {
            proof {
                assert forall|j: int| mid <= j < v@.len() implies !(#[trigger] v@[j]).spec_lt(*x) by {
                    if j > mid {
                        assert(v@[mid as int].spec_lt(v@[j]));
                    }
                }
            }
            hi = mid;
        }
    }
    proof {
        lemma_count_below(v@, *x, lo as int);
    }
    lo
}

/// The edge to the transaction in slot `f`, on location `key`.
fn make_edge(
    num_txns: usize,
    num_shards: usize,
    grid: &Vec<Vec<Vec<usize>>>,
    new_indices: &Vec<usize>,
    f: &TxnFatId,
    key: u64,
) -> (e: CrossShardEdge)
    requires
        grid_wf(num_txns as nat, num_shards as nat, grid@),
        new_indices@.len() == num_txns,
        forall|i: int| 0 <= i < num_txns ==> #[trigger] new_indices@[i] == gnew_index(grid@, num_shards as nat, i),
        f.old_txn_idx < num_txns,
    ensures
        e == gedge_to(grid@, num_shards as nat, *f, key),
{
    let txn_index = new_indices[f.old_txn_idx];
    CrossShardEdge {
        txn: ShardedTxnIndex { txn_index, shard_id: f.shard_id, round_id: f.round_id },
        location: key,
    }
}

/// Required edges of transaction `t`, in cell (`round_id`, `shard_id`): for
/// each distinct location it touches, the greatest promoted writer before the
/// start of the cell.
fn required_edges_of(
    txns: &Vec<AnalyzedTransaction>,
    num_shards: usize,
    reg: &KeyRegistry,
    grid: &Vec<Vec<Vec<usize>>>,
    new_indices: &Vec<usize>,
    t: usize,
    round_id: usize,
    shard_id: usize,
) -> (edges: Vec<CrossShardEdge>)
    requires
        edge_inputs_wf(txns@, num_shards as nat, *reg, grid@),
        new_indices@.len() == txns@.len(),
        forall|i: int| 0 <= i < txns@.len() ==> #[trigger] new_indices@[i] == gnew_index(grid@, num_shards as nat, i),
        t < txns@.len(),
        gslot(grid@, t as int).round_id == round_id,
        gslot(grid@, t as int).shard_id == shard_id,
    ensures
        edges@ == grequired_upto(txns@, num_shards as nat, grid@, *reg, t as int, txns@[t as int].hints().len()),
{
    let ghost k = num_shards as nat;
    let ghost n = txns@.len();
    let txn = &txns[t];
    assert(txn.write_hints@.len() + txn.read_hints@.len() <= usize::MAX);
    let num_hints = txn.write_hints.len() + txn.read_hints.len();
    let boundary = TxnFatId::new(round_id, shard_id, 0);
    let mut edges: Vec<CrossShardEdge> = Vec::new();
    let mut h: usize = 0;
    while h < num_hints
        invariant
            edge_inputs_wf(txns@, k, *reg, grid@),
            new_indices@.len() == n,
            forall|i: int| 0 <= i < n ==> #[trigger] new_indices@[i] == gnew_index(grid@, k, i),
            k == num_shards,
            n == txns@.len(),
            t < n,
            *txn == txns@[t as int],
            num_hints == txn.hints().len(),
            h <= num_hints,
            boundary == cell_start(gslot(grid@, t as int)),
            edges@ == grequired_upto(txns@, k, grid@, *reg, t as int, h as nat),
        decreases num_hints - h,
    {
        let loc_id = reg.location_ids[t][h];
        let key = reg.location_keys[loc_id];
        let writers = &reg.trackers[loc_id].promoted_writer_ids;
        proof {
            assert(key == txn.hints()[h as int]);
            assert(writers@ == hint_writers(*reg, t as int, h as int));
            assert(promoted_set_matches(txns@, grid@, key, writers@, true));
            lemma_repeat_by_id(txns@, *reg, t as int, h as int, txn.hints());
        }
        if !appears_earlier(&reg.location_ids[t], h) {
            let c = lower_bound(writers, &boundary);
            if c > 0 {
                let f = &writers[c - 1];
                let e = make_edge(txns.len(), num_shards, grid, new_indices, f, key);
                edges.push(e);
            }
        }
        assert(last_before(hint_writers(*reg, t as int, h as int), boundary) == last_before(writers@, boundary));
        h += 1;
    }
    edges
}

/// Whether `ids[h]` already occurs among the first `h` entries.
fn appears_earlier(ids: &Vec<usize>, h: usize) -> (r: bool)
    requires
        h < ids@.len(),
    ensures
        r == ids@.take(h as int).contains(ids@[h as int]),
{
    let mut x: usize = 0;
    while x < h
        invariant
            h < ids@.len(),
            x <= h,
            forall|y: int| 0 <= y < x ==> ids@[y] != ids@[h as int],
        decreases h - x,
    {
        if ids[x] == ids[h] {
            assert(ids@.take(h as int)[x as int] == ids@[h as int]);
            return true;
        }
        x += 1;
    }
    false
}

/// For hints of transaction `t`, repeating a location id is repeating its key.
proof fn lemma_repeat_by_id(txns: Seq<AnalyzedTransaction>, reg: KeyRegistry, t: int, h: int, ks: Seq<u64>)
    requires
        reg.locations_wf(txns, txns.len()),
        0 <= t < txns.len(),
        0 <= h < txns[t].hints().len(),
        h <= ks.len(),
        forall|x: int| 0 <= x <= h ==> ks[x] == #[trigger] txns[t].hints()[x],
    ensures
        reg.location_ids@[t]@.take(h).contains(reg.location_ids@[t]@[h]) == ks.take(h).contains(
            txns[t].hints()[h],
        ),
{
    let ids = reg.location_ids@[t]@;
    let key = txns[t].hints()[h];
    if ids.take(h).contains(ids[h]) {
        let x = choose|x: int| 0 <= x < h && ids.take(h)[x] == ids[h];
        assert(ids[x] == ids[h]);
        assert(txns[t].hints()[x] == key);
        assert(ks.take(h)[x] == key);
    }
    if ks.take(h).contains(key) {
        let x = choose|x: int| 0 <= x < h && ks.take(h)[x] == key;
        assert(txns[t].hints()[x] == key);
        let a = ids[x];
        let b = ids[h];
        assert(reg.location_keys@[a as int] == reg.location_keys@[b as int]);
        assert(a == b);
        assert(ids.take(h)[x] == ids[h]);
    }
}

/// Whether `txn` writes `key`.
fn writes_location(txn: &AnalyzedTransaction, key: u64) -> (r: bool)
    ensures
        r == txn.write_hints@.contains(key),
{
    let mut h: usize = 0;
    while h < txn.write_hints.len()
        invariant
            h <= txn.write_hints@.len(),
            forall|x: int| 0 <= x < h ==> txn.write_hints@[x] != key,
        decreases txn.write_hints@.len() - h,
    {
        if txn.write_hints[h] == key {
            return true;
        }
        h += 1;
    }
    false
}

/// Dependent edges of transaction `t`, in cell (`round_id`, `shard_id`): for
/// each distinct location it writes as the last writer of its cell, the walk
/// over the promoted touches from the next cell on.
fn dependent_edges_of(
    txns: &Vec<AnalyzedTransaction>,
    num_shards: usize,
    reg: &KeyRegistry,
    grid: &Vec<Vec<Vec<usize>>>,
    new_indices: &Vec<usize>,
    t: usize,
    round_id: usize,
    shard_id: usize,
) -> (edges: Vec<CrossShardEdge>)
    requires
        edge_inputs_wf(txns@, num_shards as nat, *reg, grid@),
        new_indices@.len() == txns@.len(),
        forall|i: int| 0 <= i < txns@.len() ==> #[trigger] new_indices@[i] == gnew_index(grid@, num_shards as nat, i),
        t < txns@.len(),
        gslot(grid@, t as int).round_id == round_id,
        gslot(grid@, t as int).shard_id == shard_id,
    ensures
        edges@ == gdependent_upto(txns@, num_shards as nat, grid@, *reg, t as int, txns@[t as int].write_hints@.len()),
{
    let ghost k = num_shards as nat;
    let ghost n = txns@.len();
    proof {
        lemma_place(grid@, n, k, t as int);
    }
    let txn = &txns[t];
    let num_writes = txn.write_hints.len();
    let first_after_mine = TxnFatId::new(round_id, shard_id, t + 1);
    let next_cell = TxnFatId::new(round_id, shard_id + 1, 0);
    let num_rounds = grid.len();
    let mut edges: Vec<CrossShardEdge> = Vec::new();
    let mut h: usize = 0;
    while h < num_writes
        invariant
            edge_inputs_wf(txns@, k, *reg, grid@),
            new_indices@.len() == n,
            forall|i: int| 0 <= i < n ==> #[trigger] new_indices@[i] == gnew_index(grid@, k, i),
            k == num_shards,
            n == txns@.len(),
            num_rounds == grid@.len(),
            t < n,
            *txn == txns@[t as int],
            num_writes == txn.write_hints@.len(),
            h <= num_writes,
            first_after_mine == (TxnFatId {
                round_id: gslot(grid@, t as int).round_id,
                shard_id: gslot(grid@, t as int).shard_id,
                old_txn_idx: (t + 1) as usize,
            }),
            next_cell == next_cell_start(gslot(grid@, t as int)),
            edges@ == gdependent_upto(txns@, k, grid@, *reg, t as int, h as nat),
        decreases num_writes - h,
    {
        let loc_id = reg.location_ids[t][h];
        let key = reg.location_keys[loc_id];
        let tracker = &reg.trackers[loc_id];
        let writers = &tracker.promoted_writer_ids;
        proof {
            assert(txn.hints()[h as int] == txn.write_hints@[h as int]);
            assert(key == txn.write_hints@[h as int]);
            assert(writers@ == hint_writers(*reg, t as int, h as int));
            assert(tracker.promoted_txn_ids@ == hint_touches(*reg, t as int, h as int));
            assert(promoted_set_matches(txns@, grid@, key, writers@, true));
            assert(promoted_set_matches(txns@, grid@, key, tracker.promoted_txn_ids@, false));
            assert forall|x: int| 0 <= x <= h implies txn.write_hints@[x] == #[trigger] txn.hints()[x] by {}
            lemma_repeat_by_id(txns@, *reg, t as int, h as int, txn.write_hints@);
        }
        if appears_earlier(&reg.location_ids[t], h) {
            h += 1;
            continue;
        }
        let c = lower_bound(writers, &first_after_mine);
        let is_last_writer_in_cur_sub_block = c == writers.len() || !writers[c].precedes(&next_cell);
        proof {
            let ws = writers@;
            if is_last_writer_in_cur_sub_block {
                assert forall|j: int| 0 <= j < ws.len() implies !(first_after_mine.spec_le(
                    #[trigger] ws[j],
                ) && ws[j].spec_lt(next_cell)) by {
                    if j > c {
                        assert(ws[c as int].spec_lt(ws[j]));
                    }
                }
            } else {
                assert(first_after_mine.spec_le(ws[c as int]) && ws[c as int].spec_lt(next_cell));
            }
            assert(is_last_writer_in_cur_sub_block == glast_writer_in_cell(grid@, *reg, t as int, h as int));
        }
        let ghost before = edges@;
        if is_last_writer_in_cur_sub_block {
            let followers = &tracker.promoted_txn_ids;
            let ghost ts = followers@;
            let start = lower_bound(followers, &next_cell);
            let mut end_id = TxnFatId::new(num_rounds, num_shards, 0);
            let mut pos: usize = start;
            while pos < followers.len()
                invariant
                    edge_inputs_wf(txns@, k, *reg, grid@),
                    new_indices@.len() == n,
                    forall|i: int| 0 <= i < n ==> #[trigger] new_indices@[i] == gnew_index(grid@, k, i),
                    k == num_shards,
                    n == txns@.len(),
                    num_rounds == grid@.len(),
                    ts == followers@,
                    promoted_set_matches(txns@, grid@, key, ts, false),
                    start <= pos <= ts.len(),
                    start == count_below(ts, next_cell),
                    edges@ + gwalk(txns@, k, grid@, key, ts, pos as nat, end_id) == before
                        + gwalk(txns@, k, grid@, key, ts, start as nat, gend(num_rounds as nat, k)),
                ensures
                    edges@ == before + gwalk(txns@, k, grid@, key, ts, start as nat, gend(num_rounds as nat, k)),
                decreases ts.len() - pos,
            {
                let follower_id = &followers[pos];
                if end_id.precedes(follower_id) {
                    assert(gwalk(txns@, k, grid@, key, ts, pos as nat, end_id) == Seq::<CrossShardEdge>::empty());
                    assert(edges@ + Seq::<CrossShardEdge>::empty() =~= edges@);
                    break;
                }
                proof {
                    lemma_place(grid@, n, k, follower_id.old_txn_idx as int);
                }
                let e = make_edge(txns.len(), num_shards, grid, new_indices, follower_id, key);
                let ghost prev_edges = edges@;
                let ghost prev_end = end_id;
                edges.push(e);
                if writes_location(&txns[follower_id.old_txn_idx], key) {
                    end_id = TxnFatId::new(follower_id.round_id, follower_id.shard_id + 1, 0);
                }
                proof {
                    assert(writes(txns@, follower_id.old_txn_idx as int, key)
                        == txns@[follower_id.old_txn_idx as int].write_hints@.contains(key));
                    assert(gwalk(txns@, k, grid@, key, ts, pos as nat, prev_end)
                        == seq![e] + gwalk(txns@, k, grid@, key, ts, (pos + 1) as nat, end_id));
                    assert(edges@ + gwalk(txns@, k, grid@, key, ts, (pos + 1) as nat, end_id)
                        =~= prev_edges + (seq![e] + gwalk(txns@, k, grid@, key, ts, (pos + 1) as nat, end_id)));
                }
                pos += 1;
            }
        } else {
            assert(edges@ =~= before);
        }
        h += 1;
    }
    edges
}

/// Builds the output from a completed grid and trackers whose promoted sets
/// hold the grid's slots: per shard, one sub-block per round, each
/// transaction with its required and dependent edges, and each sub-block with
/// the dense index of its first transaction.
pub fn add_edges(
    txns: &Vec<AnalyzedTransaction>,
    num_shards: usize,
    reg: &KeyRegistry,
    grid: &Vec<Vec<Vec<usize>>>,
) -> (r: Vec<SubBlocksForShard>)
    requires
        edge_inputs_wf(txns@, num_shards as nat, *reg, grid@),
    ensures
        output_view(r@) == grid_output(txns@, num_shards as nat, grid@, *reg),
{
    let ghost k = num_shards as nat;
    let ghost n = txns@.len();
    let num_rounds = grid.len();
    let (start_matrix, new_indices) = dense_indices(txns.len(), num_shards, grid);
    let mut ret: Vec<SubBlocksForShard> = Vec::with_capacity(num_shards);
    let mut shard_id: usize = 0;
    while shard_id < num_shards
        invariant
            edge_inputs_wf(txns@, k, *reg, grid@),
            dense_wf(n, k, grid@, start_matrix@, new_indices@),
            k == num_shards,
            n == txns@.len(),
            num_rounds == grid@.len(),
            shard_id <= num_shards,
            ret@.len() == shard_id,
            forall|s: int| 0 <= s < shard_id ==> (#[trigger] ret@[s])@ == grid_output(txns@, k, grid@, *reg)[s],
        decreases num_shards - shard_id,
    {
        let mut sub_blocks: Vec<SubBlock> = Vec::with_capacity(num_rounds);
        let mut round_id: usize = 0;
        while round_id < num_rounds
            invariant
                edge_inputs_wf(txns@, k, *reg, grid@),
                dense_wf(n, k, grid@, start_matrix@, new_indices@),
                k == num_shards,
                n == txns@.len(),
                num_rounds == grid@.len(),
                shard_id < num_shards,
                round_id <= num_rounds,
                sub_blocks@.len() == round_id,
                forall|r: int| 0 <= r < round_id ==> (#[trigger] sub_blocks@[r])@ == gsub_block(txns@, k, grid@, *reg, r, shard_id as int),
            decreases num_rounds - round_id,
        {
            let txn_ids = &grid[round_id][shard_id];
            let ghost cell_ids = txn_ids@;
            let mut twds: Vec<TransactionWithDependencies> = Vec::with_capacity(txn_ids.len());
            let mut pos: usize = 0;
            while pos < txn_ids.len()
                invariant
                    edge_inputs_wf(txns@, k, *reg, grid@),
                    dense_wf(n, k, grid@, start_matrix@, new_indices@),
                    k == num_shards,
                    n == txns@.len(),
                    num_rounds == grid@.len(),
                    shard_id < num_shards,
                    round_id < num_rounds,
                    cell_ids == grid@[round_id as int]@[shard_id as int]@,
                    txn_ids@ == cell_ids,
                    pos <= txn_ids@.len(),
                    twds@.len() == pos,
                    forall|q: int| 0 <= q < pos ==> (#[trigger] twds@[q])@ == gtxn_model(txns@, k, grid@, *reg, cell_ids[q] as int),
                decreases txn_ids@.len() - pos,
            {
                let txn_id = txn_ids[pos];
                proof {
                    assert(at_cell(grid@, round_id as int, shard_id as int, pos as int, txn_id as int));
                    lemma_place(grid@, n, k, txn_id as int);
                }
                let required_edges = required_edges_of(txns, num_shards, reg, grid, &new_indices, txn_id, round_id, shard_id);
                let dependent_edges = dependent_edges_of(txns, num_shards, reg, grid, &new_indices, txn_id, round_id, shard_id);
                twds.push(TransactionWithDependencies { txn_id, required_edges, dependent_edges });
                pos += 1;
            }
            let sub_block = SubBlock { start_index: start_matrix[round_id][shard_id], transactions: twds };
            proof {
                assert(sub_block@.transactions =~= gsub_block(txns@, k, grid@, *reg, round_id as int, shard_id as int).transactions);
            }
            sub_blocks.push(sub_block);
            round_id += 1;
        }
        let shard = SubBlocksForShard { shard_id, sub_blocks };
        proof {
            assert(shard@.sub_blocks =~= grid_output(txns@, k, grid@, *reg)[shard_id as int].sub_blocks);
        }
        ret.push(shard);
        shard_id += 1;
    }
    assert(output_view(ret@) =~= grid_output(txns@, k, grid@, *reg));
    ret
}

} // verus!
