//! Properties of the partitioning, stated over the model that `partition` is
//! proved to compute.
use vstd::prelude::*;
use crate::chunks::{lemma_shard_of, lemma_shard_of_mono};
use crate::lemmas::{
    lemma_cell_entry, lemma_count_below_sorted, lemma_in_own_cell, lemma_promoted,
    lemma_slots_where, lemma_slots_where_contains,
};
use crate::fat_id::TxnFatId;
use crate::model::{
    range_where,
    dependent_edges, dependent_edges_upto, dependents_on, is_last_writer_in_cell, edge_to, grid_end, next_cell_start,
    promoted_touches, walk_followers,
    accepted, cell, cell_start, conflicts, count_below, new_index, partition_model, promoted_writers,
    required_edges, required_edges_upto, required_source, slot, slots_where, touches, writes,
};
use crate::types::{output_view, AnalyzedTransaction, CrossShardEdge, SubBlocksForShard};

verus! {

/// Original index `t` sits at some position of some cell of the grid.
pub open spec fn is_scheduled(txns: Seq<AnalyzedTransaction>, k: nat, t: int) -> bool {
    exists|r: nat, s: nat, p: int|
        r < 2 && s < k && 0 <= p < cell(txns, k, r, s).len() && #[trigger] cell(txns, k, r, s)[p]
            == t
}

/// Every original index is scheduled in exactly one (round, shard) cell, at
/// exactly one position, and the cells hold nothing else.
pub proof fn lemma_partition_completeness(txns: Seq<AnalyzedTransaction>, k: nat)
    requires
        0 < k <= usize::MAX,
        txns.len() < usize::MAX,
    ensures
        forall|t: int| 0 <= t < txns.len() ==> #[trigger] is_scheduled(txns, k, t),
        forall|r: nat, s: nat, p: int|
            r < 2 && s < k && 0 <= p < cell(txns, k, r, s).len() ==> #[trigger] cell(
                txns,
                k,
                r,
                s,
            )[p] < txns.len(),
        forall|ra: nat, sa: nat, pa: int, rb: nat, sb: nat, pb: int|
            ra < 2 && sa < k && 0 <= pa < cell(txns, k, ra, sa).len() && rb < 2 && sb < k && 0
                <= pb < cell(txns, k, rb, sb).len() && #[trigger] cell(txns, k, ra, sa)[pa]
                == #[trigger] cell(txns, k, rb, sb)[pb] ==> ra == rb && sa == sb && pa == pb,
{
    let n = txns.len();
    assert forall|t: int| 0 <= t < n implies #[trigger] is_scheduled(txns, k, t) by {
        lemma_in_own_cell(txns, k, t);
        let f = slot(txns, k, t);
        let c = cell(txns, k, f.round_id as nat, f.shard_id as nat);
        let p = choose|p: int| 0 <= p < c.len() && c[p] == t as usize;
        assert(cell(txns, k, f.round_id as nat, f.shard_id as nat)[p] == t);
    }
    assert forall|r: nat, s: nat, p: int|
        r < 2 && s < k && 0 <= p < cell(txns, k, r, s).len() implies #[trigger] cell(
            txns,
            k,
            r,
            s,
        )[p] < n by {
        lemma_cell_entry(txns, k, r, s, p);
    }
    assert forall|ra: nat, sa: nat, pa: int, rb: nat, sb: nat, pb: int|
        ra < 2 && sa < k && 0 <= pa < cell(txns, k, ra, sa).len() && rb < 2 && sb < k && 0 <= pb
            < cell(txns, k, rb, sb).len() && #[trigger] cell(txns, k, ra, sa)[pa]
            == #[trigger] cell(txns, k, rb, sb)[pb] implies ra == rb && sa == sb && pa == pb by {
        lemma_cell_entry(txns, k, ra, sa, pa);
        lemma_cell_entry(txns, k, rb, sb, pb);
    }
}

/// Each sender's transactions keep their order: of two transactions from the
/// same sender, the earlier one gets the strictly earlier slot.
pub proof fn lemma_sender_order(txns: Seq<AnalyzedTransaction>, k: nat, i: int, j: int)
    requires
        0 < k <= usize::MAX,
        txns.len() < usize::MAX,
        0 <= i < j < txns.len(),
        txns[i].sender == txns[j].sender,
    ensures
        slot(txns, k, i).spec_lt(slot(txns, k, j)),
{
    let n = txns.len();
    lemma_shard_of(n, k, i as nat);
    lemma_shard_of(n, k, j as nat);
    if accepted(txns, k, j) {
        assert(accepted(txns, k, i)) by {
            assert forall|x: int| 0 <= x <= i && txns[x].sender == txns[i].sender implies !#[trigger] conflicts(txns, k, x) by {
                assert(0 <= x <= j && txns[x].sender == txns[j].sender);
            }
        }
        lemma_shard_of_mono(n, k, i as nat, j as nat);
    }
}

/// Edge `e` of transaction `b` points at transaction `a`, a writer of the
/// edge's location that `b` touches, scheduled in a strictly earlier cell.
pub open spec fn edge_points_at(
    txns: Seq<AnalyzedTransaction>,
    k: nat,
    b: int,
    e: CrossShardEdge,
    a: int,
) -> bool {
    &&& 0 <= a < txns.len()
    &&& writes(txns, a, e.location)
    &&& touches(txns, b, e.location)
    &&& e.txn.txn_index == new_index(txns, k, a)
    &&& e.txn.round_id == slot(txns, k, a).round_id
    &&& e.txn.shard_id == slot(txns, k, a).shard_id
    &&& slot(txns, k, a).cell_lt(slot(txns, k, b))
}

/// No writer of `e`'s location lies after `a` and still in a cell before `b`'s.
pub open spec fn no_closer_writer(
    txns: Seq<AnalyzedTransaction>,
    k: nat,
    b: int,
    e: CrossShardEdge,
    a: int,
) -> bool {
    forall|w: int|
        0 <= w < txns.len() && #[trigger] writes(txns, w, e.location) && slot(txns, k, a).spec_lt(
            slot(txns, k, w),
        ) ==> !slot(txns, k, w).cell_lt(slot(txns, k, b))
}

/// Soundness and minimality of the required edges of `b`'s first `h` hints.
proof fn lemma_required_edges_upto(txns: Seq<AnalyzedTransaction>, k: nat, b: int, h: nat, q: int)
    requires
        0 < k <= usize::MAX,
        txns.len() < usize::MAX,
        0 <= b < txns.len(),
        h <= txns[b].hints().len(),
        0 <= q < required_edges_upto(txns, k, b, h).len(),
    ensures
        exists|a: int|
            #[trigger] edge_points_at(txns, k, b, required_edges_upto(txns, k, b, h)[q], a)
                && no_closer_writer(txns, k, b, required_edges_upto(txns, k, b, h)[q], a),
    decreases h,
{
    let prev = required_edges_upto(txns, k, b, (h - 1) as nat);
    if q < prev.len() {
        lemma_required_edges_upto(txns, k, b, (h - 1) as nat, q);
        let a = choose|a: int|
            #[trigger] edge_points_at(txns, k, b, prev[q], a) && no_closer_writer(
                txns,
                k,
                b,
                prev[q],
                a,
            );
        assert(required_edges_upto(txns, k, b, h)[q] == prev[q]);
        assert(edge_points_at(txns, k, b, required_edges_upto(txns, k, b, h)[q], a));
    } else {
        let key = txns[b].hints()[h - 1];
        let ws = promoted_writers(txns, k, key);
        let x = cell_start(slot(txns, k, b));
        lemma_promoted(txns, k, key);
        lemma_count_below_sorted(ws, x);
        let c = count_below(ws, x);
        assert(required_source(txns, k, b, key) == Some(ws[c - 1]));
        let f = ws[c - 1];
        let a = f.old_txn_idx as int;
        let e = required_edges_upto(txns, k, b, h)[q];
        assert(e == crate::model::edge_to(txns, k, f, key));
        let n = txns.len();
        lemma_slots_where(txns, k, key, n, true, true);
        lemma_slots_where(txns, k, key, n, false, true);
        let wa = slots_where(txns, k, key, n, true, true);
        let wb = slots_where(txns, k, key, n, false, true);
        assert(writes(txns, a, key)) by {
            if c - 1 < wa.len() {
                assert(ws[c - 1] == wa[c - 1]);
            } else {
                assert(ws[c - 1] == wb[c - 1 - wa.len()]);
            }
        }
        assert(touches(txns, b, key)) by {
            assert(txns[b].hints()[h - 1] == key);
        }
        assert forall|w: int|
            0 <= w < n && #[trigger] writes(txns, w, key) && slot(txns, k, a).spec_lt(
                slot(txns, k, w),
            ) implies !slot(txns, k, w).cell_lt(slot(txns, k, b)) by {
            if slot(txns, k, w).cell_lt(slot(txns, k, b)) {
                lemma_in_own_cell(txns, k, w);
                let y = if accepted(txns, k, w) {
                    lemma_slots_where_contains(txns, k, key, n, true, true, w);
                    choose|y: int| 0 <= y < wa.len() && wa[y] == slot(txns, k, w)
                } else {
                    lemma_slots_where_contains(txns, k, key, n, false, true, w);
                    let y0 = choose|y: int| 0 <= y < wb.len() && wb[y] == slot(txns, k, w);
                    y0 + wa.len()
                };
                assert(ws[y] == slot(txns, k, w));
                assert(ws[y].spec_lt(x));
                if y < c - 1 {
                    assert(ws[y].spec_lt(ws[c - 1]));
                }
            }
        }
        crate::lemmas::lemma_new_index_bound(txns, k, a);
        assert(f == slot(txns, k, a));
        assert(f.spec_lt(x));
        assert(edge_points_at(txns, k, b, e, a));
    }
}

/// Edge soundness: every required edge of `b` points at a writer of the edge's
/// location, which `b` also touches, scheduled in a strictly earlier cell.
pub proof fn lemma_required_edge_sound(txns: Seq<AnalyzedTransaction>, k: nat, b: int, q: int)
    requires
        0 < k <= usize::MAX,
        txns.len() < usize::MAX,
        0 <= b < txns.len(),
        0 <= q < required_edges(txns, k, b).len(),
    ensures
        exists|a: int| #[trigger] edge_points_at(txns, k, b, required_edges(txns, k, b)[q], a),
{
    lemma_required_edges_upto(txns, k, b, txns[b].hints().len(), q);
}

/// Edge minimality: the writer a required edge points at is the closest one:
/// no other writer of the location lies after it and still in a cell before `b`'s.
pub proof fn lemma_required_edge_minimal(txns: Seq<AnalyzedTransaction>, k: nat, b: int, q: int)
    requires
        0 < k <= usize::MAX,
        txns.len() < usize::MAX,
        0 <= b < txns.len(),
        0 <= q < required_edges(txns, k, b).len(),
    ensures
        exists|a: int|
            #[trigger] edge_points_at(txns, k, b, required_edges(txns, k, b)[q], a)
                && no_closer_writer(txns, k, b, required_edges(txns, k, b)[q], a),
{
    lemma_required_edges_upto(txns, k, b, txns[b].hints().len(), q);
}

/// Partitioning is deterministic: two results that both meet `partition`'s
/// contract for the same block and shard count are identical.
pub proof fn lemma_partition_deterministic(
    txns: Seq<AnalyzedTransaction>,
    k: nat,
    first: Seq<SubBlocksForShard>,
    second: Seq<SubBlocksForShard>,
)
    requires
        output_view(first) == partition_model(txns, k),
        output_view(second) == partition_model(txns, k),
    ensures
        output_view(first) == output_view(second),
        first.len() == second.len(),
{
    assert(first.len() == output_view(first).len());
}

/// Each edge of a walk goes to some touch at or after the walk's start.
proof fn lemma_walk_entry(
    txns: Seq<AnalyzedTransaction>,
    k: nat,
    key: u64,
    ts: Seq<TxnFatId>,
    p: nat,
    end: TxnFatId,
    j: int,
)
    requires
        0 <= j < walk_followers(txns, k, key, ts, p, end).len(),
    ensures
        exists|y: int|
            p <= y < ts.len() && #[trigger] edge_to(txns, k, ts[y], key) == walk_followers(
                txns,
                k,
                key,
                ts,
                p,
                end,
            )[j],
    decreases ts.len() - p,
{
    let f = ts[p as int];
    let next_end = if writes(txns, f.old_txn_idx as int, key) {
        next_cell_start(f)
    } else {
        end
    };
    let rest = walk_followers(txns, k, key, ts, p + 1, next_end);
    if j == 0 {
        assert(edge_to(txns, k, ts[p as int], key) == walk_followers(txns, k, key, ts, p, end)[j]);
    } else {
        lemma_walk_entry(txns, k, key, ts, p + 1, next_end, j - 1);
        let y = choose|y: int|
            p + 1 <= y < ts.len() && #[trigger] edge_to(txns, k, ts[y], key) == rest[j - 1];
        assert(edge_to(txns, k, ts[y], key) == walk_followers(txns, k, key, ts, p, end)[j]);
    }
}

/// Soundness of the dependent edges of `a`'s first `h` write hints.
proof fn lemma_dependent_edges_upto(txns: Seq<AnalyzedTransaction>, k: nat, a: int, h: nat, q: int)
    requires
        0 < k <= usize::MAX,
        txns.len() < usize::MAX,
        0 <= a < txns.len(),
        h <= txns[a].write_hints@.len(),
        0 <= q < dependent_edges_upto(txns, k, a, h).len(),
    ensures
        exists|b: int| #[trigger] edge_waits_for(txns, k, a, dependent_edges_upto(txns, k, a, h)[q], b),
    decreases h,
{
    let key = txns[a].write_hints@[h - 1];
    let prev = dependent_edges_upto(txns, k, a, (h - 1) as nat);
    if q < prev.len() {
        lemma_dependent_edges_upto(txns, k, a, (h - 1) as nat, q);
        let b = choose|b: int| #[trigger] edge_waits_for(txns, k, a, prev[q], b);
        assert(dependent_edges_upto(txns, k, a, h)[q] == prev[q]);
        assert(edge_waits_for(txns, k, a, dependent_edges_upto(txns, k, a, h)[q], b));
    } else {
        let n = txns.len();
        let ts = promoted_touches(txns, k, key);
        let ncs = next_cell_start(slot(txns, k, a));
        let p0 = count_below(ts, ncs);
        let walk = walk_followers(txns, k, key, ts, p0, grid_end(k));
        assert(dependents_on(txns, k, a, key) == walk);
        assert(dependent_edges_upto(txns, k, a, h) == prev + walk);
        let j = q - prev.len();
        assert(dependent_edges_upto(txns, k, a, h)[q] == walk[j]);
        lemma_walk_entry(txns, k, key, ts, p0, grid_end(k), j);
        let y = choose|y: int|
            p0 <= y < ts.len() && #[trigger] edge_to(txns, k, ts[y], key) == walk[j];
        lemma_promoted(txns, k, key);
        lemma_count_below_sorted(ts, ncs);
        let f = ts[y];
        let b = f.old_txn_idx as int;
        lemma_slots_where(txns, k, key, n, true, false);
        lemma_slots_where(txns, k, key, n, false, false);
        let ta = slots_where(txns, k, key, n, true, false);
        let tb = slots_where(txns, k, key, n, false, false);
        assert(touches(txns, b, key)) by {
            if y < ta.len() {
                assert(ts[y] == ta[y]);
            } else {
                assert(ts[y] == tb[y - ta.len()]);
            }
        }
        assert(writes(txns, a, key)) by {
            assert(txns[a].write_hints@[h - 1] == key);
        }
        crate::lemmas::lemma_new_index_bound(txns, k, b);
        assert(f == slot(txns, k, b));
        assert(!f.spec_lt(ncs));
        lemma_in_own_cell(txns, k, a);
        assert(slot(txns, k, a).cell_lt(f));
        assert(walk[j] == edge_to(txns, k, f, key));
        assert(edge_waits_for(txns, k, a, walk[j], b));
    }
}

/// Edge `e`, a dependent edge of transaction `a`, points at transaction `b`,
/// which touches the edge's location written by `a`, in a strictly later cell.
pub open spec fn edge_waits_for(
    txns: Seq<AnalyzedTransaction>,
    k: nat,
    a: int,
    e: CrossShardEdge,
    b: int,
) -> bool {
    &&& 0 <= b < txns.len()
    &&& writes(txns, a, e.location)
    &&& touches(txns, b, e.location)
    &&& e.txn.txn_index == new_index(txns, k, b)
    &&& e.txn.round_id == slot(txns, k, b).round_id
    &&& e.txn.shard_id == slot(txns, k, b).shard_id
    &&& slot(txns, k, a).cell_lt(slot(txns, k, b))
}

/// Every dependent edge of `a` points at a transaction that touches the edge's
/// location, which `a` writes, and that is scheduled in a strictly later cell.
pub proof fn lemma_dependent_edge_sound(txns: Seq<AnalyzedTransaction>, k: nat, a: int, q: int)
    requires
        0 < k <= usize::MAX,
        txns.len() < usize::MAX,
        0 <= a < txns.len(),
        0 <= q < dependent_edges(txns, k, a).len(),
    ensures
        exists|b: int| #[trigger] edge_waits_for(txns, k, a, dependent_edges(txns, k, a)[q], b),
{
    lemma_dependent_edges_upto(txns, k, a, txns[a].write_hints@.len(), q);
}

/// No writer of `key` is scheduled in a cell strictly between the cells of
/// slots `f` and `g`.
pub open spec fn no_writer_between(
    txns: Seq<AnalyzedTransaction>,
    k: nat,
    key: u64,
    f: TxnFatId,
    g: TxnFatId,
) -> bool {
    forall|w: int|
        0 <= w < txns.len() && #[trigger] writes(txns, w, key) ==> !(f.cell_lt(slot(txns, k, w))
            && slot(txns, k, w).cell_lt(g))
}

/// Edges to the entries of `ts` from position `p` on that have no writer of
/// `key` in a cell strictly between theirs and the cell of `f`.
pub open spec fn followers_from(
    txns: Seq<AnalyzedTransaction>,
    k: nat,
    key: u64,
    ts: Seq<TxnFatId>,
    p: nat,
    f: TxnFatId,
) -> Seq<CrossShardEdge>
    decreases ts.len() - p,
{
    if p >= ts.len() {
        Seq::empty()
    } else {
        let rest = followers_from(txns, k, key, ts, p + 1, f);
        if no_writer_between(txns, k, key, f, ts[p as int]) {
            seq![edge_to(txns, k, ts[p as int], key)] + rest
        } else {
            rest
        }
    }
}

/// No slot is the start of the cell after another slot's cell: the only
/// transaction that could sit at original index 0 of a cell is transaction 0,
/// and it is in the first cell of round 0 or in the catch-all cell.
proof fn lemma_not_next_cell_start(txns: Seq<AnalyzedTransaction>, k: nat, t: int, u: int)
    requires
        0 < k <= usize::MAX,
        txns.len() < usize::MAX,
        0 <= t < txns.len(),
        0 <= u < txns.len(),
    ensures
        slot(txns, k, t) != next_cell_start(slot(txns, k, u)),
{
    let n = txns.len();
    lemma_in_own_cell(txns, k, t);
    lemma_in_own_cell(txns, k, u);
    if t == 0 && accepted(txns, k, 0) {
        crate::chunks::lemma_chunk_start_zero_and_end(n, k);
        crate::chunks::lemma_chunk_step(n, k, 0);
        assert(crate::chunks::in_chunk(n, k, 0, 0)) by {
            vstd::arithmetic::div_mod::lemma_fundamental_div_mod(n as int, k as int);
            if n / k == 0 {
                assert(n % k > 0);
            }
        }
        lemma_shard_of(n, k, 0);
    }
}

/// Nothing follows once every remaining entry has a writer strictly between.
proof fn lemma_followers_none(
    txns: Seq<AnalyzedTransaction>,
    k: nat,
    key: u64,
    ts: Seq<TxnFatId>,
    p: nat,
    f: TxnFatId,
)
    requires
        forall|y: int| p <= y < ts.len() ==> !no_writer_between(txns, k, key, f, #[trigger] ts[y]),
    ensures
        followers_from(txns, k, key, ts, p, f) == Seq::<CrossShardEdge>::empty(),
    decreases ts.len() - p,
{
    if p < ts.len() {
        lemma_followers_none(txns, k, key, ts, p + 1, f);
    }
}

/// The walk state at position `p`: no writer seen yet and no bound, or the
/// bound is the end of the cell of the first writer seen, and every entry
/// seen since that writer shares its cell.
pub open spec fn walk_state(
    txns: Seq<AnalyzedTransaction>,
    k: nat,
    key: u64,
    ts: Seq<TxnFatId>,
    p0: nat,
    p: nat,
    end: TxnFatId,
) -> bool {
    ||| (forall|y: int| p0 <= y < p ==> !writes(txns, (#[trigger] ts[y]).old_txn_idx as int, key))
        && end == grid_end(k)
    ||| exists|y1: int|
        p0 <= y1 < p && writes(txns, ts[y1].old_txn_idx as int, key) && (forall|y: int|
            p0 <= y < y1 ==> !writes(txns, (#[trigger] ts[y]).old_txn_idx as int, key)) && end
            == next_cell_start(ts[y1]) && (forall|y: int|
            y1 <= y < p ==> (#[trigger] ts[y]).round_id == ts[y1].round_id && ts[y].shard_id
                == ts[y1].shard_id)
}

proof fn lemma_walk_is_followers(
    txns: Seq<AnalyzedTransaction>,
    k: nat,
    key: u64,
    a: int,
    p: nat,
    end: TxnFatId,
)
    requires
        0 < k <= usize::MAX,
        txns.len() < usize::MAX,
        0 <= a < txns.len(),
        count_below(
            promoted_touches(txns, k, key),
            next_cell_start(slot(txns, k, a)),
        ) <= p <= promoted_touches(txns, k, key).len(),
        walk_state(
            txns,
            k,
            key,
            promoted_touches(txns, k, key),
            count_below(promoted_touches(txns, k, key), next_cell_start(slot(txns, k, a))),
            p,
            end,
        ),
    ensures
        walk_followers(txns, k, key, promoted_touches(txns, k, key), p, end) == followers_from(
            txns,
            k,
            key,
            promoted_touches(txns, k, key),
            p,
            slot(txns, k, a),
        ),
    decreases promoted_touches(txns, k, key).len() - p,
{
    let n = txns.len();
    let ts = promoted_touches(txns, k, key);
    let fa = slot(txns, k, a);
    let ncs = next_cell_start(fa);
    let p0 = count_below(ts, ncs);
    lemma_promoted(txns, k, key);
    lemma_count_below_sorted(ts, ncs);
    lemma_in_own_cell(txns, k, a);
    if p >= ts.len() {
        return;
    }
    let fp = ts[p as int];
    assert(fp == slot(txns, k, fp.old_txn_idx as int));
    if end.spec_lt(fp) {
        if end == grid_end(k) {
            assert(false);
        }
        let y1 = choose|y1: int|
            p0 <= y1 < p && writes(txns, ts[y1].old_txn_idx as int, key) && (forall|y: int|
                p0 <= y < y1 ==> !writes(txns, (#[trigger] ts[y]).old_txn_idx as int, key)) && end
                == next_cell_start(ts[y1]) && (forall|y: int|
                y1 <= y < p ==> (#[trigger] ts[y]).round_id == ts[y1].round_id && ts[y].shard_id
                    == ts[y1].shard_id);
        let w1 = ts[y1];
        assert(w1 == slot(txns, k, w1.old_txn_idx as int));
        assert(!w1.spec_lt(ncs));
        assert forall|y: int| p <= y < ts.len() implies !no_writer_between(
            txns,
            k,
            key,
            fa,
            #[trigger] ts[y],
        ) by {
            if y > p {
                assert(fp.spec_lt(ts[y]));
            }
            assert(writes(txns, w1.old_txn_idx as int, key));
        }
        lemma_followers_none(txns, k, key, ts, p, fa);
    } else {
        let next_end = if writes(txns, fp.old_txn_idx as int, key) {
            next_cell_start(fp)
        } else {
            end
        };
        // The entry at `p` follows: no writer lies strictly between.
        assert(no_writer_between(txns, k, key, fa, fp)) by {
            assert forall|w: int| 0 <= w < n && #[trigger] writes(txns, w, key) implies !(fa.cell_lt(
                slot(txns, k, w),
            ) && slot(txns, k, w).cell_lt(fp)) by {
                if fa.cell_lt(slot(txns, k, w)) && slot(txns, k, w).cell_lt(fp) {
                    lemma_in_own_cell(txns, k, w);
                    let yw = member_index(txns, k, key, w);
                    assert(ts[yw] == slot(txns, k, w));
                    if yw < p0 {
                        assert(ts[yw].spec_lt(ncs));
                    }
                    if yw >= p {
                        if yw > p {
                            assert(fp.spec_lt(ts[yw]));
                        }
                    }
                    assert(p0 <= yw < p);
                    if exists|y1: int|
                        p0 <= y1 < p && writes(txns, ts[y1].old_txn_idx as int, key) && (forall|y: int|
                            p0 <= y < y1 ==> !writes(txns, (#[trigger] ts[y]).old_txn_idx as int, key))
                            && end == next_cell_start(ts[y1]) && (forall|y: int|
                            y1 <= y < p ==> (#[trigger] ts[y]).round_id == ts[y1].round_id
                                && ts[y].shard_id == ts[y1].shard_id) {
                        let y1 = choose|y1: int|
                            p0 <= y1 < p && writes(txns, ts[y1].old_txn_idx as int, key) && (forall|y: int|
                                p0 <= y < y1 ==> !writes(txns, (#[trigger] ts[y]).old_txn_idx as int, key))
                                && end == next_cell_start(ts[y1]) && (forall|y: int|
                                y1 <= y < p ==> (#[trigger] ts[y]).round_id == ts[y1].round_id
                                    && ts[y].shard_id == ts[y1].shard_id);
                        let w1 = ts[y1];
                        assert(w1 == slot(txns, k, w1.old_txn_idx as int));
                        assert(writes(txns, ts[yw].old_txn_idx as int, key));
                        assert(yw >= y1);
                        assert(ts[yw].round_id == w1.round_id && ts[yw].shard_id == w1.shard_id);
                        lemma_not_next_cell_start(txns, k, fp.old_txn_idx as int, w1.old_txn_idx as int);
                    } else {
                        assert(writes(txns, ts[yw].old_txn_idx as int, key));
                    }
                }
            }
        }
        // The walk state carries over to `p + 1`.
        assert(walk_state(txns, k, key, ts, p0, p + 1, next_end)) by {
            if exists|y1: int|
                p0 <= y1 < p && writes(txns, ts[y1].old_txn_idx as int, key) && (forall|y: int|
                    p0 <= y < y1 ==> !writes(txns, (#[trigger] ts[y]).old_txn_idx as int, key))
                    && end == next_cell_start(ts[y1]) && (forall|y: int|
                    y1 <= y < p ==> (#[trigger] ts[y]).round_id == ts[y1].round_id
                        && ts[y].shard_id == ts[y1].shard_id) {
                let y1 = choose|y1: int|
                    p0 <= y1 < p && writes(txns, ts[y1].old_txn_idx as int, key) && (forall|y: int|
                        p0 <= y < y1 ==> !writes(txns, (#[trigger] ts[y]).old_txn_idx as int, key))
                        && end == next_cell_start(ts[y1]) && (forall|y: int|
                        y1 <= y < p ==> (#[trigger] ts[y]).round_id == ts[y1].round_id
                            && ts[y].shard_id == ts[y1].shard_id);
                let w1 = ts[y1];
                assert(w1 == slot(txns, k, w1.old_txn_idx as int));
                assert(w1.spec_lt(fp));
                lemma_not_next_cell_start(txns, k, fp.old_txn_idx as int, w1.old_txn_idx as int);
                assert(fp.round_id == w1.round_id && fp.shard_id == w1.shard_id);
                assert(forall|y: int|
                    p0 <= y < y1 ==> !writes(txns, (#[trigger] ts[y]).old_txn_idx as int, key));
                assert(next_end == next_cell_start(ts[y1]));
                assert(forall|y: int|
                    y1 <= y < p + 1 ==> (#[trigger] ts[y]).round_id == ts[y1].round_id
                        && ts[y].shard_id == ts[y1].shard_id);
            } else if writes(txns, fp.old_txn_idx as int, key) {
                assert(forall|y: int|
                    p0 <= y < p ==> !writes(txns, (#[trigger] ts[y]).old_txn_idx as int, key));
                assert(forall|y: int|
                    p as int <= y < p + 1 ==> (#[trigger] ts[y]).round_id == ts[p as int].round_id
                        && ts[y].shard_id == ts[p as int].shard_id);
            }
        }
        lemma_walk_is_followers(txns, k, key, a, p + 1, next_end);
    }
}

/// Position of the slot of writer or reader `w` among the promoted touches of `key`.
pub(crate) proof fn member_index(txns: Seq<AnalyzedTransaction>, k: nat, key: u64, w: int) -> (y: int)
    requires
        0 < k <= usize::MAX,
        txns.len() < usize::MAX,
        0 <= w < txns.len(),
        touches(txns, w, key) || writes(txns, w, key),
    ensures
        0 <= y < promoted_touches(txns, k, key).len(),
        promoted_touches(txns, k, key)[y] == slot(txns, k, w),
{
    let n = txns.len();
    let ta = slots_where(txns, k, key, n, true, false);
    let tb = slots_where(txns, k, key, n, false, false);
    assert(touches(txns, w, key)) by {
        if writes(txns, w, key) {
            let x = choose|x: int| 0 <= x < txns[w].write_hints@.len() && txns[w].write_hints@[x] == key;
            assert(txns[w].hints()[x] == key);
        }
    }
    if accepted(txns, k, w) {
        lemma_slots_where_contains(txns, k, key, n, true, false, w);
        let y = choose|y: int| 0 <= y < ta.len() && ta[y] == slot(txns, k, w);
        assert((ta + tb)[y] == ta[y]);
        y
    } else {
        lemma_slots_where_contains(txns, k, key, n, false, false, w);
        let y = choose|y: int| 0 <= y < tb.len() && tb[y] == slot(txns, k, w);
        assert((ta + tb)[y + ta.len()] == tb[y]);
        y + ta.len()
    }
}

/// The dependent edges of `a` on `key` are the edges to the promoted touches of
/// `key` in cells after `a`'s with no writer of `key` in a cell in between
/// (none when `a` is not the last writer of `key` in its cell).
pub proof fn lemma_dependents_are_followers(txns: Seq<AnalyzedTransaction>, k: nat, a: int, key: u64)
    requires
        0 < k <= usize::MAX,
        txns.len() < usize::MAX,
        0 <= a < txns.len(),
    ensures
        dependents_on(txns, k, a, key) == if is_last_writer_in_cell(txns, k, a, key) {
            let ts = promoted_touches(txns, k, key);
            followers_from(
                txns,
                k,
                key,
                ts,
                count_below(ts, next_cell_start(slot(txns, k, a))),
                slot(txns, k, a),
            )
        } else {
            Seq::empty()
        },
{
    let ts = promoted_touches(txns, k, key);
    let p0 = count_below(ts, next_cell_start(slot(txns, k, a)));
    lemma_promoted(txns, k, key);
    lemma_count_below_sorted(ts, next_cell_start(slot(txns, k, a)));
    assert(walk_state(txns, k, key, ts, p0, p0, grid_end(k)));
    lemma_walk_is_followers(txns, k, key, a, p0, grid_end(k));
}

/// Dependent edges mirror required edges: for `a` writing `key` and `b`
/// touching it, `b`'s required edge on `key` points at `a` exactly when `a` is
/// the last writer of `key` in its cell, `b` is in a later cell, and no writer
/// of `key` is in a cell in between; that is, exactly when `a`'s dependent
/// edges on `key` include `b`.
pub proof fn lemma_edges_mirror(txns: Seq<AnalyzedTransaction>, k: nat, a: int, b: int, key: u64)
    requires
        0 < k <= usize::MAX,
        txns.len() < usize::MAX,
        0 <= a < txns.len(),
        0 <= b < txns.len(),
        writes(txns, a, key),
        touches(txns, b, key),
    ensures
        required_source(txns, k, b, key) == Some(slot(txns, k, a)) <==> (is_last_writer_in_cell(
            txns,
            k,
            a,
            key,
        ) && slot(txns, k, a).cell_lt(slot(txns, k, b)) && no_writer_between(
            txns,
            k,
            key,
            slot(txns, k, a),
            slot(txns, k, b),
        )),
{
    let n = txns.len();
    let ws = promoted_writers(txns, k, key);
    let fa = slot(txns, k, a);
    let fb = slot(txns, k, b);
    let x = cell_start(fb);
    lemma_promoted(txns, k, key);
    lemma_count_below_sorted(ws, x);
    lemma_in_own_cell(txns, k, a);
    lemma_in_own_cell(txns, k, b);
    let c = count_below(ws, x);
    let ya = writer_index(txns, k, key, a);
    if required_source(txns, k, b, key) == Some(fa) {
        assert(c > 0 && ws[c - 1] == fa);
        assert(fa.spec_lt(x));
        assert forall|j: int| 0 <= j < ws.len() implies !((TxnFatId {
            round_id: fa.round_id,
            shard_id: fa.shard_id,
            old_txn_idx: (a + 1) as usize,
        }).spec_le(#[trigger] ws[j]) && ws[j].spec_lt(next_cell_start(fa))) by {
            if j <= c - 1 && j != c - 1 {
                assert(ws[j].spec_lt(ws[c - 1]));
            }
        }
        assert forall|w: int| 0 <= w < n && #[trigger] writes(txns, w, key) implies !(fa.cell_lt(
            slot(txns, k, w),
        ) && slot(txns, k, w).cell_lt(fb)) by {
            if fa.cell_lt(slot(txns, k, w)) && slot(txns, k, w).cell_lt(fb) {
                let yw = writer_index(txns, k, key, w);
                assert(ws[yw].spec_lt(x));
                if yw < c - 1 {
                    assert(ws[yw].spec_lt(ws[c - 1]));
                }
            }
        }
    }
    if is_last_writer_in_cell(txns, k, a, key) && fa.cell_lt(fb) && no_writer_between(
        txns,
        k,
        key,
        fa,
        fb,
    ) {
        assert(ws[ya].spec_lt(x));
        assert(ya < c);
        let f = ws[c - 1];
        assert(f == slot(txns, k, f.old_txn_idx as int));
        if ya < c - 1 {
            assert(ws[ya].spec_lt(f));
            assert(f.spec_lt(x));
            if f.round_id == fa.round_id && f.shard_id == fa.shard_id {
                assert(ws[c - 1] == f);
            } else {
                let w = f.old_txn_idx as int;
                assert(writes(txns, w, key)) by {
                    lemma_slots_where(txns, k, key, n, true, true);
                    lemma_slots_where(txns, k, key, n, false, true);
                    let wa = slots_where(txns, k, key, n, true, true);
                    let wb = slots_where(txns, k, key, n, false, true);
                    if c - 1 < wa.len() {
                        assert(ws[c - 1] == wa[c - 1]);
                    } else {
                        assert(ws[c - 1] == wb[c - 1 - wa.len()]);
                    }
                }
            }
        }
    }
}

/// Position of the slot of writer `w` among the promoted writers of `key`.
pub(crate) proof fn writer_index(txns: Seq<AnalyzedTransaction>, k: nat, key: u64, w: int) -> (y: int)
    requires
        0 < k <= usize::MAX,
        txns.len() < usize::MAX,
        0 <= w < txns.len(),
        writes(txns, w, key),
    ensures
        0 <= y < promoted_writers(txns, k, key).len(),
        promoted_writers(txns, k, key)[y] == slot(txns, k, w),
{
    let n = txns.len();
    let wa = slots_where(txns, k, key, n, true, true);
    let wb = slots_where(txns, k, key, n, false, true);
    if accepted(txns, k, w) {
        lemma_slots_where_contains(txns, k, key, n, true, true, w);
        let y = choose|y: int| 0 <= y < wa.len() && wa[y] == slot(txns, k, w);
        assert((wa + wb)[y] == wa[y]);
        y
    } else {
        lemma_slots_where_contains(txns, k, key, n, false, true, w);
        let y = choose|y: int| 0 <= y < wb.len() && wb[y] == slot(txns, k, w);
        assert((wa + wb)[y + wa.len()] == wb[y]);
        y + wa.len()
    }
}

/// Three transactions from three senders, each writing only `key`, on two
/// shards: transactions 0 and 1 run in round 0 on shard 0; transaction 2 runs
/// in round 0 on shard 1 when the key's anchor shard is 1, and in the
/// catch-all cell when it is 0, where the write of transaction 1 would
/// otherwise be missed. Either way transaction 2 has one required edge, on
/// `key`, to transaction 1.
pub proof fn lemma_three_writers_two_shards(txns: Seq<AnalyzedTransaction>, key: u64)
    requires
        txns.len() == 3,
        forall|i: int| 0 <= i < 3 ==> (#[trigger] txns[i]).write_hints@ == seq![key] && txns[i].read_hints@
            == Seq::<u64>::empty(),
        txns[0].sender != txns[1].sender,
        txns[0].sender != txns[2].sender,
        txns[1].sender != txns[2].sender,
    ensures
        cell(txns, 2, 0, 0) == seq![0usize, 1usize],
        cell(txns, 2, 1, 0) == Seq::<usize>::empty(),
        cell(txns, 2, 0, 1) == if key % 2 == 1 {
            seq![2usize]
        } else {
            Seq::<usize>::empty()
        },
        cell(txns, 2, 1, 1) == if key % 2 == 0 {
            seq![2usize]
        } else {
            Seq::<usize>::empty()
        },
        required_edges(txns, 2, 2) == seq![edge_to(txns, 2, slot(txns, 2, 1), key)],
{
    let k: nat = 2;
    assert(crate::chunks::chunk_start(3, 2, 0) == 0);
    assert(crate::chunks::chunk_start(3, 2, 1) == 2);
    assert(crate::chunks::chunk_start(3, 2, 2) == 3);
    assert(crate::chunks::in_chunk(3, 2, 0, 0));
    assert(crate::chunks::in_chunk(3, 2, 0, 1));
    assert(crate::chunks::in_chunk(3, 2, 1, 2));
    lemma_shard_of(3, 2, 0);
    lemma_shard_of(3, 2, 1);
    lemma_shard_of(3, 2, 2);
    assert forall|i: int, k2: u64| 0 <= i < 3 implies (touches(txns, i, k2) <==> k2 == key) && (writes(txns, i, k2) <==> k2 == key) by {
        assert(txns[i].hints() =~= seq![key]);
        if k2 == key {
            assert(txns[i].hints()[0] == key);
            assert(txns[i].write_hints@[0] == key);
        }
    }
    assert(!conflicts(txns, k, 0));
    assert(!conflicts(txns, k, 1));
    if key % 2 == 0 {
        assert(touches(txns, 2, key) && writes(txns, 0, key));
        assert(conflicts(txns, k, 2));
    } else {
        assert(!conflicts(txns, k, 2));
    }
    assert(accepted(txns, k, 0));
    assert(accepted(txns, k, 1));
    assert(accepted(txns, k, 2) == (key % 2 == 1)) by {
        if key % 2 == 1 {
            assert forall|j: int| 0 <= j <= 2 && txns[j].sender == txns[2].sender implies !#[trigger] conflicts(txns, k, j) by {}
        }
    }
    reveal_with_fuel(range_where, 4);
    reveal_with_fuel(slots_where, 4);
    reveal_with_fuel(count_below, 4);
    assert(cell(txns, 2, 0, 0) =~= seq![0usize, 1usize]);
    assert(cell(txns, 2, 0, 1) =~= if key % 2 == 1 { seq![2usize] } else { Seq::<usize>::empty() });
    assert(cell(txns, 2, 1, 1) =~= if key % 2 == 0 { seq![2usize] } else { Seq::<usize>::empty() });
    let f0 = slot(txns, k, 0);
    let f1 = slot(txns, k, 1);
    let f2 = slot(txns, k, 2);
    let wa = slots_where(txns, k, key, 3, true, true);
    let wb = slots_where(txns, k, key, 3, false, true);
    let ws = promoted_writers(txns, k, key);
    if key % 2 == 1 {
        assert(wa =~= seq![f0, f1, f2]);
        assert(wb =~= Seq::<TxnFatId>::empty());
    } else {
        assert(wa =~= seq![f0, f1]);
        assert(wb =~= seq![f2]);
    }
    assert(ws =~= seq![f0, f1, f2]);
    let x = cell_start(f2);
    assert(count_below(ws.drop_last().drop_last().drop_last(), x) == 0);
    assert(count_below(ws, x) == 2) by {
        assert(ws.drop_last() =~= seq![f0, f1]);
        assert(ws.drop_last().drop_last() =~= seq![f0]);
        assert(ws.drop_last().drop_last().drop_last() =~= Seq::<TxnFatId>::empty());
    }
    assert(required_source(txns, k, 2, key) == Some(f1));
    assert(txns[2].hints() =~= seq![key]);
    assert(txns[2].hints().take(0) =~= Seq::<u64>::empty());
    assert(txns[2].hints().len() == 1 && txns[2].hints()[0] == key);
    assert(!txns[2].hints().take(0).contains(key));
    assert(required_edges_upto(txns, k, 2, 0) == Seq::<CrossShardEdge>::empty());
    assert(required_edges_upto(txns, k, 2, 1) == Seq::<CrossShardEdge>::empty().push(edge_to(txns, k, f1, key)));
    assert(required_edges(txns, k, 2) =~= seq![edge_to(txns, k, f1, key)]);
}

} // verus!
