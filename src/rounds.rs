//! The round engine: discarding rounds over per-shard candidate lists, and the
//! catch-all cell.
use vstd::prelude::*;
use crate::chunks::{chunk, chunk_start, in_chunk, lemma_chunk_start_mono, lemma_chunk_start_zero_and_end, lemma_shard_of, shard_of};
use crate::fat_id::TxnFatId;
use crate::lemmas::{lemma_range_where, lemma_range_where_concat, lemma_slots_where};
use crate::model::{accepted, anchor_shard, conflicts, range_where, slot, slots_where, touches, writes};
use crate::registry::{block_fits, lemma_writers_upto, KeyRegistry};
use crate::types::AnalyzedTransaction;

verus! {

/// Candidate `i` of shard `s` conflicts when a location it touches has a
/// candidate writer with original index in `[starts[anchor shard], starts[s])`.
pub open spec fn round_conflict(
    txns: Seq<AnalyzedTransaction>,
    k: nat,
    starts: Seq<usize>,
    i: int,
    s: int,
) -> bool {
    exists|key: u64, w: int|
        #![trigger touches(txns, i, key), writes(txns, w, key)]
        touches(txns, i, key) && writes(txns, w, key) && 0 <= w < txns.len() && starts[anchor_shard(
            key,
            k,
        ) as int] <= w < starts[s]
}

/// Position `p` of shard `s` holds a candidate.
pub open spec fn is_candidate(cands: Seq<Vec<usize>>, s: int, p: int) -> bool {
    0 <= s < cands.len() && 0 <= p < cands[s]@.len()
}

/// `v` is a candidate of some shard.
pub open spec fn is_candidate_value(cands: Seq<Vec<usize>>, v: usize) -> bool {
    exists|s: int, p: int| is_candidate(cands, s, p) && #[trigger] cands[s]@[p] == v
}

/// Candidate lists: ids below `n`, each list strictly increasing, no id twice.
pub open spec fn candidates_wf(n: nat, cands: Seq<Vec<usize>>) -> bool {
    &&& forall|s: int, p: int| is_candidate(cands, s, p) ==> #[trigger] cands[s]@[p] < n
    &&& forall|s: int, a: int, b: int|
        0 <= s < cands.len() && 0 <= a < b < cands[s]@.len() ==> #[trigger] cands[s]@[a]
            < #[trigger] cands[s]@[b]
    &&& forall|sa: int, pa: int, sb: int, pb: int|
        is_candidate(cands, sa, pa) && is_candidate(cands, sb, pb) && #[trigger] cands[sa]@[pa]
            == #[trigger] cands[sb]@[pb] ==> sa == sb && pa == pb
}

/// Candidate `j` is accepted when no candidate of the same sender, at or
/// before `j` in original order, conflicts in its own shard.
pub open spec fn round_accepted(
    txns: Seq<AnalyzedTransaction>,
    k: nat,
    cands: Seq<Vec<usize>>,
    starts: Seq<usize>,
    j: int,
) -> bool {
    forall|s: int, p: int|
        is_candidate(cands, s, p) && cands[s]@[p] <= j && txns[cands[s]@[p] as int].sender
            == txns[j].sender ==> !#[trigger] round_conflict(txns, k, starts, cands[s]@[p] as int, s)
}

/// The first `p` candidates of shard `s` whose acceptance is `acc`, in order.
pub open spec fn shard_split(
    txns: Seq<AnalyzedTransaction>,
    k: nat,
    cands: Seq<Vec<usize>>,
    starts: Seq<usize>,
    s: int,
    p: nat,
    acc: bool,
) -> Seq<usize>
    decreases p,
{
    if p == 0 {
        Seq::empty()
    } else {
        let prev = shard_split(txns, k, cands, starts, s, (p - 1) as nat, acc);
        let j = cands[s]@[p - 1];
        if round_accepted(txns, k, cands, starts, j as int) == acc {
            prev.push(j)
        } else {
            prev
        }
    }
}

/// The slots a round adds to `key`'s writer set (or, when `write_only` is
/// false, its touch set): accepted candidates of the shards before `s` and of
/// the first `p` positions of shard `s`, in that order.
pub open spec fn round_slots(
    txns: Seq<AnalyzedTransaction>,
    k: nat,
    cands: Seq<Vec<usize>>,
    starts: Seq<usize>,
    round_id: usize,
    key: u64,
    write_only: bool,
    s: nat,
    p: nat,
) -> Seq<TxnFatId>
    decreases s, p,
{
    if p == 0 {
        if s == 0 {
            Seq::empty()
        } else {
            round_slots(
                txns,
                k,
                cands,
                starts,
                round_id,
                key,
                write_only,
                (s - 1) as nat,
                cands[s - 1]@.len(),
            )
        }
    } else {
        let prev = round_slots(txns, k, cands, starts, round_id, key, write_only, s, (p - 1) as nat);
        let j = cands[s as int]@[p - 1];
        if round_accepted(txns, k, cands, starts, j as int) && (if write_only {
            writes(txns, j as int, key)
        } else {
            touches(txns, j as int, key)
        }) {
            prev.push(TxnFatId { round_id, shard_id: s as usize, old_txn_idx: j })
        } else {
            prev
        }
    }
}

/// No promoted set of any tracker holds a candidate yet.
pub open spec fn not_yet_promoted(reg: KeyRegistry, cands: Seq<Vec<usize>>) -> bool {
    &&& forall|id: int, x: int|
        0 <= id < reg.trackers@.len() && 0 <= x < reg.trackers@[id].promoted_txn_ids@.len()
            ==> !is_candidate_value(
            cands,
            (#[trigger] reg.trackers@[id].promoted_txn_ids@[x]).old_txn_idx,
        )
    &&& forall|id: int, x: int|
        0 <= id < reg.trackers@.len() && 0 <= x < reg.trackers@[id].promoted_writer_ids@.len()
            ==> !is_candidate_value(
            cands,
            (#[trigger] reg.trackers@[id].promoted_writer_ids@[x]).old_txn_idx,
        )
}

/// `v` is a candidate processed before position `p` of shard `s`.
pub open spec fn processed_value(cands: Seq<Vec<usize>>, s: int, p: int, v: usize) -> bool {
    exists|sa: int, pa: int| processed_before(cands, s, p, sa, pa) && #[trigger] cands[sa]@[pa] == v
}

/// Every slot added so far is that of a candidate already processed.
proof fn lemma_round_slots_entries(
    txns: Seq<AnalyzedTransaction>,
    k: nat,
    cands: Seq<Vec<usize>>,
    starts: Seq<usize>,
    round_id: usize,
    key: u64,
    write_only: bool,
    s: nat,
    p: nat,
)
    requires
        s < cands.len(),
        p <= cands[s as int]@.len(),
    ensures
        forall|x: int|
            0 <= x < round_slots(txns, k, cands, starts, round_id, key, write_only, s, p).len()
                ==> processed_value(
                cands,
                s as int,
                p as int,
                (#[trigger] round_slots(txns, k, cands, starts, round_id, key, write_only, s, p)[x]).old_txn_idx,
            ),
    decreases s, p,
{
    let rs = round_slots(txns, k, cands, starts, round_id, key, write_only, s, p);
    if p == 0 {
        if s > 0 {
            let pl = cands[s - 1]@.len();
            lemma_round_slots_entries(txns, k, cands, starts, round_id, key, write_only, (s - 1) as nat, pl);
            let prev = round_slots(txns, k, cands, starts, round_id, key, write_only, (s - 1) as nat, pl);
            assert(rs == prev);
            assert forall|x: int| 0 <= x < rs.len() implies processed_value(cands, s as int, p as int, (#[trigger] rs[x]).old_txn_idx) by {
                assert(processed_value(cands, s - 1, pl as int, prev[x].old_txn_idx));
                let (sa, pa) = choose|sa: int, pa: int| processed_before(cands, s - 1, pl as int, sa, pa) && #[trigger] cands[sa]@[pa] == prev[x].old_txn_idx;
                assert(processed_before(cands, s as int, p as int, sa, pa));
            }
        }
    } else {
        lemma_round_slots_entries(txns, k, cands, starts, round_id, key, write_only, s, (p - 1) as nat);
        let prev = round_slots(txns, k, cands, starts, round_id, key, write_only, s, (p - 1) as nat);
        assert forall|x: int| 0 <= x < rs.len() implies processed_value(cands, s as int, p as int, (#[trigger] rs[x]).old_txn_idx) by {
            if x < prev.len() {
                assert(rs[x] == prev[x]);
                assert(processed_value(cands, s as int, p - 1, prev[x].old_txn_idx));
                let (sa, pa) = choose|sa: int, pa: int| processed_before(cands, s as int, p - 1, sa, pa) && #[trigger] cands[sa]@[pa] == prev[x].old_txn_idx;
                assert(processed_before(cands, s as int, p as int, sa, pa));
            } else {
                assert(processed_before(cands, s as int, p as int, s as int, p - 1));
                assert(rs[x].old_txn_idx == cands[s as int]@[p - 1]);
            }
        }
    }
}

/// Conflict scan of candidate `i` of shard `my_shard`: does a location it
/// touches have a candidate writer in `[starts[anchor shard], starts[my_shard])`?
fn in_round_conflict(
    reg: &KeyRegistry,
    txns: &Vec<AnalyzedTransaction>,
    num_shards: usize,
    i: usize,
    my_shard: usize,
    starts: &Vec<usize>,
) -> (r: bool)
    requires
        num_shards > 0,
        block_fits(txns@),
        i < txns@.len(),
        my_shard < num_shards,
        starts@.len() == num_shards,
        reg.locations_wf(txns@, txns@.len()),
        reg.trackers_built(txns@, num_shards as nat),
    ensures
        r == round_conflict(txns@, num_shards as nat, starts@, i as int, my_shard as int),
{
    let ghost n = txns@.len();
    let ghost k = num_shards as nat;
    let txn = &txns[i];
    let num_writes = txn.write_hints.len();
    assert(txn.write_hints@.len() + txn.read_hints@.len() <= usize::MAX);
    let num_hints = num_writes + txn.read_hints.len();
    let mut h: usize = 0;
    while h < num_hints
        invariant
            num_shards > 0,
            k == num_shards,
            n == txns@.len(),
            block_fits(txns@),
            i < n,
            *txn == txns@[i as int],
            num_hints == txn.hints().len(),
            h <= num_hints,
            my_shard < k,
            starts@.len() == k,
            reg.locations_wf(txns@, n),
            reg.trackers_built(txns@, k),
            forall|x: int, w: int|
                0 <= x < h && 0 <= w < n && #[trigger] writes(txns@, w, txn.hints()[x])
                    ==> !(starts@[anchor_shard(#[trigger] txn.hints()[x], k) as int] <= w
                    < starts@[my_shard as int]),
        decreases num_hints - h,
    {
        let loc_id = reg.location_ids[i][h];
        let ghost key = txn.hints()[h as int];
        let tracker = &reg.trackers[loc_id];
        let anchor = tracker.anchor_shard_id;
        proof {
            lemma_writers_upto(txns@, key, n);
            assert(anchor < k);
        }
        if tracker.has_write_in_range(starts[anchor], starts[my_shard]) {
            proof {
                let j = choose|j: int|
                    0 <= j < tracker.candidate_writers@.len() && starts[anchor as int]
                        <= #[trigger] tracker.candidate_writers@[j] < starts[my_shard as int];
                let w = tracker.candidate_writers@[j] as int;
                assert(touches(txns@, i as int, key)) by {
                    assert(txn.hints()[h as int] == key);
                }
                assert(writes(txns@, w, key));
            }
            return true;
        }
        proof {
            assert forall|x: int, w: int|
                0 <= x < h + 1 && 0 <= w < n && #[trigger] writes(txns@, w, txn.hints()[x])
                    implies !(starts@[anchor_shard(#[trigger] txn.hints()[x], k) as int] <= w
                    < starts@[my_shard as int]) by {
                if x == h {
                    let cw = tracker.candidate_writers@;
                    let y = choose|y: int| 0 <= y < cw.len() && cw[y] == w as usize;
                    assert(starts[anchor as int] <= cw[y] < starts[my_shard as int] ==> false);
                }
            }
        }
        h += 1;
    }
    proof {
        if round_conflict(txns@, k, starts@, i as int, my_shard as int) {
            let (key, w) = choose|key: u64, w: int|
                #![trigger touches(txns@, i as int, key), writes(txns@, w, key)]
                touches(txns@, i as int, key) && writes(txns@, w, key) && 0 <= w < n
                    && starts@[anchor_shard(key, k) as int] <= w < starts@[my_shard as int];
            let x = choose|x: int| 0 <= x < txn.hints().len() && txn.hints()[x] == key;
            assert(writes(txns@, w, txn.hints()[x]));
        }
    }
    false
}

/// Candidates processed before position `p` of shard `s`.
pub open spec fn processed_before(cands: Seq<Vec<usize>>, s: int, p: int, sa: int, pa: int) -> bool {
    is_candidate(cands, sa, pa) && (sa < s || (sa == s && pa < p))
}

/// Per-sender minimum of the conflicting candidates processed before
/// position `p` of shard `s` (`usize::MAX` where none).
pub open spec fn min_discarded_wf(
    txns: Seq<AnalyzedTransaction>,
    k: nat,
    cands: Seq<Vec<usize>>,
    starts: Seq<usize>,
    sender_ids: Seq<usize>,
    min_discarded: Seq<usize>,
    s: int,
    p: int,
) -> bool {
    forall|sid: int|
        0 <= sid < min_discarded.len() ==> {
            let v = #[trigger] min_discarded[sid];
            &&& v == usize::MAX || exists|sa: int, pa: int|
                processed_before(cands, s, p, sa, pa) && cands[sa]@[pa] == v && round_conflict(
                    txns,
                    k,
                    starts,
                    v as int,
                    sa,
                ) && sender_ids[v as int] == sid
            &&& forall|sa: int, pa: int|
                processed_before(cands, s, p, sa, pa) && #[trigger] round_conflict(
                    txns,
                    k,
                    starts,
                    cands[sa]@[pa] as int,
                    sa,
                ) && sender_ids[cands[sa]@[pa] as int] == sid ==> v <= cands[sa]@[pa]
        }
}

/// A discarding round over the per-shard candidate lists `remaining`, with
/// `starts[s]` the first original index of shard `s`. Pass 1 scans every
/// candidate for conflicts and records, per sender, the least conflicting
/// candidate. Pass 2 accepts a candidate only when it lies below that minimum
/// for its sender (which a conflicting candidate never does), and promotes it
/// into slot (`round_id`, its shard, its index). Returns, per shard, the
/// accepted and the discarded candidates, each in the list's order.
pub fn discarding_round(
    round_id: usize,
    txns: &Vec<AnalyzedTransaction>,
    reg: &mut KeyRegistry,
    remaining: &Vec<Vec<usize>>,
    starts: &Vec<usize>,
) -> (r: (Vec<Vec<usize>>, Vec<Vec<usize>>))
    requires
        remaining@.len() > 0,
        starts@.len() == remaining@.len(),
        block_fits(txns@),
        old(reg).senders_wf(txns@, txns@.len()),
        old(reg).locations_wf(txns@, txns@.len()),
        old(reg).trackers_built(txns@, remaining@.len() as nat),
        candidates_wf(txns@.len(), remaining@),
        not_yet_promoted(*old(reg), remaining@),
    ensures
        ({
            let n = txns@.len();
            let k = remaining@.len() as nat;
            let cands = remaining@;
            &&& final(reg).same_keys(*old(reg))
            &&& final(reg).senders_wf(txns@, n)
            &&& final(reg).locations_wf(txns@, n)
            &&& final(reg).trackers_built(txns@, k)
            &&& r.0@.len() == k
            &&& r.1@.len() == k
            &&& forall|s: int|
                0 <= s < k ==> (#[trigger] r.0@[s])@ == shard_split(
                    txns@,
                    k,
                    cands,
                    starts@,
                    s,
                    cands[s]@.len(),
                    true,
                )
            &&& forall|s: int|
                0 <= s < k ==> (#[trigger] r.1@[s])@ == shard_split(
                    txns@,
                    k,
                    cands,
                    starts@,
                    s,
                    cands[s]@.len(),
                    false,
                )
            &&& forall|id: int|
                0 <= id < final(reg).trackers@.len() ==> {
                    let t = #[trigger] final(reg).trackers@[id];
                    let t0 = old(reg).trackers@[id];
                    let key = old(reg).location_keys@[id];
                    &&& t.promoted_writer_ids@ == t0.promoted_writer_ids@ + round_slots(
                        txns@,
                        k,
                        cands,
                        starts@,
                        round_id,
                        key,
                        true,
                        k,
                        0,
                    )
                    &&& t.promoted_txn_ids@ == t0.promoted_txn_ids@ + round_slots(
                        txns@,
                        k,
                        cands,
                        starts@,
                        round_id,
                        key,
                        false,
                        k,
                        0,
                    )
                }
        }),
{
    let num_shards = remaining.len();
    let ghost n = txns@.len();
    let ghost k = num_shards as nat;
    let ghost cands = remaining@;
    let ghost reg0 = *reg;
    let mut min_discarded: Vec<usize> = Vec::with_capacity(reg.num_senders);
    while min_discarded.len() < reg.num_senders
        invariant
            min_discarded@.len() <= reg.num_senders,
            forall|sid: int| 0 <= sid < min_discarded@.len() ==> #[trigger] min_discarded@[sid] == usize::MAX,
        decreases reg.num_senders - min_discarded@.len(),
    {
        min_discarded.push(usize::MAX);
    }

    // Pass 1: conflict scan.
    let mut shard_id: usize = 0;
    while shard_id < num_shards
        invariant
            num_shards == remaining@.len() == starts@.len() == k,
            k > 0,
            n == txns@.len(),
            cands == remaining@,
            block_fits(txns@),
            *reg == reg0,
            reg.senders_wf(txns@, n),
            reg.locations_wf(txns@, n),
            reg.trackers_built(txns@, k),
            candidates_wf(n, cands),
            shard_id <= num_shards,
            min_discarded@.len() == reg.num_senders,
            min_discarded_wf(txns@, k, cands, starts@, reg.sender_ids@, min_discarded@, shard_id as int, 0),
        decreases num_shards - shard_id,
    {
        let txn_ids = &remaining[shard_id];
        let mut pos: usize = 0;
        while pos < txn_ids.len()
            invariant
                num_shards == remaining@.len() == starts@.len() == k,
                k > 0,
                n == txns@.len(),
                cands == remaining@,
                block_fits(txns@),
                *reg == reg0,
                reg.senders_wf(txns@, n),
                reg.locations_wf(txns@, n),
                reg.trackers_built(txns@, k),
                candidates_wf(n, cands),
                shard_id < num_shards,
                *txn_ids == cands[shard_id as int],
                pos <= txn_ids@.len(),
                min_discarded@.len() == reg.num_senders,
                min_discarded_wf(txns@, k, cands, starts@, reg.sender_ids@, min_discarded@, shard_id as int, pos as int),
            decreases txn_ids@.len() - pos,
        {
            let txn_id = txn_ids[pos];
            assert(is_candidate(cands, shard_id as int, pos as int));
            let ghost md0 = min_discarded@;
            let conflict = in_round_conflict(reg, txns, num_shards, txn_id, shard_id, starts);
            if conflict {
                let sender_id = reg.sender_ids[txn_id];
                if txn_id < min_discarded[sender_id] {
                    min_discarded.set(sender_id, txn_id);
                }
            }
            proof {
                let md = min_discarded@;
                assert forall|sid: int| 0 <= sid < md.len() implies {
                    let v = #[trigger] md[sid];
                    &&& v == usize::MAX || exists|sa: int, pa: int|
                        processed_before(cands, shard_id as int, pos + 1, sa, pa) && cands[sa]@[pa] == v
                            && round_conflict(txns@, k, starts@, v as int, sa)
                            && reg.sender_ids@[v as int] == sid
                    &&& forall|sa: int, pa: int|
                        processed_before(cands, shard_id as int, pos + 1, sa, pa) && #[trigger] round_conflict(
                            txns@,
                            k,
                            starts@,
                            cands[sa]@[pa] as int,
                            sa,
                        ) && reg.sender_ids@[cands[sa]@[pa] as int] == sid ==> v <= cands[sa]@[pa]
                } by {
                    let v0 = md0[sid];
                    if md[sid] != usize::MAX {
                        if md[sid] == v0 {
                            let (sa, pa) = choose|sa: int, pa: int|
                                processed_before(cands, shard_id as int, pos as int, sa, pa) && cands[sa]@[pa] == v0
                                    && round_conflict(txns@, k, starts@, v0 as int, sa)
                                    && reg.sender_ids@[v0 as int] == sid;
                            assert(processed_before(cands, shard_id as int, pos + 1, sa, pa));
                        } else {
                            assert(processed_before(cands, shard_id as int, pos + 1, shard_id as int, pos as int));
                        }
                    }
                    assert forall|sa: int, pa: int|
                        processed_before(cands, shard_id as int, pos + 1, sa, pa) && #[trigger] round_conflict(
                            txns@,
                            k,
                            starts@,
                            cands[sa]@[pa] as int,
                            sa,
                        ) && reg.sender_ids@[cands[sa]@[pa] as int] == sid implies md[sid] <= cands[sa]@[pa] by {
                        if !(sa == shard_id && pa == pos) {
                            assert(processed_before(cands, shard_id as int, pos as int, sa, pa));
                        }
                    }
                }
            }
            pos += 1;
        }
        proof {
            assert forall|sa: int, pa: int| processed_before(cands, (shard_id + 1) as int, 0, sa, pa)
                <==> processed_before(cands, shard_id as int, txn_ids@.len() as int, sa, pa) by {}
        }
        shard_id += 1;
    }

    // Pass 2: sender-order gate and promotion.
    let mut accepted_by_shard: Vec<Vec<usize>> = Vec::with_capacity(num_shards);
    let mut discarded_by_shard: Vec<Vec<usize>> = Vec::with_capacity(num_shards);
    let mut shard_id: usize = 0;
    while shard_id < num_shards
        invariant
            num_shards == remaining@.len() == starts@.len() == k,
            k > 0,
            n == txns@.len(),
            cands == remaining@,
            block_fits(txns@),
            reg.same_keys(reg0),
            reg.senders_wf(txns@, n),
            reg.locations_wf(txns@, n),
            reg.trackers_built(txns@, k),
            candidates_wf(n, cands),
            not_yet_promoted(reg0, cands),
            shard_id <= num_shards,
            min_discarded@.len() == reg.num_senders,
            min_discarded_wf(txns@, k, cands, starts@, reg.sender_ids@, min_discarded@, k as int, 0),
            accepted_by_shard@.len() == shard_id,
            discarded_by_shard@.len() == shard_id,
            forall|s: int|
                0 <= s < shard_id ==> (#[trigger] accepted_by_shard@[s])@ == shard_split(
                    txns@, k, cands, starts@, s, cands[s]@.len(), true),
            forall|s: int|
                0 <= s < shard_id ==> (#[trigger] discarded_by_shard@[s])@ == shard_split(
                    txns@, k, cands, starts@, s, cands[s]@.len(), false),
            forall|id: int|
                0 <= id < reg.trackers@.len() ==> {
                    let t = #[trigger] reg.trackers@[id];
                    let t0 = reg0.trackers@[id];
                    let key = reg0.location_keys@[id];
                    &&& t.promoted_writer_ids@ == t0.promoted_writer_ids@ + round_slots(
                        txns@, k, cands, starts@, round_id, key, true, shard_id as nat, 0)
                    &&& t.promoted_txn_ids@ == t0.promoted_txn_ids@ + round_slots(
                        txns@, k, cands, starts@, round_id, key, false, shard_id as nat, 0)
                },
        decreases num_shards - shard_id,
    {
        let txn_ids = &remaining[shard_id];
        let mut accepted_ids: Vec<usize> = Vec::new();
        let mut discarded_ids: Vec<usize> = Vec::new();
        let mut pos: usize = 0;
        while pos < txn_ids.len()
            invariant
                num_shards == remaining@.len() == starts@.len() == k,
                k > 0,
                n == txns@.len(),
                cands == remaining@,
                block_fits(txns@),
                reg.same_keys(reg0),
                reg.senders_wf(txns@, n),
                reg.locations_wf(txns@, n),
                reg.trackers_built(txns@, k),
                candidates_wf(n, cands),
                not_yet_promoted(reg0, cands),
                shard_id < num_shards,
                *txn_ids == cands[shard_id as int],
                pos <= txn_ids@.len(),
                min_discarded@.len() == reg.num_senders,
                min_discarded_wf(txns@, k, cands, starts@, reg.sender_ids@, min_discarded@, k as int, 0),
                accepted_ids@ == shard_split(txns@, k, cands, starts@, shard_id as int, pos as nat, true),
                discarded_ids@ == shard_split(txns@, k, cands, starts@, shard_id as int, pos as nat, false),
                forall|id: int|
                    0 <= id < reg.trackers@.len() ==> {
                        let t = #[trigger] reg.trackers@[id];
                        let t0 = reg0.trackers@[id];
                        let key = reg0.location_keys@[id];
                        &&& t.promoted_writer_ids@ == t0.promoted_writer_ids@ + round_slots(
                            txns@, k, cands, starts@, round_id, key, true, shard_id as nat, pos as nat)
                        &&& t.promoted_txn_ids@ == t0.promoted_txn_ids@ + round_slots(
                            txns@, k, cands, starts@, round_id, key, false, shard_id as nat, pos as nat)
                    },
            decreases txn_ids@.len() - pos,
        {
            let txn_id = txn_ids[pos];
            assert(is_candidate(cands, shard_id as int, pos as int));
            let sender_id = reg.sender_ids[txn_id];
            let ghost acc = round_accepted(txns@, k, cands, starts@, txn_id as int);
            proof {
                let v = min_discarded@[sender_id as int];
                if acc {
                    if v != usize::MAX {
                        let (sa, pa) = choose|sa: int, pa: int|
                            processed_before(cands, k as int, 0, sa, pa) && cands[sa]@[pa] == v
                                && round_conflict(txns@, k, starts@, v as int, sa)
                                && reg.sender_ids@[v as int] == sender_id;
                        if v <= txn_id {
                            assert(txns@[v as int].sender == txns@[txn_id as int].sender);
                            assert(!round_conflict(txns@, k, starts@, cands[sa]@[pa] as int, sa));
                        }
                    }
                } else {
                    let (sa, pa) = choose|sa: int, pa: int|
                        is_candidate(cands, sa, pa) && cands[sa]@[pa] <= txn_id && txns@[cands[sa]@[pa] as int].sender
                            == txns@[txn_id as int].sender && #[trigger] round_conflict(txns@, k, starts@, cands[sa]@[pa] as int, sa);
                    assert(processed_before(cands, k as int, 0, sa, pa));
                    assert(reg.sender_ids@[cands[sa]@[pa] as int] == sender_id);
                }
            }
            let ghost sp = (shard_id as nat, pos as nat);
            if txn_id < min_discarded[sender_id] {
                let ghost before = *reg;
                proof {
                    assert forall|id: int| 0 <= id < reg.trackers@.len() implies {
                        let t = #[trigger] reg.trackers@[id];
                        &&& t.promoted_txn_ids@.len() > 0 ==> t.promoted_txn_ids@.last().old_txn_idx != txn_id
                        &&& t.promoted_writer_ids@.len() > 0 ==> t.promoted_writer_ids@.last().old_txn_idx
                            != txn_id
                    } by {
                        let key = reg0.location_keys@[id];
                        let t0 = reg0.trackers@[id];
                        lemma_round_slots_entries(txns@, k, cands, starts@, round_id, key, true, shard_id as nat, pos as nat);
                        lemma_round_slots_entries(txns@, k, cands, starts@, round_id, key, false, shard_id as nat, pos as nat);
                        assert(cands[shard_id as int]@[pos as int] == txn_id);
                        assert(is_candidate_value(cands, txn_id));
                        let aw = round_slots(txns@, k, cands, starts@, round_id, key, true, shard_id as nat, pos as nat);
                        let at = round_slots(txns@, k, cands, starts@, round_id, key, false, shard_id as nat, pos as nat);
                        assert(id < reg0.trackers@.len());
                        assert(reg.trackers@[id].promoted_writer_ids@ == t0.promoted_writer_ids@ + aw);
                        assert(reg.trackers@[id].promoted_txn_ids@ == t0.promoted_txn_ids@ + at);
                        if aw.len() > 0 {
                            assert((t0.promoted_writer_ids@ + aw).last() == aw[aw.len() - 1]);
                            assert(processed_value(cands, shard_id as int, pos as int, aw[aw.len() - 1].old_txn_idx));
                            let (sa, pa) = choose|sa: int, pa: int|
                                processed_before(cands, shard_id as int, pos as int, sa, pa) && #[trigger] cands[sa]@[pa] == aw[aw.len() - 1].old_txn_idx;
                            assert(cands[sa]@[pa] != cands[shard_id as int]@[pos as int]);
                        } else if t0.promoted_writer_ids@.len() > 0 {
                            assert((t0.promoted_writer_ids@ + aw).last() == t0.promoted_writer_ids@[t0.promoted_writer_ids@.len() - 1]);
                            assert(!is_candidate_value(cands, reg0.trackers@[id].promoted_writer_ids@[t0.promoted_writer_ids@.len() - 1].old_txn_idx));
                        }
                        if at.len() > 0 {
                            assert((t0.promoted_txn_ids@ + at).last() == at[at.len() - 1]);
                            assert(processed_value(cands, shard_id as int, pos as int, at[at.len() - 1].old_txn_idx));
                            let (sa, pa) = choose|sa: int, pa: int|
                                processed_before(cands, shard_id as int, pos as int, sa, pa) && #[trigger] cands[sa]@[pa] == at[at.len() - 1].old_txn_idx;
                            assert(cands[sa]@[pa] != cands[shard_id as int]@[pos as int]);
                        } else if t0.promoted_txn_ids@.len() > 0 {
                            assert((t0.promoted_txn_ids@ + at).last() == t0.promoted_txn_ids@[t0.promoted_txn_ids@.len() - 1]);
                            assert(!is_candidate_value(cands, reg0.trackers@[id].promoted_txn_ids@[t0.promoted_txn_ids@.len() - 1].old_txn_idx));
                        }
                    }
                }
                let fat = TxnFatId::new(round_id, shard_id, txn_id);
                reg.promote(txns, txn_id, fat);
                proof {
                    assert forall|id: int| 0 <= id < reg.trackers@.len() implies {
                        let t = #[trigger] reg.trackers@[id];
                        let t0 = reg0.trackers@[id];
                        let key = reg0.location_keys@[id];
                        &&& t.promoted_writer_ids@ == t0.promoted_writer_ids@ + round_slots(
                            txns@, k, cands, starts@, round_id, key, true, shard_id as nat, (pos + 1) as nat)
                        &&& t.promoted_txn_ids@ == t0.promoted_txn_ids@ + round_slots(
                            txns@, k, cands, starts@, round_id, key, false, shard_id as nat, (pos + 1) as nat)
                    } by {
                        let t0 = reg0.trackers@[id];
                        let key = reg0.location_keys@[id];
                        assert(reg.trackers@[id].promoted_writer_ids@ =~= t0.promoted_writer_ids@ + round_slots(
                            txns@, k, cands, starts@, round_id, key, true, shard_id as nat, (pos + 1) as nat));
                        assert(reg.trackers@[id].promoted_txn_ids@ =~= t0.promoted_txn_ids@ + round_slots(
                            txns@, k, cands, starts@, round_id, key, false, shard_id as nat, (pos + 1) as nat));
                    }
                    assert(reg.trackers_built(txns@, k)) by {
                        assert forall|id: int| 0 <= id < reg.trackers@.len() implies {
                            let t = #[trigger] reg.trackers@[id];
                            let key = reg.location_keys@[id];
                            &&& t.anchor_shard_id == anchor_shard(key, k)
                            &&& t.candidate_writers@ == crate::registry::writers_upto(txns@, key, txns@.len())
                        } by {
                            assert(before.trackers@[id].anchor_shard_id == reg.trackers@[id].anchor_shard_id);
                        }
                    }
                }
                accepted_ids.push(txn_id);
            } else {
                discarded_ids.push(txn_id);
            }
            pos += 1;
        }
        accepted_by_shard.push(accepted_ids);
        discarded_by_shard.push(discarded_ids);
        shard_id += 1;
    }
    (accepted_by_shard, discarded_by_shard)
}

/// Candidate lists that are the initial chunks, with their start table.
pub open spec fn initial_round(n: nat, k: nat, cands: Seq<Vec<usize>>, starts: Seq<usize>) -> bool {
    &&& cands.len() == k
    &&& starts.len() == k
    &&& forall|s: int| 0 <= s < k ==> #[trigger] cands[s]@ == chunk(n, k, s as nat)
    &&& forall|s: int| 0 <= s < k ==> #[trigger] starts[s] == chunk_start(n, k, s as nat)
}

/// On the initial chunks, a candidate's conflict test is the model's.
proof fn lemma_initial_conflict(
    txns: Seq<AnalyzedTransaction>,
    k: nat,
    cands: Seq<Vec<usize>>,
    starts: Seq<usize>,
    i: int,
    s: int,
)
    requires
        0 < k <= usize::MAX,
        txns.len() < usize::MAX,
        initial_round(txns.len(), k, cands, starts),
        0 <= i < txns.len(),
        0 <= s < k,
        in_chunk(txns.len(), k, s as nat, i as nat),
    ensures
        round_conflict(txns, k, starts, i, s) == conflicts(txns, k, i),
{
    let n = txns.len();
    lemma_shard_of(n, k, i as nat);
    assert(shard_of(n, k, i as nat) == s);
    if round_conflict(txns, k, starts, i, s) {
        let (key, w) = choose|key: u64, w: int|
            #![trigger touches(txns, i, key), writes(txns, w, key)]
            touches(txns, i, key) && writes(txns, w, key) && 0 <= w < txns.len() && starts[anchor_shard(key, k) as int] <= w < starts[s];
        assert(anchor_shard(key, k) < k);
        assert(starts[anchor_shard(key, k) as int] == chunk_start(n, k, anchor_shard(key, k)));
    }
    if conflicts(txns, k, i) {
        let (key, w) = choose|key: u64, w: int|
            #![trigger touches(txns, i, key), writes(txns, w, key)]
            touches(txns, i, key) && writes(txns, w, key) && 0 <= w < n && chunk_start(n, k, anchor_shard(key, k)) <= w < chunk_start(n, k, shard_of(n, k, i as nat));
        assert(anchor_shard(key, k) < k);
        assert(starts[anchor_shard(key, k) as int] == chunk_start(n, k, anchor_shard(key, k)));
    }
}

/// On the initial chunks, acceptance in a discarding round is the model's.
pub proof fn lemma_initial_round_accepted(
    txns: Seq<AnalyzedTransaction>,
    k: nat,
    cands: Seq<Vec<usize>>,
    starts: Seq<usize>,
    j: int,
)
    requires
        0 < k <= usize::MAX,
        txns.len() < usize::MAX,
        initial_round(txns.len(), k, cands, starts),
        0 <= j < txns.len(),
    ensures
        round_accepted(txns, k, cands, starts, j) == accepted(txns, k, j),
{
    let n = txns.len();
    lemma_chunk_start_zero_and_end(n, k);
    if round_accepted(txns, k, cands, starts, j) {
        assert forall|i: int| 0 <= i <= j && txns[i].sender == txns[j].sender implies !#[trigger] conflicts(
            txns,
            k,
            i,
        ) by {
            lemma_shard_of(n, k, i as nat);
            let s = shard_of(n, k, i as nat);
            lemma_chunk_start_mono(n, k, s, s + 1);
            lemma_chunk_start_mono(n, k, s + 1, k);
            let p = i - chunk_start(n, k, s);
            assert(cands[s as int]@[p] == i);
            assert(is_candidate(cands, s as int, p));
            assert(!round_conflict(txns, k, starts, cands[s as int]@[p] as int, s as int));
            lemma_initial_conflict(txns, k, cands, starts, i, s as int);
        }
    } else {
        let (s, p) = choose|s: int, p: int|
            is_candidate(cands, s, p) && cands[s]@[p] <= j && txns[cands[s]@[p] as int].sender
                == txns[j].sender && #[trigger] round_conflict(txns, k, starts, cands[s]@[p] as int, s);
        lemma_chunk_start_mono(n, k, s as nat, (s + 1) as nat);
        lemma_chunk_start_mono(n, k, (s + 1) as nat, k);
        let i = cands[s]@[p] as int;
        assert(in_chunk(n, k, s as nat, i as nat));
        lemma_initial_conflict(txns, k, cands, starts, i, s);
        assert(conflicts(txns, k, i));
    }
}

/// On the initial chunks, a shard's accepted (or discarded) candidates are
/// the model's cell, and the slots added are the model's round-0 promotions.
pub proof fn lemma_initial_round(
    txns: Seq<AnalyzedTransaction>,
    k: nat,
    cands: Seq<Vec<usize>>,
    starts: Seq<usize>,
    key: u64,
    write_only: bool,
    s: nat,
    p: nat,
)
    requires
        0 < k <= usize::MAX,
        txns.len() < usize::MAX,
        initial_round(txns.len(), k, cands, starts),
        s < k,
        p <= cands[s as int]@.len(),
    ensures
        shard_split(txns, k, cands, starts, s as int, p, true) == range_where(
            txns,
            k,
            chunk_start(txns.len(), k, s),
            chunk_start(txns.len(), k, s) + p,
            true,
        ),
        shard_split(txns, k, cands, starts, s as int, p, false) == range_where(
            txns,
            k,
            chunk_start(txns.len(), k, s),
            chunk_start(txns.len(), k, s) + p,
            false,
        ),
        round_slots(txns, k, cands, starts, 0, key, write_only, s, p) == slots_where(
            txns,
            k,
            key,
            chunk_start(txns.len(), k, s) + p,
            true,
            write_only,
        ),
    decreases s, p,
{
    let n = txns.len();
    lemma_chunk_start_zero_and_end(n, k);
    lemma_chunk_start_mono(n, k, s, s + 1);
    lemma_chunk_start_mono(n, k, s + 1, k);
    let lo = chunk_start(n, k, s);
    if p == 0 {
        assert(range_where(txns, k, lo, lo, true) == Seq::<usize>::empty());
        assert(range_where(txns, k, lo, lo, false) == Seq::<usize>::empty());
        if s > 0 {
            let pl = cands[s - 1]@.len();
            lemma_initial_round(txns, k, cands, starts, key, write_only, (s - 1) as nat, pl);
            lemma_chunk_start_mono(n, k, (s - 1) as nat, s);
        }
    } else {
        lemma_initial_round(txns, k, cands, starts, key, write_only, s, (p - 1) as nat);
        let j = cands[s as int]@[p - 1];
        assert(j == lo + p - 1);
        lemma_initial_round_accepted(txns, k, cands, starts, j as int);
        assert(in_chunk(n, k, s, j as nat));
        lemma_shard_of(n, k, j as nat);
        assert(accepted(txns, k, j as int) ==> slot(txns, k, j as int) == (TxnFatId {
            round_id: 0,
            shard_id: s as usize,
            old_txn_idx: j,
        }));
    }
}

/// The catch-all: every transaction discarded in round 0 is promoted into
/// round 1 of the last shard. Returns them in original order.
pub fn promote_catch_all(
    txns: &Vec<AnalyzedTransaction>,
    reg: &mut KeyRegistry,
    discarded: &Vec<Vec<usize>>,
) -> (last_round_txns: Vec<usize>)
    requires
        discarded@.len() > 0,
        block_fits(txns@),
        ({
            let n = txns@.len();
            let k = discarded@.len() as nat;
            &&& old(reg).locations_wf(txns@, n)
            &&& old(reg).trackers_at(txns@, k, n, 0)
            &&& forall|s: int|
                0 <= s < k ==> (#[trigger] discarded@[s])@ == range_where(
                    txns@,
                    k,
                    chunk_start(n, k, s as nat),
                    chunk_start(n, k, (s + 1) as nat),
                    false,
                )
        }),
    ensures
        final(reg).same_keys(*old(reg)),
        final(reg).trackers_at(txns@, discarded@.len() as nat, txns@.len(), txns@.len()),
        last_round_txns@ == range_where(txns@, discarded@.len() as nat, 0, txns@.len(), false),
{
    let num_shards = discarded.len();
    let ghost n = txns@.len();
    let ghost k = num_shards as nat;
    let ghost reg0 = *reg;
    let mut last_round_txns: Vec<usize> = Vec::new();
    let mut shard_id: usize = 0;
    let mut txn_id: usize = 0;
    proof {
        lemma_chunk_start_zero_and_end(n, k);
    }
    while shard_id < num_shards
        invariant
            num_shards == discarded@.len() == k,
            k > 0,
            n == txns@.len(),
            block_fits(txns@),
            reg.same_keys(reg0),
            reg0.locations_wf(txns@, n),
            reg.locations_wf(txns@, n),
            reg.trackers_at(txns@, k, n, txn_id as nat),
            forall|s: int|
                0 <= s < k ==> (#[trigger] discarded@[s])@ == range_where(
                    txns@,
                    k,
                    chunk_start(n, k, s as nat),
                    chunk_start(n, k, (s + 1) as nat),
                    false,
                ),
            shard_id <= num_shards,
            txn_id == chunk_start(n, k, shard_id as nat),
            last_round_txns@ == range_where(txns@, k, 0, txn_id as nat, false),
        decreases num_shards - shard_id,
    {
        let txn_ids = &discarded[shard_id];
        let ghost lo = chunk_start(n, k, shard_id as nat);
        let ghost hi = chunk_start(n, k, (shard_id + 1) as nat);
        proof {
            lemma_chunk_start_zero_and_end(n, k);
            lemma_chunk_start_mono(n, k, (shard_id + 1) as nat, k);
            lemma_chunk_start_mono(n, k, shard_id as nat, (shard_id + 1) as nat);
        }
        proof {
            crate::chunks::lemma_chunk_step(n, k, shard_id as nat);
        }
        let end = txn_id + (txns.len() / num_shards) + if shard_id < txns.len() % num_shards {
            1
        } else {
            0
        };
        assert(end == hi);
        let mut pos: usize = 0;
        while txn_id < end
            invariant
                num_shards == discarded@.len() == k,
                k > 0,
                n == txns@.len(),
                block_fits(txns@),
                reg.same_keys(reg0),
                reg0.locations_wf(txns@, n),
                reg.locations_wf(txns@, n),
                reg.trackers_at(txns@, k, n, txn_id as nat),
                lo <= txn_id <= end,
                end == hi <= n,
                txn_ids@ == range_where(txns@, k, lo, hi, false),
                pos == range_where(txns@, k, lo, txn_id as nat, false).len(),
                last_round_txns@ == range_where(txns@, k, 0, txn_id as nat, false),
            decreases end - txn_id,
        {
            let ghost i = txn_id as nat;
            proof {
                lemma_range_where_concat(txns@, k, lo, i, hi, false);
                lemma_range_where_concat(txns@, k, i, i + 1, hi, false);
                lemma_range_where(txns@, k, i + 1, hi, false);
                lemma_range_where(txns@, k, lo, i, false);
                assert(range_where(txns@, k, i, i, false) == Seq::<usize>::empty());
            }
            if pos < txn_ids.len() && txn_ids[pos] == txn_id {
                assert(!accepted(txns@, k, txn_id as int)) by {
                    if accepted(txns@, k, txn_id as int) {
                        assert(range_where(txns@, k, i, i + 1, false).len() == 0);
                        let rest = range_where(txns@, k, i + 1, hi, false);
                        assert(txn_ids@[pos as int] == rest[0]);
                    }
                }
                let ghost before = *reg;
                proof {
                    assert forall|id: int| 0 <= id < reg.trackers@.len() implies {
                        let t = #[trigger] reg.trackers@[id];
                        &&& t.promoted_txn_ids@.len() > 0 ==> t.promoted_txn_ids@.last().old_txn_idx != txn_id
                        &&& t.promoted_writer_ids@.len() > 0 ==> t.promoted_writer_ids@.last().old_txn_idx
                            != txn_id
                    } by {
                        let key = reg.location_keys@[id];
                        lemma_slots_where(txns@, k, key, n, true, true);
                        lemma_slots_where(txns@, k, key, n, true, false);
                        lemma_slots_where(txns@, k, key, i, false, true);
                        lemma_slots_where(txns@, k, key, i, false, false);
                        let a = slots_where(txns@, k, key, n, true, true);
                        let b = slots_where(txns@, k, key, i, false, true);
                        if b.len() > 0 {
                            assert((a + b).last() == b.last());
                        } else if a.len() > 0 {
                            assert((a + b).last() == a.last());
                        }
                        let a2 = slots_where(txns@, k, key, n, true, false);
                        let b2 = slots_where(txns@, k, key, i, false, false);
                        if b2.len() > 0 {
                            assert((a2 + b2).last() == b2.last());
                        } else if a2.len() > 0 {
                            assert((a2 + b2).last() == a2.last());
                        }
                    }
                }
                let fat = TxnFatId::new(1, num_shards - 1, txn_id);
                assert(fat == slot(txns@, k, txn_id as int));
                reg.promote(txns, txn_id, fat);
                proof {
                    assert forall|id: int| 0 <= id < reg.trackers@.len() implies {
                        let t = #[trigger] reg.trackers@[id];
                        let key = reg.location_keys@[id];
                        &&& t.promoted_writer_ids@ == slots_where(txns@, k, key, n, true, true)
                            + slots_where(txns@, k, key, i + 1, false, true)
                        &&& t.promoted_txn_ids@ == slots_where(txns@, k, key, n, true, false)
                            + slots_where(txns@, k, key, i + 1, false, false)
                    } by {
                        let key = reg.location_keys@[id];
                        assert(reg.trackers@[id].promoted_writer_ids@ =~= slots_where(txns@, k, key, n, true, true)
                            + slots_where(txns@, k, key, i + 1, false, true));
                        assert(reg.trackers@[id].promoted_txn_ids@ =~= slots_where(txns@, k, key, n, true, false)
                            + slots_where(txns@, k, key, i + 1, false, false));
                    }
                    assert(reg.trackers_built(txns@, k)) by {
                        assert forall|id: int| 0 <= id < reg.trackers@.len() implies {
                            let t = #[trigger] reg.trackers@[id];
                            let key = reg.location_keys@[id];
                            &&& t.anchor_shard_id == anchor_shard(key, k)
                            &&& t.candidate_writers@ == crate::registry::writers_upto(txns@, key, txns@.len())
                        } by {
                            assert(before.trackers@[id].anchor_shard_id == reg.trackers@[id].anchor_shard_id);
                        }
                    }
                }
                last_round_txns.push(txn_id);
                pos += 1;
            } else {
                assert(accepted(txns@, k, txn_id as int)) by {
                    if !accepted(txns@, k, txn_id as int) {
                        assert(range_where(txns@, k, i, i + 1, false) =~= seq![txn_id]);
                        assert(txn_ids@[pos as int] == txn_id);
                    }
                }
                proof {
                    assert forall|id: int| 0 <= id < reg.trackers@.len() implies {
                        let t = #[trigger] reg.trackers@[id];
                        let key = reg.location_keys@[id];
                        &&& t.promoted_writer_ids@ == slots_where(txns@, k, key, n, true, true)
                            + slots_where(txns@, k, key, i + 1, false, true)
                        &&& t.promoted_txn_ids@ == slots_where(txns@, k, key, n, true, false)
                            + slots_where(txns@, k, key, i + 1, false, false)
                    } by {
                        let key = reg.location_keys@[id];
                        assert(slots_where(txns@, k, key, i + 1, false, true) == slots_where(txns@, k, key, i, false, true));
                        assert(slots_where(txns@, k, key, i + 1, false, false) == slots_where(txns@, k, key, i, false, false));
                    }
                }
            }
            txn_id += 1;
        }
        shard_id += 1;
    }
    last_round_txns
}

} // verus!
