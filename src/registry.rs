//! Key registry: dense ids for senders and storage locations, and one conflict
//! tracker per location.
use vstd::prelude::*;
use std::collections::HashMap;
use crate::fat_id::TxnFatId;
use crate::model::{anchor_shard, slots_where, touches, writes};
use crate::types::AnalyzedTransaction;

verus! {

broadcast use vstd::std_specs::hash::group_hash_axioms;

/// The transactions below `m` that write `key`, in original order.
pub open spec fn writers_upto(txns: Seq<AnalyzedTransaction>, key: u64, m: nat) -> Seq<usize>
    decreases m,
{
    if m == 0 {
        Seq::empty()
    } else {
        let prev = writers_upto(txns, key, (m - 1) as nat);
        if writes(txns, m - 1, key) {
            prev.push((m - 1) as usize)
        } else {
            prev
        }
    }
}

/// `seen` followed by each key of `ks` that is not already listed, in order.
pub open spec fn add_unseen(seen: Seq<u64>, ks: Seq<u64>) -> Seq<u64>
    decreases ks.len(),
{
    if ks.len() == 0 {
        seen
    } else {
        let s = add_unseen(seen, ks.drop_last());
        if s.contains(ks.last()) {
            s
        } else {
            s.push(ks.last())
        }
    }
}

/// The distinct locations touched by the first `m` transactions, in order of first sight.
pub open spec fn seen_locations(txns: Seq<AnalyzedTransaction>, m: nat) -> Seq<u64>
    decreases m,
{
    if m == 0 {
        Seq::empty()
    } else {
        add_unseen(seen_locations(txns, (m - 1) as nat), txns[m - 1].hints())
    }
}

/// The distinct senders of the first `m` transactions, in order of first sight.
pub open spec fn seen_senders(txns: Seq<AnalyzedTransaction>, m: nat) -> Seq<u64>
    decreases m,
{
    if m == 0 {
        Seq::empty()
    } else {
        let s = seen_senders(txns, (m - 1) as nat);
        if s.contains(txns[m - 1].sender) {
            s
        } else {
            s.push(txns[m - 1].sender)
        }
    }
}

/// The block's sizes fit the machine: fewer than `usize::MAX` transactions,
/// and at most `usize::MAX` hints in each.
pub open spec fn block_fits(txns: Seq<AnalyzedTransaction>) -> bool {
    &&& txns.len() < usize::MAX
    &&& forall|i: int|
        0 <= i < txns.len() ==> (#[trigger] txns[i]).write_hints@.len() + txns[i].read_hints@.len()
            <= usize::MAX
}

/// Entries strictly increase.
pub open spec fn strictly_sorted(v: Seq<usize>) -> bool {
    forall|a: int, b: int| 0 <= a < b < v.len() ==> v[a] < v[b]
}

/// `writers_upto` lists exactly the writers below `m`, in increasing order.
pub proof fn lemma_writers_upto(txns: Seq<AnalyzedTransaction>, key: u64, m: nat)
    requires
        m <= usize::MAX,
    ensures
        strictly_sorted(writers_upto(txns, key, m)),
        forall|j: int|
            0 <= j < writers_upto(txns, key, m).len() ==> #[trigger] writers_upto(txns, key, m)[j]
                < m && writes(txns, writers_upto(txns, key, m)[j] as int, key),
        forall|w: int|
            0 <= w < m && writes(txns, w, key) ==> writers_upto(txns, key, m).contains(w as usize),
    decreases m,
{
    if m > 0 {
        lemma_writers_upto(txns, key, (m - 1) as nat);
        let prev = writers_upto(txns, key, (m - 1) as nat);
        assert forall|w: int| 0 <= w < m && writes(txns, w, key) implies writers_upto(
            txns,
            key,
            m,
        ).contains(w as usize) by {
            if w < m - 1 {
                let x = choose|x: int| 0 <= x < prev.len() && prev[x] == w as usize;
                assert(writers_upto(txns, key, m)[x] == w as usize);
            } else {
                assert(writers_upto(txns, key, m).last() == w as usize);
            }
        }
    }
}

/// Without writers below `m`, the list is empty.
proof fn lemma_no_writers(txns: Seq<AnalyzedTransaction>, key: u64, m: nat)
    requires
        forall|j: int| 0 <= j < m ==> !writes(txns, j, key),
    ensures
        writers_upto(txns, key, m) == Seq::<usize>::empty(),
    decreases m,
{
    if m > 0 {
        lemma_no_writers(txns, key, (m - 1) as nat);
    }
}

/// Conflict bookkeeping for one storage location.
pub struct LocationTracker {
    /// The location's anchor shard.
    pub anchor_shard_id: usize,
    /// The transactions that write the location, in original order.
    pub candidate_writers: Vec<usize>,
    /// Slots of the scheduled writers, in slot order.
    pub promoted_writer_ids: Vec<TxnFatId>,
    /// Slots of all scheduled transactions touching the location, in slot order.
    pub promoted_txn_ids: Vec<TxnFatId>,
}

impl LocationTracker {
    pub fn new(anchor_shard_id: usize) -> (r: Self)
        ensures
            r.anchor_shard_id == anchor_shard_id,
            r.candidate_writers@ == Seq::<usize>::empty(),
            r.promoted_writer_ids@ == Seq::<TxnFatId>::empty(),
            r.promoted_txn_ids@ == Seq::<TxnFatId>::empty(),
    {
        LocationTracker {
            anchor_shard_id,
            candidate_writers: Vec::new(),
            promoted_writer_ids: Vec::new(),
            promoted_txn_ids: Vec::new(),
        }
    }

    /// Records `txn_id` as a writer, unless it is already the latest one.
    pub fn add_candidate_writer(&mut self, txn_id: usize)
        ensures
            final(self).candidate_writers@ == (if old(self).candidate_writers@.len() > 0
                && old(self).candidate_writers@.last() == txn_id {
                old(self).candidate_writers@
            } else {
                old(self).candidate_writers@.push(txn_id)
            }),
            final(self).anchor_shard_id == old(self).anchor_shard_id,
            final(self).promoted_writer_ids@ == old(self).promoted_writer_ids@,
            final(self).promoted_txn_ids@ == old(self).promoted_txn_ids@,
    {
        let len = self.candidate_writers.len();
        if len == 0 || self.candidate_writers[len - 1] != txn_id {
            self.candidate_writers.push(txn_id);
        }
    }

    /// Records that the transaction in slot `fat` touches the location (and
    /// writes it, when `is_write`), unless that transaction is already recorded.
    pub fn promote_txn_id(&mut self, fat: TxnFatId, is_write: bool)
        ensures
            final(self).promoted_txn_ids@ == (if old(self).promoted_txn_ids@.len() > 0
                && old(self).promoted_txn_ids@.last().old_txn_idx == fat.old_txn_idx {
                old(self).promoted_txn_ids@
            } else {
                old(self).promoted_txn_ids@.push(fat)
            }),
            final(self).promoted_writer_ids@ == (if !is_write || (
            old(self).promoted_writer_ids@.len() > 0
                && old(self).promoted_writer_ids@.last().old_txn_idx == fat.old_txn_idx) {
                old(self).promoted_writer_ids@
            } else {
                old(self).promoted_writer_ids@.push(fat)
            }),
            final(self).anchor_shard_id == old(self).anchor_shard_id,
            final(self).candidate_writers@ == old(self).candidate_writers@,
    {
        let len = self.promoted_txn_ids.len();
        if len == 0 || self.promoted_txn_ids[len - 1].old_txn_idx != fat.old_txn_idx {
            self.promoted_txn_ids.push(fat);
        }
        if is_write {
            let len = self.promoted_writer_ids.len();
            if len == 0 || self.promoted_writer_ids[len - 1].old_txn_idx != fat.old_txn_idx {
                self.promoted_writer_ids.push(fat);
            }
        }
    }

    /// Whether a candidate writer has an original index in `[start, end)`.
    pub fn has_write_in_range(&self, start: usize, end: usize) -> (r: bool)
        requires
            strictly_sorted(self.candidate_writers@),
        ensures
            r == exists|j: int|
                0 <= j < self.candidate_writers@.len() && start <= #[trigger] self.candidate_writers@[j]
                    < end,
    {
        let v = &self.candidate_writers;
        let mut lo: usize = 0;
        let mut hi: usize = v.len();
        while lo < hi
            invariant
                hi <= v@.len(),
                lo <= hi,
                strictly_sorted(v@),
                forall|j: int| 0 <= j < lo ==> #[trigger] v@[j] < start,
                forall|j: int| hi <= j < v@.len() ==> #[trigger] v@[j] >= start,
            decreases hi - lo,
        {
            let mid = lo + (hi - lo) / 2;
            if v[mid] < start {
                lo = mid + 1;
            } else {
                hi = mid;
            }
        }
        if lo < v.len() && v[lo] < end {
            true
        } else {
            proof {
                assert forall|j: int| 0 <= j < v@.len() implies !(start <= #[trigger] v@[j] < end) by {
                    if j > lo {
                        assert(v@[lo as int] < v@[j]);
                    }
                }
            }
            false
        }
    }
}

/// Dense ids for the senders and locations of a block, with one tracker per location.
pub struct KeyRegistry {
    /// Per transaction, its sender's id.
    pub sender_ids: Vec<usize>,
    pub num_senders: usize,
    /// Per transaction, the id of each location it touches, writes first, then reads.
    pub location_ids: Vec<Vec<usize>>,
    /// Per location id, the location's key.
    pub location_keys: Vec<u64>,
    /// Per location id, its conflict tracker.
    pub trackers: Vec<LocationTracker>,
}

impl KeyRegistry {
    /// Ids of senders: equal exactly for equal senders.
    pub open spec fn senders_wf(self, txns: Seq<AnalyzedTransaction>, m: nat) -> bool {
        &&& self.sender_ids@.len() == m
        &&& forall|i: int| 0 <= i < m ==> #[trigger] self.sender_ids@[i] < self.num_senders
        &&& forall|i: int, j: int|
            0 <= i < m && 0 <= j < m ==> (#[trigger] self.sender_ids@[i]
                == #[trigger] self.sender_ids@[j] <==> txns[i].sender == txns[j].sender)
    }

    /// Ids of locations: one per distinct key, recorded for each hint of the
    /// first `m` transactions.
    pub open spec fn locations_wf(self, txns: Seq<AnalyzedTransaction>, m: nat) -> bool {
        &&& self.location_ids@.len() == m
        &&& forall|i: int|
            0 <= i < m ==> (#[trigger] self.location_ids@[i])@.len() == txns[i].hints().len()
        &&& forall|i: int, h: int|
            0 <= i < m && 0 <= h < txns[i].hints().len() ==> {
                let id = #[trigger] self.location_ids@[i]@[h];
                &&& id < self.location_keys@.len()
                &&& self.location_keys@[id as int] == txns[i].hints()[h]
            }
        &&& forall|a: int, b: int|
            0 <= a < b < self.location_keys@.len() ==> self.location_keys@[a]
                != self.location_keys@[b]
        &&& self.trackers@.len() == self.location_keys@.len()
    }

    /// Each tracker holds its location's anchor shard and candidate writers.
    pub open spec fn trackers_built(self, txns: Seq<AnalyzedTransaction>, k: nat) -> bool {
        forall|id: int|
            0 <= id < self.trackers@.len() ==> {
                let t = #[trigger] self.trackers@[id];
                let key = self.location_keys@[id];
                &&& t.anchor_shard_id == anchor_shard(key, k)
                &&& t.candidate_writers@ == writers_upto(txns, key, txns.len())
            }
    }

    /// Trackers after promoting the accepted transactions below `m0` and the
    /// rejected ones below `m1`.
    pub open spec fn trackers_at(self, txns: Seq<AnalyzedTransaction>, k: nat, m0: nat, m1: nat) -> bool {
        &&& self.trackers_built(txns, k)
        &&& forall|id: int|
            0 <= id < self.trackers@.len() ==> {
                let t = #[trigger] self.trackers@[id];
                let key = self.location_keys@[id];
                &&& t.promoted_writer_ids@ == slots_where(txns, k, key, m0, true, true)
                    + slots_where(txns, k, key, m1, false, true)
                &&& t.promoted_txn_ids@ == slots_where(txns, k, key, m0, true, false)
                    + slots_where(txns, k, key, m1, false, false)
            }
    }

    /// Ids are handed out densely in order of first sight: sender id `x` is
    /// the `x`-th distinct sender, location id `x` the `x`-th distinct location.
    pub open spec fn ids_first_sight(self, txns: Seq<AnalyzedTransaction>) -> bool {
        let senders = seen_senders(txns, txns.len());
        &&& self.num_senders == senders.len()
        &&& forall|i: int|
            0 <= i < txns.len() ==> senders[#[trigger] self.sender_ids@[i] as int]
                == txns[i].sender
        &&& self.location_keys@ == seen_locations(txns, txns.len())
    }

    /// The registry as built for `txns` and `k` shards.
    pub open spec fn wf(self, txns: Seq<AnalyzedTransaction>, k: nat) -> bool {
        &&& self.senders_wf(txns, txns.len())
        &&& self.locations_wf(txns, txns.len())
        &&& self.ids_first_sight(txns)
        &&& self.trackers_at(txns, k, 0, 0)
    }

    /// Everything but the trackers' promoted sets is as `other` has it.
    pub open spec fn same_keys(self, other: Self) -> bool {
        &&& self.sender_ids@ == other.sender_ids@
        &&& self.num_senders == other.num_senders
        &&& self.location_ids@ == other.location_ids@
        &&& self.location_keys@ == other.location_keys@
        &&& self.trackers@.len() == other.trackers@.len()
        &&& forall|id: int|
            0 <= id < self.trackers@.len() ==> (#[trigger] self.trackers@[id]).anchor_shard_id
                == other.trackers@[id].anchor_shard_id && self.trackers@[id].candidate_writers@
                == other.trackers@[id].candidate_writers@
    }

    /// Promotes transaction `i` into slot `fat` at every location it touches.
    pub fn promote(&mut self, txns: &Vec<AnalyzedTransaction>, i: usize, fat: TxnFatId)
        requires
            block_fits(txns@),
            i < txns@.len(),
            fat.old_txn_idx == i,
            old(self).locations_wf(txns@, txns@.len()),
            forall|id: int|
                0 <= id < old(self).trackers@.len() ==> {
                    let t = #[trigger] old(self).trackers@[id];
                    &&& t.promoted_txn_ids@.len() > 0 ==> t.promoted_txn_ids@.last().old_txn_idx != i
                    &&& t.promoted_writer_ids@.len() > 0 ==> t.promoted_writer_ids@.last().old_txn_idx
                        != i
                },
        ensures
            final(self).same_keys(*old(self)),
            forall|id: int|
                0 <= id < final(self).trackers@.len() ==> {
                    let t = #[trigger] final(self).trackers@[id];
                    let t0 = old(self).trackers@[id];
                    let key = old(self).location_keys@[id];
                    &&& t.promoted_txn_ids@ == if touches(txns@, i as int, key) {
                        t0.promoted_txn_ids@.push(fat)
                    } else {
                        t0.promoted_txn_ids@
                    }
                    &&& t.promoted_writer_ids@ == if writes(txns@, i as int, key) {
                        t0.promoted_writer_ids@.push(fat)
                    } else {
                        t0.promoted_writer_ids@
                    }
                },
    {
        let ghost before = *self;
        let txn = &txns[i];
        let num_writes = txn.write_hints.len();
        assert(txn.write_hints@.len() + txn.read_hints@.len() <= usize::MAX);
        let num_hints = num_writes + txn.read_hints.len();
        let mut h: usize = 0;
        while h < num_hints
            invariant
                i < txns@.len(),
                *txn == txns@[i as int],
                fat.old_txn_idx == i,
                num_writes == txn.write_hints@.len(),
                num_hints == txn.hints().len(),
                h <= num_hints,
                before.locations_wf(txns@, txns@.len()),
                self.same_keys(before),
                forall|id: int|
                    0 <= id < self.trackers@.len() ==> {
                        let t = #[trigger] self.trackers@[id];
                        let t0 = before.trackers@[id];
                        let key = before.location_keys@[id];
                        &&& t.promoted_txn_ids@ == if txn.hints().take(h as int).contains(key) {
                            t0.promoted_txn_ids@.push(fat)
                        } else {
                            t0.promoted_txn_ids@
                        }
                        &&& t.promoted_writer_ids@ == if txn.write_hints@.take(
                            if h < num_writes {
                                h as int
                            } else {
                                num_writes as int
                            },
                        ).contains(key) {
                            t0.promoted_writer_ids@.push(fat)
                        } else {
                            t0.promoted_writer_ids@
                        }
                        &&& t0.promoted_txn_ids@.len() > 0 ==> t0.promoted_txn_ids@.last().old_txn_idx
                            != i
                        &&& t0.promoted_writer_ids@.len() > 0
                            ==> t0.promoted_writer_ids@.last().old_txn_idx != i
                    },
            decreases num_hints - h,
        {
            let loc_id = self.location_ids[i][h];
            let ghost key = txn.hints()[h as int];
            assert(loc_id < before.location_keys@.len() && before.location_keys@[loc_id as int]
                == key);
            let ghost hp = txn.hints().take(h as int);
            let ghost wp = txn.write_hints@.take(
                if h < num_writes {
                    h as int
                } else {
                    num_writes as int
                },
            );
            let ghost wn = txn.write_hints@.take(
                if h + 1 < num_writes {
                    (h + 1) as int
                } else {
                    num_writes as int
                },
            );
            proof {
                assert(txn.hints().take(h + 1) == hp.push(key));
                if h < num_writes {
                    assert(wn == wp.push(key)) by {
                        assert(txn.write_hints@[h as int] == key);
                        assert(wn =~= wp.push(key));
                    }
                } else {
                    assert(wn == wp);
                    assert(wp =~= txn.write_hints@);
                    if txn.write_hints@.contains(key) {
                        let x = choose|x: int|
                            0 <= x < txn.write_hints@.len() && txn.write_hints@[x] == key;
                        assert(hp[x] == key);
                    }
                }
                if wp.contains(key) {
                    let x = choose|x: int| 0 <= x < wp.len() && wp[x] == key;
                    assert(hp[x] == key);
                }
            }
            self.trackers[loc_id].promote_txn_id(fat, h < num_writes);
            proof {
                let hn = txn.hints().take(h + 1);
                assert forall|id: int| 0 <= id < self.trackers@.len() && id != loc_id implies (
                #[trigger] hn.contains(before.location_keys@[id]) == hp.contains(
                    before.location_keys@[id],
                ) && wn.contains(before.location_keys@[id]) == wp.contains(
                    before.location_keys@[id],
                )) by {
                    let k2 = before.location_keys@[id];
                    if hn.contains(k2) {
                        let x = choose|x: int| 0 <= x < hn.len() && hn[x] == k2;
                        if x < h {
                            assert(hp[x] == k2);
                        }
                    }
                    if hp.contains(k2) {
                        let x = choose|x: int| 0 <= x < hp.len() && hp[x] == k2;
                        assert(hn[x] == k2);
                    }
                    if wn.contains(k2) {
                        let x = choose|x: int| 0 <= x < wn.len() && wn[x] == k2;
                        if x < wp.len() {
                            assert(wp[x] == k2);
                        }
                    }
                    if wp.contains(k2) {
                        let x = choose|x: int| 0 <= x < wp.len() && wp[x] == k2;
                        assert(wn[x] == k2);
                    }
                }
                assert(hn.contains(key)) by {
                    assert(hn[h as int] == key);
                }
                let t = self.trackers@[loc_id as int];
                let t0 = before.trackers@[loc_id as int];
                assert(t.promoted_txn_ids@ == t0.promoted_txn_ids@.push(fat));
                if h < num_writes {
                    assert(wn.contains(key)) by {
                        assert(wn[h as int] == key);
                    }
                    assert(t.promoted_writer_ids@ == t0.promoted_writer_ids@.push(fat));
                }
            }
            h += 1;
        }
        proof {
            assert(txn.hints().take(num_hints as int) =~= txn.hints());
            assert(txn.write_hints@.take(num_writes as int) =~= txn.write_hints@);
        }
    }

    /// Registers the senders and locations of `txns`, in original order: each
    /// new sender or location gets the next dense id, and each location's
    /// tracker gets its anchor shard and its writers.
    pub fn build(txns: &Vec<AnalyzedTransaction>, num_shards: usize) -> (r: Self)
        requires
            num_shards > 0,
            block_fits(txns@),
        ensures
            r.wf(txns@, num_shards as nat),
    {
        let ghost k = num_shards as nat;
        let mut reg = KeyRegistry {
            sender_ids: Vec::new(),
            num_senders: 0,
            location_ids: Vec::new(),
            location_keys: Vec::new(),
            trackers: Vec::new(),
        };
        let mut sender_map: HashMap<u64, usize> = HashMap::new();
        let mut key_map: HashMap<u64, usize> = HashMap::new();
        let ghost mut senders_seen: Seq<u64> = Seq::empty();
        let mut i: usize = 0;
        while i < txns.len()
            invariant
                num_shards > 0,
                k == num_shards,
                i <= txns@.len() < usize::MAX,
                block_fits(txns@),
                reg.num_senders <= i,
                reg.senders_wf(txns@, i as nat),
                reg.locations_wf(txns@, i as nat),
                forall|j: int|
                    0 <= j < i ==> sender_map@.contains_key(#[trigger] txns@[j].sender)
                        && sender_map@[txns@[j].sender] == reg.sender_ids@[j],
                forall|key: u64|
                    #[trigger] sender_map@.contains_key(key) ==> exists|j: int|
                        0 <= j < i && txns@[j].sender == key,
                senders_seen == seen_senders(txns@, i as nat),
                reg.num_senders == senders_seen.len(),
                forall|key: u64|
                    #[trigger] sender_map@.contains_key(key) ==> sender_map@[key] < senders_seen.len()
                        && senders_seen[sender_map@[key] as int] == key,
                forall|x: int| 0 <= x < senders_seen.len() ==> sender_map@.contains_key(#[trigger] senders_seen[x]),
                forall|j: int| 0 <= j < i ==> senders_seen[#[trigger] reg.sender_ids@[j] as int] == txns@[j].sender,
                reg.location_keys@ == seen_locations(txns@, i as nat),
                forall|id: int|
                    0 <= id < reg.location_keys@.len() ==> key_map@.contains_key(
                        #[trigger] reg.location_keys@[id],
                    ) && key_map@[reg.location_keys@[id]] == id,
                forall|key: u64|
                    #[trigger] key_map@.contains_key(key) ==> exists|id: int|
                        0 <= id < reg.location_keys@.len() && reg.location_keys@[id] == key,
                forall|id: int|
                    0 <= id < reg.trackers@.len() ==> {
                        let t = #[trigger] reg.trackers@[id];
                        let key = reg.location_keys@[id];
                        &&& t.anchor_shard_id == anchor_shard(key, k)
                        &&& t.candidate_writers@ == writers_upto(txns@, key, i as nat)
                        &&& t.promoted_writer_ids@.len() == 0
                        &&& t.promoted_txn_ids@.len() == 0
                    },
            decreases txns@.len() - i,
        {
            let txn = &txns[i];
            assert(txn.write_hints@.len() + txn.read_hints@.len() <= usize::MAX);
            let sender_id: usize;
            let ghost old_sender_map = sender_map@;
            match sender_map.get(&txn.sender) {
                Some(id) => {
                    sender_id = *id;
                    proof {
                        let j = choose|j: int| 0 <= j < i && txns@[j].sender == txn.sender;
                        assert(reg.sender_ids@[j] == sender_id);
                    }
                },
                None => {
                    sender_id = reg.num_senders;
                    proof {
                        if senders_seen.contains(txn.sender) {
                            let x = choose|x: int| 0 <= x < senders_seen.len() && senders_seen[x] == txn.sender;
                            assert(sender_map@.contains_key(senders_seen[x]));
                        }
                    }
                    sender_map.insert(txn.sender, sender_id);
                    reg.num_senders = reg.num_senders + 1;
                },
            }
            let ghost seen_before = senders_seen;
            proof {
                senders_seen = seen_senders(txns@, (i + 1) as nat);
                if seen_before.contains(txn.sender) {
                    assert(senders_seen == seen_before);
                } else {
                    assert(senders_seen == seen_before.push(txn.sender));
                }
            }
            reg.sender_ids.push(sender_id);
            proof {
                assert forall|j: int| 0 <= j < i + 1 implies sender_map@.contains_key(
                    #[trigger] txns@[j].sender,
                ) && sender_map@[txns@[j].sender] == reg.sender_ids@[j] by {
                    if j < i && txns@[j].sender != txn.sender {
                        assert(sender_map@[txns@[j].sender] == old_sender_map[txns@[j].sender]);
                    }
                }
                let ids = reg.sender_ids@;
                assert forall|a: int, b: int|
                    0 <= a < i + 1 && 0 <= b < i + 1 implies (#[trigger] ids[a] == #[trigger] ids[b]
                    <==> txns@[a].sender == txns@[b].sender) by {
                    if a < i && b == i && txns@[a].sender == txns@[b].sender {
                        assert(sender_map@.contains_key(txns@[a].sender));
                    }
                    if b < i && a == i && txns@[a].sender == txns@[b].sender {
                        assert(sender_map@.contains_key(txns@[b].sender));
                    }
                }
                assert forall|key: u64| #[trigger] sender_map@.contains_key(key) implies exists|j: int|
                    0 <= j < i + 1 && txns@[j].sender == key by {
                    if key == txn.sender {
                        assert(txns@[i as int].sender == key);
                    }
                }
                assert forall|x: int| 0 <= x < senders_seen.len() implies sender_map@.contains_key(
                    #[trigger] senders_seen[x],
                ) by {
                    if x < seen_before.len() {
                        assert(senders_seen[x] == seen_before[x]);
                    }
                }
                assert forall|key: u64| #[trigger] sender_map@.contains_key(key) implies sender_map@[key]
                    < senders_seen.len() && senders_seen[sender_map@[key] as int] == key by {
                    if key != txn.sender {
                        assert(old_sender_map.contains_key(key));
                    }
                }
                assert forall|j: int| 0 <= j < i + 1 implies senders_seen[#[trigger] reg.sender_ids@[j] as int]
                    == txns@[j].sender by {
                    if j < i {
                        assert(sender_map@.contains_key(txns@[j].sender));
                    }
                }
            }

            let ghost prev_reg = reg;
            let num_writes = txn.write_hints.len();
            let num_hints = num_writes + txn.read_hints.len();
            let mut ids: Vec<usize> = Vec::with_capacity(num_hints);
            let mut h: usize = 0;
            while h < num_hints
                invariant
                    num_shards > 0,
                    k == num_shards,
                    i < txns@.len() < usize::MAX,
                    block_fits(txns@),
                    *txn == txns@[i as int],
                    num_writes == txn.write_hints@.len(),
                    num_hints == txn.hints().len(),
                    h <= num_hints,
                    reg.location_ids@ == prev_reg.location_ids@,
                    reg.locations_wf(txns@, i as nat),
                    reg.senders_wf(txns@, (i + 1) as nat),
                    reg.num_senders <= i + 1,
                    forall|j: int|
                        0 <= j < i + 1 ==> sender_map@.contains_key(#[trigger] txns@[j].sender)
                            && sender_map@[txns@[j].sender] == reg.sender_ids@[j],
                    forall|key: u64|
                        #[trigger] sender_map@.contains_key(key) ==> exists|j: int|
                            0 <= j < i + 1 && txns@[j].sender == key,
                    ids@.len() == h,
                    reg.location_keys@ == add_unseen(seen_locations(txns@, i as nat), txn.hints().take(h as int)),
                    senders_seen == seen_senders(txns@, (i + 1) as nat),
                    reg.num_senders == senders_seen.len(),
                    forall|key: u64|
                        #[trigger] sender_map@.contains_key(key) ==> sender_map@[key] < senders_seen.len()
                            && senders_seen[sender_map@[key] as int] == key,
                    forall|x: int| 0 <= x < senders_seen.len() ==> sender_map@.contains_key(#[trigger] senders_seen[x]),
                    forall|j: int| 0 <= j < i + 1 ==> senders_seen[#[trigger] reg.sender_ids@[j] as int] == txns@[j].sender,
                    forall|x: int|
                        0 <= x < h ==> {
                            let id = #[trigger] ids@[x];
                            &&& id < reg.location_keys@.len()
                            &&& reg.location_keys@[id as int] == txn.hints()[x]
                        },
                    forall|id: int|
                        0 <= id < reg.location_keys@.len() ==> key_map@.contains_key(
                            #[trigger] reg.location_keys@[id],
                        ) && key_map@[reg.location_keys@[id]] == id,
                    forall|key: u64|
                        #[trigger] key_map@.contains_key(key) ==> exists|id: int|
                            0 <= id < reg.location_keys@.len() && reg.location_keys@[id] == key,
                    forall|id: int|
                        0 <= id < reg.trackers@.len() ==> {
                            let t = #[trigger] reg.trackers@[id];
                            let key = reg.location_keys@[id];
                            &&& t.anchor_shard_id == anchor_shard(key, k)
                            &&& t.candidate_writers@ == if txn.write_hints@.take(
                                if h < num_writes {
                                    h as int
                                } else {
                                    num_writes as int
                                },
                            ).contains(key) {
                                writers_upto(txns@, key, (i + 1) as nat)
                            } else {
                                writers_upto(txns@, key, i as nat)
                            }
                            &&& t.promoted_writer_ids@.len() == 0
                            &&& t.promoted_txn_ids@.len() == 0
                        },
                decreases num_hints - h,
            {
                let key = if h < num_writes {
                    txn.write_hints[h]
                } else {
                    txn.read_hints[h - num_writes]
                };
                assert(key == txn.hints()[h as int]);
                let ghost keys_before = reg.location_keys@;
                proof {
                    assert(txn.hints().take(h + 1).drop_last() == txn.hints().take(h as int));
                    assert(keys_before.contains(key) == key_map@.contains_key(key)) by {
                        if keys_before.contains(key) {
                            let x = choose|x: int| 0 <= x < keys_before.len() && keys_before[x] == key;
                            assert(key_map@.contains_key(reg.location_keys@[x]));
                        }
                    }
                }
                let loc_id: usize;
                match key_map.get(&key) {
                    Some(id) => {
                        loc_id = *id;
                    },
                    None => {
                        loc_id = reg.location_keys.len();
                        proof {
                            assert forall|j: int| 0 <= j < i implies !writes(txns@, j, key) by {
                                if writes(txns@, j, key) {
                                    let x = choose|x: int|
                                        0 <= x < txns@[j].write_hints@.len()
                                            && txns@[j].write_hints@[x] == key;
                                    assert(txns@[j].hints()[x] == key);
                                    let id = reg.location_ids@[j]@[x];
                                    assert(key_map@.contains_key(reg.location_keys@[id as int]));
                                }
                            }
                            lemma_no_writers(txns@, key, i as nat);
                            let wp = if h < num_writes {
                                h as int
                            } else {
                                num_writes as int
                            };
                            assert(!txn.write_hints@.take(wp).contains(key)) by {
                                if txn.write_hints@.take(wp).contains(key) {
                                    let x = choose|x: int|
                                        0 <= x < txn.write_hints@.take(wp).len()
                                            && txn.write_hints@.take(wp)[x] == key;
                                    assert(txn.hints()[x] == txn.write_hints@[x]);
                                    let id = ids@[x];
                                    assert(key_map@.contains_key(reg.location_keys@[id as int]));
                                }
                            }
                        }
                        key_map.insert(key, loc_id);
                        reg.location_keys.push(key);
                        reg.trackers.push(LocationTracker::new((key % num_shards as u64) as usize));
                        proof {
                            assert forall|k2: u64| #[trigger] key_map@.contains_key(k2) implies exists|
                                id: int,
                            |
                                0 <= id < reg.location_keys@.len() && reg.location_keys@[id] == k2 by {
                                if k2 == key {
                                    assert(reg.location_keys@[loc_id as int] == k2);
                                } else {
                                    let id = choose|id: int|
                                        0 <= id < keys_before.len() && keys_before[id] == k2;
                                    assert(reg.location_keys@[id] == k2);
                                }
                            }
                        }
                        assert(reg.trackers@[loc_id as int].candidate_writers@ =~= writers_upto(
                            txns@,
                            key,
                            i as nat,
                        ));
                    },
                }
                assert(loc_id < reg.location_keys@.len() && reg.location_keys@[loc_id as int]
                    == key);
                if h < num_writes {
                    proof {
                        lemma_writers_upto(txns@, key, i as nat);
                        let prefix = txn.write_hints@.take(h as int);
                        assert(txn.write_hints@.take(h + 1) == prefix.push(key));
                        let cw = reg.trackers@[loc_id as int].candidate_writers@;
                        if cw.len() > 0 && !prefix.contains(key) {
                            assert(cw[cw.len() - 1] < i);
                        }
                        assert(writes(txns@, i as int, key)) by {
                            assert(txn.write_hints@[h as int] == key);
                        }
                    }
                    reg.trackers[loc_id].add_candidate_writer(i);
                    proof {
                        let prefix = txn.write_hints@.take(h as int);
                        let next = txn.write_hints@.take(h + 1);
                        assert forall|id: int| 0 <= id < reg.trackers@.len() && id != loc_id implies (
                        #[trigger] next.contains(reg.location_keys@[id])
                            == prefix.contains(reg.location_keys@[id])) by {
                            if next.contains(reg.location_keys@[id]) {
                                let x = choose|x: int|
                                    0 <= x < next.len() && next[x] == reg.location_keys@[id];
                                if x == h {
                                    assert(reg.location_keys@[id] == reg.location_keys@[loc_id as int]);
                                } else {
                                    assert(prefix[x] == next[x]);
                                }
                            }
                            if prefix.contains(reg.location_keys@[id]) {
                                let x = choose|x: int|
                                    0 <= x < prefix.len() && prefix[x] == reg.location_keys@[id];
                                assert(prefix[x] == next[x]);
                            }
                        }
                        assert(next.contains(key)) by {
                            assert(next[h as int] == key);
                        }
                    }
                } else {
                    proof {
                        assert(txn.write_hints@.take(num_writes as int) =~= txn.write_hints@);
                    }
                }
                ids.push(loc_id);
                h += 1;
            }
            proof {
                assert(txn.hints().take(num_hints as int) =~= txn.hints());
                assert(txn.write_hints@.take(num_writes as int) =~= txn.write_hints@);
                assert forall|id: int| 0 <= id < reg.trackers@.len() && !txn.write_hints@.contains(
                    #[trigger] reg.location_keys@[id],
                ) implies writers_upto(txns@, reg.location_keys@[id], (i + 1) as nat)
                    == writers_upto(txns@, reg.location_keys@[id], i as nat) by {}
            }
            reg.location_ids.push(ids);
            proof {
                assert forall|a: int, h2: int|
                    0 <= a < i + 1 && 0 <= h2 < txns@[a].hints().len() implies {
                    let id = #[trigger] reg.location_ids@[a]@[h2];
                    &&& id < reg.location_keys@.len()
                    &&& reg.location_keys@[id as int] == txns@[a].hints()[h2]
                } by {
                    if a < i {
                        assert(reg.location_ids@[a] == prev_reg.location_ids@[a]);
                    }
                }
            }
            i += 1;
        }
        proof {
            assert forall|j: int| 0 <= j < txns@.len() implies seen_senders(txns@, txns@.len())[
                #[trigger] reg.sender_ids@[j] as int] == txns@[j].sender by {}
            assert forall|id: int| 0 <= id < reg.trackers@.len() implies {
                let t = #[trigger] reg.trackers@[id];
                let key = reg.location_keys@[id];
                &&& t.promoted_writer_ids@ == slots_where(txns@, k, key, 0, true, true)
                    + slots_where(txns@, k, key, 0, false, true)
                &&& t.promoted_txn_ids@ == slots_where(txns@, k, key, 0, true, false)
                    + slots_where(txns@, k, key, 0, false, false)
            } by {
                let t = reg.trackers@[id];
                let key = reg.location_keys@[id];
                assert(t.promoted_writer_ids@ =~= slots_where(txns@, k, key, 0, true, true)
                    + slots_where(txns@, k, key, 0, false, true));
                assert(t.promoted_txn_ids@ =~= slots_where(txns@, k, key, 0, true, false)
                    + slots_where(txns@, k, key, 0, false, false));
            }
        }
        reg
    }
}

} // verus!
