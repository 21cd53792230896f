//! Facts about the model's recursive definitions.
use vstd::prelude::*;
use crate::fat_id::TxnFatId;
use crate::chunks::{chunk_start, in_chunk, lemma_chunk_start_mono, lemma_chunk_start_zero_and_end, lemma_shard_of, lemma_shard_of_mono, shard_of};
use crate::model::{
    accepted, cell, count_below, new_index, promoted_touches, promoted_writers, range_where, slot,
    slots_where, start_index, touches, writes,
};
use crate::types::AnalyzedTransaction;

verus! {

/// Entries of `slots_where` are slots of qualifying transactions below `m`,
/// in increasing original index.
pub proof fn lemma_slots_where(
    txns: Seq<AnalyzedTransaction>,
    k: nat,
    key: u64,
    m: nat,
    acc: bool,
    write_only: bool,
)
    requires
        m <= usize::MAX,
    ensures
        forall|j: int|
            0 <= j < slots_where(txns, k, key, m, acc, write_only).len() ==> {
                let f = #[trigger] slots_where(txns, k, key, m, acc, write_only)[j];
                &&& f.old_txn_idx < m
                &&& accepted(txns, k, f.old_txn_idx as int) == acc
                &&& f == slot(txns, k, f.old_txn_idx as int)
                &&& if write_only {
                    writes(txns, f.old_txn_idx as int, key)
                } else {
                    touches(txns, f.old_txn_idx as int, key)
                }
            },
        forall|a: int, b: int|
            0 <= a < b < slots_where(txns, k, key, m, acc, write_only).len() ==> (
            #[trigger] slots_where(txns, k, key, m, acc, write_only)[a]).old_txn_idx
                < (#[trigger] slots_where(txns, k, key, m, acc, write_only)[b]).old_txn_idx,
    decreases m,
{
    if m > 0 {
        lemma_slots_where(txns, k, key, (m - 1) as nat, acc, write_only);
        let prev = slots_where(txns, k, key, (m - 1) as nat, acc, write_only);
        let cur = slots_where(txns, k, key, m, acc, write_only);
        let j0 = m - 1;
        let f0 = slot(txns, k, j0);
        assert(f0.old_txn_idx == j0);
        if cur.len() > prev.len() {
            assert(cur == prev.push(f0));
            assert(accepted(txns, k, j0) == acc);
        } else {
            assert(cur == prev);
        }
    }
}

/// Entries of `range_where(a, b)` lie in `[a, b)`, have the acceptance asked
/// for, and increase strictly.
pub proof fn lemma_range_where(txns: Seq<AnalyzedTransaction>, k: nat, a: nat, b: nat, acc: bool)
    requires
        b <= usize::MAX,
    ensures
        forall|j: int|
            0 <= j < range_where(txns, k, a, b, acc).len() ==> {
                let i = #[trigger] range_where(txns, k, a, b, acc)[j];
                &&& a <= i < b
                &&& accepted(txns, k, i as int) == acc
            },
        forall|x: int, y: int|
            0 <= x < y < range_where(txns, k, a, b, acc).len() ==> #[trigger] range_where(
                txns,
                k,
                a,
                b,
                acc,
            )[x] < #[trigger] range_where(txns, k, a, b, acc)[y],
        range_where(txns, k, a, b, acc).len() <= if a <= b {
            b - a
        } else {
            0
        },
    decreases b,
{
    if b > a {
        lemma_range_where(txns, k, a, (b - 1) as nat, acc);
    }
}

/// `range_where` over `[a, c)` is the one over `[a, b)` followed by the one over `[b, c)`.
pub proof fn lemma_range_where_concat(
    txns: Seq<AnalyzedTransaction>,
    k: nat,
    a: nat,
    b: nat,
    c: nat,
    acc: bool,
)
    requires
        a <= b <= c,
    ensures
        range_where(txns, k, a, c, acc) == range_where(txns, k, a, b, acc) + range_where(
            txns,
            k,
            b,
            c,
            acc,
        ),
    decreases c,
{
    if c == b {
        assert(range_where(txns, k, a, b, acc) + range_where(txns, k, b, c, acc) =~= range_where(
            txns,
            k,
            a,
            c,
            acc,
        ));
    } else {
        lemma_range_where_concat(txns, k, a, b, (c - 1) as nat, acc);
        assert(range_where(txns, k, a, b, acc) + range_where(txns, k, b, c, acc) =~= range_where(
            txns,
            k,
            a,
            c,
            acc,
        ));
    }
}

/// Every index in `[a, b)` with acceptance `acc` is listed.
pub proof fn lemma_range_where_contains(
    txns: Seq<AnalyzedTransaction>,
    k: nat,
    a: nat,
    b: nat,
    acc: bool,
    t: nat,
)
    requires
        a <= t < b,
        accepted(txns, k, t as int) == acc,
        b <= usize::MAX,
    ensures
        range_where(txns, k, a, b, acc).contains(t as usize),
    decreases b,
{
    if t < b - 1 {
        lemma_range_where_contains(txns, k, a, (b - 1) as nat, acc, t);
        let prev = range_where(txns, k, a, (b - 1) as nat, acc);
        let x = choose|x: int| 0 <= x < prev.len() && prev[x] == t as usize;
        assert(range_where(txns, k, a, b, acc)[x] == t as usize);
    } else {
        assert(range_where(txns, k, a, b, acc).last() == t as usize);
    }
}

/// The entry at position `p` of `range_where(a, b)` has `p` listed entries before it.
pub proof fn lemma_range_where_index(
    txns: Seq<AnalyzedTransaction>,
    k: nat,
    a: nat,
    b: nat,
    acc: bool,
    p: int,
)
    requires
        b <= usize::MAX,
        0 <= p < range_where(txns, k, a, b, acc).len(),
    ensures
        range_where(txns, k, a, range_where(txns, k, a, b, acc)[p] as nat, acc).len() == p,
{
    let v = range_where(txns, k, a, b, acc);
    let t = v[p] as nat;
    lemma_range_where(txns, k, a, b, acc);
    lemma_range_where_concat(txns, k, a, t, b, acc);
    lemma_range_where_concat(txns, k, t, t + 1, b, acc);
    lemma_range_where(txns, k, a, t, acc);
    let left = range_where(txns, k, a, t, acc);
    let right = range_where(txns, k, t, b, acc);
    assert(range_where(txns, k, t, t, acc) == Seq::<usize>::empty());
    assert(right[0] == t as usize);
    if left.len() > p {
        assert(v[p] == left[p]);
    } else if left.len() < p {
        assert(v[left.len() as int] == right[0]);
    }
}

/// Which cell an entry of the grid sits in is the cell of its slot.
pub proof fn lemma_cell_entry(txns: Seq<AnalyzedTransaction>, k: nat, r: nat, s: nat, p: int)
    requires
        0 < k <= usize::MAX,
        txns.len() < usize::MAX,
        r < 2,
        s < k,
        0 <= p < cell(txns, k, r, s).len(),
    ensures
        ({
            let t = cell(txns, k, r, s)[p];
            &&& t < txns.len()
            &&& slot(txns, k, t as int).round_id == r
            &&& slot(txns, k, t as int).shard_id == s
            &&& slot(txns, k, t as int).old_txn_idx == t
            &&& new_index(txns, k, t as int) == start_index(txns, k, r, s) + p
        }),
{
    let n = txns.len();
    lemma_chunk_start_zero_and_end(n, k);
    if r == 0 {
        let a = chunk_start(n, k, s);
        let b = chunk_start(n, k, s + 1);
        lemma_chunk_start_mono(n, k, s + 1, k);
        lemma_range_where(txns, k, a, b, true);
        let t = cell(txns, k, r, s)[p];
        assert(in_chunk(n, k, s, t as nat));
        lemma_shard_of(n, k, t as nat);
        lemma_range_where_index(txns, k, a, b, true, p);
        lemma_chunk_start_mono(n, k, 0, s);
        lemma_range_where_concat(txns, k, 0, a, t as nat, true);
    } else {
        assert(s + 1 == k);
        lemma_range_where(txns, k, 0, n, false);
        lemma_range_where_index(txns, k, 0, n, false, p);
    }
}

/// Every transaction sits in the cell of its slot.
pub proof fn lemma_in_own_cell(txns: Seq<AnalyzedTransaction>, k: nat, t: int)
    requires
        0 < k <= usize::MAX,
        txns.len() < usize::MAX,
        0 <= t < txns.len(),
    ensures
        ({
            let f = slot(txns, k, t);
            &&& f.round_id < 2
            &&& f.shard_id < k
            &&& f.old_txn_idx == t
            &&& cell(txns, k, f.round_id as nat, f.shard_id as nat).contains(t as usize)
        }),
{
    let n = txns.len();
    lemma_chunk_start_zero_and_end(n, k);
    lemma_shard_of(n, k, t as nat);
    if accepted(txns, k, t) {
        let s = shard_of(n, k, t as nat);
        lemma_chunk_start_mono(n, k, s + 1, k);
        lemma_range_where_contains(
            txns,
            k,
            chunk_start(n, k, s),
            chunk_start(n, k, s + 1),
            true,
            t as nat,
        );
    } else {
        lemma_range_where_contains(txns, k, 0, n, false, t as nat);
    }
}

/// Entries strictly increase in slot order.
pub open spec fn fat_sorted(v: Seq<TxnFatId>) -> bool {
    forall|a: int, b: int| 0 <= a < b < v.len() ==> (#[trigger] v[a]).spec_lt(#[trigger] v[b])
}

/// Facts about the entries of a tracker's promoted sets.
pub open spec fn promoted_entries_ok(txns: Seq<AnalyzedTransaction>, k: nat, v: Seq<TxnFatId>) -> bool {
    &&& fat_sorted(v)
    &&& forall|j: int|
        0 <= j < v.len() ==> {
            let f = #[trigger] v[j];
            &&& f.old_txn_idx < txns.len()
            &&& f == slot(txns, k, f.old_txn_idx as int)
            &&& f.round_id < 2
            &&& f.shard_id < k
        }
}

/// Accepted slots, then rejected slots, form a promoted set.
proof fn lemma_promoted_parts(txns: Seq<AnalyzedTransaction>, k: nat, key: u64, write_only: bool)
    requires
        0 < k <= usize::MAX,
        txns.len() < usize::MAX,
    ensures
        promoted_entries_ok(
            txns,
            k,
            slots_where(txns, k, key, txns.len(), true, write_only) + slots_where(
                txns,
                k,
                key,
                txns.len(),
                false,
                write_only,
            ),
        ),
{
    let n = txns.len();
    let a = slots_where(txns, k, key, n, true, write_only);
    let b = slots_where(txns, k, key, n, false, write_only);
    let v = a + b;
    lemma_slots_where(txns, k, key, n, true, write_only);
    lemma_slots_where(txns, k, key, n, false, write_only);
    assert forall|j: int| 0 <= j < v.len() implies {
        let f = #[trigger] v[j];
        &&& f.old_txn_idx < txns.len()
        &&& f == slot(txns, k, f.old_txn_idx as int)
        &&& f.round_id < 2
        &&& f.shard_id < k
    } by {
        let f = v[j];
        if j < a.len() {
            assert(f == a[j]);
            lemma_shard_of(n, k, f.old_txn_idx as nat);
        } else {
            assert(f == b[j - a.len()]);
        }
    }
    assert forall|x: int, y: int| 0 <= x < y < v.len() implies (#[trigger] v[x]).spec_lt(
        #[trigger] v[y],
    ) by {
        if y < a.len() {
            assert(v[x] == a[x] && v[y] == a[y]);
            assert(a[x].old_txn_idx < a[y].old_txn_idx);
            lemma_shard_of_mono(n, k, a[x].old_txn_idx as nat, a[y].old_txn_idx as nat);
            lemma_shard_of(n, k, a[x].old_txn_idx as nat);
            lemma_shard_of(n, k, a[y].old_txn_idx as nat);
            assert(accepted(txns, k, a[x].old_txn_idx as int));
            assert(accepted(txns, k, a[y].old_txn_idx as int));
        } else if x >= a.len() {
            assert(v[x] == b[x - a.len()] && v[y] == b[y - a.len()]);
            assert(b[x - a.len()].old_txn_idx < b[y - a.len()].old_txn_idx);
        } else {
            assert(v[x] == a[x] && v[y] == b[y - a.len()]);
            assert(accepted(txns, k, a[x].old_txn_idx as int));
            assert(!accepted(txns, k, b[y - a.len()].old_txn_idx as int));
        }
    }
}

/// A location's promoted writers and touches are sorted slots of transactions.
pub proof fn lemma_promoted(txns: Seq<AnalyzedTransaction>, k: nat, key: u64)
    requires
        0 < k <= usize::MAX,
        txns.len() < usize::MAX,
    ensures
        promoted_entries_ok(txns, k, promoted_writers(txns, k, key)),
        promoted_entries_ok(txns, k, promoted_touches(txns, k, key)),
{
    lemma_promoted_parts(txns, k, key, true);
    lemma_promoted_parts(txns, k, key, false);
}

/// Entries before `c` lie before `x` and the others do not: then `c` counts them.
pub proof fn lemma_count_below(v: Seq<TxnFatId>, x: TxnFatId, c: int)
    requires
        0 <= c <= v.len(),
        forall|j: int| 0 <= j < c ==> (#[trigger] v[j]).spec_lt(x),
        forall|j: int| c <= j < v.len() ==> !(#[trigger] v[j]).spec_lt(x),
    ensures
        count_below(v, x) == c,
    decreases v.len(),
{
    if v.len() > 0 {
        let d = v.drop_last();
        if c == v.len() {
            lemma_count_below(d, x, c - 1);
        } else {
            lemma_count_below(d, x, c);
        }
    }
}

/// Each index of `[a, b)` is listed on exactly one side.
pub proof fn lemma_range_where_split(txns: Seq<AnalyzedTransaction>, k: nat, a: nat, b: nat)
    requires
        a <= b,
    ensures
        range_where(txns, k, a, b, true).len() + range_where(txns, k, a, b, false).len() == b - a,
    decreases b,
{
    if b > a {
        lemma_range_where_split(txns, k, a, (b - 1) as nat);
    }
}

/// Dense indices lie below the number of transactions.
pub proof fn lemma_new_index_bound(txns: Seq<AnalyzedTransaction>, k: nat, t: int)
    requires
        txns.len() < usize::MAX,
        0 <= t < txns.len(),
    ensures
        new_index(txns, k, t) < txns.len(),
{
    let n = txns.len();
    lemma_range_where(txns, k, 0, t as nat, true);
    lemma_range_where_split(txns, k, 0, n);
    lemma_range_where_concat(txns, k, 0, t as nat, n, false);
    lemma_range_where_concat(txns, k, t as nat, (t + 1) as nat, n, false);
    assert(range_where(txns, k, t as nat, t as nat, false) == Seq::<usize>::empty());
}

/// Every transaction below `m` with acceptance `acc` that writes (or touches)
/// `key` has its slot listed.
pub proof fn lemma_slots_where_contains(
    txns: Seq<AnalyzedTransaction>,
    k: nat,
    key: u64,
    m: nat,
    acc: bool,
    write_only: bool,
    j: int,
)
    requires
        0 <= j < m,
        accepted(txns, k, j) == acc,
        if write_only {
            writes(txns, j, key)
        } else {
            touches(txns, j, key)
        },
    ensures
        slots_where(txns, k, key, m, acc, write_only).contains(slot(txns, k, j)),
    decreases m,
{
    if j < m - 1 {
        lemma_slots_where_contains(txns, k, key, (m - 1) as nat, acc, write_only, j);
        let prev = slots_where(txns, k, key, (m - 1) as nat, acc, write_only);
        let x = choose|x: int| 0 <= x < prev.len() && prev[x] == slot(txns, k, j);
        assert(slots_where(txns, k, key, m, acc, write_only)[x] == slot(txns, k, j));
    } else {
        assert(slots_where(txns, k, key, m, acc, write_only).last() == slot(txns, k, j));
    }
}

/// In a sorted sequence, `count_below` entries lie before `x` and the rest do not.
pub proof fn lemma_count_below_sorted(v: Seq<TxnFatId>, x: TxnFatId)
    requires
        fat_sorted(v),
    ensures
        count_below(v, x) <= v.len(),
        forall|j: int| 0 <= j < count_below(v, x) ==> (#[trigger] v[j]).spec_lt(x),
        forall|j: int| count_below(v, x) <= j < v.len() ==> !(#[trigger] v[j]).spec_lt(x),
    decreases v.len(),
{
    if v.len() > 0 {
        let d = v.drop_last();
        assert(fat_sorted(d)) by {
            assert forall|a: int, b: int| 0 <= a < b < d.len() implies (#[trigger] d[a]).spec_lt(
                #[trigger] d[b],
            ) by {
                assert(d[a] == v[a] && d[b] == v[b]);
            }
        }
        lemma_count_below_sorted(d, x);
        assert forall|j: int| 0 <= j < count_below(v, x) implies (#[trigger] v[j]).spec_lt(x) by {
            if j < v.len() - 1 {
                assert(d[j] == v[j]);
                if j >= count_below(d, x) {
                    assert(v[j].spec_lt(v.last()));
                }
            }
        }
        assert forall|j: int| count_below(v, x) <= j < v.len() implies !(#[trigger] v[j]).spec_lt(x) by {
            if j < v.len() - 1 {
                assert(d[j] == v[j]);
                if v[j].spec_lt(x) {
                    assert(v[j].spec_lt(v.last()));
                }
            }
        }
    }
}

} // verus!
