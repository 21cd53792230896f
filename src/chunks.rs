//! Initial assignment: contiguous, near-equal ranges of original indices, one per shard.
use vstd::prelude::*;

verus! {

/// The smaller of `a` and `b`.
pub open spec fn min_nat(a: nat, b: nat) -> nat {
    if a <= b {
        a
    } else {
        b
    }
}

/// First original index of shard `s` when `n` items are split into `k` chunks,
/// the first `n % k` chunks holding one extra item.
pub open spec fn chunk_start(n: nat, k: nat, s: nat) -> nat {
    s * (n / k) + min_nat(s, n % k)
}

/// The original indices of chunk `s`, in order.
pub open spec fn chunk(n: nat, k: nat, s: nat) -> Seq<usize> {
    Seq::new(
        (chunk_start(n, k, s + 1) - chunk_start(n, k, s)) as nat,
        |j: int| (chunk_start(n, k, s) + j) as usize,
    )
}

/// True when original index `i` falls in chunk `s`.
pub open spec fn in_chunk(n: nat, k: nat, s: nat, i: nat) -> bool {
    s < k && chunk_start(n, k, s) <= i < chunk_start(n, k, s + 1)
}

/// The shard whose initial chunk holds original index `i`.
pub open spec fn shard_of(n: nat, k: nat, i: nat) -> nat {
    choose|s: nat| in_chunk(n, k, s, i)
}

/// Chunk `s` holds `n / k` items, plus one when `s < n % k`.
pub proof fn lemma_chunk_step(n: nat, k: nat, s: nat)
    requires
        k > 0,
    ensures
        chunk_start(n, k, s + 1) == chunk_start(n, k, s) + n / k + (if s < n % k {
            1nat
        } else {
            0nat
        }),
{
    let q = n / k;
    assert((s + 1) * q == s * q + q) by (nonlinear_arith);
}

/// The chunks start at 0 and end at `n`.
pub proof fn lemma_chunk_start_zero_and_end(n: nat, k: nat)
    requires
        k > 0,
    ensures
        chunk_start(n, k, 0) == 0,
        chunk_start(n, k, k) == n,
{
    vstd::arithmetic::div_mod::lemma_fundamental_div_mod(n as int, k as int);
    assert(0 * (n / k) == 0) by (nonlinear_arith);
    assert(k * (n / k) == (n / k) * k) by (nonlinear_arith);
}

/// Chunk starts do not decrease.
pub proof fn lemma_chunk_start_mono(n: nat, k: nat, a: nat, b: nat)
    requires
        k > 0,
        a <= b,
    ensures
        chunk_start(n, k, a) <= chunk_start(n, k, b),
{
    let q = n / k;
    assert(a * q <= b * q) by (nonlinear_arith)
        requires
            a <= b,
    ;
}

/// Every index below `n` lies in exactly one chunk, and `shard_of` names it.
pub proof fn lemma_shard_of(n: nat, k: nat, i: nat)
    requires
        k > 0,
        i < n,
    ensures
        in_chunk(n, k, shard_of(n, k, i), i),
        forall|s: nat| #[trigger] in_chunk(n, k, s, i) ==> s == shard_of(n, k, i),
{
    lemma_chunk_start_zero_and_end(n, k);
    lemma_exists_chunk(n, k, i, k);
    let s0 = shard_of(n, k, i);
    assert forall|s: nat| #[trigger] in_chunk(n, k, s, i) implies s == s0 by {
        if s < s0 {
            lemma_chunk_start_mono(n, k, s + 1, s0);
        } else if s0 < s {
            lemma_chunk_start_mono(n, k, s0 + 1, s);
        }
    }
}

/// An index below the start of chunk `t` lies in some chunk before `t`.
proof fn lemma_exists_chunk(n: nat, k: nat, i: nat, t: nat)
    requires
        k > 0,
        t <= k,
        i < chunk_start(n, k, t),
    ensures
        exists|s: nat| in_chunk(n, k, s, i),
    decreases t,
{
    lemma_chunk_start_zero_and_end(n, k);
    if t > 0 {
        if i < chunk_start(n, k, (t - 1) as nat) {
            lemma_exists_chunk(n, k, i, (t - 1) as nat);
        } else {
            assert(in_chunk(n, k, (t - 1) as nat, i));
        }
    }
}

/// Shards are assigned in increasing order of original index.
pub proof fn lemma_shard_of_mono(n: nat, k: nat, i: nat, j: nat)
    requires
        k > 0,
        i <= j < n,
    ensures
        shard_of(n, k, i) <= shard_of(n, k, j),
{
    lemma_shard_of(n, k, i);
    lemma_shard_of(n, k, j);
    if shard_of(n, k, j) < shard_of(n, k, i) {
        lemma_chunk_start_mono(n, k, shard_of(n, k, j) + 1, shard_of(n, k, i));
    }
}

/// Splits `0..num_items` into `num_chunks` contiguous chunks of near-equal size,
/// in order; the first `num_items % num_chunks` chunks get one extra item.
pub fn uniform_partition(num_items: usize, num_chunks: usize) -> (r: Vec<Vec<usize>>)
    requires
        num_chunks > 0,
    ensures
        r@.len() == num_chunks,
        forall|s: int|
            0 <= s < num_chunks ==> #[trigger] r@[s]@ == chunk(
                num_items as nat,
                num_chunks as nat,
                s as nat,
            ),
{
    let num_big_chunks = num_items % num_chunks;
    let small_chunk_size = num_items / num_chunks;
    let mut ret: Vec<Vec<usize>> = Vec::with_capacity(num_chunks);
    let mut next_chunk_start: usize = 0;
    let mut chunk_id: usize = 0;
    let ghost n = num_items as nat;
    let ghost k = num_chunks as nat;
    proof {
        lemma_chunk_start_zero_and_end(n, k);
    }
    while chunk_id < num_chunks
        invariant
            0 < num_chunks,
            chunk_id <= num_chunks,
            n == num_items,
            k == num_chunks,
            num_big_chunks == n % k,
            small_chunk_size == n / k,
            next_chunk_start == chunk_start(n, k, chunk_id as nat),
            ret@.len() == chunk_id,
            forall|s: int| 0 <= s < chunk_id ==> #[trigger] ret@[s]@ == chunk(n, k, s as nat),
        decreases num_chunks - chunk_id,
    {
        proof {
            lemma_chunk_step(n, k, chunk_id as nat);
            lemma_chunk_start_mono(n, k, (chunk_id + 1) as nat, k);
            lemma_chunk_start_zero_and_end(n, k);
        }
        let extra: usize = if chunk_id < num_big_chunks {
            1
        } else {
            0
        };
        let next_chunk_end = next_chunk_start + small_chunk_size + extra;
        let mut chunk_ids: Vec<usize> = Vec::with_capacity(next_chunk_end - next_chunk_start);
        let mut txn_id: usize = next_chunk_start;
        while txn_id < next_chunk_end
            invariant
                next_chunk_start <= txn_id <= next_chunk_end,
                chunk_ids@.len() == txn_id - next_chunk_start,
                forall|j: int|
                    0 <= j < chunk_ids@.len() ==> #[trigger] chunk_ids@[j] == next_chunk_start + j,
            decreases next_chunk_end - txn_id,
        {
            chunk_ids.push(txn_id);
            txn_id += 1;
        }
        assert(chunk_ids@ =~= chunk(n, k, chunk_id as nat));
        next_chunk_start = next_chunk_end;
        ret.push(chunk_ids);
        chunk_id += 1;
    }
    ret
}

} // verus!
