//! Composite slot identifiers, ordered by round, then shard, then original index.
use vstd::prelude::*;

verus! {

/// A transaction's composite slot: the round and shard it is scheduled in,
/// together with its original index in the block.
#[derive(Copy, Clone, Debug, PartialEq, Eq, Structural, Ord)]
pub struct TxnFatId {
    pub round_id: usize,
    pub shard_id: usize,
    pub old_txn_idx: usize,
}

impl TxnFatId {
    pub fn new(round_id: usize, shard_id: usize, old_txn_idx: usize) -> (r: Self)
        ensures
            r.round_id == round_id,
            r.shard_id == shard_id,
            r.old_txn_idx == old_txn_idx,
    {
        TxnFatId { round_id, shard_id, old_txn_idx }
    }

    /// Lexicographic "strictly before" on (round, shard, original index).
    pub open spec fn spec_lt(self, other: Self) -> bool {
        self.round_id < other.round_id || (self.round_id == other.round_id && (
        self.shard_id < other.shard_id || (self.shard_id == other.shard_id
            && self.old_txn_idx < other.old_txn_idx)))
    }

    /// "Before or equal" in slot order.
    pub open spec fn spec_le(self, other: Self) -> bool {
        self.spec_lt(other) || self == other
    }

    /// True when `self` lies in a strictly earlier (round, shard) cell than `other`.
    pub open spec fn cell_lt(self, other: Self) -> bool {
        self.round_id < other.round_id || (self.round_id == other.round_id && self.shard_id
            < other.shard_id)
    }

    /// Whether `self` comes strictly before `other`.
    pub fn precedes(&self, other: &Self) -> (r: bool)
        ensures
            r == self.spec_lt(*other),
    {
        if self.round_id != other.round_id {
            self.round_id < other.round_id
        } else if self.shard_id != other.shard_id {
            self.shard_id < other.shard_id
        } else {
            self.old_txn_idx < other.old_txn_idx
        }
    }
}

impl PartialOrd for TxnFatId {
    fn partial_cmp(&self, other: &Self) -> (r: Option<core::cmp::Ordering>) {
        if self.precedes(other) {
            Some(core::cmp::Ordering::Less)
        } else if *self == *other {
            Some(core::cmp::Ordering::Equal)
        } else {
            Some(core::cmp::Ordering::Greater)
        }
    }
}

impl vstd::std_specs::cmp::PartialOrdSpecImpl for TxnFatId {
    open spec fn obeys_partial_cmp_spec() -> bool {
        true
    }

    open spec fn partial_cmp_spec(&self, other: &Self) -> Option<core::cmp::Ordering> {
        if self.spec_lt(*other) {
            Some(core::cmp::Ordering::Less)
        } else if *self == *other {
            Some(core::cmp::Ordering::Equal)
        } else {
            Some(core::cmp::Ordering::Greater)
        }
    }
}

} // verus!
