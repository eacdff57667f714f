//! Block weight: how much of a block a piece of work uses up.

use vstd::prelude::*;

verus! {

/// The larger-than-`u64` part of a sum is cut off.
pub open spec fn saturated(n: int) -> u64 {
    if n > u64::MAX {
        u64::MAX
    } else if n < 0 {
        0
    } else {
        n as u64
    }
}

/// A weight has two independent dimensions: computation time and the size of
/// the data that a block carries.
#[derive(Clone, Copy, Debug, PartialEq, Eq, Structural)]
pub struct Weight {
    /// Computation time.
    pub ref_time: u64,
    /// Size in bytes.
    pub proof_size: u64,
}

impl Weight {
    pub open spec fn spec_zero() -> Weight {
        Weight { ref_time: 0, proof_size: 0 }
    }

    pub open spec fn spec_from_parts(ref_time: u64, proof_size: u64) -> Weight {
        Weight { ref_time, proof_size }
    }

    pub open spec fn spec_set_proof_size(self, proof_size: u64) -> Weight {
        Weight { ref_time: self.ref_time, proof_size }
    }

    pub open spec fn spec_saturating_add(self, other: Weight) -> Weight {
        Weight {
            ref_time: saturated(self.ref_time + other.ref_time),
            proof_size: saturated(self.proof_size + other.proof_size),
        }
    }

    pub open spec fn spec_saturating_sub(self, other: Weight) -> Weight {
        Weight {
            ref_time: saturated(self.ref_time - other.ref_time),
            proof_size: saturated(self.proof_size - other.proof_size),
        }
    }

    pub open spec fn spec_all_lte(self, other: Weight) -> bool {
        self.ref_time <= other.ref_time && self.proof_size <= other.proof_size
    }

    pub open spec fn spec_all_gte(self, other: Weight) -> bool {
        other.spec_all_lte(self)
    }

    pub open spec fn spec_any_gt(self, other: Weight) -> bool {
        !self.spec_all_lte(other)
    }

    pub open spec fn spec_checked_sub(self, other: Weight) -> Option<Weight> {
        if other.spec_all_lte(self) {
            Some(self.spec_saturating_sub(other))
        } else {
            None
        }
    }

    /// The weight of no work at all.
    #[verifier::when_used_as_spec(spec_zero)]
    pub fn zero() -> (w: Weight)
        ensures
            w == Weight::spec_zero(),
    {
        Weight { ref_time: 0, proof_size: 0 }
    }

    /// A weight of the given time and size.
    #[verifier::when_used_as_spec(spec_from_parts)]
    pub fn from_parts(ref_time: u64, proof_size: u64) -> (w: Weight)
        ensures
            w == Weight::spec_from_parts(ref_time, proof_size),
    {
        Weight { ref_time, proof_size }
    }

    /// The same time with another size.
    #[verifier::when_used_as_spec(spec_set_proof_size)]
    pub fn set_proof_size(self, proof_size: u64) -> (w: Weight)
        ensures
            w == self.spec_set_proof_size(proof_size),
            w.ref_time == self.ref_time && w.proof_size == proof_size,
    {
        Weight { ref_time: self.ref_time, proof_size }
    }

    /// Adds dimension by dimension, stopping at the largest value.
    #[verifier::when_used_as_spec(spec_saturating_add)]
    pub fn saturating_add(self, other: Weight) -> (w: Weight)
        ensures
            w == self.spec_saturating_add(other),
            self.ref_time + other.ref_time <= u64::MAX ==> w.ref_time == self.ref_time
                + other.ref_time,
            self.ref_time + other.ref_time > u64::MAX ==> w.ref_time == u64::MAX,
            self.proof_size + other.proof_size <= u64::MAX ==> w.proof_size == self.proof_size
                + other.proof_size,
            self.proof_size + other.proof_size > u64::MAX ==> w.proof_size == u64::MAX,
    {
        Weight {
            ref_time: self.ref_time.saturating_add(other.ref_time),
            proof_size: self.proof_size.saturating_add(other.proof_size),
        }
    }

    /// Subtracts dimension by dimension, stopping at zero.
    #[verifier::when_used_as_spec(spec_saturating_sub)]
    pub fn saturating_sub(self, other: Weight) -> (w: Weight)
        ensures
            w == self.spec_saturating_sub(other),
            self.ref_time >= other.ref_time ==> w.ref_time == self.ref_time - other.ref_time,
            self.ref_time < other.ref_time ==> w.ref_time == 0,
            self.proof_size >= other.proof_size ==> w.proof_size == self.proof_size
                - other.proof_size,
            self.proof_size < other.proof_size ==> w.proof_size == 0,
    {
        Weight {
            ref_time: self.ref_time.saturating_sub(other.ref_time),
            proof_size: self.proof_size.saturating_sub(other.proof_size),
        }
    }

    /// Subtracts dimension by dimension; nothing if either would go below zero.
    #[verifier::when_used_as_spec(spec_checked_sub)]
    pub fn checked_sub(self, other: Weight) -> (w: Option<Weight>)
        ensures
            w == self.spec_checked_sub(other),
            w is Some <==> self.ref_time >= other.ref_time && self.proof_size
                >= other.proof_size,
            w matches Some(rest) ==> rest.ref_time == self.ref_time - other.ref_time
                && rest.proof_size == self.proof_size - other.proof_size,
    {
        if other.all_lte(self) {
            Some(self.saturating_sub(other))
        } else {
            None
        }
    }

    /// Whether no dimension exceeds that of the other weight.
    #[verifier::when_used_as_spec(spec_all_lte)]
    pub fn all_lte(self, other: Weight) -> (b: bool)
        ensures
            b == self.spec_all_lte(other),
            b == (self.ref_time <= other.ref_time && self.proof_size <= other.proof_size),
    {
        self.ref_time <= other.ref_time && self.proof_size <= other.proof_size
    }

    /// Whether no dimension falls short of that of the other weight.
    #[verifier::when_used_as_spec(spec_all_gte)]
    pub fn all_gte(self, other: Weight) -> (b: bool)
        ensures
            b == self.spec_all_gte(other),
            b == (self.ref_time >= other.ref_time && self.proof_size >= other.proof_size),
    {
        self.ref_time >= other.ref_time && self.proof_size >= other.proof_size
    }

    /// Whether some dimension exceeds that of the other weight.
    #[verifier::when_used_as_spec(spec_any_gt)]
    pub fn any_gt(self, other: Weight) -> (b: bool)
        ensures
            b == self.spec_any_gt(other),
            b == (self.ref_time > other.ref_time || self.proof_size > other.proof_size),
    {
        self.ref_time > other.ref_time || self.proof_size > other.proof_size
    }
}

/// What a weight leaves of a limit, and the weight itself, add up to the limit:
/// filling the rest of a block after a part of it was used cannot overfill it.
pub proof fn filling_the_rest_stays_within(used: Weight, more: Weight, limit: Weight)
    requires
        used.all_lte(limit),
        more.all_lte(limit.saturating_sub(used)),
    ensures
        more.saturating_add(used).all_lte(limit),
        used.saturating_add(more).all_lte(limit),
{
}

/// The weight operations go by dimension: a sum or a difference is that of the times and
/// that of the sizes, held within a `u64`, and comparisons look at both.
pub proof fn weights_go_by_dimension(a: Weight, b: Weight, size: u64)
    ensures
        Weight::zero().ref_time == 0 && Weight::zero().proof_size == 0,
        Weight::from_parts(a.ref_time, size).ref_time == a.ref_time,
        Weight::from_parts(a.ref_time, size).proof_size == size,
        a.set_proof_size(size).ref_time == a.ref_time && a.set_proof_size(size).proof_size == size,
        a.saturating_add(b).ref_time == if a.ref_time + b.ref_time > u64::MAX {
            u64::MAX as int
        } else {
            a.ref_time + b.ref_time
        },
        a.saturating_add(b).proof_size == if a.proof_size + b.proof_size > u64::MAX {
            u64::MAX as int
        } else {
            a.proof_size + b.proof_size
        },
        a.saturating_sub(b).ref_time == if a.ref_time < b.ref_time {
            0
        } else {
            a.ref_time - b.ref_time
        },
        a.saturating_sub(b).proof_size == if a.proof_size < b.proof_size {
            0
        } else {
            a.proof_size - b.proof_size
        },
        a.all_lte(b) <==> a.ref_time <= b.ref_time && a.proof_size <= b.proof_size,
        a.all_gte(b) <==> a.ref_time >= b.ref_time && a.proof_size >= b.proof_size,
        a.any_gt(b) <==> a.ref_time > b.ref_time || a.proof_size > b.proof_size,
        a.checked_sub(b) is Some <==> a.ref_time >= b.ref_time && a.proof_size >= b.proof_size,
        a.checked_sub(b) matches Some(rest) ==> rest.ref_time == a.ref_time - b.ref_time
            && rest.proof_size == a.proof_size - b.proof_size,
{
}

} // verus!
