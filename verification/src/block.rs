//! What the block under construction allows: its weight limit and its entropy.

use crate::candidate::BackedCandidate;
use crate::disputes::weighs_disputes;
use crate::primitives::{DisputeStatementSet, UncheckedSignedAvailabilityBitfield, H256};
use crate::runtime::{BlockWeights, Config, System, WeightInfo};
use crate::selection::capped;
use crate::weight::Weight;
use crate::weight_limit::{weighs_bitfields, weighs_candidates};
use vstd::prelude::*;

verus! {

/// What block randomness is asked for: `candidate-seed-selection-subject` in ASCII.
pub const CANDIDATE_SEED_SUBJECT: [u8; 32] = [
    99u8, 97, 110, 100, 105, 100, 97, 116, 101, 45, 115, 101, 101, 100, 45, 115,
    101, 108, 101, 99, 116, 105, 111, 110, 45, 115, 117, 98, 106, 101, 99, 116,
];

/// Whether `entropy` is that of the block: the randomness of the parent block for
/// [`CANDIDATE_SEED_SUBJECT`], or the hash of the parent block where there is none.
pub open spec fn is_entropy<T: System>(
    runtime: T,
    parent_hash: H256,
    entropy: [u8; 32],
) -> bool {
    exists|vrf_random: Option<[u8; 32]>| #[trigger]
        call_ensures(
            T::parent_block_randomness,
            (&runtime, CANDIDATE_SEED_SUBJECT),
            vrf_random,
        ) && entropy == match vrf_random {
            Some(random) => random,
            None => parent_hash.0,
        }
}

/// Derives entropy from the randomness of the parent block.
///
/// In the odd case that none is available, takes the hash of the parent block.
pub fn compute_entropy<T: System>(runtime: &T, parent_hash: H256) -> (entropy: [u8; 32])
    ensures
        is_entropy::<T>(*runtime, parent_hash, entropy),
{
    let vrf_random = runtime.parent_block_randomness(CANDIDATE_SEED_SUBJECT);
    match vrf_random {
        Some(random) => random,
        None => parent_hash.0,
    }
}

/// The weight that is open to mandatory calls: that of their class if it is limited,
/// otherwise that of the whole block. The size is that of the block's data.
pub open spec fn mandatory_limit(limits: BlockWeights, length: u32) -> Weight {
    (match limits.mandatory_max_total {
        Some(max_total) => max_total,
        None => limits.max_block,
    }).set_proof_size(length as u64)
}

/// Whether `limit` is the weight that is open to mandatory calls.
pub open spec fn is_max_block_weight<T: System>(limit: Weight) -> bool {
    exists|limits: BlockWeights, length: u32| #[trigger]
        call_ensures(T::block_weights, (), limits) && #[trigger] call_ensures(
            T::max_mandatory_block_length,
            (),
            length,
        ) && limit == mandatory_limit(limits, length)
}

/// The weight that is open to mandatory calls.
pub fn max_block_weight<T: System>() -> (limit: Weight)
    ensures
        is_max_block_weight::<T>(limit),
{
    let limits = T::block_weights();
    let length = T::max_mandatory_block_length();
    let max_weight = match limits.mandatory_max_total {
        Some(max_total) => max_total,
        None => limits.max_block,
    };
    max_weight.set_proof_size(length as u64)
}

/// Whether `weight` is the weight of an inherent: that of its candidates, its
/// bitfields and its disputes, added up.
pub open spec fn is_total_weight<T: Config>(
    candidates: Seq<BackedCandidate>,
    bitfields: Seq<UncheckedSignedAvailabilityBitfield>,
    disputes: Seq<DisputeStatementSet>,
    weight: Weight,
) -> bool {
    exists|cw: Weight, bw: Weight, dw: Weight| #[trigger]
        weighs_candidates::<T>(candidates, cw) && #[trigger] weighs_bitfields::<T>(bitfields, bw)
            && #[trigger] weighs_disputes::<T>(disputes, dw) && weight == cw.saturating_add(
            bw,
        ).saturating_add(dw)
}

/// The weight of an inherent.
pub fn paras_inherent_total_weight<T: Config>(
    backed_candidates: &Vec<BackedCandidate>,
    bitfields: &Vec<UncheckedSignedAvailabilityBitfield>,
    disputes: &Vec<DisputeStatementSet>,
) -> (weight: Weight)
    ensures
        is_total_weight::<T>(backed_candidates@, bitfields@, disputes@, weight),
{
    let candidates_weight = <T::WeightInfo as WeightInfo>::backed_candidates_weight(
        backed_candidates,
    );
    let bitfields_weight = <T::WeightInfo as WeightInfo>::signed_bitfields_weight(bitfields);
    let disputes_weight = <T::WeightInfo as WeightInfo>::multi_dispute_statement_sets_weight(
        disputes,
    );
    assert(weighs_candidates::<T>(backed_candidates@, candidates_weight));
    assert(weighs_bitfields::<T>(bitfields@, bitfields_weight));
    assert(weighs_disputes::<T>(disputes@, disputes_weight));
    candidates_weight.saturating_add(bitfields_weight).saturating_add(disputes_weight)
}

/// Where the entropy comes from: the runtime is asked for randomness for one subject, and
/// its answer is the entropy if there is one, and the hash of the parent block if not.
pub proof fn entropy_is_randomness_or_parent_hash<T: System>(
    runtime: T,
    parent_hash: H256,
    entropy: [u8; 32],
) -> (answer: Option<[u8; 32]>)
    requires
        is_entropy::<T>(runtime, parent_hash, entropy),
    ensures
        call_ensures(
            T::parent_block_randomness,
            (&runtime, CANDIDATE_SEED_SUBJECT),
            answer,
        ),
        answer matches Some(random) ==> entropy == random,
        answer is None ==> entropy == parent_hash.0,
{
    choose|answer: Option<[u8; 32]>| #[trigger]
        call_ensures(
            T::parent_block_randomness,
            (&runtime, CANDIDATE_SEED_SUBJECT),
            answer,
        ) && entropy == match answer {
            Some(random) => random,
            None => parent_hash.0,
        }
}

/// What limits mandatory calls: the time that is set for them, or that of the whole block
/// where none is set, and the size of the block's data.
pub proof fn limit_is_that_of_mandatory_calls<T: System>(limit: Weight) -> (r: (BlockWeights, u32))
    requires
        is_max_block_weight::<T>(limit),
    ensures
        call_ensures(T::block_weights, (), r.0),
        call_ensures(T::max_mandatory_block_length, (), r.1),
        r.0.mandatory_max_total matches Some(own) ==> limit.ref_time == own.ref_time,
        r.0.mandatory_max_total is None ==> limit.ref_time == r.0.max_block.ref_time,
        limit.proof_size == r.1,
{
    let (limits, length) = choose|limits: BlockWeights, length: u32| #[trigger]
        call_ensures(T::block_weights, (), limits) && #[trigger] call_ensures(
            T::max_mandatory_block_length,
            (),
            length,
        ) && limit == mandatory_limit(limits, length);
    (limits, length)
}

/// What an inherent weighs: what the runtime answers for its candidates, its bitfields and
/// its disputes, each taken together, added up in both dimensions.
pub proof fn total_weight_adds_three_answers<T: Config>(
    candidates: Seq<BackedCandidate>,
    bitfields: Seq<UncheckedSignedAvailabilityBitfield>,
    disputes: Seq<DisputeStatementSet>,
    weight: Weight,
) -> (r: (Weight, Weight, Weight))
    requires
        is_total_weight::<T>(candidates, bitfields, disputes, weight),
    ensures
        exists|v: &Vec<BackedCandidate>|
            v@ == candidates && #[trigger] call_ensures(
                <T::WeightInfo as WeightInfo>::backed_candidates_weight,
                (v,),
                r.0,
            ),
        exists|v: &Vec<UncheckedSignedAvailabilityBitfield>|
            v@ == bitfields && #[trigger] call_ensures(
                <T::WeightInfo as WeightInfo>::signed_bitfields_weight,
                (v,),
                r.1,
            ),
        exists|v: &Vec<DisputeStatementSet>|
            v@ == disputes && #[trigger] call_ensures(
                <T::WeightInfo as WeightInfo>::multi_dispute_statement_sets_weight,
                (v,),
                r.2,
            ),
        weight.ref_time == capped(r.0.ref_time + r.1.ref_time + r.2.ref_time),
        weight.proof_size == capped(r.0.proof_size + r.1.proof_size + r.2.proof_size),
{
    let (cw, bw, dw) = choose|cw: Weight, bw: Weight, dw: Weight| #[trigger]
        weighs_candidates::<T>(candidates, cw) && #[trigger] weighs_bitfields::<T>(bitfields, bw)
            && #[trigger] weighs_disputes::<T>(disputes, dw) && weight == cw.saturating_add(
            bw,
        ).saturating_add(dw);
    (cw, bw, dw)
}

} // verus!
