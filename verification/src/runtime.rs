//! What a runtime supplies: the services of its other modules, and the weights
//! that were measured for it.
//!
//! A runtime is a value, the state of its modules. What only reads takes a reference to
//! it. What writes takes it and gives back the state that it leaves. What depends on no
//! state takes none.
//!
//! Nothing is assumed of an implementation. Contracts in this crate speak of its
//! answers through `call_ensures`: whatever a method answered to the state and the
//! arguments that it was called with. As they name the states that calls start from and
//! lead to, they also fix which calls are made, and in which order.

use crate::bits::BitString;
use crate::candidate::BackedCandidate;
use crate::dispatch::DispatchErrorWithPostInfo;
use crate::primitives::{
    BackingRecord, BlockNumber, CandidateHash, CheckedDisputeStatementSet, CoreIndex,
    DisputeStatementSet, FreedReason, GroupIndex, Header, ParaId, SessionIndex,
    SignedAvailabilityBitfield, SigningContext, UncheckedSignedAvailabilityBitfield, ValidatorId,
    ValidatorIndex, H256,
};
use crate::relay_parents::AllowedRelayParentsTracker;
use crate::weight::Weight;
use std::collections::BTreeMap;
use vstd::prelude::*;

verus! {

/// The weights of the parts of an inherent.
pub trait WeightInfo {
    /// The weight of backed candidates, taken together.
    fn backed_candidates_weight(candidates: &Vec<BackedCandidate>) -> Weight;

    /// The weight of bitfields, taken together.
    fn signed_bitfields_weight(bitfields: &Vec<UncheckedSignedAvailabilityBitfield>) -> Weight;

    /// The weight of one bitfield.
    fn signed_bitfield_weight(bitfield: &UncheckedSignedAvailabilityBitfield) -> Weight;

    /// The weight of dispute statement sets, taken together.
    fn multi_dispute_statement_sets_weight(disputes: &Vec<DisputeStatementSet>) -> Weight;

    /// The weight of one dispute statement set.
    fn dispute_statement_set_weight(set: &DisputeStatementSet) -> Weight;

    /// The weight of checked dispute statement sets, taken together.
    fn checked_multi_dispute_statement_sets_weight(
        disputes: &Vec<CheckedDisputeStatementSet>,
    ) -> Weight;
}

/// The module that keeps track of disputes.
pub trait DisputesHandler: Sized {
    /// Sorts statement sets and removes duplicates.
    fn deduplicate_and_sort_dispute_data(
        &self,
        disputes: Vec<DisputeStatementSet>,
    ) -> Vec<DisputeStatementSet>;

    /// Removes from a set the statements that may not be imported; nothing is left
    /// of a set that may not be imported at all.
    fn filter_dispute_data(
        &self,
        set: DisputeStatementSet,
        post_conclusion_acceptance_period: BlockNumber,
    ) -> Option<CheckedDisputeStatementSet>;

    /// Imports statement sets, and tells whether that succeeded.
    fn process_checked_multi_dispute_data(
        self,
        disputes: &Vec<CheckedDisputeStatementSet>,
    ) -> (Self, bool);

    /// Whether the chain is frozen because a candidate that it included is invalid.
    fn is_frozen(&self) -> bool;

    /// Whether a dispute over a candidate concluded that it is invalid.
    fn concluded_invalid(&self, session: SessionIndex, candidate: CandidateHash) -> bool;

    /// Takes note that a candidate was included.
    fn note_included(
        self,
        session: SessionIndex,
        candidate: CandidateHash,
        now: BlockNumber,
    ) -> Self;
}

/// The module that schedules parachains on cores and groups validators.
pub trait Scheduler: Sized {
    /// The availability cores: one bit each, set where the core is occupied.
    fn availability_cores(&self) -> BitString;

    /// Frees cores, keyed by core index, and schedules parachains on them again.
    fn free_cores_and_fill_claimqueue(
        self,
        freed: BTreeMap<u32, FreedReason>,
        now: BlockNumber,
    ) -> Self;

    /// Whether it is time to look for candidates that did not become available.
    fn availability_timeout_check_required(&self) -> bool;

    /// The free cores and the parachains scheduled on them.
    fn scheduled_paras(&self) -> Vec<(CoreIndex, ParaId)>;

    /// The group of validators that backs candidates on a core at a height.
    fn group_assigned_to_core(&self, core: CoreIndex, at: u64) -> Option<GroupIndex>;

    /// The validators of a group.
    fn group_validators(&self, group: GroupIndex) -> Option<Vec<ValidatorIndex>>;

    /// Takes note of the cores, keyed by core index, that candidates now occupy.
    fn occupied(self, cores: BTreeMap<u32, ParaId>) -> Self;
}

/// What came of handing backed candidates to the inclusion module.
#[derive(Clone, Debug, PartialEq, Eq)]
pub struct ProcessedCandidates {
    /// The cores that candidates now occupy, and their parachains.
    pub core_indices: Vec<(CoreIndex, ParaId)>,
    /// The candidates and who backed them.
    pub candidate_receipt_with_backing_validator_indices: Vec<BackingRecord>,
}

/// The module that keeps track of candidates on cores.
pub trait Inclusion: Sized {
    /// The hash of a candidate.
    fn candidate_hash(candidate: &BackedCandidate) -> CandidateHash;

    /// Frees the cores of disputed candidates, and tells which cores these were.
    fn collect_disputed(self, disputed: &Vec<CandidateHash>) -> (Self, Vec<CoreIndex>);

    /// Frees the cores of candidates that did not become available in time, and
    /// tells which cores these were.
    fn collect_timed_out(self) -> (Self, Vec<CoreIndex>);

    /// Whether a bitfield carries a valid signature of a validator.
    fn check_bitfield_signature(
        bitfield: &UncheckedSignedAvailabilityBitfield,
        context: SigningContext,
        validator: ValidatorId,
    ) -> bool;

    /// Counts availability votes, and gives the cores of candidates that became
    /// available and the hashes of these.
    fn update_pending_availability_and_get_freed_cores(
        self,
        expected_bits: usize,
        validators: &Vec<ValidatorId>,
        bitfields: &Vec<SignedAvailabilityBitfield>,
    ) -> (Self, Vec<(CoreIndex, CandidateHash)>);

    /// Whether a candidate, which stands at an index among those of the inherent,
    /// passes the checks that do not depend on its votes.
    fn verify_backed_candidate(
        &self,
        allowed_relay_parents: &AllowedRelayParentsTracker,
        candidate_index: usize,
        candidate: &BackedCandidate,
    ) -> bool;

    /// Puts candidates on their cores.
    fn process_candidates(
        self,
        allowed_relay_parents: &AllowedRelayParentsTracker,
        candidates: &Vec<(BackedCandidate, CoreIndex)>,
        core_index_enabled: bool,
    ) -> (Self, Result<ProcessedCandidates, DispatchErrorWithPostInfo>);
}

/// What is read of the configuration of the chain.
#[derive(Clone, Debug, PartialEq, Eq)]
pub struct HostConfiguration {
    /// How many relay chain blocks back candidates may build.
    pub allowed_ancestry_len: u32,
    /// For how long votes are accepted after a dispute concluded.
    pub dispute_post_conclusion_acceptance_period: BlockNumber,
    /// How many backing votes a candidate needs, if its group is large enough.
    pub minimum_backing_votes: u32,
    /// Features that nodes support, one bit each.
    pub node_features: BitString,
}

/// The weight limits of a block.
#[derive(Clone, Copy, Debug, PartialEq, Eq, Structural)]
pub struct BlockWeights {
    /// The limit of the whole block.
    pub max_block: Weight,
    /// The limit of the mandatory part of the block, if it has one of its own.
    pub mandatory_max_total: Option<Weight>,
}

/// The weight of one read from, and of one write to, the chain's storage.
#[derive(Clone, Copy, Debug, PartialEq, Eq, Structural)]
pub struct DbWeight {
    pub read: u64,
    pub write: u64,
}

/// The chain as such: the block under construction, its configuration and its
/// validators.
pub trait System: Sized {
    /// The hash of the parent block.
    fn parent_hash(&self) -> H256;

    /// The hash of a header.
    fn header_hash(header: &Header) -> H256;

    /// The configuration.
    fn configuration(&self) -> HostConfiguration;

    /// The current session.
    fn session_index(&self) -> SessionIndex;

    /// The keys of the active validators.
    fn active_validator_keys(&self) -> Vec<ValidatorId>;

    /// The validators that are disabled in this session.
    fn disabled_validators(&self) -> Vec<ValidatorIndex>;

    /// The weight limits of a block.
    fn block_weights() -> BlockWeights;

    /// The size limit of the mandatory part of a block, in bytes.
    fn max_mandatory_block_length() -> u32;

    /// The weights of storage access.
    fn db_weight() -> DbWeight;

    /// The randomness of the parent block for a subject, if there is any.
    fn parent_block_randomness(&self, subject: [u8; 32]) -> Option<[u8; 32]>;

    /// Adds the parent block to those that candidates may build on, and drops what
    /// is too old.
    fn update_allowed_relay_parents(
        self,
        parent_hash: H256,
        parent_storage_root: H256,
        parent_number: BlockNumber,
        allowed_ancestry_len: u32,
    ) -> Self;

    /// The relay chain blocks that candidates may build on.
    fn allowed_relay_parents(&self) -> AllowedRelayParentsTracker;
}

/// The runtime that the inherent is processed in.
pub trait Config: System + Scheduler + Inclusion + DisputesHandler {
    /// Weight information.
    type WeightInfo: WeightInfo;
}

} // verus!
