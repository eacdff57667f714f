use paras_inherent::backing::{drop_under_backed, sanitize_backed_candidates};
use paras_inherent::bitfields::{sanitize_bitfields, DisputedBitfield};
use paras_inherent::bits::BitString;
use paras_inherent::block::{
    compute_entropy, max_block_weight, paras_inherent_total_weight, CANDIDATE_SEED_SUBJECT,
};
use paras_inherent::candidate::{BackedCandidate, CommittedCandidateReceipt};
use paras_inherent::cores::{
    collect_scheduled, find_backing_group, get_injected_core_index, map_candidates_to_cores,
};
use paras_inherent::disabled::filter_backed_statements_from_disabled_validators;
use paras_inherent::dispatch::{
    fail, DispatchError, DispatchErrorWithPostInfo, Error, InclusionError, Origin, Pays,
    PostDispatchInfo,
};
use paras_inherent::disputes::limit_and_sanitize_disputes;
use paras_inherent::freed::{collect_all_freed_cores, current_concluded_invalid_disputes};
use paras_inherent::pallet::{Call, DecodeError, Pallet};
use paras_inherent::primitives::{
    BackingRecord, BlockNumber, CandidateHash, CandidateReceipt, CheckedDisputeStatementSet,
    CoreIndex, DisputeStatementSet, FreedReason, GroupIndex, Header, InherentData, ParaId,
    SessionIndex, SignedAvailabilityBitfield, SigningContext,
    UncheckedSignedAvailabilityBitfield, ValidatorId, ValidatorIndex, ValidatorSignature,
    ValidityAttestation, H256,
};
use paras_inherent::relay_parents::{AllowedRelayParentsTracker, RelayParent};
use paras_inherent::rng::SelectionRng;
use paras_inherent::runtime::{
    BlockWeights, Config, DbWeight, DisputesHandler, HostConfiguration, Inclusion,
    ProcessedCandidates, Scheduler, System, WeightInfo,
};
use paras_inherent::stages::ProcessInherentDataContext;
use paras_inherent::weight::Weight;
use paras_inherent::weight_limit::apply_weight_limit;
use rand::seq::SliceRandom;
use rand::SeedableRng;
use std::collections::BTreeMap;

/// The chain is frozen.
const FROZEN: u32 = 1;
/// Validator 1 is disabled.
const DISABLED: u32 = 2;
/// A core index may stand behind validator indices.
const ELASTIC: u32 = 4;
/// The parent block has no randomness.
const NO_RANDOMNESS: u32 = 8;
/// Mandatory calls may weigh no more than 20.
const SMALL: u32 = 16;
/// It is time to look for candidates that timed out.
const TIMEOUT: u32 = 32;
/// The dispute over candidate 66 concluded against it.
const INVALID: u32 = 64;
/// Parachain 100 has two cores.
const TWO_CORES: u32 = 128;
/// The inclusion module refuses candidates.
const REFUSING: u32 = 256;
/// Mandatory calls have no limit of their own.
const UNLIMITED: u32 = 512;

const NOW: BlockNumber = 12;

/// A runtime that writes down what it is told.
#[derive(Clone, Debug, Default, PartialEq, Eq)]
struct Runtime<const F: u32> {
    log: Vec<String>,
}

impl<const F: u32> Runtime<F> {
    fn new() -> Self {
        Runtime { log: vec![] }
    }
    fn told(mut self, what: String) -> Self {
        self.log.push(what);
        self
    }
    fn was_told(&self, what: &str) -> bool {
        self.log.iter().any(|told| told.starts_with(what))
    }
}

fn has(flags: u32, flag: u32) -> bool {
    flags & flag != 0
}

fn weight(n: usize) -> Weight {
    Weight::from_parts(n as u64, 0)
}

fn hash(n: u8) -> CandidateHash {
    CandidateHash(H256([n; 32]))
}

fn bits(text: &str) -> BitString {
    let values: Vec<bool> = text.chars().map(|c| c == '1').collect();
    BitString::from_bits(&values)
}

fn text(bits: &BitString) -> String {
    bits.to_bits().iter().map(|b| if *b { '1' } else { '0' }).collect()
}

fn tracker() -> AllowedRelayParentsTracker {
    AllowedRelayParentsTracker {
        entries: vec![RelayParent {
            hash: H256([1; 32]),
            storage_root: H256([2; 32]),
            number: 10,
        }],
    }
}

impl<const F: u32> WeightInfo for Runtime<F> {
    fn backed_candidates_weight(candidates: &Vec<BackedCandidate>) -> Weight {
        weight(10 * candidates.len())
    }
    fn signed_bitfields_weight(
        bitfields: &Vec<UncheckedSignedAvailabilityBitfield>,
    ) -> Weight {
        weight(5 * bitfields.len())
    }
    fn signed_bitfield_weight(_: &UncheckedSignedAvailabilityBitfield) -> Weight {
        weight(5)
    }
    fn multi_dispute_statement_sets_weight(disputes: &Vec<DisputeStatementSet>) -> Weight {
        weight(7 * disputes.len())
    }
    fn dispute_statement_set_weight(_: &DisputeStatementSet) -> Weight {
        weight(7)
    }
    fn checked_multi_dispute_statement_sets_weight(
        disputes: &Vec<CheckedDisputeStatementSet>,
    ) -> Weight {
        weight(7 * disputes.len())
    }
}

impl<const F: u32> DisputesHandler for Runtime<F> {
    fn deduplicate_and_sort_dispute_data(
        &self,
        mut disputes: Vec<DisputeStatementSet>,
    ) -> Vec<DisputeStatementSet> {
        disputes.sort_by(|a, b| a.candidate_hash.0 .0.cmp(&b.candidate_hash.0 .0));
        disputes.dedup();
        disputes
    }
    fn filter_dispute_data(
        &self,
        set: DisputeStatementSet,
        post_conclusion_acceptance_period: BlockNumber,
    ) -> Option<CheckedDisputeStatementSet> {
        assert_eq!(post_conclusion_acceptance_period, 5);
        if set.statements.is_empty() {
            None
        } else {
            Some(CheckedDisputeStatementSet { set })
        }
    }
    fn process_checked_multi_dispute_data(
        self,
        disputes: &Vec<CheckedDisputeStatementSet>,
    ) -> (Self, bool) {
        (self.told(format!("import {}", disputes.len())), false)
    }
    fn is_frozen(&self) -> bool {
        has(F, FROZEN) && self.was_told("import")
    }
    fn concluded_invalid(&self, session: SessionIndex, candidate: CandidateHash) -> bool {
        assert_eq!(session, 3);
        has(F, INVALID) && candidate == hash(66)
    }
    fn note_included(
        self,
        session: SessionIndex,
        candidate: CandidateHash,
        now: BlockNumber,
    ) -> Self {
        assert_eq!((session, now), (3, NOW));
        self.told(format!("note {}", candidate.0 .0[0]))
    }
}

impl<const F: u32> Scheduler for Runtime<F> {
    fn availability_cores(&self) -> BitString {
        bits("1010")
    }
    fn free_cores_and_fill_claimqueue(
        self,
        freed: BTreeMap<u32, FreedReason>,
        now: BlockNumber,
    ) -> Self {
        assert_eq!(now, NOW);
        let told: Vec<String> = freed.iter().map(|(core, r)| format!("{} {:?}", core, r)).collect();
        self.told(format!("free [{}]", told.join(", ")))
    }
    fn availability_timeout_check_required(&self) -> bool {
        has(F, TIMEOUT)
    }
    fn scheduled_paras(&self) -> Vec<(CoreIndex, ParaId)> {
        if has(F, TWO_CORES) {
            vec![
                (CoreIndex(1), ParaId(100)),
                (CoreIndex(0), ParaId(100)),
                (CoreIndex(2), ParaId(200)),
            ]
        } else {
            vec![(CoreIndex(1), ParaId(100)), (CoreIndex(0), ParaId(200))]
        }
    }
    fn group_assigned_to_core(&self, core: CoreIndex, at: u64) -> Option<GroupIndex> {
        if at == 11 && core.0 < 4 {
            Some(GroupIndex(core.0))
        } else {
            None
        }
    }
    fn group_validators(&self, group: GroupIndex) -> Option<Vec<ValidatorIndex>> {
        let members = |list: &[u32]| list.iter().map(|v| ValidatorIndex(*v)).collect();
        match group.0 {
            0 | 1 => Some(members(&[0, 1, 2])),
            2 => Some(members(&[3])),
            _ => None,
        }
    }
    fn occupied(self, cores: BTreeMap<u32, ParaId>) -> Self {
        let told: Vec<String> = cores.iter().map(|(core, p)| format!("{} {}", core, p.0)).collect();
        self.told(format!("occupied [{}]", told.join(", ")))
    }
}

impl<const F: u32> Inclusion for Runtime<F> {
    fn candidate_hash(candidate: &BackedCandidate) -> CandidateHash {
        hash(candidate.candidate.encoded[0])
    }
    fn collect_disputed(self, disputed: &Vec<CandidateHash>) -> (Self, Vec<CoreIndex>) {
        let cores = disputed.iter().map(|_| CoreIndex(2)).collect();
        (self.told(format!("disputed {}", disputed.len())), cores)
    }
    fn collect_timed_out(self) -> (Self, Vec<CoreIndex>) {
        (self.told("timed out".to_string()), vec![CoreIndex(1)])
    }
    fn check_bitfield_signature(
        bitfield: &UncheckedSignedAvailabilityBitfield,
        context: SigningContext,
        validator: ValidatorId,
    ) -> bool {
        assert_eq!(context, SigningContext { parent_hash: H256([7; 32]), session_index: 3 });
        bitfield.signature.0[0] == validator.0[0]
    }
    fn update_pending_availability_and_get_freed_cores(
        self,
        expected_bits: usize,
        validators: &Vec<ValidatorId>,
        bitfields: &Vec<SignedAvailabilityBitfield>,
    ) -> (Self, Vec<(CoreIndex, CandidateHash)>) {
        assert_eq!((expected_bits, validators.len()), (4, 4));
        let concluded = if bitfields.is_empty() {
            vec![]
        } else {
            vec![(CoreIndex(0), hash(50)), (CoreIndex(3), hash(51))]
        };
        (self.told(format!("count {}", bitfields.len())), concluded)
    }
    fn verify_backed_candidate(
        &self,
        allowed_relay_parents: &AllowedRelayParentsTracker,
        _candidate_index: usize,
        candidate: &BackedCandidate,
    ) -> bool {
        assert_eq!(*allowed_relay_parents, tracker());
        candidate.candidate.encoded[0] != 13
    }
    fn process_candidates(
        self,
        _allowed_relay_parents: &AllowedRelayParentsTracker,
        candidates: &Vec<(BackedCandidate, CoreIndex)>,
        core_index_enabled: bool,
    ) -> (Self, Result<ProcessedCandidates, DispatchErrorWithPostInfo>) {
        assert_eq!(core_index_enabled, has(F, ELASTIC));
        let runtime = self.told(format!("back {}", candidates.len()));
        if has(F, REFUSING) {
            return (runtime, Err(refusal()));
        }
        let processed = ProcessedCandidates {
            core_indices: candidates.iter().map(|(c, core)| (*core, c.candidate.para_id)).collect(),
            candidate_receipt_with_backing_validator_indices: candidates
                .iter()
                .map(|(c, _)| record(c.candidate.encoded[0]))
                .collect(),
        };
        (runtime, Ok(processed))
    }
}

impl<const F: u32> System for Runtime<F> {
    fn parent_hash(&self) -> H256 {
        H256([7; 32])
    }
    fn header_hash(header: &Header) -> H256 {
        H256([header.encoded[0]; 32])
    }
    fn configuration(&self) -> HostConfiguration {
        HostConfiguration {
            allowed_ancestry_len: 2,
            dispute_post_conclusion_acceptance_period: 5,
            minimum_backing_votes: 2,
            node_features: if has(F, ELASTIC) { bits("01") } else { bits("1") },
        }
    }
    fn session_index(&self) -> SessionIndex {
        3
    }
    fn active_validator_keys(&self) -> Vec<ValidatorId> {
        vec![
            ValidatorId([30; 32]),
            ValidatorId([31; 32]),
            ValidatorId([32; 32]),
            ValidatorId([33; 32]),
        ]
    }
    fn disabled_validators(&self) -> Vec<ValidatorIndex> {
        if has(F, DISABLED) {
            vec![ValidatorIndex(1)]
        } else {
            vec![]
        }
    }
    fn block_weights() -> BlockWeights {
        BlockWeights {
            max_block: Weight::from_parts(1000, 1),
            mandatory_max_total: if has(F, UNLIMITED) {
                None
            } else if has(F, SMALL) {
                Some(Weight::from_parts(20, 1))
            } else {
                Some(Weight::from_parts(500, 1))
            },
        }
    }
    fn max_mandatory_block_length() -> u32 {
        4096
    }
    fn db_weight() -> DbWeight {
        DbWeight { read: 25, write: 100 }
    }
    fn parent_block_randomness(&self, subject: [u8; 32]) -> Option<[u8; 32]> {
        assert_eq!(subject, *b"candidate-seed-selection-subject");
        if has(F, NO_RANDOMNESS) {
            None
        } else {
            Some([42; 32])
        }
    }
    fn update_allowed_relay_parents(
        self,
        parent_hash: H256,
        parent_storage_root: H256,
        parent_number: BlockNumber,
        allowed_ancestry_len: u32,
    ) -> Self {
        assert_eq!(parent_hash, H256([7; 32]));
        assert_eq!(parent_storage_root, H256([8; 32]));
        assert_eq!((parent_number, allowed_ancestry_len), (NOW - 1, 2));
        self.told("relay parents".to_string())
    }
    fn allowed_relay_parents(&self) -> AllowedRelayParentsTracker {
        if self.was_told("relay parents") {
            tracker()
        } else {
            AllowedRelayParentsTracker { entries: vec![] }
        }
    }
}

impl<const F: u32> Config for Runtime<F> {
    type WeightInfo = Runtime<F>;
}

fn refusal() -> DispatchErrorWithPostInfo {
    DispatchErrorWithPostInfo {
        post_info: PostDispatchInfo { actual_weight: Some(weight(1)), pays_fee: Pays::No },
        error: DispatchError::Inclusion(InclusionError(4)),
    }
}

fn record(n: u8) -> BackingRecord {
    BackingRecord { receipt: CandidateReceipt { encoded: vec![n] }, votes: vec![] }
}

fn vote(n: u8) -> ValidityAttestation {
    ValidityAttestation::Explicit(ValidatorSignature([n; 64]))
}

fn candidate(para: u32, id: u8, indices: &str) -> BackedCandidate {
    let validator_indices = bits(indices);
    let votes = validator_indices.to_bits().iter().filter(|b| **b).count();
    BackedCandidate {
        candidate: CommittedCandidateReceipt {
            para_id: ParaId(para),
            relay_parent: H256([1; 32]),
            new_validation_code: None,
            encoded: vec![id],
        },
        validity_votes: (0..votes).map(|n| vote(n as u8)).collect(),
        validator_indices,
    }
}

fn asking(para: u32, id: u8, indices: &str, core: u32) -> BackedCandidate {
    let mut c = candidate(para, id, indices);
    c.set_validator_indices_and_core_index(bits(indices), Some(CoreIndex(core)));
    c
}

fn bitfield(validator: u32, payload: &str) -> UncheckedSignedAvailabilityBitfield {
    UncheckedSignedAvailabilityBitfield {
        payload: bits(payload),
        validator_index: ValidatorIndex(validator),
        signature: ValidatorSignature([30 + validator as u8; 64]),
    }
}

fn dispute(n: u8, session: SessionIndex) -> DisputeStatementSet {
    DisputeStatementSet { candidate_hash: hash(n), session, statements: vec![n] }
}

fn header() -> Header {
    Header { state_root: H256([8; 32]), encoded: vec![7] }
}

fn data() -> InherentData {
    InherentData {
        bitfields: vec![bitfield(0, "1000"), bitfield(2, "1110")],
        backed_candidates: vec![candidate(100, 21, "110"), candidate(200, 22, "101")],
        disputes: vec![dispute(66, 3)],
        parent_header: header(),
    }
}

fn ids(candidates: &[BackedCandidate]) -> Vec<u8> {
    candidates.iter().map(|c| c.candidate.encoded[0]).collect()
}

fn ids_with_core(candidates: &[(BackedCandidate, CoreIndex)]) -> Vec<(u8, u32)> {
    candidates.iter().map(|(c, core)| (c.candidate.encoded[0], core.0)).collect()
}

fn validators_of(bitfields: &[UncheckedSignedAvailabilityBitfield]) -> Vec<u32> {
    bitfields.iter().map(|b| b.validator_index.0).collect()
}

fn enter<const F: u32>(
    pallet: &mut Pallet,
    data: InherentData,
) -> Result<PostDispatchInfo, DispatchErrorWithPostInfo> {
    pallet.enter(Runtime::<F>::new(), NOW, Origin::Unsigned, data).1
}

fn provide<const F: u32>(pallet: &mut Pallet, data: InherentData) -> InherentData {
    match pallet.create_inherent(Runtime::<F>::new(), NOW, Ok(Some(data))).1 {
        Some(Call::Enter { data }) => data,
        _ => unreachable!(),
    }
}

fn error(e: Error) -> Result<PostDispatchInfo, DispatchErrorWithPostInfo> {
    Err(fail(DispatchError::Inherent(e)))
}

#[test]
fn entering_an_inherent_puts_its_votes_on_chain() {
    let mut pallet = Pallet::new();
    assert!(!pallet.included && pallet.on_chain_votes.is_none());
    let r = enter::<0>(&mut pallet, data());
    // Two candidates, two bitfields and a dispute.
    let info = PostDispatchInfo { actual_weight: Some(weight(37)), pays_fee: Pays::Yes };
    assert_eq!(r, Ok(info));
    assert!(pallet.included);
    let votes = pallet.on_chain_votes.as_ref().unwrap();
    assert_eq!(votes.session, 3);
    assert_eq!(votes.disputes, vec![dispute(66, 3)]);
    // Core 0 comes first.
    assert_eq!(votes.backing_validators_per_candidate, vec![record(22), record(21)]);
}

#[test]
fn one_inherent_per_block() {
    let mut pallet = Pallet::new();
    assert!(enter::<0>(&mut pallet, data()).is_ok());
    assert_eq!(enter::<0>(&mut pallet, data()), error(Error::TooManyInclusionInherents));
    assert!(pallet.included);
    pallet.on_finalize();
    assert!(!pallet.included);
    assert!(pallet.on_chain_votes.is_some());
    assert!(enter::<0>(&mut pallet, data()).is_ok());
}

#[test]
fn a_failed_inherent_counts_too() {
    let mut pallet = Pallet::new();
    let mut wrong = data();
    wrong.parent_header.encoded = vec![9];
    assert_eq!(enter::<0>(&mut pallet, wrong), error(Error::InvalidParentHeader));
    assert!(pallet.included);
    assert!(pallet.on_chain_votes.is_none());
    assert_eq!(enter::<0>(&mut pallet, data()), error(Error::TooManyInclusionInherents));
}

#[test]
fn inherents_come_from_nobody() {
    let mut pallet = Pallet::new();
    for origin in [Origin::Root, Origin::Signed([1; 32])] {
        let (runtime, r) = pallet.enter(Runtime::<0>::new(), NOW, origin, data());
        assert_eq!(r, Err(fail(DispatchError::BadOrigin)));
        assert_eq!(runtime, Runtime::new());
        assert!(!pallet.included);
    }
}

#[test]
fn overweight_inherents_are_refused_on_entry() {
    let mut pallet = Pallet::new();
    assert_eq!(enter::<SMALL>(&mut pallet, data()), error(Error::InherentOverweight));
    assert!(pallet.on_chain_votes.is_none());
    // Exactly at the limit.
    let mut small = data();
    small.backed_candidates = vec![candidate(100, 21, "110")];
    small.disputes = vec![];
    let r = enter::<SMALL>(&mut Pallet::new(), small);
    assert_eq!(r.unwrap().actual_weight, Some(weight(20)));
}

#[test]
fn provided_inherents_are_cut_down() {
    // The dispute takes 7 and the bitfields 10, so that no candidate fits.
    let left = provide::<SMALL>(&mut Pallet::new(), data());
    assert_eq!(ids(&left.backed_candidates), Vec::<u8>::new());
    assert_eq!(validators_of(&left.bitfields), vec![0, 2]);
    assert_eq!(left.disputes, vec![dispute(66, 3)]);
    assert_eq!(left.parent_header, header());
    // Without the dispute one candidate fits: that which comes first in the order that
    // the randomness gives.
    let mut lighter = data();
    lighter.disputes = vec![];
    let left = provide::<SMALL>(&mut Pallet::new(), lighter);
    let mut order: Vec<usize> = vec![0, 1];
    order.shuffle(&mut rand_chacha::ChaChaRng::from_seed([42; 32]));
    assert_eq!(ids(&left.backed_candidates), vec![[21, 22][order[0]]]);
}

#[test]
fn provided_inherents_fit_when_weighed_anew() {
    let mut heavy = data();
    for n in 0..10 {
        heavy.disputes.push(dispute(70 + n, 3));
    }
    let (left, info) = Pallet::new()
        .process_inherent_data(
            Runtime::<SMALL>::new(),
            NOW,
            heavy,
            ProcessInherentDataContext::ProvideInherent,
        )
        .1
        .unwrap();
    // Two disputes and a bitfield.
    assert_eq!(info.actual_weight, Some(weight(19)));
    assert_eq!(left.disputes, vec![dispute(66, 3), dispute(70, 3)]);
    assert_eq!(
        paras_inherent_total_weight::<Runtime<SMALL>>(
            &left.backed_candidates,
            &left.bitfields,
            &left.disputes
        ),
        weight(19)
    );
}

#[test]
fn provided_inherents_can_be_entered() {
    let mut pallet = Pallet::new();
    let left = provide::<SMALL>(&mut pallet, data());
    assert!(!pallet.included);
    assert!(enter::<SMALL>(&mut pallet, left).is_ok());

    let left = provide::<DISABLED>(&mut Pallet::new(), data());
    assert!(enter::<DISABLED>(&mut Pallet::new(), left).is_ok());
}

#[test]
fn processing_returns_the_weight_of_what_is_left() {
    let (left, info) = Pallet::new()
        .process_inherent_data(
            Runtime::<SMALL>::new(),
            NOW,
            data(),
            ProcessInherentDataContext::ProvideInherent,
        )
        .1
        .unwrap();
    assert_eq!(info.actual_weight, Some(weight(17)));
    assert_eq!(left.bitfields.len(), 2);
    let (left, info) = Pallet::new()
        .process_inherent_data(
            Runtime::<0>::new(),
            NOW, data(), ProcessInherentDataContext::Enter)
        .1
        .unwrap();
    assert_eq!(info.actual_weight, Some(weight(37)));
    assert_eq!(ids(&left.backed_candidates), vec![22, 21]);
}

#[test]
fn a_frozen_chain_includes_disputes_only() {
    let mut pallet = Pallet::new();
    let left = provide::<FROZEN>(&mut pallet, data());
    assert!(left.bitfields.is_empty() && left.backed_candidates.is_empty());
    assert_eq!(left.disputes, vec![dispute(66, 3)]);
    assert_eq!(left.parent_header, header());
    let votes = pallet.on_chain_votes.as_ref().unwrap();
    assert_eq!(votes.disputes, vec![dispute(66, 3)]);
    assert!(votes.backing_validators_per_candidate.is_empty());
    let r = enter::<FROZEN>(&mut Pallet::new(), data());
    assert_eq!(r.unwrap().actual_weight, Some(weight(7)));
}

#[test]
fn votes_of_disabled_validators_are_refused_on_entry_and_dropped_before() {
    let r = enter::<DISABLED>(&mut Pallet::new(), data());
    assert_eq!(r, error(Error::BackedByDisabled));
    let left = provide::<DISABLED>(&mut Pallet::new(), data());
    // Candidate 21 is left with one vote, and needs two.
    assert_eq!(ids(&left.backed_candidates), vec![22]);
}

#[test]
fn unscheduled_candidates_are_refused_on_entry_and_dropped_before() {
    let mut more = data();
    more.backed_candidates.push(candidate(300, 23, "111"));
    let r = enter::<0>(&mut Pallet::new(), more.clone());
    assert_eq!(r, error(Error::BackedOnUnscheduledCore));
    let left = provide::<0>(&mut Pallet::new(), more);
    assert_eq!(ids(&left.backed_candidates), vec![22, 21]);
}

#[test]
fn errors_of_the_inclusion_module_are_passed_on() {
    let mut pallet = Pallet::new();
    assert_eq!(enter::<REFUSING>(&mut pallet, data()), Err(refusal()));
    // The disputes were imported before.
    let votes = pallet.on_chain_votes.as_ref().unwrap();
    assert_eq!(votes.disputes, vec![dispute(66, 3)]);
    assert!(votes.backing_validators_per_candidate.is_empty());
    let r = pallet.create_inherent(Runtime::<REFUSING>::new(), NOW, Ok(Some(data()))).1;
    assert!(r.is_none());
}

#[test]
fn candidates_found_invalid_are_not_included() {
    let mut given = data();
    given.backed_candidates = vec![
        candidate(100, 66, "110"),
        candidate(100, 13, "110"),
        candidate(100, 21, "110"),
    ];
    let left = provide::<INVALID>(&mut Pallet::new(), given);
    // Candidate 66 was disputed, and 13 does not pass the checks. The bitfield of
    // validator 2 concerns core 2, which a disputed candidate was on.
    assert_eq!(ids(&left.backed_candidates), vec![21]);
    assert_eq!(validators_of(&left.bitfields), vec![0]);
}

#[test]
fn cores_that_timed_out_are_freed() {
    assert!(enter::<TIMEOUT>(&mut Pallet::new(), data()).is_ok());
    let concluded = vec![(CoreIndex(0), hash(1)), (CoreIndex(1), hash(2))];
    let freed = collect_all_freed_cores(Runtime::<TIMEOUT>::new(), &concluded).1;
    let expected: BTreeMap<u32, FreedReason> =
        [(0, FreedReason::Concluded), (1, FreedReason::TimedOut)].into_iter().collect();
    assert_eq!(freed, expected);
    let freed = collect_all_freed_cores(Runtime::<0>::new(), &concluded).1;
    let expected: BTreeMap<u32, FreedReason> =
        [(0, FreedReason::Concluded), (1, FreedReason::Concluded)].into_iter().collect();
    assert_eq!(freed, expected);
}

#[test]
fn inherents_are_created_from_data_only() {
    let mut pallet = Pallet::new();
    assert!(pallet.create_inherent(Runtime::<0>::new(), NOW, Ok(None)).1.is_none());
    assert!(pallet.create_inherent(Runtime::<0>::new(), NOW, Err(DecodeError)).1.is_none());
    assert!(pallet.on_chain_votes.is_none());
    let mut wrong = data();
    wrong.parent_header.encoded = vec![9];
    assert!(pallet.create_inherent_inner(Runtime::<0>::new(), NOW, Ok(Some(wrong))).1.is_none());
    assert!(pallet.create_inherent_inner(Runtime::<0>::new(), NOW, Ok(Some(data()))).1.is_some());
    assert!(pallet.on_chain_votes.is_some());
}

#[test]
fn only_enter_is_an_inherent() {
    assert!(Pallet::is_inherent(&Call::Enter { data: data() }));
    assert!(!Pallet::is_inherent(&Call::Other(vec![1])));
}

#[test]
fn the_hook_costs_a_read_and_a_write() {
    assert_eq!(Pallet::on_initialize::<Runtime<0>>(), Weight::from_parts(125, 0));
}

#[test]
fn entropy_is_the_randomness_or_the_parent_hash() {
    assert_eq!(CANDIDATE_SEED_SUBJECT, *b"candidate-seed-selection-subject");
    assert_eq!(compute_entropy(&Runtime::<0>::new(), H256([7; 32])), [42; 32]);
    assert_eq!(compute_entropy(&Runtime::<NO_RANDOMNESS>::new(), H256([7; 32])), [7; 32]);
}

#[test]
fn the_limit_is_that_of_mandatory_calls() {
    assert_eq!(max_block_weight::<Runtime<0>>(), Weight::from_parts(500, 4096));
    assert_eq!(max_block_weight::<Runtime<UNLIMITED>>(), Weight::from_parts(1000, 4096));
}

#[test]
fn the_weight_of_an_inherent_is_the_sum_of_its_parts() {
    let d = data();
    assert_eq!(
        paras_inherent_total_weight::<Runtime<0>>(&d.backed_candidates, &d.bitfields, &d.disputes),
        weight(37)
    );
}

#[test]
fn disputes_of_the_session_that_concluded_are_listed_once() {
    let checked: Vec<CheckedDisputeStatementSet> =
        [dispute(66, 2), dispute(65, 3), dispute(66, 3), dispute(66, 3)]
            .into_iter()
            .map(|set| CheckedDisputeStatementSet { set })
            .collect();
    let found = current_concluded_invalid_disputes(&Runtime::<INVALID>::new(), &checked, 3);
    assert_eq!(found, vec![hash(66)]);
    assert_eq!(current_concluded_invalid_disputes(&Runtime::<0>::new(), &checked, 3), vec![]);
}

fn sets(r: &[CheckedDisputeStatementSet]) -> Vec<u8> {
    r.iter().map(|c| c.set.statements[0]).collect()
}

#[test]
fn disputes_that_fit_are_filtered_and_weighed_again() {
    let mut empty = dispute(2, 3);
    empty.statements = vec![];
    let (left, w) = limit_and_sanitize_disputes::<Runtime<0>, _>(
        vec![dispute(1, 3), empty, dispute(3, 3)],
        |set: DisputeStatementSet| Runtime::<0>::new().filter_dispute_data(set, 5),
        weight(21),
    );
    assert_eq!(sets(&left), vec![1, 3]);
    assert_eq!(w, weight(14));
}

#[test]
fn disputes_that_do_not_fit_are_left_out() {
    let mut empty = dispute(2, 3);
    empty.statements = vec![];
    let (left, w) = limit_and_sanitize_disputes::<Runtime<0>, _>(
        vec![dispute(1, 3), empty, dispute(3, 3)],
        |set: DisputeStatementSet| Runtime::<0>::new().filter_dispute_data(set, 5),
        weight(20),
    );
    // The second does not pass, but counts.
    assert_eq!(sets(&left), vec![1]);
    assert_eq!(w, weight(14));
}

#[test]
fn earlier_disputes_come_first() {
    let (left, w) = limit_and_sanitize_disputes::<Runtime<0>, _>(
        vec![dispute(9, 3), dispute(4, 3), dispute(7, 3), dispute(1, 3)],
        |set: DisputeStatementSet| Runtime::<0>::new().filter_dispute_data(set, 5),
        weight(15),
    );
    assert_eq!(sets(&left), vec![9, 4]);
    assert_eq!(w, weight(14));
}

#[test]
fn what_fits_is_left_as_it_is() {
    let mut d = data();
    let mut rng = SelectionRng::from_seed([3; 32]);
    let w = apply_weight_limit::<Runtime<0>>(
        &mut d.backed_candidates,
        &mut d.bitfields,
        weight(30),
        &mut rng,
    );
    assert_eq!(w, weight(30));
    assert_eq!(ids(&d.backed_candidates), vec![21, 22]);
    assert_eq!(d.bitfields.len(), 2);
    assert_eq!(rng, SelectionRng::from_seed([3; 32]));
}

#[test]
fn bitfields_go_before_candidates() {
    let mut d = data();
    let mut rng = SelectionRng::from_seed([3; 32]);
    let w = apply_weight_limit::<Runtime<0>>(
        &mut d.backed_candidates,
        &mut d.bitfields,
        weight(9),
        &mut rng,
    );
    assert_eq!(w, weight(5));
    assert_eq!(ids(&d.backed_candidates), Vec::<u8>::new());
    assert_eq!(d.bitfields.len(), 1);
}

#[test]
fn chains_stay_together_and_upgrades_come_first() {
    for seed in 0..10u8 {
        let mut candidates = vec![
            candidate(100, 1, "110"),
            candidate(100, 2, "110"),
            candidate(200, 3, "110"),
            candidate(300, 4, "110"),
            candidate(300, 5, "110"),
        ];
        candidates[4].candidate.new_validation_code = Some(vec![1]);
        let mut bitfields = vec![];
        let mut rng = SelectionRng::from_seed([seed; 32]);
        let w = apply_weight_limit::<Runtime<0>>(
            &mut candidates,
            &mut bitfields,
            weight(35),
            &mut rng,
        );
        // The chain of the upgrade takes 20, and only the single candidate fits behind
        // it.
        assert_eq!(w, weight(30));
        assert_eq!(ids(&candidates), vec![3, 4, 5]);
    }
}

fn sanitize(
    given: Vec<UncheckedSignedAvailabilityBitfield>,
    disputed: &str,
    expected_bits: usize,
) -> Vec<u32> {
    let left = sanitize_bitfields::<Runtime<0>>(
        given,
        DisputedBitfield::from(bits(disputed)),
        expected_bits,
        H256([7; 32]),
        3,
        &Runtime::<0>::new().active_validator_keys(),
    );
    left.iter().map(|b| b.bitfield.validator_index.0).collect()
}

#[test]
fn good_bitfields_stay() {
    let given = vec![bitfield(0, "1100"), bitfield(1, "0000"), bitfield(3, "0111")];
    assert_eq!(sanitize(given, "0000", 4), vec![0, 1, 3]);
}

#[test]
fn bitfields_of_the_wrong_length_are_dropped() {
    let given = vec![bitfield(0, "110"), bitfield(1, "00000"), bitfield(3, "0111")];
    assert_eq!(sanitize(given, "0000", 4), vec![3]);
    assert_eq!(sanitize(vec![bitfield(0, "1100")], "000", 4), Vec::<u32>::new());
}

#[test]
fn bitfields_on_disputed_cores_are_dropped() {
    let given = vec![bitfield(0, "1100"), bitfield(1, "1000"), bitfield(3, "0111")];
    assert_eq!(sanitize(given, "0100", 4), vec![1]);
}

#[test]
fn bitfields_out_of_order_are_dropped() {
    let given = vec![
        bitfield(1, "1100"),
        bitfield(1, "1000"),
        bitfield(0, "1000"),
        bitfield(2, "0111"),
    ];
    assert_eq!(sanitize(given, "0000", 4), vec![1, 2]);
}

#[test]
fn bitfields_of_unknown_validators_are_dropped() {
    let given = vec![bitfield(3, "1100"), bitfield(4, "1000")];
    assert_eq!(sanitize(given, "0000", 4), vec![3]);
}

#[test]
fn bitfields_with_bad_signatures_are_dropped() {
    let mut bad = bitfield(1, "1000");
    bad.signature = ValidatorSignature([99; 64]);
    let given = vec![bitfield(0, "1100"), bad, bitfield(1, "1000"), bitfield(2, "0001")];
    // The good bitfield of validator 1 comes second, and only the first is looked at.
    assert_eq!(sanitize(given, "0000", 4), vec![0, 2]);
}

#[test]
fn backing_groups_are_those_of_the_next_block() {
    let group = find_backing_group(&Runtime::<0>::new(), &tracker(), H256([1; 32]), CoreIndex(2));
    assert_eq!(group, Some(vec![ValidatorIndex(3)]));
    for (parent, core) in [(9, 2), (1, 3), (1, 8)] {
        let group = find_backing_group(
            &Runtime::<0>::new(),
            &tracker(),
            H256([parent; 32]),
            CoreIndex(core),
        );
        assert_eq!(group, None);
    }
}

#[test]
fn injected_core_indices_are_read_if_well_encoded() {
    let read = |c: &BackedCandidate, enabled: bool| {
        get_injected_core_index(&Runtime::<0>::new(), &tracker(), c, enabled)
    };
    assert_eq!(read(&asking(100, 1, "110", 1), true), Some(CoreIndex(1)));
    assert_eq!(read(&asking(100, 1, "110", 1), false), None);
    assert_eq!(read(&candidate(100, 1, "110"), true), None);
    // The group of core 2 has one member, and that of core 3 is not known.
    assert_eq!(read(&asking(100, 1, "110", 2), true), None);
    assert_eq!(read(&asking(100, 1, "1", 2), true), Some(CoreIndex(2)));
    assert_eq!(read(&asking(100, 1, "110", 3), true), None);
    let mut lost = asking(100, 1, "110", 1);
    lost.candidate.relay_parent = H256([9; 32]);
    assert_eq!(read(&lost, true), None);
}

fn map(candidates: Vec<BackedCandidate>, two_cores: bool) -> Vec<(u8, u32)> {
    let paras = if two_cores {
        Runtime::<TWO_CORES>::new().scheduled_paras()
    } else {
        Runtime::<0>::new().scheduled_paras()
    };
    ids_with_core(&map_candidates_to_cores(
        &Runtime::<0>::new(),
        &tracker(),
        collect_scheduled(&paras),
        true,
        candidates,
    ))
}

#[test]
fn candidates_go_on_the_only_core_of_their_parachain() {
    let given = vec![candidate(200, 1, "1"), candidate(100, 2, "1"), candidate(300, 3, "1")];
    assert_eq!(map(given, false), vec![(1, 0), (2, 1)]);
    // A core takes one candidate.
    let given = vec![candidate(200, 1, "1"), candidate(200, 2, "1")];
    assert_eq!(map(given, false), vec![(1, 0)]);
}

#[test]
fn candidates_ask_for_one_of_several_cores() {
    let given = vec![
        candidate(100, 1, "110"),
        asking(100, 2, "110", 1),
        asking(100, 3, "110", 1),
        candidate(100, 4, "110"),
        asking(100, 5, "110", 0),
        asking(100, 6, "110", 0),
    ];
    assert_eq!(map(given, true), vec![(2, 1), (5, 0)]);
}

#[test]
fn candidates_get_no_core_but_that_which_they_ask_for() {
    assert_eq!(map(vec![asking(100, 1, "110", 1)], false), vec![(1, 1)]);
    // Core 0 is scheduled for another parachain.
    assert_eq!(map(vec![asking(100, 1, "110", 0)], false), vec![]);
}

#[test]
fn mapped_candidates_are_mapped_to_the_same_cores_again() {
    let given = vec![
        asking(100, 2, "110", 1),
        candidate(200, 3, "1"),
        candidate(100, 4, "110"),
        asking(100, 5, "110", 0),
    ];
    let paras = Runtime::<TWO_CORES>::new().scheduled_paras();
    let once = map_candidates_to_cores(
        &Runtime::<0>::new(),
        &tracker(),
        collect_scheduled(&paras),
        true,
        given,
    );
    assert_eq!(ids_with_core(&once), vec![(2, 1), (3, 2), (5, 0)]);
    let again = map(once.iter().rev().map(|(c, _)| c.clone()).collect(), true);
    assert_eq!(again, vec![(5, 0), (3, 2), (2, 1)]);
}

#[test]
fn nothing_is_looked_at_where_no_validator_is_disabled() {
    let mut lost = candidate(100, 1, "000");
    lost.candidate.relay_parent = H256([9; 32]);
    let mut given = vec![(lost, CoreIndex(0))];
    assert!(!filter_backed_statements_from_disabled_validators(
        &Runtime::<0>::new(),
        &mut given,
        &tracker(),
        false,
    ));
    assert_eq!(ids_with_core(&given), vec![(1, 0)]);
}

#[test]
fn votes_of_disabled_validators_are_filtered() {
    let mut lost = candidate(100, 1, "111");
    lost.candidate.relay_parent = H256([9; 32]);
    let mut given = vec![
        (lost, CoreIndex(0)),
        (candidate(100, 2, "111"), CoreIndex(0)),
        (candidate(100, 3, "110"), CoreIndex(1)),
        (candidate(100, 4, "101"), CoreIndex(1)),
        (candidate(200, 5, "1"), CoreIndex(2)),
        (candidate(200, 6, "1"), CoreIndex(3)),
    ];
    assert!(filter_backed_statements_from_disabled_validators(
        &Runtime::<DISABLED>::new(),
        &mut given,
        &tracker(),
        false,
    ));
    assert_eq!(ids_with_core(&given), vec![(2, 0), (4, 1), (5, 2)]);
    assert_eq!(text(&given[0].0.validator_indices), "101");
    assert_eq!(given[0].0.validity_votes, vec![vote(0), vote(2)]);
    assert_eq!(given[1].0.validity_votes, vec![vote(0), vote(1)]);
    // Nothing is left to be filtered.
    assert!(!filter_backed_statements_from_disabled_validators(
        &Runtime::<DISABLED>::new(),
        &mut given,
        &tracker(),
        false,
    ));
}

#[test]
fn a_dropped_candidate_counts_as_a_change() {
    let mut given = vec![(candidate(100, 3, "100"), CoreIndex(1))];
    assert!(filter_backed_statements_from_disabled_validators(
        &Runtime::<DISABLED>::new(),
        &mut given,
        &tracker(),
        false,
    ));
    assert!(given.is_empty());
}

#[test]
fn sanitized_candidates_stand_in_the_order_of_their_cores() {
    let given = vec![
        asking(100, 1, "110", 1),
        candidate(200, 2, "1"),
        asking(100, 3, "101", 0),
        candidate(100, 4, "110"),
        candidate(300, 5, "110"),
    ];
    let paras = Runtime::<TWO_CORES>::new().scheduled_paras();
    let r = sanitize_backed_candidates(
        &Runtime::<DISABLED>::new(),
        given,
        &tracker(),
        |k: usize, c: &BackedCandidate| {
            assert_eq!(k + 1, c.candidate.encoded[0] as usize);
            c.candidate.encoded[0] == 2
        },
        collect_scheduled(&paras),
        true,
    );
    assert_eq!(ids_with_core(&r.backed_candidates_with_core), vec![(3, 0)]);
    assert!(r.dropped_unscheduled_candidates);
    assert!(r.votes_from_disabled_were_dropped);
}

fn log_of<const F: u32>(data: InherentData) -> Vec<String> {
    Pallet::new().enter(Runtime::<F>::new(), NOW, Origin::Unsigned, data).0.log
}

#[test]
fn modules_are_told_in_order() {
    assert_eq!(
        log_of::<0>(data()),
        vec![
            "relay parents",
            "import 1",
            "disputed 0",
            "count 2",
            "note 50",
            "note 51",
            "free [0 Concluded, 3 Concluded]",
            "back 2",
            "occupied [0 200, 1 100]",
        ]
    );
    let mut given = data();
    given.backed_candidates = vec![];
    assert_eq!(
        log_of::<{ INVALID | TIMEOUT }>(given),
        vec![
            "relay parents",
            "import 1",
            "disputed 1",
            "free [2 Concluded]",
            "count 1",
            "note 50",
            "note 51",
            "timed out",
            "free [0 Concluded, 1 TimedOut, 3 Concluded]",
            "back 0",
            "occupied []",
        ]
    );
}

#[test]
fn a_wrong_parent_header_touches_nothing() {
    let mut wrong = data();
    wrong.parent_header.encoded = vec![9];
    assert_eq!(log_of::<0>(wrong), Vec::<String>::new());
}

#[test]
fn a_frozen_chain_is_told_of_disputes_only() {
    assert_eq!(log_of::<FROZEN>(data()), vec!["relay parents", "import 1"]);
}

#[test]
fn a_refused_inherent_goes_no_further() {
    assert_eq!(log_of::<SMALL>(data()), vec!["relay parents"]);
    let log = log_of::<DISABLED>(data());
    assert_eq!(log.last().unwrap(), "free [0 Concluded, 3 Concluded]");
    let log = log_of::<REFUSING>(data());
    assert_eq!(log.last().unwrap(), "back 2");
}

#[test]
fn under_backed_candidates_are_dropped_where_nobody_is_disabled() {
    let mut given = data();
    given.backed_candidates = vec![candidate(100, 21, "100"), candidate(200, 22, "101")];
    let left = provide::<0>(&mut Pallet::new(), given.clone());
    assert_eq!(ids(&left.backed_candidates), vec![22]);
    assert!(enter::<0>(&mut Pallet::new(), given).is_ok());

    let paras = Runtime::<0>::new().scheduled_paras();
    let r = sanitize_backed_candidates(
        &Runtime::<0>::new(),
        vec![candidate(100, 1, "000"), candidate(200, 2, "110")],
        &tracker(),
        |_: usize, _: &BackedCandidate| false,
        collect_scheduled(&paras),
        false,
    );
    assert_eq!(ids_with_core(&r.backed_candidates_with_core), vec![(2, 0)]);
    assert!(!r.dropped_unscheduled_candidates);
    assert!(!r.votes_from_disabled_were_dropped);
}

#[test]
fn under_backed_candidates_are_those_with_too_few_votes_for_their_group() {
    let given = vec![
        (candidate(100, 1, "100"), CoreIndex(0)),
        (candidate(100, 2, "110"), CoreIndex(1)),
        (candidate(200, 3, "1"), CoreIndex(2)),
        (candidate(200, 4, "0"), CoreIndex(2)),
        (candidate(200, 5, "111"), CoreIndex(3)),
    ];
    let left = drop_under_backed(&Runtime::<0>::new(), given, &tracker());
    assert_eq!(ids_with_core(&left), vec![(2, 1), (3, 2)]);
}

#[test]
fn sanitized_bitfields_come_out_again() {
    let run = |given: Vec<UncheckedSignedAvailabilityBitfield>| {
        sanitize_bitfields::<Runtime<0>>(
            given,
            DisputedBitfield::from(bits("0100")),
            4,
            H256([7; 32]),
            3,
            &Runtime::<0>::new().active_validator_keys(),
        )
    };
    let once = run(vec![
        bitfield(0, "1000"),
        bitfield(0, "0010"),
        bitfield(1, "0100"),
        bitfield(2, "0011"),
        bitfield(7, "0001"),
    ]);
    assert_eq!(once.len(), 2);
    let again = run(once.iter().map(|b| b.bitfield.clone()).collect());
    assert_eq!(again, once);
}

#[test]
fn parachains_are_mapped_as_if_alone() {
    let given = vec![
        candidate(200, 1, "1"),
        asking(100, 2, "110", 0),
        candidate(200, 3, "1"),
        asking(100, 4, "110", 1),
    ];
    let together = map(given.clone(), true);
    let own: Vec<BackedCandidate> =
        given.into_iter().filter(|c| c.candidate.para_id == ParaId(100)).collect();
    let alone = map_candidates_to_cores(
        &Runtime::<0>::new(),
        &tracker(),
        collect_scheduled(&vec![
            (CoreIndex(1), ParaId(100)),
            (CoreIndex(0), ParaId(100)),
        ]),
        true,
        own,
    );
    assert_eq!(together, vec![(1, 2), (2, 0), (4, 1)]);
    assert_eq!(ids_with_core(&alone), vec![(2, 0), (4, 1)]);
}

#[test]
fn upgrades_are_not_displaced_by_lighter_chains() {
    for seed in 0..10u8 {
        let mut candidates = vec![
            candidate(100, 1, "110"),
            candidate(200, 2, "110"),
            candidate(200, 3, "110"),
        ];
        candidates[1].candidate.new_validation_code = Some(vec![1]);
        let mut rng = SelectionRng::from_seed([seed; 32]);
        let w = apply_weight_limit::<Runtime<0>>(
            &mut candidates,
            &mut vec![],
            weight(20),
            &mut rng,
        );
        assert_eq!(w, weight(20));
        assert_eq!(ids(&candidates), vec![2, 3]);
    }
}

#[test]
fn created_inherents_are_not_overweight_when_entered() {
    for n in 0..6u8 {
        let mut given = data();
        for k in 0..n {
            given.disputes.push(dispute(70 + k, 3));
            given.bitfields.insert(0, bitfield(k as u32, "100"));
            given.backed_candidates.push(candidate(300 + k as u32, 30 + k, "110"));
        }
        let left = provide::<{ SMALL | DISABLED }>(&mut Pallet::new(), given);
        let entered = paras_inherent_total_weight::<Runtime<SMALL>>(
            &left.backed_candidates,
            &left.bitfields,
            &left.disputes,
        );
        assert!(entered.all_lte(max_block_weight::<Runtime<SMALL>>()));
        assert!(enter::<{ SMALL | DISABLED }>(&mut Pallet::new(), left).is_ok());
    }
}
