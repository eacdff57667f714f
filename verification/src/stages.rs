//! The stages that an inherent goes through.

use crate::backing::{
    sanitize_backed_candidates, sanitized_by_wider_account, sanitized_candidates,
    sanitized_candidates_are_in_order, sanitized_candidates_never_outnumber_cores, verdicts_of,
    SanitizedBackedCandidates,
};
use crate::bitfields::{
    bits_of_cores, create_disputed_bitfield, sanitize_bitfields, sanitized_bitfields,
};
use crate::bits::{bit_at, max_bits, BitString};
use crate::candidate::BackedCandidate;
use crate::cores::{collect_scheduled, schedule, schedule_is_finite};
use crate::disabled::views_with_core;
use crate::dispatch::{fail, DispatchError, DispatchErrorWithPostInfo, Error};
use crate::disputes::{
    answers_of, limit_and_sanitize_disputes, limited_disputes, limited_disputes_by_wider_account,
};
use crate::freed::{
    add_freed, all_freed, collect_all_freed_cores, concluded_invalid_in,
    current_concluded_invalid_disputes, freed_cores,
};
use crate::primitives::{
    contains_hash, BlockNumber, CandidateHash, CheckedDisputeStatementSet, CoreIndex,
    DisputeStatementSet, FreedReason, ParaId, SessionIndex, SignedAvailabilityBitfield,
    SigningContext, UncheckedSignedAvailabilityBitfield, ValidatorId, H256,
};
use crate::relay_parents::AllowedRelayParentsTracker;
use crate::rng::SelectionRng;
use crate::runtime::{
    Config, DisputesHandler, HostConfiguration, Inclusion, ProcessedCandidates, Scheduler,
};
use crate::weight::Weight;
use crate::weight_limit::{apply_weight_limit, limited};
use std::collections::BTreeMap;
use vstd::prelude::*;

verus! {

broadcast use {vstd::std_specs::btree::group_btree_axioms, vstd::laws_cmp::group_laws_cmp};

/// The context in which inherent data is processed.
#[derive(Clone, Copy, Debug, PartialEq, Eq, Structural)]
pub enum ProcessInherentDataContext {
    /// A block is being built: data is left out until the rest fits in the block.
    ///
    /// Invariant: the inherent weighs no more than the block may.
    ProvideInherent,
    /// A block is being executed: the invariant is checked.
    Enter,
}

/// What is left of candidates and bitfields, and what the whole inherent weighs.
pub struct Fitted {
    pub backed_candidates: Vec<BackedCandidate>,
    pub bitfields: Vec<UncheckedSignedAvailabilityBitfield>,
    pub all_weight_after: Weight,
}

/// Whether `fitted` is what is left of candidates and bitfields that are cut down to
/// `limit`, beside disputes of weight `disputes_weight`.
pub open spec fn cut_down<T: Config>(
    candidates: Seq<BackedCandidate>,
    bitfields: Seq<UncheckedSignedAvailabilityBitfield>,
    limit: Weight,
    disputes_weight: Weight,
    entropy: [u8; 32],
    fitted: Fitted,
) -> bool {
    exists|rng_left: SelectionRng, weight: Weight| #[trigger]
        limited::<T>(
            candidates,
            bitfields,
            limit,
            SelectionRng::from_seed(entropy),
            fitted.backed_candidates@,
            fitted.bitfields@,
            rng_left,
            weight,
        ) && fitted.all_weight_after == weight.saturating_add(disputes_weight)
}

/// Whether `r` is what becomes of candidates and bitfields that have to fit in a
/// block beside disputes of weight `disputes_weight`. While a block is built they
/// are cut down. While one is executed they have to fit as they are.
pub open spec fn fitted<T: Config>(
    context: ProcessInherentDataContext,
    candidates: Seq<BackedCandidate>,
    bitfields: Seq<UncheckedSignedAvailabilityBitfield>,
    all_weight_before: Weight,
    max_block_weight: Weight,
    disputes_weight: Weight,
    entropy: [u8; 32],
    r: Result<Fitted, Error>,
) -> bool {
    match context {
        ProcessInherentDataContext::ProvideInherent => match r {
            Err(_) => false,
            Ok(fitted) => cut_down::<T>(
                candidates,
                bitfields,
                max_block_weight.saturating_sub(disputes_weight),
                disputes_weight,
                entropy,
                fitted,
            ),
        },
        ProcessInherentDataContext::Enter => if all_weight_before.all_lte(max_block_weight) {
            match r {
                Err(_) => false,
                Ok(fitted) => fitted.backed_candidates@ == candidates && fitted.bitfields@
                    == bitfields && fitted.all_weight_after == all_weight_before,
            }
        } else {
            r matches Err(error) && error == Error::InherentOverweight
        },
    }
}

/// Makes candidates and bitfields fit in a block, or checks that they do.
pub fn fit_in_block<T: Config>(
    context: ProcessInherentDataContext,
    backed_candidates: Vec<BackedCandidate>,
    bitfields: Vec<UncheckedSignedAvailabilityBitfield>,
    all_weight_before: Weight,
    max_block_weight: Weight,
    disputes_weight: Weight,
    entropy: [u8; 32],
) -> (r: Result<Fitted, Error>)
    ensures
        fitted::<T>(
            context,
            backed_candidates@,
            bitfields@,
            all_weight_before,
            max_block_weight,
            disputes_weight,
            entropy,
            r,
        ),
{
    match context {
        ProcessInherentDataContext::ProvideInherent => {
            let ghost given_candidates = backed_candidates@;
            let ghost given_bitfields = bitfields@;
            let mut backed_candidates = backed_candidates;
            let mut bitfields = bitfields;
            let mut rng = SelectionRng::from_seed(entropy);
            let non_disputes_weight = apply_weight_limit::<T>(
                &mut backed_candidates,
                &mut bitfields,
                max_block_weight.saturating_sub(disputes_weight),
                &mut rng,
            );
            let all_weight_after = non_disputes_weight.saturating_add(disputes_weight);
            let fitted = Fitted { backed_candidates, bitfields, all_weight_after };
            proof {
                let rng_left = rng;
                assert(limited::<T>(
                    given_candidates,
                    given_bitfields,
                    max_block_weight.saturating_sub(disputes_weight),
                    SelectionRng::from_seed(entropy),
                    fitted.backed_candidates@,
                    fitted.bitfields@,
                    rng_left,
                    non_disputes_weight,
                ));
            }
            Ok(fitted)
        },
        ProcessInherentDataContext::Enter => {
            if all_weight_before.all_lte(max_block_weight) {
                Ok(Fitted { backed_candidates, bitfields, all_weight_after: all_weight_before })
            } else {
                Err(Error::InherentOverweight)
            }
        },
    }
}

/// What the disputes module leaves of a statement set.
pub open spec fn filter_of<D: DisputesHandler>(runtime: D, period: BlockNumber) -> spec_fn(
    DisputeStatementSet,
    Option<CheckedDisputeStatementSet>,
) -> bool {
    |set: DisputeStatementSet, left: Option<CheckedDisputeStatementSet>|
        call_ensures(D::filter_dispute_data, (&runtime, set, period), left)
}

/// Whether `checked` is what is imported of disputes, with weight `weight`: they are
/// sorted without duplicates, and then limited and filtered.
pub open spec fn disputes_chosen<T: Config>(
    runtime: T,
    disputes: Vec<DisputeStatementSet>,
    period: BlockNumber,
    max_block_weight: Weight,
    checked: Seq<CheckedDisputeStatementSet>,
    weight: Weight,
) -> bool {
    exists|sorted: Vec<DisputeStatementSet>| #[trigger]
        call_ensures(T::deduplicate_and_sort_dispute_data, (&runtime, disputes), sorted)
            && limited_disputes::<T>(
            sorted@,
            filter_of::<T>(runtime, period),
            max_block_weight,
            checked,
            weight,
        )
}

/// Chooses the disputes that are imported.
pub fn choose_disputes<T: Config>(
    runtime: &T,
    disputes: Vec<DisputeStatementSet>,
    period: BlockNumber,
    max_block_weight: Weight,
) -> (r: (Vec<CheckedDisputeStatementSet>, Weight))
    ensures
        disputes_chosen::<T>(*runtime, disputes, period, max_block_weight, r.0@, r.1),
{
    let sorted = runtime.deduplicate_and_sort_dispute_data(disputes);
    let dispute_statement_set_valid = |set: DisputeStatementSet| -> (left: Option<
        CheckedDisputeStatementSet,
    >)
        ensures
            call_ensures(T::filter_dispute_data, (runtime, set, period), left),
        { runtime.filter_dispute_data(set, period) };
    let r = limit_and_sanitize_disputes::<T, _>(
        sorted,
        dispute_statement_set_valid,
        max_block_weight,
    );
    proof {
        limited_disputes_by_wider_account::<T>(
            sorted@,
            answers_of(dispute_statement_set_valid),
            filter_of::<T>(*runtime, period),
            max_block_weight,
            r.0@,
            r.1,
        );
    }
    r
}

/// Whether telling the scheduler of freed cores leads from one state to another.
pub open spec fn told_of_freed<T: Scheduler>(
    before: T,
    freed: Map<u32, FreedReason>,
    now: BlockNumber,
    after: T,
) -> bool {
    exists|cores: BTreeMap<u32, FreedReason>|
        cores@ == freed && #[trigger] call_ensures(
            T::free_cores_and_fill_claimqueue,
            (before, cores, now),
            after,
        )
}

/// Whether freeing the cores of invalid candidates, which are `disputed`, leads from one
/// state to another.
pub open spec fn cores_of_disputed<T: Inclusion>(
    before: T,
    invalid: Seq<CandidateHash>,
    after: T,
    disputed: Vec<CoreIndex>,
) -> bool {
    exists|hashes: &Vec<CandidateHash>|
        hashes@ == invalid && #[trigger] call_ensures(
            T::collect_disputed,
            (before, hashes),
            (after, disputed),
        )
}

/// Whether counting availability votes, which frees the cores of the candidates in
/// `concluded`, leads from one state to another.
pub open spec fn cores_of_available<T: Inclusion>(
    before: T,
    expected_bits: usize,
    validators: Vec<ValidatorId>,
    bitfields: Seq<SignedAvailabilityBitfield>,
    after: T,
    concluded: Vec<(CoreIndex, CandidateHash)>,
) -> bool {
    exists|votes: &Vec<SignedAvailabilityBitfield>|
        votes@ == bitfields && #[trigger] call_ensures(
            T::update_pending_availability_and_get_freed_cores,
            (before, expected_bits, &validators, votes),
            (after, concluded),
        )
}

/// Whether telling the disputes module of each candidate that was included, one after
/// the other, goes through the given states.
pub open spec fn notes_taken<D: DisputesHandler>(
    session: SessionIndex,
    concluded: Seq<(CoreIndex, CandidateHash)>,
    now: BlockNumber,
    states: Seq<D>,
) -> bool {
    &&& states.len() == concluded.len() + 1
    &&& forall|k: int|
        0 <= k < concluded.len() ==> call_ensures(
            D::note_included,
            (states[k], session, (#[trigger] concluded[k]).1, now),
            states[k + 1],
        )
}

/// Whether telling the disputes module of each candidate that was included leads from
/// one state to another.
pub open spec fn told_of_included<D: DisputesHandler>(
    before: D,
    session: SessionIndex,
    concluded: Seq<(CoreIndex, CandidateHash)>,
    now: BlockNumber,
    after: D,
) -> bool {
    exists|states: Seq<D>| #[trigger]
        notes_taken::<D>(session, concluded, now, states) && states.first() == before
            && states.last() == after
}

/// Tells the disputes module of each candidate that was included.
fn tell_of_included<D: DisputesHandler>(
    runtime: D,
    session: SessionIndex,
    concluded: &Vec<(CoreIndex, CandidateHash)>,
    now: BlockNumber,
) -> (r: D)
    ensures
        told_of_included::<D>(runtime, session, concluded@, now, r),
{
    let ghost before = runtime;
    let mut state = runtime;
    let ghost mut states: Seq<D> = seq![before];
    let mut k: usize = 0;
    while k < concluded.len()
        invariant
            k <= concluded@.len(),
            notes_taken::<D>(session, concluded@.take(k as int), now, states),
            states.first() == before,
            states.last() == state,
        decreases concluded@.len() - k,
    {
        state = state.note_included(session, concluded[k].1, now);
        proof {
            let so_far = concluded@.take(k as int);
            let next = concluded@.take(k + 1);
            let more = states.push(state);
            assert(notes_taken::<D>(session, next, now, more)) by {
                assert forall|j: int| 0 <= j < next.len() implies call_ensures(
                    D::note_included,
                    (more[j], session, (#[trigger] next[j]).1, now),
                    more[j + 1],
                ) by {
                    if j < k {
                        assert(next[j] == so_far[j]);
                    }
                }
            }
            states = more;
        }
        k = k + 1;
    }
    assert(concluded@.take(k as int) =~= concluded@);
    state
}

/// What the block is about: its number, its session, its parent, the number of
/// availability cores and the validators.
pub struct BlockContext {
    pub now: BlockNumber,
    pub session: SessionIndex,
    pub parent_hash: H256,
    pub expected_bits: usize,
    pub validators: Vec<ValidatorId>,
}

/// What the modules of a runtime answer while availability is processed, and the states
/// that they go through: after the cores of disputed candidates were collected, after
/// these were freed, after the votes were counted, after inclusions were noted, and after
/// cores that timed out were collected.
pub struct AvailabilitySteps<T> {
    pub disputed: Vec<CoreIndex>,
    pub concluded: Vec<(CoreIndex, CandidateHash)>,
    pub freed: Map<u32, FreedReason>,
    pub collected: T,
    pub cleaned: T,
    pub counted: T,
    pub noted: T,
    pub timed_out: T,
}

/// Whether processing availability goes through the given steps. The cores of invalid
/// candidates are freed first, and no bitfield may concern them. Then the bitfields are
/// counted, and last the cores of candidates that became available or timed out are
/// freed.
pub open spec fn availability_steps<T: Config>(
    before: T,
    block: BlockContext,
    checked: Seq<CheckedDisputeStatementSet>,
    bitfields: Seq<UncheckedSignedAvailabilityBitfield>,
    invalid: Seq<CandidateHash>,
    left: Seq<SignedAvailabilityBitfield>,
    after: T,
    s: AvailabilitySteps<T>,
) -> bool {
    &&& concluded_invalid_in::<T>(before, checked, block.session, invalid)
    &&& cores_of_disputed::<T>(before, invalid, s.collected, s.disputed)
    &&& if s.disputed@.len() > 0 {
        told_of_freed::<T>(
            s.collected,
            freed_cores(s.disputed@, Seq::empty()),
            block.now,
            s.cleaned,
        )
    } else {
        s.cleaned == s.collected
    }
    &&& sanitized_bitfields::<T>(
        bitfields,
        bits_of_cores(block.expected_bits as nat, s.disputed@),
        block.expected_bits as nat,
        SigningContext { parent_hash: block.parent_hash, session_index: block.session },
        block.validators@,
        left,
    )
    &&& cores_of_available::<T>(
        s.cleaned,
        block.expected_bits,
        block.validators,
        left,
        s.counted,
        s.concluded,
    )
    &&& told_of_included::<T>(s.counted, block.session, s.concluded@, block.now, s.noted)
    &&& all_freed::<T>(s.noted, s.concluded@, s.timed_out, s.freed)
    &&& told_of_freed::<T>(s.timed_out, s.freed, block.now, after)
}

/// Whether `invalid` are the candidates that were found invalid in the session and
/// `left` the bitfields that count, and processing availability leads from one state to
/// another, step by step as [`availability_steps`] says.
pub open spec fn availability_processed<T: Config>(
    before: T,
    block: BlockContext,
    checked: Seq<CheckedDisputeStatementSet>,
    bitfields: Seq<UncheckedSignedAvailabilityBitfield>,
    invalid: Seq<CandidateHash>,
    left: Seq<SignedAvailabilityBitfield>,
    after: T,
) -> bool {
    exists|s: AvailabilitySteps<T>| #[trigger]
        availability_steps::<T>(before, block, checked, bitfields, invalid, left, after, s)
}

/// Frees the cores of invalid candidates, counts the availability votes, and frees
/// the cores of candidates that became available or timed out.
pub fn process_availability<T: Config>(
    runtime: T,
    block: &BlockContext,
    checked: &Vec<CheckedDisputeStatementSet>,
    bitfields: Vec<UncheckedSignedAvailabilityBitfield>,
) -> (r: (T, Vec<CandidateHash>, Vec<SignedAvailabilityBitfield>))
    requires
        block.expected_bits <= max_bits(),
    ensures
        availability_processed::<T>(runtime, *block, checked@, bitfields@, r.1@, r.2@, r.0),
{
    let ghost before = runtime;
    let ghost given = bitfields@;
    let invalid = current_concluded_invalid_disputes::<T>(&runtime, checked, block.session);
    let (runtime, disputed) = runtime.collect_disputed(&invalid);
    let ghost collected = runtime;
    assert(cores_of_disputed::<T>(before, invalid@, collected, disputed));
    let disputed_bitfield = create_disputed_bitfield(block.expected_bits, &disputed);
    let runtime = if disputed.len() > 0 {
        let mut freed: BTreeMap<u32, FreedReason> = BTreeMap::new();
        add_freed(&mut freed, &disputed, FreedReason::Concluded);
        assert(freed@ =~= freed_cores(disputed@, Seq::empty()));
        runtime.free_cores_and_fill_claimqueue(freed, block.now)
    } else {
        runtime
    };
    let ghost cleaned = runtime;
    let left = sanitize_bitfields::<T>(
        bitfields,
        disputed_bitfield,
        block.expected_bits,
        block.parent_hash,
        block.session,
        &block.validators,
    );
    let (runtime, concluded) = runtime.update_pending_availability_and_get_freed_cores(
        block.expected_bits,
        &block.validators,
        &left,
    );
    let ghost counted = runtime;
    assert(cores_of_available::<T>(
        cleaned,
        block.expected_bits,
        block.validators,
        left@,
        counted,
        concluded,
    ));
    let runtime = tell_of_included::<T>(runtime, block.session, &concluded, block.now);
    let ghost noted = runtime;
    let (runtime, freed) = collect_all_freed_cores::<T>(runtime, &concluded);
    let ghost timed_out = runtime;
    let ghost freed_map = freed@;
    let runtime = runtime.free_cores_and_fill_claimqueue(freed, block.now);
    assert(told_of_freed::<T>(timed_out, freed_map, block.now, runtime));
    proof {
        let s = AvailabilitySteps {
            disputed,
            concluded,
            freed: freed_map,
            collected,
            cleaned,
            counted,
            noted,
            timed_out,
        };
        assert(availability_steps::<T>(
            before,
            *block,
            checked@,
            given,
            invalid@,
            left@,
            runtime,
            s,
        ));
    }
    (runtime, invalid, left)
}

/// Whether a candidate was refused: it was found invalid, or does not pass the
/// checks of the inclusion module.
pub open spec fn refused<T: Inclusion>(
    runtime: T,
    allowed_relay_parents: AllowedRelayParentsTracker,
    invalid: Seq<CandidateHash>,
    candidate_index: usize,
    candidate: BackedCandidate,
    verdict: bool,
) -> bool {
    exists|hash: CandidateHash| #[trigger]
        call_ensures(T::candidate_hash, (&candidate,), hash) && if invalid.contains(hash) {
            verdict
        } else {
            call_ensures(
                T::verify_backed_candidate,
                (&runtime, &allowed_relay_parents, candidate_index, &candidate),
                !verdict,
            )
        }
}

/// Which candidates are refused, by their place.
pub open spec fn refusals<T: Inclusion>(
    runtime: T,
    allowed_relay_parents: AllowedRelayParentsTracker,
    invalid: Seq<CandidateHash>,
) -> spec_fn(usize, BackedCandidate, bool) -> bool {
    |k: usize, candidate: BackedCandidate, verdict: bool|
        refused::<T>(runtime, allowed_relay_parents, invalid, k, candidate, verdict)
}

/// The bit among the node features that enables elastic scaling, with which a core
/// index may stand behind validator indices.
pub const ELASTIC_SCALING_MVP: usize = 1;

/// The parachains that occupy cores. The last entry for a core counts.
pub open spec fn occupied_cores(cores: Seq<(CoreIndex, ParaId)>) -> Map<u32, ParaId>
    decreases cores.len(),
{
    if cores.len() == 0 {
        Map::empty()
    } else {
        occupied_cores(cores.drop_last()).insert(cores.last().0.0, cores.last().1)
    }
}

/// Whether telling the scheduler of occupied cores leads from one state to another.
pub open spec fn told_of_occupied<T: Scheduler>(
    before: T,
    cores: Seq<(CoreIndex, ParaId)>,
    after: T,
) -> bool {
    exists|occupied: BTreeMap<u32, ParaId>|
        occupied@ == occupied_cores(cores) && #[trigger] call_ensures(
            T::occupied,
            (before, occupied),
            after,
        )
}

/// Tells the scheduler of occupied cores.
fn tell_of_occupied<T: Scheduler>(runtime: T, cores: &Vec<(CoreIndex, ParaId)>) -> (r: T)
    ensures
        told_of_occupied::<T>(runtime, cores@, r),
{
    let mut occupied: BTreeMap<u32, ParaId> = BTreeMap::new();
    let mut k: usize = 0;
    while k < cores.len()
        invariant
            k <= cores@.len(),
            occupied@ == occupied_cores(cores@.take(k as int)),
        decreases cores@.len() - k,
    {
        assert(cores@.take(k + 1).drop_last() =~= cores@.take(k as int));
        occupied.insert(cores[k].0.0, cores[k].1);
        k = k + 1;
    }
    assert(cores@.take(k as int) =~= cores@);
    runtime.occupied(occupied)
}

/// What is read before candidates go on cores: the configuration and the schedule.
pub struct BackingContext {
    pub config: HostConfiguration,
    pub paras: Vec<(CoreIndex, ParaId)>,
}

impl BackingContext {
    /// Whether a core index may stand behind validator indices.
    pub open spec fn core_index_enabled(self) -> bool {
        bit_at(self.config.node_features@, ELASTIC_SCALING_MVP as int)
    }
}

/// What is said of the candidates that sanitizing leaves, by how many there are and by
/// the two flags that it gives. Too many candidates are an error. So are, while a block
/// is executed, votes or candidates that had to be dropped.
pub open spec fn sanitized_verdict(
    context: ProcessInherentDataContext,
    candidates: nat,
    cores: nat,
    votes_dropped: bool,
    candidates_dropped: bool,
) -> Result<(), Error> {
    if candidates > cores {
        Err(Error::UnscheduledCandidate)
    } else if context == ProcessInherentDataContext::Enter && votes_dropped {
        Err(Error::BackedByDisabled)
    } else if context == ProcessInherentDataContext::Enter && candidates_dropped {
        Err(Error::BackedOnUnscheduledCore)
    } else {
        Ok(())
    }
}

/// Checks what sanitizing left of candidates.
pub fn check_sanitized(
    context: ProcessInherentDataContext,
    candidates: usize,
    cores: usize,
    votes_dropped: bool,
    candidates_dropped: bool,
) -> (r: Result<(), Error>)
    ensures
        r == sanitized_verdict(
            context,
            candidates as nat,
            cores as nat,
            votes_dropped,
            candidates_dropped,
        ),
{
    if candidates > cores {
        return Err(Error::UnscheduledCandidate);
    }
    if context == ProcessInherentDataContext::Enter && votes_dropped {
        return Err(Error::BackedByDisabled);
    }
    if context == ProcessInherentDataContext::Enter && candidates_dropped {
        return Err(Error::BackedOnUnscheduledCore);
    }
    Ok(())
}

/// Candidates that went on cores, and what the inclusion module says of them.
pub struct Backed {
    pub with_core: Vec<(BackedCandidate, CoreIndex)>,
    pub processed: ProcessedCandidates,
}

/// Whether `r` is what the inclusion module made of candidates that go on cores, and
/// this leads from one state to another. The scheduler is then told of the cores that
/// these occupy.
pub open spec fn put_on_cores<T: Scheduler + Inclusion>(
    before: T,
    allowed_relay_parents: AllowedRelayParentsTracker,
    with_core: Vec<(BackedCandidate, CoreIndex)>,
    core_index_enabled: bool,
    after: T,
    r: Result<Backed, DispatchErrorWithPostInfo>,
) -> bool {
    exists|between: T, reply: Result<ProcessedCandidates, DispatchErrorWithPostInfo>| #[trigger]
        call_ensures(
            T::process_candidates,
            (before, &allowed_relay_parents, &with_core, core_index_enabled),
            (between, reply),
        ) && match reply {
            Err(error) => after == between && r == Err::<Backed, DispatchErrorWithPostInfo>(error),
            Ok(processed) => told_of_occupied::<T>(between, processed.core_indices@, after) && r
                == Ok::<Backed, DispatchErrorWithPostInfo>(Backed { with_core, processed }),
        }
}

/// What is read before candidates go on cores, and what sanitizing makes of these.
pub struct Sanitized {
    pub read: BackingContext,
    pub with_core: Vec<(BackedCandidate, CoreIndex)>,
    pub votes_dropped: bool,
    pub candidates_dropped: bool,
}

/// Whether `s` is what is read, and what sanitizing makes of candidates.
pub open spec fn backing_sanitized<T: Config>(
    runtime: T,
    allowed_relay_parents: AllowedRelayParentsTracker,
    candidates: Seq<BackedCandidate>,
    invalid: Seq<CandidateHash>,
    s: Sanitized,
) -> bool {
    &&& call_ensures(T::configuration, (&runtime,), s.read.config)
    &&& call_ensures(T::scheduled_paras, (&runtime,), s.read.paras)
    &&& sanitized_candidates::<T>(
        runtime,
        candidates,
        allowed_relay_parents,
        refusals::<T>(runtime, allowed_relay_parents, invalid),
        schedule(s.read.paras@),
        s.read.core_index_enabled(),
        views_with_core(s.with_core@),
        s.votes_dropped,
        s.candidates_dropped,
    )
}

/// Whether `r` is what comes of backed candidates, and this leads from one state to
/// another: they are sanitized, checked and put on cores. Where they do not pass the
/// check the state stays the same.
pub open spec fn backing_processed<T: Config>(
    before: T,
    context: ProcessInherentDataContext,
    allowed_relay_parents: AllowedRelayParentsTracker,
    candidates: Seq<BackedCandidate>,
    invalid: Seq<CandidateHash>,
    after: T,
    r: Result<Backed, DispatchErrorWithPostInfo>,
) -> bool {
    exists|s: Sanitized| #[trigger]
        backing_sanitized::<T>(before, allowed_relay_parents, candidates, invalid, s)
            && match sanitized_verdict(
            context,
            s.with_core@.len(),
            s.read.paras@.len(),
            s.votes_dropped,
            s.candidates_dropped,
        ) {
            Err(error) => after == before && r == Err::<Backed, DispatchErrorWithPostInfo>(
                fail(DispatchError::Inherent(error)),
            ),
            Ok(()) => put_on_cores::<T>(
                before,
                allowed_relay_parents,
                s.with_core,
                s.read.core_index_enabled(),
                after,
                r,
            ),
        }
}

/// Whether a bit is set.
fn feature_enabled(features: &BitString, index: usize) -> (b: bool)
    ensures
        b == bit_at(features@, index as int),
{
    index < features.len() && features.get(index)
}

/// Puts backed candidates on cores.
pub fn process_backing<T: Config>(
    runtime: T,
    context: ProcessInherentDataContext,
    allowed_relay_parents: &AllowedRelayParentsTracker,
    backed_candidates: Vec<BackedCandidate>,
    invalid: &Vec<CandidateHash>,
) -> (r: (T, Result<Backed, DispatchErrorWithPostInfo>))
    ensures
        backing_processed::<T>(
            runtime,
            context,
            *allowed_relay_parents,
            backed_candidates@,
            invalid@,
            r.0,
            r.1,
        ),
{
    let (sanitized, config, paras, core_index_enabled) = sanitize_backing::<T>(
        &runtime,
        allowed_relay_parents,
        backed_candidates,
        invalid,
    );
    let with_core = sanitized.backed_candidates_with_core;
    match check_sanitized(
        context,
        with_core.len(),
        paras.len(),
        sanitized.votes_from_disabled_were_dropped,
        sanitized.dropped_unscheduled_candidates,
    ) {
        Err(error) => (runtime, Err(fail(DispatchError::Inherent(error)))),
        Ok(()) => {
            let (runtime, reply) = runtime.process_candidates(
                allowed_relay_parents,
                &with_core,
                core_index_enabled,
            );
            match reply {
                Err(error) => (runtime, Err(error)),
                Ok(processed) => {
                    let runtime = tell_of_occupied::<T>(runtime, &processed.core_indices);
                    (runtime, Ok(Backed { with_core, processed }))
                },
            }
        },
    }
}

/// Reads the configuration and the schedule, and sanitizes backed candidates.
fn sanitize_backing<T: Config>(
    runtime: &T,
    allowed_relay_parents: &AllowedRelayParentsTracker,
    backed_candidates: Vec<BackedCandidate>,
    invalid: &Vec<CandidateHash>,
) -> (r: (SanitizedBackedCandidates, HostConfiguration, Vec<(CoreIndex, ParaId)>, bool))
    ensures
        ({
            let read = BackingContext { config: r.1, paras: r.2 };
            &&& r.3 == read.core_index_enabled()
            &&& backing_sanitized::<T>(
                *runtime,
                *allowed_relay_parents,
                backed_candidates@,
                invalid@,
                (Sanitized {
                    read,
                    with_core: r.0.backed_candidates_with_core,
                    votes_dropped: r.0.votes_from_disabled_were_dropped,
                    candidates_dropped: r.0.dropped_unscheduled_candidates,
                }),
            )
        }),
{
    let config = runtime.configuration();
    let core_index_enabled = feature_enabled(&config.node_features, ELASTIC_SCALING_MVP);
    let paras = runtime.scheduled_paras();
    let scheduled = collect_scheduled(&paras);
    let is_refused = |candidate_index: usize, candidate: &BackedCandidate| -> (verdict: bool)
        ensures
            refused::<T>(
                *runtime,
                *allowed_relay_parents,
                invalid@,
                candidate_index,
                *candidate,
                verdict,
            ),
        {
            let hash = T::candidate_hash(candidate);
            contains_hash(invalid, &hash) || !runtime.verify_backed_candidate(
                allowed_relay_parents,
                candidate_index,
                candidate,
            )
        };
    let ghost given = backed_candidates@;
    let sanitized = sanitize_backed_candidates::<T, _>(
        runtime,
        backed_candidates,
        allowed_relay_parents,
        is_refused,
        scheduled,
        core_index_enabled,
    );
    proof {
        sanitized_by_wider_account::<T>(
            *runtime,
            given,
            *allowed_relay_parents,
            verdicts_of(is_refused),
            refusals::<T>(*runtime, *allowed_relay_parents, invalid@),
            schedule(paras@),
            core_index_enabled,
            views_with_core(sanitized.backed_candidates_with_core@),
            sanitized.votes_from_disabled_were_dropped,
            sanitized.dropped_unscheduled_candidates,
        );
    }
    (sanitized, config, paras, core_index_enabled)
}

/// What holds of candidates that are about to go on cores: none of them was refused,
/// so that none was found invalid in a dispute; there are never too many of them; and
/// while a block is built nothing stands in their way.
pub proof fn refused_candidates_are_never_included<T: Config>(
    runtime: T,
    allowed_relay_parents: AllowedRelayParentsTracker,
    candidates: Seq<BackedCandidate>,
    invalid: Seq<CandidateHash>,
    s: Sanitized,
)
    requires
        backing_sanitized::<T>(runtime, allowed_relay_parents, candidates, invalid, s),
    ensures
        forall|k: int|
            0 <= k < s.with_core@.len() ==> exists|i: int|
                0 <= i < candidates.len() && (#[trigger] candidates[i]).candidate == (
                #[trigger] s.with_core@[k]).0.candidate && refused::<T>(
                    runtime,
                    allowed_relay_parents,
                    invalid,
                    i as usize,
                    candidates[i],
                    false,
                ),
        s.with_core@.len() <= s.read.paras@.len(),
        sanitized_verdict(
            ProcessInherentDataContext::ProvideInherent,
            s.with_core@.len(),
            s.read.paras@.len(),
            s.votes_dropped,
            s.candidates_dropped,
        ) is Ok,
{
    let views = views_with_core(s.with_core@);
    let account = refusals::<T>(runtime, allowed_relay_parents, invalid);
    schedule_is_finite(s.read.paras@);
    sanitized_candidates_are_in_order::<T>(
        runtime,
        candidates,
        allowed_relay_parents,
        account,
        schedule(s.read.paras@),
        s.read.core_index_enabled(),
        views,
        s.votes_dropped,
        s.candidates_dropped,
    );
    sanitized_candidates_never_outnumber_cores::<T>(
        runtime,
        candidates,
        allowed_relay_parents,
        account,
        s.read.paras@,
        s.read.core_index_enabled(),
        views,
        s.votes_dropped,
        s.candidates_dropped,
    );
    assert forall|k: int| 0 <= k < s.with_core@.len() implies exists|i: int|
        0 <= i < candidates.len() && (#[trigger] candidates[i]).candidate == (
        #[trigger] s.with_core@[k]).0.candidate && refused::<T>(
            runtime,
            allowed_relay_parents,
            invalid,
            i as usize,
            candidates[i],
            false,
        ) by {
        assert(views[k].0.candidate == s.with_core@[k].0.candidate);
        let i = choose|i: int|
            0 <= i < candidates.len() && (#[trigger] candidates[i]).candidate
                == views[k].0.candidate && account(i as usize, candidates[i], false);
        assert(refused::<T>(
            runtime,
            allowed_relay_parents,
            invalid,
            i as usize,
            candidates[i],
            false,
        ));
    }
}

} // verus!
