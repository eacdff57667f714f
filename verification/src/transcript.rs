//! What happens while an inherent is processed, call by call.
//!
//! The statements here say which calls are made into the modules of a runtime, with which
//! arguments and in which state, and what is made of the answers.

use crate::backing::{
    sanitized_candidates_stood_among_candidates, sanitizing_goes_candidate_by_candidate, Sanitation,
};
use crate::bitfields::{
    bitfields_are_looked_at_in_order, bits_of_cores, listed_cores_are_marked, unchecked_again,
    Looks,
};
use crate::block::{is_entropy, is_max_block_weight, is_total_weight};
use crate::candidate::BackedCandidate;
use crate::cores::{schedule, schedule_is_finite};
use crate::disabled::views_with_core;
use crate::dispatch::{
    fail, DispatchError, DispatchErrorWithPostInfo, Error, Origin, PostDispatchInfo,
};
use crate::disputes::{limited_disputes, limited_disputes_by_wider_account, sets_of};
use crate::freed::{
    collecting_asks_for_timeouts, disputes_of_the_session_are_asked_for, freed_cores,
    listed_cores_become_free,
};
use crate::pallet::{
    created, entered, executed, holds, included, outcome, prepared, processed, processed_on,
    without_cores, Chain, DecodeError, Pallet, ProcessResult, Readings,
};
use crate::primitives::{
    checked_views, BackingRecord, BlockNumber, CandidateHash, CheckedDisputeStatementSet,
    CoreIndex, DisputeStatementSet, FreedReason, Header, InherentData, ParaId, SessionIndex,
    SignedAvailabilityBitfield, SigningContext, UncheckedSignedAvailabilityBitfield, H256,
};
use crate::relay_parents::AllowedRelayParentsTracker;
use crate::rng::SelectionRng;
use crate::runtime::{Config, Inclusion, ProcessedCandidates, Scheduler};
use crate::selection::capped;
use crate::stages::{
    availability_processed, availability_steps, backing_processed, backing_sanitized, filter_of,
    fitted,
    notes_taken, occupied_cores, put_on_cores, refusals, refused, sanitized_verdict,
    told_of_occupied, AvailabilitySteps, Backed, BlockContext, Fitted, ProcessInherentDataContext,
    Sanitized,
};
use crate::votes::{
    updates_replace_one_kind, votes_view, with_backings, with_disputes, ScrapedOnChainVotesView,
};
use crate::weight::Weight;
use crate::weight_limit::limited;
use std::collections::BTreeMap;
use vstd::prelude::*;

verus! {

/// What fits in a block. While a block is built, candidates and bitfields are cut down, by
/// a generator fresh from the entropy, to what the disputes leave of the limit, and what is
/// left weighs, with the disputes, what is returned. While a block is executed, they are
/// taken as they are if what they weigh exceeds the limit in neither dimension, and refused
/// otherwise.
pub proof fn fitting_in_a_block<T: Config>(
    context: ProcessInherentDataContext,
    candidates: Seq<BackedCandidate>,
    bitfields: Seq<UncheckedSignedAvailabilityBitfield>,
    all_weight_before: Weight,
    max_block_weight: Weight,
    disputes_weight: Weight,
    entropy: [u8; 32],
    r: Result<Fitted, Error>,
) -> (left: (SelectionRng, Weight))
    requires
        fitted::<T>(
            context,
            candidates,
            bitfields,
            all_weight_before,
            max_block_weight,
            disputes_weight,
            entropy,
            r,
        ),
    ensures
        context == ProcessInherentDataContext::ProvideInherent ==> {
            &&& r matches Ok(fit) && limited::<T>(
                candidates,
                bitfields,
                Weight {
                    ref_time: if max_block_weight.ref_time > disputes_weight.ref_time {
                        (max_block_weight.ref_time - disputes_weight.ref_time) as u64
                    } else {
                        0
                    },
                    proof_size: if max_block_weight.proof_size > disputes_weight.proof_size {
                        (max_block_weight.proof_size - disputes_weight.proof_size) as u64
                    } else {
                        0
                    },
                },
                SelectionRng { seed: entropy, word_pos: 0 },
                fit.backed_candidates@,
                fit.bitfields@,
                left.0,
                left.1,
            ) && fit.all_weight_after.ref_time == capped(
                left.1.ref_time + disputes_weight.ref_time,
            ) && fit.all_weight_after.proof_size == capped(
                left.1.proof_size + disputes_weight.proof_size,
            )
        },
        context == ProcessInherentDataContext::Enter && all_weight_before.ref_time
            <= max_block_weight.ref_time && all_weight_before.proof_size
            <= max_block_weight.proof_size ==> {
            &&& r matches Ok(fit) && fit.backed_candidates@ == candidates && fit.bitfields@
                == bitfields && fit.all_weight_after == all_weight_before
        },
        context == ProcessInherentDataContext::Enter && (all_weight_before.ref_time
            > max_block_weight.ref_time || all_weight_before.proof_size
            > max_block_weight.proof_size) ==> r == Err::<Fitted, Error>(Error::InherentOverweight),
{
    if context is ProvideInherent {
        let fit = r->Ok_0;
        let limit = max_block_weight.saturating_sub(disputes_weight);
        let (rng_left, weight) = choose|rng_left: SelectionRng, weight: Weight| #[trigger]
            limited::<T>(
                candidates,
                bitfields,
                limit,
                SelectionRng::from_seed(entropy),
                fit.backed_candidates@,
                fit.bitfields@,
                rng_left,
                weight,
            ) && fit.all_weight_after == weight.saturating_add(disputes_weight);
        assert(SelectionRng::from_seed(entropy) == (SelectionRng { seed: entropy, word_pos: 0 }));
        (rng_left, weight)
    } else {
        arbitrary()
    }
}

/// Whether the scheduler was told that each of the cores in a list, and no other, is free
/// because its candidate concluded.
pub open spec fn told_that_concluded<T: Scheduler>(
    before: T,
    cores: Seq<CoreIndex>,
    now: BlockNumber,
    after: T,
) -> bool {
    exists|map: BTreeMap<u32, FreedReason>| #[trigger]
        call_ensures(T::free_cores_and_fill_claimqueue, (before, map, now), after) && (forall|
            core: u32,
        | #[trigger]
            map@.contains_key(core) <==> cores.contains(CoreIndex(core))) && (forall|core: u32|
            #[trigger]
            map@.contains_key(core) ==> map@[core] == FreedReason::Concluded)
}

/// How availability is processed, call by call.
pub struct AvailabilityTranscript<T> {
    pub steps: AvailabilitySteps<T>,
    /// What the disputes module said of each dispute.
    pub answers: Seq<bool>,
    /// Which cores are marked as disputed.
    pub marked: Seq<bool>,
    pub looks: Looks,
    /// The states while inclusions are noted.
    pub noted: Seq<T>,
    pub timeouts_due: bool,
    pub timed_out: Vec<CoreIndex>,
}

impl<T: Config> AvailabilityTranscript<T> {
    /// The disputes module is asked of each dispute of the session.
    pub open spec fn asks_of_disputes(
        self,
        before: T,
        block: BlockContext,
        checked: Seq<CheckedDisputeStatementSet>,
        invalid: Seq<CandidateHash>,
    ) -> bool {
        &&& self.answers.len() == checked.len()
        &&& forall|d: int|
            0 <= d < checked.len() && checked[d].set.session == block.session ==> call_ensures(
                T::concluded_invalid,
                (&before, block.session, checked[d].set.candidate_hash),
                #[trigger] self.answers[d],
            )
        &&& invalid.no_duplicates()
        &&& forall|hash: CandidateHash| #[trigger]
            invalid.contains(hash) <==> exists|d: int|
                0 <= d < checked.len() && checked[d].set.session == block.session
                    && checked[d].set.candidate_hash == hash && #[trigger] self.answers[d]
    }

    /// The inclusion module is handed the invalid candidates, and says which cores these
    /// were on; the scheduler is told of these cores.
    pub open spec fn frees_disputed(
        self,
        before: T,
        block: BlockContext,
        invalid: Seq<CandidateHash>,
    ) -> bool {
        let s = self.steps;
        &&& exists|hashes: &Vec<CandidateHash>|
            hashes@ == invalid && #[trigger] call_ensures(
                T::collect_disputed,
                (before, hashes),
                (s.collected, s.disputed),
            )
        &&& s.disputed@.len() > 0 ==> told_that_concluded::<T>(
            s.collected,
            s.disputed@,
            block.now,
            s.cleaned,
        )
        &&& s.disputed@.len() == 0 ==> s.cleaned == s.collected
    }

    /// No bitfield that counts concerns one of these cores.
    pub open spec fn looks_at_bitfields(
        self,
        block: BlockContext,
        bitfields: Seq<UncheckedSignedAvailabilityBitfield>,
        left: Seq<SignedAvailabilityBitfield>,
    ) -> bool {
        &&& self.marked.len() == block.expected_bits
        &&& forall|c: u32|
            #![trigger self.marked[c as int]]
            c < block.expected_bits ==> (self.marked[c as int]
                <==> self.steps.disputed@.contains(CoreIndex(c)))
        &&& self.looks.are_right::<T>(
            bitfields,
            self.marked,
            block.expected_bits as nat,
            SigningContext { parent_hash: block.parent_hash, session_index: block.session },
            block.validators@,
            left,
        )
    }

    /// The inclusion module counts the bitfields, and says which candidates became
    /// available; the disputes module is told of each of these, one after the other.
    pub open spec fn counts_bitfields(
        self,
        block: BlockContext,
        left: Seq<SignedAvailabilityBitfield>,
    ) -> bool {
        let s = self.steps;
        &&& exists|votes: &Vec<SignedAvailabilityBitfield>|
            votes@ == left && #[trigger] call_ensures(
                T::update_pending_availability_and_get_freed_cores,
                (s.cleaned, block.expected_bits, &block.validators, votes),
                (s.counted, s.concluded),
            )
        &&& self.noted.len() == s.concluded@.len() + 1
        &&& self.noted[0] == s.counted
        &&& forall|k: int|
            0 <= k < s.concluded@.len() ==> call_ensures(
                T::note_included,
                (self.noted[k], block.session, (#[trigger] s.concluded@[k]).1, block.now),
                self.noted[k + 1],
            )
        &&& self.noted[s.concluded@.len() as int] == s.noted
    }

    /// If the scheduler says that it is time, the inclusion module is asked for cores that
    /// timed out; the scheduler is told of all cores that are free now.
    pub open spec fn frees_the_rest(self, block: BlockContext, after: T) -> bool {
        let s = self.steps;
        &&& call_ensures(T::availability_timeout_check_required, (&s.noted,), self.timeouts_due)
        &&& self.timeouts_due ==> call_ensures(
            T::collect_timed_out,
            (s.noted,),
            (s.timed_out, self.timed_out),
        )
        &&& !self.timeouts_due ==> s.timed_out == s.noted
        &&& exists|map: BTreeMap<u32, FreedReason>| #[trigger]
            call_ensures(
                T::free_cores_and_fill_claimqueue,
                (s.timed_out, map, block.now),
                after,
            ) && (forall|core: u32| #[trigger]
                map@.contains_key(core) <==> (exists|k: int|
                    0 <= k < s.concluded@.len() && (#[trigger] s.concluded@[k]).0.0 == core) || (
                self.timeouts_due && exists|k: int|
                    0 <= k < self.timed_out@.len() && (#[trigger] self.timed_out@[k]).0 == core))
                && (forall|core: u32| #[trigger]
                map@.contains_key(core) ==> (map@[core] == FreedReason::TimedOut
                    <==> self.timeouts_due && exists|k: int|
                    0 <= k < self.timed_out@.len() && (#[trigger] self.timed_out@[k]).0 == core))
    }

    /// Whether the calls and what is made of them are as they should be.
    pub open spec fn is_right(
        self,
        before: T,
        block: BlockContext,
        checked: Seq<CheckedDisputeStatementSet>,
        bitfields: Seq<UncheckedSignedAvailabilityBitfield>,
        invalid: Seq<CandidateHash>,
        left: Seq<SignedAvailabilityBitfield>,
        after: T,
    ) -> bool {
        &&& self.asks_of_disputes(before, block, checked, invalid)
        &&& self.frees_disputed(before, block, invalid)
        &&& self.looks_at_bitfields(block, bitfields, left)
        &&& self.counts_bitfields(block, left)
        &&& self.frees_the_rest(block, after)
    }
}

/// Processing availability goes call by call as it should.
pub proof fn availability_goes_call_by_call<T: Config>(
    before: T,
    block: BlockContext,
    checked: Seq<CheckedDisputeStatementSet>,
    bitfields: Seq<UncheckedSignedAvailabilityBitfield>,
    invalid: Seq<CandidateHash>,
    left: Seq<SignedAvailabilityBitfield>,
    after: T,
) -> (t: AvailabilityTranscript<T>)
    requires
        availability_processed::<T>(before, block, checked, bitfields, invalid, left, after),
    ensures
        t.is_right(before, block, checked, bitfields, invalid, left, after),
{
    let s = choose|s: AvailabilitySteps<T>| #[trigger]
        availability_steps::<T>(before, block, checked, bitfields, invalid, left, after, s);
    let answers = disputes_of_the_session_are_asked_for::<T>(
        before,
        checked,
        block.session,
        invalid,
    );
    if s.disputed@.len() > 0 {
        let cores = freed_cores(s.disputed@, Seq::empty());
        let map = choose|map: BTreeMap<u32, FreedReason>|
            map@ == cores && #[trigger] call_ensures(
                T::free_cores_and_fill_claimqueue,
                (s.collected, map, block.now),
                s.cleaned,
            );
        assert forall|core: u32| #[trigger] map@.contains_key(core) <==> s.disputed@.contains(
            CoreIndex(core),
        ) by {
            listed_cores_become_free(s.disputed@, Seq::empty(), core);
        }
        assert forall|core: u32| #[trigger] map@.contains_key(core) implies map@[core]
            == FreedReason::Concluded by {
            listed_cores_become_free(s.disputed@, Seq::empty(), core);
        }
        assert(told_that_concluded::<T>(s.collected, s.disputed@, block.now, s.cleaned));
    }
    let n = block.expected_bits as nat;
    let marked = bits_of_cores(n, s.disputed@);
    assert forall|c: u32| #![trigger marked[c as int]] c < n implies (marked[c as int]
        <==> s.disputed@.contains(CoreIndex(c))) by {
        listed_cores_are_marked(n, s.disputed@, CoreIndex(c));
    }
    listed_cores_are_marked(n, s.disputed@, CoreIndex(0));
    let looks = bitfields_are_looked_at_in_order::<T>(
        bitfields,
        marked,
        n,
        SigningContext { parent_hash: block.parent_hash, session_index: block.session },
        block.validators@,
        left,
    );
    let noted = choose|states: Seq<T>| #[trigger]
        notes_taken::<T>(block.session, s.concluded@, block.now, states) && states.first()
            == s.counted && states.last() == s.noted;
    let (timeouts_due, timed_out) = collecting_asks_for_timeouts::<T>(
        s.noted,
        s.concluded@,
        s.timed_out,
        s.freed,
    );
    let map = choose|map: BTreeMap<u32, FreedReason>|
        map@ == s.freed && #[trigger] call_ensures(
            T::free_cores_and_fill_claimqueue,
            (s.timed_out, map, block.now),
            after,
        );
    let t = AvailabilityTranscript {
        steps: s,
        answers,
        marked,
        looks,
        noted,
        timeouts_due,
        timed_out,
    };
    let hashes = choose|hashes: &Vec<CandidateHash>|
        hashes@ == invalid && #[trigger] call_ensures(
            T::collect_disputed,
            (before, hashes),
            (s.collected, s.disputed),
        );
    let votes = choose|votes: &Vec<SignedAvailabilityBitfield>|
        votes@ == left && #[trigger] call_ensures(
            T::update_pending_availability_and_get_freed_cores,
            (s.cleaned, block.expected_bits, &block.validators, votes),
            (s.counted, s.concluded),
        );
    assert(t.steps.collected == s.collected && t.steps.disputed == s.disputed);
    assert(call_ensures(
        T::collect_disputed,
        (before, hashes),
        (t.steps.collected, t.steps.disputed),
    ));
    assert(call_ensures(
        T::update_pending_availability_and_get_freed_cores,
        (t.steps.cleaned, block.expected_bits, &block.validators, votes),
        (t.steps.counted, t.steps.concluded),
    ));
    assert(call_ensures(
        T::free_cores_and_fill_claimqueue,
        (t.steps.timed_out, map, block.now),
        after,
    ));
    assert(call_ensures(T::availability_timeout_check_required, (&t.steps.noted,), t.timeouts_due));
    assert(t.asks_of_disputes(before, block, checked, invalid));
    assert(t.frees_disputed(before, block, invalid));
    assert(t.looks_at_bitfields(block, bitfields, left));
    assert(t.counts_bitfields(block, left));
    assert(t.frees_the_rest(block, after));
    t
}

/// No bitfield that counts is for a core that was freed because of a dispute: where the
/// inclusion module says that the candidate on a core was disputed, whichever core it is,
/// no bitfield that counts has the bit of that core set.
pub proof fn bitfields_on_disputed_cores_do_not_count<T: Config>(
    before: T,
    block: BlockContext,
    checked: Seq<CheckedDisputeStatementSet>,
    bitfields: Seq<UncheckedSignedAvailabilityBitfield>,
    invalid: Seq<CandidateHash>,
    left: Seq<SignedAvailabilityBitfield>,
    after: T,
) -> (disputed: Vec<CoreIndex>)
    requires
        availability_processed::<T>(before, block, checked, bitfields, invalid, left, after),
    ensures
        exists|hashes: &Vec<CandidateHash>, collected: T|
            hashes@ == invalid && #[trigger] call_ensures(
                T::collect_disputed,
                (before, hashes),
                (collected, disputed),
            ),
        forall|i: int, k: int|
            0 <= i < left.len() && 0 <= k < disputed@.len() && (#[trigger] disputed@[k]).0
                < block.expected_bits ==> (#[trigger] left[i]).bitfield.payload@.len()
                == block.expected_bits && !left[i].bitfield.payload@[disputed@[k].0 as int],
{
    let t = availability_goes_call_by_call::<T>(
        before,
        block,
        checked,
        bitfields,
        invalid,
        left,
        after,
    );
    let disputed = t.steps.disputed;
    let hashes = choose|hashes: &Vec<CandidateHash>|
        hashes@ == invalid && #[trigger] call_ensures(
            T::collect_disputed,
            (before, hashes),
            (t.steps.collected, disputed),
        );
    assert(call_ensures(T::collect_disputed, (before, hashes), (t.steps.collected, disputed)));
    assert forall|i: int, k: int|
        0 <= i < left.len() && 0 <= k < disputed@.len() && (#[trigger] disputed@[k]).0
            < block.expected_bits implies (#[trigger] left[i]).bitfield.payload@.len()
        == block.expected_bits && !left[i].bitfield.payload@[disputed@[k].0 as int] by {
        let at = t.looks.counted[i];
        assert(t.looks.counted.contains(at));
        assert(t.looks.looked[at]);
        let c = disputed@[k].0;
        assert(disputed@[k] == CoreIndex(c));
        assert(disputed@.contains(CoreIndex(c)));
        assert(t.marked[c as int]);
        assert(bitfields[at].payload@ == left[i].bitfield.payload@);
    }
    disputed
}

/// When a candidate is refused: the inclusion module is asked for its hash; if that is among
/// the invalid ones the candidate is refused; otherwise the inclusion module is asked, at
/// the candidate's place, whether it passes, and the candidate is refused exactly if it does
/// not.
pub proof fn refusal_asks_for_hash_and_checks<T: Inclusion>(
    runtime: T,
    tracker: AllowedRelayParentsTracker,
    invalid: Seq<CandidateHash>,
    k: usize,
    candidate: BackedCandidate,
    verdict: bool,
) -> (hash: CandidateHash)
    requires
        refusals::<T>(runtime, tracker, invalid)(k, candidate, verdict),
    ensures
        call_ensures(T::candidate_hash, (&candidate,), hash),
        invalid.contains(hash) ==> verdict,
        !invalid.contains(hash) ==> call_ensures(
            T::verify_backed_candidate,
            (&runtime, &tracker, k, &candidate),
            !verdict,
        ),
{
    assert(refused::<T>(runtime, tracker, invalid, k, candidate, verdict));
    choose|hash: CandidateHash| #[trigger]
        call_ensures(T::candidate_hash, (&candidate,), hash) && if invalid.contains(hash) {
            verdict
        } else {
            call_ensures(
                T::verify_backed_candidate,
                (&runtime, &tracker, k, &candidate),
                !verdict,
            )
        }
}

/// Every candidate that goes on a core passed the checks of the inclusion module: it is the
/// candidate at some place among those given, with the same receipt, each place once, and
/// the module answered for the candidate at that place, whichever place it is, that it
/// passes; nor is the hash that the module answered for it among the invalid ones.
pub proof fn included_candidates_were_verified<T: Config>(
    runtime: T,
    tracker: AllowedRelayParentsTracker,
    candidates: Seq<BackedCandidate>,
    invalid: Seq<CandidateHash>,
    s: Sanitized,
) -> (r: (Seq<int>, Seq<CandidateHash>))
    requires
        backing_sanitized::<T>(runtime, tracker, candidates, invalid, s),
    ensures
        r.0.len() == s.with_core@.len(),
        r.1.len() == s.with_core@.len(),
        forall|i: int, j: int| 0 <= i < j < r.0.len() ==> r.0[i] != r.0[j],
        forall|k: int|
            0 <= k < s.with_core@.len() ==> {
                let i = #[trigger] r.0[k];
                &&& 0 <= i < candidates.len()
                &&& s.with_core@[k].0.candidate == candidates[i].candidate
                &&& call_ensures(
                    T::verify_backed_candidate,
                    (&runtime, &tracker, i as usize, &candidates[i]),
                    true,
                )
                &&& call_ensures(T::candidate_hash, (&candidates[i],), r.1[k])
                &&& !invalid.contains(r.1[k])
            },
{
    let views = views_with_core(s.with_core@);
    let account = refusals::<T>(runtime, tracker, invalid);
    let places = sanitized_candidates_stood_among_candidates::<T>(
        runtime,
        candidates,
        tracker,
        account,
        schedule(s.read.paras@),
        s.read.core_index_enabled(),
        views,
        s.votes_dropped,
        s.candidates_dropped,
    );
    let hashes = Seq::new(
        places.len(),
        |k: int|
            choose|hash: CandidateHash| #[trigger]
                call_ensures(T::candidate_hash, (&candidates[places[k]],), hash)
                    && !invalid.contains(hash),
    );
    assert forall|k: int| 0 <= k < s.with_core@.len() implies {
        let i = #[trigger] places[k];
        &&& 0 <= i < candidates.len()
        &&& s.with_core@[k].0.candidate == candidates[i].candidate
        &&& call_ensures(
            T::verify_backed_candidate,
            (&runtime, &tracker, i as usize, &candidates[i]),
            true,
        )
        &&& call_ensures(T::candidate_hash, (&candidates[i],), hashes[k])
        &&& !invalid.contains(hashes[k])
    } by {
        let i = places[k];
        assert(views[k].0.candidate == s.with_core@[k].0.candidate);
        let hash = refusal_asks_for_hash_and_checks::<T>(
            runtime,
            tracker,
            invalid,
            i as usize,
            candidates[i],
            false,
        );
        assert(call_ensures(T::candidate_hash, (&candidates[places[k]],), hash)
            && !invalid.contains(hash));
    }
    assert(places.no_duplicates());
    (places, hashes)
}

/// What is said of sanitized candidates: that there are too many, if there are more than
/// cores; otherwise, while a block is executed, that one was backed by a disabled validator
/// or had no core, in this order; and otherwise nothing.
pub proof fn verdict_on_sanitized_candidates(
    context: ProcessInherentDataContext,
    candidates: nat,
    cores: nat,
    votes_dropped: bool,
    candidates_dropped: bool,
)
    ensures
        ({
            let verdict = sanitized_verdict(
                context,
                candidates,
                cores,
                votes_dropped,
                candidates_dropped,
            );
            let executing = context == ProcessInherentDataContext::Enter;
            &&& verdict == Err::<(), Error>(Error::UnscheduledCandidate) <==> candidates > cores
            &&& verdict == Err::<(), Error>(Error::BackedByDisabled) <==> candidates <= cores
                && executing && votes_dropped
            &&& verdict == Err::<(), Error>(Error::BackedOnUnscheduledCore) <==> candidates <= cores
                && executing && !votes_dropped && candidates_dropped
            &&& verdict is Ok <==> candidates <= cores && !(executing && (votes_dropped
                || candidates_dropped))
        }),
{
}

/// Which cores are occupied: exactly those that are listed, each by the parachain of the
/// last entry for it.
pub proof fn listed_cores_are_occupied(cores: Seq<(CoreIndex, ParaId)>)
    ensures
        forall|core: u32| #[trigger]
            occupied_cores(cores).contains_key(core) <==> exists|k: int|
                0 <= k < cores.len() && (#[trigger] cores[k]).0.0 == core,
        forall|k: int|
            #![trigger cores[k]]
            0 <= k < cores.len() && (forall|j: int|
                k < j < cores.len() ==> (#[trigger] cores[j]).0 != cores[k].0)
                ==> occupied_cores(cores)[cores[k].0.0] == cores[k].1,
    decreases cores.len(),
{
    if cores.len() > 0 {
        let fewer = cores.drop_last();
        let top = cores.len() - 1;
        listed_cores_are_occupied(fewer);
        assert forall|core: u32| #[trigger] occupied_cores(cores).contains_key(core) <==> exists|
            k: int,
        |
            0 <= k < cores.len() && (#[trigger] cores[k]).0.0 == core by {
            if occupied_cores(fewer).contains_key(core) {
                let k = choose|k: int| 0 <= k < fewer.len() && (#[trigger] fewer[k]).0.0 == core;
                assert(cores[k].0.0 == core);
            }
            if core == cores.last().0.0 {
                assert(cores[top].0.0 == core);
            }
            if exists|k: int| 0 <= k < cores.len() && (#[trigger] cores[k]).0.0 == core {
                let k = choose|k: int| 0 <= k < cores.len() && (#[trigger] cores[k]).0.0 == core;
                if k < top {
                    assert(fewer[k].0.0 == core);
                }
            }
        }
        assert forall|k: int|
            #![trigger cores[k]]
            0 <= k < cores.len() && (forall|j: int|
                k < j < cores.len() ==> (
                #[trigger] cores[j]).0 != cores[k].0) implies occupied_cores(cores)[cores[k].0.0]
            == cores[k].1 by {
            if k < top {
                assert(cores[top].0 != cores[k].0);
                assert(fewer[k] == cores[k]);
                assert forall|j: int| k < j < fewer.len() implies (#[trigger] fewer[j]).0
                    != fewer[k].0 by {
                    assert(cores[j].0 != cores[k].0);
                }
            }
        }
    }
}

/// How backed candidates are processed, call by call.
pub struct BackingTranscript<T> {
    pub s: Sanitized,
    pub sanitation: Sanitation,
    /// The state after the candidates were handed to the inclusion module, and its reply.
    pub between: T,
    pub reply: Result<ProcessedCandidates, DispatchErrorWithPostInfo>,
}

impl<T: Config> BackingTranscript<T> {
    /// Whether the calls and what is made of them are as they should be.
    pub open spec fn is_right(
        self,
        before: T,
        context: ProcessInherentDataContext,
        tracker: AllowedRelayParentsTracker,
        candidates: Seq<BackedCandidate>,
        invalid: Seq<CandidateHash>,
        after: T,
        r: Result<Backed, DispatchErrorWithPostInfo>,
    ) -> bool {
        let s = self.s;
        let features = s.read.config.node_features@;
        let enabled = features.len() > 1 && features[1];
        let executing = context == ProcessInherentDataContext::Enter;
        let with_core = views_with_core(s.with_core@);
        // The configuration and the schedule are read, and the candidates sanitized.
        &&& call_ensures(T::configuration, (&before,), s.read.config)
        &&& call_ensures(T::scheduled_paras, (&before,), s.read.paras)
        &&& self.sanitation.judges(candidates, refusals::<T>(before, tracker, invalid))
        &&& self.sanitation.assigns::<T>(
            before,
            tracker,
            schedule(s.read.paras@),
            enabled,
            s.candidates_dropped,
        )
        &&& self.sanitation.filtration.is_right::<T>(
            before,
            tracker,
            enabled,
            self.sanitation.assigned,
            self.sanitation.left,
            s.votes_dropped,
        )
        &&& self.sanitation.counts::<T>(before, tracker)
        &&& self.sanitation.sorts(with_core)
        // Votes or candidates that had to be dropped are an error while a block is executed.
        &&& s.with_core@.len() > s.read.paras@.len() ==> after == before && refused_for(
            r,
            Error::UnscheduledCandidate,
        )
        &&& s.with_core@.len() <= s.read.paras@.len() && executing && s.votes_dropped ==> after
            == before && refused_for(r, Error::BackedByDisabled)
        &&& s.with_core@.len() <= s.read.paras@.len() && executing && !s.votes_dropped
            && s.candidates_dropped ==> after == before && refused_for(
            r,
            Error::BackedOnUnscheduledCore,
        )
        // Otherwise the inclusion module is handed the candidates with their cores. Its error
        // is passed on. If there is none, the scheduler is told of the occupied cores.
        &&& s.with_core@.len() <= s.read.paras@.len() && !(executing && (s.votes_dropped
            || s.candidates_dropped)) ==> {
            &&& call_ensures(
                T::process_candidates,
                (before, &tracker, &s.with_core, enabled),
                (self.between, self.reply),
            )
            &&& match self.reply {
                Err(error) => after == self.between && (r matches Err(e) && e == error),
                Ok(processed) => {
                    &&& r matches Ok(backed) && backed.with_core == s.with_core
                        && backed.processed == processed
                    &&& exists|map: BTreeMap<u32, ParaId>| #[trigger]
                        call_ensures(T::occupied, (self.between, map), after) && map@
                            == occupied_cores(processed.core_indices@)
                },
            }
        }
    }
}

/// Whether a result is the refusal of an inherent for a reason, for which the sender pays
/// what was announced.
pub open spec fn refused_for<R>(r: Result<R, DispatchErrorWithPostInfo>, reason: Error) -> bool {
    r matches Err(e) && e.error == DispatchError::Inherent(reason)
        && e.post_info.actual_weight is None && e.post_info.pays_fee is Yes
}

/// Processing backed candidates goes call by call as it should.
pub proof fn backing_goes_call_by_call<T: Config>(
    before: T,
    context: ProcessInherentDataContext,
    tracker: AllowedRelayParentsTracker,
    candidates: Seq<BackedCandidate>,
    invalid: Seq<CandidateHash>,
    after: T,
    r: Result<Backed, DispatchErrorWithPostInfo>,
) -> (t: BackingTranscript<T>)
    requires
        backing_processed::<T>(before, context, tracker, candidates, invalid, after, r),
    ensures
        t.is_right(before, context, tracker, candidates, invalid, after, r),
{
    let s = choose|s: Sanitized| #[trigger]
        backing_sanitized::<T>(before, tracker, candidates, invalid, s) && match sanitized_verdict(
            context,
            s.with_core@.len(),
            s.read.paras@.len(),
            s.votes_dropped,
            s.candidates_dropped,
        ) {
            Err(error) => after == before && r == Err::<Backed, DispatchErrorWithPostInfo>(
                fail(DispatchError::Inherent(error)),
            ),
            Ok(()) => put_on_cores::<T>(
                before,
                tracker,
                s.with_core,
                s.read.core_index_enabled(),
                after,
                r,
            ),
        };
    let features = s.read.config.node_features@;
    let enabled = features.len() > 1 && features[1];
    assert(enabled == s.read.core_index_enabled());
    let with_core = views_with_core(s.with_core@);
    schedule_is_finite(s.read.paras@);
    let sanitation = sanitizing_goes_candidate_by_candidate::<T>(
        before,
        candidates,
        tracker,
        refusals::<T>(before, tracker, invalid),
        schedule(s.read.paras@),
        enabled,
        with_core,
        s.votes_dropped,
        s.candidates_dropped,
    );
    verdict_on_sanitized_candidates(
        context,
        s.with_core@.len(),
        s.read.paras@.len(),
        s.votes_dropped,
        s.candidates_dropped,
    );
    let verdict = sanitized_verdict(
        context,
        s.with_core@.len(),
        s.read.paras@.len(),
        s.votes_dropped,
        s.candidates_dropped,
    );
    if verdict is Ok {
        let (between, reply) = choose|
            between: T,
            reply: Result<ProcessedCandidates, DispatchErrorWithPostInfo>,
        | #[trigger]
            call_ensures(
                T::process_candidates,
                (before, &tracker, &s.with_core, enabled),
                (between, reply),
            ) && match reply {
                Err(error) => after == between && r == Err::<Backed, DispatchErrorWithPostInfo>(
                    error,
                ),
                Ok(processed) => told_of_occupied::<T>(between, processed.core_indices@, after)
                    && r == Ok::<Backed, DispatchErrorWithPostInfo>(
                    Backed { with_core: s.with_core, processed },
                ),
            };
        let t = BackingTranscript { s, sanitation, between, reply };
        if let Ok(processed) = reply {
            let map = choose|map: BTreeMap<u32, ParaId>|
                map@ == occupied_cores(processed.core_indices@) && #[trigger] call_ensures(
                    T::occupied,
                    (between, map),
                    after,
                );
            assert(call_ensures(T::occupied, (t.between, map), after));
        }
        t
    } else {
        BackingTranscript { s, sanitation, between: before, reply: arbitrary() }
    }
}

/// How inherent data is processed, call by call.
pub struct ProcessingTranscript<T> {
    pub parent_hash: H256,
    pub header_hash: H256,
    /// The state after the parent was added to the blocks that candidates may build on.
    pub prepared: T,
    pub x: Readings,
    /// The disputes as the disputes module sorts them.
    pub sorted: Vec<DisputeStatementSet>,
    pub fit: Result<Fitted, Error>,
    /// The state after the disputes were imported, and what was said of that.
    pub imported: T,
    pub success: bool,
    pub frozen: bool,
    /// The state after availability was processed, and what came of it.
    pub available: T,
    pub invalid: Seq<CandidateHash>,
    pub bitfields: Seq<SignedAvailabilityBitfield>,
    pub availability: AvailabilityTranscript<T>,
    pub backed: Result<Backed, DispatchErrorWithPostInfo>,
    pub backing: BackingTranscript<T>,
}

/// Whether votes on chain are of a session, hold disputes one by one, and backing votes.
pub open spec fn votes_hold(
    votes: Option<ScrapedOnChainVotesView>,
    session: SessionIndex,
    disputes: Seq<CheckedDisputeStatementSet>,
    backings: Seq<BackingRecord>,
) -> bool {
    votes matches Some(v) && v.session == session && v.disputes.len() == disputes.len() && (forall|
        k: int,
    |
        0 <= k < disputes.len() ==> #[trigger] v.disputes[k] == disputes[k].set@)
        && v.backing_validators_per_candidate == backings
}

/// The backing votes that are on chain.
pub open spec fn backings_on_chain(votes: Option<ScrapedOnChainVotesView>) -> Seq<BackingRecord> {
    match votes {
        Some(v) => v.backing_validators_per_candidate,
        None => Seq::empty(),
    }
}

/// Whether a result holds a header and disputes, one by one, and a weight that is paid for.
pub open spec fn returns_disputes(
    r: ProcessResult,
    parent_header: Header,
    disputes: Seq<CheckedDisputeStatementSet>,
    weight: Weight,
) -> bool {
    r matches Ok((left, info)) && left.parent_header == parent_header && left.disputes@.len()
        == disputes.len() && (forall|k: int|
        0 <= k < disputes.len() ==> #[trigger] left.disputes@[k] == disputes[k].set)
        && info.actual_weight == Some(weight) && info.pays_fee is Yes
}

impl<T: Config> ProcessingTranscript<T> {
    /// What is read, computed and chosen before anything is imported.
    pub open spec fn prepares(self, before: T, now: BlockNumber, data: InherentData) -> bool {
        let x = self.x;
        let s = self.prepared;
        let period = x.config.dispute_post_conclusion_acceptance_period;
        &&& call_ensures(T::configuration, (&before,), x.config)
        &&& call_ensures(
            T::update_allowed_relay_parents,
            (
                before,
                self.parent_hash,
                data.parent_header.state_root,
                (now - 1) as u32,
                x.config.allowed_ancestry_len,
            ),
            s,
        )
        &&& call_ensures(T::allowed_relay_parents, (&s,), x.allowed_relay_parents)
        &&& is_total_weight::<T>(
            data.backed_candidates@,
            data.bitfields@,
            data.disputes@,
            x.all_weight_before,
        )
        &&& x.block.now == now
        &&& x.block.parent_hash == self.parent_hash
        &&& call_ensures(T::session_index, (&s,), x.block.session)
        &&& call_ensures(T::availability_cores, (&s,), x.cores)
        &&& x.block.expected_bits == x.cores@.len()
        &&& call_ensures(T::active_validator_keys, (&s,), x.block.validators)
        &&& is_max_block_weight::<T>(x.max_block_weight)
        &&& is_entropy::<T>(s, self.parent_hash, x.entropy)
        &&& call_ensures(
            T::deduplicate_and_sort_dispute_data,
            (&s, data.disputes),
            self.sorted,
        )
        &&& limited_disputes::<T>(
            self.sorted@,
            filter_answers::<T>(s, period),
            x.max_block_weight,
            x.checked@,
            x.disputes_weight,
        )
    }

    /// What is done with an inherent that fits.
    pub open spec fn executes(
        self,
        before: Chain<T>,
        context: ProcessInherentDataContext,
        data: InherentData,
        fit: Fitted,
        after: Chain<T>,
        r: ProcessResult,
    ) -> bool {
        let x = self.x;
        let session = x.block.session;
        &&& call_ensures(
            T::process_checked_multi_dispute_data,
            (self.prepared, &x.checked),
            (self.imported, self.success),
        )
        &&& call_ensures(T::is_frozen, (&self.imported,), self.frozen)
        // Nothing but the disputes is left on a frozen chain.
        &&& self.frozen ==> {
            &&& after.runtime == self.imported
            &&& votes_hold(
                after.votes,
                session,
                x.checked@,
                backings_on_chain(before.votes),
            )
            &&& returns_disputes(r, data.parent_header, x.checked@, x.disputes_weight)
            &&& r matches Ok((left, info)) && left.bitfields@.len() == 0
                && left.backed_candidates@.len() == 0
        }
        &&& !self.frozen ==> {
            &&& self.availability.is_right(
                self.imported,
                x.block,
                x.checked@,
                fit.bitfields@,
                self.invalid,
                self.bitfields,
                self.available,
            )
            &&& self.backing.is_right(
                self.available,
                context,
                x.allowed_relay_parents,
                fit.backed_candidates@,
                self.invalid,
                after.runtime,
                self.backed,
            )
            &&& match self.backed {
                Err(error) => {
                    &&& r matches Err(e) && e == error
                    &&& votes_hold(
                        after.votes,
                        session,
                        x.checked@,
                        backings_on_chain(before.votes),
                    )
                },
                Ok(backed) => {
                    &&& votes_hold(
                        after.votes,
                        session,
                        x.checked@,
                        backed.processed.candidate_receipt_with_backing_validator_indices@,
                    )
                    &&& returns_disputes(r, data.parent_header, x.checked@, fit.all_weight_after)
                    &&& r matches Ok((left, info)) && left.bitfields@.len()
                        == self.bitfields.len() && (forall|k: int|
                        0 <= k < self.bitfields.len() ==> #[trigger] left.bitfields@[k]
                            == self.bitfields[k].bitfield) && left.backed_candidates@.len()
                        == backed.with_core@.len() && (forall|k: int|
                        0 <= k < backed.with_core@.len() ==> #[trigger] left.backed_candidates@[k]
                            == backed.with_core@[k].0)
                },
            }
        }
    }

    /// Whether the calls and what is made of them are as they should be.
    pub open spec fn is_right(
        self,
        before: Chain<T>,
        now: BlockNumber,
        data: InherentData,
        context: ProcessInherentDataContext,
        after: Chain<T>,
        r: ProcessResult,
    ) -> bool {
        &&& call_ensures(T::parent_hash, (&before.runtime,), self.parent_hash)
        &&& call_ensures(T::header_hash, (&data.parent_header,), self.header_hash)
        &&& self.header_hash != self.parent_hash ==> after.runtime == before.runtime && after.votes
            == before.votes && refused_for(r, Error::InvalidParentHeader)
        &&& self.header_hash == self.parent_hash ==> {
            &&& self.prepares(before.runtime, now, data)
            &&& fitted::<T>(
                context,
                data.backed_candidates@,
                data.bitfields@,
                self.x.all_weight_before,
                self.x.max_block_weight,
                self.x.disputes_weight,
                self.x.entropy,
                self.fit,
            )
            &&& match self.fit {
                Err(error) => after.runtime == self.prepared && after.votes == before.votes
                    && refused_for(r, error),
                Ok(fit) => self.executes(before, context, data, fit, after, r),
            }
        }
    }
}

/// The answers of the disputes module's filter, in a state and for a period.
pub open spec fn filter_answers<T: Config>(runtime: T, period: BlockNumber) -> spec_fn(
    DisputeStatementSet,
    Option<CheckedDisputeStatementSet>,
) -> bool {
    |set: DisputeStatementSet, answer: Option<CheckedDisputeStatementSet>|
        call_ensures(T::filter_dispute_data, (&runtime, set, period), answer)
}

/// What is done with an inherent that fits goes call by call as it should.
proof fn execution_goes_call_by_call<T: Config>(
    before: Chain<T>,
    context: ProcessInherentDataContext,
    data: InherentData,
    fit: Fitted,
    after: Chain<T>,
    r: ProcessResult,
    t: ProcessingTranscript<T>,
) -> (u: ProcessingTranscript<T>)
    requires
        executed::<T>(
            Chain { runtime: t.prepared, votes: before.votes },
            context,
            data.parent_header,
            t.x,
            fit,
            after,
            r,
        ),
    ensures
        u.parent_hash == t.parent_hash,
        u.header_hash == t.header_hash,
        u.prepared == t.prepared,
        u.x == t.x,
        u.sorted == t.sorted,
        u.fit == t.fit,
        u.executes(before, context, data, fit, after, r),
{
    let x = t.x;
    let votes = with_disputes(before.votes, x.block.session, checked_views(x.checked@));
    updates_replace_one_kind(
        before.votes,
        x.block.session,
        checked_views(x.checked@),
        Seq::empty(),
    );
    assert(votes_hold(votes, x.block.session, x.checked@, backings_on_chain(before.votes)));
    let (imported, frozen) = choose|imported: T, frozen: bool| #[trigger]
        crate::pallet::imported::<T>(t.prepared, x.checked, imported) && #[trigger] call_ensures(
            T::is_frozen,
            (&imported,),
            frozen,
        ) && if frozen {
            &&& after == (Chain { runtime: imported, votes })
            &&& r matches Ok((left, info)) && info == PostDispatchInfo::of_weight(
                Some(x.disputes_weight),
            ) && holds(left, Seq::empty(), Seq::empty(), sets_of(x.checked@), data.parent_header)
        } else {
            included::<T>(
                Chain { runtime: imported, votes },
                context,
                data.parent_header,
                x,
                fit,
                after,
                r,
            )
        };
    let success = choose|success: bool| #[trigger]
        call_ensures(
            T::process_checked_multi_dispute_data,
            (t.prepared, &x.checked),
            (imported, success),
        );
    if frozen {
        let u = ProcessingTranscript { imported, success, frozen, ..t };
        assert(call_ensures(T::is_frozen, (&u.imported,), u.frozen));
        assert(call_ensures(
            T::process_checked_multi_dispute_data,
            (u.prepared, &u.x.checked),
            (u.imported, u.success),
        ));
        assert(u.executes(before, context, data, fit, after, r));
        u
    } else {
        let chain = Chain { runtime: imported, votes };
        let (available, backed) = choose|
            available: (T, Seq<CandidateHash>, Seq<SignedAvailabilityBitfield>),
            backed: Result<Backed, DispatchErrorWithPostInfo>,
        |
            {
                &&& #[trigger] availability_processed::<T>(
                    chain.runtime,
                    x.block,
                    x.checked@,
                    fit.bitfields@,
                    available.1,
                    available.2,
                    available.0,
                )
                &&& #[trigger] backing_processed::<T>(
                    available.0,
                    context,
                    x.allowed_relay_parents,
                    fit.backed_candidates@,
                    available.1,
                    after.runtime,
                    backed,
                )
                &&& match backed {
                    Err(error) => after.votes == chain.votes && r == Err::<
                        (InherentData, PostDispatchInfo),
                        DispatchErrorWithPostInfo,
                    >(error),
                    Ok(b) => {
                        &&& after.votes == with_backings(
                            chain.votes,
                            x.block.session,
                            b.processed.candidate_receipt_with_backing_validator_indices@,
                        )
                        &&& r matches Ok((left, info)) && info == PostDispatchInfo::of_weight(
                            Some(fit.all_weight_after),
                        ) && holds(
                            left,
                            unchecked_again(available.2),
                            without_cores(b.with_core@),
                            sets_of(x.checked@),
                            data.parent_header,
                        )
                    },
                }
            };
        let availability = availability_goes_call_by_call::<T>(
            imported,
            x.block,
            x.checked@,
            fit.bitfields@,
            available.1,
            available.2,
            available.0,
        );
        let backing = backing_goes_call_by_call::<T>(
            available.0,
            context,
            x.allowed_relay_parents,
            fit.backed_candidates@,
            available.1,
            after.runtime,
            backed,
        );
        let u = ProcessingTranscript {
            imported,
            success,
            frozen,
            available: available.0,
            invalid: available.1,
            bitfields: available.2,
            availability,
            backed,
            backing,
            ..t
        };
        assert(call_ensures(T::is_frozen, (&u.imported,), u.frozen));
        assert(call_ensures(
            T::process_checked_multi_dispute_data,
            (u.prepared, &u.x.checked),
            (u.imported, u.success),
        ));
        if let Ok(b) = backed {
            updates_replace_one_kind(
                votes,
                x.block.session,
                Seq::empty(),
                b.processed.candidate_receipt_with_backing_validator_indices@,
            );
        }
        assert(u.executes(before, context, data, fit, after, r));
        u
    }
}

/// Processing inherent data goes call by call as it should.
pub proof fn processing_goes_call_by_call<T: Config>(
    before: Chain<T>,
    now: BlockNumber,
    data: InherentData,
    context: ProcessInherentDataContext,
    after: Chain<T>,
    r: ProcessResult,
) -> (t: ProcessingTranscript<T>)
    requires
        processed::<T>(before, now, data, context, after, r),
    ensures
        t.is_right(before, now, data, context, after, r),
{
    let (parent_hash, header_hash) = choose|parent_hash: H256, header_hash: H256| #[trigger]
        call_ensures(T::parent_hash, (&before.runtime,), parent_hash) && #[trigger] call_ensures(
            T::header_hash,
            (&data.parent_header,),
            header_hash,
        ) && if header_hash == parent_hash {
            processed_on::<T>(before, now, parent_hash, data, context, after, r)
        } else {
            after == before && r == Err::<
                (InherentData, PostDispatchInfo),
                DispatchErrorWithPostInfo,
            >(fail(DispatchError::Inherent(Error::InvalidParentHeader)))
        };
    let blank = ProcessingTranscript::<T> { parent_hash, header_hash, ..arbitrary() };
    if header_hash != parent_hash {
        assert(blank.is_right(before, now, data, context, after, r));
        blank
    } else {
        let (runtime, x, fit) = choose|runtime: T, x: Readings, fit: Result<Fitted, Error>|
            {
                &&& #[trigger] prepared::<T>(before.runtime, now, parent_hash, data, runtime, x)
                &&& #[trigger] fitted::<T>(
                    context,
                    data.backed_candidates@,
                    data.bitfields@,
                    x.all_weight_before,
                    x.max_block_weight,
                    x.disputes_weight,
                    x.entropy,
                    fit,
                )
                &&& match fit {
                    Err(error) => after == (Chain { runtime, votes: before.votes }) && r == Err::<
                        (InherentData, PostDispatchInfo),
                        DispatchErrorWithPostInfo,
                    >(fail(DispatchError::Inherent(error))),
                    Ok(f) => executed::<T>(
                        Chain { runtime, votes: before.votes },
                        context,
                        data.parent_header,
                        x,
                        f,
                        after,
                        r,
                    ),
                }
            };
        let period = x.config.dispute_post_conclusion_acceptance_period;
        let sorted = choose|sorted: Vec<DisputeStatementSet>| #[trigger]
            call_ensures(
                T::deduplicate_and_sort_dispute_data,
                (&runtime, data.disputes),
                sorted,
            ) && limited_disputes::<T>(
                sorted@,
                filter_of::<T>(runtime, period),
                x.max_block_weight,
                x.checked@,
                x.disputes_weight,
            );
        limited_disputes_by_wider_account::<T>(
            sorted@,
            filter_of::<T>(runtime, period),
            filter_answers::<T>(runtime, period),
            x.max_block_weight,
            x.checked@,
            x.disputes_weight,
        );
        let t = ProcessingTranscript { prepared: runtime, x, sorted, fit, ..blank };
        assert(t.prepares(before.runtime, now, data));
        match fit {
            Err(error) => {
                assert(t.is_right(before, now, data, context, after, r));
                t
            },
            Ok(f) => {
                let u = execution_goes_call_by_call::<T>(before, context, data, f, after, r, t);
                assert(u.prepares(before.runtime, now, data));
                assert(u.is_right(before, now, data, context, after, r));
                u
            },
        }
    }
}

/// What entering an inherent comes to: refused, with nothing changed, from anybody but
/// nobody, and a second time; otherwise it counts as included, and is processed as while a
/// block is executed, and what processing ends with is what entering ends with.
pub proof fn entering_processes_once<T: Config>(
    runtime: T,
    before: Pallet,
    now: BlockNumber,
    origin: Origin,
    data: InherentData,
    runtime_after: T,
    after: Pallet,
    r: Result<PostDispatchInfo, DispatchErrorWithPostInfo>,
) -> (full: ProcessResult)
    requires
        entered::<T>(runtime, before, now, origin, data, runtime_after, after, r),
    ensures
        !(origin is Unsigned) ==> runtime_after == runtime && after == before && (
        r matches Err(e) && e.error is BadOrigin),
        origin is Unsigned && before.included ==> runtime_after == runtime && after == before
            && refused_for(r, Error::TooManyInclusionInherents),
        origin is Unsigned && !before.included ==> {
            &&& after.included
            &&& processed::<T>(
                Chain { runtime, votes: votes_view(before.on_chain_votes) },
                now,
                data,
                ProcessInherentDataContext::Enter,
                Chain { runtime: runtime_after, votes: votes_view(after.on_chain_votes) },
                full,
            )
            &&& full matches Ok((left, info)) ==> r == Ok::<
                PostDispatchInfo,
                DispatchErrorWithPostInfo,
            >(info)
            &&& full matches Err(e) ==> r == Err::<PostDispatchInfo, DispatchErrorWithPostInfo>(e)
        },
{
    if origin is Unsigned && !before.included {
        choose|full: ProcessResult| #[trigger]
            processed::<T>(
                Chain { runtime, votes: before.votes() },
                now,
                data,
                ProcessInherentDataContext::Enter,
                Chain { runtime: runtime_after, votes: after.votes() },
                full,
            ) && r == outcome(full)
    } else {
        arbitrary()
    }
}

/// What creating an inherent comes to: nothing, with nothing changed, where a block author
/// came with no data or with data that does not decode; otherwise the data is processed as
/// while a block is built, and what is left of it is the inherent, unless processing fails.
pub proof fn creating_processes_what_decodes<T: Config>(
    before: Chain<T>,
    now: BlockNumber,
    data: Result<Option<InherentData>, DecodeError>,
    after: Chain<T>,
    r: Option<InherentData>,
) -> (full: ProcessResult)
    requires
        created::<T>(before, now, data, after, r),
    ensures
        data is Err || data->Ok_0 is None ==> r is None && after == before,
        data matches Ok(Some(d)) ==> {
            &&& processed::<T>(
                before,
                now,
                d,
                ProcessInherentDataContext::ProvideInherent,
                after,
                full,
            )
            &&& full matches Ok((left, info)) ==> r == Some(left)
            &&& full is Err ==> r is None
        },
{
    match data {
        Ok(Some(d)) => choose|full: ProcessResult| #[trigger]
            processed::<T>(
                before,
                now,
                d,
                ProcessInherentDataContext::ProvideInherent,
                after,
                full,
            ) && r == match full {
                Ok((left, _)) => Some(left),
                Err(_) => None,
            },
        _ => arbitrary(),
    }
}

/// A candidate that the inclusion module never lets pass is never returned: if it answers
/// for no candidate with a receipt, at no place and in no state, that it passes, no candidate
/// that processing returns has this receipt.
pub proof fn unverified_candidates_are_never_returned<T: Config>(
    before: Chain<T>,
    now: BlockNumber,
    data: InherentData,
    context: ProcessInherentDataContext,
    after: Chain<T>,
    left: InherentData,
    info: PostDispatchInfo,
    k: int,
)
    requires
        processed::<T>(before, now, data, context, after, Ok((left, info))),
        0 <= k < left.backed_candidates@.len(),
    ensures
        exists|
            runtime: T,
            tracker: AllowedRelayParentsTracker,
            place: usize,
            candidate: BackedCandidate,
        | #[trigger]
            call_ensures(
                T::verify_backed_candidate,
                (&runtime, &tracker, place, &candidate),
                true,
            ) && candidate.candidate == left.backed_candidates@[k].candidate,
{
    let r: ProcessResult = Ok((left, info));
    let t = processing_goes_call_by_call::<T>(before, now, data, context, after, r);
    let fit = t.fit->Ok_0;
    let backed = t.backed->Ok_0;
    assert(!t.frozen);
    let b = t.backing;
    let candidates = fit.backed_candidates@;
    let tracker = t.x.allowed_relay_parents;
    let n = b.sanitation;
    let with_core = views_with_core(b.s.with_core@);
    assert(left.backed_candidates@[k] == backed.with_core@[k].0);
    assert(with_core[k].0.candidate == left.backed_candidates@[k].candidate);
    let (place, candidate) = returned_candidate_passed::<T>(
        b,
        t.available,
        context,
        tracker,
        candidates,
        t.invalid,
        after.runtime,
        t.backed,
        k,
    );
    assert(call_ensures(
        T::verify_backed_candidate,
        (&t.available, &tracker, place, &candidate),
        true,
    ));
}

/// The candidate at a place among those that stay was let pass at its place.
proof fn returned_candidate_passed<T: Config>(
    b: BackingTranscript<T>,
    before: T,
    context: ProcessInherentDataContext,
    tracker: AllowedRelayParentsTracker,
    candidates: Seq<BackedCandidate>,
    invalid: Seq<CandidateHash>,
    after: T,
    r: Result<Backed, DispatchErrorWithPostInfo>,
    k: int,
) -> (found: (usize, BackedCandidate))
    requires
        b.is_right(before, context, tracker, candidates, invalid, after, r),
        0 <= k < b.s.with_core@.len(),
    ensures
        found.1.candidate == b.s.with_core@[k].0.candidate,
        call_ensures(
            T::verify_backed_candidate,
            (&before, &tracker, found.0, &found.1),
            true,
        ),
{
    let n = b.sanitation;
    let with_core = views_with_core(b.s.with_core@);
    // By core, then with enough votes, then with votes dropped, then with a core, then valid.
    let i = n.order[k];
    assert(with_core[k] == n.kept[i]);
    let j = n.enough[i];
    assert(n.kept[i] == n.left[j]);
    let f = n.filtration;
    let m = if f.disabled@.len() == 0 {
        j
    } else {
        f.stayed[j]
    };
    assert(0 <= m < n.assigned.len() && n.left[j].0.candidate == n.assigned[m].0.candidate) by {
        if f.disabled@.len() == 0 {
            assert(n.left[j].0 == n.assigned[j].0@);
        } else {
            assert(0 <= f.stayed[j] < n.assigned.len());
            assert(f.stayed.contains(m));
            assert(f.groups[m] is Some);
        }
    }
    let v = n.with_cores[m];
    assert(n.assigned[m].0 == n.valid[v]);
    let at = n.passed[v];
    assert(n.valid[v] == candidates[at]);
    assert(n.passed.contains(at));
    assert(!n.verdicts[at]);
    let hash = refusal_asks_for_hash_and_checks::<T>(
        before,
        tracker,
        invalid,
        at as usize,
        candidates[at],
        false,
    );
    (at as usize, candidates[at])
}

} // verus!
