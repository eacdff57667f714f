//! The inherent that every block carries: availability bitfields, backed candidates
//! and dispute votes.

use crate::block::{
    compute_entropy, is_entropy, is_max_block_weight, is_total_weight, max_block_weight,
    paras_inherent_total_weight,
};
use crate::backing::sanitized_candidates_stood_among_candidates;
use crate::bitfields::{bits_of_cores, sanitized_bitfields_fit, unchecked_again};
use crate::bits::{max_bits, BitString};
use crate::candidate::BackedCandidate;
use crate::cores::schedule;
use crate::disabled::views_with_core;
use crate::dispatch::{
    fail, DispatchError, DispatchErrorWithPostInfo, Error, Origin, PostDispatchInfo,
};
use crate::disputes::{
    disputes_add_up, filtered, imported_disputes_weigh_no_more, lightens, limited_disputes,
    limited_disputes_weight_stays_within, sets_of, weighs_checked, weighs_disputes,
};
use crate::freed::{
    disputed_in, disputes_concluded, found_invalid, found_invalid_lists_each_once,
};
use crate::primitives::{
    checked_views, set_views, BlockNumber, CandidateHash, CheckedDisputeStatementSet, CoreIndex,
    DisputeStatementSet, Header, InherentData, SignedAvailabilityBitfield,
    SessionIndex, SigningContext, UncheckedSignedAvailabilityBitfield, H256,
};
use crate::relay_parents::AllowedRelayParentsTracker;
use crate::rng::SelectionRng;
use crate::runtime::{Config, DbWeight, DisputesHandler, HostConfiguration, System};
use crate::stages::{
    availability_processed, backing_processed, choose_disputes, disputes_chosen, filter_of,
    availability_steps, backing_sanitized, fit_in_block, fitted, process_availability,
    process_backing, put_on_cores, refusals, refused, refused_candidates_are_never_included,
    AvailabilitySteps, Backed, BlockContext, Fitted, ProcessInherentDataContext, Sanitized,
};
use crate::totals::{total, total_of_stand_ins};
use crate::votes::{
    set_scrapable_on_chain_backings, set_scrapable_on_chain_disputes, votes_view, with_backings,
    with_disputes, ScrapedOnChainVotes, ScrapedOnChainVotesView,
};
use crate::weight::{saturated, Weight};
use crate::weight_limit::{
    adds_up, limited, limited_weight_is_that_of_what_is_left, limited_weight_stays_within,
    weighs_bitfields, weighs_candidates,
};
use vstd::prelude::*;

verus! {

/// How processing an inherent ends: with what is left of it and what it cost, or
/// with an error.
pub type ProcessResult = Result<(InherentData, PostDispatchInfo), DispatchErrorWithPostInfo>;

/// What the module keeps on chain.
#[derive(Clone, Debug, PartialEq, Eq)]
pub struct Pallet {
    /// Whether the inherent was included in this block.
    pub included: bool,
    /// The votes of the last inherent, for others to scrape.
    pub on_chain_votes: Option<ScrapedOnChainVotes>,
}

/// What is read, computed and chosen before an inherent is imported.
pub struct Readings {
    pub config: HostConfiguration,
    pub allowed_relay_parents: AllowedRelayParentsTracker,
    pub all_weight_before: Weight,
    pub cores: BitString,
    pub block: BlockContext,
    pub max_block_weight: Weight,
    pub entropy: [u8; 32],
    pub checked: Vec<CheckedDisputeStatementSet>,
    pub disputes_weight: Weight,
}

/// Whether `x` is what is read, computed and chosen for inherent data in block `now`, and
/// this leads from one state to another: the parent is added to the blocks that
/// candidates may build on, before anything but the configuration is read.
pub open spec fn prepared<T: Config>(
    before: T,
    now: BlockNumber,
    parent_hash: H256,
    data: InherentData,
    after: T,
    x: Readings,
) -> bool {
    &&& call_ensures(T::configuration, (&before,), x.config)
    &&& call_ensures(
        T::update_allowed_relay_parents,
        (
            before,
            parent_hash,
            data.parent_header.state_root,
            (now - 1) as u32,
            x.config.allowed_ancestry_len,
        ),
        after,
    )
    &&& call_ensures(T::allowed_relay_parents, (&after,), x.allowed_relay_parents)
    &&& is_total_weight::<T>(
        data.backed_candidates@,
        data.bitfields@,
        data.disputes@,
        x.all_weight_before,
    )
    &&& x.block.now == now
    &&& x.block.parent_hash == parent_hash
    &&& call_ensures(T::session_index, (&after,), x.block.session)
    &&& call_ensures(T::availability_cores, (&after,), x.cores)
    &&& x.block.expected_bits == x.cores@.len()
    &&& call_ensures(T::active_validator_keys, (&after,), x.block.validators)
    &&& is_max_block_weight::<T>(x.max_block_weight)
    &&& is_entropy::<T>(after, parent_hash, x.entropy)
    &&& disputes_chosen::<T>(
        after,
        data.disputes,
        x.config.dispute_post_conclusion_acceptance_period,
        x.max_block_weight,
        x.checked@,
        x.disputes_weight,
    )
}

/// Whether handing the disputes that were chosen to the disputes module leads from one
/// state to another.
pub open spec fn imported<D: DisputesHandler>(
    before: D,
    checked: Vec<CheckedDisputeStatementSet>,
    after: D,
) -> bool {
    exists|success: bool| #[trigger]
        call_ensures(
            D::process_checked_multi_dispute_data,
            (before, &checked),
            (after, success),
        )
}

/// Whether inherent data holds the given bitfields, candidates, disputes and header.
pub open spec fn holds(
    data: InherentData,
    bitfields: Seq<UncheckedSignedAvailabilityBitfield>,
    candidates: Seq<BackedCandidate>,
    disputes: Seq<DisputeStatementSet>,
    parent_header: Header,
) -> bool {
    &&& data.bitfields@ == bitfields
    &&& data.backed_candidates@ == candidates
    &&& data.disputes@ == disputes
    &&& data.parent_header == parent_header
}

/// The candidates without their cores.
pub open spec fn without_cores(with_core: Seq<(BackedCandidate, CoreIndex)>) -> Seq<
    BackedCandidate,
> {
    with_core.map_values(|c: (BackedCandidate, CoreIndex)| c.0)
}

/// What changes while an inherent is processed: the state of the runtime, and the votes
/// that are on chain.
pub struct Chain<T> {
    pub runtime: T,
    pub votes: Option<ScrapedOnChainVotesView>,
}

/// Whether `r` is what comes of an inherent on a chain that is not frozen, and this leads
/// from one state of the chain to another. Availability is processed before the
/// candidates. The bitfields and the candidates that count are returned, and the votes of
/// the latter go on chain.
pub open spec fn included<T: Config>(
    before: Chain<T>,
    context: ProcessInherentDataContext,
    parent_header: Header,
    x: Readings,
    fitted: Fitted,
    after: Chain<T>,
    r: ProcessResult,
) -> bool {
    exists|
        availability: (T, Seq<CandidateHash>, Seq<SignedAvailabilityBitfield>),
        backing: Result<Backed, DispatchErrorWithPostInfo>,
    |
        {
            &&& #[trigger] availability_processed::<T>(
                before.runtime,
                x.block,
                x.checked@,
                fitted.bitfields@,
                availability.1,
                availability.2,
                availability.0,
            )
            &&& #[trigger] backing_processed::<T>(
                availability.0,
                context,
                x.allowed_relay_parents,
                fitted.backed_candidates@,
                availability.1,
                after.runtime,
                backing,
            )
            &&& match backing {
                Err(error) => after.votes == before.votes && r == Err::<
                    (InherentData, PostDispatchInfo),
                    DispatchErrorWithPostInfo,
                >(error),
                Ok(backed) => {
                    &&& after.votes == with_backings(
                        before.votes,
                        x.block.session,
                        backed.processed.candidate_receipt_with_backing_validator_indices@,
                    )
                    &&& r matches Ok((left, info)) && info == PostDispatchInfo::of_weight(
                        Some(fitted.all_weight_after),
                    ) && holds(
                        left,
                        unchecked_again(availability.2),
                        without_cores(backed.with_core@),
                        sets_of(x.checked@),
                        parent_header,
                    )
                },
            }
        }
}

/// Whether `r` is what comes of an inherent that fits in its block, and this leads from
/// one state of the chain to another. The disputes are imported and go on chain. If the
/// chain is frozen then, nothing else is done, and only the disputes are left and paid
/// for.
pub open spec fn executed<T: Config>(
    before: Chain<T>,
    context: ProcessInherentDataContext,
    parent_header: Header,
    x: Readings,
    fitted: Fitted,
    after: Chain<T>,
    r: ProcessResult,
) -> bool {
    let votes = with_disputes(before.votes, x.block.session, checked_views(x.checked@));
    exists|runtime: T, frozen: bool| #[trigger]
        imported::<T>(before.runtime, x.checked, runtime) && #[trigger] call_ensures(
            T::is_frozen,
            (&runtime,),
            frozen,
        ) && if frozen {
            &&& after == (Chain { runtime, votes })
            &&& r matches Ok((left, info)) && info == PostDispatchInfo::of_weight(
                Some(x.disputes_weight),
            ) && holds(left, Seq::empty(), Seq::empty(), sets_of(x.checked@), parent_header)
        } else {
            included::<T>(Chain { runtime, votes }, context, parent_header, x, fitted, after, r)
        }
}

/// Whether `r` is what comes of inherent data whose parent header is the right one, and
/// this leads from one state of the chain to another.
pub open spec fn processed_on<T: Config>(
    before: Chain<T>,
    now: BlockNumber,
    parent_hash: H256,
    data: InherentData,
    context: ProcessInherentDataContext,
    after: Chain<T>,
    r: ProcessResult,
) -> bool {
    exists|runtime: T, x: Readings, fit: Result<Fitted, Error>|
        {
            &&& #[trigger] prepared::<T>(before.runtime, now, parent_hash, data, runtime, x)
            &&& #[trigger] fitted::<T>(
                context,
                data.backed_candidates@,
                data.bitfields@,
                x.all_weight_before,
                x.max_block_weight,
                x.disputes_weight,
                x.entropy,
                fit,
            )
            &&& match fit {
                Err(error) => after == (Chain { runtime, votes: before.votes }) && r == Err::<
                    (InherentData, PostDispatchInfo),
                    DispatchErrorWithPostInfo,
                >(fail(DispatchError::Inherent(error))),
                Ok(fitted) => executed::<T>(
                    Chain { runtime, votes: before.votes },
                    context,
                    data.parent_header,
                    x,
                    fitted,
                    after,
                    r,
                ),
            }
        }
}

/// Whether `r` is what processing inherent data in block `now` returns, and this leads
/// from one state of the chain to another. Data that comes with the wrong parent header
/// is refused, and nothing changes.
pub open spec fn processed<T: Config>(
    before: Chain<T>,
    now: BlockNumber,
    data: InherentData,
    context: ProcessInherentDataContext,
    after: Chain<T>,
    r: ProcessResult,
) -> bool {
    exists|parent_hash: H256, header_hash: H256| #[trigger]
        call_ensures(T::parent_hash, (&before.runtime,), parent_hash) && #[trigger] call_ensures(
            T::header_hash,
            (&data.parent_header,),
            header_hash,
        ) && if header_hash == parent_hash {
            processed_on::<T>(before, now, parent_hash, data, context, after, r)
        } else {
            after == before && r == Err::<
                (InherentData, PostDispatchInfo),
                DispatchErrorWithPostInfo,
            >(fail(DispatchError::Inherent(Error::InvalidParentHeader)))
        }
}

/// Takes the marks off disputes.
fn take_sets(checked: Vec<CheckedDisputeStatementSet>) -> (r: Vec<DisputeStatementSet>)
    ensures
        r@ == sets_of(checked@),
{
    let ghost all = checked@;
    let mut r: Vec<DisputeStatementSet> = Vec::new();
    for c in it: checked.into_iter()
        invariant
            it.seq() == all,
            r@ =~= sets_of(all.take(it.index())),
    {
        r.push(c.set);
    }
    assert(all.take(all.len() as int) =~= all);
    r
}

/// Takes the marks off bitfields.
fn take_bitfields(bitfields: Vec<SignedAvailabilityBitfield>) -> (r: Vec<
    UncheckedSignedAvailabilityBitfield,
>)
    ensures
        r@ == unchecked_again(bitfields@),
{
    let ghost all = bitfields@;
    let mut r: Vec<UncheckedSignedAvailabilityBitfield> = Vec::new();
    for b in it: bitfields.into_iter()
        invariant
            it.seq() == all,
            r@ =~= unchecked_again(all.take(it.index())),
    {
        r.push(b.bitfield);
    }
    assert(all.take(all.len() as int) =~= all);
    r
}

/// Takes candidates off their cores.
fn take_candidates(with_core: Vec<(BackedCandidate, CoreIndex)>) -> (r: Vec<BackedCandidate>)
    ensures
        r@ == without_cores(with_core@),
{
    let ghost all = with_core@;
    let mut r: Vec<BackedCandidate> = Vec::new();
    for c in it: with_core.into_iter()
        invariant
            it.seq() == all,
            r@ =~= without_cores(all.take(it.index())),
    {
        r.push(c.0);
    }
    assert(all.take(all.len() as int) =~= all);
    r
}

/// Reads, computes and chooses all that is needed before an inherent is imported,
/// and hands its candidates, its bitfields and its header on.
fn prepare<T: Config>(
    runtime: T,
    now: BlockNumber,
    parent_hash: H256,
    data: InherentData,
) -> (r: (
    T,
    Readings,
    Vec<BackedCandidate>,
    Vec<UncheckedSignedAvailabilityBitfield>,
    Header,
))
    requires
        now > 0,
    ensures
        prepared::<T>(runtime, now, parent_hash, data, r.0, r.1),
        r.1.block.expected_bits <= max_bits(),
        r.2 == data.backed_candidates,
        r.3 == data.bitfields,
        r.4 == data.parent_header,
{
    let config = runtime.configuration();
    let runtime = runtime.update_allowed_relay_parents(
        parent_hash,
        data.parent_header.state_root,
        now - 1,
        config.allowed_ancestry_len,
    );
    let allowed_relay_parents = runtime.allowed_relay_parents();
    let all_weight_before = paras_inherent_total_weight::<T>(
        &data.backed_candidates,
        &data.bitfields,
        &data.disputes,
    );
    let session = runtime.session_index();
    let cores = runtime.availability_cores();
    let expected_bits = cores.len();
    let validators = runtime.active_validator_keys();
    let max_block_weight = max_block_weight::<T>();
    let entropy = compute_entropy::<T>(&runtime, parent_hash);
    let period = config.dispute_post_conclusion_acceptance_period;
    let (checked, disputes_weight) = choose_disputes::<T>(
        &runtime,
        data.disputes,
        period,
        max_block_weight,
    );
    let block = BlockContext { now, session, parent_hash, expected_bits, validators };
    let readings = Readings {
        config,
        allowed_relay_parents,
        all_weight_before,
        cores,
        block,
        max_block_weight,
        entropy,
        checked,
        disputes_weight,
    };
    (runtime, readings, data.backed_candidates, data.bitfields, data.parent_header)
}

impl Pallet {
    /// What is on chain before the first block.
    pub fn new() -> (r: Pallet)
        ensures
            !r.included,
            r.on_chain_votes is None,
    {
        Pallet { included: false, on_chain_votes: None }
    }

    /// The votes that are on chain.
    pub open spec fn votes(self) -> Option<ScrapedOnChainVotesView> {
        votes_view(self.on_chain_votes)
    }

    /// Imports an inherent that fits in its block.
    fn execute<T: Config>(
        &mut self,
        runtime: T,
        context: ProcessInherentDataContext,
        parent_header: Header,
        x: Readings,
        fitted: Fitted,
    ) -> (r: (T, ProcessResult))
        requires
            x.block.expected_bits <= max_bits(),
        ensures
            executed::<T>(
                Chain { runtime, votes: old(self).votes() },
                context,
                parent_header,
                x,
                fitted,
                Chain { runtime: r.0, votes: final(self).votes() },
                r.1,
            ),
            final(self).included == old(self).included,
    {
        let ghost before = Chain { runtime, votes: self.votes() };
        let session = x.block.session;
        // Whether the import succeeds makes no difference.
        let (runtime, _success) = runtime.process_checked_multi_dispute_data(&x.checked);
        set_scrapable_on_chain_disputes(&mut self.on_chain_votes, session, &x.checked);
        let ghost chain = Chain { runtime, votes: self.votes() };
        let frozen = runtime.is_frozen();
        assert(imported::<T>(before.runtime, x.checked, chain.runtime));
        assert(call_ensures(T::is_frozen, (&chain.runtime,), frozen));
        if frozen {
            let processed = InherentData {
                bitfields: Vec::new(),
                backed_candidates: Vec::new(),
                disputes: take_sets(x.checked),
                parent_header,
            };
            let info = PostDispatchInfo::of_weight(Some(x.disputes_weight));
            return (runtime, Ok((processed, info)));
        }
        let all_weight_after = fitted.all_weight_after;
        let (runtime, invalid, bitfields) = process_availability::<T>(
            runtime,
            &x.block,
            &x.checked,
            fitted.bitfields,
        );
        let ghost availability = (runtime, invalid@, bitfields@);
        let (runtime, backing) = process_backing::<T>(
            runtime,
            context,
            &x.allowed_relay_parents,
            fitted.backed_candidates,
            &invalid,
        );
        let ghost backing_result = backing;
        assert(availability_processed::<T>(
            chain.runtime,
            x.block,
            x.checked@,
            fitted.bitfields@,
            availability.1,
            availability.2,
            availability.0,
        ));
        let result = match backing {
            Err(error) => Err(error),
            Ok(backed) => {
                set_scrapable_on_chain_backings(
                    &mut self.on_chain_votes,
                    session,
                    backed.processed.candidate_receipt_with_backing_validator_indices,
                );
                let processed = InherentData {
                    bitfields: take_bitfields(bitfields),
                    backed_candidates: take_candidates(backed.with_core),
                    disputes: take_sets(x.checked),
                    parent_header,
                };
                Ok((processed, PostDispatchInfo::of_weight(Some(all_weight_after))))
            },
        };
        proof {
            let after = Chain { runtime, votes: self.votes() };
            assert(backing_processed::<T>(
                availability.0,
                context,
                x.allowed_relay_parents,
                fitted.backed_candidates@,
                availability.1,
                after.runtime,
                backing_result,
            ));
            assert(included::<T>(chain, context, parent_header, x, fitted, after, result));
        }
        (runtime, result)
    }

    /// Processes inherent data.
    ///
    /// The data is processed and the state is altered accordingly. Data that cannot be
    /// applied is removed.
    ///
    /// While a block is built the context has to be
    /// [`ProcessInherentDataContext::ProvideInherent`], which makes sure that the
    /// inherent is not overweight. While a block is executed it has to be
    /// [`ProcessInherentDataContext::Enter`], in which that is checked.
    ///
    /// Returns the state of the runtime afterwards, and the data that is left with the
    /// weight that it consumes.
    pub fn process_inherent_data<T: Config>(
        &mut self,
        runtime: T,
        now: BlockNumber,
        data: InherentData,
        context: ProcessInherentDataContext,
    ) -> (r: (T, ProcessResult))
        requires
            now > 0,
        ensures
            processed::<T>(
                Chain { runtime, votes: old(self).votes() },
                now,
                data,
                context,
                Chain { runtime: r.0, votes: final(self).votes() },
                r.1,
            ),
            final(self).included == old(self).included,
    {
        let ghost before = Chain { runtime, votes: self.votes() };
        let parent_hash = runtime.parent_hash();
        assert(call_ensures(T::parent_hash, (&before.runtime,), parent_hash));
        let header_hash = T::header_hash(&data.parent_header);
        if !header_hash.same(&parent_hash) {
            return (runtime, Err(fail(DispatchError::Inherent(Error::InvalidParentHeader))));
        }
        let (runtime, readings, backed_candidates, bitfields, parent_header) = prepare::<T>(
            runtime,
            now,
            parent_hash,
            data,
        );
        let ghost prepared_runtime = runtime;
        assert(prepared::<T>(before.runtime, now, parent_hash, data, prepared_runtime, readings));
        let fit = fit_in_block::<T>(
            context,
            backed_candidates,
            bitfields,
            readings.all_weight_before,
            readings.max_block_weight,
            readings.disputes_weight,
            readings.entropy,
        );
        match fit {
            Err(error) => (runtime, Err(fail(DispatchError::Inherent(error)))),
            Ok(fitted) => self.execute::<T>(runtime, context, parent_header, readings, fitted),
        }
    }

    /// Enters the inherent of a block. This processes bitfields and backed candidates.
    ///
    /// The inherent comes from nobody, and once per block.
    pub fn enter<T: Config>(
        &mut self,
        runtime: T,
        now: BlockNumber,
        origin: Origin,
        data: InherentData,
    ) -> (r: (T, Result<PostDispatchInfo, DispatchErrorWithPostInfo>))
        requires
            now > 0,
        ensures
            entered::<T>(runtime, *old(self), now, origin, data, r.0, *final(self), r.1),
    {
        match origin {
            Origin::Unsigned => {},
            _ => {
                return (runtime, Err(fail(DispatchError::BadOrigin)));
            },
        }
        if self.included {
            return (
                runtime,
                Err(fail(DispatchError::Inherent(Error::TooManyInclusionInherents))),
            );
        }
        self.included = true;
        let ghost before = Chain { runtime, votes: self.votes() };
        let (runtime, result) = self.process_inherent_data::<T>(
            runtime,
            now,
            data,
            ProcessInherentDataContext::Enter,
        );
        let ghost full = result;
        assert(processed::<T>(
            before,
            now,
            data,
            ProcessInherentDataContext::Enter,
            Chain { runtime, votes: self.votes() },
            full,
        ));
        match result {
            Ok((_, post_info)) => (runtime, Ok(post_info)),
            Err(error) => (runtime, Err(error)),
        }
    }

    /// Creates the data of the inherent, out of what a block author came with: data,
    /// none, or data that does not decode.
    pub fn create_inherent_inner<T: Config>(
        &mut self,
        runtime: T,
        now: BlockNumber,
        data: Result<Option<InherentData>, DecodeError>,
    ) -> (r: (T, Option<InherentData>))
        requires
            now > 0,
        ensures
            created::<T>(
                Chain { runtime, votes: old(self).votes() },
                now,
                data,
                Chain { runtime: r.0, votes: final(self).votes() },
                r.1,
            ),
            final(self).included == old(self).included,
    {
        match data {
            Ok(Some(data)) => {
                let ghost before = Chain { runtime, votes: self.votes() };
                let (runtime, result) = self.process_inherent_data::<T>(
                    runtime,
                    now,
                    data,
                    ProcessInherentDataContext::ProvideInherent,
                );
                let ghost full = result;
                assert(processed::<T>(
                    before,
                    now,
                    data,
                    ProcessInherentDataContext::ProvideInherent,
                    Chain { runtime, votes: self.votes() },
                    full,
                ));
                match result {
                    Ok((processed, _)) => (runtime, Some(processed)),
                    Err(_) => (runtime, None),
                }
            },
            Ok(None) => (runtime, None),
            Err(_) => (runtime, None),
        }
    }

    /// Creates the inherent of a block, out of what a block author came with.
    pub fn create_inherent<T: Config>(
        &mut self,
        runtime: T,
        now: BlockNumber,
        data: Result<Option<InherentData>, DecodeError>,
    ) -> (r: (T, Option<Call>))
        requires
            now > 0,
        ensures
            r.1 matches Some(call) ==> call is Enter,
            created::<T>(
                Chain { runtime, votes: old(self).votes() },
                now,
                data,
                Chain { runtime: r.0, votes: final(self).votes() },
                match r.1 {
                    Some(Call::Enter { data }) => Some(data),
                    _ => None,
                },
            ),
            final(self).included == old(self).included,
    {
        let (runtime, created) = self.create_inherent_inner::<T>(runtime, now, data);
        match created {
            Some(data) => (runtime, Some(Call::Enter { data })),
            None => (runtime, None),
        }
    }

    /// Whether a call is an inherent.
    pub fn is_inherent(call: &Call) -> (b: bool)
        ensures
            b == (*call is Enter),
    {
        match call {
            Call::Enter { .. } => true,
            Call::Other(_) => false,
        }
    }

    /// What the hook at the end of a block costs: a read and a write.
    pub fn on_initialize<T: System>() -> (weight: Weight)
        ensures
            exists|db: DbWeight| #[trigger]
                call_ensures(T::db_weight, (), db) && weight == Weight::from_parts(
                    saturated(db.read + db.write),
                    0,
                ) && weight.proof_size == 0 && weight.ref_time == if db.read + db.write
                    > 0xffff_ffff_ffff_ffff {
                    0xffff_ffff_ffff_ffffint
                } else {
                    db.read + db.write
                },
    {
        let db = T::db_weight();
        Weight::from_parts(db.read.saturating_add(db.write), 0)
    }

    /// Ends a block. Bitfields and heads must be included in every block.
    pub fn on_finalize(&mut self)
        requires
            old(self).included,
        ensures
            *final(self) == (Pallet { included: false, ..*old(self) }),
    {
        self.included = false;
    }
}

/// What a block author came with does not decode.
#[derive(Clone, Copy, Debug, PartialEq, Eq, Structural)]
pub struct DecodeError;

/// A call into a runtime.
#[derive(Clone, Debug, PartialEq, Eq)]
pub enum Call {
    /// Enters the inherent of a block.
    Enter {
        data: InherentData,
    },
    /// A call into another module, encoded.
    Other(Vec<u8>),
}

/// The part of a result that the caller of the inherent gets to see.
pub open spec fn outcome(r: ProcessResult) -> Result<PostDispatchInfo, DispatchErrorWithPostInfo> {
    match r {
        Ok((_, info)) => Ok(info),
        Err(error) => Err(error),
    }
}

/// Whether `r` is what entering an inherent in block `now` returns, and this leads from
/// one state of the runtime and of what the module keeps on chain to another. Nothing
/// changes where the inherent comes from the wrong origin or for a second time.
pub open spec fn entered<T: Config>(
    runtime: T,
    before: Pallet,
    now: BlockNumber,
    origin: Origin,
    data: InherentData,
    runtime_after: T,
    after: Pallet,
    r: Result<PostDispatchInfo, DispatchErrorWithPostInfo>,
) -> bool {
    if !(origin is Unsigned) {
        runtime_after == runtime && after == before && r == Err::<
            PostDispatchInfo,
            DispatchErrorWithPostInfo,
        >(fail(DispatchError::BadOrigin))
    } else if before.included {
        runtime_after == runtime && after == before && r == Err::<
            PostDispatchInfo,
            DispatchErrorWithPostInfo,
        >(fail(DispatchError::Inherent(Error::TooManyInclusionInherents)))
    } else {
        &&& after.included
        &&& exists|full: ProcessResult| #[trigger]
            processed::<T>(
                Chain { runtime, votes: before.votes() },
                now,
                data,
                ProcessInherentDataContext::Enter,
                Chain { runtime: runtime_after, votes: after.votes() },
                full,
            ) && r == outcome(full)
    }
}

/// Whether `r` is the data of an inherent that is created out of `data`, and this leads
/// from one state of the chain to another.
pub open spec fn created<T: Config>(
    before: Chain<T>,
    now: BlockNumber,
    data: Result<Option<InherentData>, DecodeError>,
    after: Chain<T>,
    r: Option<InherentData>,
) -> bool {
    match data {
        Ok(Some(data)) => exists|full: ProcessResult| #[trigger]
            processed::<T>(
                before,
                now,
                data,
                ProcessInherentDataContext::ProvideInherent,
                after,
                full,
            ) && r == match full {
                Ok((left, _)) => Some(left),
                Err(_) => None,
            },
        _ => r is None && after == before,
    }
}

/// Whether the disputes module never makes disputes heavier: what its filter leaves
/// weighs no more than what it was given.
pub open spec fn filter_saves_weight<T: Config>() -> bool {
    forall|
        runtime: T,
        period: BlockNumber,
        disputes: Seq<DisputeStatementSet>,
        checked: Seq<CheckedDisputeStatementSet>,
        given: Weight,
        left: Weight,
    |
        #[trigger] filtered(filter_of::<T>(runtime, period), disputes, checked)
            && #[trigger] weighs_disputes::<T>(disputes, given) && #[trigger] weighs_checked::<T>(
            checked,
            left,
        ) ==> left.all_lte(given)
}

/// The weight of the disputes that are imported is never over the limit, in a runtime
/// whose filter saves weight.
pub proof fn chosen_disputes_stay_within<T: Config>(
    runtime: T,
    disputes: Vec<DisputeStatementSet>,
    period: BlockNumber,
    max_block_weight: Weight,
    checked: Seq<CheckedDisputeStatementSet>,
    weight: Weight,
)
    requires
        filter_saves_weight::<T>(),
        disputes_chosen::<T>(runtime, disputes, period, max_block_weight, checked, weight),
    ensures
        weight.all_lte(max_block_weight),
{
    let filter = filter_of::<T>(runtime, period);
    let sorted = choose|sorted: Vec<DisputeStatementSet>| #[trigger]
        call_ensures(T::deduplicate_and_sort_dispute_data, (&runtime, disputes), sorted)
            && limited_disputes::<T>(sorted@, filter, max_block_weight, checked, weight);
    limited_disputes_weight_stays_within::<T>(sorted@, filter, max_block_weight, checked, weight);
}

/// An inherent that was made to fit in its block, or found to fit, weighs no more than
/// the block allows.
pub proof fn fitted_weight_stays_within<T: Config>(
    context: ProcessInherentDataContext,
    candidates: Seq<BackedCandidate>,
    bitfields: Seq<UncheckedSignedAvailabilityBitfield>,
    all_weight_before: Weight,
    max_block_weight: Weight,
    disputes_weight: Weight,
    entropy: [u8; 32],
    fit: Fitted,
)
    requires
        fitted::<T>(
            context,
            candidates,
            bitfields,
            all_weight_before,
            max_block_weight,
            disputes_weight,
            entropy,
            Ok(fit),
        ),
        context is ProvideInherent ==> disputes_weight.all_lte(max_block_weight),
    ensures
        fit.all_weight_after.all_lte(max_block_weight),
{
    if context is ProvideInherent {
        let limit = max_block_weight.saturating_sub(disputes_weight);
        let (rng_left, weight) = choose|rng_left: SelectionRng, weight: Weight| #[trigger]
            limited::<T>(
                candidates,
                bitfields,
                limit,
                SelectionRng::from_seed(entropy),
                fit.backed_candidates@,
                fit.bitfields@,
                rng_left,
                weight,
            ) && fit.all_weight_after == weight.saturating_add(disputes_weight);
        limited_weight_stays_within::<T>(
            candidates,
            bitfields,
            limit,
            SelectionRng::from_seed(entropy),
            fit.backed_candidates@,
            fit.bitfields@,
            rng_left,
            weight,
        );
    }
}

/// The weight of what was made to fit is that of candidates and bitfields, added up, with
/// that of the disputes.
proof fn fitted_weight_adds_up<T: Config>(
    candidates: Seq<BackedCandidate>,
    bitfields: Seq<UncheckedSignedAvailabilityBitfield>,
    all_weight_before: Weight,
    max_block_weight: Weight,
    disputes_weight: Weight,
    entropy: [u8; 32],
    fit: Fitted,
    candidate_weight: spec_fn(BackedCandidate) -> Weight,
    bitfield_weight: spec_fn(UncheckedSignedAvailabilityBitfield) -> Weight,
)
    requires
        candidates.len() <= usize::MAX,
        bitfields.len() <= usize::MAX,
        adds_up::<T>(candidate_weight, bitfield_weight),
        fitted::<T>(
            ProcessInherentDataContext::ProvideInherent,
            candidates,
            bitfields,
            all_weight_before,
            max_block_weight,
            disputes_weight,
            entropy,
            Ok(fit),
        ),
    ensures
        fit.all_weight_after == total(fit.bitfields@, bitfield_weight).saturating_add(
            total(fit.backed_candidates@, candidate_weight),
        ).saturating_add(disputes_weight),
{
    let limit = max_block_weight.saturating_sub(disputes_weight);
    let rng = SelectionRng::from_seed(entropy);
    let (rng_left, weight) = choose|rng_left: SelectionRng, weight: Weight| #[trigger]
        limited::<T>(
            candidates,
            bitfields,
            limit,
            rng,
            fit.backed_candidates@,
            fit.bitfields@,
            rng_left,
            weight,
        ) && fit.all_weight_after == weight.saturating_add(disputes_weight);
    limited_weight_is_that_of_what_is_left::<T>(
        candidates,
        bitfields,
        limit,
        rng,
        fit.backed_candidates@,
        fit.bitfields@,
        rng_left,
        weight,
        candidate_weight,
        bitfield_weight,
    );
}

/// What is left of an inherent while a block is built fits when it is weighed anew, in
/// a runtime that adds weights up: together with the disputes it weighs no more than the
/// block allows, which is what is checked when the block is executed.
pub proof fn cut_inherent_fits_when_weighed_anew<T: Config>(
    candidates: Seq<BackedCandidate>,
    bitfields: Seq<UncheckedSignedAvailabilityBitfield>,
    all_weight_before: Weight,
    max_block_weight: Weight,
    disputes_weight: Weight,
    entropy: [u8; 32],
    fit: Fitted,
    candidate_weight: spec_fn(BackedCandidate) -> Weight,
    bitfield_weight: spec_fn(UncheckedSignedAvailabilityBitfield) -> Weight,
    cw: Weight,
    bw: Weight,
)
    requires
        candidates.len() <= usize::MAX,
        bitfields.len() <= usize::MAX,
        adds_up::<T>(candidate_weight, bitfield_weight),
        fitted::<T>(
            ProcessInherentDataContext::ProvideInherent,
            candidates,
            bitfields,
            all_weight_before,
            max_block_weight,
            disputes_weight,
            entropy,
            Ok(fit),
        ),
        disputes_weight.all_lte(max_block_weight),
        weighs_candidates::<T>(fit.backed_candidates@, cw),
        weighs_bitfields::<T>(fit.bitfields@, bw),
    ensures
        cw.saturating_add(bw).saturating_add(disputes_weight).all_lte(max_block_weight),
        cw.saturating_add(bw).saturating_add(disputes_weight) == fit.all_weight_after,
{
    fitted_weight_adds_up::<T>(
        candidates,
        bitfields,
        all_weight_before,
        max_block_weight,
        disputes_weight,
        entropy,
        fit,
        candidate_weight,
        bitfield_weight,
    );
    fitted_weight_stays_within::<T>(
        ProcessInherentDataContext::ProvideInherent,
        candidates,
        bitfields,
        all_weight_before,
        max_block_weight,
        disputes_weight,
        entropy,
        fit,
    );
}

/// Whatever comes through processing weighs no more than the block allows, while a
/// block is built and while it is executed, in a runtime whose filter saves weight.
pub proof fn processed_weight_stays_within<T: Config>(
    before: Chain<T>,
    now: BlockNumber,
    data: InherentData,
    context: ProcessInherentDataContext,
    after: Chain<T>,
    left: InherentData,
    info: PostDispatchInfo,
)
    requires
        filter_saves_weight::<T>(),
        processed::<T>(before, now, data, context, after, Ok((left, info))),
    ensures
        exists|limit: Weight| #[trigger]
            is_max_block_weight::<T>(limit) && info.actual_weight is Some
                && info.actual_weight->0.all_lte(limit),
{
    let t = trace::<T>(before, now, data, context, after, left, info);
    chosen_disputes_stay_within::<T>(
        t.runtime,
        data.disputes,
        t.x.config.dispute_post_conclusion_acceptance_period,
        t.x.max_block_weight,
        t.x.checked@,
        t.x.disputes_weight,
    );
    fitted_weight_stays_within::<T>(
        context,
        data.backed_candidates@,
        data.bitfields@,
        t.x.all_weight_before,
        t.x.max_block_weight,
        t.x.disputes_weight,
        t.x.entropy,
        t.fit,
    );
    assert(is_max_block_weight::<T>(t.x.max_block_weight));
}

/// How an inherent came through: the state after preparing, what was read, what fitted.
struct Trace<T> {
    runtime: T,
    x: Readings,
    fit: Fitted,
}

/// Finds out how an inherent came through.
proof fn trace<T: Config>(
    before: Chain<T>,
    now: BlockNumber,
    data: InherentData,
    context: ProcessInherentDataContext,
    after: Chain<T>,
    left: InherentData,
    info: PostDispatchInfo,
) -> (t: Trace<T>)
    requires
        processed::<T>(before, now, data, context, after, Ok((left, info))),
    ensures
        exists|parent_hash: H256| #[trigger]
            prepared::<T>(before.runtime, now, parent_hash, data, t.runtime, t.x),
        fitted::<T>(
            context,
            data.backed_candidates@,
            data.bitfields@,
            t.x.all_weight_before,
            t.x.max_block_weight,
            t.x.disputes_weight,
            t.x.entropy,
            Ok(t.fit),
        ),
        executed::<T>(
            Chain { runtime: t.runtime, votes: before.votes },
            context,
            data.parent_header,
            t.x,
            t.fit,
            after,
            Ok((left, info)),
        ),
{
    let r: ProcessResult = Ok((left, info));
    let (parent_hash, header_hash) = choose|parent_hash: H256, header_hash: H256| #[trigger]
        call_ensures(T::parent_hash, (&before.runtime,), parent_hash) && #[trigger] call_ensures(
            T::header_hash,
            (&data.parent_header,),
            header_hash,
        ) && header_hash == parent_hash && processed_on::<T>(
            before,
            now,
            parent_hash,
            data,
            context,
            after,
            r,
        );
    let (runtime, x, fit) = choose|runtime: T, x: Readings, fit: Result<Fitted, Error>|
        {
            &&& #[trigger] prepared::<T>(before.runtime, now, parent_hash, data, runtime, x)
            &&& #[trigger] fitted::<T>(
                context,
                data.backed_candidates@,
                data.bitfields@,
                x.all_weight_before,
                x.max_block_weight,
                x.disputes_weight,
                x.entropy,
                fit,
            )
            &&& fit matches Ok(f) && executed::<T>(
                Chain { runtime, votes: before.votes },
                context,
                data.parent_header,
                x,
                f,
                after,
                r,
            )
        };
    let t = Trace { runtime, x, fit: fit->Ok_0 };
    assert(prepared::<T>(before.runtime, now, parent_hash, data, t.runtime, t.x));
    t
}

/// How an inherent came through on a chain that is not frozen: the states after the import
/// of disputes and after availability was processed, with the answers on the way, the
/// bitfields that count, and what sanitizing made of the candidates.
struct IncludedTrace<T> {
    runtime: T,
    available: T,
    steps: AvailabilitySteps<T>,
    invalid: Seq<CandidateHash>,
    bitfields: Seq<SignedAvailabilityBitfield>,
    s: Sanitized,
}

/// Finds out how an inherent came through of which more than disputes is left.
proof fn trace_included<T: Config>(
    before: Chain<T>,
    data: InherentData,
    context: ProcessInherentDataContext,
    after: Chain<T>,
    left: InherentData,
    info: PostDispatchInfo,
    t: Trace<T>,
) -> (u: IncludedTrace<T>)
    requires
        executed::<T>(
            Chain { runtime: t.runtime, votes: before.votes },
            context,
            data.parent_header,
            t.x,
            t.fit,
            after,
            Ok((left, info)),
        ),
        left.backed_candidates@.len() > 0 || left.bitfields@.len() > 0,
    ensures
        imported::<T>(t.runtime, t.x.checked, u.runtime),
        availability_steps::<T>(
            u.runtime,
            t.x.block,
            t.x.checked@,
            t.fit.bitfields@,
            u.invalid,
            u.bitfields,
            u.available,
            u.steps,
        ),
        backing_sanitized::<T>(
            u.available,
            t.x.allowed_relay_parents,
            t.fit.backed_candidates@,
            u.invalid,
            u.s,
        ),
        left.backed_candidates@ == without_cores(u.s.with_core@),
        left.bitfields@ == unchecked_again(u.bitfields),
        left.disputes@ == sets_of(t.x.checked@),
{
    let r: ProcessResult = Ok((left, info));
    let votes = with_disputes(before.votes, t.x.block.session, checked_views(t.x.checked@));
    let (runtime, frozen) = choose|runtime: T, frozen: bool| #[trigger]
        imported::<T>(t.runtime, t.x.checked, runtime) && #[trigger] call_ensures(
            T::is_frozen,
            (&runtime,),
            frozen,
        ) && !frozen && included::<T>(
            Chain { runtime, votes },
            context,
            data.parent_header,
            t.x,
            t.fit,
            after,
            r,
        );
    let chain = Chain { runtime, votes };
    let (availability, backing) = choose|
        availability: (T, Seq<CandidateHash>, Seq<SignedAvailabilityBitfield>),
        backing: Result<Backed, DispatchErrorWithPostInfo>,
    |
        {
            &&& #[trigger] availability_processed::<T>(
                chain.runtime,
                t.x.block,
                t.x.checked@,
                t.fit.bitfields@,
                availability.1,
                availability.2,
                availability.0,
            )
            &&& #[trigger] backing_processed::<T>(
                availability.0,
                context,
                t.x.allowed_relay_parents,
                t.fit.backed_candidates@,
                availability.1,
                after.runtime,
                backing,
            )
            &&& backing matches Ok(backed) && holds(
                left,
                unchecked_again(availability.2),
                without_cores(backed.with_core@),
                sets_of(t.x.checked@),
                data.parent_header,
            )
        };
    let steps = choose|s: AvailabilitySteps<T>| #[trigger]
        availability_steps::<T>(
            chain.runtime,
            t.x.block,
            t.x.checked@,
            t.fit.bitfields@,
            availability.1,
            availability.2,
            availability.0,
            s,
        );
    let s = choose|s: Sanitized| #[trigger]
        backing_sanitized::<T>(
            availability.0,
            t.x.allowed_relay_parents,
            t.fit.backed_candidates@,
            availability.1,
            s,
        ) && put_on_cores::<T>(
            availability.0,
            t.x.allowed_relay_parents,
            s.with_core,
            s.read.core_index_enabled(),
            after.runtime,
            backing,
        );
    let u = IncludedTrace {
        runtime,
        available: availability.0,
        steps,
        invalid: availability.1,
        bitfields: availability.2,
        s,
    };
    assert(imported::<T>(t.runtime, t.x.checked, u.runtime));
    u
}

/// An inherent with a parent header that is not that of the parent block is refused,
/// and nothing changes, neither the votes on chain nor the state of the runtime.
pub proof fn wrong_parent_header_is_refused<T: Config>(
    before: Chain<T>,
    now: BlockNumber,
    data: InherentData,
    context: ProcessInherentDataContext,
    after: Chain<T>,
    r: ProcessResult,
)
    requires
        processed::<T>(before, now, data, context, after, r),
        forall|parent_hash: H256, header_hash: H256| #[trigger]
            call_ensures(T::parent_hash, (&before.runtime,), parent_hash)
                && #[trigger] call_ensures(T::header_hash, (&data.parent_header,), header_hash)
                ==> header_hash != parent_hash,
    ensures
        r == Err::<(InherentData, PostDispatchInfo), DispatchErrorWithPostInfo>(
            fail(DispatchError::Inherent(Error::InvalidParentHeader)),
        ),
        after == before,
{
}

/// On a chain that is frozen once the disputes are imported, nothing of an inherent is
/// left but its parent header and these disputes, and nothing is done after their import:
/// no core is freed or occupied, and nothing is included or backed.
pub proof fn frozen_chain_includes_nothing<T: Config>(
    before: Chain<T>,
    now: BlockNumber,
    data: InherentData,
    context: ProcessInherentDataContext,
    after: Chain<T>,
    left: InherentData,
    info: PostDispatchInfo,
)
    requires
        processed::<T>(before, now, data, context, after, Ok((left, info))),
        forall|
            earlier: T,
            checked: Vec<CheckedDisputeStatementSet>,
            runtime: T,
            frozen: bool,
        | #[trigger]
            imported::<T>(earlier, checked, runtime) && #[trigger] call_ensures(
                T::is_frozen,
                (&runtime,),
                frozen,
            ) ==> frozen,
    ensures
        left.bitfields@.len() == 0,
        left.backed_candidates@.len() == 0,
        left.parent_header == data.parent_header,
        exists|parent_hash: H256, prepared_runtime: T, x: Readings| #[trigger]
            prepared::<T>(before.runtime, now, parent_hash, data, prepared_runtime, x)
                && #[trigger] imported::<T>(prepared_runtime, x.checked, after.runtime)
                && left.disputes@ == sets_of(x.checked@) && info.actual_weight == Some(
                x.disputes_weight,
            ),
        after.votes is Some,
        after.votes->0.disputes == set_views(left.disputes@),
        before.votes is Some ==> after.votes->0.backing_validators_per_candidate
            == before.votes->0.backing_validators_per_candidate,
{
    let t = trace::<T>(before, now, data, context, after, left, info);
    assert(set_views(left.disputes@) =~= checked_views(t.x.checked@));
    assert(imported::<T>(t.runtime, t.x.checked, after.runtime));
}

/// Where the disputes of a session stand among its disputed candidates.
proof fn disputes_are_listed(
    checked: Seq<CheckedDisputeStatementSet>,
    session: SessionIndex,
    d: int,
) -> (k: int)
    requires
        0 <= d < checked.len(),
        checked[d].set.session == session,
    ensures
        0 <= k < disputed_in(checked, session).len(),
        disputed_in(checked, session)[k] == checked[d].set.candidate_hash,
    decreases checked.len(),
{
    if d < checked.len() - 1 {
        disputes_are_listed(checked.drop_last(), session, d)
    } else {
        disputed_in(checked, session).len() - 1
    }
}

/// A candidate that a dispute found invalid is never returned: where a dispute of the
/// current session is among those returned, and the disputes module says that it concluded
/// against its candidate, no candidate that is returned has the hash of that candidate.
/// The hash of a candidate depends on its receipt alone.
pub proof fn invalid_candidates_are_never_returned<T: Config>(
    before: Chain<T>,
    now: BlockNumber,
    data: InherentData,
    context: ProcessInherentDataContext,
    after: Chain<T>,
    left: InherentData,
    info: PostDispatchInfo,
    d: int,
    k: int,
    hash: CandidateHash,
)
    requires
        processed::<T>(before, now, data, context, after, Ok((left, info))),
        0 <= d < left.disputes@.len(),
        0 <= k < left.backed_candidates@.len(),
        forall|runtime: T, session: SessionIndex| #[trigger]
            call_ensures(T::session_index, (&runtime,), session) ==> session
                == left.disputes@[d].session,
        forall|runtime: T, invalid: bool| #[trigger]
            call_ensures(
                T::concluded_invalid,
                (&runtime, left.disputes@[d].session, left.disputes@[d].candidate_hash),
                invalid,
            ) ==> invalid,
        forall|candidate: BackedCandidate, h: CandidateHash| #[trigger]
            call_ensures(T::candidate_hash, (&candidate,), h) && candidate.candidate
                == left.backed_candidates@[k].candidate ==> h == hash,
    ensures
        hash != left.disputes@[d].candidate_hash,
{
    let t = trace::<T>(before, now, data, context, after, left, info);
    let u = trace_included::<T>(before, data, context, after, left, info, t);
    let invalid = u.invalid;
    let session = t.x.block.session;
    let disputed = disputed_in(t.x.checked@, session);
    let hash_d = left.disputes@[d].candidate_hash;
    let answers = choose|answers: Seq<bool>| #[trigger]
        disputes_concluded::<T>(u.runtime, session, disputed, answers) && invalid
            == found_invalid(disputed, answers);
    assert(call_ensures(T::session_index, (&t.runtime,), session));
    let at = disputes_are_listed(t.x.checked@, session, d);
    assert(answers[at]);
    found_invalid_lists_each_once(disputed, answers);
    assert(invalid.contains(hash_d));
    refused_candidates_are_never_included::<T>(
        u.available,
        t.x.allowed_relay_parents,
        t.fit.backed_candidates@,
        invalid,
        u.s,
    );
    let candidates = t.fit.backed_candidates@;
    assert(left.backed_candidates@[k] == u.s.with_core@[k].0);
    let i = choose|i: int|
        0 <= i < candidates.len() && (#[trigger] candidates[i]).candidate
            == u.s.with_core@[k].0.candidate && refused::<T>(
            u.available,
            t.x.allowed_relay_parents,
            invalid,
            i as usize,
            candidates[i],
            false,
        );
    let h = choose|h: CandidateHash| #[trigger]
        call_ensures(T::candidate_hash, (&candidates[i],), h) && !invalid.contains(h);
    assert(h == hash);
}

/// Whether a candidate weighs no more than another with the same receipt and at least as
/// many votes.
pub open spec fn votes_have_weight(candidate_weight: spec_fn(BackedCandidate) -> Weight) -> bool {
    forall|a: BackedCandidate, b: BackedCandidate|
        b.candidate == a.candidate && b.validity_votes@.len() <= a.validity_votes@.len()
            ==> (#[trigger] candidate_weight(b)).all_lte(#[trigger] candidate_weight(a))
}

/// The candidates and the bitfields that come through weigh no more than those that
/// fitted in the block.
proof fn returned_weigh_no_more<T: Config>(
    before: Chain<T>,
    data: InherentData,
    context: ProcessInherentDataContext,
    after: Chain<T>,
    left: InherentData,
    info: PostDispatchInfo,
    t: Trace<T>,
    candidate_weight: spec_fn(BackedCandidate) -> Weight,
    bitfield_weight: spec_fn(UncheckedSignedAvailabilityBitfield) -> Weight,
)
    requires
        executed::<T>(
            Chain { runtime: t.runtime, votes: before.votes },
            context,
            data.parent_header,
            t.x,
            t.fit,
            after,
            Ok((left, info)),
        ),
        votes_have_weight(candidate_weight),
    ensures
        total(left.backed_candidates@, candidate_weight).all_lte(
            total(t.fit.backed_candidates@, candidate_weight),
        ),
        total(left.bitfields@, bitfield_weight).all_lte(
            total(t.fit.bitfields@, bitfield_weight),
        ),
{
    if left.backed_candidates@.len() == 0 && left.bitfields@.len() == 0 {
        assert(total(left.backed_candidates@, candidate_weight) == Weight::zero());
        assert(total(left.bitfields@, bitfield_weight) == Weight::zero());
    } else {
        let u = trace_included::<T>(before, data, context, after, left, info, t);
        let candidates = t.fit.backed_candidates@;
        let with_core = views_with_core(u.s.with_core@);
        let account = refusals::<T>(u.available, t.x.allowed_relay_parents, u.invalid);
        let places = sanitized_candidates_stood_among_candidates::<T>(
            u.available,
            candidates,
            t.x.allowed_relay_parents,
            account,
            schedule(u.s.read.paras@),
            u.s.read.core_index_enabled(),
            with_core,
            u.s.votes_dropped,
            u.s.candidates_dropped,
        );
        let returned = left.backed_candidates@;
        assert forall|k: int| 0 <= k < returned.len() implies 0 <= #[trigger] places[k]
            < candidates.len() && candidate_weight(returned[k]).all_lte(
            candidate_weight(candidates[places[k]]),
        ) by {
            assert(with_core[k].0 == returned[k]@);
        }
        total_of_stand_ins(returned, candidates, places, candidate_weight);

        let bitfields = t.fit.bitfields@;
        let counted = left.bitfields@;
        sanitized_bitfields_fit::<T>(
            bitfields,
            bits_of_cores(t.x.block.expected_bits as nat, u.steps.disputed@),
            t.x.block.expected_bits as nat,
            SigningContext {
                parent_hash: t.x.block.parent_hash,
                session_index: t.x.block.session,
            },
            t.x.block.validators@,
            u.bitfields,
        );
        let stood = Seq::new(counted.len(), |k: int| bitfields.index_of(counted[k]));
        assert forall|k: int| 0 <= k < counted.len() implies 0 <= #[trigger] stood[k]
            < bitfields.len() && bitfields[stood[k]] == counted[k] by {
            assert(counted[k] == u.bitfields[k].bitfield);
            assert(bitfields.contains(u.bitfields[k].bitfield));
        }
        assert forall|i: int, j: int| 0 <= i < j < stood.len() implies stood[i] != stood[j] by {
            assert(counted[i].validator_index.0 < counted[j].validator_index.0);
            assert(bitfields[stood[i]] == counted[i]);
            assert(bitfields[stood[j]] == counted[j]);
        }
        total_of_stand_ins(counted, bitfields, stood, bitfield_weight);
    }
}

/// What is returned while a block is built fits when it is weighed anew: the candidates,
/// the bitfields and the disputes that were chosen weigh no more than the block allows.
/// This is so in a runtime that adds weights up, in which fewer votes weigh no more, and
/// whose filter saves weight.
pub proof fn created_inherent_fits_when_weighed_anew<T: Config>(
    before: Chain<T>,
    now: BlockNumber,
    data: InherentData,
    after: Chain<T>,
    left: InherentData,
    info: PostDispatchInfo,
    candidate_weight: spec_fn(BackedCandidate) -> Weight,
    bitfield_weight: spec_fn(UncheckedSignedAvailabilityBitfield) -> Weight,
    cw: Weight,
    bw: Weight,
)
    requires
        adds_up::<T>(candidate_weight, bitfield_weight),
        filter_saves_weight::<T>(),
        votes_have_weight(candidate_weight),
        processed::<T>(
            before,
            now,
            data,
            ProcessInherentDataContext::ProvideInherent,
            after,
            Ok((left, info)),
        ),
        weighs_candidates::<T>(left.backed_candidates@, cw),
        weighs_bitfields::<T>(left.bitfields@, bw),
    ensures
        exists|parent_hash: H256, runtime: T, x: Readings| #[trigger]
            prepared::<T>(before.runtime, now, parent_hash, data, runtime, x) && left.disputes@
                == sets_of(x.checked@) && is_max_block_weight::<T>(x.max_block_weight)
                && cw.saturating_add(bw).saturating_add(x.disputes_weight).all_lte(
                x.max_block_weight,
            ),
{
    let context = ProcessInherentDataContext::ProvideInherent;
    let t = trace::<T>(before, now, data, context, after, left, info);
    chosen_disputes_stay_within::<T>(
        t.runtime,
        data.disputes,
        t.x.config.dispute_post_conclusion_acceptance_period,
        t.x.max_block_weight,
        t.x.checked@,
        t.x.disputes_weight,
    );
    returned_fit::<T>(
        before,
        data,
        after,
        left,
        info,
        t,
        candidate_weight,
        bitfield_weight,
        cw,
        bw,
    );
}

/// The candidates and the bitfields that are returned while a block is built, weighed
/// anew, fit in the block beside the disputes.
proof fn returned_fit<T: Config>(
    before: Chain<T>,
    data: InherentData,
    after: Chain<T>,
    left: InherentData,
    info: PostDispatchInfo,
    t: Trace<T>,
    candidate_weight: spec_fn(BackedCandidate) -> Weight,
    bitfield_weight: spec_fn(UncheckedSignedAvailabilityBitfield) -> Weight,
    cw: Weight,
    bw: Weight,
)
    requires
        adds_up::<T>(candidate_weight, bitfield_weight),
        votes_have_weight(candidate_weight),
        fitted::<T>(
            ProcessInherentDataContext::ProvideInherent,
            data.backed_candidates@,
            data.bitfields@,
            t.x.all_weight_before,
            t.x.max_block_weight,
            t.x.disputes_weight,
            t.x.entropy,
            Ok(t.fit),
        ),
        executed::<T>(
            Chain { runtime: t.runtime, votes: before.votes },
            ProcessInherentDataContext::ProvideInherent,
            data.parent_header,
            t.x,
            t.fit,
            after,
            Ok((left, info)),
        ),
        t.x.disputes_weight.all_lte(t.x.max_block_weight),
        weighs_candidates::<T>(left.backed_candidates@, cw),
        weighs_bitfields::<T>(left.bitfields@, bw),
    ensures
        cw.saturating_add(bw).saturating_add(t.x.disputes_weight).all_lte(t.x.max_block_weight),
{
    let context = ProcessInherentDataContext::ProvideInherent;
    assert(data.backed_candidates.len() <= usize::MAX);
    assert(data.bitfields.len() <= usize::MAX);
    fitted_weight_adds_up::<T>(
        data.backed_candidates@,
        data.bitfields@,
        t.x.all_weight_before,
        t.x.max_block_weight,
        t.x.disputes_weight,
        t.x.entropy,
        t.fit,
        candidate_weight,
        bitfield_weight,
    );
    fitted_weight_stays_within::<T>(
        context,
        data.backed_candidates@,
        data.bitfields@,
        t.x.all_weight_before,
        t.x.max_block_weight,
        t.x.disputes_weight,
        t.x.entropy,
        t.fit,
    );
    returned_weigh_no_more::<T>(
        before,
        data,
        context,
        after,
        left,
        info,
        t,
        candidate_weight,
        bitfield_weight,
    );
}

/// An inherent that is created while a block is built is not overweight when it is
/// entered: weighed as entering weighs it, candidates, bitfields and disputes together, it
/// weighs no more than the block allows, so that it passes the check of its weight. This
/// is so in a runtime that adds weights up, in which fewer votes weigh no more, whose
/// filter makes no statement set heavier, and whose limit stays the same.
pub proof fn created_inherent_is_not_overweight<T: Config>(
    before: Chain<T>,
    now: BlockNumber,
    data: InherentData,
    after: Chain<T>,
    left: InherentData,
    candidate_weight: spec_fn(BackedCandidate) -> Weight,
    bitfield_weight: spec_fn(UncheckedSignedAvailabilityBitfield) -> Weight,
    set_weight: spec_fn(DisputeStatementSet) -> Weight,
    limit: Weight,
    weight: Weight,
)
    requires
        adds_up::<T>(candidate_weight, bitfield_weight),
        disputes_add_up::<T>(set_weight),
        votes_have_weight(candidate_weight),
        forall|runtime: T, period: BlockNumber|
            lightens(#[trigger] filter_of::<T>(runtime, period), set_weight),
        forall|other: Weight| #[trigger] is_max_block_weight::<T>(other) ==> other == limit,
        created::<T>(before, now, Ok(Some(data)), after, Some(left)),
        is_total_weight::<T>(
            left.backed_candidates@,
            left.bitfields@,
            left.disputes@,
            weight,
        ),
    ensures
        weight.all_lte(limit),
        forall|disputes_weight: Weight, entropy: [u8; 32], r: Result<Fitted, Error>| #[trigger]
            fitted::<T>(
                ProcessInherentDataContext::Enter,
                left.backed_candidates@,
                left.bitfields@,
                weight,
                limit,
                disputes_weight,
                entropy,
                r,
            ) ==> r is Ok,
{
    let context = ProcessInherentDataContext::ProvideInherent;
    let full = choose|full: ProcessResult| #[trigger]
        processed::<T>(before, now, data, context, after, full) && full is Ok && full->Ok_0.0
            == left;
    let info = full->Ok_0.1;
    let t = trace::<T>(before, now, data, context, after, left, info);
    let filter = filter_of::<T>(
        t.runtime,
        t.x.config.dispute_post_conclusion_acceptance_period,
    );
    let sorted = choose|sorted: Vec<DisputeStatementSet>| #[trigger]
        call_ensures(
            T::deduplicate_and_sort_dispute_data,
            (&t.runtime, data.disputes),
            sorted,
        ) && limited_disputes::<T>(
            sorted@,
            filter,
            t.x.max_block_weight,
            t.x.checked@,
            t.x.disputes_weight,
        );
    imported_disputes_weigh_no_more::<T>(
        sorted@,
        filter,
        t.x.max_block_weight,
        t.x.checked@,
        t.x.disputes_weight,
        set_weight,
    );
    let (cw, bw, dw) = choose|cw: Weight, bw: Weight, dw: Weight| #[trigger]
        weighs_candidates::<T>(left.backed_candidates@, cw) && #[trigger] weighs_bitfields::<T>(
            left.bitfields@,
            bw,
        ) && #[trigger] weighs_disputes::<T>(left.disputes@, dw) && weight == cw.saturating_add(
            bw,
        ).saturating_add(dw);
    returned_fit::<T>(
        before,
        data,
        after,
        left,
        info,
        t,
        candidate_weight,
        bitfield_weight,
        cw,
        bw,
    );
    assert(is_max_block_weight::<T>(t.x.max_block_weight));
}

/// Once an inherent was entered from nobody, whether it was accepted or not, no other
/// inherent is accepted before the block ends, nor does another one change anything;
/// and the block can end.
pub proof fn one_inherent_per_block<T: Config>(
    runtime: T,
    before: Pallet,
    now: BlockNumber,
    data: InherentData,
    runtime_between: T,
    between: Pallet,
    first: Result<PostDispatchInfo, DispatchErrorWithPostInfo>,
    origin: Origin,
    later_data: InherentData,
    runtime_after: T,
    after: Pallet,
    second: Result<PostDispatchInfo, DispatchErrorWithPostInfo>,
)
    requires
        entered::<T>(
            runtime,
            before,
            now,
            Origin::Unsigned,
            data,
            runtime_between,
            between,
            first,
        ),
        entered::<T>(
            runtime_between,
            between,
            now,
            origin,
            later_data,
            runtime_after,
            after,
            second,
        ),
    ensures
        second is Err,
        after == between,
        runtime_after == runtime_between,
        after.included,
{
}

} // verus!
