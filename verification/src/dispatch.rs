//! How calls into a runtime end.

use crate::weight::Weight;
use vstd::prelude::*;

verus! {

/// What can be wrong with an inherent.
#[derive(Clone, Copy, Debug, PartialEq, Eq, Structural)]
pub enum Error {
    /// Inclusion inherent called more than once per block.
    TooManyInclusionInherents,
    /// The hash of the submitted parent header does not correspond to the saved block
    /// hash of the parent.
    InvalidParentHeader,
    /// Disputed candidate that was concluded invalid.
    CandidateConcludedInvalid,
    /// The data given to the inherent would result in an overweight block.
    InherentOverweight,
    /// The ordering of dispute statements was invalid.
    DisputeStatementsUnsortedOrDuplicates,
    /// A dispute statement was invalid.
    DisputeInvalid,
    /// A candidate was backed by a disabled validator.
    BackedByDisabled,
    /// A candidate was backed even though its parachain was not scheduled.
    BackedOnUnscheduledCore,
    /// Too many candidates supplied.
    UnscheduledCandidate,
}

/// An error of the inclusion module, by its number.
#[derive(Clone, Copy, Debug, PartialEq, Eq, Structural)]
pub struct InclusionError(pub u8);

/// Why a call failed.
#[derive(Clone, Copy, Debug, PartialEq, Eq, Structural)]
pub enum DispatchError {
    /// The call came from the wrong origin.
    BadOrigin,
    /// The inherent was refused.
    Inherent(Error),
    /// The inclusion module refused the candidates.
    Inclusion(InclusionError),
}

/// Whether the sender of a call pays for it.
#[derive(Clone, Copy, Debug, PartialEq, Eq, Structural)]
pub enum Pays {
    Yes,
    No,
}

/// What is known after a call of how much it cost.
#[derive(Clone, Copy, Debug, PartialEq, Eq, Structural)]
pub struct PostDispatchInfo {
    /// The weight that the call used, where that differs from what was announced.
    pub actual_weight: Option<Weight>,
    /// Whether the sender pays.
    pub pays_fee: Pays,
}

impl PostDispatchInfo {
    pub open spec fn spec_of_weight(actual_weight: Option<Weight>) -> PostDispatchInfo {
        PostDispatchInfo { actual_weight, pays_fee: Pays::Yes }
    }

    /// The sender pays for the given weight, or for what was announced.
    #[verifier::when_used_as_spec(spec_of_weight)]
    pub fn of_weight(actual_weight: Option<Weight>) -> (r: PostDispatchInfo)
        ensures
            r == PostDispatchInfo::spec_of_weight(actual_weight),
    {
        PostDispatchInfo { actual_weight, pays_fee: Pays::Yes }
    }
}

/// A failed call, and how much it cost all the same.
#[derive(Clone, Copy, Debug, PartialEq, Eq, Structural)]
pub struct DispatchErrorWithPostInfo {
    pub post_info: PostDispatchInfo,
    pub error: DispatchError,
}

/// The failure of a call for which the sender pays what was announced.
pub open spec fn failure(error: DispatchError) -> DispatchErrorWithPostInfo {
    DispatchErrorWithPostInfo { post_info: PostDispatchInfo::of_weight(None), error }
}

/// Fails a call for which the sender pays what was announced.
#[verifier::when_used_as_spec(failure)]
pub fn fail(error: DispatchError) -> (r: DispatchErrorWithPostInfo)
    ensures
        r == failure(error),
{
    DispatchErrorWithPostInfo { post_info: PostDispatchInfo::of_weight(None), error }
}

/// Where a call came from.
#[derive(Clone, Copy, Debug, PartialEq, Eq)]
pub enum Origin {
    /// Nobody: the block itself, as for inherents.
    Unsigned,
    /// The root of the chain.
    Root,
    /// An account.
    Signed([u8; 32]),
}

/// What is known after a call: the weight that was given, and that the sender pays. A call
/// that fails before its weight is known has none.
pub proof fn senders_pay(actual_weight: Option<Weight>, error: DispatchError)
    ensures
        PostDispatchInfo::of_weight(actual_weight).actual_weight == actual_weight,
        PostDispatchInfo::of_weight(actual_weight).pays_fee == Pays::Yes,
        fail(error).error == error,
        fail(error).post_info.actual_weight is None,
        fail(error).post_info.pays_fee == Pays::Yes,
{
}

} // verus!
