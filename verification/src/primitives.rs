//! The data that an inherent is made of.

use crate::bits::BitString;
use crate::candidate::BackedCandidate;
use vstd::prelude::*;

verus! {

/// The number of a session.
pub type SessionIndex = u32;

/// The height of a relay chain block.
pub type BlockNumber = u32;

/// The index of an availability core.
#[derive(Clone, Copy, Debug, PartialEq, Eq, PartialOrd, Ord, Hash, Structural)]
pub struct CoreIndex(pub u32);

/// The identifier of a parachain.
#[derive(Clone, Copy, Debug, PartialEq, Eq, PartialOrd, Ord, Hash, Structural)]
pub struct ParaId(pub u32);

/// The index of a validator in the active set.
#[derive(Clone, Copy, Debug, PartialEq, Eq, PartialOrd, Ord, Hash, Structural)]
pub struct ValidatorIndex(pub u32);

/// The index of a backing group.
#[derive(Clone, Copy, Debug, PartialEq, Eq, PartialOrd, Ord, Hash, Structural)]
pub struct GroupIndex(pub u32);

/// A block hash, a header hash or a state root.
#[derive(Clone, Copy, Debug, PartialEq, Eq)]
pub struct H256(pub [u8; 32]);

/// The hash of a candidate.
#[derive(Clone, Copy, Debug, PartialEq, Eq)]
pub struct CandidateHash(pub H256);

/// The public key of a validator.
#[derive(Clone, Copy, Debug, PartialEq, Eq)]
pub struct ValidatorId(pub [u8; 32]);

/// A validator's signature.
#[derive(Clone, Copy, Debug, PartialEq, Eq)]
pub struct ValidatorSignature(pub [u8; 64]);

/// A validator's vote for the validity of a candidate.
#[derive(Clone, Copy, Debug, PartialEq, Eq)]
pub enum ValidityAttestation {
    /// The vote of the validator that seconded the candidate.
    Implicit(ValidatorSignature),
    /// An explicit vote for validity.
    Explicit(ValidatorSignature),
}

impl H256 {
    /// Whether two hashes are the same.
    pub fn same(&self, other: &H256) -> (b: bool)
        ensures
            b == (*self == *other),
    {
        let mut i: usize = 0;
        while i < 32
            invariant
                i <= 32,
                forall|j: int| 0 <= j < i ==> self.0[j] == other.0[j],
            decreases 32 - i,
        {
            if self.0[i] != other.0[i] {
                return false;
            }
            i = i + 1;
        }
        assert(self.0 =~= other.0);
        true
    }
}

impl CandidateHash {
    /// Whether two candidate hashes are the same.
    pub fn same(&self, other: &CandidateHash) -> (b: bool)
        ensures
            b == (*self == *other),
    {
        self.0.same(&other.0)
    }
}

/// Whether a list of candidate hashes holds a given one.
pub fn contains_hash(hashes: &Vec<CandidateHash>, hash: &CandidateHash) -> (b: bool)
    ensures
        b == hashes@.contains(*hash),
{
    let mut i: usize = 0;
    while i < hashes.len()
        invariant
            i <= hashes@.len(),
            forall|j: int| 0 <= j < i ==> hashes@[j] != *hash,
        decreases hashes@.len() - i,
    {
        if hashes[i].same(hash) {
            return true;
        }
        i = i + 1;
    }
    false
}

/// A bitfield by which a validator says of which cores it holds the data, before
/// its signature was looked at.
#[derive(Clone, Debug, PartialEq, Eq)]
pub struct UncheckedSignedAvailabilityBitfield {
    /// One bit per core.
    pub payload: BitString,
    /// The validator that claims to have signed.
    pub validator_index: ValidatorIndex,
    /// The signature.
    pub signature: ValidatorSignature,
}

/// A bitfield whose signature was found valid.
#[derive(Clone, Debug, PartialEq, Eq)]
pub struct SignedAvailabilityBitfield {
    /// The bitfield.
    pub bitfield: UncheckedSignedAvailabilityBitfield,
}

/// What a bitfield's signature is bound to besides its payload.
#[derive(Clone, Copy, Debug, PartialEq, Eq)]
pub struct SigningContext {
    /// The parent of the block that carries the bitfield.
    pub parent_hash: H256,
    /// The session of that block.
    pub session_index: SessionIndex,
}

/// Votes in a dispute over one candidate.
#[derive(Debug, PartialEq, Eq)]
pub struct DisputeStatementSet {
    /// The disputed candidate.
    pub candidate_hash: CandidateHash,
    /// The session of the candidate.
    pub session: SessionIndex,
    /// The statements, encoded.
    pub statements: Vec<u8>,
}

/// What a [`DisputeStatementSet`] holds.
pub struct DisputeStatementSetView {
    pub candidate_hash: CandidateHash,
    pub session: SessionIndex,
    pub statements: Seq<u8>,
}

impl View for DisputeStatementSet {
    type V = DisputeStatementSetView;

    open spec fn view(&self) -> DisputeStatementSetView {
        DisputeStatementSetView {
            candidate_hash: self.candidate_hash,
            session: self.session,
            statements: self.statements@,
        }
    }
}

impl Clone for DisputeStatementSet {
    fn clone(&self) -> (r: Self)
        ensures
            r@ == self@,
    {
        let statements = self.statements.clone();
        assert(statements@ =~= self.statements@);
        DisputeStatementSet {
            candidate_hash: self.candidate_hash,
            session: self.session,
            statements,
        }
    }
}

/// A statement set that passed the dispute filter.
#[derive(Clone, Debug, PartialEq, Eq)]
pub struct CheckedDisputeStatementSet {
    /// The statements that the filter kept.
    pub set: DisputeStatementSet,
}

/// The contents of a list of statement sets.
pub open spec fn set_views(sets: Seq<DisputeStatementSet>) -> Seq<DisputeStatementSetView> {
    sets.map_values(|s: DisputeStatementSet| s@)
}

/// The contents of a list of checked statement sets.
pub open spec fn checked_views(sets: Seq<CheckedDisputeStatementSet>) -> Seq<
    DisputeStatementSetView,
> {
    sets.map_values(|s: CheckedDisputeStatementSet| s.set@)
}

/// A relay chain header.
#[derive(Clone, Debug, PartialEq, Eq)]
pub struct Header {
    /// The state root of the block.
    pub state_root: H256,
    /// The rest of the header, encoded.
    pub encoded: Vec<u8>,
}

/// The contents of an inherent: what a block author has to say about parachains.
#[derive(Clone, Debug, PartialEq, Eq)]
pub struct InherentData {
    /// Availability bitfields of validators.
    pub bitfields: Vec<UncheckedSignedAvailabilityBitfield>,
    /// Backed candidates. Those of one parachain that build on each other stand
    /// next to each other, in the order of their chain.
    pub backed_candidates: Vec<BackedCandidate>,
    /// Dispute votes.
    pub disputes: Vec<DisputeStatementSet>,
    /// The header of the parent block.
    pub parent_header: Header,
}

/// A candidate receipt, encoded.
#[derive(Clone, Debug, PartialEq, Eq)]
pub struct CandidateReceipt {
    pub encoded: Vec<u8>,
}

/// Who backed a candidate, and how.
#[derive(Clone, Debug, PartialEq, Eq)]
pub struct BackingRecord {
    pub receipt: CandidateReceipt,
    pub votes: Vec<(ValidatorIndex, ValidityAttestation)>,
}

/// Why a core was freed.
#[derive(Clone, Copy, Debug, PartialEq, Eq, Structural)]
pub enum FreedReason {
    /// Its candidate became available, or was found invalid in a dispute.
    Concluded,
    /// Its candidate did not become available in time.
    TimedOut,
}

/// What views of statement sets hold: every field, of each set in its place.
pub proof fn views_of_sets_hold_every_field(
    sets: Seq<DisputeStatementSet>,
    checked: Seq<CheckedDisputeStatementSet>,
    k: int,
)
    ensures
        set_views(sets).len() == sets.len(),
        checked_views(checked).len() == checked.len(),
        0 <= k < sets.len() ==> set_views(sets)[k].candidate_hash == sets[k].candidate_hash
            && set_views(sets)[k].session == sets[k].session && set_views(sets)[k].statements
            == sets[k].statements@,
        0 <= k < checked.len() ==> checked_views(checked)[k].candidate_hash
            == checked[k].set.candidate_hash && checked_views(checked)[k].session
            == checked[k].set.session && checked_views(checked)[k].statements
            == checked[k].set.statements@,
{
}

} // verus!
