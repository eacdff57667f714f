//! Backed candidates, and the core index that may hide in their validator indices.

use crate::bits::{max_bits, BitString};
use crate::primitives::{CoreIndex, ParaId, ValidityAttestation, H256};
use vstd::prelude::*;

verus! {

/// A parachain candidate together with what its collator committed to.
#[derive(Clone, Debug, PartialEq, Eq)]
pub struct CommittedCandidateReceipt {
    /// The parachain that the candidate belongs to.
    pub para_id: ParaId,
    /// The relay chain block that the candidate was built on.
    pub relay_parent: H256,
    /// New validation code, where the candidate carries a code upgrade.
    pub new_validation_code: Option<Vec<u8>>,
    /// The rest of the receipt, encoded.
    pub encoded: Vec<u8>,
}

/// A candidate with the votes that back it.
#[derive(Clone, Debug, PartialEq, Eq)]
pub struct BackedCandidate {
    /// The candidate.
    pub candidate: CommittedCandidateReceipt,
    /// The votes: one for each set bit among the validator indices, in order.
    pub validity_votes: Vec<ValidityAttestation>,
    /// Which validators of the backing group voted. Where elastic scaling is
    /// enabled, the last eight bits may hold a core index instead.
    pub validator_indices: BitString,
}

/// What a [`BackedCandidate`] holds.
pub struct BackedCandidateView {
    pub candidate: CommittedCandidateReceipt,
    pub validity_votes: Seq<ValidityAttestation>,
    pub validator_indices: Seq<bool>,
}

impl View for BackedCandidate {
    type V = BackedCandidateView;

    open spec fn view(&self) -> BackedCandidateView {
        BackedCandidateView {
            candidate: self.candidate,
            validity_votes: self.validity_votes@,
            validator_indices: self.validator_indices@,
        }
    }
}

/// The number that a string of bits spells, lowest bit first.
pub open spec fn number_of_bits(bits: Seq<bool>) -> nat
    decreases bits.len(),
{
    if bits.len() == 0 {
        0
    } else {
        (if bits.first() {
            1nat
        } else {
            0
        }) + 2 * number_of_bits(bits.drop_first())
    }
}

/// The lowest `k` bits of a number, lowest bit first.
pub open spec fn low_bits(n: nat, k: nat) -> Seq<bool>
    decreases k,
{
    if k == 0 {
        Seq::empty()
    } else {
        seq![n % 2 == 1] + low_bits(n / 2, (k - 1) as nat)
    }
}

impl BackedCandidateView {
    /// Whether the validator indices end in a core index.
    pub open spec fn has_core_index(self, core_index_enabled: bool) -> bool {
        core_index_enabled && self.validator_indices.len() > 8
    }

    /// The validator indices without the core index.
    pub open spec fn group_indices(self, core_index_enabled: bool) -> Seq<bool> {
        if self.has_core_index(core_index_enabled) {
            self.validator_indices.take(self.validator_indices.len() - 8)
        } else {
            self.validator_indices
        }
    }

    /// The core index that the block author put behind the validator indices.
    pub open spec fn core_index(self, core_index_enabled: bool) -> Option<CoreIndex> {
        if self.has_core_index(core_index_enabled) {
            Some(
                CoreIndex(
                    number_of_bits(
                        self.validator_indices.skip(self.validator_indices.len() - 8),
                    ) as u32,
                ),
            )
        } else {
            None
        }
    }
}

/// Validator indices with a core index behind them, if there is one.
pub open spec fn with_core_index(indices: Seq<bool>, core_index: Option<CoreIndex>) -> Seq<bool> {
    match core_index {
        Some(core) => indices + low_bits(core.0 as nat, 8),
        None => indices,
    }
}

/// Powers of two.
spec fn power_of_two(k: nat) -> nat
    decreases k,
{
    if k == 0 {
        1
    } else {
        2 * power_of_two((k - 1) as nat)
    }
}

proof fn number_of_bits_bound(bits: Seq<bool>)
    ensures
        number_of_bits(bits) < power_of_two(bits.len()),
    decreases bits.len(),
{
    if bits.len() > 0 {
        number_of_bits_bound(bits.drop_first());
    }
}

/// As many bits as were asked for.
pub proof fn low_bits_len(n: nat, k: nat)
    ensures
        low_bits(n, k).len() == k,
    decreases k,
{
    if k > 0 {
        low_bits_len(n / 2, (k - 1) as nat);
    }
}

impl BackedCandidate {
    /// Splits the validator indices into those of the backing group and the core
    /// index behind them.
    pub fn validator_indices_and_core_index(&self, core_index_enabled: bool) -> (r: (
        BitString,
        Option<CoreIndex>,
    ))
        ensures
            r.0@ == self@.group_indices(core_index_enabled),
            r.1 == self@.core_index(core_index_enabled),
    {
        let len = self.validator_indices.len();
        if core_index_enabled && len > 8 {
            let offset: usize = len - 8;
            let ghost bits = self.validator_indices@;
            let ghost tail = bits.skip(offset as int);
            let mut core: u32 = 0;
            let mut i: usize = 8;
            while i > 0
                invariant
                    i <= 8,
                    offset == len - 8,
                    len == self.validator_indices@.len(),
                    tail == self.validator_indices@.skip(offset as int),
                    core == number_of_bits(tail.skip(i as int)),
                decreases i,
            {
                i = i - 1;
                proof {
                    number_of_bits_bound(tail.skip(i as int + 1));
                    reveal_with_fuel(power_of_two, 9);
                    assert(tail.skip(i as int).drop_first() =~= tail.skip(i as int + 1));
                }
                let bit: u32 = if self.validator_indices.get(offset + i) {
                    1
                } else {
                    0
                };
                core = bit + 2 * core;
            }
            assert(tail.skip(0) =~= tail);
            (self.validator_indices.prefix(offset), Some(CoreIndex(core)))
        } else {
            (self.validator_indices.clone(), None)
        }
    }

    /// Replaces the validator indices, and puts a core index behind them if there
    /// is one. Only the lowest eight bits of the core index are kept.
    pub fn set_validator_indices_and_core_index(
        &mut self,
        new_indices: BitString,
        core_index: Option<CoreIndex>,
    )
        requires
            core_index is Some ==> new_indices@.len() + 8 <= max_bits(),
        ensures
            final(self)@ == (BackedCandidateView {
                validator_indices: with_core_index(new_indices@, core_index),
                ..old(self)@
            }),
    {
        let ghost given = new_indices@;
        let mut indices = new_indices;
        match core_index {
            Some(core) => {
                let mut rest: u32 = core.0;
                let mut k: usize = 0;
                while k < 8
                    invariant
                        k <= 8,
                        indices@.len() == given.len() + k,
                        given.len() + 8 <= max_bits(),
                        given + low_bits(core.0 as nat, 8) =~= indices@ + low_bits(
                            rest as nat,
                            (8 - k) as nat,
                        ),
                    decreases 8 - k,
                {
                    indices.push(rest % 2 == 1);
                    rest = rest / 2;
                    k = k + 1;
                }
                assert(indices@ + low_bits(rest as nat, 0) =~= indices@);
            },
            None => {},
        }
        self.validator_indices = indices;
    }
}

/// A core index that fits in a byte survives being put behind a group's validator
/// indices, and so do the indices: reading both back gives what was put in.
pub proof fn core_index_survives_injection(
    candidate: BackedCandidateView,
    indices: Seq<bool>,
    core: CoreIndex,
)
    requires
        indices.len() > 0,
        core.0 < 256,
    ensures
        ({
            let injected = BackedCandidateView {
                validator_indices: with_core_index(indices, Some(core)),
                ..candidate
            };
            &&& injected.group_indices(true) == indices
            &&& injected.core_index(true) == Some(core)
        }),
{
    low_bits_len(core.0 as nat, 8);
    let all = with_core_index(indices, Some(core));
    assert(all.take(all.len() - 8) =~= indices);
    assert(all.skip(all.len() - 8) =~= low_bits(core.0 as nat, 8));
    assert(number_of_bits(low_bits(core.0 as nat, 8)) == core.0) by {
        reveal_with_fuel(power_of_two, 9);
        bits_spell_number(core.0 as nat, 8);
    }
}

/// A core index behind validator indices fits in a byte.
pub proof fn core_index_is_a_byte(candidate: BackedCandidateView, core_index_enabled: bool)
    ensures
        candidate.core_index(core_index_enabled) matches Some(core) ==> core.0 < 256,
{
    if candidate.has_core_index(core_index_enabled) {
        let at = candidate.validator_indices.len() - 8;
        number_of_bits_bound(candidate.validator_indices.skip(at));
        reveal_with_fuel(power_of_two, 9);
    }
}

/// Putting the core index of a candidate back behind its validator indices gives
/// what was there.
pub proof fn core_index_rejoins(candidate: BackedCandidateView, core_index_enabled: bool)
    ensures
        with_core_index(
            candidate.group_indices(core_index_enabled),
            candidate.core_index(core_index_enabled),
        ) == candidate.validator_indices,
{
    if candidate.has_core_index(core_index_enabled) {
        let at = candidate.validator_indices.len() - 8;
        let tail = candidate.validator_indices.skip(at);
        core_index_is_a_byte(candidate, core_index_enabled);
        number_of_bits_bound(tail);
        reveal_with_fuel(power_of_two, 9);
        number_spells_bits(tail);
        assert(candidate.validator_indices.take(at) + tail =~= candidate.validator_indices);
    }
}

proof fn number_spells_bits(bits: Seq<bool>)
    ensures
        low_bits(number_of_bits(bits), bits.len()) == bits,
    decreases bits.len(),
{
    if bits.len() > 0 {
        number_spells_bits(bits.drop_first());
        assert(number_of_bits(bits) / 2 == number_of_bits(bits.drop_first()));
        assert(low_bits(number_of_bits(bits), bits.len()) =~= bits);
    } else {
        assert(low_bits(0, 0) =~= bits);
    }
}

proof fn bits_spell_number(n: nat, k: nat)
    requires
        n < power_of_two(k),
    ensures
        number_of_bits(low_bits(n, k)) == n,
    decreases k,
{
    if k > 0 {
        bits_spell_number(n / 2, (k - 1) as nat);
        assert(low_bits(n, k).drop_first() =~= low_bits(n / 2, (k - 1) as nat));
    }
}

/// What a bit adds to a number.
pub open spec fn worth(bit: bool, n: int) -> int {
    if bit {
        n
    } else {
        0
    }
}

/// Where a core index is read from, and what it is: with elastic scaling, of more than
/// eight bits the last eight are a core index, lowest bit first, and the others belong to
/// the group; otherwise all bits belong to the group.
pub proof fn core_index_is_in_the_last_eight_bits(
    candidate: BackedCandidateView,
    core_index_enabled: bool,
)
    ensures
        ({
            let bits = candidate.validator_indices;
            let n = bits.len() as int;
            if core_index_enabled && n > 8 {
                &&& candidate.group_indices(core_index_enabled) == bits.subrange(0, n - 8)
                &&& candidate.core_index(core_index_enabled) matches Some(core) && core.0 == worth(
                    bits[n - 8],
                    1,
                ) + worth(bits[n - 7], 2) + worth(bits[n - 6], 4) + worth(bits[n - 5], 8) + worth(
                    bits[n - 4],
                    16,
                ) + worth(bits[n - 3], 32) + worth(bits[n - 2], 64) + worth(bits[n - 1], 128)
            } else {
                &&& candidate.group_indices(core_index_enabled) == bits
                &&& candidate.core_index(core_index_enabled) is None
            }
        }),
{
    let bits = candidate.validator_indices;
    let n = bits.len() as int;
    if core_index_enabled && n > 8 {
        let tail = bits.skip(n - 8);
        reveal_with_fuel(number_of_bits, 9);
        assert(tail.drop_first() =~= bits.skip(n - 7));
        assert(bits.skip(n - 7).drop_first() =~= bits.skip(n - 6));
        assert(bits.skip(n - 6).drop_first() =~= bits.skip(n - 5));
        assert(bits.skip(n - 5).drop_first() =~= bits.skip(n - 4));
        assert(bits.skip(n - 4).drop_first() =~= bits.skip(n - 3));
        assert(bits.skip(n - 3).drop_first() =~= bits.skip(n - 2));
        assert(bits.skip(n - 2).drop_first() =~= bits.skip(n - 1));
        assert(bits.skip(n - 1).drop_first() =~= bits.skip(n));
        assert(bits.take(n - 8) =~= bits.subrange(0, n - 8));
    }
}

/// Where a core index is put: behind the group's bits, as eight bits, lowest bit first;
/// nothing is put there where there is none.
pub proof fn core_index_goes_behind_the_group(indices: Seq<bool>, core: CoreIndex, k: int)
    ensures
        with_core_index(indices, None) == indices,
        with_core_index(indices, Some(core)).len() == indices.len() + 8,
        0 <= k < indices.len() ==> with_core_index(indices, Some(core))[k] == indices[k],
        with_core_index(indices, Some(core))[indices.len() as int] == (core.0 % 2 == 1),
        with_core_index(indices, Some(core))[indices.len() as int + 1] == (core.0 / 2 % 2 == 1),
        with_core_index(indices, Some(core))[indices.len() as int + 2] == (core.0 / 4 % 2 == 1),
        with_core_index(indices, Some(core))[indices.len() as int + 3] == (core.0 / 8 % 2 == 1),
        with_core_index(indices, Some(core))[indices.len() as int + 4] == (core.0 / 16 % 2 == 1),
        with_core_index(indices, Some(core))[indices.len() as int + 5] == (core.0 / 32 % 2 == 1),
        with_core_index(indices, Some(core))[indices.len() as int + 6] == (core.0 / 64 % 2 == 1),
        with_core_index(indices, Some(core))[indices.len() as int + 7] == (core.0 / 128 % 2 == 1),
{
    let n = core.0 as nat;
    low_bits_len(n, 8);
    reveal_with_fuel(low_bits, 9);
    low_bits_len(n / 2, 7);
    low_bits_len(n / 2 / 2, 6);
    low_bits_len(n / 2 / 2 / 2, 5);
    low_bits_len(n / 2 / 2 / 2 / 2, 4);
    assert(n / 2 / 2 == n / 4);
    assert(n / 4 / 2 == n / 8);
    assert(n / 8 / 2 == n / 16);
    assert(n / 16 / 2 == n / 32);
    assert(n / 32 / 2 == n / 64);
    assert(n / 64 / 2 == n / 128);
}

/// What the view of a candidate holds: its receipt, its votes and its bits.
pub proof fn views_hold_receipt_votes_and_bits(candidate: BackedCandidate)
    ensures
        candidate@.candidate == candidate.candidate,
        candidate@.validity_votes == candidate.validity_votes@,
        candidate@.validator_indices == candidate.validator_indices@,
{
}

} // verus!
