//! Availability bitfields: which of them count.

use crate::bits::{clear_bits, max_bits, BitString};
use crate::primitives::{
    CoreIndex, SessionIndex, SignedAvailabilityBitfield, SigningContext,
    UncheckedSignedAvailabilityBitfield, ValidatorId, ValidatorIndex, H256,
};
use crate::runtime::Inclusion;
use vstd::prelude::*;

verus! {

/// A bitfield of concluded disputes: a bit is set where the candidate on the core
/// with the index of the bit was found invalid.
#[derive(Clone, Debug, Default, PartialEq, Eq)]
pub struct DisputedBitfield(pub BitString);

impl From<BitString> for DisputedBitfield {
    fn from(inner: BitString) -> (r: Self) {
        DisputedBitfield(inner)
    }
}

impl vstd::std_specs::convert::FromSpecImpl<BitString> for DisputedBitfield {
    open spec fn obeys_from_spec() -> bool {
        true
    }

    open spec fn from_spec(inner: BitString) -> Self {
        DisputedBitfield(inner)
    }
}

impl DisputedBitfield {
    /// A bitfield of `n` bits, none of which is set.
    pub fn zeros(n: usize) -> (r: DisputedBitfield)
        requires
            n <= max_bits(),
        ensures
            r.0@ == clear_bits(n as nat),
    {
        let bits = BitString::repeat(false, n);
        assert(bits@ =~= clear_bits(n as nat));
        DisputedBitfield::from(bits)
    }
}

/// One bit per core, set for the given cores. Cores past the end are left out.
pub open spec fn bits_of_cores(expected_bits: nat, cores: Seq<CoreIndex>) -> Seq<bool> {
    Seq::new(
        expected_bits,
        |i: int| exists|k: int| 0 <= k < cores.len() && (#[trigger] cores[k]).0 == i,
    )
}

/// Derives a bitfield from the cores that were freed because of a dispute.
pub fn create_disputed_bitfield(
    expected_bits: usize,
    freed_cores: &Vec<CoreIndex>,
) -> (r: DisputedBitfield)
    requires
        expected_bits <= max_bits(),
    ensures
        r.0@ == bits_of_cores(expected_bits as nat, freed_cores@),
        r.0@.len() == expected_bits,
        forall|k: int|
            0 <= k < freed_cores@.len() && (#[trigger] freed_cores@[k]).0 < expected_bits
                ==> r.0@[freed_cores@[k].0 as int],
        forall|i: int|
            0 <= i < expected_bits && #[trigger] r.0@[i] ==> exists|k: int|
                0 <= k < freed_cores@.len() && (#[trigger] freed_cores@[k]).0 == i,
{
    let mut bits = BitString::repeat(false, expected_bits);
    let mut k: usize = 0;
    assert(bits@ =~= bits_of_cores(expected_bits as nat, freed_cores@.take(0)));
    while k < freed_cores.len()
        invariant
            k <= freed_cores@.len(),
            bits@ == bits_of_cores(expected_bits as nat, freed_cores@.take(k as int)),
        decreases freed_cores@.len() - k,
    {
        let core = freed_cores[k].0 as usize;
        let ghost now = freed_cores@.take(k as int);
        let ghost next = freed_cores@.take(k as int + 1);
        let ghost before = bits@;
        assert(next =~= now.push(freed_cores@[k as int]));
        if core < expected_bits {
            bits.set(core, true);
        }
        proof {
            let wanted = bits_of_cores(expected_bits as nat, next);
            assert forall|i: int| 0 <= i < expected_bits implies bits@[i] == wanted[i] by {
                if before[i] {
                    let j = choose|j: int| 0 <= j < now.len() && (#[trigger] now[j]).0 == i;
                    assert(next[j].0 == i);
                }
                if i == core {
                    assert(next[k as int].0 == i);
                }
                if wanted[i] && i != core {
                    let j = choose|j: int| 0 <= j < next.len() && (#[trigger] next[j]).0 == i;
                    assert(now[j].0 == i);
                }
            }
            assert(bits@ =~= wanted);
        }
        k = k + 1;
    }
    assert(freed_cores@.take(k as int) =~= freed_cores@);
    DisputedBitfield::from(bits)
}

/// Whether a bitfield and the disputed cores have no core in common.
pub open spec fn undisputed(payload: Seq<bool>, disputed: Seq<bool>) -> bool {
    forall|i: int|
        0 <= i < payload.len() && 0 <= i < disputed.len() ==> !(payload[i] && disputed[i])
}

/// The bitfields whose signature is worth a look: those of the right length that
/// concern no disputed core, of a known validator, each with a greater validator
/// index than the one before it.
pub open spec fn well_formed_bitfields(
    bitfields: Seq<UncheckedSignedAvailabilityBitfield>,
    disputed: Seq<bool>,
    expected_bits: nat,
    validators: nat,
) -> Seq<UncheckedSignedAvailabilityBitfield>
    decreases bitfields.len(),
{
    if bitfields.len() == 0 {
        Seq::empty()
    } else {
        let before = well_formed_bitfields(
            bitfields.drop_last(),
            disputed,
            expected_bits,
            validators,
        );
        let next = bitfields.last();
        if next.payload@.len() == expected_bits && undisputed(next.payload@, disputed) && (
        before.len() == 0 || before.last().validator_index.0 < next.validator_index.0)
            && next.validator_index.0 < validators {
            before.push(next)
        } else {
            before
        }
    }
}

/// The bitfields whose signature was found valid.
pub open spec fn accepted(
    bitfields: Seq<UncheckedSignedAvailabilityBitfield>,
    valid: Seq<bool>,
) -> Seq<SignedAvailabilityBitfield>
    decreases bitfields.len(),
{
    if bitfields.len() == 0 {
        Seq::empty()
    } else {
        let before = accepted(bitfields.drop_last(), valid.drop_last());
        if valid.last() {
            before.push(SignedAvailabilityBitfield { bitfield: bitfields.last() })
        } else {
            before
        }
    }
}

/// Whether `valid` is what the runtime said of the signatures of the bitfields.
pub open spec fn signatures_checked<T: Inclusion>(
    bitfields: Seq<UncheckedSignedAvailabilityBitfield>,
    context: SigningContext,
    validators: Seq<ValidatorId>,
    valid: Seq<bool>,
) -> bool {
    &&& valid.len() == bitfields.len()
    &&& forall|k: int|
        0 <= k < bitfields.len() ==> call_ensures(
            T::check_bitfield_signature,
            (&bitfields[k], context, validators[bitfields[k].validator_index.0 as int]),
            #[trigger] valid[k],
        )
}

/// What sanitizing makes of bitfields. Where the disputed cores do not come in the
/// expected number, no bitfield is left.
pub open spec fn sanitized_bitfields<T: Inclusion>(
    bitfields: Seq<UncheckedSignedAvailabilityBitfield>,
    disputed: Seq<bool>,
    expected_bits: nat,
    context: SigningContext,
    validators: Seq<ValidatorId>,
    left: Seq<SignedAvailabilityBitfield>,
) -> bool {
    if disputed.len() != expected_bits {
        left == Seq::<SignedAvailabilityBitfield>::empty()
    } else {
        let candidates = well_formed_bitfields(
            bitfields,
            disputed,
            expected_bits,
            validators.len(),
        );
        exists|valid: Seq<bool>| #[trigger]
            signatures_checked::<T>(candidates, context, validators, valid) && left == accepted(
                candidates,
                valid,
            )
    }
}

/// Whether the signature of a bitfield is worth a look, coming after one of the
/// validator with index `last_index`.
fn is_well_formed(
    bitfield: &UncheckedSignedAvailabilityBitfield,
    disputed: &BitString,
    all_zeros: &BitString,
    last_index: Option<ValidatorIndex>,
    validators: usize,
) -> (b: bool)
    requires
        all_zeros@ == clear_bits(disputed@.len()),
    ensures
        b == (bitfield.payload@.len() == disputed@.len() && undisputed(
            bitfield.payload@,
            disputed@,
        ) && (last_index matches Some(last) ==> last.0 < bitfield.validator_index.0)
            && bitfield.validator_index.0 < validators),
{
    if bitfield.payload.len() != disputed.len() {
        return false;
    }
    let overlap = bitfield.payload.clone().and(disputed);
    if !overlap.same_bits(all_zeros) {
        assert(!undisputed(bitfield.payload@, disputed@)) by {
            if undisputed(bitfield.payload@, disputed@) {
                assert(overlap@ =~= all_zeros@);
            }
        }
        return false;
    }
    assert(undisputed(bitfield.payload@, disputed@)) by {
        assert forall|i: int| 0 <= i < disputed@.len() implies !(bitfield.payload@[i]
            && disputed@[i]) by {
            assert(overlap@[i] == all_zeros@[i]);
        }
    }
    if let Some(last) = last_index {
        if last.0 >= bitfield.validator_index.0 {
            return false;
        }
    }
    (bitfield.validator_index.0 as usize) < validators
}

/// Filters bitfields by their form, the disputed cores and their signatures.
///
/// A bitfield stays if
///
///  1. it has exactly `expected_bits` bits,
///  2. it concerns no disputed core,
///  3. its validator index is greater than that of the bitfield before it that came
///     so far, so that no validator has more than one,
///  4. its validator exists, and
///  5. its signature is valid.
pub fn sanitize_bitfields<T: Inclusion>(
    unchecked_bitfields: Vec<UncheckedSignedAvailabilityBitfield>,
    disputed_bitfield: DisputedBitfield,
    expected_bits: usize,
    parent_hash: H256,
    session_index: SessionIndex,
    validators: &Vec<ValidatorId>,
) -> (bitfields: Vec<SignedAvailabilityBitfield>)
    ensures
        sanitized_bitfields::<T>(
            unchecked_bitfields@,
            disputed_bitfield.0@,
            expected_bits as nat,
            SigningContext { parent_hash, session_index },
            validators@,
            bitfields@,
        ),
{
    let mut bitfields: Vec<SignedAvailabilityBitfield> = Vec::new();
    let mut last_index: Option<ValidatorIndex> = None;
    if disputed_bitfield.0.len() != expected_bits {
        return bitfields;
    }
    let all_zeros = BitString::repeat(false, expected_bits);
    assert(all_zeros@ =~= clear_bits(expected_bits as nat));
    let signing_context = SigningContext { parent_hash, session_index };
    let ghost all = unchecked_bitfields@;
    let ghost disputed = disputed_bitfield.0@;
    let ghost mut valid: Seq<bool> = Seq::empty();
    for unchecked_bitfield in it: unchecked_bitfields.into_iter()
        invariant
            it.seq() == all,
            disputed == disputed_bitfield.0@,
            disputed.len() == expected_bits,
            all_zeros@ == clear_bits(expected_bits as nat),
            signatures_checked::<T>(
                well_formed_bitfields(
                    all.take(it.index()),
                    disputed,
                    expected_bits as nat,
                    validators@.len(),
                ),
                signing_context,
                validators@,
                valid,
            ),
            bitfields@ == accepted(
                well_formed_bitfields(
                    all.take(it.index()),
                    disputed,
                    expected_bits as nat,
                    validators@.len(),
                ),
                valid,
            ),
            ({
                let before = well_formed_bitfields(
                    all.take(it.index()),
                    disputed,
                    expected_bits as nat,
                    validators@.len(),
                );
                match last_index {
                    None => before.len() == 0,
                    Some(index) => before.len() > 0 && before.last().validator_index == index,
                }
            }),
    {
        let ghost before = well_formed_bitfields(
            all.take(it.index()),
            disputed,
            expected_bits as nat,
            validators@.len(),
        );
        assert(all.take(it.index() + 1).drop_last() =~= all.take(it.index()));
        let validator_index = unchecked_bitfield.validator_index;
        if is_well_formed(
            &unchecked_bitfield,
            &disputed_bitfield.0,
            &all_zeros,
            last_index,
            validators.len(),
        ) {
            let validator_public = validators[validator_index.0 as usize];
            let is_valid = T::check_bitfield_signature(
                &unchecked_bitfield,
                signing_context,
                validator_public,
            );
            proof {
                assert(before.push(unchecked_bitfield).drop_last() =~= before);
                assert(valid.push(is_valid).drop_last() =~= valid);
                valid = valid.push(is_valid);
            }
            if is_valid {
                bitfields.push(SignedAvailabilityBitfield { bitfield: unchecked_bitfield });
            }
            last_index = Some(validator_index);
        }
    }
    assert(all.take(all.len() as int) =~= all);
    bitfields
}

/// What is demanded of each bitfield, apart from its signature and its place.
pub open spec fn fits_cores(
    bitfield: UncheckedSignedAvailabilityBitfield,
    disputed: Seq<bool>,
    expected_bits: nat,
    validators: nat,
) -> bool {
    &&& bitfield.payload@.len() == expected_bits
    &&& undisputed(bitfield.payload@, disputed)
    &&& bitfield.validator_index.0 < validators
}

/// Whether the validator indices of bitfields ascend strictly.
pub open spec fn ascending_validators(
    bitfields: Seq<UncheckedSignedAvailabilityBitfield>,
) -> bool {
    forall|i: int, j: int|
        0 <= i < j < bitfields.len() ==> (#[trigger] bitfields[i]).validator_index.0 < (
        #[trigger] bitfields[j]).validator_index.0
}

proof fn well_formed_bitfields_fit(
    bitfields: Seq<UncheckedSignedAvailabilityBitfield>,
    disputed: Seq<bool>,
    expected_bits: nat,
    validators: nat,
)
    ensures
        ({
            let left = well_formed_bitfields(bitfields, disputed, expected_bits, validators);
            &&& ascending_validators(left)
            &&& forall|k: int|
                0 <= k < left.len() ==> fits_cores(
                    #[trigger] left[k],
                    disputed,
                    expected_bits,
                    validators,
                ) && bitfields.contains(left[k])
        }),
    decreases bitfields.len(),
{
    if bitfields.len() > 0 {
        let shorter = bitfields.drop_last();
        let before = well_formed_bitfields(shorter, disputed, expected_bits, validators);
        let left = well_formed_bitfields(bitfields, disputed, expected_bits, validators);
        well_formed_bitfields_fit(shorter, disputed, expected_bits, validators);
        assert forall|k: int| 0 <= k < left.len() implies fits_cores(
            #[trigger] left[k],
            disputed,
            expected_bits,
            validators,
        ) && bitfields.contains(left[k]) by {
            if k < before.len() {
                assert(shorter.contains(before[k]));
                assert(bitfields[shorter.index_of(before[k])] == left[k]);
            } else {
                assert(bitfields[bitfields.len() - 1] == left[k]);
            }
        }
    }
}

/// The bitfields without the marks that they were checked.
pub open spec fn unchecked_again(
    bitfields: Seq<SignedAvailabilityBitfield>,
) -> Seq<UncheckedSignedAvailabilityBitfield> {
    bitfields.map_values(|b: SignedAvailabilityBitfield| b.bitfield)
}

proof fn accepted_fit(
    bitfields: Seq<UncheckedSignedAvailabilityBitfield>,
    valid: Seq<bool>,
    disputed: Seq<bool>,
    expected_bits: nat,
    validators: nat,
)
    requires
        valid.len() == bitfields.len(),
        ascending_validators(bitfields),
        forall|k: int|
            0 <= k < bitfields.len() ==> fits_cores(
                #[trigger] bitfields[k],
                disputed,
                expected_bits,
                validators,
            ),
    ensures
        ({
            let left = unchecked_again(accepted(bitfields, valid));
            &&& ascending_validators(left)
            &&& forall|k: int|
                0 <= k < left.len() ==> fits_cores(
                    #[trigger] left[k],
                    disputed,
                    expected_bits,
                    validators,
                ) && bitfields.contains(left[k])
        }),
    decreases bitfields.len(),
{
    if bitfields.len() > 0 {
        let shorter = bitfields.drop_last();
        let before = unchecked_again(accepted(shorter, valid.drop_last()));
        let left = unchecked_again(accepted(bitfields, valid));
        assert(forall|k: int| 0 <= k < shorter.len() ==> shorter[k] == bitfields[k]);
        accepted_fit(shorter, valid.drop_last(), disputed, expected_bits, validators);
        if valid.last() {
            assert(left =~= before.push(bitfields.last()));
        }
        assert forall|k: int| 0 <= k < left.len() implies fits_cores(
            #[trigger] left[k],
            disputed,
            expected_bits,
            validators,
        ) && bitfields.contains(left[k]) by {
            if k < before.len() {
                assert(shorter.contains(before[k]));
                assert(bitfields[shorter.index_of(before[k])] == left[k]);
            } else {
                assert(bitfields[bitfields.len() - 1] == left[k]);
            }
        }
        assert forall|i: int, j: int| 0 <= i < j < left.len() implies (
        #[trigger] left[i]).validator_index.0 < (#[trigger] left[j]).validator_index.0 by {
            assert(before[i] == left[i]);
            if j < before.len() {
                assert(before[j] == left[j]);
            } else {
                assert(shorter.contains(before[i]));
                assert(bitfields[shorter.index_of(before[i])] == left[i]);
                assert(bitfields[bitfields.len() - 1] == left[j]);
            }
        }
    }
}

/// What sanitizing leaves was there before, has one bit per core, concerns no
/// disputed core, and comes from known validators, each of which is heard at most
/// once and in the order of their indices.
pub proof fn sanitized_bitfields_fit<T: Inclusion>(
    bitfields: Seq<UncheckedSignedAvailabilityBitfield>,
    disputed: Seq<bool>,
    expected_bits: nat,
    context: SigningContext,
    validators: Seq<ValidatorId>,
    left: Seq<SignedAvailabilityBitfield>,
)
    requires
        sanitized_bitfields::<T>(
            bitfields,
            disputed,
            expected_bits,
            context,
            validators,
            left,
        ),
    ensures
        ascending_validators(unchecked_again(left)),
        forall|k: int|
            0 <= k < left.len() ==> fits_cores(
                (#[trigger] left[k]).bitfield,
                disputed,
                expected_bits,
                validators.len(),
            ) && bitfields.contains(left[k].bitfield),
{
    if disputed.len() == expected_bits {
        let formed = well_formed_bitfields(bitfields, disputed, expected_bits, validators.len());
        well_formed_bitfields_fit(bitfields, disputed, expected_bits, validators.len());
        let valid = choose|valid: Seq<bool>| #[trigger]
            signatures_checked::<T>(formed, context, validators, valid) && left == accepted(
                formed,
                valid,
            );
        accepted_fit(formed, valid, disputed, expected_bits, validators.len());
        assert forall|k: int| 0 <= k < left.len() implies fits_cores(
            (#[trigger] left[k]).bitfield,
            disputed,
            expected_bits,
            validators.len(),
        ) && bitfields.contains(left[k].bitfield) by {
            let b = unchecked_again(left)[k];
            assert(formed.contains(b));
            assert(formed[formed.index_of(b)] == b);
        }
    }
}

/// What sanitizing left passes it again: run on its own result, with the same
/// disputed cores and validators, it finds nothing to object to but signatures.
pub proof fn sanitized_bitfields_pass_again<T: Inclusion>(
    bitfields: Seq<UncheckedSignedAvailabilityBitfield>,
    disputed: Seq<bool>,
    expected_bits: nat,
    context: SigningContext,
    validators: Seq<ValidatorId>,
    left: Seq<SignedAvailabilityBitfield>,
)
    requires
        sanitized_bitfields::<T>(
            bitfields,
            disputed,
            expected_bits,
            context,
            validators,
            left,
        ),
    ensures
        well_formed_bitfields(
            unchecked_again(left),
            disputed,
            expected_bits,
            validators.len(),
        ) == unchecked_again(left),
{
    sanitized_bitfields_fit::<T>(bitfields, disputed, expected_bits, context, validators, left);
    let all = unchecked_again(left);
    assert forall|k: int| 0 <= k < all.len() implies fits_cores(
        #[trigger] all[k],
        disputed,
        expected_bits,
        validators.len(),
    ) by {
        assert(all[k] == left[k].bitfield);
    }
    fitting_bitfields_are_well_formed(all, disputed, expected_bits, validators.len());
}

proof fn fitting_bitfields_are_well_formed(
    bitfields: Seq<UncheckedSignedAvailabilityBitfield>,
    disputed: Seq<bool>,
    expected_bits: nat,
    validators: nat,
)
    requires
        ascending_validators(bitfields),
        forall|k: int|
            0 <= k < bitfields.len() ==> fits_cores(
                #[trigger] bitfields[k],
                disputed,
                expected_bits,
                validators,
            ),
    ensures
        well_formed_bitfields(bitfields, disputed, expected_bits, validators) == bitfields,
    decreases bitfields.len(),
{
    if bitfields.len() > 0 {
        let shorter = bitfields.drop_last();
        assert(forall|k: int| 0 <= k < shorter.len() ==> shorter[k] == bitfields[k]);
        fitting_bitfields_are_well_formed(shorter, disputed, expected_bits, validators);
        assert(fits_cores(bitfields[bitfields.len() - 1], disputed, expected_bits, validators));
        if shorter.len() > 0 {
            assert(shorter.last() == bitfields[bitfields.len() - 2]);
        }
        assert(shorter.push(bitfields.last()) =~= bitfields);
    } else {
        assert(well_formed_bitfields(bitfields, disputed, expected_bits, validators) =~= bitfields);
    }
}

/// Whether a bitfield stood among others, with a valid signature.
spec fn stood_valid(
    bitfields: Seq<UncheckedSignedAvailabilityBitfield>,
    valid: Seq<bool>,
    bitfield: UncheckedSignedAvailabilityBitfield,
) -> bool {
    exists|i: int| 0 <= i < bitfields.len() && #[trigger] bitfields[i] == bitfield && valid[i]
}

/// What was accepted stood among the bitfields, with a valid signature.
proof fn accepted_were_valid(
    bitfields: Seq<UncheckedSignedAvailabilityBitfield>,
    valid: Seq<bool>,
)
    requires
        valid.len() == bitfields.len(),
    ensures
        forall|k: int|
            0 <= k < accepted(bitfields, valid).len() ==> stood_valid(
                bitfields,
                valid,
                (#[trigger] accepted(bitfields, valid)[k]).bitfield,
            ),
    decreases bitfields.len(),
{
    if bitfields.len() > 0 {
        let shorter = bitfields.drop_last();
        let fewer = valid.drop_last();
        accepted_were_valid(shorter, fewer);
        let before = accepted(shorter, fewer);
        let now = accepted(bitfields, valid);
        assert forall|k: int| 0 <= k < now.len() implies stood_valid(
            bitfields,
            valid,
            (#[trigger] now[k]).bitfield,
        ) by {
            if k < before.len() {
                assert(now[k] == before[k]);
                let i = choose|i: int|
                    0 <= i < shorter.len() && #[trigger] shorter[i] == before[k].bitfield
                        && fewer[i];
                assert(bitfields[i] == now[k].bitfield && valid[i]);
            } else {
                let i = bitfields.len() - 1;
                assert(bitfields[i] == now[k].bitfield && valid[i]);
            }
        }
    }
}

/// Bitfields with valid signatures are all accepted.
proof fn valid_are_accepted(left: Seq<SignedAvailabilityBitfield>, valid: Seq<bool>)
    requires
        valid.len() == left.len(),
        forall|k: int| 0 <= k < valid.len() ==> #[trigger] valid[k],
    ensures
        accepted(unchecked_again(left), valid) == left,
    decreases left.len(),
{
    let bitfields = unchecked_again(left);
    if left.len() > 0 {
        let fewer = left.drop_last();
        assert(bitfields.drop_last() =~= unchecked_again(fewer));
        assert forall|k: int| 0 <= k < valid.drop_last().len() implies #[trigger]
            valid.drop_last()[k] by {
            assert(valid[k]);
        }
        valid_are_accepted(fewer, valid.drop_last());
        assert(valid[left.len() - 1]);
        assert(fewer.push(left.last()) =~= left);
    } else {
        assert(accepted(bitfields, valid) =~= left);
    }
}

/// Whether the signature check has one answer for each bitfield, context and validator.
pub open spec fn signature_check_is_a_function<T: Inclusion>() -> bool {
    forall|
        bitfield: &UncheckedSignedAvailabilityBitfield,
        context: SigningContext,
        validator: ValidatorId,
        x: bool,
        y: bool,
    | #[trigger]
        call_ensures(T::check_bitfield_signature, (bitfield, context, validator), x)
            && #[trigger] call_ensures(
            T::check_bitfield_signature,
            (bitfield, context, validator),
            y,
        ) ==> x == y
}

/// Sanitizing what was sanitized, with the same disputed cores, context and validators,
/// gives the same bitfields again; and it gives nothing else where the signature check has
/// one answer for each bitfield.
pub proof fn sanitized_bitfields_come_out_again<T: Inclusion>(
    bitfields: Seq<UncheckedSignedAvailabilityBitfield>,
    disputed: Seq<bool>,
    expected_bits: nat,
    context: SigningContext,
    validators: Seq<ValidatorId>,
    left: Seq<SignedAvailabilityBitfield>,
    again: Seq<SignedAvailabilityBitfield>,
)
    requires
        sanitized_bitfields::<T>(
            bitfields,
            disputed,
            expected_bits,
            context,
            validators,
            left,
        ),
    ensures
        sanitized_bitfields::<T>(
            unchecked_again(left),
            disputed,
            expected_bits,
            context,
            validators,
            left,
        ),
        signature_check_is_a_function::<T>() && sanitized_bitfields::<T>(
            unchecked_again(left),
            disputed,
            expected_bits,
            context,
            validators,
            again,
        ) ==> again == left,
{
    if disputed.len() == expected_bits {
        let formed = well_formed_bitfields(bitfields, disputed, expected_bits, validators.len());
        let valid = choose|valid: Seq<bool>| #[trigger]
            signatures_checked::<T>(formed, context, validators, valid) && left == accepted(
                formed,
                valid,
            );
        accepted_were_valid(formed, valid);
        sanitized_bitfields_pass_again::<T>(
            bitfields,
            disputed,
            expected_bits,
            context,
            validators,
            left,
        );
        let all = unchecked_again(left);
        let all_valid = Seq::new(all.len(), |k: int| true);
        assert forall|k: int| 0 <= k < all.len() implies call_ensures(
            T::check_bitfield_signature,
            (&all[k], context, validators[all[k].validator_index.0 as int]),
            #[trigger] all_valid[k],
        ) by {
            assert(all[k] == left[k].bitfield);
            let i = choose|i: int|
                0 <= i < formed.len() && #[trigger] formed[i] == left[k].bitfield && valid[i];
            assert(valid[i] == all_valid[k]);
        }
        assert(signatures_checked::<T>(all, context, validators, all_valid));
        valid_are_accepted(left, all_valid);
        if signature_check_is_a_function::<T>() && sanitized_bitfields::<T>(
            all,
            disputed,
            expected_bits,
            context,
            validators,
            again,
        ) {
            let valid_again = choose|valid: Seq<bool>| #[trigger]
                signatures_checked::<T>(all, context, validators, valid) && again == accepted(
                    all,
                    valid,
                );
            assert forall|k: int| 0 <= k < valid_again.len() implies #[trigger] valid_again[k] by {
                let validator = validators[all[k].validator_index.0 as int];
                assert(call_ensures(
                    T::check_bitfield_signature,
                    (&all[k], context, validator),
                    all_valid[k],
                ));
                assert(call_ensures(
                    T::check_bitfield_signature,
                    (&all[k], context, validator),
                    valid_again[k],
                ));
            }
            valid_are_accepted(left, valid_again);
        }
    }
}

/// The bit of a core is set exactly if the core is listed, whichever core it is. There are
/// as many bits as are expected.
pub proof fn listed_cores_are_marked(expected_bits: nat, cores: Seq<CoreIndex>, core: CoreIndex)
    ensures
        bits_of_cores(expected_bits, cores).len() == expected_bits,
        core.0 < expected_bits ==> (bits_of_cores(expected_bits, cores)[core.0 as int]
            <==> cores.contains(core)),
{
    if core.0 < expected_bits {
        if cores.contains(core) {
            assert(cores[cores.index_of(core)].0 == core.0);
        }
        if bits_of_cores(expected_bits, cores)[core.0 as int] {
            let k = choose|k: int| 0 <= k < cores.len() && (#[trigger] cores[k]).0 == core.0;
            assert(cores[k] == core);
        }
    }
}

/// How bitfields are looked at, one after the other: the validator index of the last one
/// that was looked at before each of them and in the end, or a negative number; which of
/// them are looked at; what was said of their signatures; and the places of those that
/// count.
pub struct Looks {
    pub last: Seq<int>,
    pub looked: Seq<bool>,
    pub valid: Seq<bool>,
    pub counted: Seq<int>,
}

impl Looks {
    /// Whether a bitfield is looked at exactly if it has the expected number of bits, sets
    /// no bit that is set among the disputed cores, and comes from a validator that exists
    /// and has a greater index than the last one; whether the signatures of those looked at
    /// were checked, each with the key of its validator; and whether those count, in order,
    /// that are looked at and have a valid signature.
    pub open spec fn are_right<T: Inclusion>(
        self,
        bitfields: Seq<UncheckedSignedAvailabilityBitfield>,
        disputed: Seq<bool>,
        expected_bits: nat,
        context: SigningContext,
        validators: Seq<ValidatorId>,
        left: Seq<SignedAvailabilityBitfield>,
    ) -> bool {
        &&& self.last.len() == bitfields.len() + 1
        &&& self.looked.len() == bitfields.len()
        &&& self.valid.len() == bitfields.len()
        &&& self.counted.len() == left.len()
        &&& self.last[0] < 0
        &&& forall|k: int|
            #![trigger self.looked[k]]
            0 <= k < bitfields.len() ==> {
                let b = bitfields[k];
                let index = b.validator_index.0 as int;
                &&& self.looked[k] <==> b.payload@.len() == expected_bits && (forall|c: int|
                    0 <= c < expected_bits && #[trigger] b.payload@[c] ==> !disputed[c])
                    && self.last[k] < index < validators.len()
                &&& self.looked[k] ==> self.last[k + 1] == index
                &&& !self.looked[k] ==> self.last[k + 1] == self.last[k]
                &&& self.looked[k] ==> call_ensures(
                    T::check_bitfield_signature,
                    (&b, context, validators[index]),
                    self.valid[k],
                )
            }
        &&& forall|i: int, j: int|
            0 <= i < j < self.counted.len() ==> self.counted[i] < self.counted[j]
        &&& forall|i: int|
            0 <= i < left.len() ==> 0 <= #[trigger] self.counted[i] < bitfields.len()
                && left[i].bitfield == bitfields[self.counted[i]]
        &&& forall|k: int|
            0 <= k < bitfields.len() ==> (#[trigger] self.looked[k] && self.valid[k]
                <==> self.counted.contains(k))
    }
}

/// The bitfields worth a look, one by one.
proof fn well_formed_one_by_one(
    bitfields: Seq<UncheckedSignedAvailabilityBitfield>,
    disputed: Seq<bool>,
    expected_bits: nat,
    validators: nat,
) -> (r: (Seq<int>, Seq<bool>, Seq<int>))
    requires
        disputed.len() == expected_bits,
    ensures
        ({
            let (last, looked, places) = r;
            let formed = well_formed_bitfields(bitfields, disputed, expected_bits, validators);
            &&& last.len() == bitfields.len() + 1
            &&& looked.len() == bitfields.len()
            &&& last[0] < 0
            &&& last[bitfields.len() as int] == if formed.len() == 0 {
                -1
            } else {
                formed.last().validator_index.0 as int
            }
            &&& forall|k: int|
                #![trigger looked[k]]
                0 <= k < bitfields.len() ==> {
                    let b = bitfields[k];
                    let index = b.validator_index.0 as int;
                    &&& looked[k] <==> b.payload@.len() == expected_bits && (forall|c: int|
                        0 <= c < expected_bits && #[trigger] b.payload@[c] ==> !disputed[c])
                        && last[k] < index < validators
                    &&& looked[k] ==> last[k + 1] == index
                    &&& !looked[k] ==> last[k + 1] == last[k]
                }
            &&& places.len() == formed.len()
            &&& forall|i: int, j: int| 0 <= i < j < places.len() ==> places[i] < places[j]
            &&& forall|i: int|
                0 <= i < places.len() ==> 0 <= #[trigger] places[i] < bitfields.len() && formed[i]
                    == bitfields[places[i]] && looked[places[i]]
            &&& forall|k: int|
                0 <= k < bitfields.len() && #[trigger] looked[k] ==> places.contains(k)
        }),
    decreases bitfields.len(),
{
    let formed = well_formed_bitfields(bitfields, disputed, expected_bits, validators);
    if bitfields.len() == 0 {
        (seq![-1], Seq::empty(), Seq::empty())
    } else {
        let fewer = bitfields.drop_last();
        let top = bitfields.len() - 1;
        let before = well_formed_bitfields(fewer, disputed, expected_bits, validators);
        let (last, looked, places) = well_formed_one_by_one(
            fewer,
            disputed,
            expected_bits,
            validators,
        );
        let b = bitfields[top];
        let index = b.validator_index.0 as int;
        let look = b.payload@.len() == expected_bits && (forall|c: int|
            0 <= c < expected_bits && #[trigger] b.payload@[c] ==> !disputed[c]) && last[top]
            < index < validators;
        let now_last = last.push(
            if look {
                index
            } else {
                last[top]
            },
        );
        let now_looked = looked.push(look);
        let now_places = if look {
            places.push(top)
        } else {
            places
        };
        assert(b == bitfields.last());
        if b.payload@.len() == expected_bits {
            assert(undisputed(b.payload@, disputed) <==> (forall|c: int|
                0 <= c < expected_bits && #[trigger] b.payload@[c] ==> !disputed[c]));
        }
        assert(formed == if look {
            before.push(b)
        } else {
            before
        });
        assert forall|k: int|
            #![trigger now_looked[k]]
            0 <= k < bitfields.len() implies {
            let b = bitfields[k];
            let index = b.validator_index.0 as int;
            &&& now_looked[k] <==> b.payload@.len() == expected_bits && (forall|c: int|
                0 <= c < expected_bits && #[trigger] b.payload@[c] ==> !disputed[c])
                && now_last[k] < index < validators
            &&& now_looked[k] ==> now_last[k + 1] == index
            &&& !now_looked[k] ==> now_last[k + 1] == now_last[k]
        } by {
            if k < top {
                assert(looked[k] == now_looked[k]);
                assert(fewer[k] == bitfields[k]);
            }
        }
        assert forall|i: int| 0 <= i < now_places.len() implies 0 <= #[trigger] now_places[i]
            < bitfields.len() && formed[i] == bitfields[now_places[i]]
            && now_looked[now_places[i]] by {
            if i < places.len() {
                assert(0 <= places[i] < top);
                assert(looked[places[i]]);
            }
        }
        assert forall|k: int|
            0 <= k < bitfields.len() && #[trigger] now_looked[k] implies now_places.contains(
            k,
        ) by {
            if k < top {
                assert(looked[k]);
                assert(now_places[places.index_of(k)] == k);
            } else {
                assert(now_places[places.len() as int] == k);
            }
        }
        (now_last, now_looked, now_places)
    }
}

/// The bitfields that are accepted, one by one.
proof fn accepted_one_by_one(
    bitfields: Seq<UncheckedSignedAvailabilityBitfield>,
    valid: Seq<bool>,
) -> (places: Seq<int>)
    requires
        valid.len() == bitfields.len(),
    ensures
        places.len() == accepted(bitfields, valid).len(),
        forall|i: int, j: int| 0 <= i < j < places.len() ==> places[i] < places[j],
        forall|i: int|
            0 <= i < places.len() ==> 0 <= #[trigger] places[i] < bitfields.len() && accepted(
                bitfields,
                valid,
            )[i].bitfield == bitfields[places[i]] && valid[places[i]],
        forall|k: int|
            0 <= k < bitfields.len() && #[trigger] valid[k] ==> places.contains(k),
    decreases bitfields.len(),
{
    let now = accepted(bitfields, valid);
    if bitfields.len() == 0 {
        Seq::empty()
    } else {
        let fewer = bitfields.drop_last();
        let fewer_valid = valid.drop_last();
        let top = bitfields.len() - 1;
        let places = accepted_one_by_one(fewer, fewer_valid);
        let now_places = if valid.last() {
            places.push(top)
        } else {
            places
        };
        assert forall|i: int| 0 <= i < now_places.len() implies 0 <= #[trigger] now_places[i]
            < bitfields.len() && now[i].bitfield == bitfields[now_places[i]]
            && valid[now_places[i]] by {
            if i < places.len() {
                assert(0 <= places[i] < top);
                assert(fewer_valid[places[i]]);
            }
        }
        assert forall|k: int|
            0 <= k < bitfields.len() && #[trigger] valid[k] implies now_places.contains(k) by {
            if k < top {
                assert(fewer_valid[k]);
                assert(now_places[places.index_of(k)] == k);
            } else {
                assert(now_places[places.len() as int] == k);
            }
        }
        now_places
    }
}

/// Which bitfields count, in plain terms: where the disputed cores come in the expected
/// number, those that a right look at one after the other leaves; where they do not, none.
pub proof fn bitfields_are_looked_at_in_order<T: Inclusion>(
    bitfields: Seq<UncheckedSignedAvailabilityBitfield>,
    disputed: Seq<bool>,
    expected_bits: nat,
    context: SigningContext,
    validators: Seq<ValidatorId>,
    left: Seq<SignedAvailabilityBitfield>,
) -> (looks: Looks)
    requires
        sanitized_bitfields::<T>(
            bitfields,
            disputed,
            expected_bits,
            context,
            validators,
            left,
        ),
    ensures
        disputed.len() != expected_bits ==> left.len() == 0,
        disputed.len() == expected_bits ==> looks.are_right::<T>(
            bitfields,
            disputed,
            expected_bits,
            context,
            validators,
            left,
        ),
{
    if disputed.len() != expected_bits {
        Looks {
            last: Seq::empty(),
            looked: Seq::empty(),
            valid: Seq::empty(),
            counted: Seq::empty(),
        }
    } else {
        let n = validators.len();
        let formed = well_formed_bitfields(bitfields, disputed, expected_bits, n);
        let answers = choose|valid: Seq<bool>| #[trigger]
            signatures_checked::<T>(formed, context, validators, valid) && left == accepted(
                formed,
                valid,
            );
        let (last, looked, places) = well_formed_one_by_one(bitfields, disputed, expected_bits, n);
        let passed = accepted_one_by_one(formed, answers);
        let valid = Seq::new(
            bitfields.len(),
            |k: int| looked[k] && answers[places.index_of(k)],
        );
        let counted = Seq::new(left.len(), |i: int| places[passed[i]]);
        let looks = Looks { last, looked, valid, counted };
        assert forall|k: int| 0 <= k < bitfields.len() && #[trigger] looked[k] implies {
            let j = places.index_of(k);
            &&& 0 <= j < places.len()
            &&& places[j] == k
            &&& formed[j] == bitfields[k]
            &&& valid[k] == answers[j]
            &&& call_ensures(
                T::check_bitfield_signature,
                (&bitfields[k], context, validators[bitfields[k].validator_index.0 as int]),
                valid[k],
            )
        } by {
            assert(places.contains(k));
            let j = places.index_of(k);
            assert(call_ensures(
                T::check_bitfield_signature,
                (&formed[j], context, validators[formed[j].validator_index.0 as int]),
                answers[j],
            ));
        }
        assert forall|i: int| 0 <= i < left.len() implies 0 <= #[trigger] counted[i]
            < bitfields.len() && left[i].bitfield == bitfields[counted[i]] && looked[counted[i]]
            && valid[counted[i]] by {
            assert(0 <= passed[i] < formed.len());
            assert(answers[passed[i]]);
            let k = places[passed[i]];
            assert(looked[k]);
            let j = places.index_of(k);
            if j < passed[i] {
                assert(places[j] < places[passed[i]]);
            } else if j > passed[i] {
                assert(places[passed[i]] < places[j]);
            }
        }
        assert forall|i: int, j: int|
            0 <= i < j < counted.len() implies counted[i] < counted[j] by {
            assert(0 <= passed[i] < formed.len() && 0 <= passed[j] < formed.len());
            assert(passed[i] < passed[j]);
            assert(places[passed[i]] < places[passed[j]]);
        }
        assert forall|k: int| 0 <= k < bitfields.len() implies (#[trigger] looked[k] && valid[k]
            <==> counted.contains(k)) by {
            if looked[k] && valid[k] {
                let j = places.index_of(k);
                assert(answers[j]);
                assert(passed.contains(j));
                assert(counted[passed.index_of(j)] == k);
            }
            if counted.contains(k) {
                assert(looked[counted[counted.index_of(k)]]);
            }
        }
        looks
    }
}

/// What is left of bitfields without their marks: the bitfields, one by one.
pub proof fn unchecked_one_by_one(bitfields: Seq<SignedAvailabilityBitfield>, k: int)
    ensures
        unchecked_again(bitfields).len() == bitfields.len(),
        0 <= k < bitfields.len() ==> unchecked_again(bitfields)[k] == bitfields[k].bitfield,
{
}

} // verus!
