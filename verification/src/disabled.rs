//! Dropping the backing votes of disabled validators.

use crate::bits::{
    bit_at, bits_one_by_one, flipped, masked, max_bits, ones, ones_zero_iff_clear, BitString,
};
use crate::candidate::{
    core_index_is_a_byte, core_index_is_in_the_last_eight_bits, core_index_rejoins,
    core_index_survives_injection, low_bits, low_bits_len, with_core_index, BackedCandidate,
    BackedCandidateView,
};
use crate::cores::{backing_group, find_backing_group, members};
use crate::primitives::{CoreIndex, ValidatorIndex, ValidityAttestation};
use crate::relay_parents::AllowedRelayParentsTracker;
use crate::runtime::{HostConfiguration, Scheduler, System};
use std::collections::BTreeSet;
use vstd::prelude::*;

verus! {

broadcast use {vstd::std_specs::btree::group_btree_axioms, vstd::laws_cmp::group_laws_cmp};

/// Where the `j`-th set bit stands, counted from zero.
pub open spec fn nth_set(bits: Seq<bool>, j: int) -> Option<int>
    decreases bits.len(),
{
    if bits.len() == 0 {
        None
    } else if bits.last() && ones(bits.drop_last()) == j {
        Some(bits.len() - 1)
    } else {
        nth_set(bits.drop_last(), j)
    }
}

/// The indices of validators.
pub open spec fn index_set(validators: Seq<ValidatorIndex>) -> Set<u32> {
    Set::new(|v: u32| validators.contains(ValidatorIndex(v)))
}

/// Which members of a group are disabled.
pub open spec fn disabled_members(
    group: Seq<ValidatorIndex>,
    disabled: Set<u32>,
) -> Seq<bool> {
    group.map_values(|validator: ValidatorIndex| disabled.contains(validator.0))
}

/// Whether vote `j` is kept. It belongs to the `j`-th voter and is dropped if that
/// voter is to be dropped. A vote past the last voter is kept.
pub open spec fn vote_stays(indices: Seq<bool>, drop: Seq<bool>, j: int) -> bool {
    match nth_set(indices, j) {
        Some(i) => !bit_at(drop, i),
        None => true,
    }
}

/// The votes that remain, in order.
pub open spec fn surviving_votes(
    votes: Seq<ValidityAttestation>,
    indices: Seq<bool>,
    drop: Seq<bool>,
) -> Seq<ValidityAttestation>
    decreases votes.len(),
{
    if votes.len() == 0 {
        votes
    } else {
        let before = surviving_votes(votes.drop_last(), indices, drop);
        if vote_stays(indices, drop, votes.len() - 1) {
            before.push(votes.last())
        } else {
            before
        }
    }
}

/// A candidate without the votes of disabled validators. No bit is left set for a
/// disabled validator, nor past the end of the group.
pub open spec fn without_disabled(
    candidate: BackedCandidateView,
    group: Seq<ValidatorIndex>,
    disabled: Set<u32>,
    core_index_enabled: bool,
) -> BackedCandidateView {
    let indices = candidate.group_indices(core_index_enabled);
    let drop = disabled_members(group, disabled);
    BackedCandidateView {
        candidate: candidate.candidate,
        validity_votes: surviving_votes(candidate.validity_votes, indices, drop),
        validator_indices: with_core_index(
            masked(indices, flipped(drop)),
            candidate.core_index(core_index_enabled),
        ),
    }
}

/// Whether a disabled validator is among those that back a candidate.
pub open spec fn backed_by_disabled(
    candidate: BackedCandidateView,
    group: Seq<ValidatorIndex>,
    disabled: Set<u32>,
    core_index_enabled: bool,
) -> bool {
    exists|i: int|
        bit_at(candidate.group_indices(core_index_enabled), i) && #[trigger] bit_at(
            disabled_members(group, disabled),
            i,
        )
}

/// How many backing votes a candidate needs: as many as configured, but never more
/// than its group has members.
pub open spec fn votes_needed(group_len: nat, configured_minimum: u32) -> nat {
    if group_len <= configured_minimum {
        group_len
    } else {
        configured_minimum as nat
    }
}

/// How many backing votes a candidate needs.
pub fn effective_minimum_backing_votes(group_len: usize, configured_minimum: u32) -> (r: usize)
    ensures
        r == votes_needed(group_len as nat, configured_minimum),
{
    if group_len as u64 <= configured_minimum as u64 {
        group_len
    } else {
        configured_minimum as usize
    }
}

/// What is left of candidates on cores, and whether a vote was dropped.
pub struct Filtered {
    pub kept: Seq<(BackedCandidateView, CoreIndex)>,
    pub dropped_votes: bool,
}

/// Goes through candidates with their groups. A candidate without a group, or with
/// too few votes after those of disabled validators are dropped, is left out.
pub open spec fn filter_votes(
    candidates: Seq<(BackedCandidateView, CoreIndex)>,
    groups: Seq<Option<Seq<ValidatorIndex>>>,
    disabled: Set<u32>,
    minimum_backing_votes: u32,
    core_index_enabled: bool,
) -> Filtered
    decreases candidates.len(),
{
    if candidates.len() == 0 {
        Filtered { kept: Seq::empty(), dropped_votes: false }
    } else {
        let before = filter_votes(
            candidates.drop_last(),
            groups.drop_last(),
            disabled,
            minimum_backing_votes,
            core_index_enabled,
        );
        let (candidate, core) = candidates.last();
        match groups.last() {
            None => before,
            Some(group) => {
                let rest = without_disabled(candidate, group, disabled, core_index_enabled);
                let enough = rest.validity_votes.len() >= votes_needed(
                    group.len(),
                    minimum_backing_votes,
                );
                Filtered {
                    kept: if enough {
                        before.kept.push((rest, core))
                    } else {
                        before.kept
                    },
                    dropped_votes: before.dropped_votes || backed_by_disabled(
                        candidate,
                        group,
                        disabled,
                        core_index_enabled,
                    ),
                }
            },
        }
    }
}

/// What candidates on cores hold.
pub open spec fn views_with_core(candidates: Seq<(BackedCandidate, CoreIndex)>) -> Seq<
    (BackedCandidateView, CoreIndex),
> {
    candidates.map_values(|c: (BackedCandidate, CoreIndex)| (c.0@, c.1))
}

/// Whether `groups` are what the runtime says of the groups that back candidates on
/// their cores.
pub open spec fn groups_of<T: Scheduler>(
    runtime: T,
    allowed_relay_parents: AllowedRelayParentsTracker,
    candidates: Seq<(BackedCandidateView, CoreIndex)>,
    groups: Seq<Option<Seq<ValidatorIndex>>>,
) -> bool {
    &&& groups.len() == candidates.len()
    &&& forall|k: int|
        0 <= k < candidates.len() ==> backing_group::<T>(
            runtime,
            allowed_relay_parents,
            candidates[k].0.candidate.relay_parent,
            candidates[k].1,
            #[trigger] groups[k],
        )
}

/// Whether `after` is what is left of candidates on cores once the votes of disabled
/// validators are dropped, and `changed` whether anything was dropped. Where no
/// validator is disabled nothing is looked at.
pub open spec fn disabled_dropped<T: System + Scheduler>(
    runtime: T,
    allowed_relay_parents: AllowedRelayParentsTracker,
    core_index_enabled: bool,
    before: Seq<(BackedCandidate, CoreIndex)>,
    after: Seq<(BackedCandidateView, CoreIndex)>,
    changed: bool,
) -> bool {
    exists|disabled: Vec<ValidatorIndex>| #[trigger]
        call_ensures(T::disabled_validators, (&runtime,), disabled) && if disabled@.len() == 0 {
            after == views_with_core(before) && !changed
        } else {
            exists|config: HostConfiguration, groups: Seq<Option<Seq<ValidatorIndex>>>|
                #![trigger
                    call_ensures(T::configuration, (&runtime,), config),
                    groups_of::<T>(runtime, allowed_relay_parents, views_with_core(before), groups)]
                {
                    &&& call_ensures(T::configuration, (&runtime,), config)
                    &&& groups_of::<T>(
                        runtime,
                        allowed_relay_parents,
                        views_with_core(before),
                        groups,
                    )
                    &&& ({
                        let filtered = filter_votes(
                            views_with_core(before),
                            groups,
                            index_set(disabled@),
                            config.minimum_backing_votes,
                            core_index_enabled,
                        );
                        &&& after == filtered.kept
                        &&& changed == (filtered.dropped_votes || filtered.kept.len()
                            != before.len())
                    })
                }
        }
}

/// Collects the indices of validators in a set.
pub fn collect_indices(validators: &Vec<ValidatorIndex>) -> (r: BTreeSet<u32>)
    ensures
        r@ == index_set(validators@),
{
    let mut r: BTreeSet<u32> = BTreeSet::new();
    let mut k: usize = 0;
    assert(r@ =~= index_set(validators@.take(0)));
    while k < validators.len()
        invariant
            k <= validators@.len(),
            r@ == index_set(validators@.take(k as int)),
        decreases validators@.len() - k,
    {
        let ghost now = validators@.take(k as int);
        let ghost next = validators@.take(k + 1);
        let ghost before = r@;
        r.insert(validators[k].0);
        proof {
            assert(next =~= now.push(validators@[k as int]));
            assert forall|v: u32| #[trigger] r@.contains(v) <==> index_set(next).contains(v) by {
                if before.contains(v) {
                    assert(next[now.index_of(ValidatorIndex(v))] == ValidatorIndex(v));
                }
                if v == validators@[k as int].0 {
                    assert(next[k as int] == ValidatorIndex(v));
                }
                if index_set(next).contains(v) {
                    let j = next.index_of(ValidatorIndex(v));
                    if j < k {
                        assert(now[j] == ValidatorIndex(v));
                    }
                }
            }
            assert(r@ =~= index_set(next));
        }
        k = k + 1;
    }
    assert(validators@.take(k as int) =~= validators@);
    r
}

/// Counting set bits one further.
proof fn ones_step(bits: Seq<bool>, i: int)
    requires
        0 <= i < bits.len(),
    ensures
        ones(bits.take(i + 1)) == ones(bits.take(i)) + if bits[i] {
            1nat
        } else {
            0
        },
{
    assert(bits.take(i + 1).drop_last() =~= bits.take(i));
}

proof fn ones_grow(bits: Seq<bool>, i: int)
    requires
        0 <= i <= bits.len(),
    ensures
        ones(bits.take(i)) <= ones(bits),
    decreases bits.len() - i,
{
    if i == bits.len() {
        assert(bits.take(i) =~= bits);
    } else {
        ones_step(bits, i);
        ones_grow(bits, i + 1);
    }
}

/// A set bit is the one that the bits before it count up to.
proof fn nth_set_found(bits: Seq<bool>, i: int)
    requires
        0 <= i < bits.len(),
        bits[i],
    ensures
        nth_set(bits, ones(bits.take(i)) as int) == Some(i),
    decreases bits.len(),
{
    if i < bits.len() - 1 {
        let shorter = bits.drop_last();
        ones_step(bits, i);
        assert(bits.take(i + 1) =~= shorter.take(i + 1));
        assert(bits.take(i) =~= shorter.take(i));
        ones_grow(shorter, i + 1);
        nth_set_found(shorter, i);
    } else {
        assert(bits.take(i) =~= bits.drop_last());
    }
}

/// There is no set bit past the last one.
proof fn nth_set_missing(bits: Seq<bool>, j: int)
    requires
        j >= ones(bits),
    ensures
        nth_set(bits, j) is None,
    decreases bits.len(),
{
    if bits.len() > 0 {
        nth_set_missing(bits.drop_last(), j);
    }
}

/// Drops the votes of voters that are to be dropped.
pub fn drop_votes(
    votes: &Vec<ValidityAttestation>,
    indices: &BitString,
    drop: &BitString,
) -> (r: Vec<ValidityAttestation>)
    ensures
        r@ == surviving_votes(votes@, indices@, drop@),
{
    let mut r: Vec<ValidityAttestation> = Vec::new();
    let n = indices.len();
    let m = drop.len();
    let mut i: usize = 0;
    let mut j: usize = 0;
    while j < votes.len()
        invariant
            n == indices@.len(),
            m == drop@.len(),
            i <= n,
            j <= votes@.len(),
            ones(indices@.take(i as int)) == j || (i == n && ones(indices@) <= j),
            r@ == surviving_votes(votes@.take(j as int), indices@, drop@),
        decreases votes@.len() - j,
    {
        while i < n && !indices.get(i)
            invariant
                i <= n == indices@.len(),
                ones(indices@.take(i as int)) == j || (i == n && ones(indices@) <= j),
            decreases n - i,
        {
            proof {
                ones_step(indices@, i as int);
            }
            i = i + 1;
        }
        let stays = if i < n {
            proof {
                nth_set_found(indices@, i as int);
                ones_step(indices@, i as int);
            }
            let at = i;
            i = i + 1;
            at >= m || !drop.get(at)
        } else {
            proof {
                assert(indices@.take(n as int) =~= indices@);
                nth_set_missing(indices@, j as int);
            }
            true
        };
        assert(stays == vote_stays(indices@, drop@, j as int));
        assert(votes@.take(j + 1).drop_last() =~= votes@.take(j as int));
        if stays {
            r.push(votes[j]);
        }
        j = j + 1;
        proof {
            if i == n {
                assert(indices@.take(n as int) =~= indices@);
            }
        }
    }
    assert(votes@.take(j as int) =~= votes@);
    r
}

/// Drops the votes of disabled validators from a candidate, and tells whether there
/// were any.
pub fn drop_disabled_votes(
    candidate: &mut BackedCandidate,
    group: &Vec<ValidatorIndex>,
    disabled: &BTreeSet<u32>,
    core_index_enabled: bool,
) -> (dropped: bool)
    ensures
        final(candidate)@ == without_disabled(
            old(candidate)@,
            group@,
            disabled@,
            core_index_enabled,
        ),
        dropped == backed_by_disabled(old(candidate)@, group@, disabled@, core_index_enabled),
{
    let ghost given = candidate@;
    let total = candidate.validator_indices.len();
    let (indices, core_index) = candidate.validator_indices_and_core_index(core_index_enabled);
    let n = indices.len();
    let ghost all = disabled_members(group@, disabled@);
    // Members past the last validator index cannot have voted.
    let mut mask = BitString::repeat(false, 0);
    let mut i: usize = 0;
    while i < group.len() && i < n
        invariant
            i <= n == indices@.len() <= max_bits(),
            i <= group@.len(),
            all == disabled_members(group@, disabled@),
            mask@ =~= all.take(i as int),
        decreases n - i,
    {
        mask.push(disabled.contains(&group[i].0));
        i = i + 1;
    }
    let to_drop = mask.clone().and(&indices);
    let count = to_drop.count_ones();
    let votes = drop_votes(&candidate.validity_votes, &indices, &mask);
    let ghost short = mask@;
    let ghost voters = indices@;
    let remaining = indices.and(&mask.not());
    candidate.set_validator_indices_and_core_index(remaining, core_index);
    candidate.validity_votes = votes;
    proof {
        assert(remaining@ =~= masked(voters, flipped(all)));
        same_survivors(given.validity_votes, voters, short, all);
        ones_zero_iff_clear(to_drop@);
        if count > 0 {
            let k = choose|k: int| 0 <= k < to_drop@.len() && to_drop@[k];
            assert(bit_at(voters, k) && bit_at(all, k));
        }
        if backed_by_disabled(given, group@, disabled@, core_index_enabled) {
            let k = choose|k: int| bit_at(voters, k) && #[trigger] bit_at(all, k);
            assert(to_drop@[k]);
        }
    }
    count > 0
}

/// A mask matters only where there are voters.
proof fn same_survivors(
    votes: Seq<ValidityAttestation>,
    indices: Seq<bool>,
    a: Seq<bool>,
    b: Seq<bool>,
)
    requires
        forall|i: int| 0 <= i < indices.len() ==> bit_at(a, i) == bit_at(b, i),
    ensures
        surviving_votes(votes, indices, a) == surviving_votes(votes, indices, b),
    decreases votes.len(),
{
    if votes.len() > 0 {
        same_survivors(votes.drop_last(), indices, a, b);
        nth_set_in_range(indices, votes.len() - 1);
    }
}

proof fn nth_set_in_range(bits: Seq<bool>, j: int)
    ensures
        nth_set(bits, j) matches Some(i) ==> 0 <= i < bits.len() && bits[i],
    decreases bits.len(),
{
    if bits.len() > 0 {
        nth_set_in_range(bits.drop_last(), j);
    }
}

/// Drops the votes of disabled validators from candidates on cores, and with them
/// every candidate that is left with too few votes or whose group is not known.
/// Tells whether anything was dropped.
///
/// The validator indices of a candidate are indices within the group that is
/// assigned to its core at the relay chain block that follows its relay parent.
pub fn filter_backed_statements_from_disabled_validators<T: System + Scheduler>(
    runtime: &T,
    backed_candidates_with_core: &mut Vec<(BackedCandidate, CoreIndex)>,
    allowed_relay_parents: &AllowedRelayParentsTracker,
    core_index_enabled: bool,
) -> (changed: bool)
    ensures
        disabled_dropped::<T>(
            *runtime,
            *allowed_relay_parents,
            core_index_enabled,
            old(backed_candidates_with_core)@,
            views_with_core(final(backed_candidates_with_core)@),
            changed,
        ),
{
    let disabled_validators = runtime.disabled_validators();
    if disabled_validators.len() == 0 {
        return false;
    }
    let disabled = collect_indices(&disabled_validators);
    let ghost before = backed_candidates_with_core@;
    let ghost views = views_with_core(before);
    let ghost mut groups: Seq<Option<Seq<ValidatorIndex>>> = Seq::empty();
    let len_before = backed_candidates_with_core.len();
    let mut filtered = false;
    let config = runtime.configuration();
    let minimum_backing_votes = config.minimum_backing_votes;
    let mut kept: Vec<(BackedCandidate, CoreIndex)> = Vec::new();
    let mut all: Vec<(BackedCandidate, CoreIndex)> = Vec::new();
    std::mem::swap(&mut all, backed_candidates_with_core);
    for entry in it: all.into_iter()
        invariant
            it.seq() == before,
            views == views_with_core(before),
            groups_of::<T>(*runtime, *allowed_relay_parents, views.take(it.index()), groups),
            ({
                let so_far = filter_votes(
                    views.take(it.index()),
                    groups,
                    disabled@,
                    minimum_backing_votes,
                    core_index_enabled,
                );
                views_with_core(kept@) == so_far.kept && filtered == so_far.dropped_votes
            }),
    {
        let ghost entry_view = (entry.0@, entry.1);
        let (mut candidate, core) = entry;
        let group = find_backing_group::<T>(
            runtime,
            allowed_relay_parents,
            candidate.candidate.relay_parent,
            core,
        );
        proof {
            assert(views.take(it.index() + 1).drop_last() =~= views.take(it.index()));
            assert(views.take(it.index() + 1).last() == entry_view);
            assert(groups.push(members(group)).drop_last() =~= groups);
            groups = groups.push(members(group));
        }
        if let Some(validators) = group {
            if drop_disabled_votes(&mut candidate, &validators, &disabled, core_index_enabled) {
                filtered = true;
            }
            if candidate.validity_votes.len() >= effective_minimum_backing_votes(
                validators.len(),
                minimum_backing_votes,
            ) {
                let ghost kept_before = kept@;
                kept.push((candidate, core));
                assert(views_with_core(kept@) =~= views_with_core(kept_before).push(
                    (candidate@, core),
                ));
            }
        }
    }
    assert(views.take(before.len() as int) =~= views);
    let len_after = kept.len();
    *backed_candidates_with_core = kept;
    filtered || len_before != len_after
}

/// The last bit makes no difference to the set bits before it.
proof fn same_survivors_without_last(
    votes: Seq<ValidityAttestation>,
    indices: Seq<bool>,
    drop: Seq<bool>,
)
    requires
        indices.len() > 0,
        votes.len() <= ones(indices.drop_last()),
    ensures
        surviving_votes(votes, indices, drop) == surviving_votes(votes, indices.drop_last(), drop),
    decreases votes.len(),
{
    if votes.len() > 0 {
        same_survivors_without_last(votes.drop_last(), indices, drop);
    }
}

/// Where each voter has one vote, as many votes as voters remain.
proof fn survivors_match_voters(
    votes: Seq<ValidityAttestation>,
    indices: Seq<bool>,
    drop: Seq<bool>,
)
    requires
        votes.len() == ones(indices),
        indices.len() <= drop.len(),
    ensures
        surviving_votes(votes, indices, drop).len() == ones(masked(indices, flipped(drop))),
    decreases indices.len(),
{
    if indices.len() > 0 {
        let fewer = indices.drop_last();
        let rest = masked(indices, flipped(drop));
        assert(rest.drop_last() =~= masked(fewer, flipped(drop)));
        if indices.last() {
            survivors_match_voters(votes.drop_last(), fewer, drop);
            same_survivors_without_last(votes.drop_last(), indices, drop);
        } else {
            survivors_match_voters(votes, fewer, drop);
            same_survivors_without_last(votes, indices, drop);
        }
    }
}

/// How a candidate splits once the votes of disabled validators are dropped: the bits
/// of the group are masked, and the core index is the same.
pub proof fn split_without_disabled(
    candidate: BackedCandidateView,
    group: Seq<ValidatorIndex>,
    disabled: Set<u32>,
    core_index_enabled: bool,
)
    ensures
        ({
            let rest = without_disabled(candidate, group, disabled, core_index_enabled);
            &&& rest.group_indices(core_index_enabled) == masked(
                candidate.group_indices(core_index_enabled),
                flipped(disabled_members(group, disabled)),
            )
            &&& rest.core_index(core_index_enabled) == candidate.core_index(core_index_enabled)
        }),
{
    let indices = masked(
        candidate.group_indices(core_index_enabled),
        flipped(disabled_members(group, disabled)),
    );
    if candidate.has_core_index(core_index_enabled) {
        core_index_is_a_byte(candidate, core_index_enabled);
        let core = candidate.core_index(core_index_enabled)->0;
        core_index_survives_injection(candidate, indices, core);
        let rest = without_disabled(candidate, group, disabled, core_index_enabled);
        assert(rest.validator_indices.len() == candidate.validator_indices.len()) by {
            low_bits_len(core.0 as nat, 8);
        }
    }
}

/// No disabled validator is left among those that back a candidate, and the core
/// that the candidate asks for is the same as before.
pub proof fn no_disabled_backer_remains(
    candidate: BackedCandidateView,
    group: Seq<ValidatorIndex>,
    disabled: Set<u32>,
    core_index_enabled: bool,
)
    ensures
        ({
            let rest = without_disabled(candidate, group, disabled, core_index_enabled);
            &&& !backed_by_disabled(rest, group, disabled, core_index_enabled)
            &&& rest.core_index(core_index_enabled) == candidate.core_index(core_index_enabled)
        }),
{
    split_without_disabled(candidate, group, disabled, core_index_enabled);
}

/// Where a candidate has one vote for each validator that backs it, all of them in
/// its group, it still has once the disabled ones are dropped.
pub proof fn one_vote_per_backer_remains(
    candidate: BackedCandidateView,
    group: Seq<ValidatorIndex>,
    disabled: Set<u32>,
    core_index_enabled: bool,
)
    requires
        candidate.group_indices(core_index_enabled).len() <= group.len(),
        candidate.validity_votes.len() == ones(candidate.group_indices(core_index_enabled)),
    ensures
        ({
            let rest = without_disabled(candidate, group, disabled, core_index_enabled);
            rest.validity_votes.len() == ones(rest.group_indices(core_index_enabled))
        }),
{
    split_without_disabled(candidate, group, disabled, core_index_enabled);
    survivors_match_voters(
        candidate.validity_votes,
        candidate.group_indices(core_index_enabled),
        disabled_members(group, disabled),
    );
}

/// A candidate that only members of its group back, none of them disabled, is left as
/// it is.
pub proof fn enabled_votes_stay(
    candidate: BackedCandidateView,
    group: Seq<ValidatorIndex>,
    disabled: Set<u32>,
    core_index_enabled: bool,
)
    requires
        forall|i: int| #[trigger]
            bit_at(candidate.group_indices(core_index_enabled), i) ==> i < group.len(),
        !backed_by_disabled(candidate, group, disabled, core_index_enabled),
    ensures
        without_disabled(candidate, group, disabled, core_index_enabled) == candidate,
{
    let indices = candidate.group_indices(core_index_enabled);
    let drop = disabled_members(group, disabled);
    assert forall|i: int| 0 <= i < indices.len() && #[trigger] indices[i] implies !bit_at(
        drop,
        i,
    ) && bit_at(flipped(drop), i) by {
        assert(bit_at(indices, i));
        assert(i < drop.len());
        assert(!bit_at(drop, i));
        assert(flipped(drop)[i] == !drop[i]);
    }
    assert(masked(indices, flipped(drop)) =~= indices);
    all_votes_survive(candidate.validity_votes, indices, drop);
    core_index_rejoins(candidate, core_index_enabled);
}

proof fn all_votes_survive(votes: Seq<ValidityAttestation>, indices: Seq<bool>, drop: Seq<bool>)
    requires
        forall|i: int| 0 <= i < indices.len() && #[trigger] indices[i] ==> !bit_at(drop, i),
    ensures
        surviving_votes(votes, indices, drop) == votes,
    decreases votes.len(),
{
    if votes.len() > 0 {
        all_votes_survive(votes.drop_last(), indices, drop);
        nth_set_in_range(indices, votes.len() - 1);
        assert(votes.drop_last().push(votes.last()) =~= votes);
    }
}

/// Dropping the votes of disabled validators a second time changes nothing.
pub proof fn dropping_disabled_votes_twice(
    candidate: BackedCandidateView,
    group: Seq<ValidatorIndex>,
    disabled: Set<u32>,
    core_index_enabled: bool,
)
    ensures
        ({
            let once = without_disabled(candidate, group, disabled, core_index_enabled);
            without_disabled(once, group, disabled, core_index_enabled) == once
        }),
{
    let once = without_disabled(candidate, group, disabled, core_index_enabled);
    split_without_disabled(candidate, group, disabled, core_index_enabled);
    no_disabled_backer_remains(candidate, group, disabled, core_index_enabled);
    enabled_votes_stay(once, group, disabled, core_index_enabled);
}

/// Whether a candidate with a known group keeps enough votes once those of disabled
/// validators are dropped.
pub open spec fn keeps_enough_votes(
    candidate: BackedCandidateView,
    group: Option<Seq<ValidatorIndex>>,
    disabled: Set<u32>,
    minimum_backing_votes: u32,
    core_index_enabled: bool,
) -> bool {
    group matches Some(group) && without_disabled(
        candidate,
        group,
        disabled,
        core_index_enabled,
    ).validity_votes.len() >= votes_needed(group.len(), minimum_backing_votes)
}

/// Whether `kept` are the candidates at the given places, in order, without the votes
/// of disabled validators, each with enough votes left.
pub open spec fn kept_from(
    kept: Seq<(BackedCandidateView, CoreIndex)>,
    candidates: Seq<(BackedCandidateView, CoreIndex)>,
    groups: Seq<Option<Seq<ValidatorIndex>>>,
    disabled: Set<u32>,
    minimum_backing_votes: u32,
    core_index_enabled: bool,
    places: Seq<int>,
) -> bool {
    &&& places.len() == kept.len()
    &&& forall|j: int, k: int| 0 <= j < k < places.len() ==> places[j] < places[k]
    &&& forall|k: int|
        0 <= k < kept.len() ==> {
            let i = #[trigger] places[k];
            &&& 0 <= i < candidates.len()
            &&& keeps_enough_votes(
                candidates[i].0,
                groups[i],
                disabled,
                minimum_backing_votes,
                core_index_enabled,
            )
            &&& kept[k].0 == without_disabled(
                candidates[i].0,
                groups[i]->0,
                disabled,
                core_index_enabled,
            )
            &&& kept[k].1 == candidates[i].1
        }
}

/// The candidates that are kept are some of the candidates, in their order and on their
/// cores, without the votes of disabled validators, each with enough votes left.
pub proof fn kept_candidates_have_enough_votes(
    candidates: Seq<(BackedCandidateView, CoreIndex)>,
    groups: Seq<Option<Seq<ValidatorIndex>>>,
    disabled: Set<u32>,
    minimum_backing_votes: u32,
    core_index_enabled: bool,
)
    requires
        groups.len() == candidates.len(),
    ensures
        exists|places: Seq<int>| #[trigger]
            kept_from(
                filter_votes(
                    candidates,
                    groups,
                    disabled,
                    minimum_backing_votes,
                    core_index_enabled,
                ).kept,
                candidates,
                groups,
                disabled,
                minimum_backing_votes,
                core_index_enabled,
                places,
            ),
    decreases candidates.len(),
{
    let m = minimum_backing_votes;
    let e = core_index_enabled;
    let kept = filter_votes(candidates, groups, disabled, m, e).kept;
    if candidates.len() == 0 {
        assert(kept_from(kept, candidates, groups, disabled, m, e, Seq::empty()));
    } else {
        let fewer = candidates.drop_last();
        let fewer_groups = groups.drop_last();
        kept_candidates_have_enough_votes(fewer, fewer_groups, disabled, m, e);
        let before = filter_votes(fewer, fewer_groups, disabled, m, e).kept;
        let places = choose|places: Seq<int>| #[trigger]
            kept_from(before, fewer, fewer_groups, disabled, m, e, places);
        let top = candidates.len() - 1;
        if keeps_enough_votes(candidates[top].0, groups[top], disabled, m, e) {
            assert(kept_from(kept, candidates, groups, disabled, m, e, places.push(top)));
        } else {
            assert(kept_from(kept, candidates, groups, disabled, m, e, places));
        }
    }
}

/// Candidates that no disabled validator backs, none but members of their groups, with
/// enough votes, are all kept as they are.
pub proof fn clean_candidates_are_kept(
    candidates: Seq<(BackedCandidateView, CoreIndex)>,
    groups: Seq<Option<Seq<ValidatorIndex>>>,
    disabled: Set<u32>,
    minimum_backing_votes: u32,
    core_index_enabled: bool,
)
    requires
        groups.len() == candidates.len(),
        forall|k: int|
            0 <= k < candidates.len() ==> {
                let candidate = (#[trigger] candidates[k]).0;
                &&& groups[k] is Some
                &&& candidate == without_disabled(
                    candidate,
                    groups[k]->0,
                    disabled,
                    core_index_enabled,
                )
                &&& !backed_by_disabled(candidate, groups[k]->0, disabled, core_index_enabled)
                &&& candidate.validity_votes.len() >= votes_needed(
                    groups[k]->0.len(),
                    minimum_backing_votes,
                )
            },
    ensures
        filter_votes(candidates, groups, disabled, minimum_backing_votes, core_index_enabled) == (
        Filtered { kept: candidates, dropped_votes: false }),
    decreases candidates.len(),
{
    if candidates.len() == 0 {
        assert(candidates =~= Seq::empty());
    } else {
        let fewer = candidates.drop_last();
        assert forall|k: int| 0 <= k < fewer.len() implies {
            let candidate = (#[trigger] fewer[k]).0;
            let group = groups.drop_last()[k];
            &&& group is Some
            &&& candidate == without_disabled(candidate, group->0, disabled, core_index_enabled)
            &&& !backed_by_disabled(candidate, group->0, disabled, core_index_enabled)
            &&& candidate.validity_votes.len() >= votes_needed(
                group->0.len(),
                minimum_backing_votes,
            )
        } by {
            assert(candidates[k] == fewer[k]);
        }
        clean_candidates_are_kept(
            fewer,
            groups.drop_last(),
            disabled,
            minimum_backing_votes,
            core_index_enabled,
        );
        let last = candidates[candidates.len() - 1];
        assert(fewer.push(last) =~= candidates);
    }
}

/// Dropping votes adds none.
pub proof fn no_votes_are_added(
    votes: Seq<ValidityAttestation>,
    indices: Seq<bool>,
    drop: Seq<bool>,
)
    ensures
        surviving_votes(votes, indices, drop).len() <= votes.len(),
    decreases votes.len(),
{
    if votes.len() > 0 {
        no_votes_are_added(votes.drop_last(), indices, drop);
    }
}

/// How many bits are set before a place.
pub open spec fn rank(bits: Seq<bool>, i: int) -> nat {
    bits.subrange(0, i).filter(|b: bool| b).len()
}

/// How many of a candidate's validator indices belong to its group: all but the last eight
/// where these are a core index.
pub open spec fn group_bits(candidate: BackedCandidateView, core_index_enabled: bool) -> int {
    if core_index_enabled && candidate.validator_indices.len() > 8 {
        candidate.validator_indices.len() - 8
    } else {
        candidate.validator_indices.len() as int
    }
}

/// Whether the bit at a place is that of a disabled validator that voted.
pub open spec fn is_disabled_voter(
    candidate: BackedCandidateView,
    group: Seq<ValidatorIndex>,
    disabled: Set<u32>,
    core_index_enabled: bool,
    i: int,
) -> bool {
    &&& 0 <= i < group_bits(candidate, core_index_enabled)
    &&& candidate.validator_indices[i]
    &&& i < group.len()
    &&& disabled.contains(group[i].0)
}

/// Whether `rest` is what is left of a candidate: its receipt; every bit of its group but
/// those of disabled validators and those past the end of the group; the bits behind these
/// as they were; and, in order, the votes at the given places, which are all places but
/// those of disabled voters, where the vote of a voter stands at the number of voters before
/// it.
pub open spec fn is_left_of(
    candidate: BackedCandidateView,
    group: Seq<ValidatorIndex>,
    disabled: Set<u32>,
    core_index_enabled: bool,
    rest: BackedCandidateView,
    places: Seq<int>,
) -> bool {
    let bits = candidate.validator_indices;
    let n = group_bits(candidate, core_index_enabled);
    &&& rest.candidate == candidate.candidate
    &&& rest.validator_indices.len() == bits.len()
    &&& forall|i: int|
        0 <= i < n ==> (#[trigger] rest.validator_indices[i] <==> bits[i] && i < group.len()
            && !disabled.contains(group[i].0))
    &&& forall|i: int| n <= i < bits.len() ==> #[trigger] rest.validator_indices[i] == bits[i]
    &&& places.len() == rest.validity_votes.len()
    &&& forall|i: int, j: int| 0 <= i < j < places.len() ==> places[i] < places[j]
    &&& forall|j: int|
        0 <= j < places.len() ==> 0 <= #[trigger] places[j] < candidate.validity_votes.len()
            && rest.validity_votes[j] == candidate.validity_votes[places[j]]
    &&& forall|r: int|
        0 <= r < candidate.validity_votes.len() ==> (#[trigger] places.contains(r) <==> !(exists|
            i: int,
        | #[trigger]
            is_disabled_voter(candidate, group, disabled, core_index_enabled, i) && rank(bits, i)
                == r))
}

/// A set bit that is found stands where as many set bits are before it as it is asked for.
proof fn nth_set_rank(bits: Seq<bool>, j: int)
    ensures
        nth_set(bits, j) matches Some(i) ==> 0 <= i < bits.len() && bits[i] && ones(bits.take(i))
            == j,
    decreases bits.len(),
{
    if bits.len() > 0 {
        let shorter = bits.drop_last();
        nth_set_rank(shorter, j);
        if bits.last() && ones(shorter) == j {
            assert(bits.take(bits.len() - 1) =~= shorter);
        } else if let Some(i) = nth_set(shorter, j) {
            assert(bits.take(i) =~= shorter.take(i));
        }
    }
}

/// The votes that survive, one by one.
proof fn survivors_one_by_one(
    votes: Seq<ValidityAttestation>,
    indices: Seq<bool>,
    drop: Seq<bool>,
) -> (places: Seq<int>)
    ensures
        places.len() == surviving_votes(votes, indices, drop).len(),
        forall|i: int, j: int| 0 <= i < j < places.len() ==> places[i] < places[j],
        forall|j: int|
            0 <= j < places.len() ==> 0 <= #[trigger] places[j] < votes.len() && surviving_votes(
                votes,
                indices,
                drop,
            )[j] == votes[places[j]] && vote_stays(indices, drop, places[j]),
        forall|r: int|
            0 <= r < votes.len() && #[trigger] vote_stays(indices, drop, r) ==> places.contains(r),
    decreases votes.len(),
{
    if votes.len() == 0 {
        Seq::empty()
    } else {
        let fewer = votes.drop_last();
        let top = votes.len() - 1;
        let before = survivors_one_by_one(fewer, indices, drop);
        let left = surviving_votes(votes, indices, drop);
        let places = if vote_stays(indices, drop, top) {
            before.push(top)
        } else {
            before
        };
        assert forall|j: int| 0 <= j < places.len() implies 0 <= #[trigger] places[j] < votes.len()
            && left[j] == votes[places[j]] && vote_stays(indices, drop, places[j]) by {
            if j < before.len() {
                assert(0 <= before[j] < top);
            }
        }
        assert forall|r: int|
            0 <= r < votes.len() && #[trigger] vote_stays(indices, drop, r) implies places.contains(
            r,
        ) by {
            if r < top {
                assert(places[before.index_of(r)] == r);
            } else {
                assert(places[before.len() as int] == r);
            }
        }
        places
    }
}

/// What dropping the votes of disabled validators leaves of a candidate, bit by bit and vote
/// by vote.
pub proof fn dropping_goes_vote_by_vote(
    candidate: BackedCandidateView,
    group: Seq<ValidatorIndex>,
    disabled: Set<u32>,
    core_index_enabled: bool,
) -> (places: Seq<int>)
    ensures
        is_left_of(
            candidate,
            group,
            disabled,
            core_index_enabled,
            without_disabled(candidate, group, disabled, core_index_enabled),
            places,
        ),
        backed_by_disabled(candidate, group, disabled, core_index_enabled) <==> exists|i: int|
            #[trigger]
            is_disabled_voter(candidate, group, disabled, core_index_enabled, i),
{
    let bits = candidate.validator_indices;
    let n = group_bits(candidate, core_index_enabled);
    let indices = candidate.group_indices(core_index_enabled);
    let drop = disabled_members(group, disabled);
    let rest = without_disabled(candidate, group, disabled, core_index_enabled);
    core_index_is_in_the_last_eight_bits(candidate, core_index_enabled);
    assert(indices =~= bits.subrange(0, n));
    core_index_rejoins(candidate, core_index_enabled);
    let clean = masked(indices, flipped(drop));
    assert forall|i: int| 0 <= i < n implies (#[trigger] clean[i] <==> bits[i] && i < group.len()
        && !disabled.contains(group[i].0)) by {
    }
    if core_index_enabled && bits.len() > 8 {
        let core = candidate.core_index(core_index_enabled)->0;
        low_bits_len(core.0 as nat, 8);
        assert(rest.validator_indices == clean + low_bits(core.0 as nat, 8));
        assert(bits == indices + low_bits(core.0 as nat, 8));
    }
    let places = survivors_one_by_one(candidate.validity_votes, indices, drop);
    assert forall|i: int| 0 <= i < n implies rank(bits, i) == #[trigger] ones(indices.take(i)) by {
        assert(bits.subrange(0, i) =~= indices.take(i));
        bits_one_by_one(indices.take(i), Seq::empty(), 0, 0);
    }
    assert forall|r: int| 0 <= r < candidate.validity_votes.len() implies (
    #[trigger] places.contains(r) <==> !(exists|i: int| #[trigger]
        is_disabled_voter(candidate, group, disabled, core_index_enabled, i) && rank(bits, i)
            == r)) by {
        nth_set_rank(indices, r);
        if exists|i: int| #[trigger]
            is_disabled_voter(candidate, group, disabled, core_index_enabled, i) && rank(bits, i)
                == r {
            let i = choose|i: int| #[trigger]
                is_disabled_voter(candidate, group, disabled, core_index_enabled, i) && rank(
                    bits,
                    i,
                ) == r;
            nth_set_found(indices, i);
            assert(ones(indices.take(i)) == r);
            assert(bit_at(drop, i));
            assert(!vote_stays(indices, drop, r));
            if places.contains(r) {
                assert(vote_stays(indices, drop, places[places.index_of(r)]));
            }
        } else {
            if let Some(i) = nth_set(indices, r) {
                if bit_at(drop, i) {
                    assert(ones(indices.take(i)) == r);
                    assert(is_disabled_voter(candidate, group, disabled, core_index_enabled, i));
                    assert(rank(bits, i) == r);
                }
            }
            assert(vote_stays(indices, drop, r));
        }
    }
    if backed_by_disabled(candidate, group, disabled, core_index_enabled) {
        let i = choose|i: int| bit_at(indices, i) && #[trigger] bit_at(drop, i);
        assert(is_disabled_voter(candidate, group, disabled, core_index_enabled, i));
    }
    if exists|i: int| #[trigger]
        is_disabled_voter(candidate, group, disabled, core_index_enabled, i) {
        let i = choose|i: int| #[trigger]
            is_disabled_voter(candidate, group, disabled, core_index_enabled, i);
        assert(bit_at(indices, i) && bit_at(drop, i));
    }
    places
}

/// The smaller of how many members a group has and how many votes are configured.
pub proof fn votes_needed_is_the_smaller(group_len: nat, configured_minimum: u32)
    ensures
        votes_needed(group_len, configured_minimum) <= group_len,
        votes_needed(group_len, configured_minimum) <= configured_minimum,
        votes_needed(group_len, configured_minimum) == group_len || votes_needed(
            group_len,
            configured_minimum,
        ) == configured_minimum,
{
}

/// What is left of candidates, one by one: those whose group is known and which have as many
/// votes left as the smaller of the group's size and the configured minimum, in order; and a
/// vote was dropped exactly if a disabled validator voted for a candidate with a known
/// group.
proof fn filter_one_by_one(
    candidates: Seq<(BackedCandidateView, CoreIndex)>,
    groups: Seq<Option<Seq<ValidatorIndex>>>,
    disabled: Set<u32>,
    minimum: u32,
    core_index_enabled: bool,
) -> (places: Seq<int>)
    requires
        groups.len() == candidates.len(),
    ensures
        ({
            let filtered = filter_votes(candidates, groups, disabled, minimum, core_index_enabled);
            &&& kept_from(
                filtered.kept,
                candidates,
                groups,
                disabled,
                minimum,
                core_index_enabled,
                places,
            )
            &&& forall|i: int|
                0 <= i < candidates.len() && keeps_enough_votes(
                    (#[trigger] candidates[i]).0,
                    groups[i],
                    disabled,
                    minimum,
                    core_index_enabled,
                ) ==> places.contains(i)
            &&& filtered.dropped_votes <==> exists|i: int|
                0 <= i < candidates.len() && groups[i] is Some && backed_by_disabled(
                    (#[trigger] candidates[i]).0,
                    groups[i]->0,
                    disabled,
                    core_index_enabled,
                )
        }),
    decreases candidates.len(),
{
    let m = minimum;
    let e = core_index_enabled;
    let now = filter_votes(candidates, groups, disabled, m, e);
    if candidates.len() == 0 {
        Seq::empty()
    } else {
        let fewer = candidates.drop_last();
        let fewer_groups = groups.drop_last();
        let top = candidates.len() - 1;
        let before = filter_votes(fewer, fewer_groups, disabled, m, e);
        let places = filter_one_by_one(fewer, fewer_groups, disabled, m, e);
        let stays = keeps_enough_votes(candidates[top].0, groups[top], disabled, m, e);
        let more = if stays {
            places.push(top)
        } else {
            places
        };
        assert(kept_from(now.kept, candidates, groups, disabled, m, e, more)) by {
            assert forall|k: int| 0 <= k < now.kept.len() implies {
                let i = #[trigger] more[k];
                &&& 0 <= i < candidates.len()
                &&& keeps_enough_votes(candidates[i].0, groups[i], disabled, m, e)
                &&& now.kept[k].0 == without_disabled(candidates[i].0, groups[i]->0, disabled, e)
                &&& now.kept[k].1 == candidates[i].1
            } by {
                if k < places.len() {
                    assert(0 <= places[k] < top);
                    assert(fewer[places[k]] == candidates[places[k]]);
                }
            }
        }
        assert forall|i: int|
            0 <= i < candidates.len() && keeps_enough_votes(
                (#[trigger] candidates[i]).0,
                groups[i],
                disabled,
                m,
                e,
            ) implies more.contains(i) by {
            if i < top {
                assert(fewer[i] == candidates[i]);
                assert(more[places.index_of(i)] == i);
            } else {
                assert(more[places.len() as int] == i);
            }
        }
        if before.dropped_votes {
            let i = choose|i: int|
                0 <= i < fewer.len() && fewer_groups[i] is Some && backed_by_disabled(
                    (#[trigger] fewer[i]).0,
                    fewer_groups[i]->0,
                    disabled,
                    e,
                );
            assert(candidates[i] == fewer[i]);
        }
        if exists|i: int|
            0 <= i < candidates.len() && groups[i] is Some && backed_by_disabled(
                (#[trigger] candidates[i]).0,
                groups[i]->0,
                disabled,
                e,
            ) {
            let i = choose|i: int|
                0 <= i < candidates.len() && groups[i] is Some && backed_by_disabled(
                    (#[trigger] candidates[i]).0,
                    groups[i]->0,
                    disabled,
                    e,
                );
            if i < top {
                assert(fewer[i] == candidates[i]);
            }
        }
        more
    }
}

/// What the runtime said of disabled validators, of the configuration and of groups, what
/// dropping votes leaves of each candidate with the places of the votes, and the places of
/// the candidates that stay.
pub struct Filtration {
    pub disabled: Vec<ValidatorIndex>,
    pub config: HostConfiguration,
    pub groups: Seq<Option<Seq<ValidatorIndex>>>,
    pub rest: Seq<BackedCandidateView>,
    pub votes: Seq<Seq<int>>,
    pub stayed: Seq<int>,
}

/// Whether a validator is disabled, as the runtime said.
pub open spec fn is_listed(disabled: Seq<ValidatorIndex>, index: u32) -> bool {
    exists|k: int| 0 <= k < disabled.len() && (#[trigger] disabled[k]).0 == index
}

/// The disabled validators, as the runtime said.
pub open spec fn listed(disabled: Seq<ValidatorIndex>) -> Set<u32> {
    Set::new(|v: u32| is_listed(disabled, v))
}

impl Filtration {
    /// Whether everything goes as it should. Where the runtime says that no validator is
    /// disabled, everything stays and nothing changed. Otherwise each candidate loses the
    /// votes of disabled validators; those stay, in order and on their cores, whose group is
    /// known and which have enough votes left; and something changed exactly if one does not
    /// stay or a disabled validator voted for one with a known group.
    pub open spec fn is_right<T: System + Scheduler>(
        self,
        runtime: T,
        allowed_relay_parents: AllowedRelayParentsTracker,
        core_index_enabled: bool,
        before: Seq<(BackedCandidate, CoreIndex)>,
        after: Seq<(BackedCandidateView, CoreIndex)>,
        changed: bool,
    ) -> bool {
        &&& call_ensures(T::disabled_validators, (&runtime,), self.disabled)
        &&& self.disabled@.len() == 0 ==> !changed && after.len() == before.len() && forall|k: int|
            0 <= k < before.len() ==> (#[trigger] after[k]).0 == before[k].0@ && after[k].1
                == before[k].1
        &&& self.disabled@.len() > 0 ==> {
            &&& call_ensures(T::configuration, (&runtime,), self.config)
            &&& self.groups.len() == before.len()
            &&& self.rest.len() == before.len()
            &&& self.votes.len() == before.len()
            &&& self.stayed.len() == after.len()
            &&& forall|k: int|
                0 <= k < before.len() ==> backing_group::<T>(
                    runtime,
                    allowed_relay_parents,
                    before[k].0.candidate.relay_parent,
                    before[k].1,
                    #[trigger] self.groups[k],
                )
            &&& forall|k: int|
                0 <= k < before.len() && (#[trigger] self.groups[k]) is Some ==> is_left_of(
                    before[k].0@,
                    self.groups[k]->0,
                    listed(self.disabled@),
                    core_index_enabled,
                    self.rest[k],
                    self.votes[k],
                )
            &&& forall|i: int, j: int|
                0 <= i < j < self.stayed.len() ==> self.stayed[i] < self.stayed[j]
            &&& forall|i: int|
                0 <= i < after.len() ==> 0 <= #[trigger] self.stayed[i] < before.len() && after[i].0
                    == self.rest[self.stayed[i]] && after[i].1 == before[self.stayed[i]].1
            &&& forall|k: int|
                0 <= k < before.len() ==> (#[trigger] self.stayed.contains(k) <==> (
                self.groups[k] matches Some(group) && (self.rest[k].validity_votes.len()
                    >= group.len() || self.rest[k].validity_votes.len() >= self.config.minimum_backing_votes)))
            &&& changed <==> after.len() != before.len() || exists|k: int, i: int|
                0 <= k < before.len() && self.groups[k] is Some && #[trigger] is_disabled_voter(
                    before[k].0@,
                    self.groups[k]->0,
                    listed(self.disabled@),
                    core_index_enabled,
                    i,
                )
        }
    }
}

/// What dropping the votes of disabled validators gives, in plain terms. Where the runtime
/// says that no validator is disabled, everything stays and nothing changed. Otherwise each
/// candidate loses the votes of disabled validators; those stay, in order and on their
/// cores, whose group is known and which have enough votes left; and something changed
/// exactly if one does not stay or a disabled validator voted for one with a known group.
pub proof fn filtration_goes_candidate_by_candidate<T: System + Scheduler>(
    runtime: T,
    allowed_relay_parents: AllowedRelayParentsTracker,
    core_index_enabled: bool,
    before: Seq<(BackedCandidate, CoreIndex)>,
    after: Seq<(BackedCandidateView, CoreIndex)>,
    changed: bool,
) -> (f: Filtration)
    requires
        disabled_dropped::<T>(
            runtime,
            allowed_relay_parents,
            core_index_enabled,
            before,
            after,
            changed,
        ),
    ensures
        f.is_right::<T>(
            runtime,
            allowed_relay_parents,
            core_index_enabled,
            before,
            after,
            changed,
        ),
{
    let views = views_with_core(before);
    let disabled = choose|disabled: Vec<ValidatorIndex>| #[trigger]
        call_ensures(T::disabled_validators, (&runtime,), disabled) && if disabled@.len() == 0 {
            after == views && !changed
        } else {
            exists|config: HostConfiguration, groups: Seq<Option<Seq<ValidatorIndex>>>|
                #![trigger
                    call_ensures(T::configuration, (&runtime,), config),
                    groups_of::<T>(runtime, allowed_relay_parents, views, groups)]
                {
                    &&& call_ensures(T::configuration, (&runtime,), config)
                    &&& groups_of::<T>(runtime, allowed_relay_parents, views, groups)
                    &&& ({
                        let filtered = filter_votes(
                            views,
                            groups,
                            index_set(disabled@),
                            config.minimum_backing_votes,
                            core_index_enabled,
                        );
                        &&& after == filtered.kept
                        &&& changed == (filtered.dropped_votes || filtered.kept.len()
                            != before.len())
                    })
                }
        };
    if disabled@.len() == 0 {
        Filtration {
            disabled,
            config: arbitrary(),
            groups: Seq::empty(),
            rest: Seq::empty(),
            votes: Seq::empty(),
            stayed: Seq::empty(),
        }
    } else {
        let set = index_set(disabled@);
        let (config, groups) = choose|
            config: HostConfiguration,
            groups: Seq<Option<Seq<ValidatorIndex>>>,
        |
            #![trigger
                call_ensures(T::configuration, (&runtime,), config),
                groups_of::<T>(runtime, allowed_relay_parents, views, groups)]
            {
                &&& call_ensures(T::configuration, (&runtime,), config)
                &&& groups_of::<T>(runtime, allowed_relay_parents, views, groups)
                &&& ({
                    let filtered = filter_votes(
                        views,
                        groups,
                        set,
                        config.minimum_backing_votes,
                        core_index_enabled,
                    );
                    &&& after == filtered.kept
                    &&& changed == (filtered.dropped_votes || filtered.kept.len() != before.len())
                })
            };
        let m = config.minimum_backing_votes;
        assert(set =~= listed(disabled@)) by {
            assert forall|v: u32| set.contains(v) <==> is_listed(disabled@, v) by {
                if set.contains(v) {
                    assert(disabled@[disabled@.index_of(ValidatorIndex(v))].0 == v);
                }
                if is_listed(disabled@, v) {
                    let k = choose|k: int|
                        0 <= k < disabled@.len() && (#[trigger] disabled@[k]).0 == v;
                    assert(disabled@[k] == ValidatorIndex(v));
                }
            }
        }
        let stayed = filter_one_by_one(views, groups, set, m, core_index_enabled);
        let rest = Seq::new(
            before.len(),
            |k: int| without_disabled(before[k].0@, groups[k]->0, set, core_index_enabled),
        );
        let votes = Seq::new(
            before.len(),
            |k: int|
                choose|places: Seq<int>| #[trigger]
                    is_left_of(
                        before[k].0@,
                        groups[k]->0,
                        set,
                        core_index_enabled,
                        rest[k],
                        places,
                    ),
        );
        let f = Filtration { disabled, config, groups, rest, votes, stayed };
        assert forall|k: int| 0 <= k < before.len() implies is_left_of(
            before[k].0@,
            groups[k]->0,
            set,
            core_index_enabled,
            #[trigger] rest[k],
            votes[k],
        ) by {
            let places = dropping_goes_vote_by_vote(
                before[k].0@,
                groups[k]->0,
                set,
                core_index_enabled,
            );
            assert(is_left_of(
                before[k].0@,
                groups[k]->0,
                set,
                core_index_enabled,
                rest[k],
                places,
            ));
        }
        assert forall|k: int|
            0 <= k < before.len() && (#[trigger] groups[k]) is Some implies is_left_of(
            before[k].0@,
            groups[k]->0,
            set,
            core_index_enabled,
            rest[k],
            votes[k],
        ) by {
            let r = rest[k];
        }
        assert forall|k: int| 0 <= k < before.len() implies (#[trigger] views[k]) == (
            before[k].0@,
            before[k].1,
        ) by {
        }
        assert forall|k: int| 0 <= k < before.len() implies (#[trigger] stayed.contains(k) <==> (
        groups[k] matches Some(group) && (rest[k].validity_votes.len() >= group.len()
            || rest[k].validity_votes.len() >= config.minimum_backing_votes))) by {
            let v = views[k];
            if let Some(group) = groups[k] {
                votes_needed_is_the_smaller(group.len(), m);
            }
            if stayed.contains(k) {
                let j = stayed.index_of(k);
                assert(keeps_enough_votes(
                    views[stayed[j]].0,
                    groups[stayed[j]],
                    set,
                    m,
                    core_index_enabled,
                ));
            }
        }
        assert forall|i: int| 0 <= i < after.len() implies 0 <= #[trigger] stayed[i] < before.len()
            && after[i].0 == rest[stayed[i]] && after[i].1 == before[stayed[i]].1 by {
            let v = views[stayed[i]];
        }
        let someone = exists|k: int, i: int|
            0 <= k < before.len() && groups[k] is Some && #[trigger] is_disabled_voter(
                before[k].0@,
                groups[k]->0,
                set,
                core_index_enabled,
                i,
            );
        let filtered = filter_votes(views, groups, set, m, core_index_enabled);
        if filtered.dropped_votes {
            let k = choose|k: int|
                0 <= k < views.len() && groups[k] is Some && backed_by_disabled(
                    (#[trigger] views[k]).0,
                    groups[k]->0,
                    set,
                    core_index_enabled,
                );
            let p = dropping_goes_vote_by_vote(before[k].0@, groups[k]->0, set, core_index_enabled);
            let i = choose|i: int| #[trigger]
                is_disabled_voter(before[k].0@, groups[k]->0, set, core_index_enabled, i);
            assert(someone);
        }
        if someone {
            let (k, i) = choose|k: int, i: int|
                0 <= k < before.len() && groups[k] is Some && #[trigger] is_disabled_voter(
                    before[k].0@,
                    groups[k]->0,
                    set,
                    core_index_enabled,
                    i,
                );
            let p = dropping_goes_vote_by_vote(before[k].0@, groups[k]->0, set, core_index_enabled);
            let v = views[k];
            assert(filtered.dropped_votes);
        }
        f
    }
}

/// What is shown of candidates on cores: the view of each, and its core.
pub proof fn views_with_core_one_by_one(candidates: Seq<(BackedCandidate, CoreIndex)>, k: int)
    ensures
        views_with_core(candidates).len() == candidates.len(),
        0 <= k < candidates.len() ==> views_with_core(candidates)[k].0 == candidates[k].0@
            && views_with_core(candidates)[k].1 == candidates[k].1,
{
}

/// Which indices are in a set of validators: exactly those of the validators.
pub proof fn index_set_one_by_one(validators: Seq<ValidatorIndex>, index: u32)
    ensures
        index_set(validators).contains(index) <==> exists|k: int|
            0 <= k < validators.len() && (#[trigger] validators[k]).0 == index,
{
    if index_set(validators).contains(index) {
        assert(validators[validators.index_of(ValidatorIndex(index))].0 == index);
    }
    if exists|k: int| 0 <= k < validators.len() && (#[trigger] validators[k]).0 == index {
        let k = choose|k: int| 0 <= k < validators.len() && (#[trigger] validators[k]).0 == index;
        assert(validators[k] == ValidatorIndex(index));
    }
}

} // verus!
