//! Making sure of backed candidates before they go on cores.

use crate::candidate::{BackedCandidate, BackedCandidateView};
use crate::cores::{
    assign, assignment_keeps_order, assignment_keeps_to_schedule, backing_group,
    cores_by_para, find_backing_group, gets_its_due, injected_core, injected_cores,
    lists_those_with_cores, map_candidates_to_cores, mapped, mapping_gives_candidates_their_due,
    members, places_fit, schedule, schedule_is_finite, stand_at, well_placed,
    well_placed_candidates_get_their_cores, ScheduledCores,
};
use crate::disabled::{
    backed_by_disabled, clean_candidates_are_kept, disabled_dropped, disabled_members,
    dropping_disabled_votes_twice, effective_minimum_backing_votes,
    filter_backed_statements_from_disabled_validators, filter_votes,
    filtration_goes_candidate_by_candidate, groups_of, index_set,
    keeps_enough_votes, kept_candidates_have_enough_votes, kept_from, no_disabled_backer_remains,
    no_votes_are_added,
    split_without_disabled, views_with_core, votes_needed,
    votes_needed_is_the_smaller, without_disabled, Filtration,
};
use crate::primitives::{CoreIndex, ParaId, ValidatorIndex};
use crate::relay_parents::AllowedRelayParentsTracker;
use crate::runtime::{HostConfiguration, Scheduler, System};
use vstd::prelude::*;

verus! {

/// What is left of backed candidates.
#[derive(Debug, PartialEq, Eq)]
pub struct SanitizedBackedCandidates {
    /// The candidates with their cores, sorted by core index.
    pub backed_candidates_with_core: Vec<(BackedCandidate, CoreIndex)>,
    /// Whether votes of disabled validators were dropped.
    pub votes_from_disabled_were_dropped: bool,
    /// Whether candidates were dropped because they got no core.
    pub dropped_unscheduled_candidates: bool,
}

/// Puts an item behind all those with a core index that is not greater.
pub open spec fn put_by_core<X>(sorted: Seq<(X, CoreIndex)>, item: (X, CoreIndex)) -> Seq<
    (X, CoreIndex),
>
    decreases sorted.len(),
{
    if sorted.len() == 0 || sorted.last().1.0 <= item.1.0 {
        sorted.push(item)
    } else {
        put_by_core(sorted.drop_last(), item).push(sorted.last())
    }
}

/// Items sorted by core index; those with the same core index keep their order.
pub open spec fn sorted_by_core<X>(items: Seq<(X, CoreIndex)>) -> Seq<(X, CoreIndex)>
    decreases items.len(),
{
    if items.len() == 0 {
        items
    } else {
        put_by_core(sorted_by_core(items.drop_last()), items.last())
    }
}

/// Where an item goes when it is put among sorted ones.
proof fn put_is_insert<X>(sorted: Seq<(X, CoreIndex)>, item: (X, CoreIndex), at: int)
    requires
        0 <= at <= sorted.len(),
        at > 0 ==> sorted[at - 1].1.0 <= item.1.0,
        forall|k: int| at <= k < sorted.len() ==> (#[trigger] sorted[k]).1.0 > item.1.0,
    ensures
        put_by_core(sorted, item) == sorted.insert(at, item),
    decreases sorted.len(),
{
    if at == sorted.len() {
        assert(sorted.insert(at, item) =~= sorted.push(item));
    } else {
        put_is_insert(sorted.drop_last(), item, at);
        assert(sorted.insert(at, item) =~= sorted.drop_last().insert(at, item).push(sorted.last()));
    }
}

/// Sorts candidates by core index.
pub fn sort_by_core(items: Vec<(BackedCandidate, CoreIndex)>) -> (r: Vec<
    (BackedCandidate, CoreIndex),
>)
    ensures
        r@ == sorted_by_core(items@),
{
    let ghost all = items@;
    let mut r: Vec<(BackedCandidate, CoreIndex)> = Vec::new();
    for item in it: items.into_iter()
        invariant
            it.seq() == all,
            r@ == sorted_by_core(all.take(it.index())),
    {
        assert(all.take(it.index() + 1).drop_last() =~= all.take(it.index()));
        let mut at: usize = r.len();
        while at > 0 && r[at - 1].1.0 > item.1.0
            invariant
                at <= r@.len(),
                forall|k: int| at <= k < r@.len() ==> (#[trigger] r@[k]).1.0 > item.1.0,
            decreases at,
        {
            at = at - 1;
        }
        proof {
            put_is_insert(r@, item, at as int);
        }
        r.insert(at, item);
    }
    assert(all.take(all.len() as int) =~= all);
    r
}

/// The relation between what a predicate is given, an item and its place, and what
/// it returns.
pub open spec fn verdicts_of<X, F: Fn(usize, &X) -> bool>(f: F) -> spec_fn(usize, X, bool) -> bool {
    |k: usize, item: X, verdict: bool| call_ensures(f, (k, &item), verdict)
}

/// Whether `verdicts` are verdicts on items at their places, one by one.
pub open spec fn judged<X>(
    predicate: spec_fn(usize, X, bool) -> bool,
    items: Seq<X>,
    verdicts: Seq<bool>,
) -> bool {
    &&& verdicts.len() == items.len()
    &&& forall|k: int|
        0 <= k < items.len() ==> predicate(k as usize, items[k], #[trigger] verdicts[k])
}

/// The items that no verdict went against, in order.
pub open spec fn acquitted<X>(items: Seq<X>, verdicts: Seq<bool>) -> Seq<X>
    decreases items.len(),
{
    if items.len() == 0 {
        items
    } else {
        let before = acquitted(items.drop_last(), verdicts.drop_last());
        if verdicts.last() {
            before
        } else {
            before.push(items.last())
        }
    }
}

/// Removes the items that a predicate goes against.
pub fn indexed_retain_not<X, F: Fn(usize, &X) -> bool>(items: Vec<X>, predicate: &F) -> (r: Vec<X>)
    requires
        forall|k: int|
            0 <= k < items@.len() ==> call_requires(
                *predicate,
                (k as usize, &#[trigger] items@[k]),
            ),
    ensures
        exists|verdicts: Seq<bool>| #[trigger]
            judged(verdicts_of(*predicate), items@, verdicts) && r@ == acquitted(items@, verdicts),
{
    let ghost all = items@;
    let ghost mut verdicts: Seq<bool> = Seq::empty();
    let n = items.len();
    let mut r: Vec<X> = Vec::new();
    let mut k: usize = 0;
    for item in it: items.into_iter()
        invariant
            it.seq() == all,
            n == all.len(),
            k == it.index(),
            forall|k: int|
                0 <= k < all.len() ==> call_requires(*predicate, (k as usize, &#[trigger] all[k])),
            judged(verdicts_of(*predicate), all.take(k as int), verdicts),
            r@ == acquitted(all.take(k as int), verdicts),
    {
        assert(item == all[k as int]);
        let verdict = predicate(k, &item);
        proof {
            assert(all.take(k + 1).drop_last() =~= all.take(k as int));
            assert(verdicts.push(verdict).drop_last() =~= verdicts);
            verdicts = verdicts.push(verdict);
        }
        if !verdict {
            r.push(item);
        }
        k = k + 1;
    }
    assert(all.take(k as int) =~= all);
    r
}

/// Whether a candidate has as many votes as its group wants. Where the group is not known
/// no number of votes is enough.
pub open spec fn has_enough_votes(
    candidate: BackedCandidateView,
    group: Option<Seq<ValidatorIndex>>,
    minimum_backing_votes: u32,
) -> bool {
    group matches Some(group) && candidate.validity_votes.len() >= votes_needed(
        group.len(),
        minimum_backing_votes,
    )
}

/// The candidates that have as many votes as their groups want, in order.
pub open spec fn well_backed(
    candidates: Seq<(BackedCandidateView, CoreIndex)>,
    groups: Seq<Option<Seq<ValidatorIndex>>>,
    minimum_backing_votes: u32,
) -> Seq<(BackedCandidateView, CoreIndex)>
    decreases candidates.len(),
{
    if candidates.len() == 0 {
        Seq::empty()
    } else {
        let before = well_backed(
            candidates.drop_last(),
            groups.drop_last(),
            minimum_backing_votes,
        );
        if has_enough_votes(candidates.last().0, groups.last(), minimum_backing_votes) {
            before.push(candidates.last())
        } else {
            before
        }
    }
}

/// Whether `kept` are those of the candidates on cores that have as many votes as their
/// groups want.
pub open spec fn under_backed_dropped<T: System + Scheduler>(
    runtime: T,
    allowed_relay_parents: AllowedRelayParentsTracker,
    candidates: Seq<(BackedCandidateView, CoreIndex)>,
    kept: Seq<(BackedCandidateView, CoreIndex)>,
) -> bool {
    exists|config: HostConfiguration, groups: Seq<Option<Seq<ValidatorIndex>>>| #[trigger]
        call_ensures(T::configuration, (&runtime,), config) && #[trigger] groups_of::<T>(
            runtime,
            allowed_relay_parents,
            candidates,
            groups,
        ) && kept == well_backed(candidates, groups, config.minimum_backing_votes)
}

/// Drops the candidates that have fewer votes than their groups want, or whose groups are
/// not known.
pub fn drop_under_backed<T: System + Scheduler>(
    runtime: &T,
    candidates: Vec<(BackedCandidate, CoreIndex)>,
    allowed_relay_parents: &AllowedRelayParentsTracker,
) -> (r: Vec<(BackedCandidate, CoreIndex)>)
    ensures
        under_backed_dropped::<T>(
            *runtime,
            *allowed_relay_parents,
            views_with_core(candidates@),
            views_with_core(r@),
        ),
{
    let ghost all = candidates@;
    let ghost views = views_with_core(all);
    let ghost mut groups: Seq<Option<Seq<ValidatorIndex>>> = Seq::empty();
    let config = runtime.configuration();
    let minimum_backing_votes = config.minimum_backing_votes;
    let mut kept: Vec<(BackedCandidate, CoreIndex)> = Vec::new();
    assert(views_with_core(kept@) =~= Seq::empty());
    for entry in it: candidates.into_iter()
        invariant
            it.seq() == all,
            views == views_with_core(all),
            groups_of::<T>(*runtime, *allowed_relay_parents, views.take(it.index()), groups),
            views_with_core(kept@) == well_backed(
                views.take(it.index()),
                groups,
                minimum_backing_votes,
            ),
    {
        let group = find_backing_group::<T>(
            runtime,
            allowed_relay_parents,
            entry.0.candidate.relay_parent,
            entry.1,
        );
        proof {
            assert(views.take(it.index() + 1).drop_last() =~= views.take(it.index()));
            assert(views.take(it.index() + 1).last() == (entry.0@, entry.1));
            assert(groups.push(members(group)).drop_last() =~= groups);
            groups = groups.push(members(group));
        }
        if let Some(validators) = group {
            if entry.0.validity_votes.len() >= effective_minimum_backing_votes(
                validators.len(),
                minimum_backing_votes,
            ) {
                let ghost kept_before = kept@;
                kept.push(entry);
                assert(views_with_core(kept@) =~= views_with_core(kept_before).push(
                    (entry.0@, entry.1),
                ));
            }
        }
    }
    assert(views.take(all.len() as int) =~= views);
    kept
}

/// Whether candidates on cores, and the two flags, are what becomes of backed
/// candidates: those that the predicate goes against are removed, the others go on
/// cores as [`mapped`] says, lose the votes of disabled validators as
/// [`disabled_dropped`] says, go if they have too few votes as
/// [`under_backed_dropped`] says, and are sorted by core index.
pub open spec fn sanitized_candidates<T: System + Scheduler>(
    runtime: T,
    candidates: Seq<BackedCandidate>,
    allowed_relay_parents: AllowedRelayParentsTracker,
    invalid: spec_fn(usize, BackedCandidate, bool) -> bool,
    scheduled: Map<u32, Set<u32>>,
    core_index_enabled: bool,
    with_core: Seq<(BackedCandidateView, CoreIndex)>,
    votes_dropped: bool,
    candidates_dropped: bool,
) -> bool {
    exists|
        verdicts: Seq<bool>,
        assigned: Seq<(BackedCandidate, CoreIndex)>,
        left: Seq<(BackedCandidateView, CoreIndex)>,
        kept: Seq<(BackedCandidateView, CoreIndex)>,
    |
        {
            let valid = acquitted(candidates, verdicts);
            &&& #[trigger] judged(invalid, candidates, verdicts)
            &&& mapped::<T>(
                runtime,
                allowed_relay_parents,
                scheduled,
                core_index_enabled,
                valid,
                assigned,
            )
            &&& candidates_dropped == (assigned.len() != valid.len())
            &&& #[trigger] disabled_dropped::<T>(
                runtime,
                allowed_relay_parents,
                core_index_enabled,
                assigned,
                left,
                votes_dropped,
            )
            &&& #[trigger] under_backed_dropped::<T>(runtime, allowed_relay_parents, left, kept)
            &&& with_core == sorted_by_core(kept)
        }
}

/// What one account of a predicate allows, a wider account allows too.
pub proof fn sanitized_by_wider_account<T: System + Scheduler>(
    runtime: T,
    candidates: Seq<BackedCandidate>,
    allowed_relay_parents: AllowedRelayParentsTracker,
    invalid: spec_fn(usize, BackedCandidate, bool) -> bool,
    wider: spec_fn(usize, BackedCandidate, bool) -> bool,
    scheduled: Map<u32, Set<u32>>,
    core_index_enabled: bool,
    with_core: Seq<(BackedCandidateView, CoreIndex)>,
    votes_dropped: bool,
    candidates_dropped: bool,
)
    requires
        sanitized_candidates::<T>(
            runtime,
            candidates,
            allowed_relay_parents,
            invalid,
            scheduled,
            core_index_enabled,
            with_core,
            votes_dropped,
            candidates_dropped,
        ),
        forall|k: usize, candidate: BackedCandidate, verdict: bool| #[trigger]
            invalid(k, candidate, verdict) ==> wider(k, candidate, verdict),
    ensures
        sanitized_candidates::<T>(
            runtime,
            candidates,
            allowed_relay_parents,
            wider,
            scheduled,
            core_index_enabled,
            with_core,
            votes_dropped,
            candidates_dropped,
        ),
{
    assert forall|verdicts: Seq<bool>| #[trigger]
        judged(invalid, candidates, verdicts) implies judged(wider, candidates, verdicts) by {
    }
}

proof fn put_by_core_views(
    sorted: Seq<(BackedCandidate, CoreIndex)>,
    item: (BackedCandidate, CoreIndex),
)
    ensures
        views_with_core(put_by_core(sorted, item)) == put_by_core(
            views_with_core(sorted),
            (item.0@, item.1),
        ),
    decreases sorted.len(),
{
    let views = views_with_core(sorted);
    if sorted.len() > 0 && sorted.last().1.0 > item.1.0 {
        put_by_core_views(sorted.drop_last(), item);
        assert(views.drop_last() =~= views_with_core(sorted.drop_last()));
    }
    assert(views_with_core(put_by_core(sorted, item)) =~= put_by_core(views, (item.0@, item.1)));
}

/// Sorting looks at the core indices alone.
proof fn sorted_by_core_views(items: Seq<(BackedCandidate, CoreIndex)>)
    ensures
        views_with_core(sorted_by_core(items)) == sorted_by_core(views_with_core(items)),
    decreases items.len(),
{
    let views = views_with_core(items);
    if items.len() > 0 {
        sorted_by_core_views(items.drop_last());
        put_by_core_views(sorted_by_core(items.drop_last()), items.last());
        assert(views.drop_last() =~= views_with_core(items.drop_last()));
    }
}

/// Filters out
/// 1. any candidate that the predicate goes against, which is handed the place of
///    the candidate and the candidate,
/// 2. any candidate that is not scheduled, or that asks for no core although several
///    are scheduled for its parachain,
/// 3. all backing votes of disabled validators, and
/// 4. any candidate that is left with fewer backing votes than it needs, or whose group
///    is not known.
///
/// What is left is sorted by core index.
pub fn sanitize_backed_candidates<T: System + Scheduler, F: Fn(usize, &BackedCandidate) -> bool>(
    runtime: &T,
    backed_candidates: Vec<BackedCandidate>,
    allowed_relay_parents: &AllowedRelayParentsTracker,
    candidate_has_concluded_invalid_dispute_or_is_invalid: F,
    scheduled: ScheduledCores,
    core_index_enabled: bool,
) -> (r: SanitizedBackedCandidates)
    requires
        forall|k: int|
            0 <= k < backed_candidates@.len() ==> call_requires(
                candidate_has_concluded_invalid_dispute_or_is_invalid,
                (k as usize, &#[trigger] backed_candidates@[k]),
            ),
    ensures
        sanitized_candidates::<T>(
            *runtime,
            backed_candidates@,
            *allowed_relay_parents,
            verdicts_of(candidate_has_concluded_invalid_dispute_or_is_invalid),
            cores_by_para(scheduled),
            core_index_enabled,
            views_with_core(r.backed_candidates_with_core@),
            r.votes_from_disabled_were_dropped,
            r.dropped_unscheduled_candidates,
        ),
{
    let valid = indexed_retain_not(
        backed_candidates,
        &candidate_has_concluded_invalid_dispute_or_is_invalid,
    );
    let initial_candidate_count = valid.len();
    let mut with_core = map_candidates_to_cores::<T>(
        runtime,
        allowed_relay_parents,
        scheduled,
        core_index_enabled,
        valid,
    );
    let dropped_unscheduled_candidates = initial_candidate_count != with_core.len();
    let votes_from_disabled_were_dropped = filter_backed_statements_from_disabled_validators::<T>(
        runtime,
        &mut with_core,
        allowed_relay_parents,
        core_index_enabled,
    );
    let kept = drop_under_backed::<T>(runtime, with_core, allowed_relay_parents);
    proof {
        sorted_by_core_views(kept@);
    }
    SanitizedBackedCandidates {
        backed_candidates_with_core: sort_by_core(kept),
        votes_from_disabled_were_dropped,
        dropped_unscheduled_candidates,
    }
}

/// Putting an item among sorted ones adds nothing else.
proof fn put_members<X>(sorted: Seq<(X, CoreIndex)>, item: (X, CoreIndex))
    ensures
        forall|k: int|
            0 <= k < put_by_core(sorted, item).len() ==> {
                let there = #[trigger] put_by_core(sorted, item)[k];
                there == item || sorted.contains(there)
            },
    decreases sorted.len(),
{
    if sorted.len() > 0 && sorted.last().1.0 > item.1.0 {
        let shorter = sorted.drop_last();
        put_members(shorter, item);
        let put = put_by_core(sorted, item);
        assert forall|k: int| 0 <= k < put.len() implies (#[trigger] put[k] == item
            || sorted.contains(put[k])) by {
            if k < put.len() - 1 {
                assert(put[k] == put_by_core(shorter, item)[k]);
                if put[k] != item {
                    assert(sorted[shorter.index_of(put[k])] == put[k]);
                }
            } else {
                assert(sorted[sorted.len() - 1] == put[k]);
            }
        }
    } else {
        let put = put_by_core(sorted, item);
        assert forall|k: int| 0 <= k < put.len() implies (#[trigger] put[k] == item
            || sorted.contains(put[k])) by {
            if k < sorted.len() {
                assert(sorted[k] == put[k]);
            }
        }
    }
}

/// Putting an item among sorted ones leaves them sorted.
proof fn put_keeps_sorted<X>(sorted: Seq<(X, CoreIndex)>, item: (X, CoreIndex))
    requires
        ascending_cores(sorted),
    ensures
        ascending_cores(put_by_core(sorted, item)),
    decreases sorted.len(),
{
    if sorted.len() > 0 && sorted.last().1.0 > item.1.0 {
        let shorter = sorted.drop_last();
        put_keeps_sorted(shorter, item);
        put_members(shorter, item);
        let put = put_by_core(shorter, item);
        assert forall|k: int| 0 <= k < put.len() implies (#[trigger] put[k]).1.0
            <= sorted.last().1.0 by {
            if put[k] != item {
                let j = shorter.index_of(put[k]);
                assert(sorted[j].1.0 <= sorted[sorted.len() - 1].1.0);
            }
        }
    } else if sorted.len() > 0 {
        assert forall|k: int| 0 <= k < sorted.len() implies (#[trigger] sorted[k]).1.0
            <= item.1.0 by {
            if k < sorted.len() - 1 {
                assert(sorted[k].1.0 <= sorted[sorted.len() - 1].1.0);
            }
        }
    }
}

/// Whether items stand in the order of their core indices.
pub open spec fn ascending_cores<X>(items: Seq<(X, CoreIndex)>) -> bool {
    forall|j: int, k: int|
        0 <= j < k < items.len() ==> (#[trigger] items[j]).1.0 <= (#[trigger] items[k]).1.0
}

/// The items on one core, in order.
pub open spec fn on_core<X>(items: Seq<(X, CoreIndex)>, core: CoreIndex) -> Seq<(X, CoreIndex)>
    decreases items.len(),
{
    if items.len() == 0 {
        items
    } else {
        let before = on_core(items.drop_last(), core);
        if items.last().1 == core {
            before.push(items.last())
        } else {
            before
        }
    }
}

proof fn put_on_core<X>(sorted: Seq<(X, CoreIndex)>, item: (X, CoreIndex), core: CoreIndex)
    ensures
        on_core(put_by_core(sorted, item), core) == if item.1 == core {
            on_core(sorted, core).push(item)
        } else {
            on_core(sorted, core)
        },
        put_by_core(sorted, item).len() == sorted.len() + 1,
    decreases sorted.len(),
{
    if sorted.len() == 0 || sorted.last().1.0 <= item.1.0 {
        assert(sorted.push(item).drop_last() =~= sorted);
    } else {
        let put = put_by_core(sorted.drop_last(), item);
        put_on_core(sorted.drop_last(), item, core);
        assert(put.push(sorted.last()).drop_last() =~= put);
    }
}

/// Sorting by core index gives the items in the order of their core indices, as
/// many as there were, and for each core the same items in the same order.
pub proof fn sorted_by_core_is_stable<X>(items: Seq<(X, CoreIndex)>)
    ensures
        ascending_cores(sorted_by_core(items)),
        sorted_by_core(items).len() == items.len(),
        forall|core: CoreIndex| #[trigger]
            on_core(sorted_by_core(items), core) == on_core(items, core),
    decreases items.len(),
{
    if items.len() > 0 {
        let shorter = items.drop_last();
        sorted_by_core_is_stable(shorter);
        put_keeps_sorted(sorted_by_core(shorter), items.last());
        assert forall|core: CoreIndex| #[trigger]
            on_core(sorted_by_core(items), core) == on_core(items, core) by {
            put_on_core(sorted_by_core(shorter), items.last(), core);
            assert(on_core(sorted_by_core(shorter), core) == on_core(shorter, core));
        }
        put_on_core(sorted_by_core(shorter), items.last(), CoreIndex(0));
    }
}

/// Whether items are some of others, by the places of these, each once.
spec fn picked<X>(some: Seq<X>, all: Seq<X>, places: Seq<int>) -> bool {
    &&& places.len() == some.len()
    &&& places.no_duplicates()
    &&& forall|k: int|
        0 <= k < some.len() ==> 0 <= #[trigger] places[k] < all.len() && some[k] == all[places[k]]
}

/// Sorting picks each item once.
proof fn sorted_picks_each<X>(items: Seq<(X, CoreIndex)>)
    ensures
        exists|places: Seq<int>| #[trigger] picked(sorted_by_core(items), items, places),
    decreases items.len(),
{
    if items.len() == 0 {
        assert(picked(sorted_by_core(items), items, Seq::empty()));
    } else {
        let fewer = items.drop_last();
        sorted_picks_each(fewer);
        let places = choose|places: Seq<int>| #[trigger]
            picked(sorted_by_core(fewer), fewer, places);
        put_picks(sorted_by_core(fewer), fewer, items.last(), places);
        assert(fewer.push(items.last()) =~= items);
        let more = choose|more: Seq<int>| #[trigger]
            picked(put_by_core(sorted_by_core(fewer), items.last()), items, more);
        assert(picked(sorted_by_core(items), items, more));
    }
}

proof fn put_picks<X>(
    sorted: Seq<(X, CoreIndex)>,
    all: Seq<(X, CoreIndex)>,
    item: (X, CoreIndex),
    places: Seq<int>,
)
    requires
        picked(sorted, all, places),
    ensures
        exists|more: Seq<int>| #[trigger]
            picked(put_by_core(sorted, item), all.push(item), more) && more.len() == places.len()
                + 1 && (forall|k: int|
                0 <= k < more.len() ==> #[trigger] more[k] == all.len() || places.contains(
                    more[k],
                )),
    decreases sorted.len(),
{
    let put = put_by_core(sorted, item);
    if sorted.len() == 0 || sorted.last().1.0 <= item.1.0 {
        let more = places.push(all.len() as int);
        assert forall|i: int, j: int| 0 <= i < j < more.len() implies more[i] != more[j] by {
            assert(0 <= places[i] < all.len());
        }
        assert forall|k: int| 0 <= k < more.len() implies #[trigger] more[k] == all.len()
            || places.contains(more[k]) by {
            if k < places.len() {
                assert(places[k] == more[k]);
            }
        }
        assert(picked(put, all.push(item), more)) by {
            assert forall|k: int| 0 <= k < put.len() implies 0 <= #[trigger] more[k] < all.push(
                item,
            ).len() && put[k] == all.push(item)[more[k]] by {
                if k < places.len() {
                    assert(0 <= places[k] < all.len());
                }
            }
        }
    } else {
        let fewer = places.drop_last();
        assert(picked(sorted.drop_last(), all, fewer)) by {
            assert forall|k: int| 0 <= k < fewer.len() implies 0 <= #[trigger] fewer[k] < all.len()
                && sorted.drop_last()[k] == all[fewer[k]] by {
                assert(0 <= places[k] < all.len());
            }
        }
        put_picks(sorted.drop_last(), all, item, fewer);
        let inner = choose|more: Seq<int>| #[trigger]
            picked(put_by_core(sorted.drop_last(), item), all.push(item), more) && more.len()
                == fewer.len() + 1 && (forall|k: int|
                0 <= k < more.len() ==> #[trigger] more[k] == all.len() || fewer.contains(more[k]));
        let last = places.last();
        let more = inner.push(last);
        assert(0 <= places[places.len() - 1] < all.len());
        assert forall|i: int, j: int| 0 <= i < j < more.len() implies more[i] != more[j] by {
            if j == inner.len() {
                assert(inner[i] == all.len() || fewer.contains(inner[i]));
                if inner[i] == last {
                    let m = fewer.index_of(inner[i]);
                    assert(places[m] == places[places.len() - 1]);
                }
            }
        }
        assert forall|k: int| 0 <= k < more.len() implies #[trigger] more[k] == all.len()
            || places.contains(more[k]) by {
            if k < inner.len() {
                assert(inner[k] == all.len() || fewer.contains(inner[k]));
                if fewer.contains(inner[k]) {
                    assert(places[fewer.index_of(inner[k])] == more[k]);
                }
            } else {
                assert(places[places.len() - 1] == more[k]);
            }
        }
        assert(picked(put, all.push(item), more)) by {
            assert forall|k: int| 0 <= k < put.len() implies 0 <= #[trigger] more[k] < all.push(
                item,
            ).len() && put[k] == all.push(item)[more[k]] by {
                if k < inner.len() {
                    assert(0 <= inner[k] < all.push(item).len());
                }
            }
        }
    }
}

/// Items that stand in order are left so.
proof fn sorted_stays_sorted<X>(items: Seq<(X, CoreIndex)>)
    requires
        ascending_cores(items),
    ensures
        sorted_by_core(items) == items,
    decreases items.len(),
{
    if items.len() > 0 {
        let fewer = items.drop_last();
        assert(ascending_cores(fewer)) by {
            assert forall|j: int, k: int| 0 <= j < k < fewer.len() implies (#[trigger] fewer[j]).1.0
                <= (#[trigger] fewer[k]).1.0 by {
                assert(items[j].1.0 <= items[k].1.0);
            }
        }
        sorted_stays_sorted(fewer);
        if fewer.len() > 0 {
            assert(items[items.len() - 2].1.0 <= items[items.len() - 1].1.0);
        }
        assert(fewer.push(items.last()) =~= items);
    }
}

/// Where the items that were not judged against stood.
proof fn acquitted_stood<X>(
    predicate: spec_fn(usize, X, bool) -> bool,
    items: Seq<X>,
    verdicts: Seq<bool>,
) -> (places: Seq<int>)
    requires
        judged(predicate, items, verdicts),
    ensures
        picked(acquitted(items, verdicts), items, places),
        forall|k: int|
            0 <= k < places.len() ==> predicate(
                (#[trigger] places[k]) as usize,
                items[places[k]],
                false,
            ),
    decreases items.len(),
{
    let left = acquitted(items, verdicts);
    if items.len() == 0 {
        Seq::empty()
    } else {
        let fewer = items.drop_last();
        let top = items.len() - 1;
        assert(judged(predicate, fewer, verdicts.drop_last())) by {
            assert forall|k: int| 0 <= k < fewer.len() implies predicate(
                k as usize,
                fewer[k],
                #[trigger] verdicts.drop_last()[k],
            ) by {
                assert(predicate(k as usize, items[k], verdicts[k]));
            }
        }
        let places = acquitted_stood(predicate, fewer, verdicts.drop_last());
        assert forall|k: int| 0 <= k < places.len() implies 0 <= #[trigger] places[k] < top
            && items[places[k]] == fewer[places[k]] by {
        }
        if verdicts.last() {
            places
        } else {
            let more = places.push(top);
            assert(predicate(top as usize, items[top], verdicts[top]));
            assert forall|i: int, j: int| 0 <= i < j < more.len() implies more[i] != more[j] by {
                assert(0 <= places[i] < top);
            }
            assert forall|k: int| 0 <= k < left.len() implies 0 <= #[trigger] more[k]
                < items.len() && left[k] == items[more[k]] && predicate(
                more[k] as usize,
                items[more[k]],
                false,
            ) by {
                if k < places.len() {
                    assert(0 <= places[k] < top);
                }
            }
            more
        }
    }
}

/// Where candidates with enough votes stood.
proof fn well_backed_stood(
    candidates: Seq<(BackedCandidateView, CoreIndex)>,
    groups: Seq<Option<Seq<ValidatorIndex>>>,
    minimum_backing_votes: u32,
) -> (places: Seq<int>)
    requires
        groups.len() == candidates.len(),
    ensures
        picked(well_backed(candidates, groups, minimum_backing_votes), candidates, places),
        forall|k: int|
            0 <= k < places.len() ==> has_enough_votes(
                candidates[#[trigger] places[k]].0,
                groups[places[k]],
                minimum_backing_votes,
            ),
    decreases candidates.len(),
{
    let kept = well_backed(candidates, groups, minimum_backing_votes);
    if candidates.len() == 0 {
        Seq::empty()
    } else {
        let fewer = candidates.drop_last();
        let top = candidates.len() - 1;
        let places = well_backed_stood(fewer, groups.drop_last(), minimum_backing_votes);
        assert forall|k: int| 0 <= k < places.len() implies 0 <= #[trigger] places[k] < top
            && candidates[places[k]] == fewer[places[k]] && groups[places[k]]
            == groups.drop_last()[places[k]] by {
        }
        if has_enough_votes(candidates[top].0, groups[top], minimum_backing_votes) {
            let more = places.push(top);
            assert forall|i: int, j: int| 0 <= i < j < more.len() implies more[i] != more[j] by {
                assert(0 <= places[i] < top);
            }
            assert forall|k: int| 0 <= k < kept.len() implies 0 <= #[trigger] more[k]
                < candidates.len() && kept[k] == candidates[more[k]] && has_enough_votes(
                candidates[more[k]].0,
                groups[more[k]],
                minimum_backing_votes,
            ) by {
                if k < places.len() {
                    assert(0 <= places[k] < top);
                }
            }
            more
        } else {
            places
        }
    }
}

/// Candidates that all have enough votes are all kept.
proof fn well_backed_are_kept(
    candidates: Seq<(BackedCandidateView, CoreIndex)>,
    groups: Seq<Option<Seq<ValidatorIndex>>>,
    minimum_backing_votes: u32,
)
    requires
        groups.len() == candidates.len(),
        forall|k: int|
            0 <= k < candidates.len() ==> has_enough_votes(
                (#[trigger] candidates[k]).0,
                groups[k],
                minimum_backing_votes,
            ),
    ensures
        well_backed(candidates, groups, minimum_backing_votes) == candidates,
    decreases candidates.len(),
{
    if candidates.len() == 0 {
        assert(candidates =~= Seq::empty());
    } else {
        let fewer = candidates.drop_last();
        assert forall|k: int| 0 <= k < fewer.len() implies has_enough_votes(
            (#[trigger] fewer[k]).0,
            groups.drop_last()[k],
            minimum_backing_votes,
        ) by {
            assert(candidates[k] == fewer[k]);
        }
        well_backed_are_kept(fewer, groups.drop_last(), minimum_backing_votes);
        let last = candidates[candidates.len() - 1];
        assert(fewer.push(last) =~= candidates);
    }
}

/// How sanitized candidates came about: the verdicts, the cores that candidates asked
/// for, the candidates that got cores and where these stood, what was said of disabled
/// validators, where each sanitized candidate stood among those that got cores, and what
/// was said of the group that it needed the votes of.
struct Trace {
    verdicts: Seq<bool>,
    injected: Seq<Option<CoreIndex>>,
    assigned: Seq<(BackedCandidate, CoreIndex)>,
    places: Seq<int>,
    disabled: Vec<ValidatorIndex>,
    config: HostConfiguration,
    groups: Seq<Option<Seq<ValidatorIndex>>>,
    from: Seq<int>,
    final_config: HostConfiguration,
    final_groups: Seq<Option<Seq<ValidatorIndex>>>,
}

/// What dropping the votes of disabled validators leaves of a candidate.
spec fn cleaned(t: Trace, core_index_enabled: bool, i: int) -> BackedCandidateView {
    if t.disabled@.len() == 0 {
        t.assigned[i].0@
    } else {
        without_disabled(
            t.assigned[i].0@,
            t.groups[i]->0,
            index_set(t.disabled@),
            core_index_enabled,
        )
    }
}

spec fn traced<T: System + Scheduler>(
    runtime: T,
    candidates: Seq<BackedCandidate>,
    allowed_relay_parents: AllowedRelayParentsTracker,
    invalid: spec_fn(usize, BackedCandidate, bool) -> bool,
    scheduled: Map<u32, Set<u32>>,
    core_index_enabled: bool,
    with_core: Seq<(BackedCandidateView, CoreIndex)>,
    t: Trace,
) -> bool {
    let valid = acquitted(candidates, t.verdicts);
    let views = views_with_core(t.assigned);
    &&& judged(invalid, candidates, t.verdicts)
    &&& injected_cores::<T>(runtime, allowed_relay_parents, valid, core_index_enabled, t.injected)
    &&& t.assigned == assign(scheduled, valid, t.injected).assigned
    &&& stand_at(t.places, scheduled, valid, t.injected, t.assigned)
    &&& call_ensures(T::disabled_validators, (&runtime,), t.disabled)
    &&& t.disabled@.len() > 0 ==> {
        &&& call_ensures(T::configuration, (&runtime,), t.config)
        &&& groups_of::<T>(runtime, allowed_relay_parents, views, t.groups)
    }
    &&& ascending_cores(with_core)
    &&& t.from.len() == with_core.len()
    &&& t.from.no_duplicates()
    &&& forall|k: int|
        0 <= k < with_core.len() ==> {
            let i = #[trigger] t.from[k];
            &&& 0 <= i < t.assigned.len()
            &&& with_core[k] == (cleaned(t, core_index_enabled, i), t.assigned[i].1)
            &&& t.disabled@.len() > 0 ==> keeps_enough_votes(
                t.assigned[i].0@,
                t.groups[i],
                index_set(t.disabled@),
                t.config.minimum_backing_votes,
                core_index_enabled,
            )
        }
    &&& call_ensures(T::configuration, (&runtime,), t.final_config)
    &&& groups_of::<T>(runtime, allowed_relay_parents, with_core, t.final_groups)
    &&& forall|k: int|
        0 <= k < with_core.len() ==> has_enough_votes(
            (#[trigger] with_core[k]).0,
            t.final_groups[k],
            t.final_config.minimum_backing_votes,
        )
}

/// Where candidates stood before the votes of disabled validators were dropped.
struct Stood {
    disabled: Vec<ValidatorIndex>,
    config: HostConfiguration,
    groups: Seq<Option<Seq<ValidatorIndex>>>,
    places: Seq<int>,
}

spec fn stood_among<T: System + Scheduler>(
    runtime: T,
    allowed_relay_parents: AllowedRelayParentsTracker,
    core_index_enabled: bool,
    assigned: Seq<(BackedCandidate, CoreIndex)>,
    left: Seq<(BackedCandidateView, CoreIndex)>,
    t: Stood,
) -> bool {
    &&& call_ensures(T::disabled_validators, (&runtime,), t.disabled)
    &&& t.disabled@.len() > 0 ==> {
        &&& call_ensures(T::configuration, (&runtime,), t.config)
        &&& groups_of::<T>(runtime, allowed_relay_parents, views_with_core(assigned), t.groups)
    }
    &&& t.places.len() == left.len()
    &&& t.places.no_duplicates()
    &&& forall|k: int|
        0 <= k < left.len() ==> {
            let i = #[trigger] t.places[k];
            &&& 0 <= i < assigned.len()
            &&& left[k].1 == assigned[i].1
            &&& left[k].0 == if t.disabled@.len() == 0 {
                assigned[i].0@
            } else {
                without_disabled(
                    assigned[i].0@,
                    t.groups[i]->0,
                    index_set(t.disabled@),
                    core_index_enabled,
                )
            }
            &&& t.disabled@.len() > 0 ==> keeps_enough_votes(
                assigned[i].0@,
                t.groups[i],
                index_set(t.disabled@),
                t.config.minimum_backing_votes,
                core_index_enabled,
            )
        }
}

/// Finds out where candidates stood before the votes of disabled validators were
/// dropped.
proof fn find_stood<T: System + Scheduler>(
    runtime: T,
    allowed_relay_parents: AllowedRelayParentsTracker,
    core_index_enabled: bool,
    assigned: Seq<(BackedCandidate, CoreIndex)>,
    left: Seq<(BackedCandidateView, CoreIndex)>,
    votes_dropped: bool,
) -> (t: Stood)
    requires
        disabled_dropped::<T>(
            runtime,
            allowed_relay_parents,
            core_index_enabled,
            assigned,
            left,
            votes_dropped,
        ),
    ensures
        stood_among::<T>(
            runtime,
            allowed_relay_parents,
            core_index_enabled,
            assigned,
            left,
            t,
        ),
{
    let views = views_with_core(assigned);
    let disabled = choose|disabled: Vec<ValidatorIndex>| #[trigger]
        call_ensures(T::disabled_validators, (&runtime,), disabled) && if disabled@.len() == 0 {
            left == views
        } else {
            exists|config: HostConfiguration, groups: Seq<Option<Seq<ValidatorIndex>>>|
                #![trigger
                    call_ensures(T::configuration, (&runtime,), config),
                    groups_of::<T>(runtime, allowed_relay_parents, views, groups)]
                {
                    &&& call_ensures(T::configuration, (&runtime,), config)
                    &&& groups_of::<T>(runtime, allowed_relay_parents, views, groups)
                    &&& left == filter_votes(
                        views,
                        groups,
                        index_set(disabled@),
                        config.minimum_backing_votes,
                        core_index_enabled,
                    ).kept
                }
        };
    if disabled@.len() == 0 {
        let places = Seq::new(left.len(), |k: int| k);
        Stood { disabled, config: arbitrary(), groups: Seq::empty(), places }
    } else {
        let (config, groups) = choose|
            config: HostConfiguration,
            groups: Seq<Option<Seq<ValidatorIndex>>>,
        |
            #![trigger
                call_ensures(T::configuration, (&runtime,), config),
                groups_of::<T>(runtime, allowed_relay_parents, views, groups)]
            {
                &&& call_ensures(T::configuration, (&runtime,), config)
                &&& groups_of::<T>(runtime, allowed_relay_parents, views, groups)
                &&& left == filter_votes(
                    views,
                    groups,
                    index_set(disabled@),
                    config.minimum_backing_votes,
                    core_index_enabled,
                ).kept
            };
        let m = config.minimum_backing_votes;
        kept_candidates_have_enough_votes(
            views,
            groups,
            index_set(disabled@),
            m,
            core_index_enabled,
        );
        let places = choose|p: Seq<int>| #[trigger]
            kept_from(left, views, groups, index_set(disabled@), m, core_index_enabled, p);
        let t = Stood { disabled, config, groups, places };
        assert forall|k: int| 0 <= k < left.len() implies {
            let i = #[trigger] places[k];
            &&& 0 <= i < assigned.len()
            &&& views[i] == (assigned[i].0@, assigned[i].1)
        } by {
        }
        t
    }
}

/// Finds out how sanitized candidates came about.
proof fn trace<T: System + Scheduler>(
    runtime: T,
    candidates: Seq<BackedCandidate>,
    allowed_relay_parents: AllowedRelayParentsTracker,
    invalid: spec_fn(usize, BackedCandidate, bool) -> bool,
    scheduled: Map<u32, Set<u32>>,
    core_index_enabled: bool,
    with_core: Seq<(BackedCandidateView, CoreIndex)>,
    votes_dropped: bool,
    candidates_dropped: bool,
) -> (t: Trace)
    requires
        sanitized_candidates::<T>(
            runtime,
            candidates,
            allowed_relay_parents,
            invalid,
            scheduled,
            core_index_enabled,
            with_core,
            votes_dropped,
            candidates_dropped,
        ),
    ensures
        traced::<T>(
            runtime,
            candidates,
            allowed_relay_parents,
            invalid,
            scheduled,
            core_index_enabled,
            with_core,
            t,
        ),
{
    let (verdicts, assigned, left, kept) = choose|
        verdicts: Seq<bool>,
        assigned: Seq<(BackedCandidate, CoreIndex)>,
        left: Seq<(BackedCandidateView, CoreIndex)>,
        kept: Seq<(BackedCandidateView, CoreIndex)>,
    |
        {
            let valid = acquitted(candidates, verdicts);
            &&& #[trigger] judged(invalid, candidates, verdicts)
            &&& mapped::<T>(
                runtime,
                allowed_relay_parents,
                scheduled,
                core_index_enabled,
                valid,
                assigned,
            )
            &&& #[trigger] disabled_dropped::<T>(
                runtime,
                allowed_relay_parents,
                core_index_enabled,
                assigned,
                left,
                votes_dropped,
            )
            &&& #[trigger] under_backed_dropped::<T>(runtime, allowed_relay_parents, left, kept)
            &&& with_core == sorted_by_core(kept)
        };
    let valid = acquitted(candidates, verdicts);
    let injected = choose|injected: Seq<Option<CoreIndex>>| #[trigger]
        injected_cores::<T>(runtime, allowed_relay_parents, valid, core_index_enabled, injected)
            && assigned == assign(scheduled, valid, injected).assigned;
    assignment_keeps_order(scheduled, valid, injected);
    let places = choose|places: Seq<int>| #[trigger]
        stand_at(places, scheduled, valid, injected, assigned);
    let stood = find_stood::<T>(
        runtime,
        allowed_relay_parents,
        core_index_enabled,
        assigned,
        left,
        votes_dropped,
    );
    let (final_config, left_groups) = choose|
        config: HostConfiguration,
        groups: Seq<Option<Seq<ValidatorIndex>>>,
    | #[trigger]
        call_ensures(T::configuration, (&runtime,), config) && #[trigger] groups_of::<T>(
            runtime,
            allowed_relay_parents,
            left,
            groups,
        ) && kept == well_backed(left, groups, config.minimum_backing_votes);
    let backed = well_backed_stood(left, left_groups, final_config.minimum_backing_votes);
    sorted_by_core_is_stable(kept);
    sorted_picks_each(kept);
    let order = choose|p: Seq<int>| #[trigger] picked(with_core, kept, p);
    let from = Seq::new(with_core.len(), |k: int| stood.places[backed[order[k]]]);
    let final_groups = Seq::new(with_core.len(), |k: int| left_groups[backed[order[k]]]);
    let t = Trace {
        verdicts,
        injected,
        assigned,
        places,
        disabled: stood.disabled,
        config: stood.config,
        groups: stood.groups,
        from,
        final_config,
        final_groups,
    };
    assert forall|k: int| 0 <= k < with_core.len() implies {
        let m = backed[order[k]];
        &&& 0 <= order[k] < kept.len()
        &&& 0 <= m < left.len()
        &&& #[trigger] with_core[k] == left[m]
        &&& has_enough_votes(left[m].0, left_groups[m], final_config.minimum_backing_votes)
        &&& 0 <= stood.places[m] < assigned.len()
    } by {
        assert(0 <= order[k] < kept.len());
        assert(0 <= backed[order[k]] < left.len());
        assert(0 <= stood.places[backed[order[k]]] < assigned.len());
    }
    assert forall|i: int, j: int| 0 <= i < j < from.len() implies from[i] != from[j] by {
        let a = with_core[i];
        let b = with_core[j];
        assert(order[i] != order[j]);
        assert(backed[order[i]] != backed[order[j]]);
    }
    assert forall|k: int| 0 <= k < with_core.len() implies {
        let i = #[trigger] from[k];
        &&& 0 <= i < assigned.len()
        &&& with_core[k] == (cleaned(t, core_index_enabled, i), assigned[i].1)
        &&& t.disabled@.len() > 0 ==> keeps_enough_votes(
            assigned[i].0@,
            t.groups[i],
            index_set(t.disabled@),
            t.config.minimum_backing_votes,
            core_index_enabled,
        )
    } by {
        let entry = with_core[k];
        let m = backed[order[k]];
        assert(left[m] == (left[m].0, left[m].1));
    }
    assert(groups_of::<T>(runtime, allowed_relay_parents, with_core, final_groups)) by {
        assert forall|k: int| 0 <= k < with_core.len() implies backing_group::<T>(
            runtime,
            allowed_relay_parents,
            with_core[k].0.candidate.relay_parent,
            with_core[k].1,
            #[trigger] final_groups[k],
        ) by {
            let entry = with_core[k];
            assert(left_groups[backed[order[k]]] == final_groups[k]);
        }
    }
    t
}

/// Whether every parachain is scheduled on finitely many cores.
pub open spec fn finitely_scheduled(scheduled: Map<u32, Set<u32>>) -> bool {
    forall|para: u32| #[trigger] scheduled.contains_key(para) ==> scheduled[para].finite()
}

/// Whether sanitized candidates stood at the given places among candidates, each place
/// once, with the same receipt and at least as many votes, and were let pass there.
pub open spec fn stood_among_candidates(
    candidates: Seq<BackedCandidate>,
    invalid: spec_fn(usize, BackedCandidate, bool) -> bool,
    with_core: Seq<(BackedCandidateView, CoreIndex)>,
    places: Seq<int>,
) -> bool {
    &&& places.len() == with_core.len()
    &&& places.no_duplicates()
    &&& forall|k: int|
        0 <= k < with_core.len() ==> {
            let i = #[trigger] places[k];
            &&& 0 <= i < candidates.len()
            &&& with_core[k].0.candidate == candidates[i].candidate
            &&& with_core[k].0.validity_votes.len() <= candidates[i].validity_votes@.len()
            &&& invalid(i as usize, candidates[i], false)
        }
}

/// Every sanitized candidate is one of the given candidates that the predicate let pass,
/// with the same receipt and no more votes, and no two are the same one.
pub proof fn sanitized_candidates_stood_among_candidates<T: System + Scheduler>(
    runtime: T,
    candidates: Seq<BackedCandidate>,
    allowed_relay_parents: AllowedRelayParentsTracker,
    invalid: spec_fn(usize, BackedCandidate, bool) -> bool,
    scheduled: Map<u32, Set<u32>>,
    core_index_enabled: bool,
    with_core: Seq<(BackedCandidateView, CoreIndex)>,
    votes_dropped: bool,
    candidates_dropped: bool,
) -> (places: Seq<int>)
    requires
        sanitized_candidates::<T>(
            runtime,
            candidates,
            allowed_relay_parents,
            invalid,
            scheduled,
            core_index_enabled,
            with_core,
            votes_dropped,
            candidates_dropped,
        ),
    ensures
        stood_among_candidates(candidates, invalid, with_core, places),
{
    let t = trace::<T>(
        runtime,
        candidates,
        allowed_relay_parents,
        invalid,
        scheduled,
        core_index_enabled,
        with_core,
        votes_dropped,
        candidates_dropped,
    );
    let valid = acquitted(candidates, t.verdicts);
    let stood = acquitted_stood(invalid, candidates, t.verdicts);
    let places = Seq::new(with_core.len(), |k: int| stood[t.places[t.from[k]]]);
    assert forall|k: int| 0 <= k < with_core.len() implies {
        let m = t.places[t.from[k]];
        let i = #[trigger] places[k];
        &&& 0 <= t.from[k] < t.assigned.len()
        &&& 0 <= m < valid.len()
        &&& i == stood[m]
        &&& 0 <= i < candidates.len()
        &&& with_core[k].0.candidate == candidates[i].candidate
        &&& with_core[k].0.validity_votes.len() <= candidates[i].validity_votes@.len()
        &&& invalid(i as usize, candidates[i], false)
    } by {
        let j = t.from[k];
        let m = t.places[j];
        assert(0 <= m < valid.len());
        assert(0 <= stood[m] < candidates.len());
        assert(t.assigned[j].0 == candidates[stood[m]]);
        if t.disabled@.len() > 0 {
            no_votes_are_added(
                t.assigned[j].0@.validity_votes,
                t.assigned[j].0@.group_indices(core_index_enabled),
                disabled_members(t.groups[j]->0, index_set(t.disabled@)),
            );
        }
    }
    assert forall|i: int, j: int| 0 <= i < j < places.len() implies places[i] != places[j] by {
        let a = places[i];
        let b = places[j];
        assert(t.from[i] != t.from[j]);
        let p = t.from[i];
        let q = t.from[j];
        if p < q {
            assert(t.places[p] < t.places[q]);
        } else {
            assert(t.places[q] < t.places[p]);
        }
    }
    places
}

/// What holds of sanitized candidates: they stand in the order of their cores, each
/// stands on a core that is scheduled for its parachain, no two on the same core of one
/// parachain, and each is one of the given candidates that the predicate let pass.
pub proof fn sanitized_candidates_are_in_order<T: System + Scheduler>(
    runtime: T,
    candidates: Seq<BackedCandidate>,
    allowed_relay_parents: AllowedRelayParentsTracker,
    invalid: spec_fn(usize, BackedCandidate, bool) -> bool,
    scheduled: Map<u32, Set<u32>>,
    core_index_enabled: bool,
    with_core: Seq<(BackedCandidateView, CoreIndex)>,
    votes_dropped: bool,
    candidates_dropped: bool,
)
    requires
        finitely_scheduled(scheduled),
        sanitized_candidates::<T>(
            runtime,
            candidates,
            allowed_relay_parents,
            invalid,
            scheduled,
            core_index_enabled,
            with_core,
            votes_dropped,
            candidates_dropped,
        ),
    ensures
        ascending_cores(with_core),
        forall|k: int|
            0 <= k < with_core.len() ==> {
                let (candidate, core) = #[trigger] with_core[k];
                let para = candidate.candidate.para_id.0;
                scheduled.contains_key(para) && scheduled[para].contains(core.0)
            },
        forall|j: int, k: int|
            0 <= j < k < with_core.len() && (#[trigger] with_core[j]).0.candidate.para_id == (
            #[trigger] with_core[k]).0.candidate.para_id ==> with_core[j].1 != with_core[k].1,
        forall|k: int|
            0 <= k < with_core.len() ==> exists|i: int|
                0 <= i < candidates.len() && (#[trigger] candidates[i]).candidate == (
                #[trigger] with_core[k]).0.candidate && invalid(i as usize, candidates[i], false),
{
    let t = trace::<T>(
        runtime,
        candidates,
        allowed_relay_parents,
        invalid,
        scheduled,
        core_index_enabled,
        with_core,
        votes_dropped,
        candidates_dropped,
    );
    let valid = acquitted(candidates, t.verdicts);
    let assigned = t.assigned;
    let from = t.from;
    let stood = acquitted_stood(invalid, candidates, t.verdicts);
    assignment_keeps_to_schedule(scheduled, valid, t.injected);
    assert forall|k: int| 0 <= k < with_core.len() implies {
        let (candidate, core) = #[trigger] with_core[k];
        let para = candidate.candidate.para_id.0;
        scheduled.contains_key(para) && scheduled[para].contains(core.0)
    } by {
        assert(0 <= from[k] < assigned.len());
        let (candidate, core) = assigned[from[k]];
        assert(scheduled[candidate.candidate.para_id.0].contains(core.0));
    }
    assert forall|j: int, k: int|
        0 <= j < k < with_core.len() && (#[trigger] with_core[j]).0.candidate.para_id == (
        #[trigger] with_core[k]).0.candidate.para_id implies with_core[j].1 != with_core[k].1 by {
        assert(0 <= from[j] < assigned.len() && 0 <= from[k] < assigned.len());
        assert(from[j] != from[k]);
        assert(assigned[from[j]].0.candidate.para_id == assigned[from[k]].0.candidate.para_id);
    }
    assert forall|k: int| 0 <= k < with_core.len() implies exists|i: int|
        0 <= i < candidates.len() && (#[trigger] candidates[i]).candidate == (
        #[trigger] with_core[k]).0.candidate && invalid(i as usize, candidates[i], false) by {
        assert(0 <= from[k] < assigned.len());
        assert(0 <= t.places[from[k]] < valid.len());
        let i = stood[t.places[from[k]]];
        assert(candidates[i].candidate == with_core[k].0.candidate);
    }
}

/// Every sanitized candidate has as many votes as the group that backs candidates on its
/// core wants, whether validators are disabled or not.
pub proof fn sanitized_candidates_have_enough_votes<T: System + Scheduler>(
    runtime: T,
    candidates: Seq<BackedCandidate>,
    allowed_relay_parents: AllowedRelayParentsTracker,
    invalid: spec_fn(usize, BackedCandidate, bool) -> bool,
    scheduled: Map<u32, Set<u32>>,
    core_index_enabled: bool,
    with_core: Seq<(BackedCandidateView, CoreIndex)>,
    votes_dropped: bool,
    candidates_dropped: bool,
)
    requires
        sanitized_candidates::<T>(
            runtime,
            candidates,
            allowed_relay_parents,
            invalid,
            scheduled,
            core_index_enabled,
            with_core,
            votes_dropped,
            candidates_dropped,
        ),
    ensures
        exists|config: HostConfiguration, groups: Seq<Option<Seq<ValidatorIndex>>>| #[trigger]
            call_ensures(T::configuration, (&runtime,), config) && #[trigger] groups_of::<T>(
                runtime,
                allowed_relay_parents,
                with_core,
                groups,
            ) && forall|k: int|
                0 <= k < with_core.len() ==> has_enough_votes(
                    (#[trigger] with_core[k]).0,
                    groups[k],
                    config.minimum_backing_votes,
                ),
{
    let t = trace::<T>(
        runtime,
        candidates,
        allowed_relay_parents,
        invalid,
        scheduled,
        core_index_enabled,
        with_core,
        votes_dropped,
        candidates_dropped,
    );
    assert(call_ensures(T::configuration, (&runtime,), t.final_config));
    assert(groups_of::<T>(runtime, allowed_relay_parents, with_core, t.final_groups));
}

/// There are never more sanitized candidates than entries in the list of scheduled
/// cores.
pub proof fn sanitized_candidates_never_outnumber_cores<T: System + Scheduler>(
    runtime: T,
    candidates: Seq<BackedCandidate>,
    allowed_relay_parents: AllowedRelayParentsTracker,
    invalid: spec_fn(usize, BackedCandidate, bool) -> bool,
    paras: Seq<(CoreIndex, ParaId)>,
    core_index_enabled: bool,
    with_core: Seq<(BackedCandidateView, CoreIndex)>,
    votes_dropped: bool,
    candidates_dropped: bool,
)
    requires
        sanitized_candidates::<T>(
            runtime,
            candidates,
            allowed_relay_parents,
            invalid,
            schedule(paras),
            core_index_enabled,
            with_core,
            votes_dropped,
            candidates_dropped,
        ),
    ensures
        with_core.len() <= paras.len(),
{
    schedule_is_finite(paras);
    sanitized_candidates_are_in_order::<T>(
        runtime,
        candidates,
        allowed_relay_parents,
        invalid,
        schedule(paras),
        core_index_enabled,
        with_core,
        votes_dropped,
        candidates_dropped,
    );
    let places = with_core.map_values(
        |entry: (BackedCandidateView, CoreIndex)| (entry.1, entry.0.candidate.para_id),
    );
    assert forall|j: int, k: int| 0 <= j < k < places.len() implies places[j] != places[k] by {
        let a = with_core[j];
        let b = with_core[k];
    }
    assert forall|k: int| 0 <= k < places.len() implies paras.contains(#[trigger] places[k]) by {
        let (candidate, core) = with_core[k];
        assert(schedule(paras)[candidate.candidate.para_id.0].contains(core.0));
    }
    places_fit(places, paras);
}

/// Nothing is removed where no verdict goes against anything.
proof fn all_acquitted<X>(items: Seq<X>)
    ensures
        acquitted(items, Seq::new(items.len(), |k: int| false)) == items,
    decreases items.len(),
{
    let verdicts = Seq::new(items.len(), |k: int| false);
    if items.len() > 0 {
        let fewer = items.drop_last();
        assert(verdicts.drop_last() =~= Seq::new(fewer.len(), |k: int| false));
        all_acquitted(fewer);
        assert(fewer.push(items.last()) =~= items);
    }
}

/// What was sanitized passes sanitizing again as it is: no candidate and no vote is
/// dropped, and each candidate gets the same core. This is so as long as the runtime
/// says the same of groups, disabled validators and the configuration, the schedule is
/// the same, and the predicate lets the candidates pass.
pub proof fn sanitized_candidates_pass_again<T: System + Scheduler>(
    runtime: T,
    candidates: Seq<BackedCandidate>,
    allowed_relay_parents: AllowedRelayParentsTracker,
    invalid: spec_fn(usize, BackedCandidate, bool) -> bool,
    scheduled: Map<u32, Set<u32>>,
    core_index_enabled: bool,
    again: Seq<(BackedCandidate, CoreIndex)>,
    votes_dropped: bool,
    candidates_dropped: bool,
)
    requires
        finitely_scheduled(scheduled),
        sanitized_candidates::<T>(
            runtime,
            candidates,
            allowed_relay_parents,
            invalid,
            scheduled,
            core_index_enabled,
            views_with_core(again),
            votes_dropped,
            candidates_dropped,
        ),
        forall|k: int|
            0 <= k < again.len() ==> invalid(k as usize, (#[trigger] again[k]).0, false),
    ensures
        sanitized_candidates::<T>(
            runtime,
            again.map_values(|c: (BackedCandidate, CoreIndex)| c.0),
            allowed_relay_parents,
            invalid,
            scheduled,
            core_index_enabled,
            views_with_core(again),
            false,
            false,
        ),
{
    let with_core = views_with_core(again);
    let t = trace::<T>(
        runtime,
        candidates,
        allowed_relay_parents,
        invalid,
        scheduled,
        core_index_enabled,
        with_core,
        votes_dropped,
        candidates_dropped,
    );
    let valid = acquitted(candidates, t.verdicts);
    let given = again.map_values(|c: (BackedCandidate, CoreIndex)| c.0);
    let verdicts = Seq::new(given.len(), |k: int| false);
    all_acquitted(given);
    assert(judged(invalid, given, verdicts)) by {
        assert forall|k: int| 0 <= k < given.len() implies invalid(
            k as usize,
            given[k],
            #[trigger] verdicts[k],
        ) by {
            assert(invalid(k as usize, again[k].0, false));
        }
    }
    assignment_keeps_to_schedule(scheduled, valid, t.injected);
    let injected = Seq::new(again.len(), |k: int| t.injected[t.places[t.from[k]]]);
    assert forall|k: int| 0 <= k < again.len() implies {
        let (candidate, core) = #[trigger] again[k];
        let i = t.from[k];
        &&& 0 <= i < t.assigned.len()
        &&& candidate.candidate == t.assigned[i].0.candidate
        &&& core == t.assigned[i].1
        &&& candidate@ == cleaned(t, core_index_enabled, i)
        &&& candidate@.core_index(core_index_enabled) == t.assigned[i].0@.core_index(
            core_index_enabled,
        )
        &&& candidate@.group_indices(core_index_enabled).len()
            == t.assigned[i].0@.group_indices(core_index_enabled).len()
    } by {
        let i = t.from[k];
        assert(with_core[k] == (again[k].0@, again[k].1));
        if t.disabled@.len() > 0 {
            split_without_disabled(
                t.assigned[i].0@,
                t.groups[i]->0,
                index_set(t.disabled@),
                core_index_enabled,
            );
        }
    }
    assert(injected_cores::<T>(
        runtime,
        allowed_relay_parents,
        given,
        core_index_enabled,
        injected,
    )) by {
        assert forall|k: int| 0 <= k < given.len() implies injected_core::<T>(
            runtime,
            allowed_relay_parents,
            given[k]@,
            core_index_enabled,
            #[trigger] injected[k],
        ) by {
            assert(again[k].0 == given[k]);
            let i = t.from[k];
            let m = t.places[i];
            assert(0 <= m < valid.len());
            assert(injected_core::<T>(
                runtime,
                allowed_relay_parents,
                valid[m]@,
                core_index_enabled,
                t.injected[m],
            ));
        }
    }
    assert(well_placed(scheduled, again, injected)) by {
        assert forall|k: int| 0 <= k < again.len() implies {
            let (candidate, core) = #[trigger] again[k];
            let para = candidate.candidate.para_id.0;
            &&& scheduled.contains_key(para)
            &&& scheduled[para].contains(core.0)
            &&& scheduled[para].finite()
            &&& injected[k] == Some(core) || (injected[k] is None && scheduled[para].len() == 1)
        } by {
            let i = t.from[k];
            assert(0 <= t.places[i] < valid.len());
            assert(t.assigned[i].1 == again[k].1);
        }
        assert forall|j: int, k: int|
            0 <= j < k < again.len() && #[trigger] again[j].0.candidate.para_id
                == #[trigger] again[k].0.candidate.para_id implies again[j].1 != again[k].1 by {
            let a = again[j];
            let b = again[k];
            assert(t.from[j] != t.from[k]);
            assert(t.assigned[t.from[j]].0.candidate.para_id
                == t.assigned[t.from[k]].0.candidate.para_id);
        }
    }
    well_placed_candidates_get_their_cores(scheduled, again, injected);
    assert(mapped::<T>(
        runtime,
        allowed_relay_parents,
        scheduled,
        core_index_enabled,
        given,
        again,
    ));
    assert(disabled_dropped::<T>(
        runtime,
        allowed_relay_parents,
        core_index_enabled,
        again,
        with_core,
        false,
    )) by {
        if t.disabled@.len() > 0 {
            let groups = Seq::new(again.len(), |k: int| t.groups[t.from[k]]);
            assert(groups_of::<T>(runtime, allowed_relay_parents, with_core, groups)) by {
                assert forall|k: int| 0 <= k < with_core.len() implies backing_group::<T>(
                    runtime,
                    allowed_relay_parents,
                    with_core[k].0.candidate.relay_parent,
                    with_core[k].1,
                    #[trigger] groups[k],
                ) by {
                    let entry = again[k];
                    assert(t.groups[t.from[k]] == groups[k]);
                }
            }
            assert forall|k: int| 0 <= k < with_core.len() implies {
                let candidate = (#[trigger] with_core[k]).0;
                &&& groups[k] is Some
                &&& candidate == without_disabled(
                    candidate,
                    groups[k]->0,
                    index_set(t.disabled@),
                    core_index_enabled,
                )
                &&& !backed_by_disabled(
                    candidate,
                    groups[k]->0,
                    index_set(t.disabled@),
                    core_index_enabled,
                )
                &&& candidate.validity_votes.len() >= votes_needed(
                    groups[k]->0.len(),
                    t.config.minimum_backing_votes,
                )
            } by {
                let entry = again[k];
                let i = t.from[k];
                assert(keeps_enough_votes(
                    t.assigned[i].0@,
                    t.groups[i],
                    index_set(t.disabled@),
                    t.config.minimum_backing_votes,
                    core_index_enabled,
                ));
                let before = t.assigned[i].0@;
                let group = t.groups[i]->0;
                let disabled = index_set(t.disabled@);
                dropping_disabled_votes_twice(before, group, disabled, core_index_enabled);
                no_disabled_backer_remains(before, group, disabled, core_index_enabled);
            }
            clean_candidates_are_kept(
                with_core,
                groups,
                index_set(t.disabled@),
                t.config.minimum_backing_votes,
                core_index_enabled,
            );
        }
    }
    well_backed_are_kept(with_core, t.final_groups, t.final_config.minimum_backing_votes);
    assert(under_backed_dropped::<T>(runtime, allowed_relay_parents, with_core, with_core));
    sorted_stays_sorted(with_core);
}

/// Whether the items on one core stand in the order of their places.
spec fn stable<X>(items: Seq<(X, CoreIndex)>, places: Seq<int>) -> bool {
    forall|i: int, j: int|
        0 <= i < j < items.len() && (#[trigger] items[i]).1 == (#[trigger] items[j]).1
            ==> places[i] < places[j]
}

/// Sorting picks each item once, and those on one core in order.
proof fn sorted_picks_in_order<X>(items: Seq<(X, CoreIndex)>) -> (places: Seq<int>)
    ensures
        picked(sorted_by_core(items), items, places),
        stable(sorted_by_core(items), places),
    decreases items.len(),
{
    if items.len() == 0 {
        Seq::empty()
    } else {
        let fewer = items.drop_last();
        let places = sorted_picks_in_order(fewer);
        assert(fewer.push(items.last()) =~= items);
        put_picks_in_order(sorted_by_core(fewer), fewer, items.last(), places)
    }
}

proof fn put_picks_in_order<X>(
    sorted: Seq<(X, CoreIndex)>,
    all: Seq<(X, CoreIndex)>,
    item: (X, CoreIndex),
    places: Seq<int>,
) -> (more: Seq<int>)
    requires
        picked(sorted, all, places),
        stable(sorted, places),
    ensures
        picked(put_by_core(sorted, item), all.push(item), more),
        stable(put_by_core(sorted, item), more),
        more.len() == places.len() + 1,
        forall|k: int|
            0 <= k < more.len() ==> #[trigger] more[k] == all.len() || places.contains(more[k]),
    decreases sorted.len(),
{
    let put = put_by_core(sorted, item);
    if sorted.len() == 0 || sorted.last().1.0 <= item.1.0 {
        let more = places.push(all.len() as int);
        assert forall|i: int, j: int| 0 <= i < j < more.len() implies more[i] != more[j] by {
            assert(0 <= places[i] < all.len());
        }
        assert forall|k: int| 0 <= k < more.len() implies #[trigger] more[k] == all.len()
            || places.contains(more[k]) by {
            if k < places.len() {
                assert(places[k] == more[k]);
            }
        }
        assert forall|k: int| 0 <= k < put.len() implies 0 <= #[trigger] more[k] < all.push(
            item,
        ).len() && put[k] == all.push(item)[more[k]] by {
            if k < places.len() {
                assert(0 <= places[k] < all.len());
            }
        }
        assert forall|i: int, j: int|
            0 <= i < j < put.len() && (#[trigger] put[i]).1 == (
            #[trigger] put[j]).1 implies more[i] < more[j] by {
            assert(0 <= places[i] < all.len());
            assert(put[i] == sorted[i]);
            if j < sorted.len() {
                assert(put[j] == sorted[j]);
            }
        }
        more
    } else {
        let shorter = sorted.drop_last();
        let fewer = places.drop_last();
        assert forall|k: int| 0 <= k < fewer.len() implies 0 <= #[trigger] fewer[k] < all.len()
            && shorter[k] == all[fewer[k]] by {
            assert(0 <= places[k] < all.len());
        }
        assert forall|i: int, j: int|
            0 <= i < j < shorter.len() && (#[trigger] shorter[i]).1 == (
            #[trigger] shorter[j]).1 implies fewer[i] < fewer[j] by {
            assert(sorted[i] == shorter[i] && sorted[j] == shorter[j]);
        }
        let inner = put_picks_in_order(shorter, all, item, fewer);
        let inner_put = put_by_core(shorter, item);
        let last = places.last();
        let more = inner.push(last);
        assert(0 <= places[places.len() - 1] < all.len());
        assert forall|k: int| 0 <= k < inner.len() implies #[trigger] inner[k] != last by {
            assert(inner[k] == all.len() || fewer.contains(inner[k]));
            if inner[k] == last {
                let m = fewer.index_of(inner[k]);
                assert(places[m] == places[places.len() - 1]);
            }
        }
        assert forall|k: int| 0 <= k < more.len() implies #[trigger] more[k] == all.len()
            || places.contains(more[k]) by {
            if k < inner.len() {
                assert(inner[k] == all.len() || fewer.contains(inner[k]));
                if fewer.contains(inner[k]) {
                    assert(places[fewer.index_of(inner[k])] == more[k]);
                }
            } else {
                assert(places[places.len() - 1] == more[k]);
            }
        }
        assert forall|k: int| 0 <= k < put.len() implies 0 <= #[trigger] more[k] < all.push(
            item,
        ).len() && put[k] == all.push(item)[more[k]] by {
            if k < inner.len() {
                assert(0 <= inner[k] < all.push(item).len());
            }
        }
        assert forall|i: int, j: int|
            0 <= i < j < put.len() && (#[trigger] put[i]).1 == (
            #[trigger] put[j]).1 implies more[i] < more[j] by {
            assert(put[i] == inner_put[i]);
            if j < inner.len() {
                assert(put[j] == inner_put[j]);
            } else {
                assert(put[j] == sorted.last());
                assert(0 <= inner[i] < all.push(item).len());
                if inner[i] == all.len() {
                    assert(put[i] == item);
                } else {
                    assert(fewer.contains(inner[i]));
                    let m = fewer.index_of(inner[i]);
                    assert(shorter[m] == all[fewer[m]]);
                    assert(sorted[m] == put[i]);
                    assert(sorted[m].1 == sorted[sorted.len() - 1].1);
                }
            }
        }
        more
    }
}

/// How candidates are sanitized: what the predicate said of each, the places of those that
/// passed, the cores that these ask for and get and the places of those that get one, what
/// dropping the votes of disabled validators does, what was said of groups and of the
/// configuration afterwards, the places of those with enough votes, and the order by core.
pub struct Sanitation {
    pub verdicts: Seq<bool>,
    pub passed: Seq<int>,
    pub valid: Seq<BackedCandidate>,
    pub injected: Seq<Option<CoreIndex>>,
    pub got: Seq<Option<CoreIndex>>,
    pub with_cores: Seq<int>,
    pub assigned: Seq<(BackedCandidate, CoreIndex)>,
    pub filtration: Filtration,
    pub left: Seq<(BackedCandidateView, CoreIndex)>,
    pub config: HostConfiguration,
    pub groups: Seq<Option<Seq<ValidatorIndex>>>,
    pub enough: Seq<int>,
    pub kept: Seq<(BackedCandidateView, CoreIndex)>,
    pub order: Seq<int>,
}

impl Sanitation {
    /// Whether those candidates pass, in order, that the predicate does not go against.
    pub open spec fn judges(
        self,
        candidates: Seq<BackedCandidate>,
        invalid: spec_fn(usize, BackedCandidate, bool) -> bool,
    ) -> bool {
        &&& self.verdicts.len() == candidates.len()
        &&& forall|k: int|
            0 <= k < candidates.len() ==> invalid(
                k as usize,
                candidates[k],
                #[trigger] self.verdicts[k],
            )
        &&& self.passed.len() == self.valid.len()
        &&& forall|i: int, j: int|
            0 <= i < j < self.passed.len() ==> self.passed[i] < self.passed[j]
        &&& forall|i: int|
            0 <= i < self.passed.len() ==> 0 <= #[trigger] self.passed[i] < candidates.len()
                && self.valid[i] == candidates[self.passed[i]]
        &&& forall|k: int|
            0 <= k < candidates.len() ==> (!#[trigger] self.verdicts[k] <==> self.passed.contains(
                k,
            ))
    }

    /// Whether the candidates that passed get the cores that are due to them.
    pub open spec fn assigns<T: System + Scheduler>(
        self,
        runtime: T,
        tracker: AllowedRelayParentsTracker,
        scheduled: Map<u32, Set<u32>>,
        core_index_enabled: bool,
        candidates_dropped: bool,
    ) -> bool {
        &&& self.injected.len() == self.valid.len()
        &&& self.got.len() == self.valid.len()
        &&& forall|k: int|
            0 <= k < self.valid.len() ==> injected_core::<T>(
                runtime,
                tracker,
                self.valid[k]@,
                core_index_enabled,
                #[trigger] self.injected[k],
            )
        &&& forall|k: int|
            0 <= k < self.valid.len() ==> #[trigger] gets_its_due(
                scheduled,
                self.valid,
                self.injected,
                self.got,
                k,
            )
        &&& lists_those_with_cores(self.valid, self.got, self.with_cores, self.assigned)
        &&& candidates_dropped <==> exists|k: int|
            0 <= k < self.valid.len() && (#[trigger] self.got[k]) is None
    }

    /// Whether those stay, in order, whose group is known and that have as many votes as the
    /// group has members or as are configured.
    pub open spec fn counts<T: System + Scheduler>(
        self,
        runtime: T,
        tracker: AllowedRelayParentsTracker,
    ) -> bool {
        &&& call_ensures(T::configuration, (&runtime,), self.config)
        &&& self.groups.len() == self.left.len()
        &&& forall|k: int|
            0 <= k < self.left.len() ==> backing_group::<T>(
                runtime,
                tracker,
                self.left[k].0.candidate.relay_parent,
                self.left[k].1,
                #[trigger] self.groups[k],
            )
        &&& self.enough.len() == self.kept.len()
        &&& forall|i: int, j: int|
            0 <= i < j < self.enough.len() ==> self.enough[i] < self.enough[j]
        &&& forall|i: int|
            0 <= i < self.enough.len() ==> 0 <= #[trigger] self.enough[i] < self.left.len()
                && self.kept[i] == self.left[self.enough[i]]
        &&& forall|k: int|
            0 <= k < self.left.len() ==> (self.enough.contains(k) <==> (
            #[trigger] self.groups[k] matches Some(group) && (self.left[k].0.validity_votes.len()
                >= group.len() || self.left[k].0.validity_votes.len()
                >= self.config.minimum_backing_votes)))
    }

    /// Whether `with_core` are those that stay, each once, by core index, and those on one
    /// core in order.
    pub open spec fn sorts(self, with_core: Seq<(BackedCandidateView, CoreIndex)>) -> bool {
        &&& with_core.len() == self.kept.len()
        &&& self.order.len() == with_core.len()
        &&& forall|i: int, j: int|
            0 <= i < self.order.len() && 0 <= j < self.order.len() && i != j ==> self.order[i]
                != self.order[j]
        &&& forall|k: int|
            0 <= k < with_core.len() ==> 0 <= #[trigger] self.order[k] < self.kept.len()
                && with_core[k] == self.kept[self.order[k]]
        &&& forall|i: int, j: int|
            0 <= i < j < with_core.len() ==> (#[trigger] with_core[i]).1.0 <= (
            #[trigger] with_core[j]).1.0
        &&& forall|i: int, j: int|
            0 <= i < j < with_core.len() && (#[trigger] with_core[i]).1.0 == (
            #[trigger] with_core[j]).1.0 ==> self.order[i] < self.order[j]
    }
}

/// The candidates with enough votes, one by one.
proof fn well_backed_one_by_one(
    candidates: Seq<(BackedCandidateView, CoreIndex)>,
    groups: Seq<Option<Seq<ValidatorIndex>>>,
    minimum: u32,
) -> (places: Seq<int>)
    requires
        groups.len() == candidates.len(),
    ensures
        ({
            let kept = well_backed(candidates, groups, minimum);
            &&& places.len() == kept.len()
            &&& forall|i: int, j: int| 0 <= i < j < places.len() ==> places[i] < places[j]
            &&& forall|i: int|
                0 <= i < places.len() ==> 0 <= #[trigger] places[i] < candidates.len() && kept[i]
                    == candidates[places[i]] && has_enough_votes(
                    candidates[places[i]].0,
                    groups[places[i]],
                    minimum,
                )
            &&& forall|k: int|
                0 <= k < candidates.len() && has_enough_votes(
                    (#[trigger] candidates[k]).0,
                    groups[k],
                    minimum,
                ) ==> places.contains(k)
        }),
    decreases candidates.len(),
{
    let kept = well_backed(candidates, groups, minimum);
    if candidates.len() == 0 {
        Seq::empty()
    } else {
        let fewer = candidates.drop_last();
        let top = candidates.len() - 1;
        let before = well_backed_one_by_one(fewer, groups.drop_last(), minimum);
        let stays = has_enough_votes(candidates[top].0, groups[top], minimum);
        let places = if stays {
            before.push(top)
        } else {
            before
        };
        assert forall|i: int| 0 <= i < places.len() implies 0 <= #[trigger] places[i]
            < candidates.len() && kept[i] == candidates[places[i]] && has_enough_votes(
            candidates[places[i]].0,
            groups[places[i]],
            minimum,
        ) by {
            if i < before.len() {
                assert(0 <= before[i] < top);
                assert(fewer[before[i]] == candidates[before[i]]);
            }
        }
        assert forall|k: int|
            0 <= k < candidates.len() && has_enough_votes(
                (#[trigger] candidates[k]).0,
                groups[k],
                minimum,
            ) implies places.contains(k) by {
            if k < top {
                assert(fewer[k] == candidates[k]);
                assert(places[before.index_of(k)] == k);
            } else {
                assert(places[before.len() as int] == k);
            }
        }
        places
    }
}

/// The items that no verdict goes against, one by one.
proof fn acquitted_one_by_one<X>(items: Seq<X>, verdicts: Seq<bool>) -> (places: Seq<int>)
    requires
        verdicts.len() == items.len(),
    ensures
        places.len() == acquitted(items, verdicts).len(),
        forall|i: int, j: int| 0 <= i < j < places.len() ==> places[i] < places[j],
        forall|i: int|
            0 <= i < places.len() ==> 0 <= #[trigger] places[i] < items.len() && acquitted(
                items,
                verdicts,
            )[i] == items[places[i]] && !verdicts[places[i]],
        forall|k: int| 0 <= k < items.len() && !#[trigger] verdicts[k] ==> places.contains(k),
    decreases items.len(),
{
    let left = acquitted(items, verdicts);
    if items.len() == 0 {
        Seq::empty()
    } else {
        let fewer = items.drop_last();
        let fewer_verdicts = verdicts.drop_last();
        let top = items.len() - 1;
        let before = acquitted_one_by_one(fewer, fewer_verdicts);
        let places = if verdicts.last() {
            before
        } else {
            before.push(top)
        };
        assert forall|i: int| 0 <= i < places.len() implies 0 <= #[trigger] places[i] < items.len()
            && left[i] == items[places[i]] && !verdicts[places[i]] by {
            if i < before.len() {
                assert(0 <= before[i] < top);
                assert(!fewer_verdicts[before[i]]);
            }
        }
        assert forall|k: int|
            0 <= k < items.len() && !#[trigger] verdicts[k] implies places.contains(k) by {
            if k < top {
                assert(!fewer_verdicts[k]);
                assert(places[before.index_of(k)] == k);
            } else {
                assert(places[before.len() as int] == k);
            }
        }
        places
    }
}

/// What sanitizing makes of candidates, candidate by candidate: the predicate judges each of
/// them at its place; those that pass get the cores that are due to them; these lose the
/// votes of disabled validators; those without enough votes go; and the rest is sorted by
/// core. The one flag is set exactly if a candidate that passed gets no core, and the other
/// exactly if dropping the votes of disabled validators changes something.
pub proof fn sanitizing_goes_candidate_by_candidate<T: System + Scheduler>(
    runtime: T,
    candidates: Seq<BackedCandidate>,
    allowed_relay_parents: AllowedRelayParentsTracker,
    invalid: spec_fn(usize, BackedCandidate, bool) -> bool,
    scheduled: Map<u32, Set<u32>>,
    core_index_enabled: bool,
    with_core: Seq<(BackedCandidateView, CoreIndex)>,
    votes_dropped: bool,
    candidates_dropped: bool,
) -> (s: Sanitation)
    requires
        finitely_scheduled(scheduled),
        sanitized_candidates::<T>(
            runtime,
            candidates,
            allowed_relay_parents,
            invalid,
            scheduled,
            core_index_enabled,
            with_core,
            votes_dropped,
            candidates_dropped,
        ),
    ensures
        s.judges(candidates, invalid),
        s.assigns::<T>(
            runtime,
            allowed_relay_parents,
            scheduled,
            core_index_enabled,
            candidates_dropped,
        ),
        s.filtration.is_right::<T>(
            runtime,
            allowed_relay_parents,
            core_index_enabled,
            s.assigned,
            s.left,
            votes_dropped,
        ),
        s.counts::<T>(runtime, allowed_relay_parents),
        s.sorts(with_core),
{
    let (verdicts, assigned, left, kept) = choose|
        verdicts: Seq<bool>,
        assigned: Seq<(BackedCandidate, CoreIndex)>,
        left: Seq<(BackedCandidateView, CoreIndex)>,
        kept: Seq<(BackedCandidateView, CoreIndex)>,
    |
        {
            let valid = acquitted(candidates, verdicts);
            &&& #[trigger] judged(invalid, candidates, verdicts)
            &&& mapped::<T>(
                runtime,
                allowed_relay_parents,
                scheduled,
                core_index_enabled,
                valid,
                assigned,
            )
            &&& candidates_dropped == (assigned.len() != valid.len())
            &&& #[trigger] disabled_dropped::<T>(
                runtime,
                allowed_relay_parents,
                core_index_enabled,
                assigned,
                left,
                votes_dropped,
            )
            &&& #[trigger] under_backed_dropped::<T>(runtime, allowed_relay_parents, left, kept)
            &&& with_core == sorted_by_core(kept)
        };
    let valid = acquitted(candidates, verdicts);
    let passed = acquitted_one_by_one(candidates, verdicts);
    assert forall|k: int| 0 <= k < candidates.len() implies (!#[trigger] verdicts[k]
        <==> passed.contains(k)) by {
        if passed.contains(k) {
            assert(!verdicts[passed[passed.index_of(k)]]);
        }
    }
    let (injected, got, with_cores) = mapping_gives_candidates_their_due::<T>(
        runtime,
        allowed_relay_parents,
        scheduled,
        core_index_enabled,
        valid,
        assigned,
    );
    all_or_one_without_core(valid, got, with_cores, assigned);
    let filtration = filtration_goes_candidate_by_candidate::<T>(
        runtime,
        allowed_relay_parents,
        core_index_enabled,
        assigned,
        left,
        votes_dropped,
    );
    let (config, groups) = choose|
        config: HostConfiguration,
        groups: Seq<Option<Seq<ValidatorIndex>>>,
    | #[trigger]
        call_ensures(T::configuration, (&runtime,), config) && #[trigger] groups_of::<T>(
            runtime,
            allowed_relay_parents,
            left,
            groups,
        ) && kept == well_backed(left, groups, config.minimum_backing_votes);
    let m = config.minimum_backing_votes;
    let enough = well_backed_one_by_one(left, groups, m);
    assert forall|k: int| 0 <= k < left.len() implies (enough.contains(k) <==> (
    #[trigger] groups[k] matches Some(group) && (left[k].0.validity_votes.len() >= group.len()
        || left[k].0.validity_votes.len() >= m))) by {
        if let Some(group) = groups[k] {
            votes_needed_is_the_smaller(group.len(), m);
        }
        let entry = left[k];
        if enough.contains(k) {
            let j = enough.index_of(k);
            assert(has_enough_votes(left[enough[j]].0, groups[enough[j]], m));
        }
    }
    sorted_by_core_is_stable(kept);
    let order = sorted_picks_in_order(kept);
    let s = Sanitation {
        verdicts,
        passed,
        valid,
        injected,
        got,
        with_cores,
        assigned,
        filtration,
        left,
        config,
        groups,
        enough,
        kept,
        order,
    };
    assert(s.sorts(with_core)) by {
        assert forall|i: int, j: int|
            0 <= i < j < with_core.len() && (#[trigger] with_core[i]).1.0 == (
            #[trigger] with_core[j]).1.0 implies order[i] < order[j] by {
            assert(with_core[i].1 == with_core[j].1);
        }
    }
    s
}

/// As many candidates have cores as there are candidates, or one has none.
proof fn all_or_one_without_core(
    candidates: Seq<BackedCandidate>,
    got: Seq<Option<CoreIndex>>,
    places: Seq<int>,
    assigned: Seq<(BackedCandidate, CoreIndex)>,
)
    requires
        got.len() == candidates.len(),
        lists_those_with_cores(candidates, got, places, assigned),
    ensures
        assigned.len() != candidates.len() <==> exists|k: int|
            0 <= k < candidates.len() && (#[trigger] got[k]) is None,
{
    let n = candidates.len();
    let numbers = Seq::new(n, |k: int| k);
    assert forall|i: int, j: int| 0 <= i < j < places.len() implies places[i] != places[j] by {
        assert(places[i] < places[j]);
    }
    assert forall|i: int| 0 <= i < places.len() implies numbers.contains(#[trigger] places[i]) by {
        assert(numbers[places[i]] == places[i]);
    }
    places_fit(places, numbers);
    if forall|k: int| 0 <= k < n ==> (#[trigger] got[k]) is Some {
        assert(numbers.no_duplicates());
        assert forall|k: int| 0 <= k < numbers.len() implies places.contains(
            #[trigger] numbers[k],
        ) by {
            assert(got[k] is Some);
        }
        places_fit(numbers, places);
    }
    if exists|k: int| 0 <= k < n && (#[trigger] got[k]) is None {
        let k = choose|k: int| 0 <= k < n && (#[trigger] got[k]) is None;
        let more = places.push(k);
        assert forall|i: int, j: int| 0 <= i < j < more.len() implies more[i] != more[j] by {
            assert(0 <= places[i] < n);
            assert(got[places[i]] is Some);
        }
        assert forall|i: int| 0 <= i < more.len() implies numbers.contains(#[trigger] more[i]) by {
            if i < places.len() {
                assert(numbers.contains(places[i]));
            } else {
                assert(numbers[k] == k);
            }
        }
        places_fit(more, numbers);
    }
}

/// The verdicts of a predicate are its own answers, on each item and its place.
pub proof fn verdicts_are_those_of_the_predicate<X, F: Fn(usize, &X) -> bool>(
    f: F,
    k: usize,
    item: X,
    verdict: bool,
)
    ensures
        verdicts_of(f)(k, item, verdict) <==> call_ensures(f, (k, &item), verdict),
{
}

} // verus!
