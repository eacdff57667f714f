//! Which candidate goes on which core.

use crate::candidate::{
    core_index_is_in_the_last_eight_bits, BackedCandidate, BackedCandidateView,
};
use crate::primitives::{CoreIndex, GroupIndex, ParaId, ValidatorIndex, H256};
use crate::relay_parents::{found_by_hash, AllowedRelayParentsTracker};
use crate::runtime::Scheduler;
use std::collections::{BTreeMap, BTreeSet};
use vstd::prelude::*;
use vstd::std_specs::iter::IteratorSpec;

verus! {

broadcast use {vstd::std_specs::btree::group_btree_axioms, vstd::laws_cmp::group_laws_cmp};

/// The members of a group of validators, if there is one.
pub open spec fn members(group: Option<Vec<ValidatorIndex>>) -> Option<Seq<ValidatorIndex>> {
    match group {
        None => None,
        Some(validators) => Some(validators@),
    }
}

/// Whether `group` is what the runtime says of the validators that back candidates
/// on a core, for candidates that build on a relay parent. The group is that of the
/// block after the relay parent. There is none where candidates may not build on
/// the relay parent.
pub open spec fn backing_group<T: Scheduler>(
    runtime: T,
    allowed_relay_parents: AllowedRelayParentsTracker,
    relay_parent: H256,
    core: CoreIndex,
    group: Option<Seq<ValidatorIndex>>,
) -> bool {
    match allowed_relay_parents.info(relay_parent) {
        None => group is None,
        Some(block) => exists|index: Option<GroupIndex>| #[trigger]
            call_ensures(
                T::group_assigned_to_core,
                (&runtime, core, (block.number + 1) as u64),
                index,
            ) && match index {
                None => group is None,
                Some(index) => exists|validators: Option<Vec<ValidatorIndex>>| #[trigger]
                    call_ensures(T::group_validators, (&runtime, index), validators) && group
                        == members(validators),
            },
    }
}

/// The validators that back candidates on a core, for candidates that build on a
/// relay parent.
pub fn find_backing_group<T: Scheduler>(
    runtime: &T,
    allowed_relay_parents: &AllowedRelayParentsTracker,
    relay_parent: H256,
    core: CoreIndex,
) -> (r: Option<Vec<ValidatorIndex>>)
    ensures
        backing_group::<T>(*runtime, *allowed_relay_parents, relay_parent, core, members(r)),
{
    match allowed_relay_parents.acquire_info(relay_parent) {
        None => None,
        Some((_, number)) => {
            let at: u64 = number as u64 + 1;
            let index = runtime.group_assigned_to_core(core, at);
            match index {
                None => None,
                Some(group) => runtime.group_validators(group),
            }
        },
    }
}

/// Whether `core` is the core that a candidate asks for: the one behind its
/// validator indices, if what is left of these is as long as the group that backs
/// candidates on that core.
pub open spec fn injected_core<T: Scheduler>(
    runtime: T,
    allowed_relay_parents: AllowedRelayParentsTracker,
    candidate: BackedCandidateView,
    core_index_enabled: bool,
    core: Option<CoreIndex>,
) -> bool {
    match candidate.core_index(core_index_enabled) {
        None => core is None,
        Some(asked) => exists|group: Option<Seq<ValidatorIndex>>| #[trigger]
            backing_group::<T>(
                runtime,
                allowed_relay_parents,
                candidate.candidate.relay_parent,
                asked,
                group,
            ) && core == match group {
                None => None,
                Some(group) => if group.len() == candidate.group_indices(core_index_enabled).len() {
                    Some(asked)
                } else {
                    None
                },
            },
    }
}

/// The core index that the block author gave a candidate, if it is well encoded.
pub fn get_injected_core_index<T: Scheduler>(
    runtime: &T,
    allowed_relay_parents: &AllowedRelayParentsTracker,
    candidate: &BackedCandidate,
    core_index_enabled: bool,
) -> (r: Option<CoreIndex>)
    ensures
        injected_core::<T>(*runtime, *allowed_relay_parents, candidate@, core_index_enabled, r),
{
    let (validator_indices, maybe_core_idx) = candidate.validator_indices_and_core_index(
        core_index_enabled,
    );
    match maybe_core_idx {
        None => None,
        Some(core_idx) => {
            let group = find_backing_group::<T>(
                runtime,
                allowed_relay_parents,
                candidate.candidate.relay_parent,
                core_idx,
            );
            match group {
                None => None,
                Some(validators) => if validators.len() == validator_indices.len() {
                    Some(core_idx)
                } else {
                    None
                },
            }
        },
    }
}

/// The free cores of each parachain, keyed by parachain.
pub type ScheduledCores = BTreeMap<u32, BTreeSet<u32>>;

/// The free cores of each parachain.
pub open spec fn cores_by_para(scheduled: ScheduledCores) -> Map<u32, Set<u32>> {
    scheduled@.map_values(|cores: BTreeSet<u32>| cores@)
}

/// Candidates on cores, and the cores that are still free.
pub struct Assignment {
    pub assigned: Seq<(BackedCandidate, CoreIndex)>,
    pub free: Map<u32, Set<u32>>,
}

impl Assignment {
    /// Puts a candidate on a core of its parachain.
    pub open spec fn with(self, candidate: BackedCandidate, core: u32) -> Assignment {
        let para = candidate.candidate.para_id.0;
        Assignment {
            assigned: self.assigned.push((candidate, CoreIndex(core))),
            free: self.free.insert(para, self.free[para].remove(core)),
        }
    }

    /// Deals with the next candidate, which asks for the core `injected` or for
    /// none.
    pub open spec fn next(
        self,
        scheduled: Map<u32, Set<u32>>,
        candidate: BackedCandidate,
        injected: Option<CoreIndex>,
    ) -> Assignment {
        let para = candidate.candidate.para_id.0;
        if !self.free.contains_key(para) {
            self
        } else {
            match injected {
                Some(core) => if self.free[para].contains(core.0) {
                    self.with(candidate, core.0)
                } else {
                    self
                },
                None => if scheduled[para].len() == 1 && self.free[para] == scheduled[para] {
                    self.with(candidate, scheduled[para].choose())
                } else {
                    self
                },
            }
        }
    }
}

/// Goes through candidates in order. A candidate that asks for a core gets it if it
/// is free for its parachain. One that asks for none gets the core of its parachain
/// if only one is scheduled and it is free. All others are left out.
pub open spec fn assign(
    scheduled: Map<u32, Set<u32>>,
    candidates: Seq<BackedCandidate>,
    injected: Seq<Option<CoreIndex>>,
) -> Assignment
    decreases candidates.len(),
{
    if candidates.len() == 0 {
        Assignment { assigned: Seq::empty(), free: scheduled }
    } else {
        assign(scheduled, candidates.drop_last(), injected.drop_last()).next(
            scheduled,
            candidates.last(),
            injected.last(),
        )
    }
}

/// Whether `injected` are the cores that the candidates ask for.
pub open spec fn injected_cores<T: Scheduler>(
    runtime: T,
    allowed_relay_parents: AllowedRelayParentsTracker,
    candidates: Seq<BackedCandidate>,
    core_index_enabled: bool,
    injected: Seq<Option<CoreIndex>>,
) -> bool {
    &&& injected.len() == candidates.len()
    &&& forall|k: int|
        0 <= k < candidates.len() ==> injected_core::<T>(
            runtime,
            allowed_relay_parents,
            candidates[k]@,
            core_index_enabled,
            #[trigger] injected[k],
        )
}

/// Whether `assigned` is what becomes of candidates that want to go on scheduled
/// cores.
pub open spec fn mapped<T: Scheduler>(
    runtime: T,
    allowed_relay_parents: AllowedRelayParentsTracker,
    scheduled: Map<u32, Set<u32>>,
    core_index_enabled: bool,
    candidates: Seq<BackedCandidate>,
    assigned: Seq<(BackedCandidate, CoreIndex)>,
) -> bool {
    exists|injected: Seq<Option<CoreIndex>>| #[trigger]
        injected_cores::<T>(
            runtime,
            allowed_relay_parents,
            candidates,
            core_index_enabled,
            injected,
        ) && assigned == assign(scheduled, candidates, injected).assigned
}

/// Trusted: `BTreeSet::pop_first` removes the least element of the set and returns
/// it; it returns nothing exactly when the set is empty.
#[verifier::external_body]
fn pop_first(set: &mut BTreeSet<u32>) -> (r: Option<u32>)
    ensures
        match r {
            Some(least) => old(set)@.contains(least) && final(set)@ == old(set)@.remove(least) && (
            forall|x: u32| old(set)@.contains(x) ==> least <= x),
            None => old(set)@ == Set::<u32>::empty() && final(set)@ == old(set)@,
        },
{
    set.pop_first()
}

/// A set in memory is finite.
proof fn view_is_finite(set: &BTreeSet<u32>)
    ensures
        set@.finite(),
{
    let elements = vstd::std_specs::btree::spec_btree_keys_iter(set).remaining().unref();
    vstd::seq_lib::seq_to_set_is_finite(elements);
}

/// Maps candidates to scheduled cores.
///
/// If only one core is scheduled for the parachain and the candidate asks for none,
/// the candidate goes on that core. Otherwise it goes on the core that it asks for,
/// if that core is scheduled for its parachain. A core takes one candidate of a
/// parachain. The rest is filtered out.
pub fn map_candidates_to_cores<T: Scheduler>(
    runtime: &T,
    allowed_relay_parents: &AllowedRelayParentsTracker,
    scheduled: ScheduledCores,
    core_index_enabled: bool,
    candidates: Vec<BackedCandidate>,
) -> (r: Vec<(BackedCandidate, CoreIndex)>)
    ensures
        mapped::<T>(
            *runtime,
            *allowed_relay_parents,
            cores_by_para(scheduled),
            core_index_enabled,
            candidates@,
            r@,
        ),
{
    let ghost all = candidates@;
    let ghost at_first = cores_by_para(scheduled);
    let ghost mut injected: Seq<Option<CoreIndex>> = Seq::empty();
    let mut free = scheduled;
    // The parachains of which a candidate has got a core.
    let mut served: BTreeSet<u32> = BTreeSet::new();
    let mut assigned: Vec<(BackedCandidate, CoreIndex)> = Vec::new();
    for candidate in it: candidates.into_iter()
        invariant
            it.seq() == all,
            injected_cores::<T>(
                *runtime,
                *allowed_relay_parents,
                all.take(it.index()),
                core_index_enabled,
                injected,
            ),
            assigned@ == assign(at_first, all.take(it.index()), injected).assigned,
            cores_by_para(free) == assign(at_first, all.take(it.index()), injected).free,
            free@.dom() == at_first.dom(),
            forall|para: u32, core: u32|
                free@.contains_key(para) && #[trigger] free@[para]@.contains(core)
                    ==> at_first[para].contains(core),
            forall|para: u32|
                free@.contains_key(para) ==> (#[trigger] served@.contains(para) <==> free@[para]@
                    != at_first[para]),
    {
        let maybe_core = get_injected_core_index::<T>(
            runtime,
            allowed_relay_parents,
            &candidate,
            core_index_enabled,
        );
        let ghost before = assign(at_first, all.take(it.index()), injected);
        let ghost map_before = free@;
        proof {
            assert(all.take(it.index() + 1).drop_last() =~= all.take(it.index()));
            assert(injected.push(maybe_core).drop_last() =~= injected);
            injected = injected.push(maybe_core);
        }
        let para = candidate.candidate.para_id.0;
        if let Some(cores) = free.remove(&para) {
            let mut cores = cores;
            let ghost cores_before = cores@;
            assert(map_before.contains_key(para) && map_before[para]@ == cores_before);
            match maybe_core {
                Some(core) => {
                    if cores.contains(&core.0) {
                        assert(at_first[para].contains(core.0));
                        cores.remove(&core.0);
                        served.insert(para);
                        assigned.push((candidate, core));
                    }
                },
                None => {
                    if cores.len() == 1 && !served.contains(&para) {
                        proof {
                            view_is_finite(&cores);
                            Set::lemma_is_singleton(cores_before);
                        }
                        if let Some(core) = pop_first(&mut cores) {
                            assert(at_first[para].contains(core));
                            served.insert(para);
                            assigned.push((candidate, CoreIndex(core)));
                        }
                    }
                },
            }
            free.insert(para, cores);
            assert(free@ =~= map_before.insert(para, cores));
            assert(cores_by_para(free) =~= before.next(at_first, candidate, maybe_core).free);
        }
    }
    assert(all.take(all.len() as int) =~= all);
    assigned
}

/// What holds of candidates on cores, given the cores that were scheduled.
pub open spec fn keeps_to_schedule(scheduled: Map<u32, Set<u32>>, assignment: Assignment) -> bool {
    &&& assignment.free.dom() == scheduled.dom()
    &&& forall|para: u32, core: u32|
        scheduled.contains_key(para) && #[trigger] assignment.free[para].contains(core)
            ==> scheduled[para].contains(core)
    &&& forall|k: int|
        0 <= k < assignment.assigned.len() ==> {
            let (candidate, core) = #[trigger] assignment.assigned[k];
            let para = candidate.candidate.para_id.0;
            scheduled.contains_key(para) && scheduled[para].contains(core.0)
                && !assignment.free[para].contains(core.0)
        }
    &&& forall|j: int, k: int|
        0 <= j < k < assignment.assigned.len()
            && #[trigger] assignment.assigned[j].0.candidate.para_id
            == #[trigger] assignment.assigned[k].0.candidate.para_id ==> assignment.assigned[j].1
            != assignment.assigned[k].1
}

/// Each candidate gets a core that is scheduled for its parachain, and no two
/// candidates of a parachain get the same core. What remains free was scheduled.
pub proof fn assignment_keeps_to_schedule(
    scheduled: Map<u32, Set<u32>>,
    candidates: Seq<BackedCandidate>,
    injected: Seq<Option<CoreIndex>>,
)
    requires
        injected.len() == candidates.len(),
        forall|para: u32| #[trigger] scheduled.contains_key(para) ==> scheduled[para].finite(),
    ensures
        keeps_to_schedule(scheduled, assign(scheduled, candidates, injected)),
    decreases candidates.len(),
{
    if candidates.len() == 0 {
        assert(assign(scheduled, candidates, injected).free == scheduled);
    } else {
        assignment_keeps_to_schedule(scheduled, candidates.drop_last(), injected.drop_last());
        let before = assign(scheduled, candidates.drop_last(), injected.drop_last());
        let after = before.next(scheduled, candidates.last(), injected.last());
        let para = candidates.last().candidate.para_id.0;
        if after != before {
            if injected.last() is None {
                if !exists|core: u32| before.free[para].contains(core) {
                    assert(before.free[para] =~= Set::empty());
                }
            }
            assert(after.free.dom() =~= before.free.dom());
        }
    }
}

/// Whether candidates on cores stand at places among all candidates, in the same
/// order, each on the core that it asks for or, if it asks for none, on the only one
/// of its parachain.
pub open spec fn stand_at(
    places: Seq<int>,
    scheduled: Map<u32, Set<u32>>,
    candidates: Seq<BackedCandidate>,
    injected: Seq<Option<CoreIndex>>,
    assigned: Seq<(BackedCandidate, CoreIndex)>,
) -> bool {
    &&& places.len() == assigned.len()
    &&& forall|k: int|
        0 <= k < assigned.len() ==> {
            &&& 0 <= #[trigger] places[k] < candidates.len()
            &&& assigned[k].0 == candidates[places[k]]
            &&& injected[places[k]] is Some ==> injected[places[k]] == Some(assigned[k].1)
            &&& injected[places[k]] is None
                ==> scheduled[assigned[k].0.candidate.para_id.0].len() == 1
        }
    &&& forall|j: int, k: int| 0 <= j < k < assigned.len() ==> places[j] < places[k]
}

/// The candidates that get a core are some of the candidates, in their order. One
/// that asks for a core gets no other, and one that asks for none gets one only if a
/// single core is scheduled for its parachain.
pub proof fn assignment_keeps_order(
    scheduled: Map<u32, Set<u32>>,
    candidates: Seq<BackedCandidate>,
    injected: Seq<Option<CoreIndex>>,
)
    requires
        injected.len() == candidates.len(),
    ensures
        exists|places: Seq<int>| #[trigger]
            stand_at(
                places,
                scheduled,
                candidates,
                injected,
                assign(scheduled, candidates, injected).assigned,
            ),
    decreases candidates.len(),
{
    if candidates.len() == 0 {
        assert(stand_at(
            Seq::empty(),
            scheduled,
            candidates,
            injected,
            assign(scheduled, candidates, injected).assigned,
        ));
    } else {
        assignment_keeps_order(scheduled, candidates.drop_last(), injected.drop_last());
        let before = assign(scheduled, candidates.drop_last(), injected.drop_last());
        let after = assign(scheduled, candidates, injected);
        let places = choose|places: Seq<int>| #[trigger]
            stand_at(
                places,
                scheduled,
                candidates.drop_last(),
                injected.drop_last(),
                before.assigned,
            );
        if after.assigned == before.assigned {
            assert(stand_at(places, scheduled, candidates, injected, after.assigned));
        } else {
            assert(stand_at(
                places.push(candidates.len() - 1),
                scheduled,
                candidates,
                injected,
                after.assigned,
            ));
        }
    }
}

/// The cores of each parachain, by a list of cores and the parachains scheduled on
/// them.
pub open spec fn schedule(paras: Seq<(CoreIndex, ParaId)>) -> Map<u32, Set<u32>> {
    Map::new(
        |para: u32| exists|core: u32| #[trigger] paras.contains((CoreIndex(core), ParaId(para))),
        |para: u32| Set::new(|core: u32| paras.contains((CoreIndex(core), ParaId(para)))),
    )
}

proof fn schedule_step(paras: Seq<(CoreIndex, ParaId)>, core: CoreIndex, para: ParaId)
    ensures
        ({
            let before = schedule(paras);
            let cores = if before.contains_key(para.0) {
                before[para.0]
            } else {
                Set::empty()
            };
            schedule(paras.push((core, para))) == before.insert(para.0, cores.insert(core.0))
        }),
{
    let next = paras.push((core, para));
    let before = schedule(paras);
    let after = schedule(next);
    assert forall|c: u32, p: u32| #[trigger] next.contains((CoreIndex(c), ParaId(p))) <==> (
    paras.contains((CoreIndex(c), ParaId(p))) || (c == core.0 && p == para.0)) by {
        if paras.contains((CoreIndex(c), ParaId(p))) {
            assert(next[paras.index_of((CoreIndex(c), ParaId(p)))] == (CoreIndex(c), ParaId(p)));
        }
        if c == core.0 && p == para.0 {
            assert(next[paras.len() as int] == (CoreIndex(c), ParaId(p)));
        }
        if next.contains((CoreIndex(c), ParaId(p))) {
            let j = next.index_of((CoreIndex(c), ParaId(p)));
            if j < paras.len() {
                assert(paras[j] == (CoreIndex(c), ParaId(p)));
            }
        }
    }
    let cores = if before.contains_key(para.0) {
        before[para.0]
    } else {
        Set::empty()
    };
    let wanted = before.insert(para.0, cores.insert(core.0));
    assert forall|p: u32| #[trigger] after.contains_key(p) == wanted.contains_key(p) by {
        if p == para.0 {
            assert(next.contains((CoreIndex(core.0), ParaId(p))));
        }
        if before.contains_key(p) {
            let c = choose|c: u32| #[trigger] paras.contains((CoreIndex(c), ParaId(p)));
            assert(next.contains((CoreIndex(c), ParaId(p))));
        }
        if after.contains_key(p) && p != para.0 {
            let c = choose|c: u32| #[trigger] next.contains((CoreIndex(c), ParaId(p)));
            assert(paras.contains((CoreIndex(c), ParaId(p))));
        }
    }
    assert forall|p: u32| after.contains_key(p) implies #[trigger] after[p] == wanted[p] by {
        assert(after[p] =~= wanted[p]);
    }
    assert(after =~= wanted);
}

/// Collects the cores of each parachain.
pub fn collect_scheduled(paras: &Vec<(CoreIndex, ParaId)>) -> (r: ScheduledCores)
    ensures
        cores_by_para(r) == schedule(paras@),
{
    let mut scheduled: ScheduledCores = BTreeMap::new();
    let mut k: usize = 0;
    assert(cores_by_para(scheduled) =~= schedule(paras@.take(0)));
    while k < paras.len()
        invariant
            k <= paras@.len(),
            cores_by_para(scheduled) == schedule(paras@.take(k as int)),
        decreases paras@.len() - k,
    {
        let ghost before = scheduled@;
        let ghost so_far = cores_by_para(scheduled);
        let (core, para) = paras[k];
        let mut cores = match scheduled.remove(&para.0) {
            Some(cores) => cores,
            None => BTreeSet::new(),
        };
        cores.insert(core.0);
        scheduled.insert(para.0, cores);
        proof {
            schedule_step(paras@.take(k as int), core, para);
            assert(paras@.take(k + 1) =~= paras@.take(k as int).push((core, para)));
            assert(cores_by_para(scheduled) =~= schedule(paras@.take(k + 1)));
        }
        k = k + 1;
    }
    assert(paras@.take(k as int) =~= paras@);
    scheduled
}

/// A parachain is scheduled on finitely many cores.
pub proof fn schedule_is_finite(paras: Seq<(CoreIndex, ParaId)>)
    ensures
        forall|para: u32| #[trigger]
            schedule(paras).contains_key(para) ==> schedule(paras)[para].finite(),
{
    let scheduled = schedule(paras);
    assert forall|para: u32| #[trigger]
        scheduled.contains_key(para) implies scheduled[para].finite() by {
        let cores = paras.map_values(|entry: (CoreIndex, ParaId)| entry.0.0);
        vstd::seq_lib::seq_to_set_is_finite(cores);
        assert(scheduled[para].subset_of(cores.to_set())) by {
            assert forall|core: u32| scheduled[para].contains(core) implies cores.to_set().contains(
                core,
            ) by {
                let j = paras.index_of((CoreIndex(core), ParaId(para)));
                assert(cores[j] == core);
            }
        }
        vstd::set_lib::lemma_set_subset_finite(cores.to_set(), scheduled[para]);
    }
}

/// There are never more candidates on cores than entries in the list of scheduled
/// cores.
pub proof fn candidates_never_outnumber_cores(
    paras: Seq<(CoreIndex, ParaId)>,
    candidates: Seq<BackedCandidate>,
    injected: Seq<Option<CoreIndex>>,
)
    requires
        injected.len() == candidates.len(),
    ensures
        assign(schedule(paras), candidates, injected).assigned.len() <= paras.len(),
{
    let scheduled = schedule(paras);
    schedule_is_finite(paras);
    assignment_keeps_to_schedule(scheduled, candidates, injected);
    let assigned = assign(scheduled, candidates, injected).assigned;
    let places = assigned.map_values(
        |entry: (BackedCandidate, CoreIndex)| (entry.1, entry.0.candidate.para_id),
    );
    assert forall|j: int, k: int| 0 <= j < k < places.len() implies places[j] != places[k] by {
        assert(assigned[j].0.candidate.para_id == places[j].1);
        assert(assigned[k].0.candidate.para_id == places[k].1);
    }
    assert forall|k: int| 0 <= k < places.len() implies paras.contains(#[trigger] places[k]) by {
        let (candidate, core) = assigned[k];
        assert(scheduled[candidate.candidate.para_id.0].contains(core.0));
    }
    places_fit(places, paras);
}

/// Distinct entries of a list are no more than the list has entries.
pub proof fn places_fit<X>(some: Seq<X>, all: Seq<X>)
    requires
        some.no_duplicates(),
        forall|k: int| 0 <= k < some.len() ==> all.contains(#[trigger] some[k]),
    ensures
        some.len() <= all.len(),
{
    some.unique_seq_to_set();
    assert(some.to_set().subset_of(all.to_set())) by {
        assert forall|x: X| some.to_set().contains(x) implies all.to_set().contains(x) by {
            let k = some.index_of(x);
            assert(all.contains(some[k]));
        }
    }
    vstd::seq_lib::seq_to_set_is_finite(all);
    vstd::set_lib::lemma_len_subset(some.to_set(), all.to_set());
    all.lemma_cardinality_of_set();
}

/// Whether candidates could all stand on their cores: the cores are scheduled for
/// their parachains, no two candidates of a parachain share one, and each asks for its
/// core or needs to ask for none.
pub open spec fn well_placed(
    scheduled: Map<u32, Set<u32>>,
    assigned: Seq<(BackedCandidate, CoreIndex)>,
    injected: Seq<Option<CoreIndex>>,
) -> bool {
    &&& injected.len() == assigned.len()
    &&& forall|k: int|
        0 <= k < assigned.len() ==> {
            let (candidate, core) = #[trigger] assigned[k];
            let para = candidate.candidate.para_id.0;
            &&& scheduled.contains_key(para)
            &&& scheduled[para].contains(core.0)
            &&& scheduled[para].finite()
            &&& injected[k] == Some(core) || (injected[k] is None && scheduled[para].len() == 1)
        }
    &&& forall|j: int, k: int|
        0 <= j < k < assigned.len() && #[trigger] assigned[j].0.candidate.para_id
            == #[trigger] assigned[k].0.candidate.para_id ==> assigned[j].1 != assigned[k].1
}

/// Candidates that can all stand on their cores get these cores, all of them, in
/// whatever order they come. So what was mapped to cores once is mapped to the same
/// cores again, as long as the candidates ask for the same cores and the schedule is
/// the same.
pub proof fn well_placed_candidates_get_their_cores(
    scheduled: Map<u32, Set<u32>>,
    assigned: Seq<(BackedCandidate, CoreIndex)>,
    injected: Seq<Option<CoreIndex>>,
)
    requires
        well_placed(scheduled, assigned, injected),
    ensures
        ({
            let candidates = assigned.map_values(|c: (BackedCandidate, CoreIndex)| c.0);
            let again = assign(scheduled, candidates, injected);
            &&& again.assigned == assigned
            &&& again.free.dom() == scheduled.dom()
            &&& forall|para: u32, core: u32|
                scheduled.contains_key(para) ==> (#[trigger] again.free[para].contains(core) <==> (
                scheduled[para].contains(core) && !(exists|k: int|
                    0 <= k < assigned.len() && (#[trigger] assigned[k]).1.0 == core
                        && assigned[k].0.candidate.para_id.0 == para)))
        }),
    decreases assigned.len(),
{
    let candidates = assigned.map_values(|c: (BackedCandidate, CoreIndex)| c.0);
    if assigned.len() == 0 {
        assert(assign(scheduled, candidates, injected).assigned =~= assigned);
    } else {
        let fewer = assigned.drop_last();
        assert(well_placed(scheduled, fewer, injected.drop_last())) by {
            assert forall|k: int| 0 <= k < fewer.len() implies {
                let (candidate, core) = #[trigger] fewer[k];
                let para = candidate.candidate.para_id.0;
                &&& scheduled.contains_key(para)
                &&& scheduled[para].contains(core.0)
                &&& scheduled[para].finite()
                &&& injected.drop_last()[k] == Some(core) || (injected.drop_last()[k] is None
                    && scheduled[para].len() == 1)
            } by {
                assert(fewer[k] == assigned[k]);
            }
        }
        well_placed_candidates_get_their_cores(scheduled, fewer, injected.drop_last());
        let fewer_candidates = fewer.map_values(|c: (BackedCandidate, CoreIndex)| c.0);
        assert(candidates.drop_last() =~= fewer_candidates);
        let before = assign(scheduled, fewer_candidates, injected.drop_last());
        let after = assign(scheduled, candidates, injected);
        let last = assigned.len() - 1;
        let (candidate, core) = assigned[last];
        let para = candidate.candidate.para_id.0;
        assert(before.free[para].contains(core.0)) by {
            if exists|k: int|
                0 <= k < fewer.len() && (#[trigger] fewer[k]).1.0 == core.0
                    && fewer[k].0.candidate.para_id.0 == para {
                let k = choose|k: int|
                    0 <= k < fewer.len() && (#[trigger] fewer[k]).1.0 == core.0
                        && fewer[k].0.candidate.para_id.0 == para;
                assert(assigned[k].0.candidate.para_id == assigned[last].0.candidate.para_id);
            }
        }
        if injected[last] is None {
            Set::lemma_is_singleton(scheduled[para]);
            assert forall|other: u32| scheduled[para].contains(other) implies other == core.0 by {
            }
            assert(before.free[para] =~= scheduled[para]);
            assert(scheduled[para].contains(scheduled[para].choose()));
        }
        assert(after == before.with(candidate, core.0));
        assert(after.assigned =~= assigned);
        assert(after.free.dom() =~= scheduled.dom());
        assert forall|p: u32, c: u32|
            scheduled.contains_key(p) implies (#[trigger] after.free[p].contains(c) <==> (
        scheduled[p].contains(c) && !(exists|k: int|
            0 <= k < assigned.len() && (#[trigger] assigned[k]).1.0 == c
                && assigned[k].0.candidate.para_id.0 == p))) by {
            let taken = exists|k: int|
                0 <= k < assigned.len() && (#[trigger] assigned[k]).1.0 == c
                    && assigned[k].0.candidate.para_id.0 == p;
            let taken_before = exists|k: int|
                0 <= k < fewer.len() && (#[trigger] fewer[k]).1.0 == c
                    && fewer[k].0.candidate.para_id.0 == p;
            assert(before.free[p].contains(c) <==> scheduled[p].contains(c) && !taken_before);
            if taken_before {
                let k = choose|k: int|
                    0 <= k < fewer.len() && (#[trigger] fewer[k]).1.0 == c
                        && fewer[k].0.candidate.para_id.0 == p;
                assert(assigned[k].1.0 == c);
            }
            if p == para && c == core.0 {
                assert(assigned[last].1.0 == c);
            }
            if taken && !(p == para && c == core.0) {
                let k = choose|k: int|
                    0 <= k < assigned.len() && (#[trigger] assigned[k]).1.0 == c
                        && assigned[k].0.candidate.para_id.0 == p;
                assert(k < last);
                assert(fewer[k].1.0 == c);
            }
        }
    }
}

/// Candidates that got cores can all stand on them.
pub proof fn assigned_candidates_are_well_placed(
    scheduled: Map<u32, Set<u32>>,
    candidates: Seq<BackedCandidate>,
    injected: Seq<Option<CoreIndex>>,
)
    requires
        injected.len() == candidates.len(),
        forall|para: u32| #[trigger] scheduled.contains_key(para) ==> scheduled[para].finite(),
    ensures
        ({
            let assigned = assign(scheduled, candidates, injected).assigned;
            exists|places: Seq<int>| #[trigger]
                stand_at(places, scheduled, candidates, injected, assigned) && well_placed(
                    scheduled,
                    assigned,
                    places.map_values(|p: int| injected[p]),
                )
        }),
{
    let assigned = assign(scheduled, candidates, injected).assigned;
    assignment_keeps_to_schedule(scheduled, candidates, injected);
    assignment_keeps_order(scheduled, candidates, injected);
    let places = choose|places: Seq<int>| #[trigger]
        stand_at(places, scheduled, candidates, injected, assigned);
    let asked = places.map_values(|p: int| injected[p]);
    assert forall|k: int| 0 <= k < assigned.len() implies {
        let (candidate, core) = #[trigger] assigned[k];
        let para = candidate.candidate.para_id.0;
        &&& scheduled.contains_key(para)
        &&& scheduled[para].contains(core.0)
        &&& scheduled[para].finite()
        &&& asked[k] == Some(core) || (asked[k] is None && scheduled[para].len() == 1)
    } by {
        assert(0 <= places[k] < candidates.len());
    }
    assert(well_placed(scheduled, assigned, asked));
}

/// The candidates of a parachain, in order.
pub open spec fn candidates_of(candidates: Seq<BackedCandidate>, para: u32) -> Seq<BackedCandidate>
    decreases candidates.len(),
{
    if candidates.len() == 0 {
        candidates
    } else {
        let before = candidates_of(candidates.drop_last(), para);
        if candidates.last().candidate.para_id.0 == para {
            before.push(candidates.last())
        } else {
            before
        }
    }
}

/// The cores that the candidates of a parachain ask for, in order.
pub open spec fn asked_by(
    candidates: Seq<BackedCandidate>,
    injected: Seq<Option<CoreIndex>>,
    para: u32,
) -> Seq<Option<CoreIndex>>
    decreases candidates.len(),
{
    if candidates.len() == 0 {
        Seq::empty()
    } else {
        let before = asked_by(candidates.drop_last(), injected.drop_last(), para);
        if candidates.last().candidate.para_id.0 == para {
            before.push(injected.last())
        } else {
            before
        }
    }
}

/// The candidates of a parachain that got cores, in order.
pub open spec fn assigned_of(assigned: Seq<(BackedCandidate, CoreIndex)>, para: u32) -> Seq<
    (BackedCandidate, CoreIndex),
>
    decreases assigned.len(),
{
    if assigned.len() == 0 {
        assigned
    } else {
        let before = assigned_of(assigned.drop_last(), para);
        if assigned.last().0.candidate.para_id.0 == para {
            before.push(assigned.last())
        } else {
            before
        }
    }
}

/// The schedule of one parachain.
pub open spec fn schedule_of(scheduled: Map<u32, Set<u32>>, para: u32) -> Map<u32, Set<u32>> {
    scheduled.restrict(set![para])
}

/// The candidates of a parachain get the cores that they would get if there were no
/// other parachain.
pub proof fn parachains_do_not_influence_each_other(
    scheduled: Map<u32, Set<u32>>,
    candidates: Seq<BackedCandidate>,
    injected: Seq<Option<CoreIndex>>,
    para: u32,
)
    requires
        injected.len() == candidates.len(),
    ensures
        ({
            let together = assign(scheduled, candidates, injected);
            let alone = assign(
                schedule_of(scheduled, para),
                candidates_of(candidates, para),
                asked_by(candidates, injected, para),
            );
            &&& alone.assigned == assigned_of(together.assigned, para)
            &&& alone.free.dom() == schedule_of(scheduled, para).dom()
            &&& together.free.dom() == scheduled.dom()
            &&& scheduled.contains_key(para) ==> alone.free[para] == together.free[para]
        }),
    decreases candidates.len(),
{
    let own = schedule_of(scheduled, para);
    let together = assign(scheduled, candidates, injected);
    let alone = assign(
        own,
        candidates_of(candidates, para),
        asked_by(candidates, injected, para),
    );
    if candidates.len() == 0 {
        assert(alone.assigned =~= assigned_of(together.assigned, para));
    } else {
        let fewer = candidates.drop_last();
        let fewer_injected = injected.drop_last();
        parachains_do_not_influence_each_other(scheduled, fewer, fewer_injected, para);
        let before = assign(scheduled, fewer, fewer_injected);
        let alone_before = assign(
            own,
            candidates_of(fewer, para),
            asked_by(fewer, fewer_injected, para),
        );
        let next = candidates.last();
        let last_para = next.candidate.para_id.0;
        if together.assigned.len() > before.assigned.len() {
            assert(together.assigned.drop_last() =~= before.assigned);
        }
        assert(together.free.dom() =~= scheduled.dom());
        if last_para == para {
            assert(candidates_of(candidates, para).drop_last() =~= candidates_of(fewer, para));
            assert(asked_by(candidates, injected, para).drop_last() =~= asked_by(
                fewer,
                fewer_injected,
                para,
            ));
            assert(alone == alone_before.next(own, next, injected.last()));
            assert(alone.free.dom() =~= own.dom());
        }
    }
}

/// The candidates of a parachain ask for the same cores whatever other candidates there
/// are.
proof fn asked_by_are_injected<T: Scheduler>(
    runtime: T,
    allowed_relay_parents: AllowedRelayParentsTracker,
    core_index_enabled: bool,
    candidates: Seq<BackedCandidate>,
    injected: Seq<Option<CoreIndex>>,
    para: u32,
)
    requires
        injected_cores::<T>(
            runtime,
            allowed_relay_parents,
            candidates,
            core_index_enabled,
            injected,
        ),
    ensures
        injected_cores::<T>(
            runtime,
            allowed_relay_parents,
            candidates_of(candidates, para),
            core_index_enabled,
            asked_by(candidates, injected, para),
        ),
    decreases candidates.len(),
{
    if candidates.len() > 0 {
        let fewer = candidates.drop_last();
        let fewer_injected = injected.drop_last();
        assert forall|k: int| 0 <= k < fewer.len() implies injected_core::<T>(
            runtime,
            allowed_relay_parents,
            fewer[k]@,
            core_index_enabled,
            #[trigger] fewer_injected[k],
        ) by {
            assert(injected[k] == fewer_injected[k]);
        }
        asked_by_are_injected::<T>(
            runtime,
            allowed_relay_parents,
            core_index_enabled,
            fewer,
            fewer_injected,
            para,
        );
        assert(injected_core::<T>(
            runtime,
            allowed_relay_parents,
            candidates[candidates.len() - 1]@,
            core_index_enabled,
            injected[candidates.len() - 1],
        ));
        let before = candidates_of(fewer, para);
        let all = candidates_of(candidates, para);
        let asked_before = asked_by(fewer, fewer_injected, para);
        let asked = asked_by(candidates, injected, para);
        assert forall|k: int| 0 <= k < all.len() implies injected_core::<T>(
            runtime,
            allowed_relay_parents,
            all[k]@,
            core_index_enabled,
            #[trigger] asked[k],
        ) by {
            if k < before.len() {
                assert(asked_before[k] == asked[k]);
            }
        }
    }
}

/// Whether there is one answer to which core a candidate asks for.
pub open spec fn asks_for_one_core<T: Scheduler>(
    runtime: T,
    allowed_relay_parents: AllowedRelayParentsTracker,
    core_index_enabled: bool,
) -> bool {
    forall|candidate: BackedCandidateView, x: Option<CoreIndex>, y: Option<CoreIndex>| #[trigger]
        injected_core::<T>(runtime, allowed_relay_parents, candidate, core_index_enabled, x)
            && #[trigger] injected_core::<T>(
            runtime,
            allowed_relay_parents,
            candidate,
            core_index_enabled,
            y,
        ) ==> x == y
}

/// What mapping candidates to cores gives for one parachain is what it gives for the
/// candidates and the cores of that parachain alone; and it gives nothing else for these
/// where there is one answer to which core a candidate asks for.
pub proof fn parachain_is_mapped_as_if_alone<T: Scheduler>(
    runtime: T,
    allowed_relay_parents: AllowedRelayParentsTracker,
    scheduled: Map<u32, Set<u32>>,
    core_index_enabled: bool,
    candidates: Seq<BackedCandidate>,
    assigned: Seq<(BackedCandidate, CoreIndex)>,
    para: u32,
    alone: Seq<(BackedCandidate, CoreIndex)>,
)
    requires
        mapped::<T>(
            runtime,
            allowed_relay_parents,
            scheduled,
            core_index_enabled,
            candidates,
            assigned,
        ),
    ensures
        mapped::<T>(
            runtime,
            allowed_relay_parents,
            schedule_of(scheduled, para),
            core_index_enabled,
            candidates_of(candidates, para),
            assigned_of(assigned, para),
        ),
        asks_for_one_core::<T>(runtime, allowed_relay_parents, core_index_enabled) && mapped::<T>(
            runtime,
            allowed_relay_parents,
            schedule_of(scheduled, para),
            core_index_enabled,
            candidates_of(candidates, para),
            alone,
        ) ==> alone == assigned_of(assigned, para),
{
    let own = candidates_of(candidates, para);
    let injected = choose|injected: Seq<Option<CoreIndex>>| #[trigger]
        injected_cores::<T>(
            runtime,
            allowed_relay_parents,
            candidates,
            core_index_enabled,
            injected,
        ) && assigned == assign(scheduled, candidates, injected).assigned;
    let asked = asked_by(candidates, injected, para);
    parachains_do_not_influence_each_other(scheduled, candidates, injected, para);
    asked_by_are_injected::<T>(
        runtime,
        allowed_relay_parents,
        core_index_enabled,
        candidates,
        injected,
        para,
    );
    if asks_for_one_core::<T>(runtime, allowed_relay_parents, core_index_enabled) && mapped::<T>(
        runtime,
        allowed_relay_parents,
        schedule_of(scheduled, para),
        core_index_enabled,
        own,
        alone,
    ) {
        let others = choose|injected: Seq<Option<CoreIndex>>| #[trigger]
            injected_cores::<T>(
                runtime,
                allowed_relay_parents,
                own,
                core_index_enabled,
                injected,
            ) && alone == assign(schedule_of(scheduled, para), own, injected).assigned;
        assert forall|k: int| 0 <= k < own.len() implies others[k] == asked[k] by {
            assert(injected_core::<T>(
                runtime,
                allowed_relay_parents,
                own[k]@,
                core_index_enabled,
                asked[k],
            ));
            assert(injected_core::<T>(
                runtime,
                allowed_relay_parents,
                own[k]@,
                core_index_enabled,
                others[k],
            ));
        }
        assert(others =~= asked);
    }
}

/// Which parachain is scheduled on which core: exactly those that are listed.
pub proof fn listed_cores_are_scheduled(paras: Seq<(CoreIndex, ParaId)>, para: u32, core: u32)
    ensures
        schedule(paras).contains_key(para) <==> exists|k: int|
            0 <= k < paras.len() && (#[trigger] paras[k]).1.0 == para,
        schedule(paras).contains_key(para) ==> (schedule(paras)[para].contains(core)
            <==> exists|k: int|
            0 <= k < paras.len() && (#[trigger] paras[k]).1.0 == para && paras[k].0.0 == core),
{
    if exists|k: int| 0 <= k < paras.len() && (#[trigger] paras[k]).1.0 == para {
        let k = choose|k: int| 0 <= k < paras.len() && (#[trigger] paras[k]).1.0 == para;
        assert(paras[k] == (CoreIndex(paras[k].0.0), ParaId(para)));
        assert(paras.contains((CoreIndex(paras[k].0.0), ParaId(para))));
    }
    if schedule(paras).contains_key(para) {
        let c = choose|c: u32| #[trigger] paras.contains((CoreIndex(c), ParaId(para)));
        let k = paras.index_of((CoreIndex(c), ParaId(para)));
        assert(paras[k].1.0 == para);
        if schedule(paras)[para].contains(core) {
            let j = paras.index_of((CoreIndex(core), ParaId(para)));
            assert(paras[j].1.0 == para && paras[j].0.0 == core);
        }
        if exists|k: int|
            0 <= k < paras.len() && (#[trigger] paras[k]).1.0 == para && paras[k].0.0 == core {
            let j = choose|k: int|
                0 <= k < paras.len() && (#[trigger] paras[k]).1.0 == para && paras[k].0.0 == core;
            assert(paras[j] == (CoreIndex(core), ParaId(para)));
        }
    }
}

/// Whether one of the first `k` candidates is of a parachain and got a core.
pub open spec fn has_taken(
    candidates: Seq<BackedCandidate>,
    got: Seq<Option<CoreIndex>>,
    k: int,
    para: u32,
    core: u32,
) -> bool {
    exists|j: int|
        0 <= j < k && (#[trigger] candidates[j]).candidate.para_id.0 == para && got[j] == Some(
            CoreIndex(core),
        )
}

/// Whether one of the first `k` candidates is of a parachain and got any core.
pub open spec fn has_got(
    candidates: Seq<BackedCandidate>,
    got: Seq<Option<CoreIndex>>,
    k: int,
    para: u32,
) -> bool {
    exists|j: int|
        0 <= j < k && (#[trigger] candidates[j]).candidate.para_id.0 == para && got[j] is Some
}

/// Whether candidate `k` gets what it should. One that asks for a core gets it exactly if
/// the core is scheduled for its parachain and no earlier candidate of the parachain has
/// got it, and gets no other. One that asks for none gets a core exactly if a single core
/// is scheduled for its parachain, which it gets then, and no earlier candidate of the
/// parachain has got one.
pub open spec fn gets_its_due(
    scheduled: Map<u32, Set<u32>>,
    candidates: Seq<BackedCandidate>,
    injected: Seq<Option<CoreIndex>>,
    got: Seq<Option<CoreIndex>>,
    k: int,
) -> bool {
    let para = candidates[k].candidate.para_id.0;
    match injected[k] {
        Some(core) => {
            &&& got[k] is Some <==> scheduled.contains_key(para) && scheduled[para].contains(core.0)
                && !has_taken(candidates, got, k, para, core.0)
            &&& got[k] matches Some(c) ==> c == core
        },
        None => {
            &&& got[k] is Some <==> scheduled.contains_key(para) && scheduled[para].len() == 1
                && !has_got(candidates, got, k, para)
            &&& got[k] matches Some(c) ==> scheduled[para].contains(c.0)
        },
    }
}

/// Whether `assigned` are the candidates that got cores, with these, in order.
pub open spec fn lists_those_with_cores(
    candidates: Seq<BackedCandidate>,
    got: Seq<Option<CoreIndex>>,
    places: Seq<int>,
    assigned: Seq<(BackedCandidate, CoreIndex)>,
) -> bool {
    &&& places.len() == assigned.len()
    &&& forall|i: int, j: int| 0 <= i < j < places.len() ==> places[i] < places[j]
    &&& forall|i: int|
        0 <= i < places.len() ==> 0 <= #[trigger] places[i] < candidates.len() && assigned[i].0
            == candidates[places[i]] && got[places[i]] == Some(assigned[i].1)
    &&& forall|k: int|
        0 <= k < candidates.len() && (#[trigger] got[k]) is Some ==> places.contains(k)
}

/// Who gets which core, candidate by candidate.
pub proof fn candidates_get_their_due(
    scheduled: Map<u32, Set<u32>>,
    candidates: Seq<BackedCandidate>,
    injected: Seq<Option<CoreIndex>>,
) -> (r: (Seq<Option<CoreIndex>>, Seq<int>))
    requires
        injected.len() == candidates.len(),
        forall|para: u32| #[trigger] scheduled.contains_key(para) ==> scheduled[para].finite(),
    ensures
        r.0.len() == candidates.len(),
        forall|k: int|
            0 <= k < candidates.len() ==> #[trigger] gets_its_due(
                scheduled,
                candidates,
                injected,
                r.0,
                k,
            ),
        lists_those_with_cores(
            candidates,
            r.0,
            r.1,
            assign(scheduled, candidates, injected).assigned,
        ),
        assign(scheduled, candidates, injected).free.dom() == scheduled.dom(),
        forall|para: u32, core: u32|
            scheduled.contains_key(para) ==> (#[trigger] assign(
                scheduled,
                candidates,
                injected,
            ).free[para].contains(core) <==> scheduled[para].contains(core) && !has_taken(
                candidates,
                r.0,
                candidates.len() as int,
                para,
                core,
            )),
    decreases candidates.len(),
{
    let now = assign(scheduled, candidates, injected);
    if candidates.len() == 0 {
        (Seq::empty(), Seq::empty())
    } else {
        let fewer = candidates.drop_last();
        let fewer_injected = injected.drop_last();
        let top = candidates.len() - 1;
        let before = assign(scheduled, fewer, fewer_injected);
        let (got, places) = candidates_get_their_due(scheduled, fewer, fewer_injected);
        let candidate = candidates[top];
        let para = candidate.candidate.para_id.0;
        let gets: Option<CoreIndex> = if now.assigned.len() > before.assigned.len() {
            Some(now.assigned.last().1)
        } else {
            None
        };
        let more = got.push(gets);
        let more_places = if gets is Some {
            places.push(top)
        } else {
            places
        };
        assert forall|k: int, p: u32, c: u32|
            0 <= k <= top implies #[trigger] has_taken(candidates, more, k, p, c) == has_taken(
            fewer,
            got,
            k,
            p,
            c,
        ) by {
            if has_taken(candidates, more, k, p, c) {
                let j = choose|j: int|
                    0 <= j < k && (#[trigger] candidates[j]).candidate.para_id.0 == p && more[j]
                        == Some(CoreIndex(c));
                assert(fewer[j].candidate.para_id.0 == p && got[j] == Some(CoreIndex(c)));
            }
            if has_taken(fewer, got, k, p, c) {
                let j = choose|j: int|
                    0 <= j < k && (#[trigger] fewer[j]).candidate.para_id.0 == p && got[j] == Some(
                        CoreIndex(c),
                    );
                assert(candidates[j].candidate.para_id.0 == p && more[j] == Some(CoreIndex(c)));
            }
        }
        assert forall|k: int, p: u32| 0 <= k <= top implies #[trigger] has_got(
            candidates,
            more,
            k,
            p,
        ) == has_got(fewer, got, k, p) by {
            if has_got(candidates, more, k, p) {
                let j = choose|j: int|
                    0 <= j < k && (#[trigger] candidates[j]).candidate.para_id.0 == p
                        && more[j] is Some;
                assert(fewer[j].candidate.para_id.0 == p && got[j] is Some);
            }
            if has_got(fewer, got, k, p) {
                let j = choose|j: int|
                    0 <= j < k && (#[trigger] fewer[j]).candidate.para_id.0 == p && got[j] is Some;
                assert(candidates[j].candidate.para_id.0 == p && more[j] is Some);
            }
        }
        if scheduled.contains_key(para) {
            // Nothing was taken of a parachain exactly if all of its cores are free.
            if before.free[para] == scheduled[para] {
                assert(!has_got(fewer, got, top, para)) by {
                    if has_got(fewer, got, top, para) {
                        let j = choose|j: int|
                            0 <= j < top && (#[trigger] fewer[j]).candidate.para_id.0 == para
                                && got[j] is Some;
                        let core = got[j]->0;
                        assert(gets_its_due(scheduled, fewer, fewer_injected, got, j));
                        assert(core == CoreIndex(core.0));
                        assert(has_taken(fewer, got, top, para, core.0));
                        assert(!before.free[para].contains(core.0));
                    }
                }
            } else {
                assert(has_got(fewer, got, top, para)) by {
                    if !has_got(fewer, got, top, para) {
                        assert forall|c: u32| before.free[para].contains(c)
                            == scheduled[para].contains(c) by {
                            if has_taken(fewer, got, top, para, c) {
                                let j = choose|j: int|
                                    0 <= j < top && (#[trigger] fewer[j]).candidate.para_id.0
                                        == para && got[j] == Some(CoreIndex(c));
                                assert(fewer[j].candidate.para_id.0 == para && got[j] is Some);
                            }
                        }
                        assert(before.free[para] =~= scheduled[para]);
                    }
                }
            }
            if injected[top] is None && scheduled[para].len() == 1 {
                Set::lemma_is_singleton(scheduled[para]);
                assert(scheduled[para].contains(scheduled[para].choose()));
            }
        }
        assert(now == before.next(scheduled, candidate, injected[top]));
        assert forall|k: int| 0 <= k < candidates.len() implies #[trigger] gets_its_due(
            scheduled,
            candidates,
            injected,
            more,
            k,
        ) by {
            let p = candidates[k].candidate.para_id.0;
            if k < top {
                assert(gets_its_due(scheduled, fewer, fewer_injected, got, k));
                assert(fewer[k] == candidates[k]);
                assert(fewer_injected[k] == injected[k]);
                assert(has_got(candidates, more, k, p) == has_got(fewer, got, k, p));
                if let Some(core) = injected[k] {
                    assert(has_taken(candidates, more, k, p, core.0) == has_taken(
                        fewer,
                        got,
                        k,
                        p,
                        core.0,
                    ));
                }
            } else {
                assert(has_got(candidates, more, top, para) == has_got(fewer, got, top, para));
                if let Some(core) = injected[top] {
                    assert(has_taken(candidates, more, top, para, core.0) == has_taken(
                        fewer,
                        got,
                        top,
                        para,
                        core.0,
                    ));
                }
            }
        }
        assert(lists_those_with_cores(candidates, more, more_places, now.assigned)) by {
            assert forall|i: int| 0 <= i < more_places.len() implies 0 <= #[trigger] more_places[i]
                < candidates.len() && now.assigned[i].0 == candidates[more_places[i]]
                && more[more_places[i]] == Some(now.assigned[i].1) by {
                if i < places.len() {
                    assert(0 <= places[i] < top);
                    assert(fewer[places[i]] == candidates[places[i]]);
                }
            }
            assert forall|k: int|
                0 <= k < candidates.len() && (
                #[trigger] more[k]) is Some implies more_places.contains(k) by {
                if k < top {
                    assert(got[k] is Some);
                    assert(more_places[places.index_of(k)] == k);
                } else {
                    assert(more_places[places.len() as int] == k);
                }
            }
        }
        assert(now.free.dom() =~= scheduled.dom());
        assert forall|p: u32, c: u32|
            scheduled.contains_key(p) implies (#[trigger] now.free[p].contains(c)
            <==> scheduled[p].contains(c) && !has_taken(
            candidates,
            more,
            candidates.len() as int,
            p,
            c,
        )) by {
            assert(before.free[p].contains(c) <==> scheduled[p].contains(c) && !has_taken(
                fewer,
                got,
                top,
                p,
                c,
            ));
            assert(has_taken(candidates, more, top, p, c) == has_taken(fewer, got, top, p, c));
            if has_taken(candidates, more, top, p, c) {
                let j = choose|j: int|
                    0 <= j < top && (#[trigger] candidates[j]).candidate.para_id.0 == p && more[j]
                        == Some(CoreIndex(c));
                assert(has_taken(candidates, more, top + 1, p, c));
            }
            if p == para && gets == Some(CoreIndex(c)) {
                assert(candidates[top].candidate.para_id.0 == p && more[top] == Some(CoreIndex(c)));
            }
            if has_taken(candidates, more, top + 1, p, c) && !(p == para && gets == Some(
                CoreIndex(c),
            )) {
                let j = choose|j: int|
                    0 <= j < top + 1 && (#[trigger] candidates[j]).candidate.para_id.0 == p
                        && more[j] == Some(CoreIndex(c));
                assert(j < top);
                assert(has_taken(candidates, more, top, p, c));
            }
        }
        (more, more_places)
    }
}

/// Whether the runtime was asked for the group of a core at the block after the first
/// listed relay parent with the given hash, and then for the validators of that group, and
/// answered `validators`.
pub open spec fn asked_for_group<T: Scheduler>(
    runtime: T,
    tracker: AllowedRelayParentsTracker,
    relay_parent: H256,
    core: CoreIndex,
    at: int,
    index: GroupIndex,
    validators: Vec<ValidatorIndex>,
) -> bool {
    &&& 0 <= at < tracker.entries@.len()
    &&& tracker.entries@[at].hash == relay_parent
    &&& forall|j: int| 0 <= j < at ==> (#[trigger] tracker.entries@[j]).hash != relay_parent
    &&& call_ensures(
        T::group_assigned_to_core,
        (&runtime, core, (tracker.entries@[at].number + 1) as u64),
        Some(index),
    )
    &&& call_ensures(T::group_validators, (&runtime, index), Some(validators))
}

/// Whether a relay parent is not listed, or the runtime, asked at the block after the first
/// listed one with its hash, answered that the core has no group or that the group has no
/// validators.
pub open spec fn no_group_known<T: Scheduler>(
    runtime: T,
    tracker: AllowedRelayParentsTracker,
    relay_parent: H256,
    core: CoreIndex,
) -> bool {
    ||| forall|j: int|
        0 <= j < tracker.entries@.len() ==> (#[trigger] tracker.entries@[j]).hash != relay_parent
    ||| exists|at: int|
        0 <= at < tracker.entries@.len() && (#[trigger] tracker.entries@[at]).hash == relay_parent
            && (forall|j: int|
            0 <= j < at ==> (#[trigger] tracker.entries@[j]).hash != relay_parent) && {
            ||| call_ensures(
                T::group_assigned_to_core,
                (&runtime, core, (tracker.entries@[at].number + 1) as u64),
                None,
            )
            ||| exists|index: GroupIndex| #[trigger]
                call_ensures(
                    T::group_assigned_to_core,
                    (&runtime, core, (tracker.entries@[at].number + 1) as u64),
                    Some(index),
                ) && call_ensures(T::group_validators, (&runtime, index), None)
        }
}

/// Which group backs candidates: that which the scheduler names for the core at the block
/// after the relay parent.
pub proof fn groups_are_those_of_the_next_block<T: Scheduler>(
    runtime: T,
    tracker: AllowedRelayParentsTracker,
    relay_parent: H256,
    core: CoreIndex,
    group: Option<Seq<ValidatorIndex>>,
)
    requires
        backing_group::<T>(runtime, tracker, relay_parent, core, group),
    ensures
        group is None ==> no_group_known::<T>(runtime, tracker, relay_parent, core),
        group matches Some(g) ==> exists|
            at: int,
            index: GroupIndex,
            validators: Vec<ValidatorIndex>,
        | #[trigger]
            asked_for_group::<T>(
                runtime,
                tracker,
                relay_parent,
                core,
                at,
                index,
                validators,
            ) && validators@ == g,
{
    found_by_hash(tracker.entries@, relay_parent);
    match tracker.info(relay_parent) {
        None => {},
        Some(block) => {
            let at = choose|i: int|
                0 <= i < tracker.entries@.len() && #[trigger] tracker.entries@[i] == block
                    && block.hash == relay_parent && (forall|j: int|
                    0 <= j < i ==> (#[trigger] tracker.entries@[j]).hash != relay_parent);
            assert(tracker.entries@[at].hash == relay_parent);
            let answer = choose|answer: Option<GroupIndex>| #[trigger]
                call_ensures(
                    T::group_assigned_to_core,
                    (&runtime, core, (block.number + 1) as u64),
                    answer,
                ) && match answer {
                    None => group is None,
                    Some(index) => exists|validators: Option<Vec<ValidatorIndex>>| #[trigger]
                        call_ensures(T::group_validators, (&runtime, index), validators) && group
                            == members(validators),
                };
            if let Some(index) = answer {
                let validators = choose|validators: Option<Vec<ValidatorIndex>>| #[trigger]
                    call_ensures(T::group_validators, (&runtime, index), validators) && group
                        == members(validators);
                if let Some(v) = validators {
                    assert(asked_for_group::<T>(
                        runtime,
                        tracker,
                        relay_parent,
                        core,
                        at,
                        index,
                        v,
                    ));
                } else {
                    assert(call_ensures(
                        T::group_assigned_to_core,
                        (&runtime, core, (tracker.entries@[at].number + 1) as u64),
                        Some(index),
                    ));
                }
            }
        },
    }
}

/// Which core a candidate asks for. With elastic scaling, one with more than eight bits asks
/// for the core that the last eight bits spell, if the other bits are as many as the group
/// of that core has members. No candidate asks for another core, and none asks for a core
/// otherwise.
pub proof fn cores_are_asked_for_in_the_last_eight_bits<T: Scheduler>(
    runtime: T,
    tracker: AllowedRelayParentsTracker,
    candidate: BackedCandidateView,
    core_index_enabled: bool,
    core: Option<CoreIndex>,
)
    requires
        injected_core::<T>(runtime, tracker, candidate, core_index_enabled, core),
    ensures
        ({
            let bits = candidate.validator_indices;
            if core_index_enabled && bits.len() > 8 {
                candidate.core_index(true) matches Some(asked) && match core {
                    Some(c) => c == asked && exists|
                        at: int,
                        index: GroupIndex,
                        validators: Vec<ValidatorIndex>,
                    | #[trigger]
                        asked_for_group::<T>(
                            runtime,
                            tracker,
                            candidate.candidate.relay_parent,
                            asked,
                            at,
                            index,
                            validators,
                        ) && validators@.len() == bits.len() - 8,
                    None => {
                        ||| no_group_known::<T>(
                            runtime,
                            tracker,
                            candidate.candidate.relay_parent,
                            asked,
                        )
                        ||| exists|at: int, index: GroupIndex, validators: Vec<ValidatorIndex>|
                            #[trigger]
                            asked_for_group::<T>(
                                runtime,
                                tracker,
                                candidate.candidate.relay_parent,
                                asked,
                                at,
                                index,
                                validators,
                            ) && validators@.len() != bits.len() - 8
                    },
                }
            } else {
                core is None
            }
        }),
{
    core_index_is_in_the_last_eight_bits(candidate, core_index_enabled);
    if core_index_enabled && candidate.validator_indices.len() > 8 {
        let asked = candidate.core_index(true)->0;
        let group = choose|group: Option<Seq<ValidatorIndex>>| #[trigger]
            backing_group::<T>(
                runtime,
                tracker,
                candidate.candidate.relay_parent,
                asked,
                group,
            ) && core == match group {
                None => None,
                Some(group) => if group.len() == candidate.group_indices(core_index_enabled).len() {
                    Some(asked)
                } else {
                    None
                },
            };
        groups_are_those_of_the_next_block::<T>(
            runtime,
            tracker,
            candidate.candidate.relay_parent,
            asked,
            group,
        );
    }
}

/// What mapping candidates to cores gives, candidate by candidate: the cores that they ask
/// for, the cores that they get, each its due, and the candidates with cores in order.
pub proof fn mapping_gives_candidates_their_due<T: Scheduler>(
    runtime: T,
    tracker: AllowedRelayParentsTracker,
    scheduled: Map<u32, Set<u32>>,
    core_index_enabled: bool,
    candidates: Seq<BackedCandidate>,
    assigned: Seq<(BackedCandidate, CoreIndex)>,
) -> (r: (Seq<Option<CoreIndex>>, Seq<Option<CoreIndex>>, Seq<int>))
    requires
        forall|para: u32| #[trigger] scheduled.contains_key(para) ==> scheduled[para].finite(),
        mapped::<T>(runtime, tracker, scheduled, core_index_enabled, candidates, assigned),
    ensures
        ({
            let (injected, got, places) = r;
            &&& injected.len() == candidates.len()
            &&& got.len() == candidates.len()
            &&& forall|k: int|
                0 <= k < candidates.len() ==> injected_core::<T>(
                    runtime,
                    tracker,
                    candidates[k]@,
                    core_index_enabled,
                    #[trigger] injected[k],
                )
            &&& forall|k: int|
                0 <= k < candidates.len() ==> #[trigger] gets_its_due(
                    scheduled,
                    candidates,
                    injected,
                    got,
                    k,
                )
            &&& lists_those_with_cores(candidates, got, places, assigned)
        }),
{
    let injected = choose|injected: Seq<Option<CoreIndex>>| #[trigger]
        injected_cores::<T>(runtime, tracker, candidates, core_index_enabled, injected)
            && assigned == assign(scheduled, candidates, injected).assigned;
    let (got, places) = candidates_get_their_due(scheduled, candidates, injected);
    (injected, got, places)
}

/// What is shown of the cores of parachains: the cores of each parachain that has some.
pub proof fn cores_by_para_one_by_one(scheduled: ScheduledCores, para: u32, core: u32)
    ensures
        cores_by_para(scheduled).contains_key(para) <==> scheduled@.contains_key(para),
        scheduled@.contains_key(para) ==> (cores_by_para(scheduled)[para].contains(core)
            <==> scheduled@[para]@.contains(core)),
{
}

} // verus!
