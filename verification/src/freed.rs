//! Which cores become free, and which disputes free them.

use crate::primitives::{
    contains_hash, CandidateHash, CheckedDisputeStatementSet, CoreIndex, FreedReason, SessionIndex,
};
use crate::runtime::{DisputesHandler, Inclusion, Scheduler};
use std::collections::BTreeMap;
use vstd::prelude::*;

verus! {

broadcast use {vstd::std_specs::btree::group_btree_axioms, vstd::laws_cmp::group_laws_cmp};

/// Whether a core is in a list.
pub open spec fn lists_core(cores: Seq<CoreIndex>, core: u32) -> bool {
    cores.contains(CoreIndex(core))
}

/// The cores of a list of cores and candidates.
pub open spec fn cores_of(freed: Seq<(CoreIndex, CandidateHash)>) -> Seq<CoreIndex> {
    freed.map_values(|entry: (CoreIndex, CandidateHash)| entry.0)
}

/// Cores with the reason why they became free. A core that is in both lists timed
/// out.
pub open spec fn freed_cores(concluded: Seq<CoreIndex>, timed_out: Seq<CoreIndex>) -> Map<
    u32,
    FreedReason,
> {
    Map::new(
        |core: u32| lists_core(concluded, core) || lists_core(timed_out, core),
        |core: u32|
            if lists_core(timed_out, core) {
                FreedReason::TimedOut
            } else {
                FreedReason::Concluded
            },
    )
}

/// Adds cores that became free for one reason.
pub fn add_freed(
    freed: &mut BTreeMap<u32, FreedReason>,
    cores: &Vec<CoreIndex>,
    reason: FreedReason,
)
    ensures
        final(freed)@ == old(freed)@.union_prefer_right(
            Map::new(|core: u32| lists_core(cores@, core), |core: u32| reason),
        ),
{
    let ghost before = freed@;
    let mut k: usize = 0;
    while k < cores.len()
        invariant
            k <= cores@.len(),
            freed@ =~= before.union_prefer_right(
                Map::new(
                    |core: u32| lists_core(cores@.take(k as int), core),
                    |core: u32| reason,
                ),
            ),
        decreases cores@.len() - k,
    {
        proof {
            let now = cores@.take(k as int);
            let next = cores@.take(k + 1);
            assert(next =~= now.push(cores@[k as int]));
            assert forall|core: u32| #[trigger] lists_core(next, core) <==> (lists_core(now, core)
                || core == cores@[k as int].0) by {
                if lists_core(now, core) {
                    assert(next[now.index_of(CoreIndex(core))] == CoreIndex(core));
                }
                if core == cores@[k as int].0 {
                    assert(next[k as int] == CoreIndex(core));
                }
                if lists_core(next, core) {
                    let j = next.index_of(CoreIndex(core));
                    if j < k {
                        assert(now[j] == CoreIndex(core));
                    }
                }
            }
        }
        freed.insert(cores[k].0, reason);
        k = k + 1;
    }
    assert(cores@.take(k as int) =~= cores@);
}

/// Whether `freed` are all cores that became free: those whose candidates became
/// available, and, if it is time to look for them, those whose candidates timed out.
/// Looking for these leads the runtime from one state to another.
pub open spec fn all_freed<T: Scheduler + Inclusion>(
    before: T,
    concluded: Seq<(CoreIndex, CandidateHash)>,
    after: T,
    freed: Map<u32, FreedReason>,
) -> bool {
    exists|required: bool| #[trigger]
        call_ensures(T::availability_timeout_check_required, (&before,), required)
            && if required {
            exists|timed_out: Vec<CoreIndex>| #[trigger]
                call_ensures(T::collect_timed_out, (before,), (after, timed_out)) && freed
                    == freed_cores(cores_of(concluded), timed_out@)
        } else {
            after == before && freed == freed_cores(cores_of(concluded), Seq::empty())
        }
}

/// Collects all freed cores: appends the cores that timed out to those whose
/// candidates became available.
pub fn collect_all_freed_cores<T: Scheduler + Inclusion>(
    runtime: T,
    freed_concluded: &Vec<(CoreIndex, CandidateHash)>,
) -> (r: (T, BTreeMap<u32, FreedReason>))
    ensures
        all_freed::<T>(runtime, freed_concluded@, r.0, r.1@),
{
    let required = runtime.availability_timeout_check_required();
    let (runtime, freed_timeout): (T, Vec<CoreIndex>) = if required {
        runtime.collect_timed_out()
    } else {
        (runtime, Vec::new())
    };
    let mut concluded: Vec<CoreIndex> = Vec::new();
    let mut k: usize = 0;
    while k < freed_concluded.len()
        invariant
            k <= freed_concluded@.len(),
            concluded@ =~= cores_of(freed_concluded@.take(k as int)),
        decreases freed_concluded@.len() - k,
    {
        concluded.push(freed_concluded[k].0);
        k = k + 1;
    }
    assert(freed_concluded@.take(k as int) =~= freed_concluded@);
    let mut freed: BTreeMap<u32, FreedReason> = BTreeMap::new();
    add_freed(&mut freed, &concluded, FreedReason::Concluded);
    add_freed(&mut freed, &freed_timeout, FreedReason::TimedOut);
    assert(freed@ =~= freed_cores(cores_of(freed_concluded@), freed_timeout@));
    (runtime, freed)
}

/// The candidates that are disputed in a session, in order.
pub open spec fn disputed_in(
    checked: Seq<CheckedDisputeStatementSet>,
    session: SessionIndex,
) -> Seq<CandidateHash>
    decreases checked.len(),
{
    if checked.len() == 0 {
        Seq::empty()
    } else {
        let before = disputed_in(checked.drop_last(), session);
        if checked.last().set.session == session {
            before.push(checked.last().set.candidate_hash)
        } else {
            before
        }
    }
}

/// The candidates that were found invalid, each once.
pub open spec fn found_invalid(candidates: Seq<CandidateHash>, invalid: Seq<bool>) -> Seq<
    CandidateHash,
>
    decreases candidates.len(),
{
    if candidates.len() == 0 {
        Seq::empty()
    } else {
        let before = found_invalid(candidates.drop_last(), invalid.drop_last());
        if invalid.last() && !before.contains(candidates.last()) {
            before.push(candidates.last())
        } else {
            before
        }
    }
}

/// Whether `invalid` is what the disputes module said of candidates, one by one.
pub open spec fn disputes_concluded<D: DisputesHandler>(
    runtime: D,
    session: SessionIndex,
    candidates: Seq<CandidateHash>,
    invalid: Seq<bool>,
) -> bool {
    &&& invalid.len() == candidates.len()
    &&& forall|k: int|
        0 <= k < candidates.len() ==> call_ensures(
            D::concluded_invalid,
            (&runtime, session, candidates[k]),
            #[trigger] invalid[k],
        )
}

/// Whether `invalid` are the candidates, disputed in the session, that were found
/// invalid.
pub open spec fn concluded_invalid_in<D: DisputesHandler>(
    runtime: D,
    checked: Seq<CheckedDisputeStatementSet>,
    session: SessionIndex,
    invalid: Seq<CandidateHash>,
) -> bool {
    exists|answers: Seq<bool>| #[trigger]
        disputes_concluded::<D>(runtime, session, disputed_in(checked, session), answers) && invalid
            == found_invalid(disputed_in(checked, session), answers)
}

/// The candidates with new votes in the current session that were found invalid.
///
/// No core is occupied by a candidate of an earlier session, and the cores of
/// candidates that were found invalid earlier have already been cleaned up.
pub fn current_concluded_invalid_disputes<D: DisputesHandler>(
    runtime: &D,
    checked: &Vec<CheckedDisputeStatementSet>,
    session: SessionIndex,
) -> (r: Vec<CandidateHash>)
    ensures
        concluded_invalid_in::<D>(*runtime, checked@, session, r@),
{
    let mut r: Vec<CandidateHash> = Vec::new();
    let ghost mut answers: Seq<bool> = Seq::empty();
    let mut k: usize = 0;
    while k < checked.len()
        invariant
            k <= checked@.len(),
            disputes_concluded::<D>(
                *runtime,
                session,
                disputed_in(checked@.take(k as int), session),
                answers,
            ),
            r@ == found_invalid(disputed_in(checked@.take(k as int), session), answers),
        decreases checked@.len() - k,
    {
        let ghost hashes = disputed_in(checked@.take(k as int), session);
        assert(checked@.take(k + 1).drop_last() =~= checked@.take(k as int));
        if checked[k].set.session == session {
            let hash = checked[k].set.candidate_hash;
            let concluded = runtime.concluded_invalid(session, hash);
            proof {
                assert(hashes.push(hash).drop_last() =~= hashes);
                assert(answers.push(concluded).drop_last() =~= answers);
                answers = answers.push(concluded);
            }
            if concluded && !contains_hash(&r, &hash) {
                r.push(hash);
            }
        }
        k = k + 1;
    }
    assert(checked@.take(k as int) =~= checked@);
    r
}

/// No candidate is listed twice among those found invalid, and each of them was
/// disputed and found invalid.
pub proof fn found_invalid_lists_each_once(candidates: Seq<CandidateHash>, invalid: Seq<bool>)
    requires
        invalid.len() == candidates.len(),
    ensures
        found_invalid(candidates, invalid).no_duplicates(),
        forall|hash: CandidateHash| #[trigger]
            found_invalid(candidates, invalid).contains(hash) <==> exists|k: int|
                0 <= k < candidates.len() && candidates[k] == hash && #[trigger] invalid[k],
    decreases candidates.len(),
{
    if candidates.len() > 0 {
        let fewer = candidates.drop_last();
        let answers = invalid.drop_last();
        found_invalid_lists_each_once(fewer, answers);
        let before = found_invalid(fewer, answers);
        let after = found_invalid(candidates, invalid);
        let top = candidates.len() - 1;
        assert forall|hash: CandidateHash| #[trigger] after.contains(hash) <==> exists|k: int|
            0 <= k < candidates.len() && candidates[k] == hash && #[trigger] invalid[k] by {
            if after.contains(hash) {
                if before.contains(hash) {
                    let k = choose|k: int|
                        0 <= k < fewer.len() && fewer[k] == hash && #[trigger] answers[k];
                    assert(candidates[k] == hash && invalid[k]);
                } else {
                    let j = after.index_of(hash);
                    assert(j == before.len()) by {
                        if j < before.len() {
                            assert(before[j] == hash);
                        }
                    }
                    assert(candidates[top] == hash && invalid[top]);
                }
            }
            if exists|k: int|
                0 <= k < candidates.len() && candidates[k] == hash && #[trigger] invalid[k] {
                let k = choose|k: int|
                    0 <= k < candidates.len() && candidates[k] == hash && #[trigger] invalid[k];
                if k < top {
                    assert(fewer[k] == hash && answers[k]);
                    assert(before.contains(hash));
                    assert(after[before.index_of(hash)] == hash);
                } else if before.contains(hash) {
                    assert(after[before.index_of(hash)] == hash);
                } else {
                    assert(after[before.len() as int] == hash);
                }
            }
        }
    }
}

/// Which cores become free and why: exactly those in one of the two lists, and one that is
/// in the list of cores that timed out for that reason, any other because its candidate
/// concluded.
pub proof fn listed_cores_become_free(
    concluded: Seq<CoreIndex>,
    timed_out: Seq<CoreIndex>,
    core: u32,
)
    ensures
        freed_cores(concluded, timed_out).contains_key(core) <==> concluded.contains(
            CoreIndex(core),
        ) || timed_out.contains(CoreIndex(core)),
        timed_out.contains(CoreIndex(core)) ==> freed_cores(concluded, timed_out)[core]
            == FreedReason::TimedOut,
        concluded.contains(CoreIndex(core)) && !timed_out.contains(CoreIndex(core))
            ==> freed_cores(concluded, timed_out)[core] == FreedReason::Concluded,
{
}

/// Which cores are collected: those of the candidates that became available, and, if the
/// scheduler answers that it is time to look for them, those that the inclusion module
/// collects as timed out. Only in that case does the runtime change.
pub proof fn collecting_asks_for_timeouts<T: Scheduler + Inclusion>(
    before: T,
    concluded: Seq<(CoreIndex, CandidateHash)>,
    after: T,
    freed: Map<u32, FreedReason>,
) -> (r: (bool, Vec<CoreIndex>))
    requires
        all_freed::<T>(before, concluded, after, freed),
    ensures
        call_ensures(T::availability_timeout_check_required, (&before,), r.0),
        r.0 ==> call_ensures(T::collect_timed_out, (before,), (after, r.1)),
        !r.0 ==> after == before,
        forall|core: u32| #[trigger]
            freed.contains_key(core) <==> (exists|k: int|
                0 <= k < concluded.len() && (#[trigger] concluded[k]).0.0 == core) || (r.0
                && exists|k: int| 0 <= k < r.1@.len() && (#[trigger] r.1@[k]).0 == core),
        forall|core: u32| #[trigger]
            freed.contains_key(core) ==> (freed[core] == FreedReason::TimedOut <==> r.0 && exists|
                k: int,
            |
                0 <= k < r.1@.len() && (#[trigger] r.1@[k]).0 == core),
{
    let required = choose|required: bool| #[trigger]
        call_ensures(T::availability_timeout_check_required, (&before,), required)
            && if required {
            exists|timed_out: Vec<CoreIndex>| #[trigger]
                call_ensures(T::collect_timed_out, (before,), (after, timed_out)) && freed
                    == freed_cores(cores_of(concluded), timed_out@)
        } else {
            after == before && freed == freed_cores(cores_of(concluded), Seq::empty())
        };
    let timed_out: Vec<CoreIndex> = if required {
        choose|timed_out: Vec<CoreIndex>| #[trigger]
            call_ensures(T::collect_timed_out, (before,), (after, timed_out)) && freed
                == freed_cores(cores_of(concluded), timed_out@)
    } else {
        arbitrary()
    };
    let late = if required {
        timed_out@
    } else {
        Seq::empty()
    };
    let cores = cores_of(concluded);
    assert(freed == freed_cores(cores, late));
    assert forall|core: u32| cores.contains(CoreIndex(core)) <==> (exists|k: int|
        0 <= k < concluded.len() && (#[trigger] concluded[k]).0.0 == core) by {
        if cores.contains(CoreIndex(core)) {
            let k = cores.index_of(CoreIndex(core));
            assert(concluded[k].0 == cores[k]);
            assert(concluded[k].0.0 == core);
        }
        if exists|k: int| 0 <= k < concluded.len() && (#[trigger] concluded[k]).0.0 == core {
            let k = choose|k: int|
                0 <= k < concluded.len() && (#[trigger] concluded[k]).0.0 == core;
            assert(cores[k] == CoreIndex(core));
        }
    }
    assert forall|core: u32| late.contains(CoreIndex(core)) <==> (required && exists|k: int|
        0 <= k < timed_out@.len() && (#[trigger] timed_out@[k]).0 == core) by {
        if late.contains(CoreIndex(core)) {
            let k = late.index_of(CoreIndex(core));
            assert(timed_out@[k].0 == core);
        }
        if required && exists|k: int|
            0 <= k < timed_out@.len() && (#[trigger] timed_out@[k]).0 == core {
            let k = choose|k: int|
                0 <= k < timed_out@.len() && (#[trigger] timed_out@[k]).0 == core;
            assert(late[k] == CoreIndex(core));
        }
    }
    assert forall|core: u32| #[trigger] freed.contains_key(core) implies (freed[core]
        == FreedReason::TimedOut <==> late.contains(CoreIndex(core))) by {
        listed_cores_become_free(cores, late, core);
    }
    assert forall|core: u32| #[trigger] freed.contains_key(core) <==> cores.contains(
        CoreIndex(core),
    ) || late.contains(CoreIndex(core)) by {
        listed_cores_become_free(cores, late, core);
    }
    (required, timed_out)
}

/// Which candidates are found invalid: of each dispute of the session the disputes module
/// is asked, and the candidates are exactly those of the disputes that it answers for, each
/// listed once.
pub proof fn disputes_of_the_session_are_asked_for<D: DisputesHandler>(
    runtime: D,
    checked: Seq<CheckedDisputeStatementSet>,
    session: SessionIndex,
    invalid: Seq<CandidateHash>,
) -> (answers: Seq<bool>)
    requires
        concluded_invalid_in::<D>(runtime, checked, session, invalid),
    ensures
        answers.len() == checked.len(),
        forall|d: int|
            0 <= d < checked.len() && checked[d].set.session == session ==> call_ensures(
                D::concluded_invalid,
                (&runtime, session, checked[d].set.candidate_hash),
                #[trigger] answers[d],
            ),
        invalid.no_duplicates(),
        forall|hash: CandidateHash| #[trigger]
            invalid.contains(hash) <==> exists|d: int|
                0 <= d < checked.len() && checked[d].set.session == session
                    && checked[d].set.candidate_hash == hash && #[trigger] answers[d],
{
    let disputed = disputed_in(checked, session);
    let of_disputed = choose|answers: Seq<bool>| #[trigger]
        disputes_concluded::<D>(runtime, session, disputed, answers) && invalid == found_invalid(
            disputed,
            answers,
        );
    found_invalid_lists_each_once(disputed, of_disputed);
    let places = disputed_one_by_one(checked, session);
    let answers = Seq::new(
        checked.len(),
        |d: int| places.contains(d) && of_disputed[places.index_of(d)],
    );
    assert forall|d: int|
        0 <= d < checked.len() && checked[d].set.session == session implies call_ensures(
        D::concluded_invalid,
        (&runtime, session, checked[d].set.candidate_hash),
        #[trigger] answers[d],
    ) by {
        assert(places.contains(d));
        let k = places.index_of(d);
        assert(disputed[k] == checked[places[k]].set.candidate_hash);
        assert(call_ensures(
            D::concluded_invalid,
            (&runtime, session, disputed[k]),
            of_disputed[k],
        ));
    }
    assert forall|hash: CandidateHash| #[trigger] invalid.contains(hash) <==> exists|d: int|
        0 <= d < checked.len() && checked[d].set.session == session
            && checked[d].set.candidate_hash == hash && #[trigger] answers[d] by {
        if invalid.contains(hash) {
            let k = choose|k: int|
                0 <= k < disputed.len() && disputed[k] == hash && #[trigger] of_disputed[k];
            let d = places[k];
            assert(checked[d].set.session == session);
            let j = places.index_of(d);
            if j < k {
                assert(places[j] < places[k]);
            } else if k < j {
                assert(places[k] < places[j]);
            }
            assert(answers[d]);
        }
        if exists|d: int|
            0 <= d < checked.len() && checked[d].set.session == session
                && checked[d].set.candidate_hash == hash && #[trigger] answers[d] {
            let d = choose|d: int|
                0 <= d < checked.len() && checked[d].set.session == session
                    && checked[d].set.candidate_hash == hash && #[trigger] answers[d];
            let k = places.index_of(d);
            assert(disputed[k] == hash && of_disputed[k]);
        }
    }
    answers
}

/// The disputes of a session, one by one.
proof fn disputed_one_by_one(
    checked: Seq<CheckedDisputeStatementSet>,
    session: SessionIndex,
) -> (places: Seq<int>)
    ensures
        places.len() == disputed_in(checked, session).len(),
        forall|i: int, j: int| 0 <= i < j < places.len() ==> places[i] < places[j],
        forall|k: int|
            0 <= k < places.len() ==> 0 <= #[trigger] places[k] < checked.len()
                && checked[places[k]].set.session == session && disputed_in(checked, session)[k]
                == checked[places[k]].set.candidate_hash,
        forall|d: int|
            0 <= d < checked.len() && (#[trigger] checked[d]).set.session == session
                ==> places.contains(d),
    decreases checked.len(),
{
    let now = disputed_in(checked, session);
    if checked.len() == 0 {
        Seq::empty()
    } else {
        let fewer = checked.drop_last();
        let top = checked.len() - 1;
        let before = disputed_one_by_one(fewer, session);
        let places = if checked.last().set.session == session {
            before.push(top)
        } else {
            before
        };
        assert forall|k: int| 0 <= k < places.len() implies 0 <= #[trigger] places[k]
            < checked.len() && checked[places[k]].set.session == session && now[k]
            == checked[places[k]].set.candidate_hash by {
            if k < before.len() {
                assert(0 <= before[k] < top);
                assert(fewer[before[k]] == checked[before[k]]);
            }
        }
        assert forall|d: int|
            0 <= d < checked.len() && (
            #[trigger] checked[d]).set.session == session implies places.contains(d) by {
            if d < top {
                assert(fewer[d] == checked[d]);
                assert(places[before.index_of(d)] == d);
            } else {
                assert(places[before.len() as int] == d);
            }
        }
        places
    }
}

} // verus!
