//! Dispute votes: which of them are imported, and how much they weigh.

use crate::cores::places_fit;
use crate::primitives::{CheckedDisputeStatementSet, DisputeStatementSet};
use crate::runtime::{Config, WeightInfo};
use crate::selection::{capped, Account};
use crate::totals::total;
use crate::weight::Weight;
use vstd::prelude::*;

verus! {

/// Whether the runtime puts the weight of the statement sets, taken together, at
/// `w`.
pub open spec fn weighs_disputes<T: Config>(disputes: Seq<DisputeStatementSet>, w: Weight) -> bool {
    exists|v: &Vec<DisputeStatementSet>|
        v@ == disputes && #[trigger] call_ensures(
            <T::WeightInfo as WeightInfo>::multi_dispute_statement_sets_weight,
            (v,),
            w,
        )
}

/// Whether the runtime puts the weight of one statement set at `w`.
pub open spec fn weighs_dispute<T: Config>(set: DisputeStatementSet, w: Weight) -> bool {
    call_ensures(<T::WeightInfo as WeightInfo>::dispute_statement_set_weight, (&set,), w)
}

/// Whether the runtime puts the weight of the checked sets, taken together, at `w`.
pub open spec fn weighs_checked<T: Config>(
    checked: Seq<CheckedDisputeStatementSet>,
    w: Weight,
) -> bool {
    exists|v: &Vec<CheckedDisputeStatementSet>|
        v@ == checked && #[trigger] call_ensures(
            <T::WeightInfo as WeightInfo>::checked_multi_dispute_statement_sets_weight,
            (v,),
            w,
        )
}

/// Whether `weights` are the weights of the statement sets, one by one.
pub open spec fn weighs_each_dispute<T: Config>(
    disputes: Seq<DisputeStatementSet>,
    weights: Seq<Weight>,
) -> bool {
    &&& weights.len() == disputes.len()
    &&& forall|k: int|
        0 <= k < disputes.len() ==> weighs_dispute::<T>(disputes[k], #[trigger] weights[k])
}

/// Statement sets, and their weight added up.
pub struct FittingDisputes {
    pub weight: Weight,
    pub sets: Seq<DisputeStatementSet>,
}

/// Goes through statement sets in order and takes each that still fits in the
/// limit.
pub open spec fn fitting_disputes(
    disputes: Seq<DisputeStatementSet>,
    weights: Seq<Weight>,
    limit: Weight,
) -> FittingDisputes
    decreases disputes.len(),
{
    if disputes.len() == 0 {
        FittingDisputes { weight: Weight::zero(), sets: Seq::empty() }
    } else {
        let before = fitting_disputes(disputes.drop_last(), weights.drop_last(), limit);
        let updated = before.weight.saturating_add(weights.last());
        if limit.all_gte(updated) {
            FittingDisputes { weight: updated, sets: before.sets.push(disputes.last()) }
        } else {
            before
        }
    }
}

/// The results that are there.
pub open spec fn present(
    results: Seq<Option<CheckedDisputeStatementSet>>,
) -> Seq<CheckedDisputeStatementSet>
    decreases results.len(),
{
    if results.len() == 0 {
        Seq::empty()
    } else {
        match results.last() {
            Some(checked) => present(results.drop_last()).push(checked),
            None => present(results.drop_last()),
        }
    }
}

/// Whether `results` are results of the filter for the sets, one by one.
pub open spec fn filter_results(
    filter: spec_fn(DisputeStatementSet, Option<CheckedDisputeStatementSet>) -> bool,
    sets: Seq<DisputeStatementSet>,
    results: Seq<Option<CheckedDisputeStatementSet>>,
) -> bool {
    &&& results.len() == sets.len()
    &&& forall|k: int| 0 <= k < sets.len() ==> filter(sets[k], #[trigger] results[k])
}

/// Whether `checked` is what the filter left of the sets.
pub open spec fn filtered(
    filter: spec_fn(DisputeStatementSet, Option<CheckedDisputeStatementSet>) -> bool,
    sets: Seq<DisputeStatementSet>,
    checked: Seq<CheckedDisputeStatementSet>,
) -> bool {
    exists|results: Seq<Option<CheckedDisputeStatementSet>>| #[trigger]
        filter_results(filter, sets, results) && checked == present(results)
}

/// What is left of disputes that have to fit in `limit`, and the weight that is
/// returned for them. Where all of them fit, all are put through the filter, and
/// what passes it is weighed anew. Where not all of them fit, only those that fit
/// are put through the filter, and they count with their full weight even if they
/// do not pass.
pub open spec fn limited_disputes<T: Config>(
    disputes: Seq<DisputeStatementSet>,
    filter: spec_fn(DisputeStatementSet, Option<CheckedDisputeStatementSet>) -> bool,
    limit: Weight,
    checked: Seq<CheckedDisputeStatementSet>,
    weight: Weight,
) -> bool {
    exists|total: Weight| #[trigger]
        weighs_disputes::<T>(disputes, total) && if total.any_gt(limit) {
            exists|weights: Seq<Weight>| #[trigger]
                weighs_each_dispute::<T>(disputes, weights) && {
                    let fitting = fitting_disputes(disputes, weights, limit);
                    &&& weight == fitting.weight
                    &&& filtered(filter, fitting.sets, checked)
                }
        } else {
            &&& filtered(filter, disputes, checked)
            &&& weighs_checked::<T>(checked, weight)
        }
}

/// The relation between what a filter function is given and what it returns.
pub open spec fn answers_of<F: Fn(DisputeStatementSet) -> Option<CheckedDisputeStatementSet>>(
    f: F,
) -> spec_fn(DisputeStatementSet, Option<CheckedDisputeStatementSet>) -> bool {
    |set: DisputeStatementSet, result: Option<CheckedDisputeStatementSet>|
        call_ensures(f, (set,), result)
}

proof fn filter_step(
    filter: spec_fn(DisputeStatementSet, Option<CheckedDisputeStatementSet>) -> bool,
    sets: Seq<DisputeStatementSet>,
    results: Seq<Option<CheckedDisputeStatementSet>>,
    set: DisputeStatementSet,
    result: Option<CheckedDisputeStatementSet>,
)
    requires
        filter_results(filter, sets, results),
        filter(set, result),
    ensures
        filter_results(filter, sets.push(set), results.push(result)),
        present(results.push(result)) == match result {
            Some(checked) => present(results).push(checked),
            None => present(results),
        },
{
    assert(results.push(result).drop_last() =~= results);
}

/// Limits disputes to a weight, and filters them.
///
/// Assumes that the disputes are sorted by how much they matter; their order is
/// kept. Disputes that come first are taken first where space is short.
///
/// Returns the sets that passed the filter and the weight that they consume.
pub fn limit_and_sanitize_disputes<
    T: Config,
    F: Fn(DisputeStatementSet) -> Option<CheckedDisputeStatementSet>,
>(disputes: Vec<DisputeStatementSet>, dispute_statement_set_valid: F, max_consumable_weight: Weight)
    -> (r: (Vec<CheckedDisputeStatementSet>, Weight))
    requires
        forall|k: int|
            0 <= k < disputes@.len() ==> call_requires(
                dispute_statement_set_valid,
                (#[trigger] disputes@[k],),
            ),
    ensures
        limited_disputes::<T>(
            disputes@,
            answers_of(dispute_statement_set_valid),
            max_consumable_weight,
            r.0@,
            r.1,
        ),
{
    let ghost all = disputes@;
    let ghost filter = answers_of(dispute_statement_set_valid);
    let disputes_weight = <T::WeightInfo as WeightInfo>::multi_dispute_statement_sets_weight(
        &disputes,
    );
    assert(weighs_disputes::<T>(all, disputes_weight));
    let mut checked: Vec<CheckedDisputeStatementSet> = Vec::new();
    let ghost mut results: Seq<Option<CheckedDisputeStatementSet>> = Seq::empty();
    if disputes_weight.any_gt(max_consumable_weight) {
        let mut weight_acc = Weight::zero();
        let ghost mut weights: Seq<Weight> = Seq::empty();
        for set in it: disputes.into_iter()
            invariant
                it.seq() == all,
                forall|k: int|
                    0 <= k < all.len() ==> call_requires(
                        dispute_statement_set_valid,
                        (#[trigger] all[k],),
                    ),
                filter == answers_of(dispute_statement_set_valid),
                weighs_each_dispute::<T>(all.take(it.index()), weights),
                weight_acc == fitting_disputes(
                    all.take(it.index()),
                    weights,
                    max_consumable_weight,
                ).weight,
                filter_results(
                    filter,
                    fitting_disputes(all.take(it.index()), weights, max_consumable_weight).sets,
                    results,
                ),
                checked@ == present(results),
        {
            let ghost tried = all.take(it.index());
            let ghost fitting = fitting_disputes(tried, weights, max_consumable_weight);
            let dispute_weight = <T::WeightInfo as WeightInfo>::dispute_statement_set_weight(&set);
            let updated = weight_acc.saturating_add(dispute_weight);
            proof {
                assert(all.take(it.index() + 1).drop_last() =~= tried);
                assert(weights.push(dispute_weight).drop_last() =~= weights);
                weights = weights.push(dispute_weight);
                assert(set == all[it.index()]);
            }
            if max_consumable_weight.all_gte(updated) {
                // Invalid data costs processing time too.
                weight_acc = updated;
                let result = dispute_statement_set_valid(set);
                proof {
                    filter_step(filter, fitting.sets, results, set, result);
                    results = results.push(result);
                }
                if let Some(passed) = result {
                    checked.push(passed);
                }
            }
        }
        assert(all.take(all.len() as int) =~= all);
        (checked, weight_acc)
    } else {
        for set in it: disputes.into_iter()
            invariant
                it.seq() == all,
                forall|k: int|
                    0 <= k < all.len() ==> call_requires(
                        dispute_statement_set_valid,
                        (#[trigger] all[k],),
                    ),
                filter == answers_of(dispute_statement_set_valid),
                filter_results(filter, all.take(it.index()), results),
                checked@ == present(results),
        {
            let ghost tried = all.take(it.index());
            assert(set == all[it.index()]);
            let result = dispute_statement_set_valid(set);
            proof {
                filter_step(filter, tried, results, set, result);
                assert(all.take(it.index() + 1) =~= tried.push(set));
                results = results.push(result);
            }
            if let Some(passed) = result {
                checked.push(passed);
            }
        }
        assert(all.take(all.len() as int) =~= all);
        // Some may have been filtered out, so the weight is taken again.
        let weight = <T::WeightInfo as WeightInfo>::checked_multi_dispute_statement_sets_weight(
            &checked,
        );
        (checked, weight)
    }
}

/// What one account of a filter allows, a wider account allows too.
pub proof fn limited_disputes_by_wider_account<T: Config>(
    disputes: Seq<DisputeStatementSet>,
    filter: spec_fn(DisputeStatementSet, Option<CheckedDisputeStatementSet>) -> bool,
    wider: spec_fn(DisputeStatementSet, Option<CheckedDisputeStatementSet>) -> bool,
    limit: Weight,
    checked: Seq<CheckedDisputeStatementSet>,
    weight: Weight,
)
    requires
        limited_disputes::<T>(disputes, filter, limit, checked, weight),
        forall|set: DisputeStatementSet, result: Option<CheckedDisputeStatementSet>| #[trigger]
            filter(set, result) ==> wider(set, result),
    ensures
        limited_disputes::<T>(disputes, wider, limit, checked, weight),
{
    assert forall|sets: Seq<DisputeStatementSet>| #[trigger]
        filtered(filter, sets, checked) implies filtered(wider, sets, checked) by {
        let results = choose|results: Seq<Option<CheckedDisputeStatementSet>>| #[trigger]
            filter_results(filter, sets, results) && checked == present(results);
        assert(filter_results(wider, sets, results));
    }
}

proof fn fitting_disputes_within(
    disputes: Seq<DisputeStatementSet>,
    weights: Seq<Weight>,
    limit: Weight,
)
    ensures
        fitting_disputes(disputes, weights, limit).weight.all_lte(limit),
    decreases disputes.len(),
{
    if disputes.len() > 0 {
        fitting_disputes_within(disputes.drop_last(), weights.drop_last(), limit);
    }
}

/// The weight that disputes are said to consume is never over the limit, in a
/// runtime that puts no more weight on what the filter left than on what it was
/// given.
pub proof fn limited_disputes_weight_stays_within<T: Config>(
    disputes: Seq<DisputeStatementSet>,
    filter: spec_fn(DisputeStatementSet, Option<CheckedDisputeStatementSet>) -> bool,
    limit: Weight,
    checked: Seq<CheckedDisputeStatementSet>,
    weight: Weight,
)
    requires
        limited_disputes::<T>(disputes, filter, limit, checked, weight),
        filtered(filter, disputes, checked) ==> forall|given: Weight, left: Weight| #[trigger]
            weighs_disputes::<T>(disputes, given) && #[trigger] weighs_checked::<T>(checked, left)
                ==> left.all_lte(given),
    ensures
        weight.all_lte(limit),
{
    let total = choose|total: Weight| #[trigger]
        weighs_disputes::<T>(disputes, total) && if total.any_gt(limit) {
            exists|weights: Seq<Weight>| #[trigger]
                weighs_each_dispute::<T>(disputes, weights) && {
                    let fitting = fitting_disputes(disputes, weights, limit);
                    &&& weight == fitting.weight
                    &&& filtered(filter, fitting.sets, checked)
                }
        } else {
            &&& filtered(filter, disputes, checked)
            &&& weighs_checked::<T>(checked, weight)
        };
    if total.any_gt(limit) {
        let weights = choose|weights: Seq<Weight>| #[trigger]
            weighs_each_dispute::<T>(disputes, weights) && weight == fitting_disputes(
                disputes,
                weights,
                limit,
            ).weight;
        fitting_disputes_within(disputes, weights, limit);
    }
}

/// Disputes that come first are taken first: what is taken of the first `n` disputes is
/// the same whatever follows them.
pub proof fn earlier_disputes_come_first(
    disputes: Seq<DisputeStatementSet>,
    weights: Seq<Weight>,
    limit: Weight,
    n: int,
)
    requires
        0 <= n <= disputes.len(),
        weights.len() == disputes.len(),
    ensures
        fitting_disputes(disputes.take(n), weights.take(n), limit).sets.is_prefix_of(
            fitting_disputes(disputes, weights, limit).sets,
        ),
    decreases disputes.len() - n,
{
    if n == disputes.len() {
        assert(disputes.take(n) =~= disputes);
        assert(weights.take(n) =~= weights);
        assert(fitting_disputes(disputes, weights, limit).sets.is_prefix_of(
            fitting_disputes(disputes, weights, limit).sets,
        ));
    } else {
        earlier_disputes_come_first(disputes, weights, limit, n + 1);
        assert(disputes.take(n + 1).drop_last() =~= disputes.take(n));
        assert(weights.take(n + 1).drop_last() =~= weights.take(n));
        let here = fitting_disputes(disputes.take(n), weights.take(n), limit).sets;
        let next = fitting_disputes(disputes.take(n + 1), weights.take(n + 1), limit).sets;
        let all = fitting_disputes(disputes, weights, limit).sets;
        assert(here.is_prefix_of(next));
        assert(here =~= all.subrange(0, here.len() as int)) by {
            assert(next =~= all.subrange(0, next.len() as int));
            assert forall|k: int| 0 <= k < here.len() implies here[k] == all[k] by {
                assert(here[k] == next[k]);
                assert(next[k] == all.subrange(0, next.len() as int)[k]);
            }
        }
    }
}

/// A dispute that is not taken did not fit behind those that were.
pub proof fn skipped_dispute_does_not_fit(
    disputes: Seq<DisputeStatementSet>,
    weights: Seq<Weight>,
    limit: Weight,
)
    requires
        disputes.len() > 0,
        weights.len() == disputes.len(),
        fitting_disputes(disputes, weights, limit).sets == fitting_disputes(
            disputes.drop_last(),
            weights.drop_last(),
            limit,
        ).sets,
    ensures
        fitting_disputes(disputes.drop_last(), weights.drop_last(), limit).weight.saturating_add(
            weights.last(),
        ).any_gt(limit),
{
    let before = fitting_disputes(disputes.drop_last(), weights.drop_last(), limit).sets;
    assert(before.push(disputes.last()).len() == before.len() + 1);
}

/// The disputes without the marks that they were checked.
pub open spec fn sets_of(checked: Seq<CheckedDisputeStatementSet>) -> Seq<DisputeStatementSet> {
    checked.map_values(|c: CheckedDisputeStatementSet| c.set)
}

/// Whether a runtime weighs disputes by adding up the weights of the statement sets,
/// checked or not.
pub open spec fn disputes_add_up<T: Config>(
    set_weight: spec_fn(DisputeStatementSet) -> Weight,
) -> bool {
    &&& forall|disputes: Seq<DisputeStatementSet>, w: Weight| #[trigger]
        weighs_disputes::<T>(disputes, w) ==> w == total(disputes, set_weight)
    &&& forall|set: DisputeStatementSet, w: Weight| #[trigger]
        weighs_dispute::<T>(set, w) ==> w == set_weight(set)
    &&& forall|checked: Seq<CheckedDisputeStatementSet>, w: Weight| #[trigger]
        weighs_checked::<T>(checked, w) ==> w == total(sets_of(checked), set_weight)
}

/// Whether a filter makes no statement set heavier.
pub open spec fn lightens(
    filter: spec_fn(DisputeStatementSet, Option<CheckedDisputeStatementSet>) -> bool,
    set_weight: spec_fn(DisputeStatementSet) -> Weight,
) -> bool {
    forall|set: DisputeStatementSet, checked: CheckedDisputeStatementSet| #[trigger]
        filter(set, Some(checked)) ==> set_weight(checked.set).all_lte(set_weight(set))
}

/// What a filter leaves weighs no more than what it was given.
proof fn filtered_weigh_no_more(
    filter: spec_fn(DisputeStatementSet, Option<CheckedDisputeStatementSet>) -> bool,
    sets: Seq<DisputeStatementSet>,
    results: Seq<Option<CheckedDisputeStatementSet>>,
    set_weight: spec_fn(DisputeStatementSet) -> Weight,
)
    requires
        lightens(filter, set_weight),
        filter_results(filter, sets, results),
    ensures
        total(sets_of(present(results)), set_weight).all_lte(total(sets, set_weight)),
    decreases sets.len(),
{
    let left = sets_of(present(results));
    if sets.len() == 0 {
        assert(left =~= sets);
    } else {
        let fewer = sets.drop_last();
        let before = results.drop_last();
        assert forall|k: int| 0 <= k < fewer.len() implies filter(
            fewer[k],
            #[trigger] before[k],
        ) by {
            assert(filter(sets[k], results[k]));
        }
        filtered_weigh_no_more(filter, fewer, before, set_weight);
        assert(filter(sets[sets.len() - 1], results[sets.len() - 1]));
        match results.last() {
            Some(checked) => {
                assert(left.drop_last() =~= sets_of(present(before)));
                assert(left.last() == checked.set);
                assert(set_weight(checked.set).all_lte(set_weight(sets.last())));
            },
            None => {},
        }
    }
}

/// The weight of fitting disputes is that of the statement sets, added up.
proof fn fitting_weight_adds_up(
    disputes: Seq<DisputeStatementSet>,
    weights: Seq<Weight>,
    limit: Weight,
    set_weight: spec_fn(DisputeStatementSet) -> Weight,
)
    requires
        weights.len() == disputes.len(),
        forall|k: int| 0 <= k < disputes.len() ==> #[trigger] weights[k] == set_weight(disputes[k]),
    ensures
        fitting_disputes(disputes, weights, limit).weight == total(
            fitting_disputes(disputes, weights, limit).sets,
            set_weight,
        ),
    decreases disputes.len(),
{
    if disputes.len() > 0 {
        let fewer = disputes.drop_last();
        let fewer_weights = weights.drop_last();
        assert forall|k: int| 0 <= k < fewer.len() implies #[trigger] fewer_weights[k]
            == set_weight(fewer[k]) by {
            assert(weights[k] == set_weight(disputes[k]));
        }
        fitting_weight_adds_up(fewer, fewer_weights, limit, set_weight);
        let before = fitting_disputes(fewer, fewer_weights, limit).sets;
        assert(weights[disputes.len() - 1] == set_weight(disputes[disputes.len() - 1]));
        assert(before.push(disputes.last()).drop_last() =~= before);
    }
}

/// Disputes that are imported weigh no more than what is accounted for them, and that is
/// no more than the limit, in a runtime that adds weights up and whose filter makes no
/// statement set heavier.
pub proof fn imported_disputes_weigh_no_more<T: Config>(
    disputes: Seq<DisputeStatementSet>,
    filter: spec_fn(DisputeStatementSet, Option<CheckedDisputeStatementSet>) -> bool,
    limit: Weight,
    checked: Seq<CheckedDisputeStatementSet>,
    weight: Weight,
    set_weight: spec_fn(DisputeStatementSet) -> Weight,
)
    requires
        disputes_add_up::<T>(set_weight),
        lightens(filter, set_weight),
        limited_disputes::<T>(disputes, filter, limit, checked, weight),
    ensures
        total(sets_of(checked), set_weight).all_lte(weight),
        weight.all_lte(limit),
{
    let given = choose|given: Weight| #[trigger]
        weighs_disputes::<T>(disputes, given) && if given.any_gt(limit) {
            exists|weights: Seq<Weight>| #[trigger]
                weighs_each_dispute::<T>(disputes, weights) && {
                    let fitting = fitting_disputes(disputes, weights, limit);
                    &&& weight == fitting.weight
                    &&& filtered(filter, fitting.sets, checked)
                }
        } else {
            &&& filtered(filter, disputes, checked)
            &&& weighs_checked::<T>(checked, weight)
        };
    let sets = if given.any_gt(limit) {
        let weights = choose|weights: Seq<Weight>| #[trigger]
            weighs_each_dispute::<T>(disputes, weights) && {
                let fitting = fitting_disputes(disputes, weights, limit);
                &&& weight == fitting.weight
                &&& filtered(filter, fitting.sets, checked)
            };
        assert forall|k: int| 0 <= k < disputes.len() implies #[trigger] weights[k] == set_weight(
            disputes[k],
        ) by {
            assert(weighs_dispute::<T>(disputes[k], weights[k]));
        }
        fitting_weight_adds_up(disputes, weights, limit, set_weight);
        fitting_disputes_within(disputes, weights, limit);
        fitting_disputes(disputes, weights, limit).sets
    } else {
        disputes
    };
    let results = choose|results: Seq<Option<CheckedDisputeStatementSet>>| #[trigger]
        filter_results(filter, sets, results) && checked == present(results);
    filtered_weigh_no_more(filter, sets, results, set_weight);
}

/// Whether places stand in order, each once.
pub open spec fn in_order(places: Seq<int>) -> bool {
    forall|i: int, j: int| 0 <= i < j < places.len() ==> places[i] < places[j]
}

/// What was handed to the filter, and what it answered: the places of the statement sets
/// that were handed to it, its answers to these, and the places of the answers that are
/// there.
pub struct Filtering {
    pub handed: Seq<int>,
    pub answers: Seq<Option<CheckedDisputeStatementSet>>,
    pub passed: Seq<int>,
}

impl Filtering {
    /// Whether the filter gave these answers to these sets, and `checked` is every answer
    /// that is there, in order.
    pub open spec fn leaves(
        self,
        disputes: Seq<DisputeStatementSet>,
        filter: spec_fn(DisputeStatementSet, Option<CheckedDisputeStatementSet>) -> bool,
        checked: Seq<CheckedDisputeStatementSet>,
    ) -> bool {
        &&& in_order(self.handed)
        &&& in_order(self.passed)
        &&& self.answers.len() == self.handed.len()
        &&& self.passed.len() == checked.len()
        &&& forall|j: int|
            0 <= j < self.handed.len() ==> 0 <= #[trigger] self.handed[j] < disputes.len()
                && filter(disputes[self.handed[j]], self.answers[j])
        &&& forall|i: int|
            0 <= i < checked.len() ==> 0 <= #[trigger] self.passed[i] < self.answers.len()
                && self.answers[self.passed[i]] == Some(checked[i])
        &&& forall|j: int|
            0 <= j < self.answers.len() && #[trigger] self.answers[j] is Some
                ==> self.passed.contains(j)
    }
}

/// The answers that are there, one by one.
proof fn present_one_by_one(results: Seq<Option<CheckedDisputeStatementSet>>) -> (passed: Seq<int>)
    ensures
        in_order(passed),
        passed.len() == present(results).len(),
        forall|i: int|
            0 <= i < passed.len() ==> 0 <= #[trigger] passed[i] < results.len()
                && results[passed[i]] == Some(present(results)[i]),
        forall|j: int|
            0 <= j < results.len() && #[trigger] results[j] is Some ==> passed.contains(j),
    decreases results.len(),
{
    if results.len() == 0 {
        Seq::empty()
    } else {
        let fewer = results.drop_last();
        let top = results.len() - 1;
        let before = present_one_by_one(fewer);
        assert forall|i: int| 0 <= i < before.len() implies 0 <= #[trigger] before[i] < top
            && results[before[i]] == fewer[before[i]] by {
        }
        if results.last() is Some {
            let passed = before.push(top);
            assert forall|j: int|
                0 <= j < results.len() && #[trigger] results[j] is Some implies passed.contains(
                j,
            ) by {
                if j < top {
                    assert(fewer[j] is Some);
                    assert(passed[before.index_of(j)] == j);
                } else {
                    assert(passed[before.len() as int] == j);
                }
            }
            assert forall|i: int| 0 <= i < passed.len() implies 0 <= #[trigger] passed[i]
                < results.len() && results[passed[i]] == Some(present(results)[i]) by {
                if i < before.len() {
                    assert(0 <= before[i] < top);
                }
            }
            passed
        } else {
            assert forall|j: int|
                0 <= j < results.len() && #[trigger] results[j] is Some implies before.contains(
                j,
            ) by {
                assert(fewer[j] is Some);
            }
            before
        }
    }
}

/// The disputes that fit, one by one.
proof fn fitting_one_by_one(
    disputes: Seq<DisputeStatementSet>,
    weights: Seq<Weight>,
    limit: Weight,
) -> (r: (Account, Seq<int>))
    requires
        weights.len() == disputes.len(),
    ensures
        ({
            let fitting = fitting_disputes(disputes, weights, limit);
            let (account, places) = r;
            &&& account.weights == weights
            &&& account.is_right(disputes.len(), limit)
            &&& account.sums[disputes.len() as int] == fitting.weight
            &&& in_order(places)
            &&& places.len() == fitting.sets.len()
            &&& forall|j: int|
                0 <= j < places.len() ==> 0 <= #[trigger] places[j] < disputes.len()
                    && fitting.sets[j] == disputes[places[j]] && account.taken[places[j]]
            &&& forall|k: int|
                0 <= k < disputes.len() && #[trigger] account.taken[k] ==> places.contains(k)
        }),
    decreases disputes.len(),
{
    let now = fitting_disputes(disputes, weights, limit);
    if disputes.len() == 0 {
        (
            Account { weights, sums: seq![now.weight], taken: Seq::empty() },
            Seq::empty(),
        )
    } else {
        let fewer = disputes.drop_last();
        let fewer_weights = weights.drop_last();
        let top = disputes.len() - 1;
        let before = fitting_disputes(fewer, fewer_weights, limit);
        let (account, places) = fitting_one_by_one(fewer, fewer_weights, limit);
        let takes = limit.all_gte(before.weight.saturating_add(weights.last()));
        let more = Account {
            weights,
            sums: account.sums.push(now.weight),
            taken: account.taken.push(takes),
        };
        let now_places = if takes {
            places.push(top)
        } else {
            places
        };
        assert(more.is_right(disputes.len(), limit)) by {
            assert forall|k: int| 0 <= k < disputes.len() implies {
                let time = capped(more.sums[k].ref_time + more.weights[k].ref_time);
                let size = capped(more.sums[k].proof_size + more.weights[k].proof_size);
                &&& #[trigger] more.taken[k] <==> time <= limit.ref_time && size
                    <= limit.proof_size
                &&& more.taken[k] ==> more.sums[k + 1].ref_time == time && more.sums[k
                    + 1].proof_size == size
                &&& !more.taken[k] ==> more.sums[k + 1] == more.sums[k]
            } by {
                if k < top {
                    assert(account.taken[k] == more.taken[k]);
                }
            }
        }
        assert forall|j: int| 0 <= j < now_places.len() implies 0 <= #[trigger] now_places[j]
            < disputes.len() && now.sets[j] == disputes[now_places[j]]
            && more.taken[now_places[j]] by {
            if j < places.len() {
                assert(0 <= places[j] < top);
                assert(account.taken[places[j]]);
            }
        }
        assert forall|k: int|
            0 <= k < disputes.len() && #[trigger] more.taken[k] implies now_places.contains(k) by {
            if k < top {
                assert(account.taken[k]);
                assert(now_places[places.index_of(k)] == k);
            } else {
                assert(now_places[places.len() as int] == k);
            }
        }
        (more, now_places)
    }
}

/// Which disputes are imported, in plain terms. If all of them together, weighed as the
/// runtime answers, exceed the limit in time or size, they are tried in order with a right
/// account, by the weight that the runtime answers for each; those that the account takes
/// are handed to the filter, and the account's end is returned. Otherwise all of them are
/// handed to the filter, and the weight that the runtime answers for what is left is
/// returned. What is left is every answer of the filter that is there, in order.
pub proof fn disputes_go_by_account<T: Config>(
    disputes: Seq<DisputeStatementSet>,
    filter: spec_fn(DisputeStatementSet, Option<CheckedDisputeStatementSet>) -> bool,
    limit: Weight,
    checked: Seq<CheckedDisputeStatementSet>,
    weight: Weight,
) -> (r: (Weight, Account, Filtering))
    requires
        limited_disputes::<T>(disputes, filter, limit, checked, weight),
    ensures
        ({
            let (given, account, filtering) = r;
            &&& exists|v: &Vec<DisputeStatementSet>|
                v@ == disputes && #[trigger] call_ensures(
                    <T::WeightInfo as WeightInfo>::multi_dispute_statement_sets_weight,
                    (v,),
                    given,
                )
            &&& filtering.leaves(disputes, filter, checked)
            &&& if given.ref_time > limit.ref_time || given.proof_size > limit.proof_size {
                &&& account.is_right(disputes.len(), limit)
                &&& forall|k: int|
                    0 <= k < disputes.len() ==> call_ensures(
                        <T::WeightInfo as WeightInfo>::dispute_statement_set_weight,
                        (&disputes[k],),
                        #[trigger] account.weights[k],
                    )
                &&& forall|k: int|
                    0 <= k < disputes.len() ==> (#[trigger] account.taken[k]
                        <==> filtering.handed.contains(k))
                &&& weight == account.sums[disputes.len() as int]
            } else {
                &&& filtering.handed.len() == disputes.len()
                &&& exists|v: &Vec<CheckedDisputeStatementSet>|
                    v@ == checked && #[trigger] call_ensures(
                        <T::WeightInfo as WeightInfo>::checked_multi_dispute_statement_sets_weight,
                        (v,),
                        weight,
                    )
            }
        }),
{
    let given = choose|given: Weight| #[trigger]
        weighs_disputes::<T>(disputes, given) && if given.any_gt(limit) {
            exists|weights: Seq<Weight>| #[trigger]
                weighs_each_dispute::<T>(disputes, weights) && {
                    let fitting = fitting_disputes(disputes, weights, limit);
                    &&& weight == fitting.weight
                    &&& filtered(filter, fitting.sets, checked)
                }
        } else {
            &&& filtered(filter, disputes, checked)
            &&& weighs_checked::<T>(checked, weight)
        };
    if given.any_gt(limit) {
        let weights = choose|weights: Seq<Weight>| #[trigger]
            weighs_each_dispute::<T>(disputes, weights) && {
                let fitting = fitting_disputes(disputes, weights, limit);
                &&& weight == fitting.weight
                &&& filtered(filter, fitting.sets, checked)
            };
        let sets = fitting_disputes(disputes, weights, limit).sets;
        let answers = choose|results: Seq<Option<CheckedDisputeStatementSet>>| #[trigger]
            filter_results(filter, sets, results) && checked == present(results);
        let (account, handed) = fitting_one_by_one(disputes, weights, limit);
        let passed = present_one_by_one(answers);
        let filtering = Filtering { handed, answers, passed };
        assert forall|k: int| 0 <= k < disputes.len() implies call_ensures(
            <T::WeightInfo as WeightInfo>::dispute_statement_set_weight,
            (&disputes[k],),
            #[trigger] account.weights[k],
        ) by {
            assert(weighs_dispute::<T>(disputes[k], weights[k]));
        }
        assert forall|j: int| 0 <= j < handed.len() implies 0 <= #[trigger] handed[j]
            < disputes.len() && filter(disputes[handed[j]], answers[j]) by {
            assert(filter(sets[j], answers[j]));
        }
        assert forall|k: int| 0 <= k < disputes.len() implies (#[trigger] account.taken[k]
            <==> handed.contains(k)) by {
            if handed.contains(k) {
                assert(account.taken[handed[handed.index_of(k)]]);
            }
        }
        assert(filtering.leaves(disputes, filter, checked));
        (given, account, filtering)
    } else {
        let answers = choose|results: Seq<Option<CheckedDisputeStatementSet>>| #[trigger]
            filter_results(filter, disputes, results) && checked == present(results);
        let handed = Seq::new(disputes.len(), |k: int| k);
        let passed = present_one_by_one(answers);
        let filtering = Filtering { handed, answers, passed };
        assert forall|j: int| 0 <= j < handed.len() implies 0 <= #[trigger] handed[j]
            < disputes.len() && filter(disputes[handed[j]], answers[j]) by {
            assert(filter(disputes[j], answers[j]));
        }
        (
            given,
            Account { weights: Seq::empty(), sums: Seq::empty(), taken: Seq::empty() },
            filtering,
        )
    }
}

/// Nothing is lost where everything fits and passes: if all disputes together are within
/// the limit, as the runtime answers, and the filter answers each set with something, as
/// many sets are left as there were, each an answer to the set at its place.
pub proof fn fitting_and_valid_disputes_are_all_imported<T: Config>(
    disputes: Seq<DisputeStatementSet>,
    filter: spec_fn(DisputeStatementSet, Option<CheckedDisputeStatementSet>) -> bool,
    limit: Weight,
    checked: Seq<CheckedDisputeStatementSet>,
    weight: Weight,
)
    requires
        limited_disputes::<T>(disputes, filter, limit, checked, weight),
        forall|v: &Vec<DisputeStatementSet>, w: Weight|
            v@ == disputes && #[trigger] call_ensures(
                <T::WeightInfo as WeightInfo>::multi_dispute_statement_sets_weight,
                (v,),
                w,
            ) ==> w.ref_time <= limit.ref_time && w.proof_size <= limit.proof_size,
        forall|set: DisputeStatementSet, answer: Option<CheckedDisputeStatementSet>| #[trigger]
            filter(set, answer) ==> answer is Some,
    ensures
        checked.len() == disputes.len(),
        forall|k: int| 0 <= k < disputes.len() ==> filter(disputes[k], Some(#[trigger] checked[k])),
{
    let (given, account, f) = disputes_go_by_account::<T>(disputes, filter, limit, checked, weight);
    let n = disputes.len() as int;
    consecutive(f.handed, n);
    assert forall|j: int| 0 <= j < n implies f.passed.contains(j) by {
        assert(filter(disputes[f.handed[j]], f.answers[j]));
        assert(f.answers[j] is Some);
    }
    all_places(f.passed, n);
    assert forall|k: int| 0 <= k < n implies filter(disputes[k], Some(#[trigger] checked[k])) by {
        assert(f.handed[k] == k);
        assert(f.passed[k] == k);
    }
}

/// As many places in order as there are below a bound are all of them.
proof fn consecutive(places: Seq<int>, n: int)
    requires
        in_order(places),
        places.len() == n,
        forall|j: int| 0 <= j < n ==> 0 <= #[trigger] places[j] < n,
    ensures
        forall|j: int| 0 <= j < n ==> #[trigger] places[j] == j,
{
    assert forall|j: int| 0 <= j < n implies #[trigger] places[j] >= j by {
        at_least(places, n, j);
    }
    assert forall|j: int| 0 <= j < n implies #[trigger] places[j] <= j by {
        at_most(places, n, j);
    }
}

proof fn at_least(places: Seq<int>, n: int, j: int)
    requires
        in_order(places),
        places.len() == n,
        forall|j: int| 0 <= j < n ==> 0 <= #[trigger] places[j] < n,
        0 <= j < n,
    ensures
        places[j] >= j,
    decreases j,
{
    if j > 0 {
        at_least(places, n, j - 1);
        assert(places[j - 1] < places[j]);
    } else {
        assert(0 <= places[j]);
    }
}

proof fn at_most(places: Seq<int>, n: int, j: int)
    requires
        in_order(places),
        places.len() == n,
        forall|j: int| 0 <= j < n ==> 0 <= #[trigger] places[j] < n,
        0 <= j < n,
    ensures
        places[j] <= j,
    decreases n - j,
{
    if j < n - 1 {
        at_most(places, n, j + 1);
        assert(places[j] < places[j + 1]);
    } else {
        assert(places[j] < n);
    }
}

/// Places in order that hold every number below a bound, and no other, are these numbers.
proof fn all_places(places: Seq<int>, n: int)
    requires
        0 <= n,
        in_order(places),
        forall|j: int| 0 <= j < places.len() ==> 0 <= #[trigger] places[j] < n,
        forall|j: int| 0 <= j < n ==> places.contains(j),
    ensures
        places.len() == n,
        forall|j: int| 0 <= j < n ==> #[trigger] places[j] == j,
{
    let numbers = Seq::new(n as nat, |j: int| j);
    assert forall|k: int| 0 <= k < places.len() implies numbers.contains(#[trigger] places[k]) by {
        assert(numbers[places[k]] == places[k]);
    }
    assert(numbers.no_duplicates());
    assert forall|i: int, j: int| 0 <= i < j < places.len() implies places[i] != places[j] by {
        assert(places[i] < places[j]);
    }
    assert forall|k: int| 0 <= k < numbers.len() implies places.contains(#[trigger] numbers[k]) by {
    }
    places_fit(places, numbers);
    places_fit(numbers, places);
    consecutive(places, n);
}

/// The answers of a filter function are its own.
pub proof fn answers_are_those_of_the_filter<
    F: Fn(DisputeStatementSet) -> Option<CheckedDisputeStatementSet>,
>(f: F, set: DisputeStatementSet, answer: Option<CheckedDisputeStatementSet>)
    ensures
        answers_of(f)(set, answer) <==> call_ensures(f, (set,), answer),
{
}

/// What is left of disputes without their marks: the sets, one by one.
pub proof fn sets_one_by_one(checked: Seq<CheckedDisputeStatementSet>, k: int)
    ensures
        sets_of(checked).len() == checked.len(),
        0 <= k < checked.len() ==> sets_of(checked)[k] == checked[k].set,
{
}

} // verus!
