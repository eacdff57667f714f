//! Random selection of what fits in a weight limit.

use crate::rng::{shuffle_outcome, SelectionRng};
use crate::weight::Weight;
use vstd::prelude::*;

verus! {

/// Whether indices stand in ascending order.
pub open spec fn ascending(s: Seq<usize>) -> bool {
    forall|i: int, j: int| 0 <= i <= j < s.len() ==> s[i] <= s[j]
}

/// The indices below `n` that are not preferred, in ascending order.
pub open spec fn not_preferred(n: nat, preferred: Seq<usize>) -> Seq<usize>
    decreases n,
{
    if n == 0 {
        Seq::empty()
    } else {
        let before = not_preferred((n - 1) as nat, preferred);
        if preferred.contains((n - 1) as usize) {
            before
        } else {
            before.push((n - 1) as usize)
        }
    }
}

/// The preferred indices that are below `n`.
pub open spec fn below(n: nat, preferred: Seq<usize>) -> Seq<usize> {
    preferred.filter(|i: usize| i < n)
}

/// The order in which a selection among `n` items tries them: the preferred ones
/// first, then the others, each part in random order.
pub open spec fn trial_order(n: nat, preferred: Seq<usize>, rng: SelectionRng) -> Seq<usize> {
    if n == 0 {
        Seq::empty()
    } else {
        below(n, rng.shuffled(preferred)) + rng.after_shuffle(preferred).shuffled(
            not_preferred(n, preferred),
        )
    }
}

/// How many trials of a selection are spent on preferred items: the first ones.
pub open spec fn preferred_trials(n: nat, preferred: Seq<usize>, rng: SelectionRng) -> nat {
    if n == 0 {
        0
    } else {
        below(n, rng.shuffled(preferred)).len()
    }
}

/// Whether a selection among `n` items tries all of them, none but them and the
/// preferred ones first. Where no index is preferred twice, none is tried twice.
pub open spec fn tries_everything(n: nat, preferred: Seq<usize>, rng: SelectionRng) -> bool {
    let order = trial_order(n, preferred, rng);
    &&& forall|i: usize| i < n ==> #[trigger] order.contains(i)
    &&& forall|k: int| 0 <= k < order.len() ==> #[trigger] order[k] < n
    &&& forall|k: int|
        0 <= k < order.len() ==> (preferred.contains(#[trigger] order[k]) <==> k
            < preferred_trials(n, preferred, rng))
    &&& preferred.no_duplicates() ==> order.no_duplicates()
}

/// The generator after such a selection. Where there is nothing to select from,
/// nothing is drawn.
pub open spec fn rng_after_selection(
    n: nat,
    preferred: Seq<usize>,
    rng: SelectionRng,
) -> SelectionRng {
    if n == 0 {
        rng
    } else {
        rng.after_shuffle(preferred).after_shuffle(not_preferred(n, preferred))
    }
}

/// What a selection has taken.
pub struct Picked {
    /// The weight of what was taken, added up.
    pub weight: Weight,
    /// What was taken, in the order of taking.
    pub indices: Seq<usize>,
}

/// Tries items in order and takes each that still fits in the limit.
pub open spec fn pick_fitting(order: Seq<usize>, weights: Seq<Weight>, limit: Weight) -> Picked
    decreases order.len(),
{
    if order.len() == 0 {
        Picked { weight: Weight::zero(), indices: Seq::empty() }
    } else {
        let before = pick_fitting(order.drop_last(), weights.drop_last(), limit);
        let updated = before.weight.saturating_add(weights.last());
        if updated.any_gt(limit) {
            before
        } else {
            Picked { weight: updated, indices: before.indices.push(order.last()) }
        }
    }
}

/// Whether each of `weights` is a weight of the item that stands at the same place
/// in `order`, going by `weighs`.
pub open spec fn weighed(
    weighs: spec_fn(int, Weight) -> bool,
    order: Seq<usize>,
    weights: Seq<Weight>,
) -> bool {
    &&& weights.len() == order.len()
    &&& forall|k: int| 0 <= k < order.len() ==> weighs(order[k] as int, #[trigger] weights[k])
}

/// Whether a selection that tries items in the given order ends with the given
/// weight and the given indices, for some weights of the items.
pub open spec fn selects(
    weighs: spec_fn(int, Weight) -> bool,
    order: Seq<usize>,
    limit: Weight,
    weight: Weight,
    indices: Seq<usize>,
) -> bool {
    exists|weights: Seq<Weight>| #[trigger]
        weighed(weighs, order, weights) && {
            let picked = pick_fitting(order, weights, limit);
            &&& weight == picked.weight
            &&& ascending(indices)
            &&& indices.to_multiset() == picked.indices.to_multiset()
        }
}

/// Whether an item, by a weight that it has, does not fit behind what was taken.
pub open spec fn does_not_fit(
    weighs: spec_fn(int, Weight) -> bool,
    item: int,
    taken: Weight,
    limit: Weight,
) -> bool {
    exists|w: Weight| #[trigger] weighs(item, w) && taken.saturating_add(w).any_gt(limit)
}

/// Puts an index in its place among ascending ones.
fn insert_ascending(v: &mut Vec<usize>, x: usize)
    requires
        ascending(old(v)@),
    ensures
        ascending(final(v)@),
        final(v)@.to_multiset() == old(v)@.to_multiset().insert(x),
{
    let mut i: usize = v.len();
    while i > 0 && v[i - 1] > x
        invariant
            i <= v@.len(),
            ascending(v@),
            forall|j: int| i <= j < v@.len() ==> v@[j] > x,
            v@ == old(v)@,
        decreases i,
    {
        i = i - 1;
    }
    proof {
        vstd::seq_lib::to_multiset_insert(v@, i as int, x);
    }
    v.insert(i, x);
}

/// The given indices in ascending order.
pub fn sort_indices(v: Vec<usize>) -> (r: Vec<usize>)
    ensures
        ascending(r@),
        r@.to_multiset() == v@.to_multiset(),
{
    let mut r: Vec<usize> = Vec::new();
    let mut i: usize = 0;
    assert(v@.take(0) =~= r@);
    while i < v.len()
        invariant
            i <= v@.len(),
            ascending(r@),
            r@.to_multiset() == v@.take(i as int).to_multiset(),
        decreases v@.len() - i,
    {
        insert_ascending(&mut r, v[i]);
        proof {
            assert(v@.take(i as int + 1) =~= v@.take(i as int).push(v@[i as int]));
            vstd::seq_lib::to_multiset_build(v@.take(i as int), v@[i as int]);
        }
        i = i + 1;
    }
    assert(v@.take(i as int) =~= v@);
    r
}

/// Whether a list of indices holds a given one.
fn contains_index(v: &Vec<usize>, x: usize) -> (b: bool)
    ensures
        b == v@.contains(x),
{
    let mut i: usize = 0;
    while i < v.len()
        invariant
            i <= v@.len(),
            forall|j: int| 0 <= j < i ==> v@[j] != x,
        decreases v@.len() - i,
    {
        if v[i] == x {
            return true;
        }
        i = i + 1;
    }
    false
}

/// The indices below `n` that are not among the preferred ones.
fn collect_not_preferred(n: usize, preferred: &Vec<usize>) -> (r: Vec<usize>)
    ensures
        r@ == not_preferred(n as nat, preferred@),
{
    let mut r: Vec<usize> = Vec::new();
    let mut i: usize = 0;
    while i < n
        invariant
            i <= n,
            r@ == not_preferred(i as nat, preferred@),
        decreases n - i,
    {
        if !contains_index(preferred, i) {
            r.push(i);
        }
        i = i + 1;
    }
    r
}

/// The indices that are not preferred are below the bound, not among the preferred
/// ones, and none of them occurs twice.
pub proof fn not_preferred_members(n: nat, preferred: Seq<usize>)
    requires
        n <= usize::MAX,
    ensures
        forall|x: usize| #[trigger]
            not_preferred(n, preferred).contains(x) <==> x < n && !preferred.contains(x),
        not_preferred(n, preferred).no_duplicates(),
    decreases n,
{
    if n > 0 {
        let m = (n - 1) as nat;
        let before = not_preferred(m, preferred);
        let now = not_preferred(n, preferred);
        not_preferred_members(m, preferred);
        assert forall|x: usize| #[trigger] now.contains(x) <==> x < n && !preferred.contains(
            x,
        ) by {
            if now.contains(x) {
                let k = now.index_of(x);
                if k < before.len() {
                    assert(before[k] == x);
                    assert(before.contains(x));
                }
            }
            if x < n && !preferred.contains(x) {
                if x < m {
                    assert(before.contains(x));
                    let k = before.index_of(x);
                    assert(now[k] == x);
                } else {
                    assert(now[before.len() as int] == x);
                }
            }
        }
        assert forall|i: int, j: int| 0 <= i < now.len() && 0 <= j < now.len() && i
            != j implies now[i] != now[j] by {
            if i < before.len() {
                assert(before.contains(before[i]));
            }
            if j < before.len() {
                assert(before.contains(before[j]));
            }
        }
    }
}

proof fn pick_fitting_step(
    order: Seq<usize>,
    weights: Seq<Weight>,
    limit: Weight,
    index: usize,
    weight: Weight,
)
    requires
        order.len() == weights.len(),
    ensures
        ({
            let before = pick_fitting(order, weights, limit);
            let updated = before.weight.saturating_add(weight);
            pick_fitting(order.push(index), weights.push(weight), limit) == if updated.any_gt(
                limit,
            ) {
                before
            } else {
                Picked { weight: updated, indices: before.indices.push(index) }
            }
        }),
{
    assert(order.push(index).drop_last() =~= order);
    assert(weights.push(weight).drop_last() =~= weights);
}

/// The weight of what was taken never exceeds the limit.
pub proof fn selection_stays_within_limit(order: Seq<usize>, weights: Seq<Weight>, limit: Weight)
    ensures
        pick_fitting(order, weights, limit).weight.all_lte(limit),
    decreases order.len(),
{
    if order.len() > 0 {
        selection_stays_within_limit(order.drop_last(), weights.drop_last(), limit);
    }
}

/// Only what was tried is taken, and nothing more often than it was tried.
pub proof fn picked_were_tried(order: Seq<usize>, weights: Seq<Weight>, limit: Weight)
    ensures
        forall|x: usize| #[trigger]
            pick_fitting(order, weights, limit).indices.contains(x) ==> order.contains(x),
        order.no_duplicates() ==> pick_fitting(order, weights, limit).indices.no_duplicates(),
    decreases order.len(),
{
    if order.len() > 0 {
        let shorter = order.drop_last();
        let before = pick_fitting(shorter, weights.drop_last(), limit).indices;
        let now = pick_fitting(order, weights, limit).indices;
        picked_were_tried(shorter, weights.drop_last(), limit);
        assert forall|x: usize| #[trigger] now.contains(x) implies order.contains(x) by {
            let k = now.index_of(x);
            if k < before.len() {
                assert(before[k] == x);
                assert(before.contains(x));
                assert(shorter.contains(x));
                assert(order[shorter.index_of(x)] == x);
            } else {
                assert(order[order.len() - 1] == x);
            }
        }
        if order.no_duplicates() {
            assert forall|i: int, j: int| 0 <= i < j < now.len() implies now[i] != now[j] by {
                if j == before.len() {
                    assert(before.contains(before[i]));
                    assert(shorter.contains(before[i]));
                    let at = shorter.index_of(before[i]);
                    assert(order[at] != order[order.len() - 1]);
                }
            }
        }
    }
}

/// Whatever was tried and left out does not fit in what the selection leaves of
/// the limit.
pub proof fn left_out_does_not_fit(
    order: Seq<usize>,
    weights: Seq<Weight>,
    limit: Weight,
    k: int,
)
    requires
        weights.len() == order.len(),
        0 <= k < order.len(),
        !pick_fitting(order, weights, limit).indices.contains(order[k]),
    ensures
        pick_fitting(order, weights, limit).weight.saturating_add(weights[k]).any_gt(limit),
    decreases order.len(),
{
    let before = pick_fitting(order.drop_last(), weights.drop_last(), limit);
    let now = pick_fitting(order, weights, limit);
    if k < order.len() - 1 {
        if before.indices.contains(order[k]) {
            let at = before.indices.index_of(order[k]);
            assert(now.indices[at] == order[k]);
        }
        left_out_does_not_fit(order.drop_last(), weights.drop_last(), limit, k);
    } else if !before.weight.saturating_add(weights.last()).any_gt(limit) {
        assert(now.indices[now.indices.len() - 1] == order[k]);
    }
}

proof fn same_members(a: Seq<usize>, b: Seq<usize>, x: usize)
    requires
        a.to_multiset() == b.to_multiset(),
        a.contains(x),
    ensures
        b.contains(x),
{
    vstd::seq_lib::to_multiset_contains(a, x);
    vstd::seq_lib::to_multiset_contains(b, x);
}

proof fn distinct_after_reordering(a: Seq<usize>, b: Seq<usize>)
    requires
        a.to_multiset() == b.to_multiset(),
        a.no_duplicates(),
    ensures
        b.no_duplicates(),
{
    a.lemma_multiset_has_no_duplicates();
    b.lemma_multiset_has_no_duplicates_conv();
}

/// Where no index is preferred twice, none is tried twice.
proof fn trial_order_distinct(
    n: nat,
    preferred: Seq<usize>,
    preferred_order: Seq<usize>,
    other_order: Seq<usize>,
)
    requires
        n <= usize::MAX,
        preferred.no_duplicates(),
        preferred_order.to_multiset() == preferred.to_multiset(),
        other_order.to_multiset() == not_preferred(n, preferred).to_multiset(),
    ensures
        (below(n, preferred_order) + other_order).no_duplicates(),
{
    let first = below(n, preferred_order);
    let all = first + other_order;
    let keep = |i: usize| i < n;
    not_preferred_members(n, preferred);
    distinct_after_reordering(preferred, preferred_order);
    distinct_after_reordering(not_preferred(n, preferred), other_order);
    filter_members(preferred_order, keep);
    assert forall|i: int, j: int| 0 <= i < j < all.len() implies all[i] != all[j] by {
        if i < first.len() && j >= first.len() {
            same_members(preferred_order, preferred, first[i]);
            let y = other_order[j - first.len()];
            same_members(other_order, not_preferred(n, preferred), y);
        }
    }
}

/// A trial order holds every item, the preferred ones first.
proof fn trial_order_covers(
    n: nat,
    preferred: Seq<usize>,
    preferred_order: Seq<usize>,
    other_order: Seq<usize>,
)
    requires
        n <= usize::MAX,
        preferred_order.to_multiset() == preferred.to_multiset(),
        other_order.to_multiset() == not_preferred(n, preferred).to_multiset(),
    ensures
        ({
            let first = below(n, preferred_order);
            let order = first + other_order;
            &&& forall|i: usize| i < n ==> #[trigger] order.contains(i)
            &&& forall|k: int| 0 <= k < order.len() ==> #[trigger] order[k] < n
            &&& forall|k: int|
                0 <= k < order.len() ==> (preferred.contains(#[trigger] order[k]) <==> k
                    < first.len())
        }),
{
    let first = below(n, preferred_order);
    let order = first + other_order;
    let keep = |i: usize| i < n;
    not_preferred_members(n, preferred);
    filter_members(preferred_order, keep);
    assert forall|i: usize| i < n implies #[trigger] order.contains(i) by {
        if preferred.contains(i) {
            same_members(preferred, preferred_order, i);
            filter_holds(preferred_order, keep, i);
            assert(order[first.index_of(i)] == i);
        } else {
            same_members(not_preferred(n, preferred), other_order, i);
            assert(order[first.len() + other_order.index_of(i)] == i);
        }
    }
    assert forall|k: int| 0 <= k < order.len() implies #[trigger] order[k] < n && (
    preferred.contains(order[k]) <==> k < first.len()) by {
        if k < first.len() {
            assert(first[k] == order[k]);
            same_members(preferred_order, preferred, first[k]);
        } else {
            let x = other_order[k - first.len()];
            assert(other_order.contains(x));
            same_members(other_order, not_preferred(n, preferred), x);
        }
    }
}

proof fn filter_holds(s: Seq<usize>, keep: spec_fn(usize) -> bool, x: usize)
    requires
        s.contains(x),
        keep(x),
    ensures
        s.filter(keep).contains(x),
    decreases s.len(),
{
    reveal(Seq::filter);
    let t = s.drop_last();
    let before = t.filter(keep);
    let now = s.filter(keep);
    if s.last() == x {
        assert(now[now.len() - 1] == x);
    } else {
        assert(t[s.index_of(x)] == x);
        filter_holds(t, keep, x);
        assert(now[before.index_of(x)] == x);
    }
}

/// What is taken of the first `m` items that are tried does not depend on what is tried
/// after them: it is taken first, and each of them is taken in the end exactly if it is
/// taken among them alone.
pub proof fn earlier_trials_are_not_displaced(
    order: Seq<usize>,
    weights: Seq<Weight>,
    limit: Weight,
    m: int,
)
    requires
        weights.len() == order.len(),
        0 <= m <= order.len(),
        order.no_duplicates(),
    ensures
        ({
            let first = pick_fitting(order.take(m), weights.take(m), limit).indices;
            let all = pick_fitting(order, weights, limit).indices;
            &&& first.len() <= all.len()
            &&& first == all.take(first.len() as int)
            &&& forall|j: int|
                0 <= j < m ==> (all.contains(#[trigger] order[j]) <==> first.contains(order[j]))
        }),
    decreases order.len(),
{
    let first = pick_fitting(order.take(m), weights.take(m), limit).indices;
    let all = pick_fitting(order, weights, limit).indices;
    if m == order.len() {
        assert(order.take(m) =~= order);
        assert(weights.take(m) =~= weights);
        assert(first =~= all.take(first.len() as int));
    } else {
        let shorter = order.drop_last();
        let fewer = weights.drop_last();
        earlier_trials_are_not_displaced(shorter, fewer, limit, m);
        assert(order.take(m) =~= shorter.take(m));
        assert(weights.take(m) =~= fewer.take(m));
        let before = pick_fitting(shorter, fewer, limit).indices;
        assert(before.take(first.len() as int) =~= all.take(first.len() as int));
        assert forall|j: int| 0 <= j < m implies (all.contains(#[trigger] order[j])
            <==> first.contains(order[j])) by {
            assert(shorter[j] == order[j]);
            if all.contains(order[j]) {
                let at = all.index_of(order[j]);
                if at < before.len() {
                    assert(before[at] == order[j]);
                } else {
                    assert(order[j] == order[order.len() - 1]);
                }
            }
            if first.contains(order[j]) {
                assert(before.contains(order[j]));
                assert(all[before.index_of(order[j])] == order[j]);
            }
        }
    }
}

proof fn filter_members(s: Seq<usize>, keep: spec_fn(usize) -> bool)
    ensures
        forall|i: int|
            0 <= i < s.filter(keep).len() ==> s.contains(#[trigger] s.filter(keep)[i]) && keep(
                s.filter(keep)[i],
            ),
        s.no_duplicates() ==> s.filter(keep).no_duplicates(),
    decreases s.len(),
{
    reveal(Seq::filter);
    if s.len() > 0 {
        let t = s.drop_last();
        let before = t.filter(keep);
        let now = s.filter(keep);
        filter_members(t, keep);
        assert forall|i: int| 0 <= i < now.len() implies s.contains(#[trigger] now[i]) && keep(
            now[i],
        ) by {
            if i < before.len() {
                assert(t.contains(before[i]));
                assert(s[t.index_of(before[i])] == now[i]);
            } else {
                assert(s[s.len() - 1] == now[i]);
            }
        }
        if s.no_duplicates() {
            assert forall|i: int| 0 <= i < before.len() implies before[i] != s.last() by {
                assert(t.contains(before[i]));
                assert(s[t.index_of(before[i])] == before[i]);
            }
        }
    }
}

/// Selects a random subset, with preference for certain indices.
///
/// Items are tried until all were tried; an item is taken if it still fits in what
/// is left of the limit. Preferred indices that point at no item are skipped.
///
/// Returns the weight of all selected items, and their indices in ascending order.
pub fn random_sel<X, F: Fn(&X) -> Weight>(
    rng: &mut SelectionRng,
    selectables: &[X],
    preferred_indices: Vec<usize>,
    weight_fn: F,
    weight_limit: Weight,
) -> (r: (Weight, Vec<usize>))
    requires
        forall|i: int|
            0 <= i < selectables@.len() ==> call_requires(
                weight_fn,
                (&#[trigger] selectables@[i],),
            ),
    ensures
        *final(rng) == rng_after_selection(
            selectables@.len(),
            preferred_indices@,
            *old(rng),
        ),
        selects(
            |i: int, w: Weight| call_ensures(weight_fn, (&selectables@[i],), w),
            trial_order(selectables@.len(), preferred_indices@, *old(rng)),
            weight_limit,
            r.0,
            r.1@,
        ),
        r.0.all_lte(weight_limit),
        tries_everything(selectables@.len(), preferred_indices@, *old(rng)),
        forall|i: usize|
            i < selectables@.len() && !#[trigger] r.1@.contains(i) ==> does_not_fit(
                |i: int, w: Weight| call_ensures(weight_fn, (&selectables@[i],), w),
                i as int,
                r.0,
                weight_limit,
            ),
        forall|k: int| 0 <= k < r.1@.len() ==> #[trigger] r.1@[k] < selectables@.len(),
        preferred_indices@.no_duplicates() ==> r.1@.no_duplicates(),
{
    let n = selectables.len();
    let ghost weighs = |i: int, w: Weight| call_ensures(weight_fn, (&selectables@[i],), w);
    let ghost given = preferred_indices@;
    let ghost order = trial_order(n as nat, preferred_indices@, *old(rng));
    if n == 0 {
        let indices: Vec<usize> = Vec::new();
        proof {
            assert(weighed(weighs, order, Seq::<Weight>::empty()));
        }
        return (Weight::zero(), indices);
    }
    let others = collect_not_preferred(n, &preferred_indices);
    let ghost others_seq = others@;

    let mut picked: Vec<usize> = Vec::new();
    let mut weight_acc = Weight::zero();
    let ghost mut weights: Seq<Weight> = Seq::empty();

    let preferred = rng.shuffle(preferred_indices);
    let mut k: usize = 0;
    proof {
        assert(preferred@.take(0) =~= Seq::empty());
        assert(below(n as nat, preferred@.take(0)) =~= Seq::empty());
    }
    while k < preferred.len()
        invariant
            k <= preferred@.len(),
            n == selectables@.len(),
            weighs == (|i: int, w: Weight| call_ensures(weight_fn, (&selectables@[i],), w)),
            forall|i: int|
                0 <= i < selectables@.len() ==> call_requires(
                    weight_fn,
                    (&#[trigger] selectables@[i],),
                ),
            weighed(weighs, below(n as nat, preferred@.take(k as int)), weights),
            (Picked { weight: weight_acc, indices: picked@ }) == pick_fitting(
                below(n as nat, preferred@.take(k as int)),
                weights,
                weight_limit,
            ),
        decreases preferred@.len() - k,
    {
        let ghost tried = below(n as nat, preferred@.take(k as int));
        let idx = preferred[k];
        proof {
            assert(preferred@.take(k as int + 1) =~= preferred@.take(k as int).push(idx));
            preferred@.take(k as int).lemma_filter_push(idx, |i: usize| i < n as nat);
        }
        if idx < n {
            let weight = weight_fn(&selectables[idx]);
            let updated = weight_acc.saturating_add(weight);
            proof {
                pick_fitting_step(tried, weights, weight_limit, idx, weight);
                weights = weights.push(weight);
            }
            if !updated.any_gt(weight_limit) {
                weight_acc = updated;
                picked.push(idx);
            }
        }
        k = k + 1;
    }
    assert(preferred@.take(k as int) =~= preferred@);

    let ghost first = below(n as nat, preferred@);
    let rest = rng.shuffle(others);
    proof {
        assert forall|j: int| 0 <= j < rest@.len() implies #[trigger] rest@[j] < n by {
            not_preferred_members(n as nat, given);
            vstd::seq_lib::to_multiset_contains(rest@, rest@[j]);
            vstd::seq_lib::to_multiset_contains(others_seq, rest@[j]);
            assert(others_seq.contains(rest@[j]));
        }
    }
    let mut k: usize = 0;
    proof {
        assert(first + rest@.take(0) =~= first);
    }
    while k < rest.len()
        invariant
            k <= rest@.len(),
            n == selectables@.len(),
            weighs == (|i: int, w: Weight| call_ensures(weight_fn, (&selectables@[i],), w)),
            forall|j: int| 0 <= j < rest@.len() ==> #[trigger] rest@[j] < n,
            forall|i: int|
                0 <= i < selectables@.len() ==> call_requires(
                    weight_fn,
                    (&#[trigger] selectables@[i],),
                ),
            weighed(weighs, first + rest@.take(k as int), weights),
            (Picked { weight: weight_acc, indices: picked@ }) == pick_fitting(
                first + rest@.take(k as int),
                weights,
                weight_limit,
            ),
        decreases rest@.len() - k,
    {
        let ghost tried = first + rest@.take(k as int);
        let idx = rest[k];
        proof {
            assert(first + rest@.take(k as int + 1) =~= tried.push(idx));
        }
        let weight = weight_fn(&selectables[idx]);
        let updated = weight_acc.saturating_add(weight);
        proof {
            pick_fitting_step(tried, weights, weight_limit, idx, weight);
            weights = weights.push(weight);
        }
        if !updated.any_gt(weight_limit) {
            weight_acc = updated;
            picked.push(idx);
        }
        k = k + 1;
    }
    proof {
        assert(rest@.take(k as int) =~= rest@);
        assert(first + rest@ =~= order);
        assert(weighed(weighs, order, weights));
        selection_stays_within_limit(order, weights, weight_limit);
    }

    // The order of the items is kept.
    let indices = sort_indices(picked);
    proof {
        trial_order_covers(n as nat, given, preferred@, rest@);
        if given.no_duplicates() {
            trial_order_distinct(n as nat, given, preferred@, rest@);
        }
        assert(tries_everything(n as nat, given, *old(rng)));
        assert forall|i: usize| i < n && !#[trigger] indices@.contains(i) implies does_not_fit(
            weighs,
            i as int,
            weight_acc,
            weight_limit,
        ) by {
            assert(order.contains(i));
            let at = order.index_of(i);
            if picked@.contains(i) {
                same_members(picked@, indices@, i);
            }
            left_out_does_not_fit(order, weights, weight_limit, at);
            assert(weighs(i as int, weights[at]));
        }
        picked_were_tried(order, weights, weight_limit);
        assert forall|j: int| 0 <= j < indices@.len() implies #[trigger] indices@[j] < n by {
            same_members(indices@, picked@, indices@[j]);
            assert(pick_fitting(order, weights, weight_limit).indices.contains(indices@[j]));
            assert(order[order.index_of(indices@[j])] == indices@[j]);
        }
        if given.no_duplicates() {
            distinct_after_reordering(picked@, indices@);
        }
    }
    (weight_acc, indices)
}

/// A number held down to what a `u64` can hold.
pub open spec fn capped(n: int) -> int {
    if n <= 0xffff_ffff_ffff_ffff {
        n
    } else {
        0xffff_ffff_ffff_ffff
    }
}

/// An account of what is taken of things that come one after the other: their weights,
/// how much was taken before each of them and in the end, and which of them are taken.
pub struct Account {
    pub weights: Seq<Weight>,
    pub sums: Seq<Weight>,
    pub taken: Seq<bool>,
}

impl Account {
    /// Whether the account is right: it starts at nothing, and each thing is taken, and
    /// then added, exactly if with it neither time nor size exceeds the limit.
    pub open spec fn is_right(self, n: nat, limit: Weight) -> bool {
        &&& self.weights.len() == n
        &&& self.sums.len() == n + 1
        &&& self.taken.len() == n
        &&& self.sums[0].ref_time == 0
        &&& self.sums[0].proof_size == 0
        &&& forall|k: int|
            #![trigger self.taken[k]]
            0 <= k < n ==> {
                let time = capped(self.sums[k].ref_time + self.weights[k].ref_time);
                let size = capped(self.sums[k].proof_size + self.weights[k].proof_size);
                &&& self.taken[k] <==> time <= limit.ref_time && size <= limit.proof_size
                &&& self.taken[k] ==> self.sums[k + 1].ref_time == time && self.sums[k
                    + 1].proof_size == size
                &&& !self.taken[k] ==> self.sums[k + 1] == self.sums[k]
            }
    }
}

proof fn picking_account(order: Seq<usize>, weights: Seq<Weight>, limit: Weight) -> (account:
    Account)
    requires
        weights.len() == order.len(),
        order.no_duplicates(),
    ensures
        account.weights == weights,
        account.is_right(order.len(), limit),
        account.sums.last() == pick_fitting(order, weights, limit).weight,
        forall|k: int|
            0 <= k < order.len() ==> (pick_fitting(order, weights, limit).indices.contains(
                #[trigger] order[k],
            ) <==> account.taken[k]),
    decreases order.len(),
{
    let now = pick_fitting(order, weights, limit);
    if order.len() == 0 {
        Account { weights, sums: seq![now.weight], taken: Seq::empty() }
    } else {
        let shorter = order.drop_last();
        let fewer = weights.drop_last();
        let top = order.len() - 1;
        let before = pick_fitting(shorter, fewer, limit);
        let account = picking_account(shorter, fewer, limit);
        let takes = !before.weight.saturating_add(weights.last()).any_gt(limit);
        let more = Account {
            weights,
            sums: account.sums.push(now.weight),
            taken: account.taken.push(takes),
        };
        picked_were_tried(shorter, fewer, limit);
        assert forall|k: int| 0 <= k < order.len() implies (now.indices.contains(
            #[trigger] order[k],
        ) <==> more.taken[k]) by {
            if k < top {
                assert(shorter[k] == order[k]);
                assert(account.taken[k] == more.taken[k]);
                if before.indices.contains(order[k]) {
                    assert(now.indices[before.indices.index_of(order[k])] == order[k]);
                }
                if now.indices.contains(order[k]) {
                    let at = now.indices.index_of(order[k]);
                    if at < before.indices.len() {
                        assert(before.indices[at] == order[k]);
                    } else {
                        assert(order[k] == order[top]);
                    }
                }
            } else {
                if takes {
                    assert(now.indices[before.indices.len() as int] == order[top]);
                } else if now.indices.contains(order[top]) {
                    assert(shorter.contains(order[top]));
                    assert(order[shorter.index_of(order[top])] == order[top]);
                }
            }
        }
        assert(more.is_right(order.len(), limit)) by {
            assert forall|k: int| 0 <= k < order.len() implies {
                let time = capped(more.sums[k].ref_time + more.weights[k].ref_time);
                let size = capped(more.sums[k].proof_size + more.weights[k].proof_size);
                &&& #[trigger] more.taken[k] <==> time <= limit.ref_time && size
                    <= limit.proof_size
                &&& more.taken[k] ==> more.sums[k + 1].ref_time == time && more.sums[k
                    + 1].proof_size == size
                &&& !more.taken[k] ==> more.sums[k + 1] == more.sums[k]
            } by {
                if k < top {
                    assert(account.taken[k] == more.taken[k]);
                }
            }
        }
        more
    }
}

/// A selection keeps a right account of the items in the order in which they are tried, by
/// weights that they have. It selects, in ascending order, exactly the items that the
/// account takes, and returns what the account ends with.
pub proof fn selection_goes_by_account(
    weighs: spec_fn(int, Weight) -> bool,
    order: Seq<usize>,
    limit: Weight,
    weight: Weight,
    indices: Seq<usize>,
) -> (account: Account)
    requires
        selects(weighs, order, limit, weight, indices),
        order.no_duplicates(),
    ensures
        account.is_right(order.len(), limit),
        forall|k: int|
            0 <= k < order.len() ==> weighs(order[k] as int, #[trigger] account.weights[k]),
        weight == account.sums[order.len() as int],
        forall|k: int|
            0 <= k < order.len() ==> (indices.contains(#[trigger] order[k]) <==> account.taken[k]),
        forall|j: int| 0 <= j < indices.len() ==> order.contains(#[trigger] indices[j]),
        forall|i: int, j: int| 0 <= i < j < indices.len() ==> indices[i] < indices[j],
{
    let weights = choose|weights: Seq<Weight>| #[trigger]
        weighed(weighs, order, weights) && {
            let picked = pick_fitting(order, weights, limit);
            &&& weight == picked.weight
            &&& ascending(indices)
            &&& indices.to_multiset() == picked.indices.to_multiset()
        };
    let picked = pick_fitting(order, weights, limit).indices;
    let account = picking_account(order, weights, limit);
    picked_were_tried(order, weights, limit);
    distinct_after_reordering(picked, indices);
    assert forall|k: int| 0 <= k < order.len() implies (indices.contains(#[trigger] order[k])
        <==> account.taken[k]) by {
        if indices.contains(order[k]) {
            same_members(indices, picked, order[k]);
        }
        if picked.contains(order[k]) {
            same_members(picked, indices, order[k]);
        }
    }
    assert forall|j: int| 0 <= j < indices.len() implies order.contains(#[trigger] indices[j]) by {
        assert(indices.contains(indices[j]));
        same_members(indices, picked, indices[j]);
    }
    assert forall|i: int, j: int| 0 <= i < j < indices.len() implies indices[i] < indices[j] by {
        assert(indices[i] <= indices[j]);
        assert(indices[i] != indices[j]);
    }
    account
}

/// In which order a selection tries items: first the preferred ones among them, shuffled,
/// then the others, which are all others in ascending order, shuffled. The generator is
/// used for the one shuffle and then for the other, and for nothing else.
pub proof fn trial_order_is_shuffled(n: nat, preferred: Seq<usize>, rng: SelectionRng) -> (others:
    Seq<usize>)
    requires
        n <= usize::MAX,
    ensures
        forall|x: usize| #[trigger] others.contains(x) <==> x < n && !preferred.contains(x),
        forall|i: int, j: int| 0 <= i < j < others.len() ==> others[i] < others[j],
        n == 0 ==> trial_order(n, preferred, rng).len() == 0 && rng_after_selection(
            n,
            preferred,
            rng,
        ) == rng,
        n > 0 ==> ({
            let (first, between) = shuffle_outcome(rng.seed@, rng.word_pos, preferred);
            let (second, after) = shuffle_outcome(rng.seed@, between, others);
            &&& trial_order(n, preferred, rng) == first.filter(|i: usize| i < n) + second
            &&& rng_after_selection(n, preferred, rng).seed == rng.seed
            &&& rng_after_selection(n, preferred, rng).word_pos == after
        }),
{
    let others = not_preferred(n, preferred);
    not_preferred_members(n, preferred);
    not_preferred_ascending(n, preferred);
    others
}

proof fn not_preferred_ascending(n: nat, preferred: Seq<usize>)
    requires
        n <= usize::MAX,
    ensures
        forall|i: int, j: int|
            0 <= i < j < not_preferred(n, preferred).len() ==> not_preferred(n, preferred)[i]
                < not_preferred(n, preferred)[j],
    decreases n,
{
    if n > 0 {
        let m = (n - 1) as nat;
        let before = not_preferred(m, preferred);
        let now = not_preferred(n, preferred);
        not_preferred_ascending(m, preferred);
        not_preferred_members(m, preferred);
        assert forall|i: int, j: int| 0 <= i < j < now.len() implies now[i] < now[j] by {
            if j == before.len() {
                assert(before.contains(before[i]));
            }
        }
    }
}

} // verus!
