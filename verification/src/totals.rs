//! Weights added up.

use crate::selection::{pick_fitting, Picked};
use crate::weight::Weight;
use vstd::prelude::*;

verus! {

/// Adds the weight of an item.
pub open spec fn adding<X>(each: spec_fn(X) -> Weight) -> spec_fn(Weight, X) -> Weight {
    |sum: Weight, item: X| sum.saturating_add(each(item))
}

/// The weight of items, one by one, added up.
pub open spec fn total<X>(items: Seq<X>, each: spec_fn(X) -> Weight) -> Weight {
    items.fold_left(Weight::zero(), adding(each))
}

/// Adding up does not depend on the order.
pub proof fn total_of_permutation<X>(a: Seq<X>, b: Seq<X>, each: spec_fn(X) -> Weight)
    requires
        a.to_multiset() == b.to_multiset(),
    ensures
        total(a, each) == total(b, each),
{
    let f = adding(each);
    assert forall|x: X, y: X, v: Weight| #[trigger] f(f(v, x), y) == f(f(v, y), x) by {
    }
    vstd::seq_lib::lemma_fold_left_permutation(a, b, f, Weight::zero());
}

/// Adding up what one list holds and then what another holds.
pub proof fn total_of_sum<X>(a: Seq<X>, b: Seq<X>, each: spec_fn(X) -> Weight)
    ensures
        total(a + b, each) == total(a, each).saturating_add(total(b, each)),
    decreases b.len(),
{
    if b.len() == 0 {
        assert(a + b =~= a);
    } else {
        total_of_sum(a, b.drop_last(), each);
        assert((a + b).drop_last() =~= a + b.drop_last());
    }
}

/// Adding up by lists of items, or item by item.
pub proof fn total_of_flattened<X>(lists: Seq<Seq<X>>, each: spec_fn(X) -> Weight)
    ensures
        total(lists.flatten(), each) == total(lists, |list: Seq<X>| total(list, each)),
    decreases lists.len(),
{
    lists.lemma_flatten_and_flatten_alt_are_equivalent();
    if lists.len() == 0 {
        assert(lists.flatten_alt() =~= Seq::empty());
    } else {
        let fewer = lists.drop_last();
        total_of_flattened(fewer, each);
        fewer.lemma_flatten_and_flatten_alt_are_equivalent();
        total_of_sum(fewer.flatten_alt(), lists.last(), each);
    }
}

/// Adding up what stands at places, or the items that stand there.
pub proof fn total_at_places<X>(items: Seq<X>, places: Seq<usize>, each: spec_fn(X) -> Weight)
    ensures
        total(places, |p: usize| each(items[p as int])) == total(
            places.map_values(|p: usize| items[p as int]),
            each,
        ),
    decreases places.len(),
{
    let picked = places.map_values(|p: usize| items[p as int]);
    if places.len() > 0 {
        let fewer = places.drop_last();
        total_at_places(items, fewer, each);
        assert(picked.drop_last() =~= fewer.map_values(|p: usize| items[p as int]));
    }
}

/// The weight of what a selection takes is the weight of the items taken, added up.
pub proof fn picked_weight_adds_up(
    order: Seq<usize>,
    weights: Seq<Weight>,
    limit: Weight,
    each: spec_fn(usize) -> Weight,
)
    requires
        weights.len() == order.len(),
        forall|k: int| 0 <= k < order.len() ==> #[trigger] weights[k] == each(order[k]),
    ensures
        pick_fitting(order, weights, limit).weight == total(
            pick_fitting(order, weights, limit).indices,
            each,
        ),
    decreases order.len(),
{
    if order.len() > 0 {
        let shorter = order.drop_last();
        let fewer = weights.drop_last();
        assert forall|k: int| 0 <= k < shorter.len() implies #[trigger] fewer[k] == each(
            shorter[k],
        ) by {
            assert(weights[k] == each(order[k]));
        }
        picked_weight_adds_up(shorter, fewer, limit, each);
        let before: Picked = pick_fitting(shorter, fewer, limit);
        assert(before.indices.push(order.last()).drop_last() =~= before.indices);
        assert(weights[order.len() - 1] == each(order[order.len() - 1]));
    }
}

/// Adding up all items is adding up all but one, and that one.
proof fn total_without<X>(items: Seq<X>, at: int, each: spec_fn(X) -> Weight)
    requires
        0 <= at < items.len(),
    ensures
        total(items, each) == total(items.remove(at), each).saturating_add(each(items[at])),
{
    let front = items.take(at);
    let one = seq![items[at]];
    let back = items.skip(at + 1);
    assert(items =~= (front + one) + back);
    assert(items.remove(at) =~= front + back);
    total_of_sum(front + one, back, each);
    total_of_sum(front, one, each);
    total_of_sum(front, back, each);
    assert(one.drop_last() =~= Seq::empty());
    assert(total(Seq::<X>::empty(), each) == Weight::zero());
    assert(total(one, each) == each(items[at]));
}

/// Whether items stand for others, at the given places among these, each place once, and
/// none weighs more than what it stands for.
pub open spec fn stand_in<X>(
    some: Seq<X>,
    all: Seq<X>,
    places: Seq<int>,
    each: spec_fn(X) -> Weight,
) -> bool {
    &&& places.len() == some.len()
    &&& places.no_duplicates()
    &&& forall|k: int|
        0 <= k < some.len() ==> 0 <= #[trigger] places[k] < all.len() && each(some[k]).all_lte(
            each(all[places[k]]),
        )
}

/// Items that stand for some of others weigh no more than these, added up.
pub proof fn total_of_stand_ins<X>(
    some: Seq<X>,
    all: Seq<X>,
    places: Seq<int>,
    each: spec_fn(X) -> Weight,
)
    requires
        stand_in(some, all, places, each),
    ensures
        total(some, each).all_lte(total(all, each)),
    decreases all.len(),
{
    if some.len() == 0 {
        assert(total(some, each) == Weight::zero());
    } else {
        assert(0 <= places[0] < all.len());
        let top = all.len() - 1;
        let fewer = all.drop_last();
        if places.contains(top) {
            let at = places.index_of(top);
            let rest = some.remove(at);
            let rest_places = places.remove(at);
            assert forall|i: int, j: int|
                0 <= i < j < rest_places.len() implies rest_places[i] != rest_places[j] by {
                let a = if i < at { i } else { i + 1 };
                let b = if j < at { j } else { j + 1 };
                assert(places[a] != places[b]);
            }
            assert forall|k: int| 0 <= k < rest.len() implies 0 <= #[trigger] rest_places[k]
                < fewer.len() && each(rest[k]).all_lte(each(fewer[rest_places[k]])) by {
                let a = if k < at { k } else { k + 1 };
                assert(rest_places[k] == places[a]);
                assert(places[a] != places[at]);
            }
            total_of_stand_ins(rest, fewer, rest_places, each);
            total_without(some, at, each);
            assert(each(some[at]).all_lte(each(all[places[at]])));
        } else {
            assert forall|k: int| 0 <= k < some.len() implies 0 <= #[trigger] places[k]
                < fewer.len() && each(some[k]).all_lte(each(fewer[places[k]])) by {
                assert(places.contains(places[k]));
            }
            total_of_stand_ins(some, fewer, places, each);
        }
    }
}

} // verus!
