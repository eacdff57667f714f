//! Keeping the items of a list that stand at chosen places.

use crate::selection::ascending;
use vstd::prelude::*;

verus! {

/// The items that stand at the given places, in the order of the list.
pub open spec fn kept_at<X>(items: Seq<X>, places: Seq<usize>) -> Seq<X>
    decreases items.len(),
{
    if items.len() == 0 {
        Seq::empty()
    } else {
        let before = kept_at(items.drop_last(), places);
        if places.contains((items.len() - 1) as usize) {
            before.push(items.last())
        } else {
            before
        }
    }
}

/// Whether a place is among ascending places.
pub fn is_among(places: &Vec<usize>, place: usize) -> (b: bool)
    requires
        ascending(places@),
    ensures
        b == places@.contains(place),
{
    let mut lo: usize = 0;
    let mut hi: usize = places.len();
    while lo < hi
        invariant
            lo <= hi <= places@.len(),
            ascending(places@),
            forall|i: int| 0 <= i < lo ==> places@[i] < place,
            forall|i: int| hi <= i < places@.len() ==> places@[i] > place,
        decreases hi - lo,
    {
        let mid = lo + (hi - lo) / 2;
        if places[mid] == place {
            return true;
        }
        if places[mid] < place {
            lo = mid + 1;
        } else {
            hi = mid;
        }
    }
    false
}

/// Keeps the items at the given places.
pub fn retain_at<X>(items: Vec<X>, places: &Vec<usize>) -> (r: Vec<X>)
    requires
        ascending(places@),
    ensures
        r@ == kept_at(items@, places@),
{
    let ghost all = items@;
    let mut r: Vec<X> = Vec::new();
    let mut i: usize = 0;
    let n = items.len();
    for item in it: items.into_iter()
        invariant
            i == it.index(),
            it.seq() == all,
            n == all.len(),
            ascending(places@),
            r@ == kept_at(all.take(i as int), places@),
    {
        assert(all.take(i as int + 1).drop_last() =~= all.take(i as int));
        if is_among(places, i) {
            r.push(item);
        }
        i = i + 1;
    }
    assert(all.take(i as int) =~= all);
    r
}

/// Keeping items at distinct places gives exactly the items at these places, in
/// the order of the places.
pub proof fn kept_at_picks_places<X>(items: Seq<X>, places: Seq<usize>)
    requires
        items.len() <= usize::MAX,
        ascending(places),
        places.no_duplicates(),
        forall|k: int| 0 <= k < places.len() ==> #[trigger] places[k] < items.len(),
    ensures
        kept_at(items, places) == places.map_values(|p: usize| items[p as int]),
    decreases items.len(),
{
    let picked = places.map_values(|p: usize| items[p as int]);
    if items.len() == 0 {
        if places.len() > 0 {
            assert(places[0] < items.len());
        }
        assert(kept_at(items, places) =~= picked);
    } else {
        let shorter = items.drop_last();
        let top = (items.len() - 1) as usize;
        if places.contains(top) {
            let at = places.index_of(top);
            assert(at == places.len() - 1) by {
                if at < places.len() - 1 {
                    assert(places[at] <= places[at + 1]);
                    assert(places[at + 1] < items.len());
                }
            }
            let fewer = places.drop_last();
            assert forall|k: int| 0 <= k < fewer.len() implies #[trigger] fewer[k]
                < shorter.len() by {
                assert(places[k] <= places[at]);
            }
            kept_at_picks_places(shorter, fewer);
            kept_below(shorter, places, fewer);
            assert(kept_at(items, places) =~= picked);
        } else {
            assert forall|k: int| 0 <= k < places.len() implies #[trigger] places[k]
                < shorter.len() by {
                assert(places.contains(places[k]));
            }
            kept_at_picks_places(shorter, places);
            assert(kept_at(items, places) =~= picked);
        }
    }
}

/// Places past the end make no difference.
proof fn kept_below<X>(items: Seq<X>, places: Seq<usize>, fewer: Seq<usize>)
    requires
        items.len() < usize::MAX,
        places.len() > 0,
        fewer == places.drop_last(),
        places.last() >= items.len(),
    ensures
        kept_at(items, places) == kept_at(items, fewer),
    decreases items.len(),
{
    if items.len() > 0 {
        kept_below(items.drop_last(), places, fewer);
        let top = (items.len() - 1) as usize;
        if places.contains(top) {
            let at = places.index_of(top);
            assert(fewer[at] == top);
        }
        if fewer.contains(top) {
            assert(places[fewer.index_of(top)] == top);
        }
    }
}

} // verus!
