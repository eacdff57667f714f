//! Cutting an inherent down to the weight that is left in a block.

use crate::candidate::BackedCandidate;
use crate::cores::places_fit;
use crate::primitives::{ParaId, UncheckedSignedAvailabilityBitfield};
use crate::retain::{kept_at, kept_at_picks_places, retain_at};
use crate::rng::{shuffle_outcome, SelectionRng};
use crate::runtime::{Config, WeightInfo};
use crate::selection::{
    ascending, capped, does_not_fit, earlier_trials_are_not_displaced, left_out_does_not_fit,
    pick_fitting, preferred_trials, random_sel, rng_after_selection, selection_goes_by_account,
    selection_stays_within_limit, selects, trial_order, trial_order_is_shuffled,
    tries_everything, weighed, Account,
};
use crate::totals::{
    picked_weight_adds_up, total, total_at_places, total_of_flattened, total_of_permutation,
};
use crate::weight::Weight;
use vstd::prelude::*;

verus! {

/// Whether the runtime puts the weight of the candidates, taken together, at `w`.
pub open spec fn weighs_candidates<T: Config>(candidates: Seq<BackedCandidate>, w: Weight) -> bool {
    exists|v: &Vec<BackedCandidate>|
        v@ == candidates && #[trigger] call_ensures(
            <T::WeightInfo as WeightInfo>::backed_candidates_weight,
            (v,),
            w,
        )
}

/// Whether the runtime puts the weight of the bitfields, taken together, at `w`.
pub open spec fn weighs_bitfields<T: Config>(
    bitfields: Seq<UncheckedSignedAvailabilityBitfield>,
    w: Weight,
) -> bool {
    exists|v: &Vec<UncheckedSignedAvailabilityBitfield>|
        v@ == bitfields && #[trigger] call_ensures(
            <T::WeightInfo as WeightInfo>::signed_bitfields_weight,
            (v,),
            w,
        )
}

/// Whether the runtime puts the weight of one bitfield at `w`.
pub open spec fn weighs_bitfield<T: Config>(
    bitfield: UncheckedSignedAvailabilityBitfield,
    w: Weight,
) -> bool {
    call_ensures(<T::WeightInfo as WeightInfo>::signed_bitfield_weight, (&bitfield,), w)
}

/// Candidates in chains: neighbours of one parachain belong together.
pub open spec fn chains(candidates: Seq<BackedCandidate>) -> Seq<Seq<BackedCandidate>>
    decreases candidates.len(),
{
    if candidates.len() == 0 {
        Seq::empty()
    } else {
        let before = chains(candidates.drop_last());
        let next = candidates.last();
        if before.len() > 0 && before.last().last().candidate.para_id == next.candidate.para_id {
            before.drop_last().push(before.last().push(next))
        } else {
            before.push(seq![next])
        }
    }
}

/// Whether a candidate of the chain carries a code upgrade.
pub open spec fn has_upgrade(chain: Seq<BackedCandidate>) -> bool {
    exists|i: int|
        0 <= i < chain.len() && (#[trigger] chain[i]).candidate.new_validation_code is Some
}

/// The places of the chains that carry a code upgrade, in ascending order.
pub open spec fn upgrading(chains: Seq<Seq<BackedCandidate>>) -> Seq<usize>
    decreases chains.len(),
{
    if chains.len() == 0 {
        Seq::empty()
    } else {
        let before = upgrading(chains.drop_last());
        if has_upgrade(chains.last()) {
            before.push((chains.len() - 1) as usize)
        } else {
            before
        }
    }
}

/// What the runtime puts the weight of each chain at.
pub open spec fn weight_of_chain<T: Config>(chains: Seq<Seq<BackedCandidate>>) -> spec_fn(
    int,
    Weight,
) -> bool {
    |i: int, w: Weight| weighs_candidates::<T>(chains[i], w)
}

/// What the runtime puts the weight of each bitfield at.
pub open spec fn weight_of_bitfield<T: Config>(
    bitfields: Seq<UncheckedSignedAvailabilityBitfield>,
) -> spec_fn(int, Weight) -> bool {
    |i: int, w: Weight| weighs_bitfield::<T>(bitfields[i], w)
}

/// What becomes of candidates of weight `cw` and bitfields of weight `bw` that have to fit
/// in `limit`, and the weight that is returned for them.
pub open spec fn limited_by<T: Config>(
    candidates: Seq<BackedCandidate>,
    bitfields: Seq<UncheckedSignedAvailabilityBitfield>,
    limit: Weight,
    rng: SelectionRng,
    candidates_left: Seq<BackedCandidate>,
    bitfields_left: Seq<UncheckedSignedAvailabilityBitfield>,
    rng_left: SelectionRng,
    weight: Weight,
    cw: Weight,
    bw: Weight,
) -> bool {
    let total = bw.saturating_add(cw);
    if limit.all_gte(total) {
        // All of it fits.
        &&& candidates_left == candidates
        &&& bitfields_left == bitfields
        &&& rng_left == rng
        &&& weight == total
    } else if let Some(rest) = limit.checked_sub(bw) {
        // The bitfields fit; chains of candidates fill the rest.
        &&& bitfields_left == bitfields
        &&& limited_chains::<T>(
            chains(candidates),
            rest,
            rng,
            candidates_left,
            rng_left,
            weight,
            bw,
        )
    } else {
        // Not even the bitfields fit.
        &&& candidates_left == Seq::<BackedCandidate>::empty()
        &&& limited_bitfields::<T>(bitfields, limit, rng, bitfields_left, rng_left, weight)
    }
}

/// What becomes of candidates and bitfields that have to fit in `limit`, and the
/// weight that is returned for them.
pub open spec fn limited<T: Config>(
    candidates: Seq<BackedCandidate>,
    bitfields: Seq<UncheckedSignedAvailabilityBitfield>,
    limit: Weight,
    rng: SelectionRng,
    candidates_left: Seq<BackedCandidate>,
    bitfields_left: Seq<UncheckedSignedAvailabilityBitfield>,
    rng_left: SelectionRng,
    weight: Weight,
) -> bool {
    exists|cw: Weight, bw: Weight| #[trigger]
        weighs_candidates::<T>(candidates, cw) && #[trigger] weighs_bitfields::<T>(bitfields, bw)
            && limited_by::<T>(
            candidates,
            bitfields,
            limit,
            rng,
            candidates_left,
            bitfields_left,
            rng_left,
            weight,
            cw,
            bw,
        )
}

/// Whether indices are places among `n` items, none of them twice.
pub open spec fn are_places(places: Seq<usize>, n: nat) -> bool {
    &&& places.no_duplicates()
    &&& forall|k: int| 0 <= k < places.len() ==> #[trigger] places[k] < n
}

/// Whether a selection among chains that has to fit in `limit` takes those at the given
/// places, which weigh `acc`. Chains with a code upgrade are tried first, and every chain
/// is tried.
pub open spec fn chains_cut<T: Config>(
    chains: Seq<Seq<BackedCandidate>>,
    limit: Weight,
    rng: SelectionRng,
    acc: Weight,
    places: Seq<usize>,
) -> bool {
    &&& selects(
        weight_of_chain::<T>(chains),
        trial_order(chains.len(), upgrading(chains), rng),
        limit,
        acc,
        places,
    )
    &&& are_places(places, chains.len())
    &&& tries_everything(chains.len(), upgrading(chains), rng)
}

/// Whether a selection among bitfields that has to fit in `limit` takes those at the
/// given places, which weigh `acc`. Every bitfield is tried.
pub open spec fn bitfields_cut<T: Config>(
    bitfields: Seq<UncheckedSignedAvailabilityBitfield>,
    limit: Weight,
    rng: SelectionRng,
    acc: Weight,
    places: Seq<usize>,
) -> bool {
    &&& selects(
        weight_of_bitfield::<T>(bitfields),
        trial_order(bitfields.len(), Seq::empty(), rng),
        limit,
        acc,
        places,
    )
    &&& are_places(places, bitfields.len())
    &&& tries_everything(bitfields.len(), Seq::empty(), rng)
}

/// What becomes of chains that have to fit in `limit`, behind other data of weight
/// `already`.
pub open spec fn limited_chains<T: Config>(
    chains: Seq<Seq<BackedCandidate>>,
    limit: Weight,
    rng: SelectionRng,
    candidates_left: Seq<BackedCandidate>,
    rng_left: SelectionRng,
    weight: Weight,
    already: Weight,
) -> bool {
    exists|acc: Weight, places: Seq<usize>| #[trigger]
        chains_cut::<T>(chains, limit, rng, acc, places) && candidates_left == kept_at(
            chains,
            places,
        ).flatten() && weight == acc.saturating_add(already) && rng_left == rng_after_selection(
            chains.len(),
            upgrading(chains),
            rng,
        )
}

/// What becomes of bitfields that have to fit in `limit`.
pub open spec fn limited_bitfields<T: Config>(
    bitfields: Seq<UncheckedSignedAvailabilityBitfield>,
    limit: Weight,
    rng: SelectionRng,
    bitfields_left: Seq<UncheckedSignedAvailabilityBitfield>,
    rng_left: SelectionRng,
    weight: Weight,
) -> bool {
    exists|places: Seq<usize>| #[trigger]
        bitfields_cut::<T>(bitfields, limit, rng, weight, places) && bitfields_left == kept_at(
            bitfields,
            places,
        ) && rng_left == rng_after_selection(bitfields.len(), Seq::empty(), rng)
}

/// The candidates of each of a list of chains.
spec fn candidates_of(chains: Seq<Vec<BackedCandidate>>) -> Seq<Seq<BackedCandidate>> {
    chains.map_values(|c: Vec<BackedCandidate>| c@)
}

/// Groups candidates into chains.
fn chain_candidates(candidates: Vec<BackedCandidate>) -> (r: Vec<Vec<BackedCandidate>>)
    ensures
        candidates_of(r@) == chains(candidates@),
{
    let ghost all = candidates@;
    let mut done: Vec<Vec<BackedCandidate>> = Vec::new();
    let mut current: Vec<BackedCandidate> = Vec::new();
    let mut current_para_id: Option<ParaId> = None;
    assert(candidates_of(done@) =~= chains(all.take(0)));
    for candidate in it: candidates.into_iter()
        invariant
            it.seq() == all,
            match current_para_id {
                None => it.index() == 0 && current@.len() == 0 && candidates_of(done@) == chains(
                    all.take(it.index()),
                ),
                Some(para_id) => current@.len() > 0 && current@.last().candidate.para_id == para_id
                    && candidates_of(done@).push(current@) == chains(all.take(it.index())),
            },
    {
        let para_id = candidate.candidate.para_id;
        let ghost before = chains(all.take(it.index()));
        assert(all.take(it.index() + 1).drop_last() =~= all.take(it.index()));
        let same = match current_para_id {
            Some(current) => current == para_id,
            None => false,
        };
        if same {
            assert(before.drop_last() =~= candidates_of(done@));
            current.push(candidate);
        } else {
            let mut next: Vec<BackedCandidate> = Vec::new();
            next.push(candidate);
            assert(next@ =~= seq![candidate]);
            if current_para_id.is_some() {
                let ghost d = done@;
                done.push(current);
                assert(candidates_of(done@) =~= candidates_of(d).push(current@));
            }
            current = next;
            current_para_id = Some(para_id);
        }
    }
    assert(all.take(all.len() as int) =~= all);
    if current_para_id.is_some() {
        let ghost d = done@;
        done.push(current);
        assert(candidates_of(done@) =~= candidates_of(d).push(current@));
    }
    done
}

/// The places of the chains that carry a code upgrade.
fn preferred_chains(chains: &Vec<Vec<BackedCandidate>>) -> (r: Vec<usize>)
    ensures
        r@ == upgrading(candidates_of(chains@)),
{
    let mut r: Vec<usize> = Vec::new();
    let mut i: usize = 0;
    let ghost all = candidates_of(chains@);
    assert(all.take(0) =~= Seq::empty());
    while i < chains.len()
        invariant
            i <= chains@.len(),
            all == candidates_of(chains@),
            r@ == upgrading(all.take(i as int)),
        decreases chains@.len() - i,
    {
        assert(all.take(i as int + 1).drop_last() =~= all.take(i as int));
        if contains_upgrade(&chains[i]) {
            r.push(i);
        }
        i = i + 1;
    }
    assert(all.take(i as int) =~= all);
    r
}

/// Whether a candidate of the chain carries a code upgrade.
fn contains_upgrade(chain: &Vec<BackedCandidate>) -> (b: bool)
    ensures
        b == has_upgrade(chain@),
{
    let mut i: usize = 0;
    while i < chain.len()
        invariant
            i <= chain@.len(),
            forall|j: int|
                0 <= j < i ==> (#[trigger] chain@[j]).candidate.new_validation_code is None,
        decreases chain@.len() - i,
    {
        if chain[i].candidate.new_validation_code.is_some() {
            return true;
        }
        i = i + 1;
    }
    false
}

/// Strings chains together again.
fn unchain(chains: Vec<Vec<BackedCandidate>>) -> (r: Vec<BackedCandidate>)
    ensures
        r@ == candidates_of(chains@).flatten(),
{
    let ghost all = chains@;
    let mut r: Vec<BackedCandidate> = Vec::new();
    assert(candidates_of(all.take(0)) =~= Seq::empty());
    for chain in it: chains.into_iter()
        invariant
            it.seq() == all,
            r@ == candidates_of(all.take(it.index())).flatten(),
    {
        proof {
            assert(candidates_of(all.take(it.index() + 1)) =~= candidates_of(
                all.take(it.index()),
            ).push(chain@));
            candidates_of(all.take(it.index())).lemma_flatten_push(chain@);
        }
        let mut chain = chain;
        r.append(&mut chain);
    }
    assert(all.take(all.len() as int) =~= all);
    r
}

/// The chains that carry a code upgrade are chains, none of them twice.
proof fn upgrading_are_places(chains: Seq<Seq<BackedCandidate>>)
    requires
        chains.len() <= usize::MAX,
    ensures
        are_places(upgrading(chains), chains.len()),
    decreases chains.len(),
{
    if chains.len() > 0 {
        let before = upgrading(chains.drop_last());
        upgrading_are_places(chains.drop_last());
        let now = upgrading(chains);
        assert forall|i: int, j: int| 0 <= i < j < now.len() implies now[i] != now[j] by {
            assert(before[i] < chains.len() - 1);
        }
        assert forall|k: int| 0 <= k < now.len() implies #[trigger] now[k] < chains.len() by {
            if k < before.len() {
                assert(before[k] < chains.len() - 1);
            }
        }
    }
}

proof fn kept_at_of_views(chains: Seq<Vec<BackedCandidate>>, places: Seq<usize>)
    ensures
        candidates_of(kept_at(chains, places)) == kept_at(candidates_of(chains), places),
    decreases chains.len(),
{
    let views = candidates_of(chains);
    if chains.len() > 0 {
        kept_at_of_views(chains.drop_last(), places);
        assert(views.drop_last() =~= candidates_of(chains.drop_last()));
        assert(candidates_of(kept_at(chains.drop_last(), places).push(chains.last()))
            =~= candidates_of(kept_at(chains.drop_last(), places)).push(chains.last()@));
    }
    assert(candidates_of(kept_at(chains, places)) =~= kept_at(views, places));
}

/// A selection by one account of the weights is one by any account that admits at
/// least as many.
proof fn selects_by_wider_account(
    narrow: spec_fn(int, Weight) -> bool,
    wide: spec_fn(int, Weight) -> bool,
    order: Seq<usize>,
    limit: Weight,
    weight: Weight,
    indices: Seq<usize>,
)
    requires
        selects(narrow, order, limit, weight, indices),
        forall|k: int, w: Weight|
            0 <= k < order.len() && #[trigger] narrow(order[k] as int, w) ==> wide(
                order[k] as int,
                w,
            ),
    ensures
        selects(wide, order, limit, weight, indices),
{
    let weights = choose|weights: Seq<Weight>| #[trigger]
        weighed(narrow, order, weights) && {
            let picked = pick_fitting(order, weights, limit);
            &&& weight == picked.weight
            &&& ascending(indices)
            &&& indices.to_multiset() == picked.indices.to_multiset()
        };
    assert(weighed(wide, order, weights));
}

/// Cuts candidates and bitfields down to what fits in `max_consumable_weight`.
///
/// Where there is space for all of it, all of it stays. Otherwise all bitfields
/// stay, and the space that they leave is filled with chains of candidates, those
/// with a code upgrade first. Where not even the bitfields fit, all candidates go
/// and the space is filled with bitfields. What is tried first is random, apart
/// from the preference; what stays keeps its order.
///
/// Returns the weight that the remaining bitfields and candidates consume.
pub fn apply_weight_limit<T: Config>(
    candidates: &mut Vec<BackedCandidate>,
    bitfields: &mut Vec<UncheckedSignedAvailabilityBitfield>,
    max_consumable_weight: Weight,
    rng: &mut SelectionRng,
) -> (weight: Weight)
    ensures
        limited::<T>(
            old(candidates)@,
            old(bitfields)@,
            max_consumable_weight,
            *old(rng),
            final(candidates)@,
            final(bitfields)@,
            *final(rng),
            weight,
        ),
        weight.all_lte(max_consumable_weight),
{
    let total_candidates_weight = <T::WeightInfo as WeightInfo>::backed_candidates_weight(
        candidates,
    );
    let total_bitfields_weight = <T::WeightInfo as WeightInfo>::signed_bitfields_weight(bitfields);
    let total = total_bitfields_weight.saturating_add(total_candidates_weight);
    proof {
        assert(weighs_candidates::<T>(candidates@, total_candidates_weight));
        assert(weighs_bitfields::<T>(bitfields@, total_bitfields_weight));
    }
    if max_consumable_weight.all_gte(total) {
        return total;
    }
    let ghost given_candidates = candidates@;
    let ghost given_bitfields = bitfields@;
    let ghost rng_before = *rng;

    let mut taken: Vec<BackedCandidate> = Vec::new();
    std::mem::swap(candidates, &mut taken);
    match max_consumable_weight.checked_sub(total_bitfields_weight) {
        Some(max_consumable_by_candidates) => {
            let chained = chain_candidates(taken);
            let preferred = preferred_chains(&chained);
            let ghost views = candidates_of(chained@);
            let ghost order = trial_order(views.len(), upgrading(views), rng_before);
            let weight_fn = |chain: &Vec<BackedCandidate>| -> (w: Weight)
                ensures
                    weighs_candidates::<T>(chain@, w),
                { <T::WeightInfo as WeightInfo>::backed_candidates_weight(chain) };
            proof {
                assert(chained.len() <= usize::MAX);
                upgrading_are_places(views);
            }
            let (acc, places) = random_sel(
                rng,
                chained.as_slice(),
                preferred,
                weight_fn,
                max_consumable_by_candidates,
            );
            proof {
                assert forall|k: int, w: Weight|
                    0 <= k < order.len() && call_ensures(
                        weight_fn,
                        (&chained@[order[k] as int],),
                        w,
                    ) implies weighs_candidates::<T>(views[order[k] as int], w) by {
                    assert(order[k] < chained@.len());
                }
                selects_by_wider_account(
                    |i: int, w: Weight| call_ensures(weight_fn, (&chained@[i],), w),
                    weight_of_chain::<T>(views),
                    order,
                    max_consumable_by_candidates,
                    acc,
                    places@,
                );
                assert(chains_cut::<T>(
                    views,
                    max_consumable_by_candidates,
                    rng_before,
                    acc,
                    places@,
                ));
                kept_at_of_views(chained@, places@);
            }
            let kept = retain_at(chained, &places);
            *candidates = unchain(kept);
            acc.saturating_add(total_bitfields_weight)
        },
        None => {
            let mut all: Vec<UncheckedSignedAvailabilityBitfield> = Vec::new();
            std::mem::swap(bitfields, &mut all);
            let weight_fn = |bitfield: &UncheckedSignedAvailabilityBitfield| -> (w: Weight)
                ensures
                    weighs_bitfield::<T>(*bitfield, w),
                { <T::WeightInfo as WeightInfo>::signed_bitfield_weight(bitfield) };
            let none: Vec<usize> = Vec::new();
            assert(none@ =~= Seq::empty());
            let ghost order = trial_order(given_bitfields.len(), Seq::empty(), rng_before);
            let (acc, places) = random_sel(
                rng,
                all.as_slice(),
                none,
                weight_fn,
                max_consumable_weight,
            );
            proof {
                selects_by_wider_account(
                    |i: int, w: Weight| call_ensures(weight_fn, (&all@[i],), w),
                    weight_of_bitfield::<T>(given_bitfields),
                    order,
                    max_consumable_weight,
                    acc,
                    places@,
                );
                assert(bitfields_cut::<T>(
                    given_bitfields,
                    max_consumable_weight,
                    rng_before,
                    acc,
                    places@,
                ));
            }
            *bitfields = retain_at(all, &places);
            acc
        },
    }
}

/// Chaining takes candidates apart without reordering or losing any: each chain
/// holds candidates of one parachain, neighbouring chains belong to different ones,
/// and strung together they are the candidates again.
pub proof fn chains_split_candidates(candidates: Seq<BackedCandidate>)
    ensures
        chains(candidates).flatten() == candidates,
        forall|c: int|
            0 <= c < chains(candidates).len() ==> #[trigger] chains(candidates)[c].len() > 0,
        forall|c: int, i: int, j: int|
            0 <= c < chains(candidates).len() && 0 <= i < chains(candidates)[c].len() && 0 <= j
                < chains(candidates)[c].len() ==> #[trigger] chains(
                candidates,
            )[c][i].candidate.para_id == #[trigger] chains(candidates)[c][j].candidate.para_id,
        forall|c: int|
            0 < c < chains(candidates).len() ==> (#[trigger] chains(
                candidates,
            )[c]).first().candidate.para_id != chains(candidates)[c - 1].last().candidate.para_id,
    decreases candidates.len(),
{
    let now = chains(candidates);
    if candidates.len() > 0 {
        let shorter = candidates.drop_last();
        let before = chains(shorter);
        let next = candidates.last();
        chains_split_candidates(shorter);
        if before.len() > 0 && before.last().last().candidate.para_id == next.candidate.para_id {
            let firsts = before.drop_last();
            let last = before.last();
            assert(before =~= firsts.push(last));
            firsts.lemma_flatten_push(last);
            firsts.lemma_flatten_push(last.push(next));
            assert(now.flatten() =~= shorter.push(next));
            let at = before.len() - 1;
            assert forall|c: int, i: int, j: int|
                0 <= c < now.len() && 0 <= i < now[c].len() && 0 <= j < now[c].len() implies (
            #[trigger] now[c][i]).candidate.para_id == (#[trigger] now[c][j]).candidate.para_id by {
                if c == at {
                    let pi = if i < last.len() {
                        i
                    } else {
                        last.len() - 1
                    };
                    let pj = if j < last.len() {
                        j
                    } else {
                        last.len() - 1
                    };
                    assert(before[at][pi].candidate.para_id == before[at][pj].candidate.para_id);
                } else {
                    assert(before[c][i].candidate.para_id == before[c][j].candidate.para_id);
                }
            }
            assert forall|c: int| 0 < c < now.len() implies (
            #[trigger] now[c]).first().candidate.para_id != now[c - 1].last().candidate.para_id by {
                assert(before[c].first() == now[c].first());
                assert(before[c - 1] == now[c - 1]);
            }
        } else {
            before.lemma_flatten_push(seq![next]);
            assert(now.flatten() =~= shorter.push(next));
            assert forall|c: int, i: int, j: int|
                0 <= c < now.len() && 0 <= i < now[c].len() && 0 <= j < now[c].len() implies (
            #[trigger] now[c][i]).candidate.para_id == (#[trigger] now[c][j]).candidate.para_id by {
                if c < before.len() {
                    assert(before[c][i].candidate.para_id == before[c][j].candidate.para_id);
                }
            }
        }
        assert(shorter.push(next) =~= candidates);
    }
}

/// Whatever the runtime's weights and whatever the random order: what remains of an
/// inherent after the cut weighs no more than the limit.
pub proof fn limited_weight_stays_within<T: Config>(
    candidates: Seq<BackedCandidate>,
    bitfields: Seq<UncheckedSignedAvailabilityBitfield>,
    limit: Weight,
    rng: SelectionRng,
    candidates_left: Seq<BackedCandidate>,
    bitfields_left: Seq<UncheckedSignedAvailabilityBitfield>,
    rng_left: SelectionRng,
    weight: Weight,
)
    requires
        limited::<T>(
            candidates,
            bitfields,
            limit,
            rng,
            candidates_left,
            bitfields_left,
            rng_left,
            weight,
        ),
    ensures
        weight.all_lte(limit),
{
    assert forall|
        weighs: spec_fn(int, Weight) -> bool,
        order: Seq<usize>,
        most: Weight,
        acc: Weight,
        places: Seq<usize>,
    | #[trigger]
        selects(weighs, order, most, acc, places) implies acc.all_lte(most) by {
        let weights = choose|weights: Seq<Weight>| #[trigger]
            weighed(weighs, order, weights) && acc == pick_fitting(order, weights, most).weight;
        selection_stays_within_limit(order, weights, most);
    }
}

/// Whether a runtime weighs lists by adding up the weights of what they hold.
pub open spec fn adds_up<T: Config>(
    candidate_weight: spec_fn(BackedCandidate) -> Weight,
    bitfield_weight: spec_fn(UncheckedSignedAvailabilityBitfield) -> Weight,
) -> bool {
    &&& forall|candidates: Seq<BackedCandidate>, w: Weight| #[trigger]
        weighs_candidates::<T>(candidates, w) ==> w == total(candidates, candidate_weight)
    &&& forall|bitfields: Seq<UncheckedSignedAvailabilityBitfield>, w: Weight| #[trigger]
        weighs_bitfields::<T>(bitfields, w) ==> w == total(bitfields, bitfield_weight)
    &&& forall|bitfield: UncheckedSignedAvailabilityBitfield, w: Weight| #[trigger]
        weighs_bitfield::<T>(bitfield, w) ==> w == bitfield_weight(bitfield)
}

/// What a selection takes weighs what the items at the selected places weigh, added up.
proof fn selected_weight_adds_up<X>(
    weighs: spec_fn(int, Weight) -> bool,
    order: Seq<usize>,
    limit: Weight,
    weight: Weight,
    places: Seq<usize>,
    items: Seq<X>,
    each: spec_fn(X) -> Weight,
)
    requires
        items.len() <= usize::MAX,
        selects(weighs, order, limit, weight, places),
        are_places(places, items.len()),
        forall|i: int, w: Weight| #[trigger] weighs(i, w) ==> w == each(items[i]),
    ensures
        weight == total(kept_at(items, places), each),
{
    let weights = choose|weights: Seq<Weight>| #[trigger]
        weighed(weighs, order, weights) && {
            let picked = pick_fitting(order, weights, limit);
            &&& weight == picked.weight
            &&& ascending(places)
            &&& places.to_multiset() == picked.indices.to_multiset()
        };
    let by_place = |p: usize| each(items[p as int]);
    assert forall|k: int| 0 <= k < order.len() implies #[trigger] weights[k] == by_place(
        order[k],
    ) by {
        assert(weighs(order[k] as int, weights[k]));
    }
    picked_weight_adds_up(order, weights, limit, by_place);
    total_of_permutation(places, pick_fitting(order, weights, limit).indices, by_place);
    total_at_places(items, places, each);
    kept_at_picks_places(items, places);
}

/// In a runtime that adds weights up, the weight that is returned for what is left is
/// exactly what that weighs.
pub proof fn limited_weight_is_that_of_what_is_left<T: Config>(
    candidates: Seq<BackedCandidate>,
    bitfields: Seq<UncheckedSignedAvailabilityBitfield>,
    limit: Weight,
    rng: SelectionRng,
    candidates_left: Seq<BackedCandidate>,
    bitfields_left: Seq<UncheckedSignedAvailabilityBitfield>,
    rng_left: SelectionRng,
    weight: Weight,
    candidate_weight: spec_fn(BackedCandidate) -> Weight,
    bitfield_weight: spec_fn(UncheckedSignedAvailabilityBitfield) -> Weight,
)
    requires
        candidates.len() <= usize::MAX,
        bitfields.len() <= usize::MAX,
        adds_up::<T>(candidate_weight, bitfield_weight),
        limited::<T>(
            candidates,
            bitfields,
            limit,
            rng,
            candidates_left,
            bitfields_left,
            rng_left,
            weight,
        ),
    ensures
        weight == total(bitfields_left, bitfield_weight).saturating_add(
            total(candidates_left, candidate_weight),
        ),
{
    let (cw, bw) = choose|cw: Weight, bw: Weight| #[trigger]
        weighs_candidates::<T>(candidates, cw) && #[trigger] weighs_bitfields::<T>(bitfields, bw)
            && limited_by::<T>(
            candidates,
            bitfields,
            limit,
            rng,
            candidates_left,
            bitfields_left,
            rng_left,
            weight,
            cw,
            bw,
        );
    if limit.all_gte(bw.saturating_add(cw)) {
    } else if let Some(rest) = limit.checked_sub(bw) {
        let all = chains(candidates);
        chains_no_more_than_candidates(candidates);
        let (acc, places) = choose|acc: Weight, places: Seq<usize>| #[trigger]
            chains_cut::<T>(all, rest, rng, acc, places) && candidates_left == kept_at(
                all,
                places,
            ).flatten() && weight == acc.saturating_add(bw);
        let each = |chain: Seq<BackedCandidate>| total(chain, candidate_weight);
        selected_weight_adds_up(
            weight_of_chain::<T>(all),
            trial_order(all.len(), upgrading(all), rng),
            rest,
            acc,
            places,
            all,
            each,
        );
        total_of_flattened(kept_at(all, places), candidate_weight);
    } else {
        let places = choose|places: Seq<usize>| #[trigger]
            bitfields_cut::<T>(bitfields, limit, rng, weight, places) && bitfields_left == kept_at(
                bitfields,
                places,
            );
        selected_weight_adds_up(
            weight_of_bitfield::<T>(bitfields),
            trial_order(bitfields.len(), Seq::empty(), rng),
            limit,
            weight,
            places,
            bitfields,
            bitfield_weight,
        );
    }
}

proof fn chains_no_more_than_candidates(candidates: Seq<BackedCandidate>)
    ensures
        chains(candidates).len() <= candidates.len(),
    decreases candidates.len(),
{
    if candidates.len() > 0 {
        chains_no_more_than_candidates(candidates.drop_last());
    }
}

/// A selection that tries everything leaves out only what does not fit.
proof fn left_out_of_selection(
    weighs: spec_fn(int, Weight) -> bool,
    order: Seq<usize>,
    limit: Weight,
    weight: Weight,
    places: Seq<usize>,
    item: usize,
)
    requires
        selects(weighs, order, limit, weight, places),
        order.contains(item),
        !places.contains(item),
    ensures
        does_not_fit(weighs, item as int, weight, limit),
{
    let weights = choose|weights: Seq<Weight>| #[trigger]
        weighed(weighs, order, weights) && {
            let picked = pick_fitting(order, weights, limit);
            &&& weight == picked.weight
            &&& ascending(places)
            &&& places.to_multiset() == picked.indices.to_multiset()
        };
    let picked = pick_fitting(order, weights, limit).indices;
    let at = order.index_of(item);
    if picked.contains(item) {
        vstd::seq_lib::to_multiset_contains(picked, item);
        vstd::seq_lib::to_multiset_contains(places, item);
    }
    left_out_does_not_fit(order, weights, limit, at);
    assert(weighs(order[at] as int, weights[at]));
}

/// What is cut away would not have fitted: where candidates or bitfields had to go, no
/// further chain of candidates fits behind the chains and the bitfields that stayed, or,
/// if not even the bitfields fit, no further bitfield behind those that stayed.
pub proof fn nothing_more_fits<T: Config>(
    candidates: Seq<BackedCandidate>,
    bitfields: Seq<UncheckedSignedAvailabilityBitfield>,
    limit: Weight,
    rng: SelectionRng,
    candidates_left: Seq<BackedCandidate>,
    bitfields_left: Seq<UncheckedSignedAvailabilityBitfield>,
    rng_left: SelectionRng,
    weight: Weight,
)
    requires
        limited::<T>(
            candidates,
            bitfields,
            limit,
            rng,
            candidates_left,
            bitfields_left,
            rng_left,
            weight,
        ),
    ensures
        ({
            ||| candidates_left == candidates && bitfields_left == bitfields
            ||| exists|bw: Weight, acc: Weight, places: Seq<usize>|
                {
                    &&& #[trigger] weighs_bitfields::<T>(bitfields, bw)
                    &&& bw.all_lte(limit)
                    &&& bitfields_left == bitfields
                    &&& #[trigger] chains_cut::<T>(
                        chains(candidates),
                        limit.saturating_sub(bw),
                        rng,
                        acc,
                        places,
                    )
                    &&& candidates_left == kept_at(chains(candidates), places).flatten()
                    &&& weight == acc.saturating_add(bw)
                    &&& forall|c: usize|
                        c < chains(candidates).len() && !#[trigger] places.contains(c)
                            ==> does_not_fit(
                            weight_of_chain::<T>(chains(candidates)),
                            c as int,
                            acc,
                            limit.saturating_sub(bw),
                        )
                }
            ||| candidates_left.len() == 0 && exists|bw: Weight, places: Seq<usize>|
                {
                    &&& #[trigger] weighs_bitfields::<T>(bitfields, bw)
                    &&& bw.ref_time > limit.ref_time || bw.proof_size > limit.proof_size
                    &&& #[trigger] bitfields_cut::<T>(bitfields, limit, rng, weight, places)
                    &&& bitfields_left == kept_at(bitfields, places)
                    &&& forall|b: usize|
                        b < bitfields.len() && !#[trigger] places.contains(b) ==> does_not_fit(
                            weight_of_bitfield::<T>(bitfields),
                            b as int,
                            weight,
                            limit,
                        )
                }
        }),
{
    let (cw, bw) = choose|cw: Weight, bw: Weight| #[trigger]
        weighs_candidates::<T>(candidates, cw) && #[trigger] weighs_bitfields::<T>(bitfields, bw)
            && limited_by::<T>(
            candidates,
            bitfields,
            limit,
            rng,
            candidates_left,
            bitfields_left,
            rng_left,
            weight,
            cw,
            bw,
        );
    let all = chains(candidates);
    if limit.all_gte(bw.saturating_add(cw)) {
    } else if bw.all_lte(limit) {
        let rest = limit.saturating_sub(bw);
        let (acc, places) = choose|acc: Weight, places: Seq<usize>| #[trigger]
            chains_cut::<T>(all, rest, rng, acc, places) && candidates_left == kept_at(
                all,
                places,
            ).flatten() && weight == acc.saturating_add(bw);
        let order = trial_order(all.len(), upgrading(all), rng);
        assert forall|c: usize| c < all.len() && !#[trigger] places.contains(
            c,
        ) implies does_not_fit(weight_of_chain::<T>(all), c as int, acc, rest) by {
            assert(order.contains(c));
            left_out_of_selection(weight_of_chain::<T>(all), order, rest, acc, places, c);
        }
        assert(weighs_bitfields::<T>(bitfields, bw) && chains_cut::<T>(
            all,
            rest,
            rng,
            acc,
            places,
        ));
    } else {
        let places = choose|places: Seq<usize>| #[trigger]
            bitfields_cut::<T>(bitfields, limit, rng, weight, places) && bitfields_left == kept_at(
                bitfields,
                places,
            );
        let order = trial_order(bitfields.len(), Seq::empty(), rng);
        assert forall|b: usize| b < bitfields.len() && !#[trigger] places.contains(
            b,
        ) implies does_not_fit(weight_of_bitfield::<T>(bitfields), b as int, weight, limit) by {
            assert(order.contains(b));
            left_out_of_selection(
                weight_of_bitfield::<T>(bitfields),
                order,
                limit,
                weight,
                places,
                b,
            );
        }
        assert(weighs_bitfields::<T>(bitfields, bw) && bitfields_cut::<T>(
            bitfields,
            limit,
            rng,
            weight,
            places,
        ));
    }
}

/// Whether the chains with a code upgrade that stay are those at the places `alone`, which
/// are taken, with weight `acc`, where no other chains are tried.
pub open spec fn upgrades_alone<T: Config>(
    chains: Seq<Seq<BackedCandidate>>,
    limit: Weight,
    rng: SelectionRng,
    acc: Weight,
    alone: Seq<usize>,
) -> bool {
    selects(
        weight_of_chain::<T>(chains),
        trial_order(chains.len(), upgrading(chains), rng).take(
            preferred_trials(chains.len(), upgrading(chains), rng) as int,
        ),
        limit,
        acc,
        alone,
    )
}

/// A chain without a code upgrade never displaces one with it: of the chains with a code
/// upgrade exactly those stay that would stay if there were no others, and one that is left
/// out does not fit behind these alone.
pub proof fn upgrades_are_not_displaced<T: Config>(
    chains: Seq<Seq<BackedCandidate>>,
    limit: Weight,
    rng: SelectionRng,
    acc: Weight,
    places: Seq<usize>,
)
    requires
        chains.len() <= usize::MAX,
        chains_cut::<T>(chains, limit, rng, acc, places),
    ensures
        exists|upgrades_acc: Weight, alone: Seq<usize>| #[trigger]
            upgrades_alone::<T>(chains, limit, rng, upgrades_acc, alone) && (forall|u: usize|
                #[trigger] upgrading(chains).contains(u) ==> (places.contains(u)
                    <==> alone.contains(u)) && (!places.contains(u) ==> does_not_fit(
                    weight_of_chain::<T>(chains),
                    u as int,
                    upgrades_acc,
                    limit,
                ))),
{
    let weighs = weight_of_chain::<T>(chains);
    let order = trial_order(chains.len(), upgrading(chains), rng);
    let m = preferred_trials(chains.len(), upgrading(chains), rng) as int;
    let weights = choose|weights: Seq<Weight>| #[trigger]
        weighed(weighs, order, weights) && {
            let picked = pick_fitting(order, weights, limit);
            &&& acc == picked.weight
            &&& ascending(places)
            &&& places.to_multiset() == picked.indices.to_multiset()
        };
    upgrading_are_places(chains);
    earlier_trials_are_not_displaced(order, weights, limit, m);
    let first = pick_fitting(order.take(m), weights.take(m), limit);
    let all = pick_fitting(order, weights, limit).indices;
    let alone = ascending_form(first.indices);
    assert(weighed(weighs, order.take(m), weights.take(m))) by {
        assert forall|k: int| 0 <= k < m implies weighs(
            order.take(m)[k] as int,
            #[trigger] weights.take(m)[k],
        ) by {
            assert(weighs(order[k] as int, weights[k]));
        }
    }
    assert(upgrades_alone::<T>(chains, limit, rng, first.weight, alone));
    assert forall|u: usize| #[trigger] upgrading(chains).contains(u) implies (places.contains(u)
        <==> alone.contains(u)) && (!places.contains(u) ==> does_not_fit(
        weighs,
        u as int,
        first.weight,
        limit,
    )) by {
        assert(upgrading(chains)[upgrading(chains).index_of(u)] < chains.len());
        assert(order.contains(u));
        let at = order.index_of(u);
        assert(upgrading(chains).contains(order[at]));
        assert(at < m);
        assert(order.take(m)[at] == u);
        vstd::seq_lib::to_multiset_contains(all, u);
        vstd::seq_lib::to_multiset_contains(places, u);
        vstd::seq_lib::to_multiset_contains(first.indices, u);
        vstd::seq_lib::to_multiset_contains(alone, u);
        if !places.contains(u) {
            left_out_does_not_fit(order.take(m), weights.take(m), limit, at);
            assert(weighs(order.take(m)[at] as int, weights.take(m)[at]));
        }
    }
}

/// Indices in ascending order.
proof fn ascending_form(s: Seq<usize>) -> (r: Seq<usize>)
    ensures
        ascending(r),
        r.to_multiset() == s.to_multiset(),
{
    let leq = |a: usize, b: usize| a <= b;
    assert(vstd::relations::total_ordering(leq));
    s.lemma_sort_by_ensures(leq);
    let r = s.sort_by(leq);
    assert forall|i: int, j: int| 0 <= i <= j < r.len() implies r[i] <= r[j] by {
        if i < j {
            assert(leq(r[i], r[j]));
        }
    }
    r
}

/// The places of the chains with a code upgrade, one by one.
proof fn upgrading_members(chains: Seq<Seq<BackedCandidate>>)
    requires
        chains.len() <= usize::MAX,
    ensures
        forall|x: usize| #[trigger]
            upgrading(chains).contains(x) <==> x < chains.len() && carries_upgrade(
                chains[x as int],
            ),
        forall|i: int, j: int|
            0 <= i < j < upgrading(chains).len() ==> upgrading(chains)[i] < upgrading(chains)[j],
    decreases chains.len(),
{
    if chains.len() > 0 {
        let fewer = chains.drop_last();
        let before = upgrading(fewer);
        let now = upgrading(chains);
        let top = (chains.len() - 1) as usize;
        upgrading_members(fewer);
        assert(has_upgrade(chains.last()) == carries_upgrade(chains[top as int]));
        assert forall|x: usize| #[trigger] now.contains(x) <==> x < chains.len()
            && carries_upgrade(chains[x as int]) by {
            if now.contains(x) {
                let k = now.index_of(x);
                if k < before.len() {
                    assert(before[k] == x);
                    assert(before.contains(x));
                    assert(fewer[x as int] == chains[x as int]);
                }
            }
            if x < chains.len() && carries_upgrade(chains[x as int]) {
                if x < top {
                    assert(fewer[x as int] == chains[x as int]);
                    assert(before.contains(x));
                    assert(now[before.index_of(x)] == x);
                } else {
                    assert(now[before.len() as int] == x);
                }
            }
        }
        assert forall|i: int, j: int| 0 <= i < j < now.len() implies now[i] < now[j] by {
            assert(before.contains(before[i]));
        }
    }
}

/// Whether one of the candidates brings new validation code.
pub open spec fn carries_upgrade(run: Seq<BackedCandidate>) -> bool {
    exists|i: int|
        0 <= i < run.len() && (#[trigger] run[i]).candidate.new_validation_code is Some
}

/// Whether the runtime was asked for the weight of candidates, taken together, and
/// answered `w`.
pub open spec fn asked_of_candidates<T: Config>(list: Seq<BackedCandidate>, w: Weight) -> bool {
    exists|v: &Vec<BackedCandidate>|
        v@ == list && #[trigger] call_ensures(
            <T::WeightInfo as WeightInfo>::backed_candidates_weight,
            (v,),
            w,
        )
}

/// Whether the runtime was asked for the weight of bitfields, taken together, and answered
/// `w`.
pub open spec fn asked_of_bitfields<T: Config>(
    list: Seq<UncheckedSignedAvailabilityBitfield>,
    w: Weight,
) -> bool {
    exists|v: &Vec<UncheckedSignedAvailabilityBitfield>|
        v@ == list && #[trigger] call_ensures(
            <T::WeightInfo as WeightInfo>::signed_bitfields_weight,
            (v,),
            w,
        )
}

/// Whether candidates fall into runs: strung together the runs are the candidates, no run
/// is empty, a run is of one parachain, and the next run is of another.
pub open spec fn are_runs(
    runs: Seq<Seq<BackedCandidate>>,
    candidates: Seq<BackedCandidate>,
) -> bool {
    &&& runs.flatten() == candidates
    &&& forall|c: int| 0 <= c < runs.len() ==> #[trigger] runs[c].len() > 0
    &&& forall|c: int, i: int|
        0 <= c < runs.len() && 0 <= i < runs[c].len() ==> (
        #[trigger] runs[c][i]).candidate.para_id == runs[c][0].candidate.para_id
    &&& forall|c: int|
        0 <= c < runs.len() - 1 ==> (#[trigger] runs[c])[0].candidate.para_id != runs[c
            + 1][0].candidate.para_id
}

/// How things were tried one after the other: in which order, with which account, and the
/// places of those that stayed.
pub struct Trials {
    pub order: Seq<usize>,
    pub account: Account,
    pub stayed: Seq<usize>,
}

impl Trials {
    /// Whether each of `n` things is tried once, with a right account, and those stay, in
    /// their order, that the account takes.
    pub open spec fn are_complete(self, n: nat, limit: Weight) -> bool {
        &&& self.order.len() == n
        &&& forall|i: int, j: int| 0 <= i < j < n ==> self.order[i] != self.order[j]
        &&& forall|k: int| 0 <= k < n ==> #[trigger] self.order[k] < n
        &&& self.account.is_right(n, limit)
        &&& forall|i: int, j: int|
            0 <= i < j < self.stayed.len() ==> self.stayed[i] < self.stayed[j]
        &&& forall|j: int| 0 <= j < self.stayed.len() ==> #[trigger] self.stayed[j] < n
        &&& forall|k: int|
            0 <= k < n ==> (self.stayed.contains(#[trigger] self.order[k])
                <==> self.account.taken[k])
    }
}

/// What is cut away, in plain terms. Bitfields weigh `bw` and candidates `cw`, as the
/// runtime answers. If both fit, both stay. Otherwise, if the bitfields fit, all of them
/// stay, and the runs of candidates are tried, each once, those with a code upgrade first,
/// for what the bitfields leave of the limit. Otherwise no candidate stays, and the
/// bitfields are tried, each once, for the limit. What the account takes stays, in the
/// order that it had.
pub proof fn cut_goes_by_account<T: Config>(
    candidates: Seq<BackedCandidate>,
    bitfields: Seq<UncheckedSignedAvailabilityBitfield>,
    limit: Weight,
    rng: SelectionRng,
    candidates_left: Seq<BackedCandidate>,
    bitfields_left: Seq<UncheckedSignedAvailabilityBitfield>,
    rng_left: SelectionRng,
    weight: Weight,
) -> (r: (Weight, Weight, Seq<Seq<BackedCandidate>>, Trials))
    requires
        candidates.len() <= usize::MAX,
        bitfields.len() <= usize::MAX,
        limited::<T>(
            candidates,
            bitfields,
            limit,
            rng,
            candidates_left,
            bitfields_left,
            rng_left,
            weight,
        ),
    ensures
        ({
            let (cw, bw, runs, trials) = r;
            let time = capped(bw.ref_time + cw.ref_time);
            let size = capped(bw.proof_size + cw.proof_size);
            &&& asked_of_candidates::<T>(candidates, cw)
            &&& asked_of_bitfields::<T>(bitfields, bw)
            &&& if time <= limit.ref_time && size <= limit.proof_size {
                &&& candidates_left == candidates
                &&& bitfields_left == bitfields
                &&& weight.ref_time == time
                &&& weight.proof_size == size
                &&& rng_left == rng
            } else if bw.ref_time <= limit.ref_time && bw.proof_size <= limit.proof_size {
                let rest = Weight {
                    ref_time: (limit.ref_time - bw.ref_time) as u64,
                    proof_size: (limit.proof_size - bw.proof_size) as u64,
                };
                let sum = trials.account.sums[runs.len() as int];
                &&& bitfields_left == bitfields
                &&& are_runs(runs, candidates)
                &&& trials.are_complete(runs.len(), rest)
                &&& forall|k: int|
                    0 <= k < runs.len() ==> asked_of_candidates::<T>(
                        runs[trials.order[k] as int],
                        #[trigger] trials.account.weights[k],
                    )
                &&& forall|j: int, k: int|
                    0 <= j < k < runs.len() && carries_upgrade(
                        runs[(#[trigger] trials.order[k]) as int],
                    ) ==> carries_upgrade(runs[(#[trigger] trials.order[j]) as int])
                &&& candidates_left == trials.stayed.map_values(|p: usize| runs[p as int]).flatten()
                &&& trials.order == trial_order(runs.len(), upgrading(runs), rng)
                &&& rng_left == rng_after_selection(runs.len(), upgrading(runs), rng)
                &&& weight.ref_time == capped(sum.ref_time + bw.ref_time)
                &&& weight.proof_size == capped(sum.proof_size + bw.proof_size)
            } else {
                &&& candidates_left.len() == 0
                &&& trials.are_complete(bitfields.len(), limit)
                &&& forall|k: int|
                    0 <= k < bitfields.len() ==> call_ensures(
                        <T::WeightInfo as WeightInfo>::signed_bitfield_weight,
                        (&bitfields[trials.order[k] as int],),
                        #[trigger] trials.account.weights[k],
                    )
                &&& bitfields_left == trials.stayed.map_values(|p: usize| bitfields[p as int])
                &&& trials.order == trial_order(bitfields.len(), Seq::empty(), rng)
                &&& rng_left == rng_after_selection(bitfields.len(), Seq::empty(), rng)
                &&& weight == trials.account.sums[bitfields.len() as int]
            }
        }),
{
    let (cw, bw) = choose|cw: Weight, bw: Weight| #[trigger]
        weighs_candidates::<T>(candidates, cw) && #[trigger] weighs_bitfields::<T>(bitfields, bw)
            && limited_by::<T>(
            candidates,
            bitfields,
            limit,
            rng,
            candidates_left,
            bitfields_left,
            rng_left,
            weight,
            cw,
            bw,
        );
    assert(asked_of_candidates::<T>(candidates, cw));
    assert(asked_of_bitfields::<T>(bitfields, bw));
    let all = chains(candidates);
    if limit.all_gte(bw.saturating_add(cw)) {
        (
            cw,
            bw,
            all,
            Trials {
                order: Seq::empty(),
                account: Account { weights: Seq::empty(), sums: Seq::empty(), taken: Seq::empty() },
                stayed: Seq::empty(),
            },
        )
    } else if bw.all_lte(limit) {
        let rest = limit.saturating_sub(bw);
        let (acc, places) = choose|acc: Weight, places: Seq<usize>| #[trigger]
            chains_cut::<T>(all, rest, rng, acc, places) && candidates_left == kept_at(
                all,
                places,
            ).flatten() && weight == acc.saturating_add(bw) && rng_left == rng_after_selection(
                all.len(),
                upgrading(all),
                rng,
            );
        chains_no_more_than_candidates(candidates);
        chains_split_candidates(candidates);
        upgrading_are_places(all);
        upgrading_members(all);
        let order = trial_order(all.len(), upgrading(all), rng);
        let account = selection_goes_by_account(
            weight_of_chain::<T>(all),
            order,
            rest,
            acc,
            places,
        );
        order_is_complete(order, all.len());
        kept_at_picks_places(all, places);
        assert forall|k: int| 0 <= k < all.len() implies asked_of_candidates::<T>(
            all[order[k] as int],
            #[trigger] account.weights[k],
        ) by {
            assert(weighs_candidates::<T>(all[order[k] as int], account.weights[k]));
        }
        assert forall|j: int, k: int|
            0 <= j < k < all.len() && carries_upgrade(
                all[(#[trigger] order[k]) as int],
            ) implies carries_upgrade(all[(#[trigger] order[j]) as int]) by {
            assert(upgrading(all).contains(order[k]));
            assert(upgrading(all).contains(order[j]));
        }
        (cw, bw, all, Trials { order, account, stayed: places })
    } else {
        let places = choose|places: Seq<usize>| #[trigger]
            bitfields_cut::<T>(bitfields, limit, rng, weight, places) && bitfields_left == kept_at(
                bitfields,
                places,
            ) && rng_left == rng_after_selection(bitfields.len(), Seq::empty(), rng);
        let order = trial_order(bitfields.len(), Seq::empty(), rng);
        let account = selection_goes_by_account(
            weight_of_bitfield::<T>(bitfields),
            order,
            limit,
            weight,
            places,
        );
        order_is_complete(order, bitfields.len());
        kept_at_picks_places(bitfields, places);
        assert forall|k: int| 0 <= k < bitfields.len() implies call_ensures(
            <T::WeightInfo as WeightInfo>::signed_bitfield_weight,
            (&bitfields[order[k] as int],),
            #[trigger] account.weights[k],
        ) by {
            assert(weighs_bitfield::<T>(bitfields[order[k] as int], account.weights[k]));
        }
        (cw, bw, all, Trials { order, account, stayed: places })
    }
}

/// An order that holds each of `n` numbers, and none twice, is `n` long.
proof fn order_is_complete(order: Seq<usize>, n: nat)
    requires
        n <= usize::MAX,
        order.no_duplicates(),
        forall|i: usize| i < n ==> #[trigger] order.contains(i),
        forall|k: int| 0 <= k < order.len() ==> #[trigger] order[k] < n,
    ensures
        order.len() == n,
{
    let numbers = Seq::new(n, |i: int| i as usize);
    assert forall|k: int| 0 <= k < order.len() implies numbers.contains(#[trigger] order[k]) by {
        assert(numbers[order[k] as int] == order[k]);
    }
    assert forall|k: int| 0 <= k < numbers.len() implies order.contains(#[trigger] numbers[k]) by {
    }
    assert(numbers.no_duplicates());
    places_fit(order, numbers);
    places_fit(numbers, order);
}

/// Where the randomness comes in: the runs with a code upgrade, and then the others, are
/// tried in the order that shuffling gives them.
pub proof fn cut_follows_the_generator(
    chains: Seq<Seq<BackedCandidate>>,
    rng: SelectionRng,
) -> (r: (Seq<usize>, Seq<usize>))
    requires
        chains.len() <= usize::MAX,
    ensures
        ({
            let (upgrades, others) = r;
            &&& forall|x: usize| #[trigger]
                upgrades.contains(x) <==> x < chains.len() && carries_upgrade(chains[x as int])
            &&& forall|x: usize| #[trigger]
                others.contains(x) <==> x < chains.len() && !carries_upgrade(chains[x as int])
            &&& forall|i: int, j: int| 0 <= i < j < upgrades.len() ==> upgrades[i] < upgrades[j]
            &&& forall|i: int, j: int| 0 <= i < j < others.len() ==> others[i] < others[j]
            &&& chains.len() > 0 ==> {
                let (first, between) = shuffle_outcome(rng.seed@, rng.word_pos, upgrades);
                let (second, after) = shuffle_outcome(rng.seed@, between, others);
                &&& trial_order(chains.len(), upgrading(chains), rng) == first.filter(
                    |i: usize| i < chains.len(),
                ) + second
                &&& rng_after_selection(chains.len(), upgrading(chains), rng).word_pos == after
            }
        }),
{
    upgrading_members(chains);
    let others = trial_order_is_shuffled(chains.len(), upgrading(chains), rng);
    assert forall|x: usize| #[trigger] others.contains(x) <==> x < chains.len()
        && !carries_upgrade(chains[x as int]) by {
        assert(upgrading(chains).contains(x) <==> x < chains.len() && carries_upgrade(
            chains[x as int],
        ));
    }
    (upgrading(chains), others)
}

} // verus!
