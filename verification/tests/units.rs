use paras_inherent::backing::{indexed_retain_not, sort_by_core};
use paras_inherent::bitfields::{create_disputed_bitfield, DisputedBitfield};
use paras_inherent::bits::BitString;
use paras_inherent::candidate::{BackedCandidate, CommittedCandidateReceipt};
use paras_inherent::cores::collect_scheduled;
use paras_inherent::disabled::{
    collect_indices, drop_disabled_votes, drop_votes, effective_minimum_backing_votes,
};
use paras_inherent::dispatch::{fail, DispatchError, Error, Pays, PostDispatchInfo};
use paras_inherent::freed::add_freed;
use paras_inherent::primitives::{
    BackingRecord, CandidateHash, CandidateReceipt, CheckedDisputeStatementSet, CoreIndex,
    DisputeStatementSet, FreedReason, ParaId, ValidatorIndex, ValidatorSignature,
    ValidityAttestation, H256,
};
use paras_inherent::relay_parents::{AllowedRelayParentsTracker, RelayParent};
use paras_inherent::retain::{is_among, retain_at};
use paras_inherent::rng::SelectionRng;
use paras_inherent::selection::{random_sel, sort_indices};
use paras_inherent::stages::{check_sanitized, ProcessInherentDataContext};
use paras_inherent::votes::{set_scrapable_on_chain_backings, set_scrapable_on_chain_disputes};
use paras_inherent::weight::Weight;
use rand::seq::SliceRandom;
use rand::SeedableRng;
use std::collections::{BTreeMap, BTreeSet};

fn bits(text: &str) -> BitString {
    let values: Vec<bool> = text.chars().map(|c| c == '1').collect();
    BitString::from_bits(&values)
}

fn text(bits: &BitString) -> String {
    bits.to_bits().iter().map(|b| if *b { '1' } else { '0' }).collect()
}

fn vote(n: u8) -> ValidityAttestation {
    ValidityAttestation::Explicit(ValidatorSignature([n; 64]))
}

fn candidate(para: u32, indices: &str, votes: &[u8]) -> BackedCandidate {
    BackedCandidate {
        candidate: CommittedCandidateReceipt {
            para_id: ParaId(para),
            relay_parent: H256([1; 32]),
            new_validation_code: None,
            encoded: vec![para as u8],
        },
        validity_votes: votes.iter().map(|n| vote(*n)).collect(),
        validator_indices: bits(indices),
    }
}

fn group(validators: &[u32]) -> Vec<ValidatorIndex> {
    validators.iter().map(|v| ValidatorIndex(*v)).collect()
}

fn set(validators: &[u32]) -> BTreeSet<u32> {
    collect_indices(&group(validators))
}

#[test]
fn weights_add_and_subtract_in_both_dimensions() {
    let a = Weight::from_parts(5, 7);
    let b = Weight::from_parts(2, 9);
    assert_eq!(a.saturating_add(b), Weight::from_parts(7, 16));
    assert_eq!(a.saturating_sub(b), Weight::from_parts(3, 0));
    assert_eq!(a.checked_sub(b), None);
    assert_eq!(a.checked_sub(Weight::from_parts(5, 6)), Some(Weight::from_parts(0, 1)));
    assert_eq!(a.set_proof_size(1), Weight::from_parts(5, 1));
    assert_eq!(
        Weight::from_parts(u64::MAX, 1).saturating_add(a),
        Weight::from_parts(u64::MAX, 8)
    );
    assert_eq!(Weight::zero(), Weight::from_parts(0, 0));
}

#[test]
fn weights_compare_in_both_dimensions() {
    let a = Weight::from_parts(5, 7);
    assert!(a.all_lte(Weight::from_parts(5, 7)));
    assert!(!a.all_lte(Weight::from_parts(9, 6)));
    assert!(a.any_gt(Weight::from_parts(9, 6)));
    assert!(!a.any_gt(a));
    assert!(a.all_gte(Weight::from_parts(5, 0)));
    assert!(!a.all_gte(Weight::from_parts(6, 0)));
}

#[test]
fn bits_go_in_and_out() {
    assert_eq!(text(&bits("")), "");
    assert_eq!(text(&bits("1011000011101")), "1011000011101");
    assert_eq!(text(&bits("1011000011101").clone()), "1011000011101");
}

#[test]
fn disputed_bitfield_zeros_and_from() {
    assert_eq!(text(&DisputedBitfield::zeros(11).0), "00000000000");
    assert_eq!(text(&DisputedBitfield::from(bits("0110")).0), "0110");
}

#[test]
fn disputed_bitfield_marks_freed_cores() {
    let cores = vec![CoreIndex(3), CoreIndex(1), CoreIndex(3), CoreIndex(6), CoreIndex(99)];
    assert_eq!(text(&create_disputed_bitfield(6, &cores).0), "010100");
    assert_eq!(text(&create_disputed_bitfield(0, &cores).0), "");
    assert_eq!(text(&create_disputed_bitfield(3, &Vec::new()).0), "000");
}

#[test]
fn core_index_is_read_from_the_last_eight_bits() {
    // 0b0000_0101 spelled lowest bit first.
    let c = candidate(1, "11010100000", &[]);
    let (indices, core) = c.validator_indices_and_core_index(true);
    assert_eq!(text(&indices), "110");
    assert_eq!(core, Some(CoreIndex(5)));
    let (indices, core) = c.validator_indices_and_core_index(false);
    assert_eq!(text(&indices), "11010100000");
    assert_eq!(core, None);
}

#[test]
fn eight_validator_bits_hold_no_core_index() {
    let c = candidate(1, "11010100", &[]);
    let (indices, core) = c.validator_indices_and_core_index(true);
    assert_eq!(text(&indices), "11010100");
    assert_eq!(core, None);
}

#[test]
fn core_index_survives_injection() {
    for core in [0u32, 1, 5, 128, 255] {
        let mut c = candidate(1, "", &[]);
        c.set_validator_indices_and_core_index(bits("101"), Some(CoreIndex(core)));
        let (indices, read) = c.validator_indices_and_core_index(true);
        assert_eq!(text(&indices), "101");
        assert_eq!(read, Some(CoreIndex(core)));
    }
    let mut c = candidate(1, "", &[]);
    c.set_validator_indices_and_core_index(bits("101"), Some(CoreIndex(256 + 6)));
    assert_eq!(c.validator_indices_and_core_index(true).1, Some(CoreIndex(6)));
    c.set_validator_indices_and_core_index(bits("01"), None);
    assert_eq!(text(&c.validator_indices), "01");
}

#[test]
fn relay_parents_are_found_by_hash() {
    let entry = |h: u8, n: u32| RelayParent {
        hash: H256([h; 32]),
        storage_root: H256([h + 100; 32]),
        number: n,
    };
    let tracker = AllowedRelayParentsTracker { entries: vec![entry(1, 10), entry(2, 11)] };
    assert_eq!(tracker.acquire_info(H256([2; 32])), Some((H256([102; 32]), 11)));
    assert_eq!(tracker.acquire_info(H256([3; 32])), None);
}

#[test]
fn shuffle_is_that_of_a_seeded_chacha_generator() {
    let seed = [42u8; 32];
    let mut expected: Vec<usize> = (0..40).collect();
    let mut second: Vec<usize> = (0..7).collect();
    let mut chacha = rand_chacha::ChaChaRng::from_seed(seed);
    expected.shuffle(&mut chacha);
    second.shuffle(&mut chacha);

    let mut rng = SelectionRng::from_seed(seed);
    let shuffled = rng.shuffle((0..40).collect());
    assert_eq!(shuffled, expected);
    assert_ne!(shuffled, (0..40).collect::<Vec<usize>>());
    assert_eq!(rng.shuffle((0..7).collect()), second);
    assert_eq!(rng.word_pos, chacha.get_word_pos());
}

#[test]
fn indices_are_sorted_and_looked_up() {
    assert_eq!(sort_indices(vec![3, 1, 2, 1]), vec![1, 1, 2, 3]);
    let places = vec![1usize, 4, 6];
    assert!(is_among(&places, 4));
    assert!(!is_among(&places, 5));
    assert_eq!(retain_at(vec!['a', 'b', 'c', 'd', 'e'], &vec![1, 4]), vec!['b', 'e']);
}

#[test]
fn random_selection_takes_everything_that_fits() {
    let mut rng = SelectionRng::from_seed([1; 32]);
    let items = [10u64, 20, 30];
    let (weight, picked) = random_sel(
        &mut rng,
        &items,
        vec![],
        |w: &u64| Weight::from_parts(*w, 1),
        Weight::from_parts(60, 3),
    );
    assert_eq!(weight, Weight::from_parts(60, 3));
    assert_eq!(picked, vec![0, 1, 2]);
}

#[test]
fn random_selection_prefers_preferred_items() {
    for seed in 0..20u8 {
        let mut rng = SelectionRng::from_seed([seed; 32]);
        let items = [10u64, 10, 10, 10];
        let (weight, picked) = random_sel(
            &mut rng,
            &items,
            vec![2],
            |w: &u64| Weight::from_parts(*w, 0),
            Weight::from_parts(15, 0),
        );
        assert_eq!(weight, Weight::from_parts(10, 0));
        assert_eq!(picked, vec![2]);
    }
}

#[test]
fn random_selection_follows_the_shuffled_order() {
    // One item fits at most, so the one that is tried first is taken.
    let seed = [9u8; 32];
    let mut order: Vec<usize> = (0..6).collect();
    let mut chacha = rand_chacha::ChaChaRng::from_seed(seed);
    order.shuffle(&mut chacha);
    let mut rng = SelectionRng::from_seed(seed);
    let items = [10u64; 6];
    let (weight, picked) = random_sel(
        &mut rng,
        &items,
        vec![],
        |w: &u64| Weight::from_parts(*w, 0),
        Weight::from_parts(19, 0),
    );
    assert_eq!(weight, Weight::from_parts(10, 0));
    assert_eq!(picked, vec![order[0]]);
}

#[test]
fn random_selection_skips_what_does_not_fit_and_goes_on() {
    for seed in 0..10u8 {
        let mut rng = SelectionRng::from_seed([seed; 32]);
        let items = [100u64, 5];
        let (weight, picked) = random_sel(
            &mut rng,
            &items,
            vec![],
            |w: &u64| Weight::from_parts(*w, 0),
            Weight::from_parts(7, 0),
        );
        assert_eq!(weight, Weight::from_parts(5, 0));
        assert_eq!(picked, vec![1]);
    }
}

#[test]
fn votes_of_dropped_voters_are_dropped() {
    let votes: Vec<ValidityAttestation> = [1u8, 2, 3].iter().map(|n| vote(*n)).collect();
    // The voters stand at 1, 2 and 4.
    let left = drop_votes(&votes, &bits("01101"), &bits("11100"));
    assert_eq!(left, vec![vote(3)]);
    let left = drop_votes(&votes, &bits("01101"), &bits("00001"));
    assert_eq!(left, vec![vote(1), vote(2)]);
    let left = drop_votes(&votes, &bits("01"), &bits("01"));
    assert_eq!(left, vec![vote(2), vote(3)]);
    let left = drop_votes(&votes, &bits("01101"), &bits(""));
    assert_eq!(left, votes);
}

#[test]
fn disabled_validators_lose_bit_and_vote() {
    let mut c = candidate(1, "0111", &[11, 12, 13]);
    let dropped = drop_disabled_votes(&mut c, &group(&[20, 21, 22, 23]), &set(&[22, 99]), false);
    assert!(dropped);
    assert_eq!(text(&c.validator_indices), "0101");
    assert_eq!(c.validity_votes, vec![vote(11), vote(13)]);
    // A second time there is nothing to drop.
    let dropped = drop_disabled_votes(&mut c, &group(&[20, 21, 22, 23]), &set(&[22, 99]), false);
    assert!(!dropped);
    assert_eq!(text(&c.validator_indices), "0101");
    assert_eq!(c.validity_votes, vec![vote(11), vote(13)]);
}

#[test]
fn disabled_validators_that_did_not_vote_do_not_matter() {
    let mut c = candidate(1, "1010", &[11, 12]);
    let dropped = drop_disabled_votes(&mut c, &group(&[20, 21, 22, 23]), &set(&[21]), false);
    assert!(!dropped);
    assert_eq!(text(&c.validator_indices), "1010");
    assert_eq!(c.validity_votes, vec![vote(11), vote(12)]);
}

#[test]
fn dropping_votes_keeps_the_core_index() {
    let mut c = candidate(1, "", &[11, 12]);
    c.set_validator_indices_and_core_index(bits("110"), Some(CoreIndex(3)));
    let dropped = drop_disabled_votes(&mut c, &group(&[20, 21, 22]), &set(&[20]), true);
    assert!(dropped);
    let (indices, core) = c.validator_indices_and_core_index(true);
    assert_eq!(text(&indices), "010");
    assert_eq!(core, Some(CoreIndex(3)));
    assert_eq!(c.validity_votes, vec![vote(12)]);
}

#[test]
fn bits_past_the_group_are_cleared() {
    let mut c = candidate(1, "1011", &[11, 12, 13]);
    let dropped = drop_disabled_votes(&mut c, &group(&[20, 21]), &set(&[99]), false);
    assert!(!dropped);
    assert_eq!(text(&c.validator_indices), "1000");
    assert_eq!(c.validity_votes, vec![vote(11), vote(12), vote(13)]);
}

#[test]
fn minimum_of_votes_is_bounded_by_the_group() {
    assert_eq!(effective_minimum_backing_votes(5, 2), 2);
    assert_eq!(effective_minimum_backing_votes(1, 2), 1);
    assert_eq!(effective_minimum_backing_votes(0, 2), 0);
    assert_eq!(effective_minimum_backing_votes(2, 2), 2);
}

#[test]
fn candidates_are_sorted_by_core_and_stay_in_order() {
    let items = vec![
        (candidate(1, "", &[]), CoreIndex(4)),
        (candidate(2, "", &[]), CoreIndex(1)),
        (candidate(3, "", &[]), CoreIndex(4)),
        (candidate(4, "", &[]), CoreIndex(0)),
    ];
    let sorted: Vec<(u32, u32)> =
        sort_by_core(items).iter().map(|(c, core)| (c.candidate.para_id.0, core.0)).collect();
    assert_eq!(sorted, vec![(4, 0), (2, 1), (1, 4), (3, 4)]);
}

#[test]
fn retaining_hands_the_place_to_the_predicate() {
    let against = |k: usize, c: &char| k == 1 || *c == 'd';
    let left = indexed_retain_not(vec!['a', 'b', 'c', 'd'], &against);
    assert_eq!(left, vec!['a', 'c']);
}

#[test]
fn schedule_is_collected_by_parachain() {
    let paras = vec![
        (CoreIndex(0), ParaId(7)),
        (CoreIndex(3), ParaId(5)),
        (CoreIndex(2), ParaId(7)),
        (CoreIndex(2), ParaId(7)),
    ];
    let scheduled = collect_scheduled(&paras);
    assert_eq!(scheduled.len(), 2);
    assert_eq!(scheduled[&7].iter().cloned().collect::<Vec<u32>>(), vec![0, 2]);
    assert_eq!(scheduled[&5].iter().cloned().collect::<Vec<u32>>(), vec![3]);
}

#[test]
fn later_reasons_override_earlier_ones() {
    let mut freed: BTreeMap<u32, FreedReason> = BTreeMap::new();
    add_freed(&mut freed, &vec![CoreIndex(1), CoreIndex(2)], FreedReason::Concluded);
    add_freed(&mut freed, &vec![CoreIndex(2), CoreIndex(5)], FreedReason::TimedOut);
    let expected: BTreeMap<u32, FreedReason> = [
        (1, FreedReason::Concluded),
        (2, FreedReason::TimedOut),
        (5, FreedReason::TimedOut),
    ]
    .into_iter()
    .collect();
    assert_eq!(freed, expected);
}

#[test]
fn on_chain_votes_are_updated_independently() {
    let set = |n: u8| DisputeStatementSet {
        candidate_hash: CandidateHash(H256([n; 32])),
        session: 3,
        statements: vec![n],
    };
    let record = |n: u8| BackingRecord {
        receipt: CandidateReceipt { encoded: vec![n] },
        votes: vec![(ValidatorIndex(n as u32), vote(n))],
    };
    let mut votes = None;
    set_scrapable_on_chain_disputes(
        &mut votes,
        3,
        &vec![CheckedDisputeStatementSet { set: set(1) }],
    );
    let seen = votes.as_ref().unwrap();
    assert_eq!(seen.session, 3);
    assert_eq!(seen.disputes, vec![set(1)]);
    assert_eq!(seen.backing_validators_per_candidate, vec![]);
    set_scrapable_on_chain_backings(&mut votes, 4, vec![record(9)]);
    let seen = votes.as_ref().unwrap();
    assert_eq!(seen.session, 4);
    assert_eq!(seen.disputes, vec![set(1)]);
    assert_eq!(seen.backing_validators_per_candidate, vec![record(9)]);
    set_scrapable_on_chain_disputes(&mut votes, 5, &vec![]);
    let seen = votes.as_ref().unwrap();
    assert_eq!(seen.session, 5);
    assert_eq!(seen.disputes, vec![]);
    assert_eq!(seen.backing_validators_per_candidate, vec![record(9)]);
    let mut fresh = None;
    set_scrapable_on_chain_backings(&mut fresh, 1, vec![]);
    assert_eq!(fresh.unwrap().disputes, vec![]);
}

#[test]
fn sanitized_candidates_are_checked_in_the_context() {
    let build = ProcessInherentDataContext::ProvideInherent;
    let execute = ProcessInherentDataContext::Enter;
    assert_eq!(check_sanitized(build, 2, 2, true, true), Ok(()));
    assert_eq!(check_sanitized(build, 3, 2, false, false), Err(Error::UnscheduledCandidate));
    assert_eq!(check_sanitized(execute, 2, 2, false, false), Ok(()));
    assert_eq!(check_sanitized(execute, 2, 2, true, true), Err(Error::BackedByDisabled));
    assert_eq!(check_sanitized(execute, 2, 2, false, true), Err(Error::BackedOnUnscheduledCore));
}

#[test]
fn failures_cost_what_was_announced() {
    let failure = fail(DispatchError::Inherent(Error::InherentOverweight));
    assert_eq!(failure.error, DispatchError::Inherent(Error::InherentOverweight));
    assert_eq!(
        failure.post_info,
        PostDispatchInfo { actual_weight: None, pays_fee: Pays::Yes }
    );
}
