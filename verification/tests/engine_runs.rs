use std::sync::atomic::AtomicBool;
use zpp::bignat::BigNat;
use zpp::profile::Profile;
use zpp::engines::Search;
use zpp::engines::bcj::BcjEngine;
use zpp::engines::bonnetain::BonnetainEngine;
use zpp::engines::bridge::BridgeEngine;
use zpp::engines::digit_filter::DigitFilterEngine;
use zpp::engines::dominance::DominanceEngine;
use zpp::engines::estimate::{EstimateEngine, pick_initial, Adjusted};
use zpp::engines::gdep::GdepEngine;
use zpp::engines::greedy::GreedyEngine;
use zpp::engines::group_decompose::GroupDecomposeEngine;
use zpp::engines::hard_u128::HardU128Engine;
use zpp::engines::hash_mitm::HashMitmEngine;
use zpp::engines::hgj::HgjEngine;
use zpp::engines::ksum::KSumEngine;
use zpp::engines::quantum_grover::QuantumGrover;
use zpp::engines::randomized::RandomizedEngine;
use zpp::engines::recursive_density::RecursiveDensitySolver;
use zpp::engines::schroeppel_shamir::SchroeppelShamirEngine;
use zpp::engines::split_solver::SplitSolver;
use zpp::engines::tiny_brute::TinyBruteEngine;
use zpp::engines::turbospec::TurboSpecEngine;
use zpp::engines::unified_solver::UnifiedSolver;
use zpp::engines::distributed_solver::{DistributedSolver, Share};

fn big(x: u64) -> BigNat {
    BigNat::from_digits(vec![x as u32, (x >> 32) as u32])
}

fn value(b: &BigNat) -> u128 {
    let mut v: u128 = 0;
    for (i, d) in b.digits().iter().enumerate() {
        v += (*d as u128) << (32 * i);
    }
    v
}

fn profile(nums: &[u64], target: u64) -> Profile {
    Profile::new(nums.iter().map(|&x| big(x)).collect(), big(target))
}

/// The found subset, after checking that it is drawn from `nums` and sums
/// to `target`.
fn found(r: &Search, nums: &[u64], target: u64) -> Option<Vec<u128>> {
    match r {
        Search::Found(sol) => {
            let mut pool: Vec<u128> = nums.iter().map(|&x| x as u128).collect();
            let mut got: Vec<u128> = Vec::new();
            for b in sol {
                let v = value(b);
                let pos = pool.iter().position(|&x| x == v).expect("a number of the instance");
                pool.remove(pos);
                got.push(v);
            }
            assert_eq!(got.iter().sum::<u128>(), target as u128);
            got.sort();
            Some(got)
        }
        _ => None,
    }
}

const CLASSIC: [u64; 14] = [1, 3, 7, 21, 50, 200, 400, 499, 1000, 1500, 2000, 5000, 10000, 25000];

fn no_stop() -> AtomicBool {
    AtomicBool::new(false)
}

#[test]
fn gdep_finds_classic() {
    let p = profile(&CLASSIC, 5570);
    let r = GdepEngine.run(&p, &no_stop());
    assert!(found(&r, &CLASSIC, 5570).is_some());
}

#[test]
fn gdep_refutes_unreachable() {
    let nums = [4u64, 6, 10, 16];
    let p = profile(&nums, 7);
    assert!(matches!(GdepEngine.run(&p, &no_stop()), Search::Done));
}

#[test]
fn greedy_finds_classic() {
    let p = profile(&CLASSIC, 5570);
    let r = GreedyEngine.run(&p, &no_stop());
    assert!(found(&r, &CLASSIC, 5570).is_some());
}

#[test]
fn greedy_done_means_unreachable() {
    let nums = [4u64, 6, 10, 16];
    let p = profile(&nums, 7);
    assert!(matches!(GreedyEngine.run(&p, &no_stop()), Search::Done));
}

#[test]
fn turbospec_finds_and_refutes() {
    let p = profile(&CLASSIC, 5570);
    assert!(found(&TurboSpecEngine.run(&p, &no_stop()), &CLASSIC, 5570).is_some());
    let nums = [4u64, 6, 10, 16];
    assert!(matches!(TurboSpecEngine.run(&profile(&nums, 7), &no_stop()), Search::Done));
}

#[test]
fn quantum_grover_finds_and_refutes() {
    let p = profile(&CLASSIC, 5570);
    assert!(found(&QuantumGrover.run(&p, &no_stop()), &CLASSIC, 5570).is_some());
    let nums = [4u64, 6, 10, 16];
    assert!(matches!(QuantumGrover.run(&profile(&nums, 7), &no_stop()), Search::Done));
}

#[test]
fn schroeppel_shamir_answers_are_sound() {
    let p = profile(&CLASSIC, 5570);
    let r = SchroeppelShamirEngine.run(&p, &no_stop());
    assert!(!matches!(r, Search::Impossible));
    found(&r, &CLASSIC, 5570);
}

#[test]
fn tiny_brute_on_small_instances() {
    let nums = [0u64, 1, 2, 3, 4, 5];
    let r = TinyBruteEngine.run(&profile(&nums, 7), &no_stop());
    assert!(found(&r, &nums, 7).is_some());
    let nums2 = [4u64, 6, 10, 16];
    assert!(matches!(TinyBruteEngine.run(&profile(&nums2, 7), &no_stop()), Search::Done));
}

#[test]
fn dominance_solves_super_increasing() {
    let nums: Vec<u64> = (0..8).map(|k| 1u64 << k).collect();
    let r = DominanceEngine.run(&profile(&nums, 100), &no_stop());
    assert_eq!(found(&r, &nums, 100), Some(vec![4, 32, 64]));
}

#[test]
fn dominance_declines_ordinary_sets() {
    let r = DominanceEngine.run(&profile(&CLASSIC, 5570), &no_stop());
    assert!(matches!(r, Search::Done));
}

#[test]
fn unified_solver_finds_classic() {
    let p = profile(&CLASSIC, 5570);
    let r = UnifiedSolver.run(&p, &no_stop());
    assert!(found(&r, &CLASSIC, 5570).is_some());
}

#[test]
fn unified_solver_leaves_large_instances() {
    let nums: Vec<u64> = (1..=51).collect();
    assert!(matches!(UnifiedSolver.run(&profile(&nums, 100), &no_stop()), Search::Done));
}

#[test]
fn bridge_estimate_ksum_randomized_are_sound() {
    let p = profile(&CLASSIC, 5570);
    let s = no_stop();
    found(&BridgeEngine.run(&p, &s), &CLASSIC, 5570);
    found(&EstimateEngine.run(&p, &s), &CLASSIC, 5570);
    found(&KSumEngine.run(&p, &s), &CLASSIC, 5570);
    found(&RandomizedEngine.run(&p, &s), &CLASSIC, 5570);
    found(&SplitSolver.run(&p, &s), &CLASSIC, 5570);
}

#[test]
fn engines_outside_their_sizes_do_nothing() {
    let p = profile(&CLASSIC, 5570);
    let s = no_stop();
    assert!(matches!(BcjEngine.run(&p, &s), Search::Done));
    assert!(matches!(BonnetainEngine.run(&p, &s), Search::Done));
    assert!(matches!(HgjEngine.run(&p, &s), Search::Done));
    assert!(matches!(GroupDecomposeEngine.run(&p, &s), Search::Done));
    assert!(matches!(HashMitmEngine.run(&p, &s), Search::Done));
    assert!(!matches!(HardU128Engine.run(&p, &s), Search::Found(_)));
    assert!(matches!(RecursiveDensitySolver.run(&profile(&[1, 2, 3], 3), false, &s), Search::Done));
}

#[test]
fn hash_mitm_on_twenty_numbers() {
    let nums: Vec<u64> = (0..20).map(|k| 1000 + 37 * k * k + k).collect();
    let target = nums[1] + nums[5] + nums[11] + nums[19];
    let r = HashMitmEngine.run(&profile(&nums, target), &no_stop());
    found(&r, &nums, target);
}

#[test]
fn last_two_digits_filter() {
    let nums: Vec<BigNat> = [10u64, 20, 30].iter().map(|&x| big(x)).collect();
    assert!(!DigitFilterEngine::last_2_digits_reachable(&nums, &big(15)));
    assert!(DigitFilterEngine::last_2_digits_reachable(&nums, &big(50)));
}

#[test]
fn stop_flag_is_respected_by_sound_engines() {
    let p = profile(&CLASSIC, 5570);
    let stop = AtomicBool::new(true);
    let r = GdepEngine.run(&p, &stop);
    assert!(!matches!(r, Search::Impossible));
    found(&r, &CLASSIC, 5570);
}

#[test]
fn hgj_meets_across_two_copies_of_powers_of_two() {
    let mut nums: Vec<u64> = (0..20).map(|k| 1u64 << k).collect();
    nums.extend((0..20).map(|k| 1u64 << k));
    let target = (1u64 << 20) - 1;
    let r = HgjEngine.run(&profile(&nums, target), &no_stop());
    assert!(found(&r, &nums, target).is_some());
}

#[test]
fn hgj_ends_without_a_subset_on_odd_target_over_evens() {
    let nums: Vec<u64> = (1..=40).map(|k| 2 * k).collect();
    let r = HgjEngine.run(&profile(&nums, 41), &no_stop());
    assert!(matches!(r, Search::Done));
}

#[test]
fn schroeppel_shamir_finds_three_small_numbers() {
    let mut nums = vec![1u64; 8];
    nums.extend(vec![100u64; 8]);
    let r = SchroeppelShamirEngine.run(&profile(&nums, 3), &no_stop());
    assert_eq!(found(&r, &nums, 3), Some(vec![1, 1, 1]));
}

#[test]
fn schroeppel_shamir_done_means_unreachable() {
    let nums: Vec<u64> = (1..=16).map(|k| 2 * k).collect();
    let r = SchroeppelShamirEngine.run(&profile(&nums, 33), &no_stop());
    assert!(matches!(r, Search::Done));
}

fn huge(k: u32) -> BigNat {
    BigNat::from_digits(vec![k, 0, 0, 0, 1])
}

#[test]
fn schroeppel_shamir_on_numbers_beyond_u128() {
    let nums: Vec<BigNat> = (1..=16).map(huge).collect();
    let target = BigNat::from_digits(vec![6, 0, 0, 0, 3]);
    let p = Profile::new(nums, target);
    match SchroeppelShamirEngine.run(&p, &no_stop()) {
        Search::Found(sol) => {
            assert_eq!(sol.len(), 3);
            let low: u32 = sol.iter().map(|b| b.digits()[0]).sum();
            assert_eq!(low, 6);
        }
        _ => panic!("a subset exists"),
    }
    let nums2: Vec<BigNat> = (1..=16).map(huge).collect();
    let unreachable = BigNat::from_digits(vec![1000, 0, 0, 0, 3]);
    let r = SchroeppelShamirEngine.run(&Profile::new(nums2, unreachable), &no_stop());
    assert!(matches!(r, Search::Done));
}

#[test]
fn magnitude_hierarchy_zero_target_is_the_empty_subset() {
    let r = UnifiedSolver::md_mitm_hierarchy(&profile(&[1, 2, 3], 0), &no_stop());
    match r {
        Search::Found(sol) => assert!(sol.is_empty()),
        _ => panic!("the empty subset sums to zero"),
    }
}

#[test]
fn magnitude_hierarchy_settles_the_instance() {
    let nums = [4u64, 6, 10, 16];
    let r = UnifiedSolver::md_mitm_hierarchy(&profile(&nums, 7), &no_stop());
    assert!(matches!(r, Search::Done));
    let r2 = UnifiedSolver::md_mitm_hierarchy(&profile(&CLASSIC, 5570), &no_stop());
    assert!(found(&r2, &CLASSIC, 5570).is_some());
    assert!(matches!(UnifiedSolver::md_mitm_hierarchy(&profile(&[], 5), &no_stop()), Search::Impossible));
}

#[test]
fn quadrant_workers_split_the_pairs() {
    let p = profile(&CLASSIC, 5570);
    let t = DistributedSolver::ss_quadrant_tables(&p).expect("quarters of at least two numbers");
    let s = no_stop();
    let hits: Vec<bool> = (0..3)
        .map(|w| matches!(DistributedSolver::ss_quadrant_worker(&t, w, 3, &big(5570), &s), Share::Hit(_)))
        .collect();
    assert!(hits.iter().any(|&h| h));
    let nums = [4u64, 6, 10, 16, 20, 22, 26, 30];
    let q = profile(&nums, 7);
    let t2 = DistributedSolver::ss_quadrant_tables(&q).expect("quarters of two numbers");
    for w in 0..2 {
        assert!(matches!(DistributedSolver::ss_quadrant_worker(&t2, w, 2, &big(7), &s), Share::Miss));
    }
}

#[test]
fn digit_filter_engine_refutes_by_last_two_digits() {
    let s = no_stop();
    assert!(matches!(DigitFilterEngine.run(&profile(&[10, 20, 30], 15), &s), Search::Impossible));
    assert!(matches!(DigitFilterEngine.run(&profile(&[10, 20, 30], 50), &s), Search::Done));
}

#[test]
fn hash_mitm_halves_settle_the_instance() {
    let nums: Vec<u64> = (1..=20).map(|k| 2 * k).collect();
    let r = HashMitmEngine.run(&profile(&nums, 41), &no_stop());
    assert!(matches!(r, Search::Done));
}

#[test]
fn hash_mitm_quarters_settle_the_instance() {
    let nums: Vec<u64> = (1..=36).map(|k| 2 * k).collect();
    let r = HashMitmEngine.run(&profile(&nums, 41), &no_stop());
    assert!(matches!(r, Search::Done));
    let r2 = HashMitmEngine.run(&profile(&nums, 2 + 40 + 72), &no_stop());
    assert!(found(&r2, &nums, 114).is_some());
}

#[test]
fn recursive_density_settles_up_to_forty_four_numbers() {
    let s = no_stop();
    let nums: Vec<u64> = (1..=30).map(|k| 2 * k).collect();
    assert!(matches!(RecursiveDensitySolver.run(&profile(&nums, 61), false, &s), Search::Done));
    let r = RecursiveDensitySolver.run(&profile(&nums, 60), false, &s);
    assert!(found(&r, &nums, 60).is_some());
}

#[test]
fn bcj_keeps_one_combination_per_bucket() {
    // Every combination of multiples of the modulus lands in bucket 0,
    // where only the empty combination is kept.
    let nums: Vec<u64> = (1..=40).map(|k| 8192 * k).collect();
    let r = BcjEngine.run(&profile(&nums, 3 * 8192), &no_stop());
    assert!(matches!(r, Search::Done));
}

#[test]
fn ksum_keeps_the_first_pair_per_total() {
    // 8 + 7 + 7 + 4 = 26, but the pair stored for each total overlaps the
    // pair that looks it up.
    let nums = [5u64, 3, 4, 5, 8, 7, 7];
    assert!(matches!(KSumEngine.run(&profile(&nums, 26), &no_stop()), Search::Done));
}

#[test]
fn bridge_done_when_no_gap_can_close() {
    // Every number passes the target, so each greedy pass leaves the whole
    // target as its gap, and no unused numbers fill it.
    let p = profile(&[10, 7, 7], 3);
    assert!(matches!(BridgeEngine.run(&p, &no_stop()), Search::Done));
    // Greedy takes 7 and leaves a gap of 4 that no unused number fills;
    // passing over the 7 gives 6 + 5.
    let nums = [7, 6, 5];
    assert_eq!(found(&BridgeEngine.run(&profile(&nums, 11), &no_stop()), &nums, 11), Some(vec![5, 6]));
}

#[test]
fn randomized_done_when_every_fill_misses() {
    let p = profile(&[10, 7, 7], 3);
    assert!(matches!(RandomizedEngine.run(&p, &no_stop()), Search::Done));
}

#[test]
fn group_decompose_done_when_no_group_choice_fits() {
    // Thirty even numbers in three groups of ten: no choice of one sum per
    // group makes an odd total.
    let nums: Vec<u64> = (1..=30).map(|x| 2 * x).collect();
    assert!(matches!(GroupDecomposeEngine.run(&profile(&nums, 31), &no_stop()), Search::Done));
    let got = found(&GroupDecomposeEngine.run(&profile(&nums, 930), &no_stop()), &nums, 930);
    assert_eq!(got, Some(nums.iter().map(|&x| x as u128).collect()));
}

#[test]
fn split_solver_searches_within_segments() {
    // Sorted [1, 2, 10, 11] is cut before 11 (10 + 11 > target).
    let nums = [11, 2, 10, 1];
    assert_eq!(found(&SplitSolver.run(&profile(&nums, 12), &no_stop()), &nums, 12), Some(vec![2, 10]));
    // 1 + 2 + 11 = 14 spans both segments, and neither segment reaches 14
    // on its own.
    assert!(matches!(SplitSolver.run(&profile(&nums, 14), &no_stop()), Search::Done));
}

#[test]
fn estimate_starting_orders() {
    let p = profile(&[5, 1, 9, 3], 10);
    // Largest first.
    assert_eq!(pick_initial(&p, 2, 0), vec![2, 0]);
    // Closest to the mean 18 / 4 = 4, ties by position.
    assert_eq!(pick_initial(&p, 3, 1), vec![0, 3, 1]);
    // Closest to 10 / 2 = 5.
    assert_eq!(pick_initial(&p, 2, 2), vec![0, 3]);
    assert_eq!(pick_initial(&p, 0, 2), Vec::<usize>::new());
}

#[test]
fn estimate_adjust_steps() {
    let p = profile(&[5, 1, 9, 3], 10);
    // 9 alone is one short; the unused number closest to 1 is 1.
    match EstimateEngine.adjust(&p, vec![2], &no_stop()) {
        Adjusted::Hit(sol) => {
            let mut got: Vec<u128> = sol.iter().map(value).collect();
            got.sort();
            assert_eq!(got, vec![1, 9]);
        }
        _ => panic!("expected a hit"),
    }
    // 10 alone overshoots 3 and nothing else fits below 3.
    let q = profile(&[10, 7, 7], 3);
    assert!(matches!(EstimateEngine.adjust(&q, vec![0], &no_stop()), Adjusted::Miss));
    assert!(matches!(EstimateEngine.run(&q, &no_stop()), Search::Done));
}

#[test]
fn ksum_finds_four_numbers() {
    // No three of these sum to 15; 1 + 2 + 4 + 8 does.
    let nums = [1, 2, 4, 8, 16];
    assert_eq!(found(&KSumEngine.run(&profile(&nums, 15), &no_stop()), &nums, 15), Some(vec![1, 2, 4, 8]));
}
