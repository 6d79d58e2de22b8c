use zpp::bignat::BigNat;
use zpp::profile::Profile;
use zpp::trivial::{solve, Trivial};

fn big(x: u64) -> BigNat {
    BigNat::from_digits(vec![x as u32, (x >> 32) as u32])
}

fn value(b: &BigNat) -> u128 {
    let mut v: u128 = 0;
    for (i, d) in b.digits().iter().enumerate() {
        v += (*d as u128) << (32 * i);
    }
    v
}

fn profile(nums: &[u64], target: u64) -> Profile {
    Profile::new(nums.iter().map(|&x| big(x)).collect(), big(target))
}

fn values(sol: &[BigNat]) -> Vec<u128> {
    let mut v: Vec<u128> = sol.iter().map(value).collect();
    v.sort();
    v
}

fn solved(nums: &[u64], target: u64) -> Option<Vec<u128>> {
    match solve(&profile(nums, target)) {
        Trivial::Solved(sol) => Some(values(&sol)),
        _ => None,
    }
}

fn impossible(nums: &[u64], target: u64) -> bool {
    matches!(solve(&profile(nums, target)), Trivial::Impossible)
}

#[test]
fn empty_set_target_zero_is_the_empty_subset() {
    assert_eq!(solved(&[], 0), Some(vec![]));
}

#[test]
fn single_match() {
    assert_eq!(solved(&[7], 7), Some(vec![7]));
}

#[test]
fn single_no_match_is_impossible() {
    assert!(impossible(&[7], 5));
}

#[test]
fn two_element_match() {
    assert_eq!(solved(&[3, 8], 11), Some(vec![3, 8]));
}

#[test]
fn target_zero_with_elements() {
    assert_eq!(solved(&[1, 2, 3, 4, 5, 6, 7, 8, 9, 10], 0), Some(vec![]));
}

#[test]
fn gcd_three_refutes_ten() {
    assert!(impossible(&[3, 6, 9, 12, 15, 18, 21, 24], 10));
}

#[test]
fn even_numbers_refute_odd_target() {
    assert!(impossible(&[2, 4, 6, 8, 10, 12, 14, 16], 7));
}

#[test]
fn sum_below_target_is_impossible() {
    assert!(impossible(&[1, 2, 3, 4, 5], 100));
}

#[test]
fn whole_set_when_target_is_total() {
    assert_eq!(solved(&[5, 9, 14, 20], 48), Some(vec![5, 9, 14, 20]));
}

#[test]
fn powers_of_two_sum_all() {
    let nums: Vec<u64> = (0..10).map(|k| 1u64 << k).collect();
    let got = solved(&nums, 1023).unwrap();
    assert_eq!(got.len(), 10);
    assert_eq!(got.iter().sum::<u128>(), 1023);
}

#[test]
fn pair_with_complement_is_solved() {
    assert_eq!(solved(&[10, 20, 35], 45), Some(vec![10, 35]));
}

#[test]
fn target_below_every_number_is_impossible() {
    assert!(impossible(&[10, 20, 35], 4));
}

#[test]
fn unreachable_residue_modulo_five_refutes() {
    assert!(impossible(&[5, 10, 6], 13));
}

#[test]
fn pair_of_equal_numbers_is_solved() {
    assert_eq!(solved(&[4, 9, 4], 8), Some(vec![4, 4]));
}
