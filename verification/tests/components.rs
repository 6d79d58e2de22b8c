use std::sync::atomic::AtomicBool;
use zpp::bignat::BigNat;
use zpp::profile::Profile;
use zpp::fast_hash::FastHash;
use zpp::fraction::Fraction;
use zpp::engines::schroeppel_shamir::adaptive_split;
use zpp::gdvs::{compute_clusters, gdvs_parts, parity_bad, nearest_center, absdiff, safe_to_u128};
use zpp::gpu::{cache_line, parse_cache_line, GpuInfo, optimal_partition_count, gpu_compute_units, compute_units_for_memory, memory_bytes_from_mib};
use zpp::hardware_profile::{HardwareClass, HardwareProfile, MemoryTier, classify_hardware, classify_memory, select_engines_for_hardware, GIB};
use zpp::controller::{classify, pick_engines, ProblemClass, RaceBoard};
use zpp::input::{parse_file_content, parse_elements_line, parse_target_line, trim_chars};
use zpp::engines::lll::{LLLSolver, compute_nf, build_lattice, find_subset_row};
use zpp::engines::bcj::{signed_mask_positive_only, signed_mask_negative_only, signed_mask_neg_count, bucket_of};
use zpp::engines::bonnetain::{sat_add, coeff_mask_to_values};
use zpp::engines::digit_filter::residue_reachable;
use zpp::bitset::Bitset;
use zpp::engines::unified_solver::{Table, UnifiedSolver};
use zpp::engines::gdep::GdepEngine;
use zpp::engines::Search;
use zpp::engines::hash_mitm::{build_fasthash, build_hashmap};
use zpp::engines::distributed_solver::{DistributedSolver, Share};

fn big(x: u64) -> BigNat {
    BigNat::from_digits(vec![x as u32, (x >> 32) as u32])
}

fn value(b: &BigNat) -> u128 {
    let mut v: u128 = 0;
    for (i, d) in b.digits().iter().enumerate() {
        v += (*d as u128) << (32 * i);
    }
    v
}

fn chars(s: &str) -> Vec<char> {
    s.chars().collect()
}

fn profile(nums: &[u64], target: u64) -> Profile {
    Profile::new(nums.iter().map(|&x| big(x)).collect(), big(target))
}

#[test]
fn fast_hash_reads_back_first_write() {
    let mut h = FastHash::with_capacity(4);
    assert!(h.is_empty());
    h.insert(10, 1);
    h.insert(10, 2);
    h.insert(u128::MAX, 7);
    assert_eq!(h.get(10), Some(1));
    assert_eq!(h.get(u128::MAX), Some(7));
    assert_eq!(h.get(11), None);
    assert_eq!(h.len(), 2);
}

#[test]
fn fast_hash_grows_past_its_capacity() {
    let mut h = FastHash::with_capacity(2);
    for k in 0..1000u128 {
        h.insert(k * 7919, k as u64);
    }
    assert_eq!(h.len(), 1000);
    for k in 0..1000u128 {
        assert_eq!(h.get(k * 7919), Some(k as u64));
    }
}

#[test]
fn fraction_new_reduces() {
    let f = Fraction::new(big(6), big(8));
    assert_eq!((value(&f.num), value(&f.den)), (3, 4));
    let z = Fraction::new(big(5), big(0));
    assert_eq!((value(&z.num), value(&z.den)), (0, 1));
    let zero_num = Fraction::new(big(0), big(9));
    assert_eq!((value(&zero_num.num), value(&zero_num.den)), (0, 1));
    assert!(zero_num.is_zero());
}

#[test]
fn fraction_arithmetic() {
    let a = Fraction::new(big(1), big(2));
    let b = Fraction::new(big(1), big(3));
    let m = Fraction::mul(&a, &b);
    assert_eq!((value(&m.num), value(&m.den)), (1, 6));
    let d = Fraction::div(&a, &b);
    assert_eq!((value(&d.num), value(&d.den)), (3, 2));
    let s = Fraction::sub(&a, &b);
    assert_eq!((value(&s.num), value(&s.den)), (1, 6));
    let neg = Fraction::sub(&b, &a);
    assert_eq!((value(&neg.num), value(&neg.den)), (0, 1));
    assert!(Fraction::ge(&a, &b));
    assert!(!Fraction::ge(&b, &a));
    let k = Fraction::mul_scalar(&a, -4);
    assert_eq!((value(&k.num), value(&k.den)), (2, 1));
    let i = Fraction::from_i64(i64::MIN);
    assert_eq!(value(&i.num), 1u128 << 63);
    let u = Fraction::from_u64(42);
    assert_eq!((value(&u.num), value(&u.den)), (42, 1));
}

#[test]
fn clusters_are_chunk_means() {
    assert_eq!(compute_clusters(&vec![9, 1, 5], 5), vec![1, 5, 9]);
    assert_eq!(compute_clusters(&vec![1, 2, 3, 4, 5, 6, 7], 3), vec![2, 5, 7]);
    assert_eq!(compute_clusters(&vec![], 3), Vec::<u128>::new());
}

#[test]
fn gdvs_parts_exact() {
    let g = gdvs_parts(30, 100, 2, &vec![10, 50, 80]);
    assert_eq!(g.remaining, 70);
    assert_eq!(g.nearest, 10);
    assert_eq!(g.structural, Some(3));
    assert_eq!(g.parity_bad, parity_bad(70));
    let none = gdvs_parts(120, 100, 0, &vec![]);
    assert_eq!(none.remaining, 0);
    assert_eq!(none.nearest, 0);
    assert_eq!(none.structural, None);
}

#[test]
fn parity_and_distances() {
    assert_eq!(parity_bad(209), 4);
    assert_eq!(parity_bad(0), 0);
    assert_eq!(nearest_center(7, &vec![1, 10, 20]), 3);
    assert_eq!(absdiff(3, 10), 7);
    assert_eq!(safe_to_u128(&big(99)), Some(99));
    let huge = BigNat::from_digits(vec![0, 0, 0, 0, 1]);
    assert_eq!(safe_to_u128(&huge), None);
}

#[test]
fn gpu_rules() {
    assert_eq!(optimal_partition_count(12), 12);
    let info = GpuInfo::default();
    assert_eq!(gpu_compute_units(&info), 0);
    assert_eq!(memory_bytes_from_mib(2), Some(2 * 1024 * 1024));
    assert_eq!(compute_units_for_memory(8192), 6144);
    assert_eq!(compute_units_for_memory(100), 1024);
}

#[test]
fn hardware_classes() {
    assert_eq!(classify_hardware(4, 8 * GIB, false), HardwareClass::Desktop);
    assert_eq!(classify_hardware(64, 64 * GIB, true), HardwareClass::Server);
    assert_eq!(classify_hardware(64, 128 * GIB, false), HardwareClass::Server);
    assert_eq!(classify_hardware(256, 512 * GIB, false), HardwareClass::Supercomputer);
    assert_eq!(HardwareClass::Unknown.name(), "Desktop");
    let _tier: MemoryTier = classify_memory(GIB);
}

#[test]
fn desktop_engine_selection() {
    let hw = HardwareProfile::from_facts(4, 8 * GIB, 4 * GIB, false, 0, false, false, None);
    let names = select_engines_for_hardware(&hw, 10, 20, true);
    assert_eq!(names[0], "UnifiedSolver");
    assert!(names.contains(&"MITM"));
    assert_eq!(names.last(), Some(&"BitsetDP"));
    assert_eq!(hw.optimal_partition_count(1), 4);
    assert!(!hw.use_gpu());
}

#[test]
fn engine_pick_for_sat_and_sizes() {
    let mut p = profile(&[1, 2, 3], 4);
    let names = pick_engines(&p, false, ProblemClass::Tiny);
    assert_eq!(&names[..4], &["Residue", "DigitFilter", "Dominance", "ColumnSAT"]);
    assert_eq!(&names[4..8], &["BitsetDP", "MITM", "Schroeppel-Shamir", "Greedy"]);
    assert_eq!(names.len(), 18);
    assert!(!names.contains(&"Hard-U128"));
    p.sat_encoded = true;
    assert_eq!(pick_engines(&p, true, ProblemClass::Large), vec!["Residue", "DigitFilter", "ColumnSAT", "Dominance"]);
    let nums: Vec<u64> = (1..=50).collect();
    let q = profile(&nums, 100);
    let many = pick_engines(&q, true, ProblemClass::Medium);
    assert_eq!(many.last(), Some(&"Hard-U128"));
    assert!(many.contains(&"Schroeppel-Shamir"));
    assert_eq!(&many[4..7], &["Greedy", "Dominance", "Backward"]);
    let big_n: Vec<u64> = (1..=90).collect();
    let r = pick_engines(&profile(&big_n, 100), false, ProblemClass::Large);
    assert_eq!(r[0], "Residue");
    assert!(r.contains(&"DigitFilter"));
    assert!(r.contains(&"Hard-U128"));
}

#[test]
fn race_board_keeps_first_correct_report() {
    let mut b = RaceBoard::new(big(10));
    b.report(vec![big(3), big(4)], "Wrong");
    assert!(b.solution.is_none());
    assert!(!b.stop);
    b.report(vec![big(3), big(7)], "First");
    b.report(vec![big(10)], "Second");
    assert!(b.stop);
    match &b.solution {
        Some((sol, name)) => {
            assert_eq!(*name, "First");
            assert_eq!(sol.iter().map(value).collect::<Vec<_>>(), vec![3, 7]);
        }
        None => panic!("no solution recorded"),
    }
}

#[test]
fn race_board_ignores_reports_after_stop() {
    let mut b = RaceBoard::new(big(5));
    b.stop_all();
    b.report(vec![big(5)], "Late");
    assert!(b.solution.is_none());
}

#[test]
fn file_format_parses() {
    let text = chars("1, 2 3,x,+4,1_0\ngoal: 17 (checked)");
    let (nums, t) = parse_file_content(&text).unwrap();
    assert_eq!(nums.iter().map(value).collect::<Vec<_>>(), vec![1, 2, 3, 4, 10]);
    assert_eq!(value(&t), 17);
}

#[test]
fn file_format_refusals() {
    assert!(parse_file_content(&chars("1, 2, 3")).is_none());
    assert!(parse_file_content(&chars("1, 2\ngoal: none")).is_none());
    assert!(parse_file_content(&chars("x, y\ngoal: 5")).is_none());
}

#[test]
fn file_format_without_newline_uses_last_goal() {
    let (nums, t) = parse_file_content(&chars("5 6 goal: 9 goal: 11")).unwrap();
    assert_eq!(nums.iter().map(value).collect::<Vec<_>>(), vec![5, 6, 9]);
    assert_eq!(value(&t), 11);
}

#[test]
fn interactive_lines() {
    let nums = parse_elements_line(&chars(" 5 , 7,, 9 9, _1, ++2, 12\n"));
    assert_eq!(nums.iter().map(value).collect::<Vec<_>>(), vec![5, 7, 12]);
    assert_eq!(value(&parse_target_line(&chars("  42 \n"))), 42);
    assert_eq!(value(&parse_target_line(&chars("abc"))), 0);
    assert_eq!(trim_chars(&chars("\t a b \u{3000}")), chars("a b"));
}

#[test]
fn lattice_and_row_readback() {
    let nums: Vec<BigNat> = [3u64, 5, 9].iter().map(|&x| big(x)).collect();
    let nf = compute_nf(&nums, 3, 1);
    assert_eq!(value(&nf), 9 * 8 + 1);
    let basis = build_lattice(&nums, &big(14), &nf, 3);
    assert_eq!(basis.len(), 4);
    assert_eq!(value(&basis[1][1]), 1);
    assert_eq!(value(&basis[1][3]), 73 * 5);
    assert_eq!(value(&basis[3][3]), 73 * 14);
    let rows = vec![
        vec![big(1), big(2), big(0), big(0)],
        vec![big(1), big(0), big(0), big(0)],
        vec![big(0), big(1), big(1), big(0)],
    ];
    let sol = find_subset_row(&rows, &nums, &big(14), 3).unwrap();
    assert_eq!(sol.iter().map(value).collect::<Vec<_>>(), vec![5, 9]);
    assert!(find_subset_row(&rows, &nums, &big(4), 3).is_none());
}

#[test]
fn lattice_engine_density_gate() {
    let low: Vec<u64> = vec![1 << 40, 3 << 38, 5 << 36, 7 << 35];
    assert!(LLLSolver.applies(&profile(&low, 12345)));
    assert!(!LLLSolver.applies(&profile(&[1, 2, 3, 4, 5], 6)));
}

#[test]
fn signed_masks() {
    let nums = vec![10u128, 20, 30];
    let mask: u64 = 1 | (2 << 2) | (1 << 4);
    assert_eq!(signed_mask_positive_only(mask, &nums), vec![10, 30]);
    assert_eq!(signed_mask_negative_only(mask, &nums), vec![20]);
    assert_eq!(signed_mask_neg_count(mask), 1);
    assert_eq!(bucket_of(-3, 8), 5);
    assert_eq!(bucket_of(19, 8), 3);
}

#[test]
fn extended_coefficients() {
    assert_eq!(sat_add(i128::MAX, 1), i128::MAX);
    assert_eq!(sat_add(i128::MIN, -1), i128::MIN);
    let nums = vec![4u128, 5, 6];
    assert_eq!(coeff_mask_to_values(1 | (1 << 4), &nums), vec![4, 6]);
    assert_eq!(coeff_mask_to_values(2, &nums), Vec::<u128>::new());
}

#[test]
fn residues_modulo_ten() {
    let nums: Vec<BigNat> = [10u64, 20].iter().map(|&x| big(x)).collect();
    assert!(!residue_reachable(&nums, &big(5), 10));
    assert!(residue_reachable(&nums, &big(30), 10));
}

#[test]
fn bitset_shift_or() {
    let mut b = Bitset::new(10);
    b.set(0);
    b.shift_or_inplace(3);
    assert!(b.get(0));
    assert!(b.get(3));
    assert!(!b.get(2));
    assert_eq!(b.len(), 10);
}

#[test]
fn profile_aggregates() {
    let p = profile(&[4, 9, 2], 11);
    assert_eq!(p.n, 3);
    assert_eq!(value(&p.total_sum), 15);
    assert_eq!(value(&p.min_val), 2);
    assert_eq!(value(&p.max_val), 9);
    assert!(p.u128_safe());
    assert_eq!(p.numbers_u128(), vec![4, 9, 2]);
    let _ = AtomicBool::new(false);
}

#[test]
fn subset_sums_come_sorted() {
    let sums = zpp::sums::build_sums_u128(&[5, 1, 3], 8);
    let values: Vec<u128> = sums.iter().map(|p| p.0).collect();
    assert_eq!(values, vec![0, 1, 3, 4, 5, 6, 8]);
}

#[test]
fn reachability_table_on_low_digits() {
    let stop = AtomicBool::new(false);
    assert!(matches!(UnifiedSolver::bitset_dp(&profile(&[4, 6, 9], 13), &stop), Table::Reachable));
    assert!(matches!(UnifiedSolver::bitset_dp(&profile(&[4, 6, 9], 12), &stop), Table::Unreachable));
    assert!(matches!(UnifiedSolver::bitset_dp(&profile(&[4, 6, 9], 0), &stop), Table::Skipped));
    let wide = BigNat::from_digits(vec![3, 0, 1]);
    let p = Profile::new(vec![wide], big(3));
    assert!(matches!(UnifiedSolver::bitset_dp(&p, &stop), Table::Reachable));
}

#[test]
fn large_numbers_are_never_needed() {
    let stop = AtomicBool::new(false);
    let with_large = GdepEngine.run(&profile(&[3, 1000, 4, 2000], 7), &stop);
    let without = GdepEngine.run(&profile(&[3, 4], 7), &stop);
    assert!(matches!(with_large, Search::Found(_)));
    assert!(matches!(without, Search::Found(_)));
    assert!(matches!(GdepEngine.run(&profile(&[3, 1000, 5, 2000], 7), &stop), Search::Done));
}

#[test]
fn meet_in_middle_gives_up_on_an_oversized_right_sum() {
    let stop = AtomicBool::new(false);
    let r = UnifiedSolver::meet_in_middle(&profile(&[5, 7, 8, 10, 1, 20], 6), &stop);
    assert!(matches!(r, zpp::engines::unified_solver::Mitm::Overflow));
    let found = UnifiedSolver::meet_in_middle(&profile(&[5, 7, 8, 10, 1, 20], 13), &stop);
    assert!(matches!(found, zpp::engines::unified_solver::Mitm::Found(_)));
}

#[test]
fn stopped_table() {
    let stop = AtomicBool::new(true);
    assert!(matches!(UnifiedSolver::bitset_dp(&profile(&[4, 6, 9], 13), &stop), Table::Stopped | Table::Reachable));
}

#[test]
fn adaptive_split_keeps_the_last_quarter() {
    assert_eq!(adaptive_split(0, &[], 10), (0, 0, 0, 1));
    assert_eq!(adaptive_split(1, &[5], 10), (0, 0, 0, 1));
    let nums: Vec<u128> = (1..=16).collect();
    assert_eq!(adaptive_split(16, &nums, 1000), (4, 4, 4, 4));
}

#[test]
fn size_classes() {
    assert_eq!(classify(0), ProblemClass::Trivial);
    assert_eq!(classify(12), ProblemClass::Tiny);
    assert_eq!(classify(13), ProblemClass::Small);
    assert_eq!(classify(60), ProblemClass::Medium);
    assert_eq!(classify(61), ProblemClass::Large);
}

#[test]
fn cluster_centres_ignore_order_and_rise() {
    let a = compute_clusters(&vec![7, 1, 6, 2, 5, 3, 4], 3);
    let b = compute_clusters(&vec![1, 2, 3, 4, 5, 6, 7], 3);
    assert_eq!(a, b);
    assert!(a.windows(2).all(|w| w[0] <= w[1]));
    assert!(a.iter().all(|&c| (1..=7).contains(&c)));
}

#[test]
fn race_verdict_labels() {
    let mut b = RaceBoard::new(big(10));
    assert_eq!(b.verdict(false), "Timeout");
    assert_eq!(b.verdict(true), "IMPOSSIBLE");
    b.report(vec![big(3), big(7)], "First");
    assert_eq!(b.verdict(true), "First");
}

#[test]
fn cache_line_reads_back() {
    let line = cache_line(&chars("cuda"), 82, 25769803776, &chars("RTX|4090"));
    assert_eq!(line.iter().collect::<String>(), "cuda|82|25769803776|RTX|4090");
    let (b, u, m, n) = parse_cache_line(&line).expect("a cache line");
    assert_eq!(b, chars("cuda"));
    assert_eq!(u, 82);
    assert_eq!(m, 25769803776);
    assert_eq!(n, chars("RTX|4090"));
    let zero = cache_line(&chars(""), 0, 0, &chars(""));
    assert_eq!(zero.iter().collect::<String>(), "|0|0|");
}

#[test]
fn fast_and_std_tables_agree() {
    let elems: Vec<u128> = vec![3, 5, 3, 8, 1];
    let f = build_fasthash(&elems, 12);
    let m = build_hashmap(&elems, 12);
    assert_eq!(f.len(), m.len());
    for k in 0u128..20 {
        assert_eq!(f.get(k), m.get(&k).copied());
    }
    // 3 is reached first by mask 0b1 (the first 3), 6 by the two 3s.
    assert_eq!(m.get(&3).copied(), Some(1));
    assert_eq!(m.get(&6).copied(), Some(0b101));
}

#[test]
fn fast_hash_counts_distinct_keys() {
    let mut h = FastHash::with_capacity(4);
    for (k, v) in [(7u128, 1u64), (9, 2), (7, 3), (11, 4), (9, 5)] {
        h.insert(k, v);
    }
    assert_eq!(h.len(), 3);
    assert_eq!(h.get(7), Some(1));
    assert_eq!(h.get(9), Some(2));
    assert_eq!(h.get(11), Some(4));
    assert_eq!(h.get(8), None);
}

#[test]
fn piece_search_tells_miss_from_stop() {
    let stop = AtomicBool::new(false);
    let piece = vec![big(4), big(6)];
    assert!(matches!(DistributedSolver::piece_search(&piece, &big(5), &stop), Share::Miss));
    match DistributedSolver::piece_search(&piece, &big(10), &stop) {
        Share::Hit(sol) => assert_eq!(sol.iter().map(value).sum::<u128>(), 10),
        _ => panic!("expected a hit"),
    }
    let halted = AtomicBool::new(true);
    assert!(matches!(DistributedSolver::piece_search(&piece, &big(5), &halted), Share::Halt | Share::Miss));
}

#[test]
fn unified_settles_tiny_instances() {
    let stop = AtomicBool::new(false);
    assert!(matches!(UnifiedSolver.run(&profile(&[4, 6, 9], 5), &stop), Search::Impossible));
    assert!(!matches!(UnifiedSolver.run(&profile(&[4, 6, 9], 15), &stop), Search::Done));
}
