use zpp::controller::race_timeout_secs;
use zpp::engines::dominance::is_super_increasing;
use zpp::gpu::{parse_cache_line, parse_nvidia_line};
use zpp::hardware_profile::{class_from_name, parse_compute_cap, HardwareClass};
use zpp::input::{parse_u32, parse_u64};
use zpp::bignat::BigNat;
use zpp::profile::Profile;

fn chars(s: &str) -> Vec<char> {
    s.chars().collect()
}

fn string(v: &[char]) -> String {
    v.iter().collect()
}

fn profile(nums: &[u64], target: u64) -> Profile {
    let big = |x: u64| BigNat::from_digits(vec![x as u32, (x >> 32) as u32]);
    Profile::new(nums.iter().map(|&x| big(x)).collect(), big(target))
}

#[test]
fn unsigned_parsing_follows_std() {
    assert_eq!(parse_u64(&chars("18446744073709551615")), Some(u64::MAX));
    assert_eq!(parse_u64(&chars("18446744073709551616")), None);
    assert_eq!(parse_u64(&chars("+12")), Some(12));
    assert_eq!(parse_u64(&chars("+")), None);
    assert_eq!(parse_u64(&chars("")), None);
    assert_eq!(parse_u64(&chars("-1")), None);
    assert_eq!(parse_u64(&chars("1_0")), None);
    assert_eq!(parse_u64(&chars(" 7")), None);
    assert_eq!(parse_u32(&chars("4294967296")), None);
    assert_eq!(parse_u32(&chars("4294967295")), Some(u32::MAX));
}

#[test]
fn gpu_cache_line_round_trip() {
    let (backend, units, bytes, name) = parse_cache_line(&chars("cuda|9728|12884901888|RTX|3080")).unwrap();
    assert_eq!(string(&backend), "cuda");
    assert_eq!(units, 9728);
    assert_eq!(bytes, 12884901888);
    assert_eq!(string(&name), "RTX|3080");
    assert!(parse_cache_line(&chars("cuda|x|0|name")).is_none());
    assert!(parse_cache_line(&chars("cuda|1|2")).is_none());
}

#[test]
fn nvidia_line_fields() {
    let (name, units, bytes) = parse_nvidia_line(&chars(" NVIDIA GeForce RTX 4090 , 24564 MiB, 8.9\r\nsecond\n")).unwrap();
    assert_eq!(string(&name), "NVIDIA GeForce RTX 4090");
    assert_eq!(units, 16384);
    assert_eq!(bytes, 24564 * 1024 * 1024);
    let (_, small_units, small_bytes) = parse_nvidia_line(&chars("Old card, lots\n")).unwrap();
    assert_eq!(small_units, 1024);
    assert_eq!(small_bytes, 0);
    assert!(parse_nvidia_line(&chars("no comma here")).is_none());
    assert!(parse_nvidia_line(&chars("")).is_none());
}

#[test]
fn compute_capability_text() {
    assert_eq!(parse_compute_cap(&chars(" 8.6\n")), Some(86));
    assert_eq!(parse_compute_cap(&chars("x.5")), Some(5));
    assert_eq!(parse_compute_cap(&chars("86")), None);
}

#[test]
fn class_names_ignore_case() {
    assert_eq!(class_from_name(&chars("SERVER")), HardwareClass::Server);
    assert_eq!(class_from_name(&chars("Hpc")), HardwareClass::Supercomputer);
    assert_eq!(class_from_name(&chars("cluster")), HardwareClass::Supercomputer);
    assert_eq!(class_from_name(&chars("QuBit")), HardwareClass::Quantum);
    assert_eq!(class_from_name(&chars("laptop")), HardwareClass::Desktop);
    assert_eq!(class_from_name(&chars("server ")), HardwareClass::Desktop);
}

#[test]
fn race_time_limits() {
    assert_eq!(race_timeout_secs(10, false), 300);
    assert_eq!(race_timeout_secs(44, false), 600);
    assert_eq!(race_timeout_secs(66, false), 7200);
    assert_eq!(race_timeout_secs(70, false), 600);
    assert_eq!(race_timeout_secs(10, true), 600);
}

#[test]
fn super_increasing_detection() {
    assert!(is_super_increasing(&profile(&[8, 1, 2, 4], 3)));
    assert!(!is_super_increasing(&profile(&[1, 2, 3], 3)));
}
