//! Single-level representation search: for a residue `r` modulo
//! `M = 2^bits`, left-half subsets with sum `= r (mod M)` are tabled and
//! right-half subsets with sum `= target - r (mod M)` look up the rest.
//! The engine takes 40 to 80 numbers whose sums fit in `u128`; each half
//! is enumerated in full only when it has at most 30 numbers.
use vstd::prelude::*;
use std::sync::atomic::AtomicBool;
use std::collections::HashMap;
use crate::model::{sum_nat, nats, sub_multiset, is_solution};
use crate::bignat::vals;
use crate::profile::Profile;
use crate::stop::stop_requested;
use crate::masks::{mask_sum, nat_mask_sum, fits, select_u128, lemma_picked_sub, lemma_fits_lt, lemma_mask_sum_nats};
use super::{Search, to_big, lemma_u128_found};
use super::schroeppel_shamir::slice_to_vec;
use super::split_solver::capped_mask_sum;
use super::randomized::xorshift;

verus! {

broadcast use vstd::std_specs::hash::group_hash_axioms;

/// The smallest size the engine takes.
pub const HGJ_MIN_N: usize = 40;
/// The largest size the engine takes.
pub const HGJ_MAX_N: usize = 80;
/// Residues tried.
pub const HGJ_ROUNDS: usize = 16;

/// The xorshift64* generator seeded with an odd state.
pub struct Rng {
    pub state: u64,
}

impl Rng {
    /// A generator seeded with `seed | 1`.
    pub fn new(seed: u64) -> (r: Rng)
        ensures
            r.state == seed | 1,
    {
        Rng { state: seed | 1 }
    }

    /// Advances the state and returns it scrambled by a multiplication.
    pub fn next_u64(&mut self) -> (r: u64)
        ensures
            final(self).state == xorshift(old(self).state),
            r == final(self).state.wrapping_mul(0x2545F4914F6CDD1Du64),
    {
        let mut x = self.state;
        x = x ^ (x >> 12u64);
        x = x ^ (x << 25u64);
        x = x ^ (x >> 27u64);
        self.state = x;
        x.wrapping_mul(0x2545F4914F6CDD1Du64)
    }
}

/// The engine.
pub struct HgjEngine;

/// How one residue ended.
pub enum Round {
    Hit(Vec<u128>),
    Miss,
    Halt,
}

/// The `lm`-subset of `left` and the `rm`-subset of `right` together sum
/// to `target`, and the left part has residue `r` under `mm`.
pub open spec fn residue_pair(left: Seq<nat>, right: Seq<nat>, target: nat, r: u128, mm: u128, lm: u64, rm: u64) -> bool {
    &&& fits(lm, left.len())
    &&& fits(rm, right.len())
    &&& nat_mask_sum(left, lm) + nat_mask_sum(right, rm) == target
    &&& ((nat_mask_sum(left, lm) as u128) & mm) == r
}

/// When the left part has residue `r` under the low mask `mm`, the rest
/// of the target has residue `target - r`.
proof fn lemma_rest_residue(t: u128, a: u128, b: u128, r: u128, mm: u128)
    requires
        a + b == t,
        (a & mm) == r,
        mm < 0x1_0000_0000u128,
        (mm & ((mm + 1) as u128)) == 0,
    ensures
        (b & mm) == (t.wrapping_sub(r) & mm),
{
    assert((b & mm) == (t.wrapping_sub(r) & mm)) by (bit_vector)
        requires
            a + b == t,
            (a & mm) == r,
            mm < 0x1_0000_0000u128,
            (mm & ((mm + 1) as u128)) == 0,
    ;
}

/// One residue: left subsets (at most `target`) with sum `= r` under the
/// low mask `mod_mask` are tabled by sum (first mask per sum); right
/// subsets with sum `= target - r` look up the rest of the target.  A miss
/// means that no left subset with residue `r` and right subset together
/// make the target.
pub fn hgj_round(
    left: &Vec<u128>,
    right: &Vec<u128>,
    target: u128,
    r: u128,
    mod_mask: u128,
    stop: &AtomicBool,
) -> (res: Round)
    requires
        left.len() <= 30,
        right.len() <= 30,
        mod_mask < 0x1_0000_0000u128,
        (mod_mask & ((mod_mask + 1) as u128)) == 0,
    ensures
        res matches Round::Hit(sol) ==> sub_multiset(sol@, left@ + right@) && sum_nat(nats(sol@)) == target as nat,
        res is Miss ==> forall|lm: u64, rm: u64|
            !#[trigger] residue_pair(nats(left@), nats(right@), target as nat, r, mod_mask, lm, rm),
{
    let mut buckets: HashMap<u128, u64> = HashMap::new();
    let l_total: u64 = 1u64 << (left.len() as u64);
    let mut mask: u64 = 0;
    while mask < l_total
        invariant
            left.len() <= 30,
            mask <= l_total,
            l_total == 1u64 << (left.len() as u64),
            forall|x: u128|
                #[trigger] buckets@.contains_key(x) ==> fits(buckets@[x], left@.len()) && mask_sum(left@, buckets@[x]) == x as nat,
            forall|lm: u64|
                lm < mask && #[trigger] mask_sum(left@, lm) <= target && ((mask_sum(left@, lm) as u128) & mod_mask) == r
                    ==> buckets@.contains_key(mask_sum(left@, lm) as u128),
        decreases l_total - mask,
    {
        if stop_requested(stop) {
            return Round::Halt;
        }
        match capped_mask_sum(left, mask, target) {
            Some(s) => {
                if (s & mod_mask) == r && !buckets.contains_key(&s) {
                    proof {
                        lemma_fits_lt(mask, left.len() as u64);
                    }
                    buckets.insert(s, mask);
                }
            },
            None => {},
        }
        mask += 1;
    }
    if buckets.len() == 0 {
        proof {
            assert forall|lm: u64, rm: u64|
                !#[trigger] residue_pair(nats(left@), nats(right@), target as nat, r, mod_mask, lm, rm) by {
                lemma_mask_sum_nats(left@, lm);
                lemma_mask_sum_nats(right@, rm);
                if residue_pair(nats(left@), nats(right@), target as nat, r, mod_mask, lm, rm) {
                    lemma_fits_lt(lm, left.len() as u64);
                    let x = mask_sum(left@, lm) as u128;
                    assert(buckets@.contains_key(x));
                    assert(buckets@.dom().remove(x).len() + 1 == buckets@.dom().len());
                }
            }
        }
        return Round::Miss;
    }
    proof {
        assert forall|lm: u64|
            fits(lm, left@.len()) && #[trigger] mask_sum(left@, lm) <= target && ((mask_sum(left@, lm) as u128) & mod_mask) == r
                implies buckets@.contains_key(mask_sum(left@, lm) as u128) by {
            lemma_fits_lt(lm, left.len() as u64);
        }
    }
    let need_res = target.wrapping_sub(r) & mod_mask;
    let r_total: u64 = 1u64 << (right.len() as u64);
    let mut rmask: u64 = 0;
    while rmask < r_total
        invariant
            right.len() <= 30,
            left.len() <= 30,
            rmask <= r_total,
            r_total == 1u64 << (right.len() as u64),
            need_res == target.wrapping_sub(r) & mod_mask,
            mod_mask < 0x1_0000_0000u128,
            (mod_mask & ((mod_mask + 1) as u128)) == 0,
            forall|x: u128|
                #[trigger] buckets@.contains_key(x) ==> fits(buckets@[x], left@.len()) && mask_sum(left@, buckets@[x]) == x as nat,
            forall|lm: u64|
                fits(lm, left@.len()) && #[trigger] mask_sum(left@, lm) <= target && ((mask_sum(left@, lm) as u128) & mod_mask) == r
                    ==> buckets@.contains_key(mask_sum(left@, lm) as u128),
            forall|lm: u64, rm: u64|
                rm < rmask ==> !#[trigger] residue_pair(nats(left@), nats(right@), target as nat, r, mod_mask, lm, rm),
        decreases r_total - rmask,
    {
        if stop_requested(stop) {
            return Round::Halt;
        }
        let got = capped_mask_sum(right, rmask, target);
        match got {
            Some(s) => {
                if (s & mod_mask) == need_res {
                    let comp = target - s;
                    match buckets.get(&comp) {
                        Some(lm) => {
                            let mut sol = select_u128(left.as_slice(), *lm);
                            let mut rs = select_u128(right.as_slice(), rmask);
                            let ghost (pl, pr) = (sol@, rs@);
                            sol.append(&mut rs);
                            proof {
                                assert(sol@ =~= pl + pr);
                                lemma_picked_sub(left@, buckets@[comp]);
                                lemma_picked_sub(right@, rmask);
                                crate::model::lemma_sub_multiset_concat(pl, left@, pr, right@);
                                crate::model::lemma_nats_concat(pl, pr);
                                crate::model::lemma_sum_nat_concat(nats(pl), nats(pr));
                            }
                            return Round::Hit(sol);
                        },
                        None => {},
                    }
                }
            },
            None => {},
        }
        proof {
            assert forall|lm: u64, rm: u64|
                rm < rmask + 1 implies !#[trigger] residue_pair(nats(left@), nats(right@), target as nat, r, mod_mask, lm, rm) by {
                if rm == rmask && residue_pair(nats(left@), nats(right@), target as nat, r, mod_mask, lm, rm) {
                    lemma_mask_sum_nats(left@, lm);
                    lemma_mask_sum_nats(right@, rm);
                    let a = mask_sum(left@, lm);
                    let b = mask_sum(right@, rm);
                    match got {
                        Some(s) => {
                            assert(s as nat == b);
                            lemma_rest_residue(target, a as u128, s, r, mod_mask);
                            assert(buckets@.contains_key(a as u128));
                        },
                        None => {},
                    }
                }
            }
        }
        rmask += 1;
    }
    proof {
        assert forall|lm: u64, rm: u64|
            !#[trigger] residue_pair(nats(left@), nats(right@), target as nat, r, mod_mask, lm, rm) by {
            if residue_pair(nats(left@), nats(right@), target as nat, r, mod_mask, lm, rm) {
                lemma_fits_lt(rm, right.len() as u64);
            }
        }
    }
    Round::Miss
}

/// The generator state after `k` steps from the seed `seed | 1`.
pub open spec fn hgj_state(seed: u64, k: nat) -> u64
    decreases k,
{
    if k == 0 {
        seed | 1
    } else {
        xorshift(hgj_state(seed, (k - 1) as nat))
    }
}

/// The seed of the generator for `n` numbers.
pub open spec fn hgj_seed(n: nat) -> u64 {
    0xCBF29CE484222325u64 ^ (n as u64)
}

/// The modulus exponent: `n / 4` clamped to `[8, 24]`.
pub open spec fn hgj_bits(n: nat) -> u128 {
    if n / 4 < 8 {
        8
    } else if n / 4 > 24 {
        24
    } else {
        (n / 4) as u128
    }
}

/// The low mask `2^bits - 1`.
pub open spec fn hgj_mask(n: nat) -> u128 {
    ((1u128 << hgj_bits(n)) - 1) as u128
}

/// The residue tried in round `k` for `n` numbers.
pub open spec fn hgj_residue(n: nat, k: nat) -> u128 {
    (hgj_state(hgj_seed(n), k + 1).wrapping_mul(0x2545F4914F6CDD1Du64) as u128) & hgj_mask(n)
}

impl HgjEngine {
    pub fn name(&self) -> (r: &'static str)
        ensures
            r@ == "HGJ"@,
    {
        "HGJ"
    }

    /// Runs 16 residues on 40 to 80 numbers whose sums fit in `u128`, each
    /// round over the two halves when both have at most 30 numbers.  It ends
    /// without a subset only when the instance is outside that window or
    /// every round missed: no left-half subset with that round's residue and
    /// right-half subset together make the target.
    pub fn run(&self, p: &Profile, stop: &AtomicBool) -> (r: Search)
        requires
            p.wf(),
        ensures
            r matches Search::Found(sol) ==> is_solution(p.values(), vals(sol@), p.target@),
            r is Found || r is Done || r is Stopped,
            p.n < HGJ_MIN_N || p.n > HGJ_MAX_N || !(p.total_sum@ <= u128::MAX && p.target@ <= u128::MAX) ==> r is Done,
            r is Done && HGJ_MIN_N <= p.n <= HGJ_MAX_N && p.total_sum@ <= u128::MAX && p.target@ <= u128::MAX
                && p.n / 2 <= 30 && p.n - p.n / 2 <= 30 ==> forall|k: nat, lm: u64, rm: u64|
                k < HGJ_ROUNDS ==> !#[trigger] residue_pair(
                    p.values().take((p.n / 2) as int),
                    p.values().skip((p.n / 2) as int),
                    p.target@,
                    hgj_residue(p.n as nat, k),
                    hgj_mask(p.n as nat),
                    lm,
                    rm,
                ),
    {
        if p.n < HGJ_MIN_N || p.n > HGJ_MAX_N {
            return Search::Done;
        }
        if !p.u128_safe() {
            return Search::Done;
        }
        let target = p.target_u128();
        let nums = p.numbers_u128();
        let n = nums.len();
        let mid = n / 2;
        let left = slice_to_vec(&nums, 0, mid);
        let right = slice_to_vec(&nums, mid, n);
        let q = n / 4;
        let m_bits: u128 = if q < 8 { 8 } else if q > 24 { 24 } else { q as u128 };
        let modulus: u128 = 1u128 << m_bits;
        proof {
            assert(modulus >= 256) by (bit_vector)
                requires
                    modulus == 1u128 << m_bits,
                    8 <= m_bits <= 24,
            ;
        }
        let mod_mask: u128 = modulus - 1;
        proof {
            assert(m_bits == hgj_bits(n as nat));
            assert(mod_mask < 0x1_0000_0000u128 && (mod_mask & ((mod_mask + 1) as u128)) == 0 && modulus > 0) by (bit_vector)
                requires
                    modulus == 1u128 << m_bits,
                    mod_mask == modulus - 1,
                    8 <= m_bits <= 24,
            ;
            assert(mod_mask == hgj_mask(n as nat));
        }
        let mut rng = Rng::new(0xCBF29CE484222325u64 ^ (n as u64));
        proof {
            assert(left@ + right@ =~= nums@);
            assert(nats(left@) =~= p.values().take(mid as int));
            assert(nats(right@) =~= p.values().skip(mid as int));
        }
        let mut round: usize = 0;
        while round < HGJ_ROUNDS
            invariant
                n == nums.len(),
                n == p.n,
                mid == n / 2,
                HGJ_MIN_N <= p.n <= HGJ_MAX_N,
                p.total_sum@ <= u128::MAX && p.target@ <= u128::MAX,
                p.wf(),
                left@ + right@ == nums@,
                nats(left@) == p.values().take(mid as int),
                nats(right@) == p.values().skip(mid as int),
                nats(nums@) == p.values(),
                target as nat == p.target@,
                mod_mask == hgj_mask(n as nat),
                mod_mask < 0x1_0000_0000u128,
                (mod_mask & ((mod_mask + 1) as u128)) == 0,
                rng.state == hgj_state(hgj_seed(n as nat), round as nat),
                left.len() <= 30 && right.len() <= 30 ==> forall|k: nat, lm: u64, rm: u64|
                    k < round ==> !#[trigger] residue_pair(
                        nats(left@),
                        nats(right@),
                        target as nat,
                        hgj_residue(n as nat, k),
                        mod_mask,
                        lm,
                        rm,
                    ),
            decreases HGJ_ROUNDS - round,
        {
            if stop_requested(stop) {
                return Search::Stopped;
            }
            let r = (rng.next_u64() as u128) & mod_mask;
            proof {
                assert(hgj_state(hgj_seed(n as nat), (round + 1) as nat) == xorshift(hgj_state(hgj_seed(n as nat), round as nat)));
                assert(r == hgj_residue(n as nat, round as nat));
            }
            if left.len() <= 30 && right.len() <= 30 {
                match hgj_round(&left, &right, target, r, mod_mask, stop) {
                    Round::Hit(sol) => {
                        let big = to_big(&sol);
                        proof {
                            lemma_u128_found(p, nums@, sol@, big@);
                        }
                        return Search::Found(big);
                    },
                    Round::Halt => {
                        return Search::Stopped;
                    },
                    Round::Miss => {},
                }
            }
            round += 1;
        }
        Search::Done
    }
}

} // verus!
