//! Exhaustive enumeration for very small inputs, and random sampling of
//! small index multisets for medium ones.
use vstd::prelude::*;
use std::sync::atomic::AtomicBool;
use crate::model::{nats, sum_nat, sub_multiset, solvable};
use crate::bignat::{BigNat, vals, big_add, big_le, big_eq};
use crate::profile::Profile;
use crate::stop::stop_requested;
use crate::masks::{bit, mask_pick, npick_sum, nat_mask_sum, lemma_npick_step, lemma_npick_mono, lemma_no_mask_unsolvable, lemma_picked_sub, select_u128, select_big};
use super::{Search, sound, to_big, sum_u128_checked};

verus! {

/// A point in wall-clock time.
#[verifier::external_type_specification]
#[verifier::external_body]
pub struct ExSystemTime(std::time::SystemTime);

/// The current wall-clock time, by `SystemTime::now`; nothing is promised
/// of it.
#[verifier::external_body]
fn time_now() -> (r: std::time::SystemTime) {
    std::time::SystemTime::now()
}

/// Time elapsed from the Unix epoch to `t`, by `SystemTime::duration_since`;
/// `None` where `t` lies before the epoch.  Nothing is promised of the
/// value, which depends on the clock.
#[verifier::external_body]
fn since_epoch(t: &std::time::SystemTime) -> (r: Option<std::time::Duration>) {
    t.duration_since(std::time::UNIX_EPOCH).ok()
}

/// Whole nanoseconds in `d`, by `Duration::as_nanos`; nothing is stated
/// of the value, since `Duration` is opaque here.
#[verifier::external_body]
fn duration_nanos(d: &std::time::Duration) -> (r: u128) {
    d.as_nanos()
}

/// Seed for the sampler: the low 64 bits of the nanoseconds since the Unix
/// epoch, or 0 for a clock set before it.
fn clock_seed() -> (r: u64) {
    let now = time_now();
    match since_epoch(&now) {
        Some(d) => {
            let ns: u128 = duration_nanos(&d);
            (ns % 0x1_0000_0000_0000_0000u128) as u64
        },
        None => 0,
    }
}

/// Enumerates every subset of at most 63 `u128` values, stopping a subset
/// as soon as its running sum passes the target.
fn brute_u128(nums: &Vec<u128>, target: u128, stop: &AtomicBool) -> (r: Search)
    requires
        nums.len() < 64,
        sum_nat(nats(nums@)) <= u128::MAX,
    ensures
        r matches Search::Found(sol) ==> sub_multiset(vals(sol@), nats(nums@)) && sum_nat(vals(sol@)) == target,
        r is Done ==> !solvable(nats(nums@), target as nat),
        !(r is Impossible),
        r is Found || r is Done || r is Stopped,
{
    let n = nums.len();
    let total: u64 = 1u64 << (n as u64);
    let ghost s = nats(nums@);
    let mut mask: u64 = 0;
    while mask < total
        invariant
            n == nums.len(),
            n < 64,
            s == nats(nums@),
            total == 1u64 << (n as u64),
            sum_nat(s) <= u128::MAX,
            forall|m: u64| m < mask ==> #[trigger] nat_mask_sum(s, m) != target,
        decreases total - mask,
    {
        if (mask & 0xFFu64) == 0 && stop_requested(stop) {
            return Search::Stopped;
        }
        let mut sum: u128 = 0;
        let mut j: usize = 0;
        let mut over = false;
        while j < n && !over
            invariant
                n == nums.len(),
                n < 64,
                s == nats(nums@),
                j <= n,
                sum_nat(s) <= u128::MAX,
                !over ==> sum as nat == npick_sum(s, mask, j as nat) && sum <= target,
                over ==> npick_sum(s, mask, j as nat) > target,
            decreases n - j,
        {
            proof {
                lemma_npick_step(s, mask, j as nat);
                crate::masks::lemma_pick_sub(s, mask, (j + 1) as nat);
                crate::model::lemma_slice_sub(s, 0, (j + 1) as int);
                assert(s.subrange(0, (j + 1) as int) =~= s.take((j + 1) as int));
                crate::model::lemma_sub_multiset_trans(mask_pick(s, mask, (j + 1) as nat), s.take((j + 1) as int), s);
                crate::model::lemma_sub_multiset_sum_le(mask_pick(s, mask, (j + 1) as nat), s);
            }
            assert(s[j as int] == nums@[j as int] as nat);
            if (mask >> (j as u64)) & 1u64 == 1u64 {
                assert(bit(mask, j as nat));
                sum = sum + nums[j];
                if sum > target {
                    over = true;
                }
            }
            else {
                assert(!bit(mask, j as nat));
            }
            j += 1;
        }
        proof {
            if over {
                lemma_npick_mono(s, mask, j as nat, n as nat);
            }
            assert(npick_sum(s, mask, n as nat) == nat_mask_sum(s, mask));
        }
        if !over && sum == target {
            let sol = select_u128(nums.as_slice(), mask);
            let big = to_big(&sol);
            proof {
                crate::masks::lemma_picked_nats(nums@, mask);
                lemma_picked_sub(s, mask);
                assert(npick_sum(s, mask, n as nat) == nat_mask_sum(s, mask));
            }
            return Search::Found(big);
        }
        mask += 1;
    }
    proof {
        lemma_no_mask_unsolvable(s, target as nat);
    }
    Search::Done
}

/// Enumerates every subset of at most 63 big naturals.
pub fn brute_big(nums: &Vec<BigNat>, target: &BigNat, stop: &AtomicBool) -> (r: Search)
    requires
        nums.len() < 64,
    ensures
        r matches Search::Found(sol) ==> sub_multiset(vals(sol@), vals(nums@)) && sum_nat(vals(sol@)) == target@,
        r is Done ==> !solvable(vals(nums@), target@),
        !(r is Impossible),
        r is Found || r is Done || r is Stopped,
{
    let n = nums.len();
    let total: u64 = 1u64 << (n as u64);
    let ghost s = vals(nums@);
    let mut mask: u64 = 0;
    while mask < total
        invariant
            n == nums.len(),
            n < 64,
            s == vals(nums@),
            total == 1u64 << (n as u64),
            forall|m: u64| m < mask ==> #[trigger] nat_mask_sum(s, m) != target@,
        decreases total - mask,
    {
        if (mask & 0xFFu64) == 0 && stop_requested(stop) {
            return Search::Stopped;
        }
        let mut sum = BigNat::zero();
        let mut j: usize = 0;
        let mut over = false;
        while j < n && !over
            invariant
                n == nums.len(),
                n < 64,
                s == vals(nums@),
                j <= n,
                !over ==> sum@ == npick_sum(s, mask, j as nat),
                over ==> npick_sum(s, mask, j as nat) > target@,
            decreases n - j,
        {
            proof {
                lemma_npick_step(s, mask, j as nat);
            }
            assert(s[j as int] == nums@[j as int]@);
            if (mask >> (j as u64)) & 1u64 == 1u64 {
                assert(bit(mask, j as nat));
                sum = big_add(&sum, &nums[j]);
                if !big_le(&sum, target) {
                    over = true;
                }
            }
            else {
                assert(!bit(mask, j as nat));
            }
            j += 1;
        }
        proof {
            if over {
                lemma_npick_mono(s, mask, j as nat, n as nat);
            }
            assert(npick_sum(s, mask, n as nat) == nat_mask_sum(s, mask));
        }
        if !over && big_eq(&sum, target) {
            let sol = select_big(nums.as_slice(), mask);
            return Search::Found(sol);
        }
        mask += 1;
    }
    proof {
        lemma_no_mask_unsolvable(s, target@);
    }
    Search::Done
}

/// Whether `sol` uses each value at most as often as `pool` holds it.
pub fn counts_within(sol: &Vec<BigNat>, pool: &Vec<BigNat>) -> (r: bool)
    ensures
        r == (forall|k: int| 0 <= k < sol.len() ==> vals(sol@).to_multiset().count(#[trigger] sol@[k]@) <= vals(pool@).to_multiset().count(sol@[k]@)),
        r ==> sub_multiset(vals(sol@), vals(pool@)),
{
    broadcast use vstd::seq_lib::group_to_multiset_ensures, vstd::multiset::group_multiset_axioms;
    let mut k: usize = 0;
    while k < sol.len()
        invariant
            k <= sol.len(),
            forall|j: int| 0 <= j < k ==> vals(sol@).to_multiset().count(#[trigger] sol@[j]@) <= vals(pool@).to_multiset().count(sol@[j]@),
        decreases sol.len() - k,
    {
        let a = crate::profile::count_in(sol, &sol[k]);
        let b = crate::profile::count_in(pool, &sol[k]);
        if a > b {
            return false;
        }
        k += 1;
    }
    proof {
        assert forall|v: nat| vals(sol@).to_multiset().count(v) <= vals(pool@).to_multiset().count(v) by {
            if vals(sol@).to_multiset().count(v) > 0 {
                assert(vals(sol@).contains(v));
                let j = choose|j: int| 0 <= j < vals(sol@).len() && vals(sol@)[j] == v;
                assert(sol@[j]@ == v);
            }
        }
    }
    true
}

/// One draw: reading the bits of `m` from the lowest, each set bit adds
/// `nums[m % n]` (with `m` the bits not yet read); the draw ends after 13
/// numbers, when no bits are left, or after `steps` bits.
pub open spec fn sample_from(nums: Seq<u128>, m: u64, steps: nat, count: nat) -> Seq<u128>
    decreases steps,
{
    if steps == 0 {
        Seq::empty()
    } else {
        let take = (m & 1u64) != 0u64;
        let pick: Seq<u128> = if take { seq![nums[(m % (nums.len() as u64)) as int]] } else { Seq::empty() };
        let c2 = if take { count + 1 } else { count };
        if take && c2 > 12 {
            pick
        } else if (m >> 1u64) == 0u64 {
            pick
        } else {
            pick + sample_from(nums, m >> 1u64, (steps - 1) as nat, c2)
        }
    }
}

/// The `i`-th draw for `seed`.
pub open spec fn sample_draw(nums: Seq<u128>, seed: u64, i: u64) -> Seq<u128> {
    let bits = seed.wrapping_mul((i + 1) as u64) ^ seed.wrapping_shl((i % 13) as u32);
    sample_from(nums, bits, if nums.len() < 64 { nums.len() } else { 64 }, 0)
}

/// A draw that is a subset of the numbers summing to `target`.
pub open spec fn draw_hits(nums: Seq<u128>, draw: Seq<u128>, target: u128) -> bool {
    &&& draw.len() > 0
    &&& sum_nat(nats(draw)) == target as nat
    &&& sub_multiset(nats(draw), nats(nums))
}

/// Samples index multisets from the bits of `seed`-derived words and checks
/// whether the sampled values hit `target`; a hit is reported only when it
/// uses each number at most as often as the numbers hold it.  It ends
/// without a subset only after 500000 draws, none of which hit.
#[verifier::rlimit(50)]
#[verifier::spinoff_prover]
pub fn random_sample(nums: &Vec<u128>, target: u128, seed: u64, stop: &AtomicBool) -> (r: Search)
    requires
        nums.len() > 0,
    ensures
        r matches Search::Found(sol) ==> sub_multiset(vals(sol@), nats(nums@)) && sum_nat(vals(sol@)) == target as nat,
        !(r is Impossible),
        r is Found || r is Done || r is Stopped,
        r is Done ==> forall|i: u64| i < 500_000 ==> !#[trigger] draw_hits(nums@, sample_draw(nums@, seed, i), target),
{
    let pool = to_big(nums);
    let n = nums.len();
    let limit: usize = if n < 64 { n } else { 64 };
    let mut i: u64 = 0;
    while i < 500_000
        invariant
            n == nums.len(),
            n > 0,
            limit <= n,
            limit == (if n < 64 { n } else { 64 }),
            vals(pool@) == nats(nums@),
            forall|i2: u64| i2 < i ==> !#[trigger] draw_hits(nums@, sample_draw(nums@, seed, i2), target),
        decreases 500_000 - i,
    {
        if stop_requested(stop) {
            return Search::Stopped;
        }
        let bits = seed.wrapping_mul(i + 1) ^ seed.wrapping_shl((i % 13) as u32);
        let mut sum: u128 = 0;
        let mut m = bits;
        let mut count: u32 = 0;
        let mut sol: Vec<u128> = Vec::new();
        let mut t: usize = 0;
        proof {
            assert(nats(sol@) =~= Seq::<nat>::empty());
            assert(sol@ + sample_from(nums@, m, (limit - t) as nat, count as nat) =~= sample_from(nums@, bits, limit as nat, 0));
        }
        while t < limit
            invariant_except_break
                count <= 12,
                sol@ + sample_from(nums@, m, (limit - t) as nat, count as nat) == sample_from(nums@, bits, limit as nat, 0),
            invariant
                n == nums.len(),
                n > 0,
                limit <= n,
                t <= limit,
                sum as nat == sum_nat(nats(sol@)) % 0x1_0000_0000_0000_0000_0000_0000_0000_0000nat,
            ensures
                sol@ == sample_from(nums@, bits, limit as nat, 0),
                sum as nat == sum_nat(nats(sol@)) % 0x1_0000_0000_0000_0000_0000_0000_0000_0000nat,
            decreases limit - t,
        {
            let ghost s0 = sol@;
            let ghost m0 = m;
            let ghost c0 = count as nat;
            let ghost rest = sample_from(nums@, m, (limit - t) as nat, count as nat);
            if m & 1 != 0 {
                let idx = ((m % (n as u64)) as usize);
                let ghost old_sum = sum;
                sum = sum.wrapping_add(nums[idx]);
                sol.push(nums[idx]);
                proof {
                    crate::model::lemma_nats_push(s0, nums@[idx as int]);
                    crate::model::lemma_sum_nat_push(nats(s0), nums@[idx as int] as nat);
                    vstd::arithmetic::div_mod::lemma_add_mod_noop(
                        sum_nat(nats(s0)) as int,
                        nums@[idx as int] as int,
                        0x1_0000_0000_0000_0000_0000_0000_0000_0000int,
                    );
                    vstd::arithmetic::div_mod::lemma_small_mod(nums@[idx as int] as nat, 0x1_0000_0000_0000_0000_0000_0000_0000_0000nat);
                    if old_sum + nums@[idx as int] <= u128::MAX {
                        vstd::arithmetic::div_mod::lemma_small_mod(
                            (old_sum + nums@[idx as int]) as nat,
                            0x1_0000_0000_0000_0000_0000_0000_0000_0000nat,
                        );
                    } else {
                        vstd::arithmetic::div_mod::lemma_mod_sub_multiples_vanish(
                            (old_sum + nums@[idx as int]) as int,
                            0x1_0000_0000_0000_0000_0000_0000_0000_0000int,
                        );
                        vstd::arithmetic::div_mod::lemma_small_mod(
                            (old_sum + nums@[idx as int] - 0x1_0000_0000_0000_0000_0000_0000_0000_0000int) as nat,
                            0x1_0000_0000_0000_0000_0000_0000_0000_0000nat,
                        );
                    }
                }
                count += 1;
                if count > 12 {
                    proof {
                        assert(rest == seq![nums@[idx as int]]);
                        assert(sol@ =~= s0 + rest);
                    }
                    break;
                }
            }
            m = m >> 1;
            if m == 0 {
                proof {
                    if (m0 & 1u64) != 0u64 {
                        assert(sol@ =~= s0 + rest);
                    } else {
                        assert(rest =~= Seq::<u128>::empty());
                        assert(sol@ =~= s0 + rest);
                    }
                }
                break;
            }
            proof {
                assert(rest == (if (m0 & 1u64) != 0u64 { seq![nums@[(m0 % (n as u64)) as int]] } else { Seq::<u128>::empty() }) + sample_from(nums@, m, (limit - t - 1) as nat, count as nat));
                assert(sol@ + sample_from(nums@, m, (limit - (t + 1)) as nat, count as nat) =~= s0 + rest);
            }
            t += 1;
        }
        proof {
            assert(sol@ == sample_draw(nums@, seed, i));
        }
        if sum == target && sol.len() > 0 {
            match sum_u128_checked(&sol) {
                Some(exact) => {
                    if exact == target {
                        let big = to_big(&sol);
                        if counts_within(&big, &pool) {
                            return Search::Found(big);
                        }
                        proof {
                            if sub_multiset(nats(sol@), nats(nums@)) {
                                let k = choose|k: int| 0 <= k < big.len() && !(vals(big@).to_multiset().count(#[trigger] big@[k]@) <= vals(pool@).to_multiset().count(big@[k]@));
                                assert(vals(big@)[k] == big@[k]@);
                            }
                        }
                    }
                },
                None => {},
            }
        }
        proof {
            if draw_hits(nums@, sol@, target) {
                vstd::arithmetic::div_mod::lemma_small_mod(target as nat, 0x1_0000_0000_0000_0000_0000_0000_0000_0000nat);
            }
            assert forall|i2: u64| i2 < i + 1 implies !#[trigger] draw_hits(nums@, sample_draw(nums@, seed, i2), target) by {
                if i2 == i {
                }
            }
        }
        i += 1;
    }
    Search::Done
}

/// The exhaustive/sampling engine for tiny inputs.
pub struct TinyBruteEngine;

impl TinyBruteEngine {
    pub fn name(&self) -> (r: &'static str)
        ensures
            r@ == "TinyBrute"@,
    {
        "TinyBrute"
    }

    /// Up to 12 numbers: all subsets.  Up to 40 numbers whose sums fit a
    /// `u128`: random sampling from a clock seed.  Otherwise nothing.
    pub fn run(&self, p: &Profile, stop: &AtomicBool) -> (r: Search)
        requires
            p.wf(),
        ensures
            !(r is Impossible),
            sound(p, &r),
            p.n <= 12 ==> (r is Done ==> !solvable(p.values(), p.target@)),
            r is Found || r is Done || r is Stopped,
            (p.n > 40 || (p.n > 12 && !(p.total_sum@ <= u128::MAX && p.target@ <= u128::MAX))) ==> !(r is Found),
    {
        if stop_requested(stop) {
            return Search::Stopped;
        }
        if p.n <= 12 {
            if p.u128_safe() {
                let nums = p.numbers_u128();
                let target = p.target_u128();
                brute_u128(&nums, target, stop)
            } else {
                brute_big(&p.numbers, &p.target, stop)
            }
        } else if p.n <= 40 && p.u128_safe() {
            let nums = p.numbers_u128();
            let target = p.target_u128();
            let seed = clock_seed();
            random_sample(&nums, target, seed, stop)
        } else {
            Search::Done
        }
    }
}

} // verus!
