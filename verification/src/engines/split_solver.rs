//! Gap decomposition: the sorted numbers are cut wherever two neighbours
//! together exceed the target, and each segment whose total reaches the
//! target is searched on its own (every subset for short segments, meet in
//! the middle for longer ones).
use vstd::prelude::*;
use std::sync::atomic::AtomicBool;
use std::collections::HashMap;
use crate::model::{sum_nat, nats, sub_multiset, is_solution, solvable, reach, lemma_reach_split, lemma_reach_iff_solvable, lemma_reach_le_sum};
use crate::bignat::{BigNat, vals, big_add, big_le, big_eq, big_sub, big_to_u128};
use crate::profile::Profile;
use crate::stop::stop_requested;
use crate::sort::{sort_asc, asc_sorted};
use crate::masks::{pick_sum, mask_sum, nat_mask_sum, fits, bit, select_big, mask_sum_big, lemma_pick_sum_step, lemma_picked_sub, lemma_picked_nats, lemma_no_mask_unsolvable, lemma_mask_sum_nats, lemma_solvable_has_mask, lemma_solvable_has_mask_nat};
use crate::sums::{build_sums_vec, build_sums_big, sums_listed};
use super::{Search, copy_range, sum_big, find_sum};

verus! {

broadcast use vstd::std_specs::hash::group_hash_axioms;

/// The engine.
pub struct SplitSolver;

/// The cut points among the first `i` neighbouring pairs of `s`: the
/// positions `j + 1` with `s[j] + s[j + 1] > t`, in order.
pub open spec fn cut_points(s: Seq<nat>, t: nat, i: nat) -> Seq<usize>
    decreases i,
{
    if i == 0 {
        Seq::empty()
    } else {
        let c = cut_points(s, t, (i - 1) as nat);
        if s[i - 1] + s[i as int] > t {
            c.push(i as usize)
        } else {
            c
        }
    }
}

/// Where segment `k` starts, for the cut points `c`.
pub open spec fn seg_lo(c: Seq<usize>, k: int) -> int {
    if k == 0 {
        0
    } else {
        c[k - 1] as int
    }
}

/// Where segment `k` ends, for the cut points `c` of `n` numbers.
pub open spec fn seg_hi(c: Seq<usize>, n: int, k: int) -> int {
    if k < c.len() {
        c[k] as int
    } else {
        n
    }
}

/// The numbers `s`, sorted in increasing order, have no cut point, or
/// no segment between cut points has a subset summing to `t`.
pub open spec fn segments_dead(s: Seq<nat>, t: nat) -> bool {
    let c = cut_points(s, t, (s.len() - 1) as nat);
    c.len() == 0 || forall|k: int|
        0 <= k <= c.len() ==> !#[trigger] solvable(s.subrange(seg_lo(c, k), seg_hi(c, s.len() as int, k)), t)
}

/// `s` holds the values of `v` in increasing order.
pub open spec fn sorted_as(v: Seq<nat>, s: Seq<nat>) -> bool {
    s.to_multiset() == v.to_multiset() && asc_sorted(s)
}

/// How the search of one segment ended.
pub enum Seg {
    Hit(Vec<BigNat>),
    Miss,
    Halt,
}

/// An amount reached by two halves splits into one reached by each,
/// through a subset of each half.
proof fn lemma_halves_nat(a: Seq<nat>, b: Seq<nat>, t: nat)
    requires
        a.len() < 64,
        b.len() < 64,
        solvable(a + b, t),
    ensures
        exists|ml: u64, mr: u64|
            fits(ml, a.len()) && fits(mr, b.len()) && #[trigger] nat_mask_sum(a, ml) + #[trigger] nat_mask_sum(b, mr) == t,
{
    lemma_reach_iff_solvable(a + b, t);
    lemma_reach_split(a, b, t);
    let r1 = choose|r1: nat| r1 <= t && #[trigger] reach(a, r1) && reach(b, (t - r1) as nat);
    lemma_reach_iff_solvable(a, r1);
    lemma_reach_iff_solvable(b, (t - r1) as nat);
    lemma_solvable_has_mask_nat(a, r1);
    lemma_solvable_has_mask_nat(b, (t - r1) as nat);
    let ml = choose|m: u64| fits(m, a.len()) && #[trigger] nat_mask_sum(a, m) == r1;
    let mr = choose|m: u64| fits(m, b.len()) && #[trigger] nat_mask_sum(b, m) == (t - r1) as nat;
    assert(nat_mask_sum(a, ml) + nat_mask_sum(b, mr) == t);
}

/// The sum of the values of `e` that `m` selects, when it is at most `t`.
pub fn capped_mask_sum(e: &Vec<u128>, m: u64, t: u128) -> (r: Option<u128>)
    requires
        e.len() < 64,
    ensures
        r matches Some(s) ==> s as nat == mask_sum(e@, m) && s <= t,
        r is None ==> mask_sum(e@, m) > t,
{
    let mut sum: u128 = 0;
    let mut j: usize = 0;
    while j < e.len()
        invariant
            e.len() < 64,
            j <= e.len(),
            sum as nat == pick_sum(e@, m, j as nat),
            sum <= t,
        decreases e.len() - j,
    {
        proof {
            lemma_pick_sum_step(e@, m, j as nat);
        }
        if (m >> (j as u64)) & 1u64 == 1u64 {
            assert(bit(m, j as nat));
            match sum.checked_add(e[j]) {
                Some(s) => {
                    if s > t {
                        proof {
                            crate::masks::lemma_pick_sum_mono(e@, m, (j + 1) as nat, e.len() as nat);
                        }
                        return None;
                    }
                    sum = s;
                },
                None => {
                    proof {
                        crate::masks::lemma_pick_sum_mono(e@, m, (j + 1) as nat, e.len() as nat);
                    }
                    return None;
                },
            }
        } else {
            assert(!bit(m, j as nat));
        }
        j += 1;
    }
    Some(sum)
}

impl SplitSolver {
    pub fn name(&self) -> (r: &'static str)
        ensures
            r@ == "SplitSolver"@,
    {
        "SplitSolver"
    }

    /// For 4 to 48 numbers and a positive target: cuts the sorted numbers
    /// between neighbours that together exceed the target and, when there
    /// are at least two segments, searches each segment whose total
    /// reaches the target.
    pub fn run(&self, p: &Profile, stop: &AtomicBool) -> (r: Search)
        requires
            p.wf(),
        ensures
            r matches Search::Found(sol) ==> is_solution(p.values(), vals(sol@), p.target@),
            r is Found || r is Done || r is Stopped,
            p.n < 4 || p.n > 48 || p.target@ == 0 ==> r is Done,
            r is Done && 4 <= p.n <= 48 && p.target@ > 0 ==> exists|s: Seq<nat>|
                #[trigger] sorted_as(p.values(), s) && segments_dead(s, p.target@),
    {
        if p.n < 4 || p.n > 48 || big_eq(&p.target, &BigNat::zero()) {
            return Search::Done;
        }
        let sorted = sort_asc(&p.numbers);
        proof {
            broadcast use vstd::seq_lib::group_to_multiset_ensures;
            assert(vals(sorted@).to_multiset().len() == vals(sorted@).len());
            assert(p.values().to_multiset().len() == p.values().len());
        }
        let n = sorted.len();
        let ghost sv = vals(sorted@);
        proof {
            assert(sorted_as(p.values(), sv));
        }
        let mut splits: Vec<usize> = Vec::new();
        let mut i: usize = 0;
        while i + 1 < n
            invariant
                n == sorted.len(),
                sv == vals(sorted@),
                i < n,
                splits@ == cut_points(sv, p.target@, i as nat),
                forall|k: int| 0 <= k < splits.len() ==> 0 < #[trigger] splits@[k] <= i,
                forall|a: int, b: int| 0 <= a < b < splits.len() ==> splits@[a] < splits@[b],
            decreases n - i,
        {
            let pair = big_add(&sorted[i], &sorted[i + 1]);
            if !big_le(&pair, &p.target) {
                splits.push(i + 1);
            }
            i += 1;
        }
        proof {
            assert(n - 1 == i);
        }
        if splits.len() == 0 {
            return Search::Done;
        }
        let mut bounds: Vec<(usize, usize)> = Vec::new();
        let mut start: usize = 0;
        let mut k: usize = 0;
        while k < splits.len()
            invariant
                k <= splits.len(),
                start <= n,
                forall|q: int| 0 <= q < splits.len() ==> 0 < #[trigger] splits@[q] < n,
                forall|q: int| 0 <= q < bounds.len() ==> (#[trigger] bounds@[q]).0 < bounds@[q].1 <= start,
                forall|a: int, b: int| 0 <= a < b < splits.len() ==> splits@[a] < splits@[b],
                bounds.len() == k,
                start == seg_lo(splits@, k as int),
                forall|q: int| 0 <= q < k ==> (#[trigger] bounds@[q]).0 == seg_lo(splits@, q) && bounds@[q].1 == seg_hi(splits@, n as int, q),
            decreases splits.len() - k,
        {
            let sp = splits[k];
            if sp > start {
                bounds.push((start, sp));
                start = sp;
            }
            k += 1;
        }
        if start < n {
            bounds.push((start, n));
        }
        proof {
            assert(bounds.len() == splits.len() + 1);
        }
        if bounds.len() < 2 {
            return Search::Done;
        }
        let mut b: usize = 0;
        while b < bounds.len()
            invariant
                p.wf(),
                4 <= p.n <= 48,
                p.target@ > 0,
                n == sorted.len(),
                n <= 48,
                vals(sorted@).to_multiset() == p.values().to_multiset(),
                forall|q: int| 0 <= q < bounds.len() ==> (#[trigger] bounds@[q]).0 < bounds@[q].1 <= n,
                sv == vals(sorted@),
                sorted_as(p.values(), sv),
                splits@ == cut_points(sv, p.target@, (n - 1) as nat),
                bounds.len() == splits.len() + 1,
                b <= bounds.len(),
                forall|q: int| 0 <= q < bounds.len() ==> (#[trigger] bounds@[q]).0 == seg_lo(splits@, q) && bounds@[q].1 == seg_hi(splits@, n as int, q),
                forall|q: int| 0 <= q < b ==> !solvable(sv.subrange(#[trigger] seg_lo(splits@, q), seg_hi(splits@, n as int, q)), p.target@),
            decreases bounds.len() - b,
        {
            if stop_requested(stop) {
                return Search::Stopped;
            }
            let (lo, hi) = bounds[b];
            let seg = copy_range(&sorted, lo, hi);
            let seg_sum = sum_big(&seg);
            let reaches = big_le(&p.target, &seg_sum);
            if reaches {
                match solve_segment(&seg, &p.target, stop) {
                    Seg::Hit(sol) => {
                        proof {
                            crate::model::lemma_slice_sub(vals(sorted@), lo as int, hi as int);
                            assert(vals(sorted@).subrange(lo as int, hi as int) =~= vals(sorted@.subrange(lo as int, hi as int)));
                            crate::model::lemma_sub_multiset_trans(vals(sol@), vals(seg@), vals(sorted@));
                            super::lemma_perm_found(p, sorted@, sol@);
                        }
                        return Search::Found(sol);
                    },
                    Seg::Miss => {
                        proof {
                            assert(vals(sorted@).subrange(lo as int, hi as int) =~= vals(sorted@.subrange(lo as int, hi as int)));
                        }
                    },
                    Seg::Halt => {
                        return Search::Stopped;
                    },
                }
            }
            proof {
                assert(vals(sorted@).subrange(lo as int, hi as int) =~= vals(sorted@.subrange(lo as int, hi as int)));
                if solvable(vals(seg@), p.target@) {
                    lemma_reach_iff_solvable(vals(seg@), p.target@);
                    lemma_reach_le_sum(vals(seg@), p.target@);
                }
            }
            b += 1;
        }
        proof {
            assert(sv.len() == n);
            assert forall|k: int| 0 <= k <= splits.len() implies !#[trigger] solvable(sv.subrange(seg_lo(splits@, k), seg_hi(splits@, sv.len() as int, k)), p.target@) by {
                assert(!solvable(sv.subrange(seg_lo(splits@, k), seg_hi(splits@, n as int, k)), p.target@));
            }
            assert(segments_dead(sv, p.target@));
        }
        Search::Done
    }
}

/// A subset of `seg` summing to `target`, on `u128` values when the
/// target and every number fit one.
pub fn solve_segment(seg: &Vec<BigNat>, target: &BigNat, stop: &AtomicBool) -> (r: Seg)
    requires
        seg.len() <= 48,
    ensures
        r matches Seg::Hit(sol) ==> sub_multiset(vals(sol@), vals(seg@)) && sum_nat(vals(sol@)) == target@,
        r is Miss && target@ > 0 ==> !solvable(vals(seg@), target@),
{
    if stop_requested(stop) {
        return Seg::Halt;
    }
    let t = big_to_u128(target);
    let mut nums: Vec<u128> = Vec::new();
    let mut fits_all = t.is_some();
    let mut i: usize = 0;
    while i < seg.len()
        invariant
            i <= seg.len(),
            fits_all ==> nums.len() == i && forall|k: int| 0 <= k < i ==> #[trigger] nums@[k] as nat == seg@[k]@,
        decreases seg.len() - i,
    {
        match big_to_u128(&seg[i]) {
            Some(v) => {
                nums.push(v);
            },
            None => {
                fits_all = false;
            },
        }
        i += 1;
    }
    match t {
        Some(tv) => {
            if fits_all {
                proof {
                    assert(nats(nums@) =~= vals(seg@));
                }
                return solve_segment_u128(seg, &nums, tv, stop);
            }
        },
        None => {},
    }
    solve_segment_bigint(seg, target, stop)
}

/// The `u128` search: every non-empty subset for at most 12 numbers,
/// otherwise a table of the right half's sums (the last subset per sum)
/// looked up for each left subset.
fn solve_segment_u128(seg: &Vec<BigNat>, nums: &Vec<u128>, t: u128, stop: &AtomicBool) -> (r: Seg)
    requires
        seg.len() <= 48,
        nats(nums@) == vals(seg@),
    ensures
        r matches Seg::Hit(sol) ==> sub_multiset(vals(sol@), vals(seg@)) && sum_nat(vals(sol@)) == t as nat,
        r is Miss && t > 0 ==> !solvable(vals(seg@), t as nat),
{
    let n = nums.len();
    proof {
        assert(nats(nums@).len() == vals(seg@).len());
        assert(nats(nums@).len() == nums@.len());
        assert(vals(seg@).len() == seg@.len());
        assert(seg.len() == n);
    }
    if n <= 12 {
        let total: u64 = 1u64 << (n as u64);
        proof {
            let nn = n as u64;
            assert(nn <= 12 ==> (1u64 << nn) >= 1u64) by (bit_vector);
        }
        let mut mask: u64 = 1;
        while mask < total
            invariant
                n == nums.len(),
                n <= 12,
                seg.len() == n,
                nats(nums@) == vals(seg@),
                total == 1u64 << (n as u64),
                1 <= mask <= total,
                forall|m: u64| 1 <= m < mask ==> #[trigger] mask_sum(nums@, m) != t,
            decreases total - mask,
        {
            if stop_requested(stop) {
                return Seg::Halt;
            }
            match capped_mask_sum(nums, mask, t) {
                Some(s) => {
                    if s == t {
                        let sol = select_big(seg.as_slice(), mask);
                        proof {
                            lemma_picked_nats(nums@, mask);
                            lemma_picked_sub(vals(seg@), mask);
                        }
                        return Seg::Hit(sol);
                    }
                },
                None => {},
            }
            mask += 1;
        }
        proof {
            if t > 0 {
                assert forall|m: u64| m < (1u64 << (nats(nums@).len() as u64)) implies #[trigger] nat_mask_sum(nats(nums@), m) != t as nat by {
                    lemma_mask_sum_nats(nums@, m);
                    if m == 0 {
                        super::schroeppel_shamir::lemma_mask_zero(nums@);
                    }
                }
                lemma_no_mask_unsolvable(nats(nums@), t as nat);
            }
        }
        return Seg::Miss;
    }
    let mid = n / 2;
    let left_nums = super::schroeppel_shamir::slice_to_vec(nums, 0, mid);
    let right_nums = super::schroeppel_shamir::slice_to_vec(nums, mid, n);
    let left_subs = build_sums_vec(left_nums.as_slice(), t);
    if stop_requested(stop) {
        return Seg::Halt;
    }
    let right_subs = build_sums_vec(right_nums.as_slice(), t);
    if stop_requested(stop) {
        return Seg::Halt;
    }
    let mut right_map: HashMap<u128, u64> = HashMap::new();
    let mut k: usize = 0;
    while k < right_subs.len()
        invariant
            k <= right_subs.len(),
            sums_listed(right_nums@, t, right_subs@),
            forall|x: u128|
                #[trigger] right_map@.contains_key(x) ==> fits(right_map@[x], right_nums@.len()) && mask_sum(
                    right_nums@,
                    right_map@[x],
                ) == x as nat,
            forall|i: int| 0 <= i < k ==> right_map@.contains_key(#[trigger] right_subs@[i].0),
        decreases right_subs.len() - k,
    {
        let (s, m) = right_subs[k];
        right_map.insert(s, m);
        k += 1;
    }
    let left_seg = copy_range(seg, 0, mid);
    let right_seg = copy_range(seg, mid, n);
    proof {
        assert(vals(seg@) =~= vals(left_seg@) + vals(right_seg@));
        crate::model::lemma_nats_concat(left_nums@, right_nums@);
        assert(nums@ =~= left_nums@ + right_nums@);
        assert forall|k: int| 0 <= k < mid implies nats(left_nums@)[k] == vals(left_seg@)[k] by {
            assert(nats(nums@)[k] == vals(seg@)[k]);
            assert(left_nums@[k] == nums@[k]);
            assert(nats(left_nums@)[k] == left_nums@[k] as nat);
            assert(nats(nums@)[k] == nums@[k] as nat);
            assert(vals(seg@.subrange(0, mid as int))[k] == seg@[k]@);
        }
        assert forall|k: int| 0 <= k < n - mid implies nats(right_nums@)[k] == vals(right_seg@)[k] by {
            assert(nats(nums@)[mid + k] == vals(seg@)[mid + k]);
            assert(right_nums@[k] == nums@[mid + k]);
            assert(nats(right_nums@)[k] == right_nums@[k] as nat);
            assert(nats(nums@)[mid + k] == nums@[mid + k] as nat);
            assert(vals(seg@.subrange(mid as int, n as int))[k] == seg@[mid + k]@);
        }
        assert(nats(left_nums@) =~= vals(left_seg@));
        assert(nats(right_nums@) =~= vals(right_seg@));
    }
    let mut q: usize = 0;
    while q < left_subs.len()
        invariant
            q <= left_subs.len(),
            left_nums.len() == mid,
            mid < 64,
            right_nums.len() == n - mid,
            n - mid < 64,
            nats(left_nums@) == vals(left_seg@),
            nats(right_nums@) == vals(right_seg@),
            vals(seg@) == vals(left_seg@) + vals(right_seg@),
            left_seg.len() == mid,
            right_seg.len() == n - mid,
            sums_listed(left_nums@, t, left_subs@),
            forall|x: u128|
                #[trigger] right_map@.contains_key(x) ==> fits(right_map@[x], right_nums@.len()) && mask_sum(
                    right_nums@,
                    right_map@[x],
                ) == x as nat,
            sums_listed(right_nums@, t, right_subs@),
            forall|i: int| 0 <= i < right_subs.len() ==> right_map@.contains_key(#[trigger] right_subs@[i].0),
            forall|i: int| 0 <= i < q ==> !right_map@.contains_key((t - #[trigger] left_subs@[i].0) as u128),
            nats(nums@) == nats(left_nums@) + nats(right_nums@),
        decreases left_subs.len() - q,
    {
        let (s, m) = left_subs[q];
        let need = t - s;
        match right_map.get(&need) {
            Some(rm) => {
                let rmask = *rm;
                if stop_requested(stop) {
                    return Seg::Halt;
                }
                let mut sol = select_big(left_seg.as_slice(), m);
                let mut rs = select_big(right_seg.as_slice(), rmask);
                let ghost (pl, pr) = (vals(sol@), vals(rs@));
                sol.append(&mut rs);
                proof {
                    assert(vals(sol@) =~= pl + pr);
                    lemma_picked_nats(left_nums@, m);
                    lemma_picked_nats(right_nums@, rmask);
                    lemma_picked_sub(vals(left_seg@), m);
                    lemma_picked_sub(vals(right_seg@), rmask);
                    crate::model::lemma_sub_multiset_concat(pl, vals(left_seg@), pr, vals(right_seg@));
                    crate::model::lemma_sum_nat_concat(pl, pr);
                }
                return Seg::Hit(sol);
            },
            None => {},
        }
        q += 1;
    }
    proof {
        if solvable(vals(seg@), t as nat) {
            let (a, b) = (left_nums@, right_nums@);
            lemma_halves_nat(nats(a), nats(b), t as nat);
            let (ml, mr) = choose|ml: u64, mr: u64|
                fits(ml, nats(a).len()) && fits(mr, nats(b).len()) && #[trigger] nat_mask_sum(nats(a), ml) + #[trigger] nat_mask_sum(nats(b), mr) == t;
            lemma_mask_sum_nats(a, ml);
            lemma_mask_sum_nats(b, mr);
            let i = choose|i: int| 0 <= i < left_subs.len() && #[trigger] left_subs@[i].1 == ml;
            let j = choose|j: int| 0 <= j < right_subs.len() && #[trigger] right_subs@[j].1 == mr;
            assert(right_map@.contains_key(right_subs@[j].0));
            assert(!right_map@.contains_key((t - left_subs@[i].0) as u128));
        }
    }
    Seg::Miss
}

/// The big-number search: every non-empty subset for at most 10 numbers,
/// then the sums of the right half (ordered by sum) looked up for each
/// left subset.
fn solve_segment_bigint(seg: &Vec<BigNat>, target: &BigNat, stop: &AtomicBool) -> (r: Seg)
    requires
        seg.len() <= 48,
    ensures
        r matches Seg::Hit(sol) ==> sub_multiset(vals(sol@), vals(seg@)) && sum_nat(vals(sol@)) == target@,
        r is Miss ==> !solvable(vals(seg@), target@),
{
    let n = seg.len();
    if n <= 10 {
        let total: u64 = 1u64 << (n as u64);
        let mut mask: u64 = 1;
        while mask < total
            invariant
                n == seg.len(),
                n <= 10,
            decreases total - mask,
        {
            if stop_requested(stop) {
                return Seg::Halt;
            }
            let s = mask_sum_big(seg.as_slice(), mask);
            if big_eq(&s, target) {
                let sol = select_big(seg.as_slice(), mask);
                proof {
                    lemma_picked_sub(vals(seg@), mask);
                }
                return Seg::Hit(sol);
            }
            mask += 1;
        }
    }
    let mid = n / 2;
    let left_seg = copy_range(seg, 0, mid);
    let right_seg = copy_range(seg, mid, n);
    proof {
        assert(vals(seg@) =~= vals(left_seg@) + vals(right_seg@));
    }
    let left = crate::sums::build_sums_big(left_seg.as_slice(), target);
    if stop_requested(stop) {
        return Seg::Halt;
    }
    let right = build_sums_big(right_seg.as_slice(), target);
    if stop_requested(stop) {
        return Seg::Halt;
    }
    let mut q: usize = 0;
    while q < left.len()
        invariant
            q <= left.len(),
            left_seg.len() == mid,
            mid < 64,
            right_seg.len() == n - mid,
            n - mid < 64,
            vals(seg@) == vals(left_seg@) + vals(right_seg@),
            forall|i: int|
                0 <= i < left.len() ==> fits(#[trigger] left@[i].1, left_seg@.len()) && left@[i].0@ == nat_mask_sum(
                    vals(left_seg@),
                    left@[i].1,
                ) && left@[i].0@ <= target@,
            forall|i: int|
                0 <= i < right.len() ==> fits(#[trigger] right@[i].1, right_seg@.len()) && right@[i].0@ == nat_mask_sum(
                    vals(right_seg@),
                    right@[i].1,
                ) && right@[i].0@ <= target@,
            forall|i: int, j: int| 0 <= i < j < right.len() ==> right@[i].0@ <= right@[j].0@,
            forall|m: u64|
                fits(m, left_seg@.len()) && #[trigger] nat_mask_sum(vals(left_seg@), m) <= target@ ==> exists|i: int|
                    0 <= i < left.len() && #[trigger] left@[i].1 == m,
            forall|m: u64|
                fits(m, right_seg@.len()) && #[trigger] nat_mask_sum(vals(right_seg@), m) <= target@ ==> exists|i: int|
                    0 <= i < right.len() && #[trigger] right@[i].1 == m,
            forall|i: int, j: int| 0 <= i < q && 0 <= j < right.len() ==> #[trigger] right@[j].0@ + #[trigger] left@[i].0@ != target@,
        decreases left.len() - q,
    {
        assert(fits(left@[q as int].1, left_seg@.len()));
        let need = big_sub(target, &left[q].0);
        match find_sum(&right, &need) {
            Some(ri) => {
                if stop_requested(stop) {
                    return Seg::Halt;
                }
                let mut sol = select_big(left_seg.as_slice(), left[q].1);
                let mut rs = select_big(right_seg.as_slice(), right[ri].1);
                let ghost (pl, pr) = (vals(sol@), vals(rs@));
                sol.append(&mut rs);
                proof {
                    assert(vals(sol@) =~= pl + pr);
                    lemma_picked_sub(vals(left_seg@), left@[q as int].1);
                    lemma_picked_sub(vals(right_seg@), right@[ri as int].1);
                    crate::model::lemma_sub_multiset_concat(pl, vals(left_seg@), pr, vals(right_seg@));
                    crate::model::lemma_sum_nat_concat(pl, pr);
                }
                return Seg::Hit(sol);
            },
            None => {},
        }
        q += 1;
    }
    proof {
        if solvable(vals(seg@), target@) {
            let (a, b) = (vals(left_seg@), vals(right_seg@));
            lemma_halves_nat(a, b, target@);
            let (ml, mr) = choose|ml: u64, mr: u64|
                fits(ml, a.len()) && fits(mr, b.len()) && #[trigger] nat_mask_sum(a, ml) + #[trigger] nat_mask_sum(b, mr) == target@;
            let i = choose|i: int| 0 <= i < left.len() && #[trigger] left@[i].1 == ml;
            let j = choose|j: int| 0 <= j < right.len() && #[trigger] right@[j].1 == mr;
            assert(right@[j].0@ + left@[i].0@ == target@);
        }
    }
    Seg::Miss
}

} // verus!
