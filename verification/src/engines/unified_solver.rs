//! The unified solver: one engine that picks a primary strategy from the
//! instance and chains brute force, meet-in-the-middle, the magnitude
//! hierarchy with goal-driven search, the four-quadrant merge, a reachability
//! table, and a forward/backward greedy bridge.
use vstd::prelude::*;
use std::sync::atomic::AtomicBool;
use crate::model::{sum_nat, sub_multiset, solvable, is_solution};
use crate::bignat::{BigNat, vals, big_add, big_sub, big_le, big_eq};
use crate::profile::Profile;
use crate::stop::stop_requested;
use crate::masks::{nat_mask_sum, select_big, mask_sum_big, fits};
use crate::sums::build_sums_big;
use super::{Search, Dfs, sound, copy_range, find_sum, is_suffix_sums_big, suffix_sums_big};
use crate::bignat::{big_rem, big_from_u128, big_div, big_low_u64};
use crate::model::{reach, lemma_reach_push, lemma_reach_iff_solvable};
use crate::sort::{sort_desc, sort_asc};

use crate::sort::{sort_positions, positions};
use super::digit_filter::DigitFilterEngine;

verus! {

broadcast use vstd::seq_lib::group_to_multiset_ensures, vstd::multiset::group_multiset_axioms;

/// The primary search plan.
pub enum Strategy {
    BruteForce,
    MeetInMiddle,
    BitsetDynamicProgramming,
    MultiPhaseDigitGuided,
    SchroeppelShamirBcj,
    GdepGuided,
    ColumnSat,
}

/// The plan for `n` numbers and a `bits`-bit target.
pub open spec fn strategy_for(n: nat, bits: nat, sat_encoded: bool, u128_safe: bool) -> Strategy {
    if n <= 5 {
        Strategy::BruteForce
    } else if n <= 25 {
        Strategy::MeetInMiddle
    } else if bits <= 24 {
        Strategy::BitsetDynamicProgramming
    } else if sat_encoded {
        Strategy::ColumnSat
    } else if n > 70 || bits > 64 {
        Strategy::MultiPhaseDigitGuided
    } else if u128_safe && n > 25 && n <= 80 {
        Strategy::SchroeppelShamirBcj
    } else if !u128_safe && n > 25 {
        Strategy::GdepGuided
    } else {
        Strategy::MultiPhaseDigitGuided
    }
}

/// The plan's main phase settles the instance: a four-list search or the
/// digit-guided hierarchy, each of which ends without a subset only when
/// there is none.
pub open spec fn exhaustive_plan(s: Strategy) -> bool {
    s is SchroeppelShamirBcj || s is MultiPhaseDigitGuided || s is ColumnSat || s is GdepGuided
}

/// How the reachability table ended.
pub enum Table {
    /// The target is zero: nothing was done.
    Skipped,
    Stopped,
    /// The target is reachable by the low 64-bit digits of the numbers.
    Reachable,
    /// The target is not reachable.
    Unreachable,
}

/// Each value reduced to its lowest 64-bit digit.
pub open spec fn low64(s: Seq<nat>) -> Seq<nat> {
    s.map_values(|x: nat| x % 0x1_0000_0000_0000_0000)
}

/// Reducing the values to their low digits loses no amount below `2^64`.
pub proof fn lemma_reach_low64(s: Seq<nat>, r: nat)
    requires
        r < 0x1_0000_0000_0000_0000,
        reach(s, r),
    ensures
        reach(low64(s), r),
    decreases s.len(),
{
    if r > 0 {
        assert(low64(s).drop_first() =~= low64(s.drop_first()));
        if reach(s.drop_first(), r) {
            lemma_reach_low64(s.drop_first(), r);
        } else {
            lemma_reach_low64(s.drop_first(), (r - s[0]) as nat);
            assert(s[0] % 0x1_0000_0000_0000_0000 == s[0]);
        }
    }
}

/// How meet-in-the-middle ended.
pub enum Mitm {
    Found(Vec<BigNat>),
    Exhausted,
    Stopped,
    /// A right-half sum passed the target (the search cannot go on).
    Overflow,
}

/// `path` is drawn from `elements[..start]` and sums to `current`.
pub open spec fn partial_ok(elements: Seq<BigNat>, path: Seq<BigNat>, start: int, current: nat) -> bool {
    &&& sub_multiset(vals(path), vals(elements.take(start)))
    &&& sum_nat(vals(path)) == current
}

/// The values of `elements[i..]`.
pub open spec fn tail_vals(elements: Seq<BigNat>, i: int) -> Seq<nat> {
    vals(elements.subrange(i, elements.len() as int))
}

/// Element `j` keeps the sum at most `target`, and the numbers from `j` on
/// still add up to at least what is missing.
pub open spec fn gd_candidate(elements: Seq<BigNat>, suffix: Seq<BigNat>, target: nat, current: nat, j: int) -> bool {
    &&& current + elements[j]@ <= target
    &&& target <= suffix[j]@ + current
}

/// No subset that starts with element `j` completes `current` to `target`.
pub open spec fn gd_dead(elements: Seq<BigNat>, target: nat, current: nat, j: int) -> bool {
    !(current + elements[j]@ <= target && reach(tail_vals(elements, j + 1), (target - current - elements[j]@) as nat))
}

/// Goal-driven search that tries, among the elements that keep the sum at
/// most `target` and can still reach it, first those leaving the largest
/// low byte of the remainder.  A miss means that nothing from `start` on
/// completes `current` to `target`.
#[verifier::rlimit(50)]
#[verifier::spinoff_prover]
pub fn gdep_dfs(
    elements: &Vec<BigNat>,
    suffix: &Vec<BigNat>,
    target: &BigNat,
    start: usize,
    current: &BigNat,
    path: &Vec<BigNat>,
    stop: &AtomicBool,
    result: &mut Vec<BigNat>,
) -> (r: Dfs)
    requires
        is_suffix_sums_big(elements@, suffix@),
        start <= elements.len(),
        partial_ok(elements@, path@, start as int, current@),
    ensures
        r is Hit ==> sub_multiset(vals(final(result)@), vals(elements@)) && sum_nat(vals(final(result)@)) == target@,
        r is Miss ==> !(current@ <= target@ && reach(tail_vals(elements@, start as int), (target@ - current@) as nat)),
    decreases elements.len() - start,
{
    if stop_requested(stop) {
        return Dfs::Halt;
    }
    if big_eq(current, target) {
        let mut copy: Vec<BigNat> = Vec::new();
        let mut k: usize = 0;
        while k < path.len()
            invariant
                k <= path.len(),
                vals(copy@) == vals(path@.take(k as int)),
            decreases path.len() - k,
        {
            let ghost before = copy@;
            copy.push(path[k].copy());
            proof {
                assert(vals(copy@) =~= vals(before).push(path@[k as int]@));
                assert(vals(path@.take(k + 1)) =~= vals(path@.take(k as int)).push(path@[k as int]@));
            }
            k += 1;
        }
        *result = copy;
        proof {
            assert(path@.take(path.len() as int) =~= path@);
            crate::model::lemma_slice_sub(vals(elements@), 0, start as int);
            assert(vals(elements@).subrange(0, start as int) =~= vals(elements@.take(start as int)));
            crate::model::lemma_sub_multiset_trans(vals(path@), vals(elements@.take(start as int)), vals(elements@));
        }
        return Dfs::Hit;
    }
    let len = elements.len();
    if start >= len {
        proof {
            assert(tail_vals(elements@, start as int) =~= Seq::<nat>::empty());
        }
        return Dfs::Miss;
    }
    if !big_le(target, &big_add(&suffix[start], current)) {
        proof {
            if current@ <= target@ && reach(tail_vals(elements@, start as int), (target@ - current@) as nat) {
                crate::model::lemma_reach_le_sum(tail_vals(elements@, start as int), (target@ - current@) as nat);
            }
        }
        return Dfs::Miss;
    }
    let mut cand: Vec<usize> = Vec::new();
    let mut keys: Vec<BigNat> = Vec::new();
    let byte = big_from_u128(256);
    let mut i = start;
    while i < len
        invariant
            start <= i <= len,
            len == elements.len(),
            suffix.len() == len + 1,
            cand.len() == keys.len(),
            forall|k: int| 0 <= k < cand.len() ==> start <= #[trigger] cand@[k] < len,
            forall|j: int|
                start <= j < i && gd_candidate(elements@, suffix@, target@, current@, j) ==> exists|k: int|
                    0 <= k < cand.len() && #[trigger] cand@[k] == j,
            byte@ == 256,
        decreases len - i,
    {
        let new_sum = big_add(current, &elements[i]);
        if big_le(&new_sum, target) && big_le(target, &big_add(&suffix[i], current)) {
            let remaining = big_sub(target, &new_sum);
            let key = if big_eq(&remaining, &BigNat::zero()) {
                BigNat::zero()
            } else {
                big_rem(&remaining, &byte)
            };
            let ghost old_cand = cand@;
            cand.push(i);
            keys.push(key);
            proof {
                assert forall|j: int|
                    start <= j < i + 1 && gd_candidate(elements@, suffix@, target@, current@, j) implies exists|k: int|
                        0 <= k < cand.len() && #[trigger] cand@[k] == j by {
                    if j == i as int {
                        assert(cand@[old_cand.len() as int] == j);
                    } else {
                        let k = choose|k: int| 0 <= k < old_cand.len() && #[trigger] old_cand[k] == j;
                        assert(cand@[k] == j);
                    }
                }
            }
        }
        i += 1;
    }
    let order = sort_positions(&keys, true);
    let mut k: usize = 0;
    while k < order.len()
        invariant
            is_suffix_sums_big(elements@, suffix@),
            len == elements.len(),
            start < len,
            partial_ok(elements@, path@, start as int, current@),
            order.len() == keys.len(),
            cand.len() == keys.len(),
            forall|q: int| 0 <= q < order.len() ==> order@[q] < keys.len(),
            forall|q: int| 0 <= q < cand.len() ==> start <= #[trigger] cand@[q] < len,
            forall|q: int| 0 <= q < k ==> gd_dead(elements@, target@, current@, #[trigger] cand@[order@[q] as int] as int),
        decreases order.len() - k,
    {
        if stop_requested(stop) {
            return Dfs::Halt;
        }
        let ci = cand[order[k]];
        let v = &elements[ci];
        let new_sum = big_add(current, v);
        let mut new_path: Vec<BigNat> = Vec::new();
        let mut q: usize = 0;
        while q < path.len()
            invariant
                q <= path.len(),
                vals(new_path@) == vals(path@.take(q as int)),
            decreases path.len() - q,
        {
            let ghost before = new_path@;
            new_path.push(path[q].copy());
            proof {
                assert(vals(new_path@) =~= vals(before).push(path@[q as int]@));
                assert(vals(path@.take(q + 1)) =~= vals(path@.take(q as int)).push(path@[q as int]@));
            }
            q += 1;
        }
        let ghost before_push = new_path@;
        new_path.push(v.copy());
        proof {
            assert(path@.take(path.len() as int) =~= path@);
            assert(vals(new_path@) =~= vals(path@).push(v@));
            crate::model::lemma_sum_nat_push(vals(path@), v@);
            let ek = vals(elements@.take(ci as int));
            crate::model::lemma_slice_sub(ek, 0, start as int);
            assert(ek.subrange(0, start as int) =~= vals(elements@.take(start as int)));
            crate::model::lemma_sub_multiset_trans(vals(path@), vals(elements@.take(start as int)), ek);
            crate::model::lemma_sub_multiset_push(vals(path@), ek, v@);
            assert(vals(elements@.take(ci + 1)) =~= ek.push(v@));
        }
        match gdep_dfs(elements, suffix, target, ci + 1, &new_sum, &new_path, stop, result) {
            Dfs::Hit => return Dfs::Hit,
            Dfs::Halt => return Dfs::Halt,
            Dfs::Miss => {},
        }
        proof {
            assert(gd_dead(elements@, target@, current@, cand@[order@[k as int] as int] as int));
        }
        k += 1;
    }
    proof {
        let rr = (target@ - current@) as nat;
        let tl = tail_vals(elements@, start as int);
        if current@ <= target@ && reach(tl, rr) {
            assert(rr > 0);
            crate::model::lemma_reach_pick(tl, rr);
            let ip = choose|ip: int| 0 <= ip < tl.len() && tl[ip] <= rr && #[trigger] reach(tl.skip(ip + 1), (rr - tl[ip]) as nat);
            let j = start + ip;
            assert(tl.skip(ip + 1) =~= tail_vals(elements@, j + 1));
            assert(tl[ip] == elements@[j]@);
            let t1 = tail_vals(elements@, j + 1);
            crate::model::lemma_reach_le_sum(t1, (rr - tl[ip]) as nat);
            crate::model::lemma_sum_nat_first(tail_vals(elements@, j));
            assert(tail_vals(elements@, j).drop_first() =~= t1);
            assert(suffix@[j]@ == sum_nat(tail_vals(elements@, j)));
            assert(gd_candidate(elements@, suffix@, target@, current@, j));
            let c = choose|c: int| 0 <= c < cand.len() && #[trigger] cand@[c] == j;
            assert(positions(keys.len() as nat)[c] == c as usize);
            assert(positions(keys.len() as nat).to_multiset().count(c as usize) > 0);
            assert(order@.to_multiset().count(c as usize) > 0);
            assert(order@.contains(c as usize));
            let kq = choose|kq: int| 0 <= kq < order.len() && order@[kq] == c as usize;
            assert(gd_dead(elements@, target@, current@, cand@[order@[kq] as int] as int));
            assert(false);
        }
    }
    Dfs::Miss
}

/// Goal-driven search over all of `elements` for `target`; a miss means that
/// no subset of `elements` sums to `target`.
pub fn run_gdep(elements: &Vec<BigNat>, target: &BigNat, stop: &AtomicBool, result: &mut Vec<BigNat>) -> (r: Dfs)
    ensures
        r is Hit ==> sub_multiset(vals(final(result)@), vals(elements@)) && sum_nat(vals(final(result)@)) == target@,
        r is Miss ==> !solvable(vals(elements@), target@),
{
    let suffix = suffix_sums_big(elements);
    let empty: Vec<BigNat> = Vec::new();
    proof {
        assert(vals(empty@) =~= Seq::<nat>::empty());
        crate::model::lemma_sub_multiset_empty(vals(elements@.take(0)));
    }
    let r = gdep_dfs(elements, &suffix, target, 0, &BigNat::zero(), &empty, stop, result);
    proof {
        assert(tail_vals(elements@, 0) =~= vals(elements@));
        crate::model::lemma_reach_iff_solvable(vals(elements@), target@);
    }
    r
}

/// Copies of `a` followed by copies of `b`.
pub fn concat_copies(a: &Vec<BigNat>, b: &Vec<BigNat>) -> (r: Vec<BigNat>)
    ensures
        vals(r@) == vals(a@) + vals(b@),
{
    let mut r = copy_range(a, 0, a.len());
    let mut rb = copy_range(b, 0, b.len());
    proof {
        assert(a@.subrange(0, a.len() as int) =~= a@);
        assert(b@.subrange(0, b.len() as int) =~= b@);
    }
    let ghost (ra, rbb) = (r@, rb@);
    r.append(&mut rb);
    proof {
        assert(vals(r@) =~= vals(ra) + vals(rbb));
    }
    r
}

/// The unified solver engine.
/// The right-half subset `m` has a sum below `t` that no left-half subset
/// completes to `t`.
pub open spec fn no_meeting(left: Seq<nat>, right: Seq<nat>, m: u64, t: nat) -> bool {
    &&& nat_mask_sum(right, m) < t
    &&& forall|ml: u64| fits(ml, left.len()) ==> #[trigger] nat_mask_sum(left, ml) != t - nat_mask_sum(right, m)
}

/// Scanning the subsets of the right half of `values` in mask order, one
/// overshoots `t` before any earlier subset has met a left-half sum (or
/// reached `t` alone): the half-split search has nowhere to go from there.
pub open spec fn half_scan_overshoots(values: Seq<nat>, t: nat) -> bool {
    let mid = values.len() / 2;
    let left = values.subrange(0, mid as int);
    let right = values.subrange(mid as int, values.len() as int);
    exists|m: u64|
        #[trigger] fits(m, right.len()) && nat_mask_sum(right, m) > t && forall|k: u64|
            k < m ==> #[trigger] no_meeting(left, right, k, t)
}

pub struct UnifiedSolver;

impl UnifiedSolver {
    pub fn name(&self) -> (r: &'static str)
        ensures
            r@ == "UnifiedSolver"@,
    {
        "UnifiedSolver"
    }

    /// Chooses the primary strategy.
    pub fn choose_strategy(p: &Profile) -> (r: Strategy)
        requires
            p.wf(),
        ensures
            r == strategy_for(p.n as nat, crate::bignat::bit_len(p.target@), p.sat_encoded, p.total_sum@ <= u128::MAX && p.target@ <= u128::MAX),
    {
        let n = p.n;
        let bits = crate::bignat::big_bits(&p.target);
        if n <= 5 {
            return Strategy::BruteForce;
        }
        if n <= 25 {
            return Strategy::MeetInMiddle;
        }
        if bits <= 24 {
            return Strategy::BitsetDynamicProgramming;
        }
        if p.sat_encoded {
            return Strategy::ColumnSat;
        }
        if n > 70 || bits > 64 {
            return Strategy::MultiPhaseDigitGuided;
        }
        let safe = p.u128_safe();
        if safe && n > 25 && n <= 80 {
            return Strategy::SchroeppelShamirBcj;
        }
        if !safe && n > 25 {
            return Strategy::GdepGuided;
        }
        Strategy::MultiPhaseDigitGuided
    }

    /// Every subset of at most five numbers; no match proves impossibility.
    pub fn brute_force(p: &Profile, stop: &AtomicBool) -> (r: Search)
        requires
            p.wf(),
            p.n < 64,
        ensures
            sound(p, &r),
            r is Found || r is Impossible || r is Stopped,
    {
        match super::tiny_brute::brute_big(&p.numbers, &p.target, stop) {
            Search::Found(sol) => Search::Found(sol),
            Search::Done => Search::Impossible,
            _ => Search::Stopped,
        }
    }

    /// The magnitude hierarchy: numbers above half the target are tried in
    /// every combination of the first ten, and the rest of the target is
    /// searched goal-driven among the smaller numbers; then the whole set is
    /// searched goal-driven, which settles the instance.  A zero target is
    /// met by the empty subset; an empty set with a positive target is
    /// impossible.
    pub fn md_mitm_hierarchy(p: &Profile, stop: &AtomicBool) -> (r: Search)
        requires
            p.wf(),
        ensures
            sound(p, &r),
            r is Found || r is Impossible || r is Done || r is Stopped,
            r is Done ==> !solvable(p.values(), p.target@),
            p.target@ == 0 ==> (r matches Search::Found(sol) && sol@.len() == 0),
            p.target@ > 0 && p.n == 0 ==> r is Impossible,
            r is Impossible ==> p.n == 0,
    {
        let target = &p.target;
        if big_eq(target, &BigNat::zero()) {
            let empty: Vec<BigNat> = Vec::new();
            proof {
                assert(vals(empty@) =~= Seq::<nat>::empty());
                crate::model::lemma_sub_multiset_empty(p.values());
            }
            return Search::Found(empty);
        }
        if p.numbers.len() == 0 {
            proof {
                if solvable(p.values(), p.target@) {
                    let sol = choose|sol: Seq<nat>| is_solution(p.values(), sol, p.target@);
                    crate::model::lemma_sub_multiset_sum_le(sol, p.values());
                    assert(p.values() =~= Seq::<nat>::empty());
                }
            }
            return Search::Impossible;
        }
        let sorted = sort_desc(&p.numbers);
        let half = big_div(target, &big_from_u128(2));
        let tenth = big_div(target, &big_from_u128(8));
        let hundredth = big_div(target, &big_from_u128(64));
        let mut g0: Vec<BigNat> = Vec::new();
        let mut g1: Vec<BigNat> = Vec::new();
        let mut g2: Vec<BigNat> = Vec::new();
        let mut g3: Vec<BigNat> = Vec::new();
        let mut i: usize = 0;
        proof {
            assert(vals(sorted@.take(0)) =~= Seq::<nat>::empty());
            assert(vals(g0@) =~= Seq::<nat>::empty());
        }
        while i < sorted.len()
            invariant
                i <= sorted.len(),
                vals(g0@).to_multiset().add(vals(g1@).to_multiset()).add(vals(g2@).to_multiset()).add(
                    vals(g3@).to_multiset(),
                ) == vals(sorted@.take(i as int)).to_multiset(),
            decreases sorted.len() - i,
        {
            let x = &sorted[i];
            let ghost (o0, o1, o2, o3) = (g0@, g1@, g2@, g3@);
            if !big_le(x, &half) {
                g0.push(x.copy());
            } else if !big_le(x, &tenth) {
                g1.push(x.copy());
            } else if !big_le(x, &hundredth) {
                g2.push(x.copy());
            } else {
                g3.push(x.copy());
            }
            proof {
                assert(vals(sorted@.take(i + 1)) =~= vals(sorted@.take(i as int)).push(x@));
                assert(vals(g0@) =~= vals(o0) || vals(g0@) =~= vals(o0).push(x@));
                if vals(g0@) =~= vals(o0).push(x@) {
                } else if vals(g1@) =~= vals(o1).push(x@) {
                } else if vals(g2@) =~= vals(o2).push(x@) {
                } else {
                    assert(vals(g3@) =~= vals(o3).push(x@));
                }
                assert(vals(g1@) =~= vals(o1) || vals(g1@) =~= vals(o1).push(x@));
                assert(vals(g2@) =~= vals(o2) || vals(g2@) =~= vals(o2).push(x@));
                assert(vals(g3@) =~= vals(o3) || vals(g3@) =~= vals(o3).push(x@));
            }
            i += 1;
        }
        proof {
            assert(sorted@.take(sorted.len() as int) =~= sorted@);
        }
        let rest = concat_copies(&concat_copies(&g1, &g2), &g3);
        let combined = sort_desc(&rest);
        proof {
            vstd::seq_lib::lemma_multiset_commutative(vals(g1@) + vals(g2@), vals(g3@));
            vstd::seq_lib::lemma_multiset_commutative(vals(g1@), vals(g2@));
            assert(vals(combined@).to_multiset() == vals(g1@).to_multiset().add(vals(g2@).to_multiset()).add(vals(g3@).to_multiset()));
            assert(vals(g0@).to_multiset().add(vals(combined@).to_multiset()) =~= vals(sorted@).to_multiset());
        }
        let n_large = g0.len();
        let lim: usize = if n_large < 10 { n_large } else { 10 };
        let large = copy_range(&g0, 0, lim);
        proof {
            crate::model::lemma_slice_sub(vals(g0@), 0, lim as int);
            assert(vals(g0@).subrange(0, lim as int) =~= vals(g0@.subrange(0, lim as int)));
        }
        let combos: u64 = 1u64 << (lim as u64);
        let mut mask: u64 = 0;
        while mask < combos
            invariant
                target@ == p.target@,
                p.wf(),
                p.n > 0,
                p.target@ > 0,
                large.len() == lim,
                lim <= 10,
                sub_multiset(vals(large@), vals(g0@)),
                vals(g0@).to_multiset().add(vals(combined@).to_multiset()) == vals(sorted@).to_multiset(),
                vals(sorted@).to_multiset() == p.values().to_multiset(),
            decreases combos - mask,
        {
            if stop_requested(stop) {
                return Search::Stopped;
            }
            let current_sum = mask_sum_big(large.as_slice(), mask);
            if !big_le(&current_sum, target) {
                mask += 1;
                continue;
            }
            let current_path = select_big(large.as_slice(), mask);
            if big_eq(&current_sum, target) {
                proof {
                    crate::model::lemma_sub_multiset_trans(vals(current_path@), vals(large@), vals(g0@));
                    assert(sub_multiset(vals(g0@), vals(sorted@)));
                }
                return Search::Found(current_path);
            }
            let remaining = big_sub(target, &current_sum);
            let mut result: Vec<BigNat> = Vec::new();
            match run_gdep(&combined, &remaining, stop, &mut result) {
                Dfs::Hit => {
                    let mut full = current_path;
                    let ghost (pc, pr) = (full@, result@);
                    full.append(&mut result);
                    proof {
                        assert(vals(full@) =~= vals(pc) + vals(pr));
                        crate::model::lemma_sub_multiset_trans(vals(pc), vals(large@), vals(g0@));
                        crate::model::lemma_sub_multiset_concat(vals(pc), vals(g0@), vals(pr), vals(combined@));
                        vstd::seq_lib::lemma_multiset_commutative(vals(g0@), vals(combined@));
                        crate::model::lemma_sum_nat_concat(vals(pc), vals(pr));
                    }
                    return Search::Found(full);
                },
                Dfs::Halt => {
                    return Search::Stopped;
                },
                Dfs::Miss => {},
            }
            mask += 1;
        }
        if stop_requested(stop) {
            return Search::Stopped;
        }
        let mut result: Vec<BigNat> = Vec::new();
        match run_gdep(&sorted, target, stop, &mut result) {
            Dfs::Hit => Search::Found(result),
            Dfs::Halt => Search::Stopped,
            Dfs::Miss => {
                proof {
                    super::lemma_perm_solvable(vals(sorted@), p.values(), p.target@);
                }
                Search::Done
            },
        }
    }

    /// The four-quadrant merge over the quarters of the numbers.  It
    /// answers for every instance whose quarters are shorter than 64.
    pub fn schroeppel_shamir_bcj(p: &Profile, stop: &AtomicBool) -> (r: Search)
        requires
            p.wf(),
            p.n - 3 * (p.n / 4) < 64,
        ensures
            r matches Search::Found(sol) ==> is_solution(p.values(), vals(sol@), p.target@),
            r is Done ==> !solvable(p.values(), p.target@),
            r is Found || r is Done || r is Stopped,
    {
        let nums = &p.numbers;
        let n = p.n;
        let q = n / 4;
        let l0 = copy_range(nums, 0, q);
        let l1 = copy_range(nums, q, 2 * q);
        let l2 = copy_range(nums, 2 * q, 3 * q);
        let l3 = copy_range(nums, 3 * q, n);
        proof {
            assert(p.values() =~= vals(l0@) + vals(l1@) + vals(l2@) + vals(l3@));
        }
        if stop_requested(stop) {
            return Search::Stopped;
        }
        crate::knapsack::schroeppel_shamir_big(l0.as_slice(), l1.as_slice(), l2.as_slice(), l3.as_slice(), &p.target, stop)
    }

    /// Reachability table over `0..=target` built item by item from the
    /// low 64-bit digit of each number.  The callers use it only for
    /// targets of at most 24 bits.
    pub fn bitset_dp(p: &Profile, stop: &AtomicBool) -> (r: Table)
        requires
            p.wf(),
            p.target@ < 0x100_0000,
        ensures
            r is Skipped <==> p.target@ == 0,
            r is Reachable ==> reach(low64(p.values()), p.target@),
            r is Unreachable ==> !reach(low64(p.values()), p.target@) && !solvable(p.values(), p.target@),
    {
        let t64 = big_low_u64(&p.target);
        if t64 == 0 {
            return Table::Skipped;
        }
        let t = t64 as usize;
        let ghost lows = low64(p.values());
        let mut table: Vec<bool> = vec![false; t + 1];
        table.set(0, true);
        proof {
            assert forall|v: int| 0 <= v <= t implies #[trigger] table@[v] == reach(lows.take(0), v as nat) by {
                assert(lows.take(0).len() == 0);
            }
        }
        let mut i: usize = 0;
        while i < p.numbers.len()
            invariant
                i <= p.numbers.len(),
                t as nat == p.target@,
                t as nat == t64 as nat,
                0 < t < 0x100_0000,
                lows == low64(p.values()),
                table.len() == t + 1,
                forall|v: int| 0 <= v <= t ==> #[trigger] table@[v] == reach(lows.take(i as int), v as nat),
            decreases p.numbers.len() - i,
        {
            if stop_requested(stop) {
                return Table::Stopped;
            }
            let x64 = big_low_u64(&p.numbers[i]);
            let ghost old_table = table@;
            assert(lows[i as int] == x64 as nat);
            assert(lows.take(i + 1) =~= lows.take(i as int).push(x64 as nat));
            if x64 != 0 && x64 <= t64 {
                let x = x64 as usize;
                let mut s: usize = t;
                while s >= x
                    invariant
                        x <= s + 1,
                        s <= t,
                        x > 0,
                        table.len() == t + 1,
                        forall|v: int| 0 <= v <= s ==> #[trigger] table@[v] == old_table[v],
                        forall|v: int|
                            s < v <= t ==> #[trigger] table@[v] == (old_table[v] || old_table[v - x]),
                    decreases s + 1,
                {
                    if table[s - x] {
                        table.set(s, true);
                    }
                    s -= 1;
                }
                proof {
                    assert forall|v: int| 0 <= v <= t implies #[trigger] table@[v] == reach(lows.take(i + 1), v as nat) by {
                        lemma_reach_push(lows.take(i as int), x as nat, v as nat);
                        assert(old_table[v] == reach(lows.take(i as int), v as nat));
                        if v >= x {
                            assert(old_table[v - x] == reach(lows.take(i as int), (v - x) as nat));
                        }
                    }
                }
            } else {
                proof {
                    assert forall|v: int| 0 <= v <= t implies #[trigger] table@[v] == reach(lows.take(i + 1), v as nat) by {
                        lemma_reach_push(lows.take(i as int), x64 as nat, v as nat);
                        assert(old_table[v] == reach(lows.take(i as int), v as nat));
                    }
                }
            }
            i += 1;
        }
        proof {
            assert(lows.take(p.numbers.len() as int) =~= lows);
            assert(table@[t as int] == reach(lows, p.target@));
        }
        if table[t] {
            Table::Reachable
        } else {
            proof {
                if solvable(p.values(), p.target@) {
                    lemma_reach_iff_solvable(p.values(), p.target@);
                    lemma_reach_low64(p.values(), p.target@);
                }
            }
            Table::Unreachable
        }
    }

    /// Forward greedy (largest first), then backward greedy (dropping the
    /// smallest first), then a goal-driven search for the gap left by the
    /// forward pass among the numbers whose value it did not use.
    pub fn dual_collapse(p: &Profile, stop: &AtomicBool) -> (r: Search)
        requires
            p.wf(),
        ensures
            r matches Search::Found(sol) ==> is_solution(p.values(), vals(sol@), p.target@),
            !(r is Impossible),
    {
        let target = &p.target;
        let nums = &p.numbers;
        let mut forward_path: Vec<BigNat> = Vec::new();
        let mut forward_sum = BigNat::zero();
        let mut backward_path = copy_range(nums, 0, nums.len());
        let mut backward_sum = super::sum_big(nums);
        proof {
            assert(nums@.subrange(0, nums.len() as int) =~= nums@);
            crate::model::lemma_sub_multiset_refl(vals(nums@));
        }
        let sorted = sort_desc(nums);
        let mut i: usize = 0;
        proof {
            assert(vals(forward_path@) =~= Seq::<nat>::empty());
            crate::model::lemma_sub_multiset_empty(vals(sorted@.take(0)));
        }
        while i < sorted.len()
            invariant
                i <= sorted.len(),
                target@ == p.target@,
                vals(sorted@).to_multiset() == p.values().to_multiset(),
                sub_multiset(vals(forward_path@), vals(sorted@.take(i as int))),
                sum_nat(vals(forward_path@)) == forward_sum@,
                forward_sum@ <= target@,
            decreases sorted.len() - i,
        {
            if stop_requested(stop) {
                return Search::Stopped;
            }
            let x = &sorted[i];
            let new_sum = big_add(&forward_sum, x);
            let ghost old_fp = forward_path@;
            proof {
                assert(vals(sorted@.take(i + 1)) =~= vals(sorted@.take(i as int)).push(x@));
                crate::model::lemma_sub_multiset_push(vals(old_fp), vals(sorted@.take(i as int)), x@);
            }
            if big_le(&new_sum, target) {
                forward_sum = new_sum;
                forward_path.push(x.copy());
                proof {
                    assert(vals(forward_path@) =~= vals(old_fp).push(x@));
                    crate::model::lemma_sum_nat_push(vals(old_fp), x@);
                }
            }
            if big_eq(&forward_sum, target) {
                proof {
                    assert(sorted@.take(i + 1) =~= sorted@.take(i + 1));
                    crate::model::lemma_slice_sub(vals(sorted@), 0, i + 1);
                    assert(vals(sorted@).subrange(0, i + 1) =~= vals(sorted@.take(i + 1)));
                    crate::model::lemma_sub_multiset_trans(vals(forward_path@), vals(sorted@.take(i + 1)), vals(sorted@));
                    super::lemma_perm_found(p, sorted@, forward_path@);
                }
                return Search::Found(forward_path);
            }
            i += 1;
        }
        proof {
            assert(sorted@.take(sorted.len() as int) =~= sorted@);
        }
        let sorted_rev = sort_asc(&sorted);
        let mut j: usize = 0;
        proof {
            assert(sorted_rev@.subrange(0, sorted_rev.len() as int) =~= sorted_rev@);
            crate::model::lemma_perm_sum(vals(sorted_rev@), vals(nums@));
        }
        while j < sorted_rev.len()
            invariant
                j <= sorted_rev.len(),
                target@ == p.target@,
                nums@ == p.numbers@,
                sub_multiset(vals(backward_path@), vals(nums@)),
                backward_sum@ >= sum_nat(vals(sorted_rev@.subrange(j as int, sorted_rev.len() as int))),
            decreases sorted_rev.len() - j,
        {
            if stop_requested(stop) {
                return Search::Stopped;
            }
            let x = &sorted_rev[j];
            proof {
                let tail = vals(sorted_rev@.subrange(j as int, sorted_rev.len() as int));
                crate::model::lemma_sum_nat_first(tail);
                assert(tail.drop_first() =~= vals(sorted_rev@.subrange(j + 1, sorted_rev.len() as int)));
            }
            let remaining = big_sub(&backward_sum, x);
            if big_le(target, &remaining) {
                backward_sum = remaining;
                let mut kept: Vec<BigNat> = Vec::new();
                let mut k: usize = 0;
                proof {
                    assert(vals(kept@) =~= Seq::<nat>::empty());
                    crate::model::lemma_sub_multiset_empty(vals(backward_path@.take(0)));
                }
                while k < backward_path.len()
                    invariant
                        k <= backward_path.len(),
                        sub_multiset(vals(kept@), vals(backward_path@.take(k as int))),
                    decreases backward_path.len() - k,
                {
                    let ghost before = kept@;
                    let e = &backward_path[k];
                    proof {
                        assert(vals(backward_path@.take(k + 1)) =~= vals(backward_path@.take(k as int)).push(e@));
                        crate::model::lemma_sub_multiset_push(vals(before), vals(backward_path@.take(k as int)), e@);
                    }
                    if !big_eq(e, x) {
                        kept.push(e.copy());
                        proof {
                            assert(vals(kept@) =~= vals(before).push(e@));
                        }
                    }
                    k += 1;
                }
                proof {
                    assert(backward_path@.take(backward_path.len() as int) =~= backward_path@);
                    crate::model::lemma_sub_multiset_trans(vals(kept@), vals(backward_path@), vals(nums@));
                }
                backward_path = kept;
            }
            if big_eq(&backward_sum, target) {
                let actual = super::sum_big(&backward_path);
                if big_eq(&actual, target) {
                    return Search::Found(backward_path);
                }
            }
            j += 1;
        }
        let diff = big_sub(target, &forward_sum);
        proof {
            assert(sorted@.take(sorted.len() as int) =~= sorted@);
        }
        if big_eq(&diff, &BigNat::zero()) {
            return Search::Found(forward_path);
        }
        let mut rest: Vec<BigNat> = Vec::new();
        let mut q: usize = 0;
        proof {
            assert(vals(rest@) =~= Seq::<nat>::empty());
            crate::model::lemma_sub_multiset_empty(vals(nums@.take(0)));
        }
        while q < nums.len()
            invariant
                q <= nums.len(),
                sub_multiset(vals(rest@), vals(nums@.take(q as int))),
                forall|k: int| 0 <= k < rest.len() ==> !vals(forward_path@).contains(#[trigger] vals(rest@)[k]),
            decreases nums.len() - q,
        {
            let x = &nums[q];
            let mut used = false;
            let mut t: usize = 0;
            while t < forward_path.len()
                invariant
                    t <= forward_path.len(),
                    !used ==> forall|k: int| 0 <= k < t ==> vals(forward_path@)[k] != x@,
                decreases forward_path.len() - t,
            {
                if big_eq(&forward_path[t], x) {
                    used = true;
                }
                t += 1;
            }
            let ghost before = rest@;
            proof {
                assert(vals(nums@.take(q + 1)) =~= vals(nums@.take(q as int)).push(x@));
                crate::model::lemma_sub_multiset_push(vals(before), vals(nums@.take(q as int)), x@);
            }
            if !used {
                rest.push(x.copy());
                proof {
                    assert(vals(rest@) =~= vals(before).push(x@));
                    assert forall|k: int| 0 <= k < rest.len() implies !vals(forward_path@).contains(#[trigger] vals(rest@)[k]) by {
                        if k < before.len() {
                            assert(vals(rest@)[k] == vals(before)[k]);
                        }
                    }
                }
            }
            q += 1;
        }
        proof {
            assert(nums@.take(nums.len() as int) =~= nums@);
            crate::model::lemma_perm_sum(vals(sorted@), vals(nums@));
        }
        if rest.len() == 0 {
            return Search::Done;
        }
        let rest_sorted = sort_desc(&rest);
        let mut result: Vec<BigNat> = Vec::new();
        match run_gdep(&rest_sorted, &diff, stop, &mut result) {
            Dfs::Hit => {
                let mut full = forward_path;
                let ghost (pf, pr) = (full@, result@);
                full.append(&mut result);
                proof {
                    assert(vals(full@) =~= vals(pf) + vals(pr));
                    crate::model::lemma_sub_multiset_trans(vals(pr), vals(rest_sorted@), vals(rest@));
                    crate::model::lemma_sub_multiset_trans(vals(pr), vals(rest@), vals(nums@));
                    crate::model::lemma_sub_multiset_trans(vals(pf), vals(sorted@), vals(nums@));
                    assert forall|k: int| 0 <= k < vals(pr).len() implies !vals(pf).contains(#[trigger] vals(pr)[k]) by {
                        let v = vals(pr)[k];
                        assert(vals(pr).to_multiset().count(v) > 0);
                        assert(vals(rest@).to_multiset().count(v) > 0);
                        assert(vals(rest@).contains(v));
                        let kk = choose|kk: int| 0 <= kk < vals(rest@).len() && vals(rest@)[kk] == v;
                    }
                    crate::model::lemma_disjoint_union(vals(pf), vals(pr), vals(nums@));
                    crate::model::lemma_sum_nat_concat(vals(pf), vals(pr));
                }
                Search::Found(full)
            },
            Dfs::Halt => Search::Stopped,
            Dfs::Miss => Search::Done,
        }
    }

    /// The whole plan: the two-digit filter (no subset ends in the target's
    /// last two digits: impossible), the primary strategy, the
    /// forward/backward bridge, and for targets of at most 24 bits the
    /// reachability table.
    pub fn run_phases(p: &Profile, stop: &AtomicBool) -> (r: Search)
        requires
            p.wf(),
        ensures
            sound(p, &r),
            p.n <= 5 ==> !(r is Done),
            r is StopAll ==> reach(low64(p.values()), p.target@),
            r is Done && exhaustive_plan(
                strategy_for(
                    p.n as nat,
                    crate::bignat::bit_len(p.target@),
                    p.sat_encoded,
                    p.total_sum@ <= u128::MAX && p.target@ <= u128::MAX,
                ),
            ) ==> !solvable(p.values(), p.target@),
            r is Done && 6 <= p.n <= 25 && sum_nat(p.values().subrange((p.n / 2) as int, p.n as int)) <= p.target@
                ==> !solvable(p.values(), p.target@),
            r is Done && 6 <= p.n <= 25 ==> half_scan_overshoots(p.values(), p.target@) || !solvable(p.values(), p.target@),
            r is Done && 26 <= p.n <= 50 && p.target@ > 0 ==> !solvable(p.values(), p.target@),
    {
        if stop_requested(stop) {
            return Search::Stopped;
        }
        let strategy = Self::choose_strategy(p);
        if !DigitFilterEngine::last_2_digits_reachable(&p.numbers, &p.target) {
            return Search::Impossible;
        }
        if stop_requested(stop) {
            return Search::Stopped;
        }
        let bits = crate::bignat::big_bits(&p.target);
        proof {
            crate::bignat::lemma_bit_len_bound(p.target@, bits as nat);
        }
        match strategy {
            Strategy::BruteForce => {
                match Self::brute_force(p, stop) {
                    Search::Done => {},
                    r => {
                        return r;
                    },
                }
            },
            Strategy::MeetInMiddle => {
                match Self::meet_in_middle(p, stop) {
                    Mitm::Found(sol) => {
                        return Search::Found(sol);
                    },
                    Mitm::Overflow => {
                        return Search::Done;
                    },
                    Mitm::Stopped => {
                        return Search::Stopped;
                    },
                    Mitm::Exhausted => {},
                }
            },
            Strategy::BitsetDynamicProgramming => {
                match Self::bitset_dp(p, stop) {
                    Table::Reachable => {
                        return Search::StopAll;
                    },
                    Table::Unreachable => {
                        return Search::Impossible;
                    },
                    Table::Stopped => {
                        return Search::Stopped;
                    },
                    Table::Skipped => {},
                }
            },
            Strategy::SchroeppelShamirBcj => {
                match Self::schroeppel_shamir_bcj(p, stop) {
                    Search::Found(sol) => {
                        return Search::Found(sol);
                    },
                    Search::Stopped => {
                        return Search::Stopped;
                    },
                    _ => {},
                }
            },
            _ => {
                match Self::md_mitm_hierarchy(p, stop) {
                    Search::Found(sol) => {
                        return Search::Found(sol);
                    },
                    Search::Impossible => {
                        return Search::Impossible;
                    },
                    Search::Stopped => {
                        return Search::Stopped;
                    },
                    _ => {},
                }
            },
        }
        if stop_requested(stop) {
            return Search::Stopped;
        }
        match Self::dual_collapse(p, stop) {
            Search::Found(sol) => {
                return Search::Found(sol);
            },
            _ => {},
        }
        if stop_requested(stop) {
            return Search::Stopped;
        }
        if bits <= 24 {
            match Self::bitset_dp(p, stop) {
                Table::Reachable => {
                    return Search::StopAll;
                },
                Table::Unreachable => {
                    return Search::Impossible;
                },
                Table::Stopped => {
                    return Search::Stopped;
                },
                Table::Skipped => {},
            }
        }
        Search::Done
    }

    /// Runs the plan on instances of at most fifty numbers; larger ones are
    /// left to the other engines.
    pub fn run(&self, p: &Profile, stop: &AtomicBool) -> (r: Search)
        requires
            p.wf(),
        ensures
            sound(p, &r),
            p.n > 50 ==> r is Done,
            p.n <= 5 ==> !(r is Done),
            r is StopAll ==> reach(low64(p.values()), p.target@),
            r is Done && p.n <= 50 && exhaustive_plan(
                strategy_for(
                    p.n as nat,
                    crate::bignat::bit_len(p.target@),
                    p.sat_encoded,
                    p.total_sum@ <= u128::MAX && p.target@ <= u128::MAX,
                ),
            ) ==> !solvable(p.values(), p.target@),
            r is Done && 6 <= p.n <= 25 && sum_nat(p.values().subrange((p.n / 2) as int, p.n as int)) <= p.target@
                ==> !solvable(p.values(), p.target@),
            r is Done && 6 <= p.n <= 25 ==> half_scan_overshoots(p.values(), p.target@) || !solvable(p.values(), p.target@),
            r is Done && 26 <= p.n <= 50 && p.target@ > 0 ==> !solvable(p.values(), p.target@),
    {
        if p.n > 50 {
            return Search::Done;
        }
        Self::run_phases(p, stop)
    }

    /// Meet in the middle: all sums of the left half, looked up for each
    /// subset of the right half.
    pub fn meet_in_middle(p: &Profile, stop: &AtomicBool) -> (r: Mitm)
        requires
            p.wf(),
            p.n <= 25,
        ensures
            r matches Mitm::Found(sol) ==> is_solution(p.values(), vals(sol@), p.target@),
            r is Exhausted ==> !solvable(p.values(), p.target@),
            r is Overflow ==> sum_nat(p.values().subrange((p.n / 2) as int, p.n as int)) > p.target@,
            r is Overflow ==> half_scan_overshoots(p.values(), p.target@),
    {
        let n = p.n;
        let target = &p.target;
        let mid = n / 2;
        let left = copy_range(&p.numbers, 0, mid);
        let right = copy_range(&p.numbers, mid, n);
        proof {
            assert(p.numbers@.subrange(0, n as int) =~= p.numbers@);
            assert(vals(p.numbers@) =~= vals(left@) + vals(right@));
        }
        if stop_requested(stop) {
            return Mitm::Stopped;
        }
        let left_sums = build_sums_big(left.as_slice(), target);
        let right_n = n - mid;
        let total: u64 = 1u64 << (right_n as u64);
        let mut mask: u64 = 0;
        while mask < total
            invariant
                target@ == p.target@,
                right.len() == right_n,
                right_n == n - mid,
                right_n <= 25,
                vals(p.numbers@) == vals(left@) + vals(right@),
                p.values() == vals(left@) + vals(right@),
                left.len() == mid,
                mid == n / 2,
                n == p.n,
                left.len() < 64,
                forall|i: int|
                    0 <= i < left_sums.len() ==> fits(#[trigger] left_sums@[i].1, left@.len()) && left_sums@[i].0@ == nat_mask_sum(
                        vals(left@),
                        left_sums@[i].1,
                    ),
                forall|i: int, j: int| 0 <= i < j < left_sums.len() ==> left_sums@[i].0@ <= left_sums@[j].0@,
                forall|m: u64|
                    fits(m, left@.len()) && #[trigger] nat_mask_sum(vals(left@), m) <= target@ ==> exists|i: int|
                        0 <= i < left_sums.len() && #[trigger] left_sums@[i].1 == m,
                total == 1u64 << (right_n as u64),
                mask <= total,
                forall|m: u64| #![trigger nat_mask_sum(vals(right@), m)] m < mask ==> no_meeting(vals(left@), vals(right@), m, target@),
            decreases total - mask,
        {
            if stop_requested(stop) {
                return Mitm::Stopped;
            }
            let sum = mask_sum_big(right.as_slice(), mask);
            if big_eq(&sum, target) {
                let sol = select_big(right.as_slice(), mask);
                proof {
                    crate::model::lemma_sub_multiset_empty(vals(left@));
                    crate::model::lemma_sub_multiset_concat(Seq::<nat>::empty(), vals(left@), vals(sol@), vals(right@));
                    assert(Seq::<nat>::empty() + vals(sol@) =~= vals(sol@));
                }
                return Mitm::Found(sol);
            }
            if !big_le(&sum, target) {
                proof {
                    crate::masks::lemma_picked_sub(vals(right@), mask);
                    crate::model::lemma_sub_multiset_sum_le(crate::masks::picked(vals(right@), mask), vals(right@));
                    assert(vals(left@).len() == mid && vals(right@).len() == n - mid);
                    assert(vals(right@) =~= (vals(left@) + vals(right@)).subrange(mid as int, n as int));
                    assert(vals(left@) =~= (vals(left@) + vals(right@)).subrange(0, mid as int));
                    crate::masks::lemma_fits_lt(mask, right_n as u64);
                    assert(fits(mask, vals(right@).len()) && nat_mask_sum(vals(right@), mask) > target@);
                    assert forall|k: u64| k < mask implies #[trigger] no_meeting(vals(left@), vals(right@), k, target@) by {
                        assert(nat_mask_sum(vals(right@), k) < target@);
                    }
                    let vs = p.values();
                    assert(vs.len() / 2 == mid);
                    assert(vs.subrange(0, mid as int) == vals(left@));
                    assert(vs.subrange(mid as int, vs.len() as int) == vals(right@));
                    assert(half_scan_overshoots(p.values(), p.target@));
                }
                return Mitm::Overflow;
            }
            let remaining = big_sub(target, &sum);
            match find_sum(&left_sums, &remaining) {
                Some(i) => {
                    let lm = left_sums[i].1;
                    let mut full = select_big(left.as_slice(), lm);
                    let mut rs = select_big(right.as_slice(), mask);
                    let ghost (pl, pr) = (full@, rs@);
                    full.append(&mut rs);
                    proof {
                        assert(vals(full@) =~= vals(pl) + vals(pr));
                        crate::model::lemma_sub_multiset_concat(vals(pl), vals(left@), vals(pr), vals(right@));
                        crate::model::lemma_sum_nat_concat(vals(pl), vals(pr));
                    }
                    return Mitm::Found(full);
                },
                None => {
                    proof {
                        assert forall|ml: u64| fits(ml, left@.len()) implies nat_mask_sum(vals(left@), ml)
                            != remaining@ by {
                            if nat_mask_sum(vals(left@), ml) == remaining@ {
                                let i = choose|i: int| 0 <= i < left_sums.len() && #[trigger] left_sums@[i].1 == ml;
                                assert(left_sums@[i].0@ == remaining@);
                            }
                        }
                        assert(no_meeting(vals(left@), vals(right@), mask, target@));
                    }
                },
            }
            mask += 1;
        }
        proof {
            if solvable(p.values(), p.target@) {
                super::quadrants::lemma_solvable_split(vals(left@), vals(right@), p.target@);
                let t1 = choose|t1: nat| t1 <= p.target@ && #[trigger] reach(vals(left@), t1) && reach(vals(right@), (p.target@ - t1) as nat);
                let t2 = (p.target@ - t1) as nat;
                crate::model::lemma_reach_iff_solvable(vals(left@), t1);
                crate::model::lemma_reach_iff_solvable(vals(right@), t2);
                crate::masks::lemma_solvable_has_mask_nat(vals(left@), t1);
                crate::masks::lemma_solvable_has_mask_nat(vals(right@), t2);
                let ml = choose|m: u64| fits(m, vals(left@).len()) && #[trigger] nat_mask_sum(vals(left@), m) == t1;
                let mr = choose|m: u64| fits(m, vals(right@).len()) && #[trigger] nat_mask_sum(vals(right@), m) == t2;
                crate::masks::lemma_fits_lt(mr, right_n as u64);
                assert(no_meeting(vals(left@), vals(right@), mr, target@));
                assert(false);
            }
        }
        Mitm::Exhausted
    }
}

} // verus!
