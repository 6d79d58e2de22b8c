//! Estimation from the mean: about `target / mean` numbers are taken, from
//! three starting orders, then adjusted by dropping the number closest to
//! the excess or adding the unused number closest to the shortfall.
use vstd::prelude::*;
use std::sync::atomic::AtomicBool;
use crate::model::is_solution;
use crate::bignat::{BigNat, vals, big_add, big_sub, big_le, big_eq, big_div, big_from_u128, big_rem, big_to_u128};
use crate::profile::Profile;
use crate::stop::stop_requested;
use crate::flags::{flag_sum, flagged, select_flags, lemma_flag_sum_set, lemma_flagged_none};
use crate::sort::{sort_positions, positions, lemma_positions_distinct, stable_order};
use super::Search;

verus! {

/// The flags of the positions `0..n` that `chosen` lists.
pub open spec fn chosen_flags(n: nat, chosen: Seq<usize>) -> Seq<bool> {
    Seq::new(n, |i: int| chosen.contains(i as usize))
}

/// The engine.
pub struct EstimateEngine;

/// `|a - b|`.
pub fn absdiff_big(a: &BigNat, b: &BigNat) -> (r: BigNat)
    ensures
        r@ == if a@ >= b@ { a@ - b@ } else { b@ - a@ },
{
    if big_le(b, a) {
        big_sub(a, b)
    } else {
        big_sub(b, a)
    }
}

/// Clearing a set flag takes its value off the sum.
proof fn lemma_flag_sum_unset(s: Seq<nat>, f: Seq<bool>, i: int)
    requires
        0 <= i < s.len(),
        i < f.len(),
        f[i],
    ensures
        flag_sum(s, f.update(i, false)) + s[i] == flag_sum(s, f),
{
    let g = f.update(i, false);
    lemma_flag_sum_set(s, g, i);
    assert(g.update(i, true) =~= f);
}

/// `chosen` holds distinct positions, exactly those flagged in `inside`,
/// and `total` is their sum.
pub open spec fn selection_ok(p: &Profile, chosen: Seq<usize>, inside: Seq<bool>, total: nat) -> bool {
    &&& chosen.no_duplicates()
    &&& inside.len() == p.numbers.len()
    &&& forall|k: int| 0 <= k < chosen.len() ==> (#[trigger] chosen[k]) < p.numbers.len()
    &&& forall|i: int| 0 <= i < inside.len() ==> (#[trigger] inside[i] <==> chosen.contains(i as usize))
    &&& total == flag_sum(p.values(), inside)
}

/// The distance of each value from `c`.
pub open spec fn dist_keys(vs: Seq<nat>, c: nat) -> Seq<nat> {
    Seq::new(vs.len(), |i: int| if vs[i] >= c { (vs[i] - c) as nat } else { (c - vs[i]) as nat })
}

/// The keys the starting order `seed` sorts by: the values (largest
/// first) for `seed == 0`; else the distance from the mean for
/// `seed == 1`, or from `target / k`.
pub open spec fn pick_keys(p: &Profile, k: nat, seed: u32) -> Seq<nat> {
    let n = p.numbers.len();
    if seed == 0 {
        p.values()
    } else if seed == 1 {
        dist_keys(p.values(), p.total_sum@ / (if n == 0 { 1 } else { n as nat }))
    } else {
        dist_keys(p.values(), if k > 0 { p.target@ / k } else { 0 })
    }
}

/// The starting selection for `k` numbers and starting order `seed`: the
/// first `k` positions of [`pick_keys`] order (ties by position).
pub open spec fn initial_pick(p: &Profile, k: nat, seed: u32) -> Seq<usize> {
    stable_order(pick_keys(p, k, seed), seed == 0).take(k as int)
}

/// The first `k` positions of an ordering of all positions: by value,
/// largest first (`seed == 0`); closest to the mean (`seed == 1`);
/// closest to `target / k` (otherwise); equal keys by position.
pub fn pick_initial(p: &Profile, k: usize, seed: u32) -> (r: Vec<usize>)
    requires
        p.wf(),
        k <= p.numbers.len(),
    ensures
        r.len() == k,
        r@.no_duplicates(),
        forall|q: int| 0 <= q < r.len() ==> (#[trigger] r@[q]) < p.numbers.len(),
        r@ == initial_pick(p, k as nat, seed),
{
    let n = p.numbers.len();
    let order: Vec<usize> = if seed == 0 {
        let o = sort_positions(&p.numbers, true);
        proof {
            assert(vals(p.numbers@) == pick_keys(p, k as nat, seed));
        }
        o
    } else {
        let centre = if seed == 1 {
            let count = big_from_u128(if n == 0 { 1 } else { n as u128 });
            big_div(&p.total_sum, &count)
        } else if k > 0 {
            let kk = big_from_u128(k as u128);
            big_div(&p.target, &kk)
        } else {
            BigNat::zero()
        };
        if seed != 1 && k == 0 {
            let mut ident: Vec<usize> = Vec::new();
            let mut i: usize = 0;
            while i < n
                invariant
                    i <= n,
                    ident@ == positions(i as nat),
                decreases n - i,
            {
                ident.push(i);
                proof {
                    assert(ident@ =~= positions((i + 1) as nat));
                }
                i += 1;
            }
            ident
        } else {
            let mut keys: Vec<BigNat> = Vec::new();
            let mut i: usize = 0;
            while i < n
                invariant
                    i <= n,
                    n == p.numbers.len(),
                    keys.len() == i,
                    forall|x: int| 0 <= x < i ==> #[trigger] keys@[x]@ == dist_keys(p.values(), centre@)[x],
                decreases n - i,
            {
                keys.push(absdiff_big(&p.numbers[i], &centre));
                proof {
                    assert(p.values()[i as int] == p.numbers@[i as int]@);
                }
                i += 1;
            }
            proof {
                assert(vals(keys@) =~= dist_keys(p.values(), centre@));
                assert(centre@ == (if seed == 1 {
                    p.total_sum@ / (if n == 0 { 1 } else { n as nat })
                } else if k > 0 {
                    p.target@ / (k as nat)
                } else {
                    0
                }));
                assert(vals(keys@) == pick_keys(p, k as nat, seed));
            }
            sort_positions(&keys, false)
        }
    };
    proof {
        broadcast use vstd::seq_lib::group_to_multiset_ensures;
        if seed != 0 && seed != 1 && k == 0 {
        } else {
            assert(order@.to_multiset().len() == order@.len());
            assert(positions(n as nat).to_multiset().len() == positions(n as nat).len());
        }
        lemma_positions_distinct(order@, n as nat);
        assert forall|q: int| 0 <= q < order.len() implies (#[trigger] order@[q]) < n by {
            assert(order@.to_multiset().count(order@[q]) > 0);
            assert(positions(n as nat).to_multiset().count(order@[q]) > 0);
            assert(positions(n as nat).contains(order@[q]));
        }
    }
    let mut r: Vec<usize> = Vec::new();
    let mut q: usize = 0;
    while q < k
        invariant
            q <= k,
            k <= n,
            order.len() == n,
            order@.no_duplicates(),
            forall|x: int| 0 <= x < order.len() ==> (#[trigger] order@[x]) < n,
            r@ == order@.take(q as int),
        decreases k - q,
    {
        r.push(order[q]);
        proof {
            assert(order@.take(q + 1) =~= order@.take(q as int).push(order@[q as int]));
        }
        q += 1;
    }
    proof {
        assert forall|a: int, b: int| 0 <= a < r.len() && 0 <= b < r.len() && a != b implies r@[a] != r@[b] by {
            assert(r@[a] == order@[a] && r@[b] == order@[b]);
        }
        assert(order@.take(k as int) =~= r@);
        if seed != 0 && seed != 1 && k == 0 {
            assert(r@ =~= initial_pick(p, k as nat, seed));
        }
    }
    r
}

/// `|a - b|`.
pub open spec fn absd(a: nat, b: nat) -> nat {
    if a >= b { (a - b) as nat } else { (b - a) as nat }
}

/// The total of the values at the positions `c` lists.
pub open spec fn sel_sum(vs: Seq<nat>, c: Seq<usize>) -> nat {
    flag_sum(vs, chosen_flags(vs.len(), c))
}

/// Among the first `x` entries of `c` (at least one), the first whose
/// value is closest to `d`.
pub open spec fn closest_out(vs: Seq<nat>, c: Seq<usize>, d: nat, x: nat) -> nat
    decreases x,
{
    if x <= 1 {
        0
    } else {
        let b = closest_out(vs, c, d, (x - 1) as nat);
        if absd(vs[c[x - 1] as int], d) < absd(vs[c[b as int] as int], d) {
            (x - 1) as nat
        } else {
            b
        }
    }
}

/// Among the positions below `i` that `c` does not list and whose value is
/// at most `need`, the first whose value is closest to `need`.
pub open spec fn closest_in(vs: Seq<nat>, c: Seq<usize>, need: nat, i: nat) -> Option<nat>
    decreases i,
{
    if i == 0 {
        None
    } else {
        let b = closest_in(vs, c, need, (i - 1) as nat);
        let j = (i - 1) as nat;
        if !c.contains(j as usize) && vs[j as int] <= need {
            match b {
                None => Some(j),
                Some(bb) => if absd(vs[j as int], need) < absd(vs[bb as int], need) {
                    Some(j)
                } else {
                    b
                },
            }
        } else {
            b
        }
    }
}

/// One adjustment step of the selection `c`: kept when it hits `t`;
/// above `t`, the chosen number closest to the excess leaves; below, the
/// unused number (not above the shortfall) closest to it joins.  `None`
/// when nothing can leave or join.
pub open spec fn adjust_step(vs: Seq<nat>, t: nat, c: Seq<usize>) -> Option<Seq<usize>> {
    let tot = sel_sum(vs, c);
    if tot == t {
        Some(c)
    } else if tot > t {
        if c.len() == 0 {
            None
        } else {
            Some(c.remove(closest_out(vs, c, (tot - t) as nat, c.len()) as int))
        }
    } else {
        match closest_in(vs, c, (t - tot) as nat, vs.len()) {
            Some(j) => Some(c.push(j as usize)),
            None => None,
        }
    }
}

/// The selection after `r` adjustment steps from `c`.
pub open spec fn adjust_run(vs: Seq<nat>, t: nat, c: Seq<usize>, r: nat) -> Option<Seq<usize>>
    decreases r,
{
    if r == 0 {
        Some(c)
    } else {
        match adjust_run(vs, t, c, (r - 1) as nat) {
            Some(c2) => adjust_step(vs, t, c2),
            None => None,
        }
    }
}

/// The 256 adjustment steps from `c` reach a selection that sums to `t`.
pub open spec fn adjust_hits(vs: Seq<nat>, t: nat, c: Seq<usize>) -> bool {
    adjust_run(vs, t, c, 256) matches Some(f) && sel_sum(vs, f) == t
}

/// A selection that hits stays.
proof fn lemma_hit_stays(vs: Seq<nat>, t: nat, c: Seq<usize>, r: nat, r2: nat)
    requires
        r <= r2,
        adjust_run(vs, t, c, r) matches Some(f) && sel_sum(vs, f) == t,
    ensures
        adjust_run(vs, t, c, r2) == adjust_run(vs, t, c, r),
    decreases r2 - r,
{
    if r2 > r {
        lemma_hit_stays(vs, t, c, r, (r2 - 1) as nat);
    }
}

/// A run that got stuck stays stuck.
proof fn lemma_stuck_stays(vs: Seq<nat>, t: nat, c: Seq<usize>, r: nat, r2: nat)
    requires
        r <= r2,
        adjust_run(vs, t, c, r) is None,
    ensures
        adjust_run(vs, t, c, r2) is None,
    decreases r2 - r,
{
    if r2 > r {
        lemma_stuck_stays(vs, t, c, r, (r2 - 1) as nat);
    }
}

/// How an adjustment ended.
pub enum Adjusted {
    Hit(Vec<BigNat>),
    Miss,
    Halt,
}

/// The starting count: `target / (total / n)`, its low 32 bits.
pub open spec fn est_count(p: &Profile) -> int {
    ((p.target@ / (p.total_sum@ / (p.numbers.len() as nat))) % 0x1_0000_0000) as int
}

/// With `k` numbers (when `1 <= k <= n`) and starting order `seed`, the
/// adjusted selection does not hit the target.
pub open spec fn trial_dead(p: &Profile, k: int, seed: u32) -> bool {
    1 <= k <= p.numbers.len() ==> !adjust_hits(p.values(), p.target@, initial_pick(p, k as nat, seed))
}

impl EstimateEngine {
    pub fn name(&self) -> (r: &'static str)
        ensures
            r@ == "Estimate"@,
    {
        "Estimate"
    }

    /// Counts `k` around `target / mean` (0, +d, -d for d up to 3), each
    /// from the three starting orders, adjusted towards the target.
    pub fn run(&self, p: &Profile, stop: &AtomicBool) -> (r: Search)
        requires
            p.wf(),
        ensures
            r matches Search::Found(sol) ==> is_solution(p.values(), vals(sol@), p.target@),
            r is Found || r is Done || r is Stopped,
            p.n == 0 ==> r is Done,
            r is Done && p.n > 0 && p.total_sum@ / (p.numbers.len() as nat) > 0 ==> forall|k: int, seed: u32|
                est_count(p) - 3 <= k <= est_count(p) + 3 && seed < 3 ==> #[trigger] trial_dead(p, k, seed),
    {
        let n = p.numbers.len();
        if n == 0 {
            return Search::Done;
        }
        let count = big_from_u128(n as u128);
        let mean = big_div(&p.total_sum, &count);
        if big_eq(&mean, &BigNat::zero()) {
            return Search::Done;
        }
        let quotient = big_div(&p.target, &mean);
        let two32 = big_from_u128(0x1_0000_0000);
        let low = big_rem(&quotient, &two32);
        let k_estimate: i64 = match big_to_u128(&low) {
            Some(v) => v as i64,
            None => 0,
        };
        proof {
            assert(k_estimate == est_count(p));
        }
        let mut delta: i64 = 0;
        while delta <= 3
            invariant
                p.wf(),
                n == p.numbers.len(),
                n > 0,
                0 <= delta <= 4,
                k_estimate == est_count(p),
                0 <= k_estimate < 0x1_0000_0000,
                forall|k: int, seed: u32|
                    est_count(p) - delta < k < est_count(p) + delta && seed < 3 ==> #[trigger] trial_dead(p, k, seed),
            decreases 4 - delta,
        {
            let mut s: usize = 0;
            while s < 3
                invariant
                    p.wf(),
                    n == p.numbers.len(),
                    n > 0,
                    0 <= delta <= 3,
                    k_estimate == est_count(p),
                    0 <= k_estimate < 0x1_0000_0000,
                    s <= 3,
                    forall|k: int, seed: u32|
                        est_count(p) - delta < k < est_count(p) + delta && seed < 3 ==> #[trigger] trial_dead(p, k, seed),
                    forall|k: int, seed: u32|
                        seed < 3 && ((s > 0 && k == est_count(p)) || (s > 1 && k == est_count(p) + delta) || (s > 2 && k
                            == est_count(p) - delta)) ==> #[trigger] trial_dead(p, k, seed),
                decreases 3 - s,
            {
                if stop_requested(stop) {
                    return Search::Stopped;
                }
                let sign: i64 = if s == 0 { 0 } else if s == 1 { 1 } else { -1 };
                let k_signed = k_estimate + sign * delta;
                if k_signed >= 1 && (k_signed as u128) <= (n as u128) {
                    let k = k_signed as usize;
                    let mut seed: u32 = 0;
                    while seed < 3
                        invariant
                            p.wf(),
                            n == p.numbers.len(),
                            n > 0,
                            k <= n,
                            k as int == k_signed,
                            seed <= 3,
                            forall|sd: u32| sd < seed ==> #[trigger] trial_dead(p, k_signed as int, sd),
                        decreases 3 - seed,
                    {
                        if stop_requested(stop) {
                            return Search::Stopped;
                        }
                        let chosen = pick_initial(p, k, seed);
                        match self.adjust(p, chosen, stop) {
                            Adjusted::Hit(sol) => {
                                return Search::Found(sol);
                            },
                            Adjusted::Miss => {},
                            Adjusted::Halt => {
                                return Search::Stopped;
                            },
                        }
                        seed += 1;
                    }
                    proof {
                        assert forall|sd: u32| sd < 3 implies #[trigger] trial_dead(p, k_signed as int, sd) by {}
                    }
                } else {
                    proof {
                        assert forall|sd: u32| sd < 3 implies #[trigger] trial_dead(p, k_signed as int, sd) by {}
                    }
                }
                proof {
                    if s == 0 {
                        assert(k_signed == est_count(p));
                    } else if s == 1 {
                        assert(k_signed == est_count(p) + delta);
                    } else {
                        assert(k_signed == est_count(p) - delta);
                    }
                }
                s += 1;
            }
            proof {
                assert forall|k: int, seed: u32|
                    est_count(p) - (delta + 1) < k < est_count(p) + (delta + 1) && seed < 3 implies #[trigger] trial_dead(
                    p,
                    k,
                    seed,
                ) by {
                    if k == est_count(p) + delta || k == est_count(p) - delta || k == est_count(p) {
                    }
                }
            }
            delta += 1;
        }
        Search::Done
    }

    /// Up to 256 steps: above the target, drop the chosen number closest
    /// to the excess (first in the chosen order); below it, add the unused
    /// number (not above the shortfall) closest to the shortfall (lowest
    /// position first).
    pub fn adjust(&self, p: &Profile, chosen_in: Vec<usize>, stop: &AtomicBool) -> (r: Adjusted)
        requires
            p.wf(),
            chosen_in@.no_duplicates(),
            forall|q: int| 0 <= q < chosen_in.len() ==> (#[trigger] chosen_in@[q]) < p.numbers.len(),
        ensures
            r matches Adjusted::Hit(sol) ==> is_solution(p.values(), vals(sol@), p.target@) && adjust_hits(
                p.values(),
                p.target@,
                chosen_in@,
            ),
            r is Miss ==> !adjust_hits(p.values(), p.target@, chosen_in@),
            flag_sum(p.values(), chosen_flags(p.numbers.len() as nat, chosen_in@)) == p.target@ ==> (r matches Adjusted::Hit(sol)
                && vals(sol@) == flagged(p.values(), chosen_flags(p.numbers.len() as nat, chosen_in@))),
    {
        let n = p.numbers.len();
        let ghost vs = p.values();
        let ghost t = p.target@;
        let ghost start = chosen_in@;
        let mut chosen = chosen_in;
        let mut inside: Vec<bool> = vec![false; n];
        let mut total = BigNat::zero();
        proof {
            lemma_flagged_none(p.values(), inside@);
        }
        let mut q: usize = 0;
        while q < chosen.len()
            invariant
                q <= chosen.len(),
                n == p.numbers.len(),
                p.wf(),
                chosen@.no_duplicates(),
                inside.len() == n,
                forall|x: int| 0 <= x < chosen.len() ==> (#[trigger] chosen@[x]) < n,
                forall|i: int| 0 <= i < n ==> (#[trigger] inside@[i] <==> chosen@.take(q as int).contains(i as usize)),
                total@ == flag_sum(p.values(), inside@),
            decreases chosen.len() - q,
        {
            let i = chosen[q];
            proof {
                if inside@[i as int] {
                    let x = choose|x: int| 0 <= x < q && chosen@.take(q as int)[x] == i;
                    assert(chosen@[x] == chosen@[q as int]);
                }
                lemma_flag_sum_set(p.values(), inside@, i as int);
            }
            inside.set(i, true);
            total = big_add(&total, &p.numbers[i]);
            proof {
                assert forall|j: int| 0 <= j < n implies (#[trigger] inside@[j] <==> chosen@.take(q + 1).contains(j as usize)) by {
                    let t0 = chosen@.take(q as int);
                    let t1 = chosen@.take(q + 1);
                    assert(t1 =~= t0.push(i));
                    if t0.contains(j as usize) {
                        let k = choose|k: int| 0 <= k < t0.len() && t0[k] == j as usize;
                        assert(t1[k] == j as usize);
                    }
                    if j == i as int {
                        assert(t1[q as int] == i);
                    }
                    if t1.contains(j as usize) {
                        let k = choose|k: int| 0 <= k < t1.len() && t1[k] == j as usize;
                        if k < q {
                            assert(t0[k] == j as usize);
                        }
                    }
                }
            }
            q += 1;
        }
        proof {
            assert(chosen@.take(chosen.len() as int) =~= chosen@);
            assert(inside@ =~= chosen_flags(n as nat, start));
            assert(vs.len() == n);
        }
        if big_eq(&total, &p.target) {
            let sol = select_flags(&p.numbers, &inside);
            proof {
                lemma_hit_stays(vs, t, start, 0, 256);
            }
            return Adjusted::Hit(sol);
        }
        let mut round: usize = 0;
        while round < 256
            invariant
                p.wf(),
                n == p.numbers.len(),
                vs == p.values(),
                vs.len() == n,
                t == p.target@,
                round <= 256,
                selection_ok(p, chosen@, inside@, total@),
                flag_sum(p.values(), chosen_flags(n as nat, start)) != p.target@,
                start == chosen_in@,
                adjust_run(vs, t, start, round as nat) == Some(chosen@),
            decreases 256 - round,
        {
            if stop_requested(stop) {
                return Adjusted::Halt;
            }
            proof {
                assert(inside@ =~= chosen_flags(n as nat, chosen@));
                assert(total@ == sel_sum(vs, chosen@));
            }
            if big_eq(&total, &p.target) {
                let sol = select_flags(&p.numbers, &inside);
                proof {
                    lemma_hit_stays(vs, t, start, round as nat, 256);
                }
                return Adjusted::Hit(sol);
            }
            let ghost cur = chosen@;
            if big_le(&p.target, &total) {
                let diff = big_sub(&total, &p.target);
                if chosen.len() == 0 {
                    proof {
                        assert(adjust_run(vs, t, start, (round + 1) as nat) is None);
                        lemma_stuck_stays(vs, t, start, (round + 1) as nat, 256);
                    }
                    return Adjusted::Miss;
                }
                let mut best: usize = 0;
                let mut best_key = absdiff_big(&p.numbers[chosen[0]], &diff);
                proof {
                    assert(p.numbers@[chosen@[0] as int]@ == vs[chosen@[0] as int]);
                }
                let mut x: usize = 1;
                while x < chosen.len()
                    invariant
                        best < x <= chosen.len(),
                        n == p.numbers.len(),
                        vs == p.values(),
                        chosen@ == cur,
                        forall|y: int| 0 <= y < chosen.len() ==> (#[trigger] chosen@[y]) < n,
                        best as nat == closest_out(vs, cur, diff@, x as nat),
                        best_key@ == absd(vs[cur[best as int] as int], diff@),
                    decreases chosen.len() - x,
                {
                    let key = absdiff_big(&p.numbers[chosen[x]], &diff);
                    proof {
                        assert(p.numbers@[chosen@[x as int] as int]@ == vs[chosen@[x as int] as int]);
                    }
                    if !big_le(&best_key, &key) {
                        best = x;
                        best_key = key;
                    }
                    x += 1;
                }
                let ghost before = chosen@;
                let out_i = chosen.remove(best);
                proof {
                    assert(inside@[out_i as int]) by {
                        assert(before[best as int] == out_i);
                    }
                    lemma_flag_sum_unset(p.values(), inside@, out_i as int);
                }
                inside.set(out_i, false);
                total = big_sub(&total, &p.numbers[out_i]);
                proof {
                    assert(chosen@ =~= before.remove(best as int));
                    assert forall|a: int, b: int| 0 <= a < chosen.len() && 0 <= b < chosen.len() && a != b implies chosen@[a] != chosen@[b] by {
                        let a0 = if a < best { a } else { a + 1 };
                        let b0 = if b < best { b } else { b + 1 };
                        assert(chosen@[a] == before[a0] && chosen@[b] == before[b0]);
                    }
                    assert forall|k: int| 0 <= k < chosen.len() implies (#[trigger] chosen@[k]) < n by {
                        let k0 = if k < best { k } else { k + 1 };
                        assert(chosen@[k] == before[k0]);
                    }
                    assert forall|i: int| 0 <= i < n implies (#[trigger] inside@[i] <==> chosen@.contains(i as usize)) by {
                        if i == out_i as int {
                            if chosen@.contains(i as usize) {
                                let k = choose|k: int| 0 <= k < chosen.len() && chosen@[k] == i as usize;
                                let k0 = if k < best { k } else { k + 1 };
                                assert(before[k0] == before[best as int]);
                            }
                        } else {
                            if before.contains(i as usize) {
                                let k = choose|k: int| 0 <= k < before.len() && before[k] == i as usize;
                                assert(k != best as int);
                                let k1 = if k < best { k } else { k - 1 };
                                assert(chosen@[k1] == i as usize);
                            }
                            if chosen@.contains(i as usize) {
                                let k = choose|k: int| 0 <= k < chosen.len() && chosen@[k] == i as usize;
                                let k0 = if k < best { k } else { k + 1 };
                                assert(before[k0] == i as usize);
                            }
                        }
                    }
                    assert(adjust_step(vs, t, cur) == Some(chosen@));
                }
            } else {
                let need = big_sub(&p.target, &total);
                let mut cand: Option<usize> = None;
                let mut cand_key = BigNat::zero();
                let mut i: usize = 0;
                while i < n
                    invariant
                        i <= n,
                        n == p.numbers.len(),
                        vs == p.values(),
                        vs.len() == n,
                        inside.len() == n,
                        chosen@ == cur,
                        forall|j: int| 0 <= j < n ==> (#[trigger] inside@[j] <==> cur.contains(j as usize)),
                        cand matches Some(c) ==> c < n && !inside@[c as int],
                        (match cand {
                            Some(c) => closest_in(vs, cur, need@, i as nat) == Some(c as nat),
                            None => closest_in(vs, cur, need@, i as nat) is None,
                        }),
                        cand matches Some(c) ==> cand_key@ == absd(vs[c as int], need@),
                    decreases n - i,
                {
                    proof {
                        assert(p.numbers@[i as int]@ == vs[i as int]);
                    }
                    if !inside[i] && big_le(&p.numbers[i], &need) {
                        let key = absdiff_big(&p.numbers[i], &need);
                        let better = match cand {
                            None => true,
                            Some(_) => !big_le(&cand_key, &key),
                        };
                        if better {
                            cand = Some(i);
                            cand_key = key;
                        }
                    }
                    i += 1;
                }
                match cand {
                    Some(c) => {
                        let ghost before = chosen@;
                        proof {
                            lemma_flag_sum_set(p.values(), inside@, c as int);
                        }
                        inside.set(c, true);
                        total = big_add(&total, &p.numbers[c]);
                        chosen.push(c);
                        proof {
                            assert(!before.contains(c));
                            assert forall|a: int, b: int| 0 <= a < chosen.len() && 0 <= b < chosen.len() && a != b implies chosen@[a] != chosen@[b] by {
                                if a == before.len() as int {
                                    assert(chosen@[b] == before[b]);
                                } else if b == before.len() as int {
                                    assert(chosen@[a] == before[a]);
                                }
                            }
                            assert forall|j: int| 0 <= j < n implies (#[trigger] inside@[j] <==> chosen@.contains(j as usize)) by {
                                if j != c as int {
                                    if chosen@.contains(j as usize) {
                                        let k = choose|k: int| 0 <= k < chosen.len() && chosen@[k] == j as usize;
                                        assert(k < before.len());
                                        assert(before[k] == j as usize);
                                    }
                                    if before.contains(j as usize) {
                                        let k = choose|k: int| 0 <= k < before.len() && before[k] == j as usize;
                                        assert(chosen@[k] == j as usize);
                                    }
                                } else {
                                    assert(chosen@[before.len() as int] == c);
                                }
                            }
                            assert(adjust_step(vs, t, cur) == Some(chosen@));
                        }
                    },
                    None => {
                        proof {
                            assert(adjust_step(vs, t, cur) is None);
                            assert(adjust_run(vs, t, start, (round + 1) as nat) is None);
                            lemma_stuck_stays(vs, t, start, (round + 1) as nat, 256);
                        }
                        return Adjusted::Miss;
                    },
                }
            }
            round += 1;
        }
        proof {
            assert(inside@ =~= chosen_flags(n as nat, chosen@));
        }
        if big_eq(&total, &p.target) {
            let sol = select_flags(&p.numbers, &inside);
            Adjusted::Hit(sol)
        } else {
            Adjusted::Miss
        }
    }
}

} // verus!
