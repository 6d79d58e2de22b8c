//! Greedy descent to within a small gap of the target, then an exact
//! reachability table over the unused numbers closes the gap.
use vstd::prelude::*;
use std::sync::atomic::AtomicBool;
use crate::model::{is_solution, reach, lemma_reach_push};
use crate::bignat::{BigNat, vals, bit_len, big_add, big_sub, big_le, big_eq, big_bits, big_to_u128};
use crate::profile::Profile;
use crate::stop::stop_requested;
use crate::bitset::Bitset;
use crate::flags::{flag_sum, select_flags, lemma_flag_sum_set, lemma_flagged_none};
use crate::sort::{sort_positions, lemma_positions_distinct, positions, keys_ordered};
use super::Search;

verus! {

/// The flags and total after the first `q` steps of the greedy pass along
/// `ord`: the first `skip` positions are passed over, and each later
/// number is taken while the total stays at most `target`.
pub open spec fn greedy_pass(vals: Seq<nat>, ord: Seq<usize>, skip: nat, target: nat, q: nat) -> (Seq<bool>, nat)
    decreases q,
{
    if q == 0 {
        (Seq::new(vals.len(), |j: int| false), 0)
    } else {
        let prev = greedy_pass(vals, ord, skip, target, (q - 1) as nat);
        let i = ord[q - 1] as int;
        if q - 1 < skip || prev.1 + vals[i] > target {
            prev
        } else {
            (prev.0.update(i, true), prev.1 + vals[i])
        }
    }
}

/// The values among the first `i` that are not flagged and fit a `usize`,
/// in order.
pub open spec fn gap_vals(vals: Seq<nat>, chosen: Seq<bool>, i: nat) -> Seq<nat>
    decreases i,
{
    if i == 0 {
        Seq::empty()
    } else {
        let s = gap_vals(vals, chosen, (i - 1) as nat);
        if !chosen[i - 1] && vals[i - 1] <= usize::MAX {
            s.push(vals[i - 1])
        } else {
            s
        }
    }
}

/// `ord` lists every position of `keys` once, largest key first.
pub open spec fn desc_order(keys: Seq<BigNat>, ord: Seq<usize>) -> bool {
    ord.to_multiset() == positions(keys.len() as nat).to_multiset() && ord.len() == keys.len()
        && keys_ordered(keys, ord, true)
}

/// The greedy pass along `ord` with `skip` passed over misses the target,
/// and the gap it leaves has more than 24 bits or no unflagged numbers
/// that fit a `usize` fill it.
pub open spec fn bridge_dead(vals: Seq<nat>, target: nat, ord: Seq<usize>, skip: nat) -> bool {
    let g = greedy_pass(vals, ord, skip, target, vals.len());
    g.1 != target && (bit_len((target - g.1) as nat) > 24 || !reach(gap_vals(vals, g.0, vals.len()), (target - g.1) as nat))
}

/// How an attempt to close a gap ended.
pub enum Gap {
    Filled(Vec<bool>),
    Unfilled,
    Halt,
}

/// The bridge engine.
pub struct BridgeEngine;

impl BridgeEngine {
    pub fn name(&self) -> (r: &'static str)
        ensures
            r@ == "Bridge"@,
    {
        "Bridge"
    }

    /// For each of the first five skips: take numbers largest first
    /// (after skipping that many) while they fit; if the gap left has at
    /// most 24 bits, find unused numbers that fill it exactly.
    pub fn run(&self, p: &Profile, stop: &AtomicBool) -> (r: Search)
        requires
            p.wf(),
        ensures
            r matches Search::Found(sol) ==> is_solution(p.values(), vals(sol@), p.target@),
            r is Found || r is Done || r is Stopped,
            r is Done ==> exists|ord: Seq<usize>|
                #[trigger] desc_order(p.numbers@, ord) && forall|s: nat|
                    s < 5 && s < p.numbers.len() ==> #[trigger] bridge_dead(p.values(), p.target@, ord, s),
    {
        let n = p.numbers.len();
        let target = &p.target;
        let desc_idx = sort_positions(&p.numbers, true);
        proof {
            lemma_positions_distinct(desc_idx@, n as nat);
        }
        let rounds: usize = if n < 5 { n } else { 5 };
        let mut skip: usize = 0;
        while skip < rounds
            invariant
                p.wf(),
                n == p.numbers.len(),
                target@ == p.target@,
                desc_idx.len() == n,
                desc_idx@.no_duplicates(),
                forall|k: int| 0 <= k < n ==> desc_idx@[k] < n,
                desc_order(p.numbers@, desc_idx@),
                rounds == if n < 5 { n } else { 5 },
                skip <= rounds,
                forall|s: nat| s < skip ==> #[trigger] bridge_dead(p.values(), p.target@, desc_idx@, s),
            decreases rounds - skip,
        {
            if stop_requested(stop) {
                return Search::Stopped;
            }
            let mut chosen: Vec<bool> = vec![false; n];
            let mut total = BigNat::zero();
            let mut sk: usize = 0;
            let mut q: usize = 0;
            proof {
                lemma_flagged_none(p.values(), chosen@);
                assert(chosen@ =~= greedy_pass(p.values(), desc_idx@, skip as nat, p.target@, 0).0);
            }
            while q < n
                invariant
                    q <= n,
                    n == p.numbers.len(),
                    target@ == p.target@,
                    desc_idx.len() == n,
                    desc_idx@.no_duplicates(),
                    forall|k: int| 0 <= k < n ==> desc_idx@[k] < n,
                    chosen.len() == n,
                    forall|j: int| 0 <= j < n && #[trigger] chosen@[j] ==> exists|k: int| 0 <= k < q && desc_idx@[k] == j,
                    total@ == flag_sum(p.values(), chosen@),
                    total@ <= target@,
                    p.values().len() == n,
                    sk == if q < skip { q } else { skip },
                    chosen@ == greedy_pass(p.values(), desc_idx@, skip as nat, p.target@, q as nat).0,
                    total@ == greedy_pass(p.values(), desc_idx@, skip as nat, p.target@, q as nat).1,
                decreases n - q,
            {
                let i = desc_idx[q];
                if sk < skip {
                    sk += 1;
                } else {
                    let candidate = big_add(&total, &p.numbers[i]);
                    if big_le(&candidate, target) {
                        proof {
                            if chosen@[i as int] {
                                let k = choose|k: int| 0 <= k < q && desc_idx@[k] == i;
                                assert(desc_idx@[k] == desc_idx@[q as int]);
                            }
                            lemma_flag_sum_set(p.values(), chosen@, i as int);
                        }
                        chosen.set(i, true);
                        total = candidate;
                        if big_eq(&total, target) {
                            let sol = select_flags(&p.numbers, &chosen);
                            return Search::Found(sol);
                        }
                    }
                }
                proof {
                    assert forall|j: int| 0 <= j < n && #[trigger] chosen@[j] implies exists|k: int| 0 <= k < q + 1 && desc_idx@[k] == j by {
                        if j != i as int {
                            let k = choose|k: int| 0 <= k < q && desc_idx@[k] == j;
                        } else {
                            assert(desc_idx@[q as int] == j);
                        }
                    }
                }
                q += 1;
            }
            if big_eq(&total, target) {
                let sol = select_flags(&p.numbers, &chosen);
                return Search::Found(sol);
            }
            let gap = big_sub(target, &total);
            let gap_bits = big_bits(&gap);
            proof {
                crate::bignat::lemma_bit_len_bound(gap@, gap_bits as nat);
            }
            if gap_bits <= 24 {
                match big_to_u128(&gap) {
                    Some(g128) => {
                        match Self::close_gap(p, &chosen, g128, stop) {
                            Gap::Filled(full) => {
                                let sol = select_flags(&p.numbers, &full);
                                proof {
                                    crate::flags::lemma_flagged_sub(p.values(), full@);
                                }
                                return Search::Found(sol);
                            },
                            Gap::Unfilled => {},
                            Gap::Halt => {
                                return Search::Stopped;
                            },
                        }
                    },
                    None => {},
                }
            }
            proof {
                assert(bridge_dead(p.values(), p.target@, desc_idx@, skip as nat));
            }
            skip += 1;
        }
        proof {
            assert(desc_order(p.numbers@, desc_idx@));
        }
        Search::Done
    }

    /// Among the numbers not yet chosen whose values fit a `usize`, finds
    /// some that sum to `gap` with a reachability table built one number
    /// at a time (stopping at the first that makes `gap` reachable), then
    /// walks the saved tables back.  Returns the chosen flags with those
    /// numbers added.
    fn close_gap(p: &Profile, chosen: &Vec<bool>, gap: u128, stop: &AtomicBool) -> (r: Gap)
        requires
            p.wf(),
            chosen.len() == p.numbers.len(),
            0 < gap < 0x100_0000,
        ensures
            r matches Gap::Filled(full) ==> full.len() == chosen.len() && flag_sum(p.values(), full@) == flag_sum(
                p.values(),
                chosen@,
            ) + gap,
            r is Unfilled ==> !reach(gap_vals(p.values(), chosen@, p.numbers.len() as nat), gap as nat),
    {
        let n = p.numbers.len();
        let g = gap as usize;
        let ghost vs = p.values();
        let mut rem_idx: Vec<usize> = Vec::new();
        let mut rem_val: Vec<usize> = Vec::new();
        let mut i: usize = 0;
        while i < n
            invariant
                i <= n,
                n == p.numbers.len(),
                vs == p.values(),
                vs.len() == n,
                chosen.len() == n,
                rem_idx.len() == rem_val.len(),
                forall|k: int| 0 <= k < rem_idx.len() ==> #[trigger] rem_idx@[k] < i && !chosen@[rem_idx@[k] as int]
                    && rem_val@[k] as nat == p.values()[rem_idx@[k] as int],
                forall|a: int, b: int| 0 <= a < b < rem_idx.len() ==> rem_idx@[a] < rem_idx@[b],
                rem_val@.map_values(|v: usize| v as nat) == gap_vals(vs, chosen@, i as nat),
            decreases n - i,
        {
            let ghost before = rem_val@;
            if !chosen[i] {
                match big_to_u128(&p.numbers[i]) {
                    Some(v) => {
                        if v <= usize::MAX as u128 {
                            rem_idx.push(i);
                            rem_val.push(v as usize);
                            proof {
                                assert(rem_val@.map_values(|v: usize| v as nat) =~= before.map_values(|v: usize| v as nat).push(vs[i as int]));
                            }
                        }
                    },
                    None => {},
                }
            }
            i += 1;
        }
        let ghost rv = rem_val@.map_values(|v: usize| v as nat);
        assert(rv == gap_vals(vs, chosen@, n as nat));
        if rem_idx.len() == 0 {
            assert(rv.len() == 0);
            return Gap::Unfilled;
        }
        let mut dp = Bitset::new(g + 1);
        dp.set(0);
        proof {
            assert forall|x: int| 0 <= x <= g implies #[trigger] dp@[x] == reach(rv.take(0), x as nat) by {
                assert(rv.take(0).len() == 0);
            }
        }
        let mut hist: Vec<Bitset> = Vec::new();
        hist.push(dp.copy());
        let mut found = false;
        let mut k: usize = 0;
        while k < rem_val.len()
            invariant_except_break
                !found,
                !dp@[g as int],
            invariant
                found ==> dp@[g as int],
                k <= rem_val.len(),
                rv == rem_val@.map_values(|v: usize| v as nat),
                dp.wf(),
                dp@.len() == g + 1,
                hist.len() == k + 1,
                forall|j: int| 0 <= j < hist.len() ==> (#[trigger] hist@[j]).wf() && hist@[j]@.len() == g + 1,
                forall|x: int| 0 <= x <= g ==> #[trigger] dp@[x] == reach(rv.take(k as int), x as nat),
                forall|m: int, x: int| 0 <= m < hist.len() && 0 <= x <= g ==> #[trigger] hist@[m]@[x] == reach(rv.take(m), x as nat),
            ensures
                !found ==> k == rem_val.len() && !dp@[g as int],
            decreases rem_val.len() - k,
        {
            if stop_requested(stop) {
                return Gap::Halt;
            }
            let ghost old_dp = dp@;
            dp.shift_or_inplace(rem_val[k]);
            proof {
                assert(rv.take(k + 1) =~= rv.take(k as int).push(rv[k as int]));
                assert forall|x: int| 0 <= x <= g implies #[trigger] dp@[x] == reach(rv.take(k + 1), x as nat) by {
                    lemma_reach_push(rv.take(k as int), rv[k as int], x as nat);
                }
            }
            hist.push(dp.copy());
            if dp.get(g) {
                found = true;
                k += 1;
                break;
            }
            k += 1;
        }
        if !found {
            proof {
                assert(rv.take(rem_val.len() as int) =~= rv);
            }
            return Gap::Unfilled;
        }
        let ghost top: int = hist.len() - 1;
        assert(hist@[top]@[g as int] == dp@[g as int]);
        assert(reach(rv.take(top), g as nat));
        let mut full: Vec<bool> = chosen.clone();
        proof {
            assert(full@ =~= chosen@);
        }
        let mut cur: usize = g;
        let mut j: usize = rem_val.len();
        while j > 0
            invariant
                j <= rem_val.len(),
                rem_idx.len() == rem_val.len(),
                rv == rem_val@.map_values(|v: usize| v as nat),
                top == hist.len() - 1,
                top <= rem_val.len(),
                full.len() == n,
                n == p.numbers.len(),
                chosen.len() == n,
                cur <= g,
                forall|j: int| 0 <= j < hist.len() ==> (#[trigger] hist@[j]).wf() && hist@[j]@.len() == g + 1,
                forall|m: int, x: int| 0 <= m < hist.len() && 0 <= x <= g ==> #[trigger] hist@[m]@[x] == reach(rv.take(m), x as nat),
                reach(rv.take(if j < top { j as int } else { top }), cur as nat),
                forall|k: int| 0 <= k < rem_idx.len() ==> #[trigger] rem_idx@[k] < n && !chosen@[rem_idx@[k] as int]
                    && rem_val@[k] as nat == p.values()[rem_idx@[k] as int],
                forall|a: int, b: int| 0 <= a < b < rem_idx.len() ==> rem_idx@[a] < rem_idx@[b],
                forall|k: int| 0 <= k < rem_idx.len() && #[trigger] full@[rem_idx@[k] as int] ==> k >= j,
                forall|x: int| 0 <= x < n && !(exists|k: int| 0 <= k < rem_idx.len() && #[trigger] rem_idx@[k] == x) ==> full@[x] == chosen@[x],
                flag_sum(p.values(), full@) + cur == flag_sum(p.values(), chosen@) + g,
            ensures
                cur != 0 ==> j == 0,
            decreases j,
        {
            if cur == 0 {
                break;
            }
            j -= 1;
            if j + 1 < hist.len() {
                let v = rem_val[j];
                proof {
                    assert(rv.take(j + 1) =~= rv.take(j as int).push(rv[j as int]));
                    lemma_reach_push(rv.take(j as int), rv[j as int], cur as nat);
                }
                if cur >= v && hist[j].get(cur - v) {
                    let x = rem_idx[j];
                    proof {
                        if full@[x as int] {
                            assert(j >= j + 1);
                        }
                        lemma_flag_sum_set(p.values(), full@, x as int);
                    }
                    full.set(x, true);
                    cur -= v;
                    proof {
                        assert forall|k: int| 0 <= k < rem_idx.len() && #[trigger] full@[rem_idx@[k] as int] implies k >= j by {
                            if rem_idx@[k] != x {
                            } else if k != j as int {
                                if k < j {
                                    assert(rem_idx@[k] < rem_idx@[j as int]);
                                } else {
                                    assert(rem_idx@[j as int] < rem_idx@[k]);
                                }
                            }
                        }
                        assert forall|y: int| 0 <= y < n && !(exists|k: int| 0 <= k < rem_idx.len() && #[trigger] rem_idx@[k] == y) implies full@[y] == chosen@[y] by {
                            if y == x as int {
                                assert(rem_idx@[j as int] == y);
                            }
                        }
                    }
                }
            }
        }
        if cur == 0 {
            Gap::Filled(full)
        } else {
            proof {
                assert(rv.take(0).len() == 0);
            }
            Gap::Unfilled
        }
    }
}

} // verus!
