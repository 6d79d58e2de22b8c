//! Random restarts: shuffle the positions with a fixed-seed xorshift
//! generator and fill greedily, up to 5000 times.
use vstd::prelude::*;
use std::sync::atomic::AtomicBool;
use crate::model::is_solution;
use crate::bignat::{BigNat, vals, big_add, big_le, big_eq};
use crate::profile::Profile;
use crate::stop::stop_requested;
use crate::flags::{flag_sum, select_flags, lemma_flag_sum_set, lemma_flagged_none};
use crate::sort::{positions, lemma_positions_distinct};
use super::bridge::greedy_pass;
use super::Search;

verus! {

/// One xorshift step.
pub open spec fn xorshift(x: u64) -> u64 {
    let a = x ^ (x >> 12u64);
    let b = a ^ (a << 25u64);
    b ^ (b >> 27u64)
}

/// The xorshift64* generator.
pub struct Rng {
    pub state: u64,
}

impl Rng {
    /// A generator seeded with `seed` (a fixed constant for zero).
    pub fn new(seed: u64) -> (r: Rng)
        ensures
            r.state == if seed == 0 { 0x9E3779B97F4A7C15u64 } else { seed },
    {
        Rng { state: if seed == 0 { 0x9E3779B97F4A7C15u64 } else { seed } }
    }

    /// Advances the state and returns it scrambled by a multiplication.
    pub fn next(&mut self) -> (r: u64)
        ensures
            final(self).state == xorshift(old(self).state),
            r == final(self).state.wrapping_mul(0x2545F4914F6CDD1Du64),
    {
        let mut x = self.state;
        x = x ^ (x >> 12u64);
        x = x ^ (x << 25u64);
        x = x ^ (x >> 27u64);
        self.state = x;
        x.wrapping_mul(0x2545F4914F6CDD1Du64)
    }

    /// A number below `n` (0 for `n == 0`).
    pub fn range(&mut self, n: usize) -> (r: usize)
        ensures
            n == 0 ==> r == 0 && final(self).state == old(self).state,
            n > 0 ==> r < n && final(self).state == xorshift(old(self).state),
            n > 0 ==> r == (xorshift(old(self).state).wrapping_mul(0x2545F4914F6CDD1Du64) % (n as u64)) as usize,
    {
        if n == 0 {
            0
        } else {
            let v = self.next();
            (v % (n as u64)) as usize
        }
    }
}

/// The positions and generator state after the shuffle steps for
/// `i, i - 1, ..., 2`: each step draws `j` below `i` and swaps the entries
/// at `i - 1` and `j`.
pub open spec fn shuffle_from(idx: Seq<usize>, st: u64, i: nat) -> (Seq<usize>, u64)
    decreases i,
{
    if i <= 1 {
        (idx, st)
    } else {
        let st2 = xorshift(st);
        let j = (st2.wrapping_mul(0x2545F4914F6CDD1Du64) % (i as u64)) as int;
        let a = i - 1;
        shuffle_from(idx.update(a, idx[j]).update(j, idx[a]), st2, (i - 1) as nat)
    }
}

/// The positions and generator state after `k` rounds of shuffling `n`
/// positions, starting from `0..n` and the seed `0xCAFEBABE`.
pub open spec fn round_state(n: nat, k: nat) -> (Seq<usize>, u64)
    decreases k,
{
    if k == 0 {
        (positions(n), 0xCAFEBABEu64)
    } else {
        let prev = round_state(n, (k - 1) as nat);
        shuffle_from(prev.0, prev.1, n)
    }
}

/// The greedy fill along the order of round `k` misses `target`.
pub open spec fn round_misses(vals: Seq<nat>, target: nat, k: nat) -> bool {
    greedy_pass(vals, round_state(vals.len(), k).0, 0, target, vals.len()).1 != target
}

/// The engine.
pub struct RandomizedEngine;

impl RandomizedEngine {
    pub fn name(&self) -> (r: &'static str)
        ensures
            r@ == "Randomized"@,
    {
        "Randomized"
    }

    /// Up to 5000 rounds: a Fisher–Yates shuffle of the positions, then
    /// each number in that order is taken while the total stays at most the
    /// target.
    pub fn run(&self, p: &Profile, stop: &AtomicBool) -> (r: Search)
        requires
            p.wf(),
        ensures
            r matches Search::Found(sol) ==> is_solution(p.values(), vals(sol@), p.target@),
            r is Found || r is Done || r is Stopped,
            r is Done && p.target@ > 0 ==> forall|k: nat|
                1 <= k <= 5000 ==> #[trigger] round_misses(p.values(), p.target@, k),
    {
        let n = p.numbers.len();
        let mut rng = Rng::new(0xCAFEBABE);
        let mut indices: Vec<usize> = Vec::new();
        let mut k: usize = 0;
        while k < n
            invariant
                k <= n,
                indices@ == positions(k as nat),
            decreases n - k,
        {
            indices.push(k);
            proof {
                assert(indices@ =~= positions((k + 1) as nat));
            }
            k += 1;
        }
        let mut round: usize = 0;
        while round < 5000
            invariant
                p.wf(),
                n == p.numbers.len(),
                indices.len() == n,
                indices@.to_multiset() == positions(n as nat).to_multiset(),
                forall|q: int| 0 <= q < n ==> indices@[q] < n,
                round <= 5000,
                p.values().len() == n,
                (indices@, rng.state) == round_state(n as nat, round as nat),
                p.target@ > 0 ==> forall|k: nat| 1 <= k <= round ==> #[trigger] round_misses(p.values(), p.target@, k),
            decreases 5000 - round,
        {
            if stop_requested(stop) {
                return Search::Stopped;
            }
            let mut i: usize = n;
            let ghost start = round_state(n as nat, round as nat);
            while i > 1
                invariant
                    shuffle_from(indices@, rng.state, i as nat) == shuffle_from(start.0, start.1, n as nat),
                    i <= n,
                    indices.len() == n,
                    indices@.to_multiset() == positions(n as nat).to_multiset(),
                    forall|q: int| 0 <= q < n ==> indices@[q] < n,
                decreases i,
            {
                i -= 1;
                let j = rng.range(i + 1);
                let a = indices[i];
                let b = indices[j];
                let ghost before = indices@;
                indices.set(i, b);
                indices.set(j, a);
                proof {
                    lemma_swap_multiset(before, i as int, j as int);
                    assert(indices@ == before.update(i as int, before[j as int]).update(j as int, before[i as int]));
                }
            }
            proof {
                assert((indices@, rng.state) == round_state(n as nat, (round + 1) as nat));
            }
            proof {
                lemma_positions_distinct(indices@, n as nat);
            }
            let mut chosen: Vec<bool> = vec![false; n];
            let mut total = BigNat::zero();
            proof {
                lemma_flagged_none(p.values(), chosen@);
                assert(chosen@ =~= greedy_pass(p.values(), indices@, 0, p.target@, 0).0);
            }
            let mut q: usize = 0;
            while q < n
                invariant
                    q <= n,
                    n == p.numbers.len(),
                    p.wf(),
                    indices.len() == n,
                    indices@.no_duplicates(),
                    forall|x: int| 0 <= x < n ==> indices@[x] < n,
                    chosen.len() == n,
                    forall|j: int| 0 <= j < n && #[trigger] chosen@[j] ==> exists|x: int| 0 <= x < q && indices@[x] == j,
                    total@ == flag_sum(p.values(), chosen@),
                    total@ <= p.target@,
                    total@ < p.target@ || total@ == 0,
                    p.values().len() == n,
                    indices@ == round_state(n as nat, (round + 1) as nat).0,
                    chosen@ == greedy_pass(p.values(), indices@, 0, p.target@, q as nat).0,
                    total@ == greedy_pass(p.values(), indices@, 0, p.target@, q as nat).1,
                decreases n - q,
            {
                let i = indices[q];
                let cand = big_add(&total, &p.numbers[i]);
                if big_le(&cand, &p.target) {
                    proof {
                        if chosen@[i as int] {
                            let x = choose|x: int| 0 <= x < q && indices@[x] == i;
                            assert(indices@[x] == indices@[q as int]);
                        }
                        lemma_flag_sum_set(p.values(), chosen@, i as int);
                    }
                    chosen.set(i, true);
                    total = cand;
                    if big_eq(&total, &p.target) {
                        let sol = select_flags(&p.numbers, &chosen);
                        return Search::Found(sol);
                    }
                }
                proof {
                    assert forall|j: int| 0 <= j < n && #[trigger] chosen@[j] implies exists|x: int| 0 <= x < q + 1 && indices@[x] == j by {
                        if j != i as int {
                            let x = choose|x: int| 0 <= x < q && indices@[x] == j;
                        } else {
                            assert(indices@[q as int] == j);
                        }
                    }
                }
                q += 1;
            }
            proof {
                assert(round_misses(p.values(), p.target@, (round + 1) as nat) || p.target@ == 0);
            }
            round += 1;
        }
        Search::Done
    }
}

/// Swapping two entries keeps the multiset.
proof fn lemma_swap_multiset(s: Seq<usize>, i: int, j: int)
    requires
        0 <= i < s.len(),
        0 <= j < s.len(),
    ensures
        s.update(i, s[j]).update(j, s[i]).to_multiset() == s.to_multiset(),
{
    broadcast use vstd::seq_lib::group_to_multiset_ensures, vstd::multiset::group_multiset_axioms;

    let t = s.update(i, s[j]);
    let u = t.update(j, s[i]);
    assert(t.to_multiset() == s.to_multiset().remove(s[i]).insert(s[j]));
    assert(u.to_multiset() == t.to_multiset().remove(t[j]).insert(s[i]));
    if i == j {
        assert(u =~= s);
    } else {
        assert(t[j] == s[j]);
    }
}

} // verus!
