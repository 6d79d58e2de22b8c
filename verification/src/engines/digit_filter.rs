//! The last-two-digits filter: can any subset end in the same two decimal
//! digits as the target?  When none can, no subset reaches the target.
use vstd::prelude::*;
use crate::model::{reach, solvable, lemma_reach_iff_solvable};
use crate::bignat::{BigNat, vals, big_rem, big_from_u128, big_to_u128};
use crate::profile::Profile;
use std::sync::atomic::AtomicBool;
use super::{Search, sound};

verus! {

/// Some subset of `s` has a sum congruent to `r` modulo `m`.
pub open spec fn mod_reach(s: Seq<nat>, r: int, m: int) -> bool
    decreases s.len(),
{
    if s.len() == 0 {
        r % m == 0
    } else {
        mod_reach(s.drop_first(), r, m) || mod_reach(s.drop_first(), r - s[0], m)
    }
}

/// Only the residue of `r` matters.
pub proof fn lemma_mod_reach_residue(s: Seq<nat>, r: int, m: int)
    requires
        m > 0,
    ensures
        mod_reach(s, r, m) == mod_reach(s, r % m, m),
    decreases s.len(),
{
    if s.len() == 0 {
        vstd::arithmetic::div_mod::lemma_mod_twice(r, m);
    } else {
        lemma_mod_reach_residue(s.drop_first(), r, m);
        lemma_mod_reach_residue(s.drop_first(), r % m, m);
        lemma_mod_reach_residue(s.drop_first(), r - s[0], m);
        lemma_mod_reach_residue(s.drop_first(), r % m - s[0], m);
        vstd::arithmetic::div_mod::lemma_sub_mod_noop(r, s[0] as int, m);
        vstd::arithmetic::div_mod::lemma_sub_mod_noop(r % m, s[0] as int, m);
        vstd::arithmetic::div_mod::lemma_mod_twice(r, m);
    }
}

/// Appending `x`: the residues reachable with and without it.
pub proof fn lemma_mod_reach_push(s: Seq<nat>, x: nat, r: int, m: int)
    ensures
        mod_reach(s.push(x), r, m) == (mod_reach(s, r, m) || mod_reach(s, r - x, m)),
    decreases s.len(),
{
    if s.len() == 0 {
        assert(s.push(x).drop_first() =~= s);
    } else {
        assert(s.push(x).drop_first() =~= s.drop_first().push(x));
        lemma_mod_reach_push(s.drop_first(), x, r, m);
        lemma_mod_reach_push(s.drop_first(), x, r - s[0], m);
        assert(r - s[0] - x == r - x - s[0]);
    }
}

/// A reachable amount is reachable modulo anything.
pub proof fn lemma_reach_mod(s: Seq<nat>, r: nat, m: int)
    requires
        reach(s, r),
        m > 0,
    ensures
        mod_reach(s, r as int, m),
    decreases s.len(),
{
    if r == 0 {
        lemma_mod_reach_zero(s, m);
    } else if reach(s.drop_first(), r) {
        lemma_reach_mod(s.drop_first(), r, m);
    } else {
        lemma_reach_mod(s.drop_first(), (r - s[0]) as nat, m);
    }
}

/// The empty subset reaches residue 0.
pub proof fn lemma_mod_reach_zero(s: Seq<nat>, m: int)
    requires
        m > 0,
    ensures
        mod_reach(s, 0, m),
    decreases s.len(),
{
    if s.len() > 0 {
        lemma_mod_reach_zero(s.drop_first(), m);
    }
}

/// Whether some subset of `nums` has a sum congruent to `target` modulo
/// `m`: a table of the reachable residues, one number at a time.
pub fn residue_reachable(nums: &Vec<BigNat>, target: &BigNat, m: usize) -> (r: bool)
    requires
        0 < m <= 1000,
    ensures
        r == mod_reach(vals(nums@), target@ as int, m as int),
        !r ==> !solvable(vals(nums@), target@),
{
    let modulus = big_from_u128(m as u128);
    let mut table: Vec<bool> = vec![false; m];
    table.set(0, true);
    let ghost s = vals(nums@);
    proof {
        assert forall|v: int| 0 <= v < m implies #[trigger] table@[v] == mod_reach(s.take(0), v, m as int) by {
            assert(s.take(0).len() == 0);
            if v != 0 {
                assert(v % (m as int) == v) by (nonlinear_arith)
                    requires
                        0 < v < m,
                ;
            }
        }
    }
    let mut i: usize = 0;
    while i < nums.len()
        invariant
            i <= nums.len(),
            0 < m <= 1000,
            s == vals(nums@),
            modulus@ == m,
            table.len() == m,
            forall|v: int| 0 <= v < m ==> #[trigger] table@[v] == mod_reach(s.take(i as int), v, m as int),
        decreases nums.len() - i,
    {
        let rem = big_rem(&nums[i], &modulus);
        let x: usize = match big_to_u128(&rem) {
            Some(v) => v as usize,
            None => 0,
        };
        assert(x as nat == s[i as int] % (m as nat));
        let ghost old_table = table@;
        let mut next: Vec<bool> = Vec::new();
        let mut v: usize = 0;
        while v < m
            invariant
                v <= m,
                x < m,
                0 < m <= 1000,
                next.len() == v,
                old_table == table@,
                table.len() == m,
                forall|w: int| 0 <= w < v ==> #[trigger] next@[w] == (old_table[w] || old_table[(w - x) % (m as int)]),
            decreases m - v,
        {
            let back = if v >= x { v - x } else { v + m - x };
            proof {
                if v >= x {
                    assert((v - x) % (m as int) == v - x) by (nonlinear_arith)
                        requires
                            0 <= v - x < m,
                    ;
                } else {
                    assert((v - x) % (m as int) == v + m - x) by (nonlinear_arith)
                        requires
                            0 <= v + m - x < m,
                            v < x,
                    ;
                }
            }
            next.push(table[v] || table[back]);
            v += 1;
        }
        proof {
            let t = s.take(i as int);
            assert(s.take(i + 1) =~= t.push(s[i as int]));
            assert forall|w: int| 0 <= w < m implies #[trigger] next@[w] == mod_reach(s.take(i + 1), w, m as int) by {
                lemma_mod_reach_push(t, s[i as int], w, m as int);
                lemma_mod_reach_residue(t, w - s[i as int], m as int);
                vstd::arithmetic::div_mod::lemma_sub_mod_noop_right(w, s[i as int] as int, m as int);
                let k = (w - x) % (m as int);
                assert(0 <= k < m);
                assert(old_table[k] == mod_reach(t, k, m as int));
            }
        }
        table = next;
        i += 1;
    }
    let trem = big_rem(target, &modulus);
    let tv: usize = match big_to_u128(&trem) {
        Some(v) => v as usize,
        None => 0,
    };
    proof {
        assert(s.take(nums.len() as int) =~= s);
        lemma_mod_reach_residue(s, target@ as int, m as int);
        if solvable(s, target@) {
            lemma_reach_iff_solvable(s, target@);
            lemma_reach_mod(s, target@, m as int);
        }
    }
    table[tv]
}

/// The filter.
pub struct DigitFilterEngine;

impl DigitFilterEngine {
    /// Whether some subset of `nums` ends in the same two decimal digits as
    /// `target` (a residue table modulo 100).
    pub fn last_2_digits_reachable(nums: &Vec<BigNat>, target: &BigNat) -> (r: bool)
        ensures
            r == mod_reach(vals(nums@), target@ as int, 100),
            !r ==> !solvable(vals(nums@), target@),
    {
        residue_reachable(nums, target, 100)
    }

    pub fn name(&self) -> (r: &'static str)
        ensures
            r@ == "DigitFilter"@,
    {
        "DigitFilter"
    }

    /// Proves the instance impossible when no subset ends in the target's
    /// last two digits, and otherwise leaves it to the other engines.
    pub fn run(&self, p: &Profile, stop: &AtomicBool) -> (r: Search)
        requires
            p.wf(),
        ensures
            sound(p, &r),
            r is Impossible <==> !mod_reach(p.values(), p.target@ as int, 100),
            r is Impossible || r is Done,
    {
        if Self::last_2_digits_reachable(&p.numbers, &p.target) {
            Search::Done
        } else {
            Search::Impossible
        }
    }
}

} // verus!
