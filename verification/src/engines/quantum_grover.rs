//! The classical stand-in for a Grover search: every subset of at most 30
//! numbers is tried; larger instances are split into groups of 25.
use vstd::prelude::*;
use std::sync::atomic::AtomicBool;
use crate::model::{sum_nat, sub_multiset, solvable, is_solution};
use crate::bignat::{BigNat, vals, big_le, big_eq};
use crate::profile::Profile;
use crate::stop::stop_requested;
use super::{Search, copy_range, sum_big};
use super::tiny_brute::brute_big;

verus! {

broadcast use vstd::seq_lib::group_to_multiset_ensures, vstd::multiset::group_multiset_axioms;

/// The engine.
pub struct QuantumGrover;

impl QuantumGrover {
    pub fn name(&self) -> (r: &'static str)
        ensures
            r@ == "QuantumGrover"@,
    {
        "QuantumGrover"
    }

    /// Every subset of at most 30 numbers; a run that ends without a
    /// subset proves there is none.  Larger instances are left alone.
    pub fn run(&self, p: &Profile, stop: &AtomicBool) -> (r: Search)
        requires
            p.wf(),
        ensures
            r matches Search::Found(sol) ==> is_solution(p.values(), vals(sol@), p.target@),
            r is Found || r is Done || r is Stopped,
            p.n <= 30 && r is Done ==> !solvable(p.values(), p.target@),
            p.n > 30 ==> r is Done,
    {
        Self::run_grover(p, stop)
    }

    fn run_grover(p: &Profile, stop: &AtomicBool) -> (r: Search)
        requires
            p.wf(),
        ensures
            r matches Search::Found(sol) ==> is_solution(p.values(), vals(sol@), p.target@),
            r is Found || r is Done || r is Stopped,
            p.n <= 30 && r is Done ==> !solvable(p.values(), p.target@),
            p.n > 30 ==> r is Done,
    {
        let n = p.n;
        if n > 30 {
            return Search::Done;
        }
        if n > 35 {
            return Self::hybrid_approach(p, stop);
        }
        Self::simulate_grover(&p.numbers, &p.target, stop)
    }

    /// Groups of 25 numbers whose total is at most the target are each
    /// searched whole; the subsets found are joined and kept only if the
    /// join sums to the target.
    fn hybrid_approach(p: &Profile, stop: &AtomicBool) -> (r: Search)
        requires
            p.wf(),
        ensures
            r matches Search::Found(sol) ==> is_solution(p.values(), vals(sol@), p.target@),
            r is Found || r is Done || r is Stopped,
    {
        let n = p.n;
        let sub_size: usize = if n < 25 { n } else { 25 };
        if sub_size == 0 {
            return Search::Done;
        }
        let mut found = false;
        let mut solution: Vec<BigNat> = Vec::new();
        let mut s: usize = 0;
        proof {
            crate::model::lemma_sub_multiset_empty(vals(p.numbers@.subrange(0, 0)));
            assert(vals(solution@) =~= Seq::<nat>::empty());
        }
        while s < n
            invariant
                p.wf(),
                n == p.n,
                0 < sub_size <= 25,
                s <= n,
                sub_multiset(vals(solution@), vals(p.numbers@.subrange(0, s as int))),
            decreases n - s,
        {
            if stop_requested(stop) {
                return Search::Stopped;
            }
            let e = if sub_size < n - s { s + sub_size } else { n };
            let group = copy_range(&p.numbers, s, e);
            let gs = sum_big(&group);
            let ghost before = solution@;
            proof {
                assert(vals(p.numbers@.subrange(0, e as int)) =~= vals(p.numbers@.subrange(0, s as int)) + vals(group@));
                crate::model::lemma_sub_multiset_empty(vals(group@));
                crate::model::lemma_sub_multiset_concat(vals(before), vals(p.numbers@.subrange(0, s as int)), Seq::<nat>::empty(), vals(group@));
                assert(vals(before) + Seq::<nat>::empty() =~= vals(before));
            }
            if big_le(&gs, &p.target) {
                match Self::simulate_grover(&group, &p.target, stop) {
                    Search::Found(mut ss) => {
                        found = true;
                        let ghost gss = ss@;
                        solution.append(&mut ss);
                        proof {
                            assert(vals(solution@) =~= vals(before) + vals(gss));
                            crate::model::lemma_sub_multiset_concat(vals(before), vals(p.numbers@.subrange(0, s as int)), vals(gss), vals(group@));
                        }
                    },
                    _ => {},
                }
            }
            s = e;
        }
        proof {
            assert(p.numbers@.subrange(0, n as int) =~= p.numbers@);
        }
        if found {
            let total = sum_big(&solution);
            if big_eq(&total, &p.target) {
                return Search::Found(solution);
            }
        }
        Search::Done
    }

    /// Tries every subset of at most 30 numbers, in mask order.
    fn simulate_grover(nums: &Vec<BigNat>, target: &BigNat, stop: &AtomicBool) -> (r: Search)
        requires
            nums.len() <= 30,
        ensures
            r matches Search::Found(sol) ==> sub_multiset(vals(sol@), vals(nums@)) && sum_nat(vals(sol@)) == target@,
            r is Done ==> !solvable(vals(nums@), target@),
            r is Found || r is Done || r is Stopped,
    {
        match brute_big(nums, target, stop) {
            Search::Found(sol) => Search::Found(sol),
            Search::Done => Search::Done,
            _ => Search::Stopped,
        }
    }
}

} // verus!
