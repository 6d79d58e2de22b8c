//! Include/exclude depth-first search tried on several orderings of the
//! numbers: increasing, decreasing, and the given order (twice).
use vstd::prelude::*;
use std::sync::atomic::AtomicBool;
use crate::model::{sum_nat, reach, solvable, is_solution, lemma_reach_iff_solvable};
use crate::bignat::{BigNat, vals, big_le, big_eq, big_sub};
use crate::profile::Profile;
use crate::stop::stop_requested;
use crate::sort::{sort_asc, sort_desc};
use super::{Search, Dfs, copy_range, lemma_perm_solvable};
use super::greedy::{extends_with, lemma_extends_empty, lemma_extends_step, appended};

verus! {

/// The engine.
pub struct TurboSpecEngine;

/// A solution drawn from `nums[i+1..]` is drawn from `nums[i..]`.
pub proof fn lemma_extends_widen(before: Seq<BigNat>, after: Seq<BigNat>, nums: Seq<BigNat>, i: int, goal: nat)
    requires
        0 <= i < nums.len(),
        extends_with(before, after, nums, i + 1, goal),
    ensures
        extends_with(before, after, nums, i, goal),
{
    crate::model::lemma_suffix_sub(nums, i, i + 1, nums.len() as int);
    crate::model::lemma_sub_multiset_map(nums.subrange(i + 1, nums.len() as int), nums.subrange(i, nums.len() as int), |b: BigNat| b@);
    assert(vals(nums.subrange(i + 1, nums.len() as int)) =~= nums.subrange(i + 1, nums.len() as int).map_values(|b: BigNat| b@));
    assert(vals(nums.subrange(i, nums.len() as int)) =~= nums.subrange(i, nums.len() as int).map_values(|b: BigNat| b@));
    crate::model::lemma_sub_multiset_trans(
        vals(appended(before, after)),
        vals(nums.subrange(i + 1, nums.len() as int)),
        vals(nums.subrange(i, nums.len() as int)),
    );
}

impl TurboSpecEngine {
    pub fn name(&self) -> (r: &'static str)
        ensures
            r@ == "TurboSpecEngine"@,
    {
        "TurboSpecEngine"
    }

    /// For at most 30 numbers, runs the search on the numbers in increasing
    /// order, then decreasing, then in the given order twice.  The first
    /// search alone decides: a run that ends without a subset proves there
    /// is none.
    pub fn run(&self, p: &Profile, stop: &AtomicBool) -> (r: Search)
        requires
            p.wf(),
        ensures
            r matches Search::Found(sol) ==> is_solution(p.values(), vals(sol@), p.target@),
            r is Found || r is Done || r is Stopped,
            p.n <= 30 && r is Done ==> !solvable(p.values(), p.target@),
            p.n > 30 ==> r is Done,
    {
        if p.n > 30 {
            return Search::Done;
        }
        if stop_requested(stop) {
            return Search::Stopped;
        }
        let nums1 = sort_asc(&p.numbers);
        let (d1, sol1) = Self::search_order(&nums1, &p.target, stop);
        match d1 {
            Dfs::Hit => {
                proof {
                    super::lemma_perm_found(p, nums1@, sol1@);
                }
                return Search::Found(sol1);
            },
            Dfs::Halt => {
                return Search::Stopped;
            },
            Dfs::Miss => {},
        }
        proof {
            lemma_reach_iff_solvable(vals(nums1@), p.target@);
            lemma_perm_solvable(vals(nums1@), p.values(), p.target@);
        }
        if stop_requested(stop) {
            return Search::Stopped;
        }
        let nums2 = sort_desc(&p.numbers);
        let (d2, sol2) = Self::search_order(&nums2, &p.target, stop);
        match d2 {
            Dfs::Hit => {
                proof {
                    super::lemma_perm_found(p, nums2@, sol2@);
                }
                return Search::Found(sol2);
            },
            Dfs::Halt => {
                return Search::Stopped;
            },
            Dfs::Miss => {},
        }
        if stop_requested(stop) {
            return Search::Stopped;
        }
        let mut round: usize = 0;
        while round < 2
            invariant
                p.wf(),
                p.n <= 30,
                !solvable(p.values(), p.target@),
            decreases 2 - round,
        {
            let nums3 = copy_range(&p.numbers, 0, p.numbers.len());
            proof {
                assert(p.numbers@.subrange(0, p.numbers.len() as int) =~= p.numbers@);
            }
            let (d3, sol3) = Self::search_order(&nums3, &p.target, stop);
            match d3 {
                Dfs::Hit => {
                    proof {
                        super::lemma_perm_found(p, nums3@, sol3@);
                    }
                    return Search::Found(sol3);
                },
                Dfs::Halt => {
                    return Search::Stopped;
                },
                Dfs::Miss => {},
            }
            if stop_requested(stop) {
                return Search::Stopped;
            }
            round += 1;
        }
        Search::Done
    }

    /// One ordering: whether a subset was found, and the subset.
    fn search_order(nums: &Vec<BigNat>, target: &BigNat, stop: &AtomicBool) -> (r: (Dfs, Vec<BigNat>))
        ensures
            r.0 is Hit ==> crate::model::sub_multiset(vals(r.1@), vals(nums@)) && sum_nat(vals(r.1@)) == target@,
            r.0 is Miss ==> !reach(vals(nums@), target@),
    {
        let mut path: Vec<BigNat> = Vec::new();
        let d = Self::subset_sum(nums, target, 0, &mut path, stop);
        proof {
            assert(nums@.subrange(0, nums.len() as int) =~= nums@);
            assert(appended(Seq::<BigNat>::empty(), path@) =~= path@);
        }
        (d, path)
    }

    /// Skips `e[i]` first, then takes it; `path` gets the values taken.
    pub fn subset_sum(e: &Vec<BigNat>, rem: &BigNat, i: usize, path: &mut Vec<BigNat>, stop: &AtomicBool) -> (r: Dfs)
        requires
            i <= e.len(),
        ensures
            r is Hit ==> extends_with(old(path)@, final(path)@, e@, i as int, rem@),
            !(r is Hit) ==> final(path)@ == old(path)@,
            r is Miss ==> !reach(vals(e@.subrange(i as int, e.len() as int)), rem@),
        decreases e.len() - i,
    {
        let ghost p0 = path@;
        if stop_requested(stop) {
            return Dfs::Halt;
        }
        if big_eq(rem, &BigNat::zero()) {
            proof {
                lemma_extends_empty(p0, e@, i as int);
            }
            return Dfs::Hit;
        }
        if i >= e.len() {
            proof {
                assert(vals(e@.subrange(i as int, e.len() as int)) =~= Seq::<nat>::empty());
            }
            return Dfs::Miss;
        }
        let ghost rest = vals(e@.subrange(i + 1, e.len() as int));
        proof {
            assert(vals(e@.subrange(i as int, e.len() as int)).drop_first() =~= rest);
            assert(vals(e@.subrange(i as int, e.len() as int))[0] == e@[i as int]@);
        }
        match Self::subset_sum(e, rem, i + 1, path, stop) {
            Dfs::Hit => {
                proof {
                    lemma_extends_widen(p0, path@, e@, i as int, rem@);
                }
                return Dfs::Hit;
            },
            Dfs::Halt => {
                return Dfs::Halt;
            },
            Dfs::Miss => {},
        }
        if big_le(&e[i], rem) {
            let next = big_sub(rem, &e[i]);
            let w = e[i].copy();
            path.push(w);
            let ghost mid = path@;
            match Self::subset_sum(e, &next, i + 1, path, stop) {
                Dfs::Hit => {
                    proof {
                        lemma_extends_step(p0, mid, path@, e@, i as int, i as int, rem@, w);
                    }
                    return Dfs::Hit;
                },
                Dfs::Halt => {
                    path.pop();
                    proof {
                        assert(path@ =~= p0);
                    }
                    return Dfs::Halt;
                },
                Dfs::Miss => {
                    path.pop();
                    proof {
                        assert(path@ =~= p0);
                    }
                },
            }
        }
        Dfs::Miss
    }
}

} // verus!
