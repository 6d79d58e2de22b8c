//! The four-list merge as an engine for 44 to 80 numbers, on `u128`
//! values when every subset sum fits, on big values otherwise.
use vstd::prelude::*;
use std::sync::atomic::AtomicBool;
use crate::model::{is_solution, solvable};
use crate::bignat::vals;
use crate::profile::Profile;
use crate::stop::stop_requested;
use crate::knapsack::{schroeppel_shamir_big, schroeppel_shamir_u128};
use super::{Search, copy_range};
use super::schroeppel_shamir::slice_to_vec;

verus! {

/// The engine.
pub struct HardU128Engine;

impl HardU128Engine {
    pub fn name(&self) -> (r: &'static str)
        ensures
            r@ == "Hard-U128"@,
    {
        "Hard-U128"
    }

    /// Runs the merge on the quarters of 44 to 80 numbers.  When it
    /// finishes without a subset, none exists.
    pub fn run(&self, p: &Profile, stop: &AtomicBool) -> (r: Search)
        requires
            p.wf(),
        ensures
            r matches Search::Found(sol) ==> is_solution(p.values(), vals(sol@), p.target@),
            r is Found || r is Done || r is Stopped,
            44 <= p.n <= 80 && r is Done ==> !solvable(p.values(), p.target@),
            (p.n < 44 || p.n > 80) ==> !(r is Found),
    {
        if stop_requested(stop) {
            return Search::Stopped;
        }
        if p.n < 44 || p.n > 80 {
            return Search::Done;
        }
        let q = p.n / 4;
        if q == 0 || q > 20 {
            return Search::Done;
        }
        if p.u128_safe() {
            self.run_u128(p, stop)
        } else {
            self.run_biguint(p, stop)
        }
    }

    fn run_u128(&self, p: &Profile, stop: &AtomicBool) -> (r: Search)
        requires
            p.wf(),
            44 <= p.n <= 80,
            p.total_sum@ <= u128::MAX,
        ensures
            r matches Search::Found(sol) ==> is_solution(p.values(), vals(sol@), p.target@),
            r is Found || r is Done || r is Stopped,
            r is Done ==> !solvable(p.values(), p.target@),
    {
        let nums = p.numbers_u128();
        let n = p.n;
        let q = n / 4;
        let qa = slice_to_vec(&nums, 0, q);
        let qb = slice_to_vec(&nums, q, 2 * q);
        let qc = slice_to_vec(&nums, 2 * q, 3 * q);
        let qd = slice_to_vec(&nums, 3 * q, n);
        proof {
            assert(nums@ =~= qa@ + qb@ + qc@ + qd@);
            crate::model::lemma_nats_concat(qa@ + qb@ + qc@, qd@);
            crate::model::lemma_nats_concat(qa@ + qb@, qc@);
            crate::model::lemma_nats_concat(qa@, qb@);
        }
        if stop_requested(stop) {
            return Search::Stopped;
        }
        schroeppel_shamir_u128(&qa, &qb, &qc, &qd, &p.target, stop)
    }

    fn run_biguint(&self, p: &Profile, stop: &AtomicBool) -> (r: Search)
        requires
            p.wf(),
            44 <= p.n <= 80,
        ensures
            r matches Search::Found(sol) ==> is_solution(p.values(), vals(sol@), p.target@),
            r is Found || r is Done || r is Stopped,
            r is Done ==> !solvable(p.values(), p.target@),
    {
        let nums = &p.numbers;
        let n = p.n;
        let q = n / 4;
        let qa = copy_range(nums, 0, q);
        let qb = copy_range(nums, q, 2 * q);
        let qc = copy_range(nums, 2 * q, 3 * q);
        let qd = copy_range(nums, 3 * q, n);
        proof {
            assert(p.values() =~= vals(qa@) + vals(qb@) + vals(qc@) + vals(qd@));
        }
        if stop_requested(stop) {
            return Search::Stopped;
        }
        schroeppel_shamir_big(qa.as_slice(), qb.as_slice(), qc.as_slice(), qd.as_slice(), &p.target, stop)
    }
}

} // verus!
