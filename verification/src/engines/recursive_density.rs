//! Density split: low-density or tiny instances are enumerated, small ones
//! go through a hash meet-in-the-middle, and the rest are sorted and
//! split at the median value, the two halves' sums met in a hash table.
//! Whether the density is low (`n / ceil(log2 max) <= 0.64`) is a
//! floating-point test made by the caller.
use vstd::prelude::*;
use std::sync::atomic::AtomicBool;
use std::collections::HashMap;
use crate::model::{sum_nat, nats, sub_multiset, is_solution, solvable};
use crate::bignat::vals;
use crate::profile::Profile;
use crate::stop::stop_requested;
use crate::masks::{mask_sum, fits, select_u128, lemma_picked_sub};
use crate::sums::{build_sums_vec, sums_listed};
use super::{Search, to_big, lemma_u128_found, sort_u128};
use super::schroeppel_shamir::slice_to_vec;
use super::hash_mitm::Meet;

verus! {

broadcast use vstd::std_specs::hash::group_hash_axioms;

/// The engine.
pub struct RecursiveDensitySolver;

/// A subset of `e` summing to `target`.
pub open spec fn found_in(e: Seq<u128>, target: u128, sol: Seq<u128>) -> bool {
    sub_multiset(sol, e) && sum_nat(nats(sol)) == target as nat
}

/// The subset sums (at most `target`) of the first 22 numbers at most.
pub fn build_all_sums(elems: &Vec<u128>, target: u128) -> (r: (Vec<u128>, Vec<(u128, u64)>))
    ensures
        r.0@ == elems@.take(if elems.len() < 22 { elems.len() as int } else { 22 }),
        sums_listed(r.0@, target, r.1@),
{
    let m = if elems.len() < 22 { elems.len() } else { 22 };
    let head = slice_to_vec(elems, 0, m);
    proof {
        assert(head@ =~= elems@.take(m as int));
    }
    let sums = build_sums_vec(head.as_slice(), target);
    (head, sums)
}

/// Every subset of the first 24 numbers at most, in mask order.
pub fn exhaustive_solve(elems: &Vec<u128>, target: u128) -> (r: Option<Vec<u128>>)
    requires
        sum_nat(nats(elems@)) <= u128::MAX,
    ensures
        r matches Some(sol) ==> found_in(elems@, target, sol@) && crate::model::is_subseq(sol@, elems@),
        r is None ==> !solvable(nats(elems@.take(if elems.len() < 24 { elems.len() as int } else { 24 })), target as nat),
{
    let n = if elems.len() < 24 { elems.len() } else { 24 };
    let head = slice_to_vec(elems, 0, n);
    let total: u64 = 1u64 << (n as u64);
    let mut mask: u64 = 0;
    while mask < total
        invariant
            n <= 24,
            head.len() == n,
            head@ == elems@.subrange(0, n as int),
            n <= elems.len(),
            sum_nat(nats(elems@)) <= u128::MAX,
            total == 1u64 << (n as u64),
            forall|m: u64| m < mask ==> #[trigger] mask_sum(head@, m) != target as nat,
        decreases total - mask,
    {
        let sel = select_u128(head.as_slice(), mask);
        proof {
            lemma_picked_sub(head@, mask);
            crate::model::lemma_slice_sub(elems@, 0, n as int);
            crate::model::lemma_sub_multiset_trans(sel@, head@, elems@);
            crate::model::lemma_nats_sub(sel@, elems@);
            crate::model::lemma_sub_multiset_sum_le(nats(sel@), nats(elems@));
        }
        match super::sum_u128_checked(&sel) {
            Some(s) => {
                if s == target {
                    proof {
                        crate::masks::lemma_pick_subseq(head@, mask, head@.len());
                        assert(head@.take(head@.len() as int) =~= head@);
                        crate::model::lemma_subseq_append(sel@, head@, elems@.skip(n as int));
                        assert(head@ + elems@.skip(n as int) =~= elems@);
                    }
                    return Some(sel);
                }
            },
            None => {},
        }
        assert(mask_sum(head@, mask) != target as nat);
        mask += 1;
    }
    proof {
        assert(head@ =~= elems@.take(n as int));
        if solvable(nats(head@), target as nat) {
            crate::masks::lemma_solvable_has_mask(head@, target as nat);
            let m = choose|m: u64| fits(m, head@.len()) && #[trigger] mask_sum(head@, m) == target as nat;
            crate::masks::lemma_fits_lt(m, n as u64);
            assert(mask_sum(head@, m) != target as nat);
        }
    }
    None
}

/// The hash meet-in-the-middle on the two halves (each capped at 22
/// numbers): the left sums in a table (the last mask per sum), each right
/// sum looking up the rest.
pub fn hash_mitm_solve(elems: &Vec<u128>, target: u128) -> (r: Option<Vec<u128>>)
    ensures
        r matches Some(sol) ==> found_in(elems@, target, sol@) && crate::model::is_subseq(sol@, elems@),
        r is None ==> !solvable(
            nats(head22(elems@.take((elems.len() / 2) as int))) + nats(head22(elems@.skip((elems.len() / 2) as int))),
            target as nat,
        ),
{
    let n = elems.len();
    let half = n / 2;
    let left = slice_to_vec(elems, 0, half);
    let right = slice_to_vec(elems, half, n);
    proof {
        assert(left@ + right@ =~= elems@);
        crate::model::lemma_sub_multiset_refl(elems@);
        assert(left@ =~= elems@.take(half as int));
        assert(right@ =~= elems@.skip(half as int));
    }
    split_meet(elems, &left, &right, target)
}

/// At most the first 22 of `e`.
pub open spec fn head22(e: Seq<u128>) -> Seq<u128> {
    e.take(if e.len() < 22 { e.len() as int } else { 22 })
}

/// No subset of `l` sums to `need`.
pub open spec fn no_left_match(l: Seq<u128>, need: int) -> bool {
    forall|ml: u64| fits(ml, l.len()) ==> #[trigger] mask_sum(l, ml) != need
}

/// Meets the sums of `left` and `right` (the two parts of `elems`).
fn split_meet(elems: &Vec<u128>, left: &Vec<u128>, right: &Vec<u128>, target: u128) -> (r: Option<Vec<u128>>)
    requires
        sub_multiset(left@ + right@, elems@),
    ensures
        r matches Some(sol) ==> found_in(elems@, target, sol@) && crate::model::is_subseq(sol@, left@ + right@),
        r is None ==> !solvable(nats(head22(left@)) + nats(head22(right@)), target as nat),
{
    let (lhead, lsums) = build_all_sums(left, target);
    let mut map: HashMap<u128, u64> = HashMap::new();
    let mut k: usize = 0;
    while k < lsums.len()
        invariant
            k <= lsums.len(),
            sums_listed(lhead@, target, lsums@),
            forall|x: u128|
                #[trigger] map@.contains_key(x) ==> fits(map@[x], lhead@.len()) && mask_sum(lhead@, map@[x]) == x as nat,
            forall|j: int| 0 <= j < k ==> map@.contains_key(#[trigger] lsums@[j].0),
        decreases lsums.len() - k,
    {
        let (s, m) = lsums[k];
        map.insert(s, m);
        k += 1;
    }
    let (rhead, rsums) = build_all_sums(right, target);
    let mut q: usize = 0;
    while q < rsums.len()
        invariant
            q <= rsums.len(),
            sums_listed(rhead@, target, rsums@),
            lhead@ == left@.take(lhead@.len() as int),
            lhead@.len() <= left@.len(),
            rhead@ == right@.take(rhead@.len() as int),
            rhead@.len() <= right@.len(),
            lhead.len() <= 22 && rhead.len() <= 22,
            sub_multiset(left@ + right@, elems@),
            forall|x: u128|
                #[trigger] map@.contains_key(x) ==> fits(map@[x], lhead@.len()) && mask_sum(lhead@, map@[x]) == x as nat,
            sums_listed(lhead@, target, lsums@),
            forall|j: int| 0 <= j < lsums.len() ==> map@.contains_key(#[trigger] lsums@[j].0),
            forall|j: int| 0 <= j < q ==> no_left_match(lhead@, target - #[trigger] rsums@[j].0),
        decreases rsums.len() - q,
    {
        let (rs, rm) = rsums[q];
        if rs <= target {
            let need = target - rs;
            match map.get(&need) {
                Some(lm) => {
                    let mut sol = select_u128(lhead.as_slice(), *lm);
                    let mut rpart = select_u128(rhead.as_slice(), rm);
                    let ghost (pl, pr) = (sol@, rpart@);
                    sol.append(&mut rpart);
                    proof {
                        assert(sol@ =~= pl + pr);
                        lemma_picked_sub(lhead@, map@[need]);
                        lemma_picked_sub(rhead@, rm);
                        crate::model::lemma_slice_sub(left@, 0, lhead@.len() as int);
                        crate::model::lemma_slice_sub(right@, 0, rhead@.len() as int);
                        assert(left@.subrange(0, lhead@.len() as int) =~= lhead@);
                        assert(right@.subrange(0, rhead@.len() as int) =~= rhead@);
                        crate::model::lemma_sub_multiset_trans(pl, lhead@, left@);
                        crate::model::lemma_sub_multiset_trans(pr, rhead@, right@);
                        crate::model::lemma_sub_multiset_concat(pl, left@, pr, right@);
                        crate::model::lemma_sub_multiset_trans(sol@, left@ + right@, elems@);
                        crate::model::lemma_nats_concat(pl, pr);
                        crate::model::lemma_sum_nat_concat(nats(pl), nats(pr));
                        crate::masks::lemma_pick_subseq(lhead@, map@[need], lhead@.len());
                        crate::masks::lemma_pick_subseq(rhead@, rm, rhead@.len());
                        assert(lhead@.take(lhead@.len() as int) =~= lhead@);
                        assert(rhead@.take(rhead@.len() as int) =~= rhead@);
                        crate::model::lemma_subseq_append(pl, lhead@, left@.skip(lhead@.len() as int));
                        crate::model::lemma_subseq_append(pr, rhead@, right@.skip(rhead@.len() as int));
                        assert(lhead@ + left@.skip(lhead@.len() as int) =~= left@);
                        assert(rhead@ + right@.skip(rhead@.len() as int) =~= right@);
                        crate::model::lemma_subseq_concat(pl, left@, pr, right@);
                    }
                    return Some(sol);
                },
                None => {
                    proof {
                        assert forall|ml: u64| fits(ml, lhead@.len()) implies #[trigger] mask_sum(lhead@, ml) != need by {
                            if mask_sum(lhead@, ml) == need {
                                let i = choose|i: int| 0 <= i < lsums.len() && #[trigger] lsums@[i].1 == ml;
                                assert(map@.contains_key(lsums@[i].0));
                            }
                        }
                    }
                },
            }
        }
        assert(no_left_match(lhead@, target - rsums@[q as int].0));
        q += 1;
    }
    proof {
        let lv = nats(lhead@);
        let rv = nats(rhead@);
        if solvable(lv + rv, target as nat) {
            super::quadrants::lemma_solvable_split(lv, rv, target as nat);
            let t1 = choose|t1: nat| t1 <= target && #[trigger] crate::model::reach(lv, t1) && crate::model::reach(rv, (target - t1) as nat);
            let t2 = (target - t1) as nat;
            crate::model::lemma_reach_iff_solvable(lv, t1);
            crate::model::lemma_reach_iff_solvable(rv, t2);
            crate::masks::lemma_solvable_has_mask(lhead@, t1);
            crate::masks::lemma_solvable_has_mask(rhead@, t2);
            let ml = choose|m: u64| fits(m, lhead@.len()) && #[trigger] mask_sum(lhead@, m) == t1;
            let mr = choose|m: u64| fits(m, rhead@.len()) && #[trigger] mask_sum(rhead@, m) == t2;
            let j = choose|j: int| 0 <= j < rsums.len() && #[trigger] rsums@[j].1 == mr;
            assert(no_left_match(lhead@, target - rsums@[j].0));
            assert(mask_sum(lhead@, ml) != target - rsums@[j].0);
        }
    }
    None
}

/// Tiny or low-density instances are enumerated; up to 22 numbers go
/// through the hash meet-in-the-middle; larger ones are sorted and their
/// two halves (split at the median) met.
pub fn recursive_solve(elems: &Vec<u128>, target: u128, low_density: bool, stop: &AtomicBool) -> (r: Meet)
    requires
        sum_nat(nats(elems@)) <= u128::MAX,
        elems.len() < 128 || low_density,
    ensures
        r matches Meet::Hit(sol) ==> found_in(elems@, target, sol@),
        r is Miss && 1 <= elems.len() <= 44 && (!low_density || elems.len() <= 24) ==> !solvable(nats(elems@), target as nat),
{
    let n = elems.len();
    if n == 0 {
        return Meet::Miss;
    }
    if stop_requested(stop) {
        return Meet::Halt;
    }
    if low_density || n <= 4 {
        proof {
            if n <= 24 {
                assert(elems@.take(n as int) =~= elems@);
            }
        }
        return match exhaustive_solve(elems, target) {
            Some(sol) => Meet::Hit(sol),
            None => Meet::Miss,
        };
    }
    if n <= 22 {
        proof {
            let l = elems@.take((n / 2) as int);
            let rr = elems@.skip((n / 2) as int);
            assert(head22(l) =~= l);
            assert(head22(rr) =~= rr);
            crate::model::lemma_nats_concat(l, rr);
            assert(l + rr =~= elems@);
        }
        return match hash_mitm_solve(elems, target) {
            Some(sol) => Meet::Hit(sol),
            None => Meet::Miss,
        };
    }
    let mut sorted = slice_to_vec(elems, 0, n);
    let ghost orig = sorted@;
    sort_u128(&mut sorted);
    proof {
        broadcast use vstd::seq_lib::group_to_multiset_ensures;
        assert(sorted@.to_multiset().len() == sorted@.len());
        assert(orig.to_multiset().len() == orig.len());
    }
    let mid = n / 2;
    let left = slice_to_vec(&sorted, 0, mid);
    let right = slice_to_vec(&sorted, mid, n);
    proof {
        assert(orig =~= elems@);
        assert(left@ + right@ =~= sorted@);
        crate::model::lemma_sub_multiset_refl(elems@);
        assert(sorted@.to_multiset() == elems@.to_multiset());
    }
    if stop_requested(stop) {
        return Meet::Halt;
    }
    proof {
        if n <= 44 {
            assert(head22(left@) =~= left@);
            assert(head22(right@) =~= right@);
            crate::model::lemma_nats_concat(left@, right@);
            crate::model::lemma_nats_perm(sorted@, elems@);
            crate::engines::lemma_perm_solvable(nats(sorted@), nats(elems@), target as nat);
        }
    }
    match split_meet(elems, &left, &right, target) {
        Some(sol) => Meet::Hit(sol),
        None => Meet::Miss,
    }
}

impl RecursiveDensitySolver {
    pub fn name(&self) -> (r: &'static str)
        ensures
            r@ == "RecursiveDensity"@,
    {
        "RecursiveDensity"
    }

    /// For at least four numbers with `u128` sums.
    pub fn run(&self, p: &Profile, low_density: bool, stop: &AtomicBool) -> (r: Search)
        requires
            p.wf(),
            p.n < 128 || low_density || !(p.total_sum@ <= u128::MAX && p.target@ <= u128::MAX),
        ensures
            r matches Search::Found(sol) ==> is_solution(p.values(), vals(sol@), p.target@),
            r is Found || r is Done || r is Stopped,
            p.n < 4 ==> r is Done,
            r is Done && 4 <= p.n <= 44 && (!low_density || p.n <= 24) && p.total_sum@ <= u128::MAX && p.target@ <= u128::MAX
                ==> !solvable(p.values(), p.target@),
    {
        if p.n < 4 || !p.u128_safe() {
            return Search::Done;
        }
        let target = p.target_u128();
        let nums = p.numbers_u128();
        proof {
            assert(sum_nat(nats(nums@)) == p.total_sum@);
        }
        match recursive_solve(&nums, target, low_density, stop) {
            Meet::Hit(sol) => {
                let big = to_big(&sol);
                proof {
                    lemma_u128_found(p, nums@, sol@, big@);
                }
                Search::Found(big)
            },
            Meet::Miss => Search::Done,
            Meet::Halt => Search::Stopped,
        }
    }
}

} // verus!
