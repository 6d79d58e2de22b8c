//! GDEP — goal-driven element partitioning: depth-first search that only
//! keeps elements no larger than what is still missing, pruned by suffix sums.
use vstd::prelude::*;
use std::sync::atomic::AtomicBool;
use crate::model::{nats, sum_nat, sub_multiset, reach, solvable};
use crate::bignat::{BigNat, vals};
use crate::profile::Profile;
use crate::stop::stop_requested;
use crate::bignat::{big_le, big_eq, big_sub, big_from_u128};
use crate::sort::{sort_positions, lemma_positions_perm};
use super::{Search, Dfs, sound, is_suffix_sums, suffix_sums_u128, sorted_desc_u128, to_big};
use super::{is_suffix_sums_big, suffix_sums_big};
use super::greedy::{extends_with, appended, lemma_extends_empty, lemma_extends_step};

verus! {

broadcast use vstd::seq_lib::group_to_multiset_ensures, vstd::multiset::group_multiset_axioms;

/// Depth-first search for a subset of `nums[start..]` summing to `remaining`;
/// chosen elements are appended to `path`.
pub fn gdep_dfs_u128(
    nums: &Vec<u128>,
    suf: &Vec<u128>,
    remaining: u128,
    start: usize,
    path: &mut Vec<u128>,
    stop: &AtomicBool,
) -> (r: Dfs)
    requires
        is_suffix_sums(nums@, suf@),
        start <= nums.len(),
    ensures
        r is Hit ==> final(path)@.len() >= old(path)@.len() && final(path)@.subrange(0, old(path)@.len() as int)
            == old(path)@ && sub_multiset(
            final(path)@.subrange(old(path)@.len() as int, final(path)@.len() as int),
            nums@.subrange(start as int, nums@.len() as int),
        ) && sum_nat(nats(final(path)@.subrange(old(path)@.len() as int, final(path)@.len() as int))) == remaining,
        !(r is Hit) ==> final(path)@ == old(path)@,
        r is Hit ==> crate::model::is_subseq(
            final(path)@.subrange(old(path)@.len() as int, final(path)@.len() as int),
            nums@.subrange(start as int, nums@.len() as int),
        ),
        r is Miss ==> !reach(nats(nums@.subrange(start as int, nums@.len() as int)), remaining as nat),
        remaining == 0 ==> r is Hit && final(path)@ == old(path)@,
    decreases nums.len() - start,
{
    let ghost p0 = path@;
    let n = nums.len();
    if remaining == 0 {
        proof {
            assert(path@.subrange(p0.len() as int, path@.len() as int) =~= Seq::<u128>::empty());
            assert(nats(Seq::<u128>::empty()) =~= Seq::<nat>::empty());
            crate::model::lemma_sub_multiset_empty(nums@.subrange(start as int, n as int));
            assert(path@.subrange(0, p0.len() as int) =~= p0);
        }
        return Dfs::Hit;
    }
    if stop_requested(stop) {
        return Dfs::Halt;
    }
    if start >= n {
        return Dfs::Miss;
    }
    let mut i = start;
    while i < n
        invariant
            is_suffix_sums(nums@, suf@),
            n == nums.len(),
            start <= i <= n,
            remaining > 0,
            path@ == p0,
            p0 == old(path)@,
            reach(nats(nums@.subrange(start as int, n as int)), remaining as nat) ==> reach(
                nats(nums@.subrange(i as int, n as int)),
                remaining as nat,
            ),
        decreases n - i,
    {
        let v = nums[i];
        let ghost si = nats(nums@.subrange(i as int, n as int));
        let ghost si1 = nats(nums@.subrange(i + 1, n as int));
        proof {
            assert(si.drop_first() =~= si1);
            assert(si[0] == v as nat);
        }
        if v > remaining {
            i += 1;
            continue;
        }
        if suf[i] < remaining {
            proof {
                if reach(si, remaining as nat) {
                    crate::model::lemma_reach_le_sum(si, remaining as nat);
                }
            }
            return Dfs::Miss;
        }
        path.push(v);
        assert(path@ == p0.push(v));
        let new_rem = remaining - v;
        if new_rem == 0 {
            proof {
                let added = path@.subrange(p0.len() as int, path@.len() as int);
                assert(added =~= seq![v]);
                assert(v == remaining);
                assert(path@.subrange(0, p0.len() as int) =~= p0);
                assert(nats(added) =~= seq![v as nat]);
                crate::model::lemma_sum_nat_single(v as nat);
                crate::model::lemma_slice_sub(nums@.subrange(start as int, n as int), (i - start) as int, (i - start + 1) as int);
                assert(nums@.subrange(start as int, n as int).subrange((i - start) as int, (i - start + 1) as int) =~= added);
                assert(crate::model::is_subseq(Seq::<u128>::empty(), nums@.subrange(i + 1, n as int)));
                crate::model::lemma_subseq_cons(nums@, start as int, i as int, Seq::<u128>::empty());
                assert(seq![nums@[i as int]] + Seq::<u128>::empty() =~= added);
            }
            return Dfs::Hit;
        }
        if suf[i + 1] >= new_rem {
            let ghost p1 = path@;
            match gdep_dfs_u128(nums, suf, new_rem, i + 1, path, stop) {
                Dfs::Hit => {
                    proof {
                        assert(p1 == p0.push(v));
                        assert(path@.subrange(0, p1.len() as int) == p1);
                        let rest = path@.subrange(p1.len() as int, path@.len() as int);
                        let added = path@.subrange(p0.len() as int, path@.len() as int);
                        assert(path@.len() >= p1.len());
                        assert forall|q: int| 0 <= q < p1.len() implies path@[q] == p1[q] by {
                            assert(path@.subrange(0, p1.len() as int)[q] == path@[q]);
                        }
                        assert(p1[p0.len() as int] == v);
                        assert(path@[p0.len() as int] == p1[p0.len() as int]);
                        assert(added =~= seq![v] + rest);
                        assert(path@.subrange(0, p0.len() as int) =~= p0) by {
                            assert(path@.subrange(0, p1.len() as int) == p1);
                            assert(p1.subrange(0, p0.len() as int) =~= p0);
                        }
                        crate::model::lemma_nats_concat(seq![v], rest);
                        assert(nats(seq![v]) =~= seq![v as nat]);
                        crate::model::lemma_sum_nat_concat(seq![v as nat], nats(rest));
                        crate::model::lemma_sum_nat_single(v as nat);
                        let tail = nums@.subrange(i as int, n as int);
                        assert(tail =~= seq![v] + nums@.subrange(i + 1, n as int));
                        crate::model::lemma_sub_multiset_refl(seq![v]);
                        crate::model::lemma_sub_multiset_concat(seq![v], seq![v], rest, nums@.subrange(i + 1, n as int));
                        crate::model::lemma_suffix_sub(nums@, start as int, i as int, n as int);
                        crate::model::lemma_sub_multiset_trans(added, tail, nums@.subrange(start as int, n as int));
                        crate::model::lemma_subseq_cons(nums@, start as int, i as int, rest);
                        assert(seq![nums@[i as int]] + rest =~= added);
                    }
                    return Dfs::Hit;
                }
                Dfs::Halt => {
                    path.pop();
                    proof {
                        assert(path@ =~= p0);
                    }
                    return Dfs::Halt;
                }
                Dfs::Miss => {},
            }
        } else {
            proof {
                if reach(si1, new_rem as nat) {
                    crate::model::lemma_reach_le_sum(si1, new_rem as nat);
                }
            }
        }
        path.pop();
        proof {
            assert(path@ =~= p0);
        }
        i += 1;
    }
    proof {
        assert(nats(nums@.subrange(n as int, n as int)) =~= Seq::<nat>::empty());
    }
    Dfs::Miss
}

/// Depth-first search over big naturals for a subset of `nums[start..n]`
/// summing to `remaining`.
pub fn gdep_dfs_big(
    nums: &Vec<BigNat>,
    suf: &Vec<BigNat>,
    remaining: &BigNat,
    start: usize,
    n: usize,
    path: &mut Vec<BigNat>,
    stop: &AtomicBool,
) -> (r: Dfs)
    requires
        is_suffix_sums_big(nums@, suf@),
        n == nums.len(),
        start <= n,
    ensures
        r is Hit ==> extends_with(old(path)@, final(path)@, nums@, start as int, remaining@),
        !(r is Hit) ==> final(path)@ == old(path)@,
        r is Miss ==> !reach(vals(nums@.subrange(start as int, n as int)), remaining@),
        remaining@ == 0 ==> r is Hit && final(path)@ == old(path)@,
    decreases n - start,
{
    let ghost p0 = path@;
    if big_eq(remaining, &BigNat::zero()) {
        proof {
            lemma_extends_empty(p0, nums@, start as int);
        }
        return Dfs::Hit;
    }
    if stop_requested(stop) {
        return Dfs::Halt;
    }
    if start >= n {
        proof {
            assert(vals(nums@.subrange(n as int, n as int)) =~= Seq::<nat>::empty());
        }
        return Dfs::Miss;
    }
    let mut i = start;
    while i < n
        invariant
            is_suffix_sums_big(nums@, suf@),
            n == nums.len(),
            start <= i <= n,
            remaining@ > 0,
            path@ == p0,
            p0 == old(path)@,
            reach(vals(nums@.subrange(start as int, n as int)), remaining@) ==> reach(
                vals(nums@.subrange(i as int, n as int)),
                remaining@,
            ),
        decreases n - i,
    {
        let v = &nums[i];
        let ghost si = vals(nums@.subrange(i as int, n as int));
        let ghost si1 = vals(nums@.subrange(i + 1, n as int));
        proof {
            assert(si.drop_first() =~= si1);
            assert(si[0] == v@);
        }
        if !big_le(v, remaining) {
            i += 1;
            continue;
        }
        if !big_le(remaining, &suf[i]) {
            proof {
                if reach(si, remaining@) {
                    crate::model::lemma_reach_le_sum(si, remaining@);
                }
            }
            return Dfs::Miss;
        }
        path.push(v.copy());
        let ghost p1 = path@;
        let new_target = big_sub(remaining, v);
        if big_eq(&new_target, &BigNat::zero()) {
            proof {
                lemma_extends_empty(p1, nums@, (i + 1) as int);
                lemma_extends_step(p0, p1, p1, nums@, start as int, i as int, remaining@, p1.last());
            }
            return Dfs::Hit;
        }
        if big_le(&new_target, &suf[i + 1]) {
            match gdep_dfs_big(nums, suf, &new_target, i + 1, n, path, stop) {
                Dfs::Hit => {
                    proof {
                        lemma_extends_step(p0, p1, path@, nums@, start as int, i as int, remaining@, p1.last());
                    }
                    return Dfs::Hit;
                },
                Dfs::Halt => {
                    path.pop();
                    proof {
                        assert(path@ =~= p0);
                    }
                    return Dfs::Halt;
                },
                Dfs::Miss => {},
            }
        } else {
            proof {
                if reach(si1, new_target@) {
                    crate::model::lemma_reach_le_sum(si1, new_target@);
                }
            }
        }
        path.pop();
        proof {
            assert(path@ =~= p0);
        }
        i += 1;
    }
    proof {
        assert(vals(nums@.subrange(n as int, n as int)) =~= Seq::<nat>::empty());
    }
    Dfs::Miss
}

/// The GDEP engine.
pub struct GdepEngine;

impl GdepEngine {
    pub fn name(&self) -> (r: &'static str)
        ensures
            r@ == "GDEP"@,
    {
        "GDEP"
    }

    /// Runs GDEP: the empty subset for a zero target, otherwise the `u128`
    /// path when every sum fits, else the big-number path.
    pub fn run(&self, p: &Profile, stop: &AtomicBool) -> (r: Search)
        requires
            p.wf(),
        ensures
            sound(p, &r),
            r is Done ==> !solvable(p.values(), p.target@),
            r is Found || r is Done || r is Stopped,
            p.target@ == 0 ==> (r matches Search::Found(s) && s.len() == 0),
    {
        if big_eq(&p.target, &BigNat::zero()) {
            proof {
                crate::model::lemma_sub_multiset_empty(p.values());
                assert(vals(Seq::<BigNat>::empty()) =~= Seq::<nat>::empty());
            }
            return Search::Found(Vec::new());
        }
        if p.n == 0 {
            proof {
                assert(p.values() =~= Seq::<nat>::empty());
                crate::model::lemma_reach_iff_solvable(p.values(), p.target@);
            }
            return Search::Done;
        }
        if p.u128_safe() {
            self.run_u128(p, stop)
        } else {
            self.run_biguint(p, stop)
        }
    }

    /// The big-number path: elements closest below the target first.
    fn run_biguint(&self, p: &Profile, stop: &AtomicBool) -> (r: Search)
        requires
            p.wf(),
        ensures
            sound(p, &r),
            r is Done ==> !solvable(p.values(), p.target@),
            r is Found || r is Done || r is Stopped,
            p.target@ == 0 ==> (r matches Search::Found(s) && s.len() == 0),
    {
        let target = &p.target;
        let n = p.n;
        let far = big_from_u128(0xFFFF_FFFF_FFFF_FFFFu128);
        let mut keys: Vec<BigNat> = Vec::new();
        let mut k: usize = 0;
        while k < n
            invariant
                p.wf(),
                n == p.n,
                k <= n,
                keys.len() == k,
            decreases n - k,
        {
            let a = &p.numbers[k];
            if big_le(a, target) {
                keys.push(big_sub(target, a));
            } else {
                keys.push(far.copy());
            }
            k += 1;
        }
        let order = sort_positions(&keys, false);
        let mut ordered: Vec<BigNat> = Vec::new();
        let mut q: usize = 0;
        while q < n
            invariant
                p.wf(),
                n == p.n,
                order.len() == n,
                forall|j: int| 0 <= j < order.len() ==> order@[j] < n,
                q <= n,
                ordered.len() == q,
                forall|j: int| 0 <= j < q ==> #[trigger] ordered@[j]@ == p.numbers@[order@[j] as int]@,
            decreases n - q,
        {
            ordered.push(p.numbers[order[q]].copy());
            q += 1;
        }
        proof {
            lemma_positions_perm(p.numbers@, order@, ordered@);
        }
        let suf = suffix_sums_big(&ordered);
        let mut path: Vec<BigNat> = Vec::new();
        let res = gdep_dfs_big(&ordered, &suf, target, 0, n, &mut path, stop);
        proof {
            assert(ordered@.subrange(0, n as int) =~= ordered@);
            assert(appended(Seq::<BigNat>::empty(), path@) =~= path@);
        }
        match res {
            Dfs::Hit => {
                proof {
                    super::lemma_perm_found(p, ordered@, path@);
                }
                Search::Found(path)
            },
            Dfs::Miss => {
                proof {
                    crate::model::lemma_reach_iff_solvable(vals(ordered@), p.target@);
                    super::lemma_perm_solvable(p.values(), vals(ordered@), p.target@);
                }
                Search::Done
            },
            Dfs::Halt => Search::Stopped,
        }
    }

    /// The `u128` path: largest elements first.
    fn run_u128(&self, p: &Profile, stop: &AtomicBool) -> (r: Search)
        requires
            p.wf(),
            p.total_sum@ <= u128::MAX,
            p.target@ <= u128::MAX,
        ensures
            sound(p, &r),
            r is Done ==> !solvable(p.values(), p.target@),
            r is Found || r is Done || r is Stopped,
            p.target@ == 0 ==> (r matches Search::Found(s) && s.len() == 0),
    {
        let target = p.target_u128();
        let nums = p.numbers_u128();
        let sorted = sorted_desc_u128(&nums);
        proof {
            crate::model::lemma_nats_perm(sorted@, nums@);
        }
        let suf = suffix_sums_u128(&sorted);
        let mut path: Vec<u128> = Vec::new();
        let ghost n = sorted@.len() as int;
        match gdep_dfs_u128(&sorted, &suf, target, 0, &mut path, stop) {
            Dfs::Hit => {
                let big = to_big(&path);
                proof {
                    assert(path@.subrange(0, path@.len() as int) =~= path@);
                    assert(sorted@.subrange(0, n) =~= sorted@);
                    crate::model::lemma_sub_multiset_trans(path@, sorted@, nums@);
                    super::lemma_u128_found(p, nums@, path@, big@);
                }
                Search::Found(big)
            },
            Dfs::Miss => {
                proof {
                    assert(sorted@.subrange(0, n) =~= sorted@);
                    crate::model::lemma_reach_iff_solvable(nats(sorted@), target as nat);
                }
                Search::Done
            },
            Dfs::Halt => Search::Stopped,
        }
    }
}

} // verus!
