//! Greedy largest-first selection with suffix-sum lookahead and backtracking.
use vstd::prelude::*;
use std::sync::atomic::AtomicBool;
use crate::model::{sum_nat, sub_multiset, reach, solvable};
use crate::bignat::{BigNat, vals, big_le, big_eq, big_sub};
use crate::profile::Profile;
use crate::stop::stop_requested;
use crate::sort::sort_desc;
use super::{Search, Dfs, sound, is_suffix_sums_big, suffix_sums_big, lemma_cons_suffix};

verus! {

broadcast use vstd::seq_lib::group_to_multiset_ensures, vstd::multiset::group_multiset_axioms;

/// What a successful search appended to `path`.
pub open spec fn appended(before: Seq<BigNat>, after: Seq<BigNat>) -> Seq<BigNat> {
    after.subrange(before.len() as int, after.len() as int)
}

/// `after` extends `before` with elements of `nums[start..]` whose values sum to `goal`.
pub open spec fn extends_with(
    before: Seq<BigNat>,
    after: Seq<BigNat>,
    nums: Seq<BigNat>,
    start: int,
    goal: nat,
) -> bool {
    &&& after.len() >= before.len()
    &&& after.subrange(0, before.len() as int) == before
    &&& sub_multiset(vals(appended(before, after)), vals(nums.subrange(start, nums.len() as int)))
    &&& sum_nat(vals(appended(before, after))) == goal
}

pub proof fn lemma_extends_empty(before: Seq<BigNat>, nums: Seq<BigNat>, start: int)
    requires
        0 <= start <= nums.len(),
    ensures
        extends_with(before, before, nums, start, 0),
{
    assert(appended(before, before) =~= Seq::<BigNat>::empty());
    assert(vals(Seq::<BigNat>::empty()) =~= Seq::<nat>::empty());
    crate::model::lemma_sub_multiset_empty(vals(nums.subrange(start, nums.len() as int)));
    assert(before.subrange(0, before.len() as int) =~= before);
}

/// Pushing `nums[i]` then extending by a solution of `nums[i+1..]` extends by
/// a solution of `nums[start..]`.
pub proof fn lemma_extends_step(
    before: Seq<BigNat>,
    mid: Seq<BigNat>,
    after: Seq<BigNat>,
    nums: Seq<BigNat>,
    start: int,
    i: int,
    goal: nat,
    w: BigNat,
)
    requires
        0 <= start <= i < nums.len(),
        w@ == nums[i]@,
        mid == before.push(w),
        nums[i]@ <= goal,
        extends_with(mid, after, nums, i + 1, (goal - nums[i]@) as nat),
    ensures
        extends_with(before, after, nums, start, goal),
{
    let v = w;
    let rest = appended(mid, after);
    assert forall|q: int| 0 <= q < mid.len() implies after[q] == mid[q] by {
        assert(after.subrange(0, mid.len() as int)[q] == after[q]);
    }
    assert(mid[before.len() as int] == v);
    assert(appended(before, after) =~= seq![v] + rest);
    lemma_cons_suffix(nums, start, i, v, rest);
    assert(after.subrange(0, before.len() as int) =~= before);
}

/// Backtracking search over `nums[start..n]` for a subset summing to `target`.
pub fn solve(
    nums: &Vec<BigNat>,
    suf: &Vec<BigNat>,
    target: &BigNat,
    start: usize,
    n: usize,
    path: &mut Vec<BigNat>,
    stop: &AtomicBool,
) -> (r: Dfs)
    requires
        is_suffix_sums_big(nums@, suf@),
        n == nums.len(),
        start <= n,
    ensures
        r is Hit ==> extends_with(old(path)@, final(path)@, nums@, start as int, target@),
        !(r is Hit) ==> final(path)@ == old(path)@,
        r is Miss ==> !reach(vals(nums@.subrange(start as int, n as int)), target@),
        target@ == 0 ==> r is Hit && final(path)@ == old(path)@,
        target@ > sum_nat(vals(nums@.subrange(start as int, n as int))) ==> r is Miss,
    decreases n - start,
{
    let ghost p0 = path@;
    if big_eq(target, &BigNat::zero()) {
        proof {
            lemma_extends_empty(p0, nums@, start as int);
        }
        return Dfs::Hit;
    }
    if start >= n || !big_le(target, &suf[start]) {
        proof {
            if start < n && reach(vals(nums@.subrange(start as int, n as int)), target@) {
                crate::model::lemma_reach_le_sum(vals(nums@.subrange(start as int, n as int)), target@);
            }
            assert(vals(nums@.subrange(n as int, n as int)) =~= Seq::<nat>::empty());
        }
        return Dfs::Miss;
    }
    if stop_requested(stop) {
        return Dfs::Halt;
    }
    let mut i = start;
    while i < n
        invariant
            is_suffix_sums_big(nums@, suf@),
            n == nums.len(),
            start <= i <= n,
            target@ > 0,
            target@ <= sum_nat(vals(nums@.subrange(start as int, n as int))),
            path@ == p0,
            p0 == old(path)@,
            reach(vals(nums@.subrange(start as int, n as int)), target@) ==> reach(
                vals(nums@.subrange(i as int, n as int)),
                target@,
            ),
        decreases n - i,
    {
        let v = &nums[i];
        let ghost si = vals(nums@.subrange(i as int, n as int));
        let ghost si1 = vals(nums@.subrange(i + 1, n as int));
        proof {
            assert(si.drop_first() =~= si1);
            assert(si[0] == v@);
        }
        if !big_le(v, target) {
            i += 1;
            continue;
        }
        if big_eq(v, target) {
            path.push(v.copy());
            proof {
                lemma_extends_empty(path@, nums@, (i + 1) as int);
                lemma_extends_step(p0, path@, path@, nums@, start as int, i as int, target@, path@.last());
            }
            return Dfs::Hit;
        }
        let new_target = big_sub(target, v);
        if big_le(&new_target, &suf[i + 1]) {
            path.push(v.copy());
            let ghost p1 = path@;
            match solve(nums, suf, &new_target, i + 1, n, path, stop) {
                Dfs::Hit => {
                    proof {
                        lemma_extends_step(p0, p1, path@, nums@, start as int, i as int, target@, p1.last());
                    }
                    return Dfs::Hit;
                },
                Dfs::Halt => {
                    path.pop();
                    proof {
                        assert(path@ =~= p0);
                    }
                    return Dfs::Halt;
                },
                Dfs::Miss => {},
            }
            path.pop();
            proof {
                assert(path@ =~= p0);
            }
        } else {
            proof {
                if reach(si1, new_target@) {
                    crate::model::lemma_reach_le_sum(si1, new_target@);
                }
            }
        }
        i += 1;
    }
    proof {
        assert(vals(nums@.subrange(n as int, n as int)) =~= Seq::<nat>::empty());
    }
    Dfs::Miss
}

/// The greedy engine.
pub struct GreedyEngine;

impl GreedyEngine {
    pub fn name(&self) -> (r: &'static str)
        ensures
            r@ == "Greedy"@,
    {
        "Greedy"
    }

    pub fn run(&self, p: &Profile, stop: &AtomicBool) -> (r: Search)
        requires
            p.wf(),
        ensures
            sound(p, &r),
            r is Done ==> !solvable(p.values(), p.target@),
            r is Found || r is Done || r is Stopped,
            p.target@ == 0 ==> (r matches Search::Found(s) && s.len() == 0),
            p.target@ > p.total_sum@ ==> r is Done,
    {
        let desc = sort_desc(&p.numbers);
        let suf = suffix_sums_big(&desc);
        let n = desc.len();
        let mut path: Vec<BigNat> = Vec::new();
        let res = solve(&desc, &suf, &p.target, 0, n, &mut path, stop);
        proof {
            assert(desc@.subrange(0, n as int) =~= desc@);
            assert(appended(Seq::<BigNat>::empty(), path@) =~= path@);
            crate::model::lemma_perm_sum(vals(desc@), p.values());
        }
        match res {
            Dfs::Hit => {
                proof {
                    super::lemma_perm_found(p, desc@, path@);
                }
                Search::Found(path)
            },
            Dfs::Miss => {
                proof {
                    crate::model::lemma_reach_iff_solvable(vals(desc@), p.target@);
                    super::lemma_perm_solvable(p.values(), vals(desc@), p.target@);
                }
                Search::Done
            },
            Dfs::Halt => Search::Stopped,
        }
    }
}

} // verus!
