//! Group decomposition: the numbers in groups of ten, every subset sum of
//! each group, and a depth-first search choosing one sum per group with
//! the remaining target bounded by what the later groups can still reach.
use vstd::prelude::*;
use std::sync::atomic::AtomicBool;
use crate::model::{sum_nat, nats, sub_multiset, is_solution, solvable, reach, lemma_reach_split, lemma_reach_iff_solvable};
use crate::bignat::vals;
use crate::profile::Profile;
use crate::stop::stop_requested;
use crate::masks::{mask_sum, fits, select_u128, lemma_picked_sub, lemma_solvable_has_mask};
use crate::sums::{build_sums_u128, sums_by_value};
use super::{Search, to_big, lemma_u128_found};
use super::schroeppel_shamir::slice_to_vec;

verus! {

/// The engine.
pub struct GroupDecomposeEngine;

/// The sum chosen by `path` in groups `g..`.
pub open spec fn tail_sum(elems: Seq<Vec<u128>>, path: Seq<u64>, g: int) -> nat
    decreases elems.len() - g,
{
    if g < 0 || g >= elems.len() || g >= path.len() {
        0
    } else {
        mask_sum(elems[g]@, path[g]) + tail_sum(elems, path, g + 1)
    }
}

/// Only the choices from `g` on matter to `tail_sum`.
proof fn lemma_tail_sum_agree(elems: Seq<Vec<u128>>, p: Seq<u64>, q: Seq<u64>, g: int)
    requires
        0 <= g,
        p.len() == elems.len(),
        q.len() == elems.len(),
        forall|k: int| g <= k < elems.len() ==> p[k] == q[k],
    ensures
        tail_sum(elems, p, g) == tail_sum(elems, q, g),
    decreases elems.len() - g,
{
    if g < elems.len() {
        lemma_tail_sum_agree(elems, p, q, g + 1);
    }
}

/// Each group's table lists its subset sums up to `target`.
pub open spec fn tables_ok(elems: Seq<Vec<u128>>, groups: Seq<Vec<(u128, u64)>>, target: u128) -> bool {
    &&& elems.len() == groups.len()
    &&& forall|g: int| 0 <= g < groups.len() ==> elems[g].len() < 64 && #[trigger] sums_by_value(elems[g]@, target, groups[g]@)
}

/// The values of groups `g..`, in order.
pub open spec fn group_vals(elems: Seq<Vec<u128>>, g: int) -> Seq<nat>
    decreases elems.len() - g,
{
    if g < 0 || g >= elems.len() {
        Seq::empty()
    } else {
        nats(elems[g]@) + group_vals(elems, g + 1)
    }
}

/// `caps[g]` bounds every amount up to `target` that groups `g..` reach.
pub open spec fn caps_ok(elems: Seq<Vec<u128>>, caps: Seq<u128>, target: u128) -> bool {
    &&& caps.len() == elems.len() + 1
    &&& forall|g: int, x: nat|
        0 <= g <= elems.len() && #[trigger] reach(group_vals(elems, g), x) && x <= target ==> x <= caps[g]
}

/// The least sum of group `g` that leaves a rest the later groups can cover.
pub open spec fn least_need(caps: Seq<u128>, g: int, remaining: u128) -> int {
    if remaining > caps[g + 1] {
        remaining - caps[g + 1]
    } else {
        0
    }
}

/// `caps[k]` is `tops[k] + caps[k + 1]`, saturated at `u128::MAX`, and the
/// last entry is zero.
pub open spec fn caps_from(tops: Seq<u128>, caps: Seq<u128>) -> bool {
    &&& caps.len() == tops.len() + 1
    &&& caps[tops.len() as int] == 0
    &&& forall|k: int|
        0 <= k < tops.len() ==> #[trigger] caps[k] == if tops[k] + caps[k + 1] > u128::MAX {
            u128::MAX
        } else {
            (tops[k] + caps[k + 1]) as u128
        }
}

/// Groups `g..` reach within `target` no amount above `caps[g]`, when each
/// `tops[k]` is at least every sum in the table of group `k`.
proof fn lemma_cap_at(
    elems: Seq<Vec<u128>>,
    groups: Seq<Vec<(u128, u64)>>,
    tops: Seq<u128>,
    caps: Seq<u128>,
    target: u128,
    g: int,
    x: nat,
)
    requires
        tables_ok(elems, groups, target),
        tops.len() == elems.len(),
        forall|k: int, i: int| 0 <= k < tops.len() && 0 <= i < groups[k].len() ==> (#[trigger] groups[k]@[i]).0 <= tops[k],
        caps_from(tops, caps),
        0 <= g <= elems.len(),
        reach(group_vals(elems, g), x),
        x <= target,
    ensures
        x <= caps[g],
    decreases elems.len() - g,
{
    if g == elems.len() {
        assert(group_vals(elems, g).len() == 0);
    } else {
        let e = elems[g]@;
        assert(group_vals(elems, g) == nats(e) + group_vals(elems, g + 1));
        lemma_reach_split(nats(e), group_vals(elems, g + 1), x);
        let r1 = choose|r1: nat| r1 <= x && #[trigger] reach(nats(e), r1) && reach(group_vals(elems, g + 1), (x - r1) as nat);
        assert(sums_by_value(e, target, groups[g]@));
        lemma_group_listed(e, target, groups[g]@, r1);
        let i = choose|i: int| 0 <= i < groups[g]@.len() && #[trigger] groups[g]@[i].0 == r1;
        assert(groups[g]@[i].0 <= tops[g]);
        lemma_cap_at(elems, groups, tops, caps, target, g + 1, (x - r1) as nat);
    }
}

/// The groups are the consecutive runs of ten of `nums`, so from group `g`
/// on they hold the numbers from position `10 * g` on.
proof fn lemma_group_vals_tail(elems: Seq<Vec<u128>>, nums: Seq<u128>, g: int)
    requires
        elems.len() == (nums.len() + 9) / 10,
        forall|q: int| 0 <= q < elems.len() ==> #[trigger] elems[q]@ == nums.subrange(10 * q, if 10 * q + 10 < nums.len() { 10 * q + 10 } else { nums.len() as int }),
        0 <= g <= elems.len(),
    ensures
        group_vals(elems, g) == nats(nums.subrange(if 10 * g < nums.len() { 10 * g } else { nums.len() as int }, nums.len() as int)),
    decreases elems.len() - g,
{
    let n = nums.len() as int;
    if g == elems.len() {
        assert(10 * g >= n) by (nonlinear_arith)
            requires
                g == (n + 9) / 10,
                n >= 0,
        ;
        assert(nats(nums.subrange(n, n)) =~= Seq::<nat>::empty());
    } else {
        assert(10 * g < n) by (nonlinear_arith)
            requires
                g < (n + 9) / 10,
                n >= 0,
        ;
        lemma_group_vals_tail(elems, nums, g + 1);
        let hi = if 10 * g + 10 < n { 10 * g + 10 } else { n };
        assert(nats(nums.subrange(10 * g, n)) =~= nats(nums.subrange(10 * g, hi)) + nats(nums.subrange(hi, n)));
    }
}

/// How the depth-first search ended.
pub enum Walk {
    Hit,
    Miss,
    Halt,
}

/// An amount that group `g` reaches within `target` is listed in its table.
proof fn lemma_group_listed(e: Seq<u128>, target: u128, r: Seq<(u128, u64)>, x: nat)
    requires
        e.len() < 64,
        sums_by_value(e, target, r),
        reach(nats(e), x),
        x <= target,
    ensures
        exists|i: int| 0 <= i < r.len() && #[trigger] r[i].0 == x,
{
    lemma_reach_iff_solvable(nats(e), x);
    lemma_solvable_has_mask(e, x);
    let m = choose|m: u64| fits(m, e.len()) && #[trigger] mask_sum(e, m) == x;
    let i = choose|i: int| 0 <= i < r.len() && #[trigger] r[i].1 == m;
    assert(r[i].0 == x);
}

/// What the search over group `g` leaves out cannot reach `remaining`:
/// every table entry that could start a solution was tried and failed.
proof fn lemma_dfs_miss(
    elems: Seq<Vec<u128>>,
    groups: Seq<Vec<(u128, u64)>>,
    caps: Seq<u128>,
    g: int,
    remaining: u128,
    target: u128,
    start: int,
    end: int,
)
    requires
        tables_ok(elems, groups, target),
        caps_ok(elems, caps, target),
        0 <= g < groups.len(),
        remaining <= target,
        0 <= start <= end <= groups[g].len(),
        forall|i: int| 0 <= i < end ==> (#[trigger] groups[g]@[i]).0 <= remaining,
        end == groups[g].len() || groups[g]@[end].0 > remaining,
        forall|i: int| 0 <= i < start ==> (#[trigger] groups[g]@[i]).0 < least_need(caps, g, remaining),
        forall|q: int| start <= q < end ==> !#[trigger] reach(group_vals(elems, g + 1), (remaining - groups[g]@[q].0) as nat),
    ensures
        !reach(group_vals(elems, g), remaining as nat),
{
    if reach(group_vals(elems, g), remaining as nat) {
        let e = elems[g]@;
        let r = groups[g]@;
        assert(group_vals(elems, g) == nats(e) + group_vals(elems, g + 1));
        lemma_reach_split(nats(e), group_vals(elems, g + 1), remaining as nat);
        let r1 = choose|r1: nat| r1 <= remaining && #[trigger] reach(nats(e), r1) && reach(group_vals(elems, g + 1), (remaining - r1) as nat);
        assert(sums_by_value(e, target, r));
        lemma_group_listed(e, target, r, r1);
        let i = choose|i: int| 0 <= i < r.len() && #[trigger] r[i].0 == r1;
        if i >= end {
            assert(r[end].0 <= r[i].0);
        }
        assert(reach(group_vals(elems, g + 1), (remaining - r1) as nat));
        assert((remaining - r1) as nat <= caps[g + 1]);
        if i < start {
            assert(r[i].0 < least_need(caps, g, remaining));
        }
        assert(!reach(group_vals(elems, g + 1), (remaining - r[i].0) as nat));
    }
}

/// Depth-first over groups `g..`: a sum from group `g` (largest first,
/// only those leaving a reachable rest), then the later groups.
fn dfs(
    elems: &Vec<Vec<u128>>,
    groups: &Vec<Vec<(u128, u64)>>,
    suffix_max: &Vec<u128>,
    g: usize,
    remaining: u128,
    path: &mut Vec<u64>,
    target: u128,
    stop: &AtomicBool,
) -> (r: Walk)
    requires
        tables_ok(elems@, groups@, target),
        caps_ok(elems@, suffix_max@, target),
        g <= groups.len(),
        remaining <= target,
        old(path).len() == g,
    ensures
        r is Hit ==> final(path).len() == groups.len() && final(path)@.subrange(0, g as int) == old(path)@ && (forall|k: int|
            g <= k < groups.len() ==> fits(#[trigger] final(path)@[k], elems@[k]@.len())) && tail_sum(
            elems@,
            final(path)@,
            g as int,
        ) == remaining,
        !(r is Hit) ==> final(path)@ == old(path)@,
        r is Miss ==> !reach(group_vals(elems@, g as int), remaining as nat),
        g == groups.len() ==> (r is Hit <==> remaining == 0),
    decreases groups.len() - g,
{
    if g >= groups.len() {
        proof {
            assert(path@.subrange(0, g as int) =~= path@);
        }
        return if remaining == 0 {
            Walk::Hit
        } else {
            Walk::Miss
        };
    }
    if stop_requested(stop) {
        return Walk::Halt;
    }
    if remaining > suffix_max[g] {
        return Walk::Miss;
    }
    let group = &groups[g];
    let mut end: usize = 0;
    while end < group.len() && group[end].0 <= remaining
        invariant
            end <= group.len(),
            forall|i: int| 0 <= i < end ==> (#[trigger] group@[i]).0 <= remaining,
        decreases group.len() - end,
    {
        end += 1;
    }
    proof {
        assert(tables_ok(elems@, groups@, target));
        assert(sums_by_value(elems@[g as int]@, target, groups@[g as int]@));
    }
    if end == 0 {
        proof {
            lemma_dfs_miss(elems@, groups@, suffix_max@, g as int, remaining, target, 0, 0);
        }
    }
    if end > 0 {
        let need: u128 = if remaining > suffix_max[g + 1] { remaining - suffix_max[g + 1] } else { 0 };
        let mut start: usize = 0;
        while start < end && group[start].0 < need
            invariant
                start <= end,
                end <= group.len(),
                need == least_need(suffix_max@, g as int, remaining),
                forall|i: int| 0 <= i < start ==> (#[trigger] group@[i]).0 < need,
            decreases end - start,
        {
            start += 1;
        }
        let ghost p0 = path@;
        let mut j: usize = end;
        while j > start
            invariant
                start <= j <= end,
                end <= group.len(),
                group == &groups@[g as int],
                g < groups.len(),
                tables_ok(elems@, groups@, target),
                suffix_max.len() == groups.len() + 1,
                path@ == p0,
                p0 == old(path)@,
                p0.len() == g,
                caps_ok(elems@, suffix_max@, target),
                remaining <= target,
                forall|i: int| 0 <= i < end ==> (#[trigger] group@[i]).0 <= remaining,
                forall|q: int| j <= q < end ==> !#[trigger] reach(group_vals(elems@, g + 1), (remaining - group@[q].0) as nat),
            decreases j,
        {
            j -= 1;
            let (gs, mask) = group[j];
            if gs <= remaining {
                path.push(mask);
                let ghost mid = path@;
                proof {
                    assert(sums_by_value(elems@[g as int]@, target, groups@[g as int]@));
                    assert(fits(group@[j as int].1, elems@[g as int]@.len()));
                }
                let sub = dfs(elems, groups, suffix_max, g + 1, remaining - gs, path, target, stop);
                let (hit, halted) = match sub {
                    Walk::Hit => (true, false),
                    Walk::Miss => (false, false),
                    Walk::Halt => (false, true),
                };
                if hit {
                    proof {
                        let fp = path@;
                        assert(fp.subrange(0, g + 1) == mid);
                        assert(fp.subrange(0, g + 1)[g as int] == mid[g as int]);
                        assert(fp[g as int] == mask);
                        assert(group@[j as int].0 == gs && group@[j as int].1 == mask);
                        assert(gs as nat == mask_sum(elems@[g as int]@, mask));
                        assert(tail_sum(elems@, fp, g as int) == mask_sum(elems@[g as int]@, fp[g as int]) + tail_sum(elems@, fp, g + 1));
                        assert(fp.subrange(0, g as int) =~= p0) by {
                            assert forall|k: int| 0 <= k < g implies fp[k] == p0[k] by {
                                assert(fp.subrange(0, g + 1)[k] == mid[k]);
                            }
                        }
                    }
                    return Walk::Hit;
                }
                path.pop();
                proof {
                    assert(path@ =~= p0);
                }
                if halted {
                    return Walk::Halt;
                }
            }
        }
        proof {
            lemma_dfs_miss(elems@, groups@, suffix_max@, g as int, remaining, target, start as int, end as int);
        }
    }
    Walk::Miss
}

impl GroupDecomposeEngine {
    pub fn name(&self) -> (r: &'static str)
        ensures
            r@ == "GroupDecompose"@,
    {
        "GroupDecompose"
    }

    /// For at least 28 numbers with `u128` sums, in 3 to 7 groups of ten.
    #[verifier::rlimit(50)]
    #[verifier::spinoff_prover]
    pub fn run(&self, p: &Profile, stop: &AtomicBool) -> (r: Search)
        requires
            p.wf(),
        ensures
            r matches Search::Found(sol) ==> is_solution(p.values(), vals(sol@), p.target@),
            r is Found || r is Done || r is Stopped,
            p.n < 28 ==> r is Done,
            r is Done && 28 <= p.n <= 70 && p.total_sum@ <= u128::MAX && p.target@ <= u128::MAX ==> !solvable(
                p.values(),
                p.target@,
            ),
    {
        if p.n < 28 || !p.u128_safe() {
            return Search::Done;
        }
        let target = p.target_u128();
        let nums = p.numbers_u128();
        let n = nums.len();
        let num_groups = n / 10 + if n % 10 == 0 { 0 } else { 1 };
        assert(num_groups == (n + 9) / 10);
        if num_groups < 3 || num_groups > 7 {
            return Search::Done;
        }
        let mut elems: Vec<Vec<u128>> = Vec::new();
        let mut groups: Vec<Vec<(u128, u64)>> = Vec::new();
        let mut group_max: Vec<u128> = Vec::new();
        let mut g: usize = 0;
        while g < num_groups
            invariant
                g <= num_groups,
                num_groups <= 7,
                p.n >= 28,
                n == nums.len(),
                num_groups == (n + 9) / 10,
                elems.len() == g,
                group_max.len() == g,
                tables_ok(elems@, groups@, target),
                forall|k: int, i: int| 0 <= k < g && 0 <= i < groups@[k].len() ==> (#[trigger] groups@[k]@[i]).0 <= group_max@[k],
                forall|k: int| 0 <= k < g ==> #[trigger] elems@[k]@ == nums@.subrange(10 * k, if 10 * k + 10 < n { 10 * k + 10 } else { n as int }),
            decreases num_groups - g,
        {
            let start = g * 10;
            let end = if start + 10 < n { start + 10 } else { n };
            let part = slice_to_vec(&nums, start, end);
            let sums = build_sums_u128(part.as_slice(), target);
            let top: u128 = if sums.len() > 0 { sums[sums.len() - 1].0 } else { 0 };
            if stop_requested(stop) {
                return Search::Stopped;
            }
            let ghost (e0, g0, t0) = (elems@, groups@, group_max@);
            proof {
                assert forall|i: int| 0 <= i < sums.len() implies (#[trigger] sums@[i]).0 <= top by {
                    if i < sums.len() - 1 {
                        assert(sums@[i].0 <= sums@[sums.len() - 1].0);
                    }
                }
            }
            elems.push(part);
            groups.push(sums);
            group_max.push(top);
            proof {
                assert forall|k: int| 0 <= k < groups.len() implies elems@[k].len() < 64 && #[trigger] sums_by_value(elems@[k]@, target, groups@[k]@) by {
                    if k < g {
                        assert(elems@[k] == e0[k]);
                        assert(groups@[k] == g0[k]);
                    }
                }
                assert forall|k: int, i: int| 0 <= k < g + 1 && 0 <= i < groups@[k].len() implies (#[trigger] groups@[k]@[i]).0 <= group_max@[k] by {
                    if k < g {
                        assert(groups@[k] == g0[k]);
                        assert(group_max@[k] == t0[k]);
                    }
                }
                assert forall|k: int| 0 <= k < g + 1 implies #[trigger] elems@[k]@ == nums@.subrange(10 * k, if 10 * k + 10 < n { 10 * k + 10 } else { n as int }) by {
                    if k < g {
                        assert(elems@[k] == e0[k]);
                    }
                }
            }
            g += 1;
        }
        let mut suffix_max: Vec<u128> = vec![0u128; num_groups + 1];
        let mut s: usize = num_groups;
        proof {
            assert(suffix_max@[num_groups as int] == 0);
        }
        while s > 0
            invariant
                s <= num_groups,
                suffix_max.len() == num_groups + 1,
                group_max.len() == num_groups,
                suffix_max@[num_groups as int] == 0,
                forall|k: int|
                    s <= k < num_groups ==> #[trigger] suffix_max@[k] == if group_max@[k] + suffix_max@[k + 1] > u128::MAX {
                        u128::MAX
                    } else {
                        (group_max@[k] + suffix_max@[k + 1]) as u128
                    },
            decreases s,
        {
            s -= 1;
            let v = match suffix_max[s + 1].checked_add(group_max[s]) {
                Some(x) => x,
                None => u128::MAX,
            };
            suffix_max.set(s, v);
        }
        proof {
            assert(caps_from(group_max@, suffix_max@));
            assert forall|g: int, x: nat|
                0 <= g <= elems@.len() && #[trigger] reach(group_vals(elems@, g), x) && x <= target implies x <= suffix_max@[g] by {
                lemma_cap_at(elems@, groups@, group_max@, suffix_max@, target, g, x);
            }
        }
        let mut path: Vec<u64> = Vec::new();
        let walk = dfs(&elems, &groups, &suffix_max, 0, target, &mut path, target, stop);
        let (hit, halted) = match walk {
            Walk::Hit => (true, false),
            Walk::Miss => (false, false),
            Walk::Halt => (false, true),
        };
        if hit {
            let mut sol: Vec<u128> = Vec::new();
            let mut k: usize = 0;
            proof {
                assert(nats(sol@) =~= Seq::<nat>::empty());
                crate::model::lemma_sub_multiset_empty(nums@.subrange(0, 0));
            }
            while k < num_groups
                invariant
                    k <= num_groups,
                    num_groups == elems.len(),
                    num_groups == (n + 9) / 10,
                    3 <= num_groups <= 7,
                    n == nums.len(),
                    path.len() == num_groups,
                    tables_ok(elems@, groups@, target),
                    forall|q: int| 0 <= q < num_groups ==> #[trigger] elems@[q]@ == nums@.subrange(10 * q, if 10 * q + 10 < n { 10 * q + 10 } else { n as int }),
                    forall|q: int| 0 <= q < num_groups ==> fits(#[trigger] path@[q], elems@[q]@.len()),
                    sum_nat(nats(sol@)) + tail_sum(elems@, path@, k as int) == target as nat,
                    sub_multiset(sol@, nums@.subrange(0, if 10 * k < n { 10 * k } else { n as int })),
                decreases num_groups - k,
            {
                let mut part = select_u128(elems[k].as_slice(), path[k]);
                let ghost before = sol@;
                let ghost lo = if 10 * k < n { 10 * k } else { n as int };
                let ghost hi = if 10 * k + 10 < n { 10 * k + 10 } else { n as int };
                let ghost pk = part@;
                sol.append(&mut part);
                proof {
                    assert(sol@ =~= before + pk);
                    crate::model::lemma_nats_concat(before, pk);
                    crate::model::lemma_sum_nat_concat(nats(before), nats(pk));
                    crate::masks::lemma_mask_sum_nats(elems@[k as int]@, path@[k as int]);
                    crate::masks::lemma_picked_nats(elems@[k as int]@, path@[k as int]);
                    assert(10 * k < n) by (nonlinear_arith)
                        requires
                            k < num_groups,
                            num_groups == (n + 9) / 10,
                    ;
                    lemma_picked_sub(elems@[k as int]@, path@[k as int]);
                    crate::model::lemma_sub_multiset_concat(before, nums@.subrange(0, lo), pk, nums@.subrange(lo, hi));
                    assert(nums@.subrange(0, lo) + nums@.subrange(lo, hi) =~= nums@.subrange(0, if 10 * (k + 1) < n { 10 * (k + 1) } else { n as int }));
                }
                k += 1;
            }
            proof {
                assert((n + 9) / 10 * 10 >= n) by (nonlinear_arith);
                assert(nums@.subrange(0, n as int) =~= nums@);
            }
            let big = to_big(&sol);
            proof {
                lemma_u128_found(p, nums@, sol@, big@);
            }
            return Search::Found(big);
        }
        if halted {
            Search::Stopped
        } else {
            proof {
                lemma_group_vals_tail(elems@, nums@, 0);
                assert(nums@.subrange(0, n as int) =~= nums@);
                lemma_reach_iff_solvable(nats(nums@), target as nat);
            }
            Search::Done
        }
    }
}

} // verus!
