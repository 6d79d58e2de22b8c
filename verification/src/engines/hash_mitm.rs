//! Meet in the middle through hash tables on `u128` sums: two halves for
//! fewer than 36 numbers, two pairs of quarters otherwise.
use vstd::prelude::*;
use std::sync::atomic::AtomicBool;
use std::collections::HashMap;
use crate::model::{sum_nat, nats, sub_multiset, is_solution, solvable};
use crate::bignat::vals;
use crate::profile::Profile;
use crate::stop::stop_requested;
use crate::masks::{mask_sum, fits, select_u128, lemma_picked_sub};
use crate::sums::{build_sums_vec, sums_listed};
use crate::fast_hash::FastHash;
use super::{Search, to_big, lemma_u128_found};
use super::schroeppel_shamir::slice_to_vec;

verus! {

broadcast use vstd::std_specs::hash::group_hash_axioms;

/// How a meet-in-the-middle pass ended.
pub enum Meet {
    Hit(Vec<u128>),
    Miss,
    Halt,
}

/// The empty selection sums to zero.
proof fn lemma_mask_sum_zero(e: Seq<u128>)
    ensures
        mask_sum(e, 0) == 0,
{
    assert(crate::masks::mask_pick(e, 0, e.len()).len() == 0) by {
        lemma_pick_none(e, e.len());
    }
    assert(nats(crate::masks::picked(e, 0)) =~= Seq::<nat>::empty());
}

proof fn lemma_pick_none(e: Seq<u128>, k: nat)
    requires
        k <= e.len(),
    ensures
        crate::masks::mask_pick(e, 0, k).len() == 0,
    decreases k,
{
    if k > 0 {
        lemma_pick_none(e, (k - 1) as nat);
        if k - 1 < 64 {
            let jj: u64 = (k - 1) as u64;
            assert(((0u64 >> jj) & 1u64) == 0u64) by (bit_vector);
        }
        assert(!crate::masks::bit(0, (k - 1) as nat));
    }
}

/// A subset of four consecutive parts is made of one subset of each.
proof fn lemma_four_masks(sa: Seq<u128>, sb: Seq<u128>, sc: Seq<u128>, sd: Seq<u128>, t: nat)
    requires
        sa.len() < 64 && sb.len() < 64 && sc.len() < 64 && sd.len() < 64,
        solvable(nats(sa) + nats(sb) + nats(sc) + nats(sd), t),
    ensures
        exists|ma: u64, mb: u64, mc: u64, md: u64|
            fits(ma, sa.len()) && fits(mb, sb.len()) && fits(mc, sc.len()) && fits(md, sd.len()) && #[trigger] mask_sum(sa, ma)
                + #[trigger] mask_sum(sb, mb) + #[trigger] mask_sum(sc, mc) + #[trigger] mask_sum(sd, md) == t,
{
    use_split(nats(sa) + nats(sb) + nats(sc), nats(sd), t);
    let t3 = choose|t3: nat| t3 <= t && solvable(nats(sa) + nats(sb) + nats(sc), t3) && #[trigger] solvable(nats(sd), (t - t3) as nat);
    use_split(nats(sa) + nats(sb), nats(sc), t3);
    let t2 = choose|t2: nat| t2 <= t3 && solvable(nats(sa) + nats(sb), t2) && #[trigger] solvable(nats(sc), (t3 - t2) as nat);
    use_split(nats(sa), nats(sb), t2);
    let t1 = choose|t1: nat| t1 <= t2 && solvable(nats(sa), t1) && #[trigger] solvable(nats(sb), (t2 - t1) as nat);
    crate::masks::lemma_solvable_has_mask(sa, t1);
    crate::masks::lemma_solvable_has_mask(sb, (t2 - t1) as nat);
    crate::masks::lemma_solvable_has_mask(sc, (t3 - t2) as nat);
    crate::masks::lemma_solvable_has_mask(sd, (t - t3) as nat);
    let ma = choose|m: u64| fits(m, sa.len()) && #[trigger] mask_sum(sa, m) == t1;
    let mb = choose|m: u64| fits(m, sb.len()) && #[trigger] mask_sum(sb, m) == (t2 - t1) as nat;
    let mc = choose|m: u64| fits(m, sc.len()) && #[trigger] mask_sum(sc, m) == (t3 - t2) as nat;
    let md = choose|m: u64| fits(m, sd.len()) && #[trigger] mask_sum(sd, m) == (t - t3) as nat;
    assert(mask_sum(sa, ma) + mask_sum(sb, mb) + mask_sum(sc, mc) + mask_sum(sd, md) == t);
}

/// A target reachable in `a + b` splits into a part reachable in `a` and
/// the rest reachable in `b`.
proof fn use_split(a: Seq<nat>, b: Seq<nat>, t: nat)
    requires
        solvable(a + b, t),
    ensures
        exists|t1: nat| t1 <= t && solvable(a, t1) && #[trigger] solvable(b, (t - t1) as nat),
{
    super::quadrants::lemma_solvable_split(a, b, t);
    let t1 = choose|t1: nat| t1 <= t && #[trigger] crate::model::reach(a, t1) && crate::model::reach(b, (t - t1) as nat);
    crate::model::lemma_reach_iff_solvable(a, t1);
    crate::model::lemma_reach_iff_solvable(b, (t - t1) as nat);
}

/// A complete listing starts with the empty selection.
proof fn lemma_listed_zero(e: Seq<u128>, t: u128, r: Seq<(u128, u64)>)
    requires
        e.len() < 64,
        sums_listed(e, t, r),
    ensures
        r.len() > 0,
        r[0].0 == 0,
        r[0].1 == 0,
{
    crate::masks::lemma_fits_lt(0, e.len() as u64);
    let n = e.len() as u64;
    assert((0u64 >> n) == 0) by (bit_vector);
    lemma_mask_sum_zero(e);
    let i = choose|i: int| 0 <= i < r.len() && #[trigger] r[i].1 == 0;
    if i > 0 {
        assert(r[0].1 < r[i].1);
    }
}

/// The hash meet-in-the-middle engine.
pub struct HashMitmEngine;

/// Every entry of `m` maps a sum at most `target` to a mask of `e` with
/// that sum.
pub open spec fn sum_table(e: Seq<u128>, target: u128, m: Map<u128, u64>) -> bool {
    forall|k: u128|
        #[trigger] m.contains_key(k) ==> fits(m[k], e.len()) && mask_sum(e, m[k]) == k as nat && k <= target
}

/// Every subset sum of `elems` up to `target`, each with its smallest mask,
/// in a [`FastHash`].
pub fn build_fasthash(elems: &[u128], target: u128) -> (r: FastHash)
    requires
        elems.len() + 3 <= usize::BITS,
    ensures
        r.wf(),
        sum_table(elems@, target, r@),
        least_masks(elems@, target, r@),
        forall|m: u64| fits(m, elems@.len()) && #[trigger] mask_sum(elems@, m) <= target ==> r@.contains_key(
            mask_sum(elems@, m) as u128,
        ) && r@[mask_sum(elems@, m) as u128] <= m,
{
    let n = elems.len();
    let sums = build_sums_vec(elems, target);
    proof {
        lemma_sums_len_bound(elems@, target, sums@, n);
    }
    let total: usize = 1usize << n;
    let mut map = FastHash::with_capacity(total);
    let mut k: usize = 0;
    while k < sums.len()
        invariant
            k <= sums.len(),
            n == elems.len(),
            n + 3 <= usize::BITS,
            sums.len() <= usize::MAX / 4,
            map.wf(),
            map@.len() <= k,
            sums_listed(elems@, target, sums@),
            sum_table(elems@, target, map@),
            forall|j: int| 0 <= j < k ==> map@.contains_key(#[trigger] sums@[j].0),
            forall|j: int| 0 <= j < k ==> map@[#[trigger] sums@[j].0] <= sums@[j].1,
            forall|x: u128| #[trigger] map@.contains_key(x) ==> exists|j: int| 0 <= j < k && sums@[j].0 == x && #[trigger] sums@[j].1 == map@[x],
        decreases sums.len() - k,
    {
        let ghost before = map@;
        proof {
            map.lemma_finite();
        }
        map.insert(sums[k].0, sums[k].1);
        proof {
            assert forall|j: int| 0 <= j < k + 1 implies map@.contains_key(#[trigger] sums@[j].0) by {
                if j < k {
                    assert(before.contains_key(sums@[j].0));
                }
            }
            if !before.contains_key(sums@[k as int].0) {
                assert(map@.dom() == before.dom().insert(sums@[k as int].0));
            } else {
                assert(map@ == before);
            }
            assert forall|j: int| 0 <= j < k + 1 implies map@[#[trigger] sums@[j].0] <= sums@[j].1 by {
                if j < k {
                    if sums@[j].0 == sums@[k as int].0 && !before.contains_key(sums@[k as int].0) {
                        assert(before.contains_key(sums@[j].0));
                    }
                } else if before.contains_key(sums@[k as int].0) {
                    let x = sums@[k as int].0;
                    let j0 = choose|j0: int| 0 <= j0 < k && sums@[j0].0 == x && #[trigger] sums@[j0].1 == before[x];
                    assert(sums@[j0].1 < sums@[k as int].1);
                }
            }
            assert forall|x: u128| #[trigger] map@.contains_key(x) implies exists|j: int| 0 <= j < k + 1 && sums@[j].0 == x && #[trigger] sums@[j].1 == map@[x] by {
                if before.contains_key(x) {
                    let j0 = choose|j0: int| 0 <= j0 < k && sums@[j0].0 == x && #[trigger] sums@[j0].1 == before[x];
                    assert(sums@[j0].1 == map@[x]);
                } else {
                    assert(x == sums@[k as int].0);
                    assert(sums@[k as int].1 == map@[x]);
                }
            }
        }
        k += 1;
    }
    proof {
        assert forall|m: u64| fits(m, elems@.len()) && #[trigger] mask_sum(elems@, m) <= target implies map@.contains_key(
            mask_sum(elems@, m) as u128,
        ) by {
            let i = choose|i: int| 0 <= i < sums.len() && #[trigger] sums@[i].1 == m;
            assert(map@.contains_key(sums@[i].0));
            assert(map@[sums@[i].0] <= sums@[i].1);
        }
    }
    map
}

/// `m` lists every subset sum of `e` up to `target`, each with its
/// smallest mask.
pub open spec fn least_masks(e: Seq<u128>, target: u128, m: Map<u128, u64>) -> bool {
    &&& sum_table(e, target, m)
    &&& forall|x: u64|
        fits(x, e.len()) && #[trigger] mask_sum(e, x) <= target ==> m.contains_key(mask_sum(e, x) as u128) && m[mask_sum(
            e,
            x,
        ) as u128] <= x
}

/// Every subset sum of `elems` up to `target`, each with its smallest
/// mask, in a std `HashMap` (the first mask in increasing order is kept).
pub fn build_hashmap(elems: &[u128], target: u128) -> (r: HashMap<u128, u64>)
    requires
        elems.len() < 64,
    ensures
        least_masks(elems@, target, r@),
{
    let sums = build_sums_vec(elems, target);
    let mut map: HashMap<u128, u64> = HashMap::new();
    let mut k: usize = 0;
    while k < sums.len()
        invariant
            k <= sums.len(),
            elems.len() < 64,
            sums_listed(elems@, target, sums@),
            sum_table(elems@, target, map@),
            forall|j: int| 0 <= j < k ==> map@.contains_key(#[trigger] sums@[j].0),
            forall|j: int| 0 <= j < k ==> map@[#[trigger] sums@[j].0] <= sums@[j].1,
            forall|x: u128| #[trigger] map@.contains_key(x) ==> exists|j: int| 0 <= j < k && sums@[j].0 == x && #[trigger] sums@[j].1 == map@[x],
        decreases sums.len() - k,
    {
        let ghost before = map@;
        let (sm, mk) = sums[k];
        if !map.contains_key(&sm) {
            map.insert(sm, mk);
        }
        proof {
            assert forall|j: int| 0 <= j < k + 1 implies map@.contains_key(#[trigger] sums@[j].0) by {
                if j < k {
                    assert(before.contains_key(sums@[j].0));
                }
            }
            assert forall|j: int| 0 <= j < k + 1 implies map@[#[trigger] sums@[j].0] <= sums@[j].1 by {
                if j < k {
                    if sums@[j].0 == sm && !before.contains_key(sm) {
                        assert(before.contains_key(sums@[j].0));
                    }
                } else if before.contains_key(sm) {
                    let j0 = choose|j0: int| 0 <= j0 < k && sums@[j0].0 == sm && #[trigger] sums@[j0].1 == before[sm];
                    assert(sums@[j0].1 < sums@[k as int].1);
                }
            }
            assert forall|x: u128| #[trigger] map@.contains_key(x) implies exists|j: int| 0 <= j < k + 1 && sums@[j].0 == x && #[trigger] sums@[j].1 == map@[x] by {
                if before.contains_key(x) {
                    let j0 = choose|j0: int| 0 <= j0 < k && sums@[j0].0 == x && #[trigger] sums@[j0].1 == before[x];
                    assert(sums@[j0].1 == map@[x]);
                } else {
                    assert(x == sums@[k as int].0);
                    assert(sums@[k as int].1 == map@[x]);
                }
            }
            assert forall|x: u128| #[trigger] map@.contains_key(x) implies fits(map@[x], elems@.len()) && mask_sum(elems@, map@[x]) == x as nat
                && x <= target by {
                let j0 = choose|j0: int| 0 <= j0 < k + 1 && sums@[j0].0 == x && #[trigger] sums@[j0].1 == map@[x];
            }
        }
        k += 1;
    }
    proof {
        assert forall|m: u64| fits(m, elems@.len()) && #[trigger] mask_sum(elems@, m) <= target implies map@.contains_key(
            mask_sum(elems@, m) as u128,
        ) && map@[mask_sum(elems@, m) as u128] <= m by {
            let i = choose|i: int| 0 <= i < sums.len() && #[trigger] sums@[i].1 == m;
            assert(map@.contains_key(sums@[i].0));
            assert(map@[sums@[i].0] <= sums@[i].1);
        }
    }
    map
}

/// Two tables that each list every subset sum with its smallest mask are
/// the same table: the fast table and the std table agree.
pub proof fn law_tables_agree(e: Seq<u128>, target: u128, a: Map<u128, u64>, b: Map<u128, u64>)
    requires
        least_masks(e, target, a),
        least_masks(e, target, b),
    ensures
        a == b,
{
    assert forall|k: u128| a.contains_key(k) implies b.contains_key(k) && b[k] == a[k] by {
        assert(mask_sum(e, a[k]) <= target);
        assert(mask_sum(e, a[k]) as u128 == k);
        assert(mask_sum(e, b[k]) <= target);
        assert(mask_sum(e, b[k]) as u128 == k);
    }
    assert forall|k: u128| b.contains_key(k) implies a.contains_key(k) by {
        assert(mask_sum(e, b[k]) <= target);
        assert(mask_sum(e, b[k]) as u128 == k);
    }
    assert(a =~= b);
}

/// At most `2^n` subsets are listed.
proof fn lemma_sums_len_bound(e: Seq<u128>, target: u128, r: Seq<(u128, u64)>, n: usize)
    requires
        n == e.len(),
        n + 3 <= usize::BITS,
        sums_listed(e, target, r),
    ensures
        r.len() <= (1usize << n),
        (1usize << n) <= usize::MAX / 4,
{
    crate::masks::lemma_fits_lt(0, n as u64);
    assert((1usize << n) as u64 == (1u64 << (n as u64))) by (bit_vector)
        requires
            n + 3 <= usize::BITS,
    ;
    if usize::BITS == 32 {
        assert((1u64 << (n as u64)) <= 0x2000_0000) by (bit_vector)
            requires
                n <= 29,
        ;
        assert(usize::MAX == 0xffff_ffff);
    } else {
        assert((1u64 << (n as u64)) <= 0x2000_0000_0000_0000) by (bit_vector)
            requires
                n <= 61,
        ;
        assert(usize::MAX == 0xffff_ffff_ffff_ffff);
    }
    let bound = (1u64 << (n as u64)) as int;
    assert forall|i: int| 0 <= i < r.len() implies (#[trigger] r[i]).1 < bound by {
        crate::masks::lemma_fits_lt(r[i].1, n as u64);
    }
    lemma_increasing_below(r, bound);
}

/// A strictly increasing list of masks below `bound` has at most `bound`
/// entries.
proof fn lemma_increasing_below(r: Seq<(u128, u64)>, bound: int)
    requires
        bound >= 0,
        forall|i: int| 0 <= i < r.len() ==> (#[trigger] r[i]).1 < bound,
        forall|i: int, j: int| 0 <= i < j < r.len() ==> r[i].1 < r[j].1,
    ensures
        r.len() <= bound,
    decreases r.len(),
{
    if r.len() > 0 {
        assert(r[r.len() - 1].1 < bound);
        let s = r.drop_last();
        assert forall|i: int| 0 <= i < s.len() implies (#[trigger] s[i]).1 < r.last().1 by {
            assert(s[i] == r[i]);
        }
        lemma_increasing_below(s, r.last().1 as int);
    }
}

impl HashMitmEngine {
    pub fn name(&self) -> (r: &'static str)
        ensures
            r@ == "HashMITM"@,
    {
        "HashMITM"
    }

    /// For at least 20 numbers whose subset sums fit a `u128`: the
    /// quarters merge from 36 numbers on, otherwise the two halves (each
    /// of at most 22 numbers); both settle the instance.
    pub fn run(&self, p: &Profile, stop: &AtomicBool) -> (r: Search)
        requires
            p.wf(),
            !(p.n >= 36 && p.total_sum@ <= u128::MAX && p.target@ <= u128::MAX) || p.n - 3 * (p.n / 4) < 64,
        ensures
            r matches Search::Found(sol) ==> is_solution(p.values(), vals(sol@), p.target@),
            r is Found || r is Done || r is Stopped,
            p.n < 20 ==> r is Done,
            !(p.total_sum@ <= u128::MAX && p.target@ <= u128::MAX) ==> r is Done,
            r is Done && p.n >= 20 && p.total_sum@ <= u128::MAX && p.target@ <= u128::MAX ==> !solvable(p.values(), p.target@),
    {
        if p.n < 20 || !p.u128_safe() {
            return Search::Done;
        }
        let target = p.target_u128();
        let nums = p.numbers_u128();
        let n = nums.len();
        if n >= 36 {
            match self.run_4way(&nums, target, n, stop) {
                Meet::Hit(sol) => {
                    let big = to_big(&sol);
                    proof {
                        lemma_u128_found(p, nums@, sol@, big@);
                    }
                    Search::Found(big)
                },
                Meet::Miss => Search::Done,
                Meet::Halt => Search::Stopped,
            }
        } else {
            let half = if n / 2 < 22 { n / 2 } else { 22 };
            match self.run_2way(&nums, target, half, stop) {
                Meet::Hit(sol) => {
                    let big = to_big(&sol);
                    proof {
                        lemma_u128_found(p, nums@, sol@, big@);
                    }
                    Search::Found(big)
                },
                Meet::Miss => {
                    proof {
                        assert(nums@.subrange(0, n as int) =~= nums@);
                    }
                    Search::Done
                },
                Meet::Halt => Search::Stopped,
            }
        }
    }

    /// Sums of the first `half` numbers in a table; each subset of the next
    /// (at most 22) numbers looks up the rest.  A miss means that no subset
    /// of those numbers sums to the target.
    fn run_2way(&self, nums: &Vec<u128>, target: u128, half: usize, stop: &AtomicBool) -> (r: Meet)
        requires
            half <= 22,
            half <= nums.len(),
        ensures
            r matches Meet::Hit(sol) ==> sub_multiset(sol@, nums@) && sum_nat(nats(sol@)) == target as nat,
            r is Miss ==> half >= 2 && !solvable(
                nats(nums@.subrange(0, half + (if nums.len() - half < 22 { nums.len() - half } else { 22 }))),
                target as nat,
            ),
    {
        if half < 2 || stop_requested(stop) {
            return Meet::Halt;
        }
        let left = slice_to_vec(nums, 0, half);
        let left_map = build_fasthash(left.as_slice(), target);
        proof {
            crate::masks::lemma_fits_lt(0, half as u64);
            assert((0u64 >> (half as u64)) == 0) by (bit_vector);
            lemma_mask_sum_zero(left@);
            assert(left_map@.contains_key(0u128));
            left_map.lemma_finite();
            assert(left_map@.dom().remove(0u128).len() + 1 == left_map@.dom().len());
        }
        if left_map.is_empty() || stop_requested(stop) {
            return Meet::Halt;
        }
        let rn = if nums.len() - half < 22 { nums.len() - half } else { 22 };
        let right = slice_to_vec(nums, half, half + rn);
        let rsums = build_sums_vec(right.as_slice(), target);
        let mut k: usize = 0;
        while k < rsums.len()
            invariant
                k <= rsums.len(),
                left_map.wf(),
                left.len() == half,
                half <= 22,
                right.len() == rn,
                rn <= 22,
                half + rn <= nums.len(),
                left@ == nums@.subrange(0, half as int),
                right@ == nums@.subrange(half as int, half + rn),
                sum_table(left@, target, left_map@),
                forall|m: u64| fits(m, left@.len()) && #[trigger] mask_sum(left@, m) <= target ==> left_map@.contains_key(
                    mask_sum(left@, m) as u128,
                ),
                sums_listed(right@, target, rsums@),
                forall|j: int| 0 <= j < k ==> !left_map@.contains_key((target - (#[trigger] rsums@[j]).0) as u128),
            decreases rsums.len() - k,
        {
            if (k & 0xFFF) == 0 && stop_requested(stop) {
                return Meet::Halt;
            }
            let (s, mask) = rsums[k];
            match left_map.get(target - s) {
                Some(lm) => {
                    let mut sol = select_u128(left.as_slice(), lm);
                    let mut rs = select_u128(right.as_slice(), mask);
                    let ghost (pl, pr) = (sol@, rs@);
                    sol.append(&mut rs);
                    proof {
                        assert(sol@ =~= pl + pr);
                        lemma_picked_sub(left@, lm);
                        lemma_picked_sub(right@, mask);
                        crate::model::lemma_sub_multiset_concat(pl, left@, pr, right@);
                        crate::model::lemma_slice_sub(nums@, 0, half + rn);
                        assert(nums@.subrange(0, half + rn) =~= left@ + right@);
                        crate::model::lemma_sub_multiset_trans(sol@, left@ + right@, nums@);
                        crate::model::lemma_nats_concat(pl, pr);
                        crate::model::lemma_sum_nat_concat(nats(pl), nats(pr));
                    }
                    return Meet::Hit(sol);
                },
                None => {},
            }
            k += 1;
        }
        proof {
            let lv = nats(left@);
            let rv = nats(right@);
            assert(nats(nums@.subrange(0, half + rn)) =~= lv + rv);
            if solvable(lv + rv, target as nat) {
                super::quadrants::lemma_solvable_split(lv, rv, target as nat);
                let t1 = choose|t1: nat| t1 <= target && #[trigger] crate::model::reach(lv, t1) && crate::model::reach(rv, (target - t1) as nat);
                let t2 = (target - t1) as nat;
                crate::model::lemma_reach_iff_solvable(lv, t1);
                crate::model::lemma_reach_iff_solvable(rv, t2);
                crate::masks::lemma_solvable_has_mask(left@, t1);
                crate::masks::lemma_solvable_has_mask(right@, t2);
                let ml = choose|m: u64| fits(m, left@.len()) && #[trigger] mask_sum(left@, m) == t1;
                let mr = choose|m: u64| fits(m, right@.len()) && #[trigger] mask_sum(right@, m) == t2;
                let j = choose|j: int| 0 <= j < rsums.len() && #[trigger] rsums@[j].1 == mr;
                assert(left_map@.contains_key(mask_sum(left@, ml) as u128));
                assert(!left_map@.contains_key((target - rsums@[j].0) as u128));
            }
        }
        Meet::Miss
    }

    /// Sums of pairs from the first two quarters in a hash map (first pair
    /// per total); each pair from the last two quarters looks up the rest.
    /// A miss means that no subset sums to the target.
    #[verifier::rlimit(50)]
    #[verifier::spinoff_prover]
    fn run_4way(&self, nums: &Vec<u128>, target: u128, n: usize, stop: &AtomicBool) -> (r: Meet)
        requires
            n == nums.len(),
            n - 3 * (n / 4) < 64,
        ensures
            r matches Meet::Hit(sol) ==> sub_multiset(sol@, nums@) && sum_nat(nats(sol@)) == target as nat,
            r is Miss ==> !solvable(nats(nums@), target as nat),
    {
        let q = n / 4;
        let qa = slice_to_vec(nums, 0, q);
        let qb = slice_to_vec(nums, q, 2 * q);
        let qc = slice_to_vec(nums, 2 * q, 3 * q);
        let qd = slice_to_vec(nums, 3 * q, n);
        let a = build_sums_vec(qa.as_slice(), target);
        let b = build_sums_vec(qb.as_slice(), target);
        let c = build_sums_vec(qc.as_slice(), target);
        let d = build_sums_vec(qd.as_slice(), target);
        proof {
            lemma_listed_zero(qa@, target, a@);
            lemma_listed_zero(qb@, target, b@);
            lemma_listed_zero(qc@, target, c@);
            lemma_listed_zero(qd@, target, d@);
        }
        if a.len() == 0 || b.len() == 0 || c.len() == 0 || d.len() == 0 {
            return Meet::Halt;
        }
        if stop_requested(stop) {
            return Meet::Halt;
        }
        let mut left_map: HashMap<u128, (usize, usize)> = HashMap::new();
        let mut i: usize = 0;
        while i < a.len()
            invariant
                i <= a.len(),
                sums_listed(qa@, target, a@),
                sums_listed(qb@, target, b@),
                forall|k: u128|
                    #[trigger] left_map@.contains_key(k) ==> left_map@[k].0 < a.len() && left_map@[k].1 < b.len()
                        && a@[left_map@[k].0 as int].0 + b@[left_map@[k].1 as int].0 == k,
                forall|i2: int, j2: int|
                    0 <= i2 < i && 0 <= j2 < b.len() && #[trigger] a@[i2].0 + #[trigger] b@[j2].0 <= target ==> left_map@.contains_key(
                        (a@[i2].0 + b@[j2].0) as u128,
                    ),
            ensures
                i == a.len(),
                forall|k: u128|
                    #[trigger] left_map@.contains_key(k) ==> left_map@[k].0 < a.len() && left_map@[k].1 < b.len()
                        && a@[left_map@[k].0 as int].0 + b@[left_map@[k].1 as int].0 == k,
                forall|i2: int, j2: int|
                    0 <= i2 < a.len() && 0 <= j2 < b.len() && #[trigger] a@[i2].0 + #[trigger] b@[j2].0 <= target ==> left_map@.contains_key(
                        (a@[i2].0 + b@[j2].0) as u128,
                    ),
            decreases a.len() - i,
        {
            let (av, _am) = a[i];
            if av > target {
                break;
            }
            let mut j: usize = 0;
            while j < b.len()
                invariant
                    i < a.len(),
                    j <= b.len(),
                    av == a@[i as int].0,
                    sums_listed(qa@, target, a@),
                    sums_listed(qb@, target, b@),
                    forall|k: u128|
                        #[trigger] left_map@.contains_key(k) ==> left_map@[k].0 < a.len() && left_map@[k].1 < b.len()
                            && a@[left_map@[k].0 as int].0 + b@[left_map@[k].1 as int].0 == k,
                    forall|i2: int, j2: int|
                        ((0 <= i2 < i && 0 <= j2 < b.len()) || (i2 == i && 0 <= j2 < j)) && #[trigger] a@[i2].0 + #[trigger] b@[j2].0
                            <= target ==> left_map@.contains_key((a@[i2].0 + b@[j2].0) as u128),
                decreases b.len() - j,
            {
                let (bv, _bm) = b[j];
                let ghost before = left_map@;
                match av.checked_add(bv) {
                    Some(ab) => {
                        if ab <= target && !left_map.contains_key(&ab) {
                            left_map.insert(ab, (i, j));
                        }
                    },
                    None => {},
                }
                proof {
                    assert forall|k: u128| before.contains_key(k) implies left_map@.contains_key(k) by {}
                }
                if stop_requested(stop) {
                    return Meet::Halt;
                }
                j += 1;
            }
            i += 1;
        }
        proof {
            let z = (a@[0].0 + b@[0].0) as u128;
            assert(left_map@.contains_key(z));
            assert(left_map@.dom().remove(z).len() + 1 == left_map@.dom().len());
        }
        if left_map.len() == 0 {
            return Meet::Halt;
        }
        let mut x: usize = 0;
        while x < c.len()
            invariant
                x <= c.len(),
                n == nums.len(),
                q == n / 4,
                n - 3 * (n / 4) < 64,
                qa@ == nums@.subrange(0, q as int),
                qb@ == nums@.subrange(q as int, 2 * q),
                qc@ == nums@.subrange(2 * q, 3 * q),
                qd@ == nums@.subrange(3 * q, n as int),
                sums_listed(qa@, target, a@),
                sums_listed(qb@, target, b@),
                sums_listed(qc@, target, c@),
                sums_listed(qd@, target, d@),
                forall|k: u128|
                    #[trigger] left_map@.contains_key(k) ==> left_map@[k].0 < a.len() && left_map@[k].1 < b.len()
                        && a@[left_map@[k].0 as int].0 + b@[left_map@[k].1 as int].0 == k,
                forall|i2: int, j2: int|
                    0 <= i2 < a.len() && 0 <= j2 < b.len() && #[trigger] a@[i2].0 + #[trigger] b@[j2].0 <= target ==> left_map@.contains_key(
                        (a@[i2].0 + b@[j2].0) as u128,
                    ),
                forall|x2: int, y2: int|
                    0 <= x2 < x && 0 <= y2 < d.len() && #[trigger] c@[x2].0 + #[trigger] d@[y2].0 <= target ==> !left_map@.contains_key(
                        (target - (c@[x2].0 + d@[y2].0)) as u128,
                    ),
            ensures
                x == c.len(),
                forall|x2: int, y2: int|
                    0 <= x2 < c.len() && 0 <= y2 < d.len() && #[trigger] c@[x2].0 + #[trigger] d@[y2].0 <= target ==> !left_map@.contains_key(
                        (target - (c@[x2].0 + d@[y2].0)) as u128,
                    ),
            decreases c.len() - x,
        {
            let (cv, cm) = c[x];
            if cv > target {
                break;
            }
            let mut y: usize = 0;
            while y < d.len()
                invariant
                    x < c.len(),
                    y <= d.len(),
                    cv == c@[x as int].0,
                    cm == c@[x as int].1,
                    n == nums.len(),
                    q == n / 4,
                    n - 3 * (n / 4) < 64,
                    qa@ == nums@.subrange(0, q as int),
                    qb@ == nums@.subrange(q as int, 2 * q),
                    qc@ == nums@.subrange(2 * q, 3 * q),
                    qd@ == nums@.subrange(3 * q, n as int),
                    sums_listed(qa@, target, a@),
                    sums_listed(qb@, target, b@),
                    sums_listed(qc@, target, c@),
                    sums_listed(qd@, target, d@),
                    forall|k: u128|
                        #[trigger] left_map@.contains_key(k) ==> left_map@[k].0 < a.len() && left_map@[k].1 < b.len()
                            && a@[left_map@[k].0 as int].0 + b@[left_map@[k].1 as int].0 == k,
                    forall|x2: int, y2: int|
                        ((0 <= x2 < x && 0 <= y2 < d.len()) || (x2 == x && 0 <= y2 < y)) && #[trigger] c@[x2].0 + #[trigger] d@[y2].0
                            <= target ==> !left_map@.contains_key((target - (c@[x2].0 + d@[y2].0)) as u128),
                decreases d.len() - y,
            {
                let (dv, dm) = d[y];
                match cv.checked_add(dv) {
                    Some(cd) => {
                        if cd <= target {
                            if stop_requested(stop) {
                                return Meet::Halt;
                            }
                            let need = target - cd;
                            match left_map.get(&need) {
                                Some(pair) => {
                                    let (ai, bi) = *pair;
                                    let am = a[ai].1;
                                    let bm = b[bi].1;
                                    let mut sol = select_u128(qa.as_slice(), am);
                                    let mut s2 = select_u128(qb.as_slice(), bm);
                                    let mut s3 = select_u128(qc.as_slice(), cm);
                                    let mut s4 = select_u128(qd.as_slice(), dm);
                                    let ghost (g1, g2, g3, g4) = (sol@, s2@, s3@, s4@);
                                    sol.append(&mut s2);
                                    sol.append(&mut s3);
                                    sol.append(&mut s4);
                                    proof {
                                        assert(sol@ =~= ((g1 + g2) + g3) + g4);
                                        assert(nums@ =~= ((qa@ + qb@) + qc@) + qd@);
                                        lemma_picked_sub(qa@, am);
                                        lemma_picked_sub(qb@, bm);
                                        lemma_picked_sub(qc@, cm);
                                        lemma_picked_sub(qd@, dm);
                                        crate::model::lemma_sub_multiset_concat(g1, qa@, g2, qb@);
                                        crate::model::lemma_sub_multiset_concat(g1 + g2, qa@ + qb@, g3, qc@);
                                        crate::model::lemma_sub_multiset_concat((g1 + g2) + g3, (qa@ + qb@) + qc@, g4, qd@);
                                        crate::model::lemma_nats_concat(g1, g2);
                                        crate::model::lemma_nats_concat(g1 + g2, g3);
                                        crate::model::lemma_nats_concat((g1 + g2) + g3, g4);
                                        crate::model::lemma_sum_nat_concat(nats(g1), nats(g2));
                                        crate::model::lemma_sum_nat_concat(nats(g1 + g2), nats(g3));
                                        crate::model::lemma_sum_nat_concat(nats((g1 + g2) + g3), nats(g4));
                                    }
                                    return Meet::Hit(sol);
                                },
                                None => {},
                            }
                        }
                    },
                    None => {},
                }
                y += 1;
            }
            x += 1;
        }
        proof {
            assert(nums@ =~= ((qa@ + qb@) + qc@) + qd@);
            crate::model::lemma_nats_concat(qa@ + qb@ + qc@, qd@);
            crate::model::lemma_nats_concat(qa@ + qb@, qc@);
            crate::model::lemma_nats_concat(qa@, qb@);
            if solvable(nats(nums@), target as nat) {
                lemma_four_masks(qa@, qb@, qc@, qd@, target as nat);
                let (ma, mb, mc, md) = choose|ma: u64, mb: u64, mc: u64, md: u64|
                    fits(ma, qa@.len()) && fits(mb, qb@.len()) && fits(mc, qc@.len()) && fits(md, qd@.len()) && #[trigger] mask_sum(qa@, ma)
                        + #[trigger] mask_sum(qb@, mb) + #[trigger] mask_sum(qc@, mc) + #[trigger] mask_sum(qd@, md) == target as nat;
                let i2 = choose|i2: int| 0 <= i2 < a.len() && #[trigger] a@[i2].1 == ma;
                let j2 = choose|j2: int| 0 <= j2 < b.len() && #[trigger] b@[j2].1 == mb;
                let x2 = choose|x2: int| 0 <= x2 < c.len() && #[trigger] c@[x2].1 == mc;
                let y2 = choose|y2: int| 0 <= y2 < d.len() && #[trigger] d@[y2].1 == md;
                assert(left_map@.contains_key((a@[i2].0 + b@[j2].0) as u128));
                assert(!left_map@.contains_key((target - (c@[x2].0 + d@[y2].0)) as u128));
            }
        }
        Meet::Miss
    }
}

} // verus!
