//! Schroeppel–Shamir four-list merge: the sorted subset sums of four
//! quarters are walked with a min-heap over A+B and a max-heap over C+D.
use vstd::prelude::*;
use std::sync::atomic::AtomicBool;
use crate::model::{nats, sum_nat, reach, lemma_reach_iff_solvable};
use crate::engines::quadrants::lemma_solvable_split;
use crate::bignat::{BigNat, vals};
use crate::profile::Profile;
use crate::stop::stop_requested;
use crate::masks::{fits, mask_sum, nat_mask_sum, picked, select_u128, lemma_picked_sub};
use crate::sums::build_sums_u128;
use crate::heap::{HeapU128, HeapBig};
use crate::masks::select_big;
use crate::sums::build_sums_big;
use crate::bignat::{big_add, big_le, big_eq};
use super::copy_range;
use super::{Search, sound, to_big};

verus! {

broadcast use vstd::seq_lib::group_to_multiset_ensures, vstd::multiset::group_multiset_axioms;

/// The Schroeppel–Shamir engine.
pub struct SchroeppelShamirEngine;

/// Quarter sizes: balanced, with room made in the last quarter for the
/// elements above a quarter of the target.  Returns `(a, b, c, d)`; the
/// last quarter is never empty, so the sizes add up to `n` when `n > 0`.
pub fn adaptive_split(n: usize, nums: &[u128], target: u128) -> (r: (usize, usize, usize, usize))
    requires
        n <= usize::MAX / 4,
    ensures
        r.0 + r.1 + r.2 + r.3 == (if n == 0 { 1 } else { n as int }),
        r.3 >= 1,
        16 <= n <= 70 ==> r.0 <= 28 && r.1 <= 28 && r.2 <= 28 && r.3 <= 28,
{
    let q = n / 4;
    let rem = n - 3 * q;
    let mut qa = q;
    let mut qb = q;
    let mut qc = q;
    let mut qd = if rem > 1 { rem } else { 1 };
    if qa > 28 || qb > 28 || qc > 28 || qd > 28 {
        let mx1 = if qa > qb { qa } else { qb };
        let mx2 = if mx1 > qc { mx1 } else { qc };
        let mx = if mx2 > qd { mx2 } else { qd };
        let excess = if mx > 26 { mx - 26 } else { 0 };
        if qc > qd + excess {
            qc = qc - excess;
            qd = qd + excess;
        } else if qb > qa + excess {
            qb = qb - excess;
            qa = qa + excess;
        }
    }
    let big_threshold = target / 4;
    let mut big_count: usize = 0;
    let mut i: usize = 0;
    while i < nums.len()
        invariant
            i <= nums.len(),
            big_count <= i,
        decreases nums.len() - i,
    {
        if nums[i] > big_threshold {
            big_count += 1;
        }
        i += 1;
    }
    if big_count > q + qd && qd < 28 {
        let over = big_count - (q + qd);
        let room = 28 - qd;
        let spare = if qc > 4 { qc - 4 } else { 0 };
        let t1 = if over < room { over } else { room };
        let transfer = if t1 < spare { t1 } else { spare };
        let take = if transfer < spare { transfer } else { spare };
        qc = qc - take;
        qd = qd + transfer;
    }
    (qa, qb, qc, qd)
}

/// `x = (s, i, j)` names `a[i] + b[j] = s`.
pub open spec fn pair_ok(a: Seq<(u128, u64)>, b: Seq<(u128, u64)>, x: (u128, u32, u32)) -> bool {
    &&& (x.1 as int) < a.len()
    &&& (x.2 as int) < b.len()
    &&& x.0 as nat == a[x.1 as int].0 + b[x.2 as int].0
}

/// `x = (s, i, j)` names `a[i] + b[j] = s` for big sums.
pub open spec fn pair_ok_big(a: Seq<(BigNat, u64)>, b: Seq<(BigNat, u64)>, x: (nat, u32, u32)) -> bool {
    &&& (x.1 as int) < a.len()
    &&& (x.2 as int) < b.len()
    &&& x.0 == a[x.1 as int].0@ + b[x.2 as int].0@
}

/// Every subset sum of a sublist is at most that sublist's total.
pub proof fn lemma_mask_sum_le(e: Seq<u128>, m: u64)
    ensures
        mask_sum(e, m) <= sum_nat(nats(e)),
{
    lemma_picked_sub(e, m);
    crate::model::lemma_nats_sub(picked(e, m), e);
    crate::model::lemma_sub_multiset_sum_le(nats(picked(e, m)), nats(e));
}

/// Entries `i, j, k, l` of the four sum lists add up to `t`.
pub open spec fn quad_hit(
    av: Seq<(u128, u64)>,
    bv: Seq<(u128, u64)>,
    cv: Seq<(u128, u64)>,
    dv: Seq<(u128, u64)>,
    t: u128,
    i: int,
    j: int,
    k: int,
    l: int,
) -> bool {
    &&& 0 <= i < av.len() && 0 <= j < bv.len() && 0 <= k < cv.len() && 0 <= l < dv.len()
    &&& av[i].0 + bv[j].0 + cv[k].0 + dv[l].0 == t
}

/// The pair `(i, j)` of the first two lists is in no hit.
pub open spec fn ab_dead(av: Seq<(u128, u64)>, bv: Seq<(u128, u64)>, cv: Seq<(u128, u64)>, dv: Seq<(u128, u64)>, t: u128, i: int, j: int) -> bool {
    forall|k: int, l: int| !#[trigger] quad_hit(av, bv, cv, dv, t, i, j, k, l)
}

/// The pair `(k, l)` of the last two lists is in no hit.
pub open spec fn cd_dead(av: Seq<(u128, u64)>, bv: Seq<(u128, u64)>, cv: Seq<(u128, u64)>, dv: Seq<(u128, u64)>, t: u128, k: int, l: int) -> bool {
    forall|i: int, j: int| !#[trigger] quad_hit(av, bv, cv, dv, t, i, j, k, l)
}

/// What is left of the first-list positions above the frontiers `fa`.
pub open spec fn pot_ab(fa: Seq<int>, la: int) -> int
    decreases fa.len(),
{
    if fa.len() == 0 {
        0
    } else {
        pot_ab(fa.drop_last(), la) + (la - fa.last())
    }
}

/// What is left of the third-list positions up to the frontiers `fc`.
pub open spec fn pot_cd(fc: Seq<int>) -> int
    decreases fc.len(),
{
    if fc.len() == 0 {
        0
    } else {
        pot_cd(fc.drop_last()) + (fc.last() + 1)
    }
}

proof fn lemma_pot_ab_update(fa: Seq<int>, la: int, j: int, v: int)
    requires
        0 <= j < fa.len(),
    ensures
        pot_ab(fa.update(j, v), la) == pot_ab(fa, la) - (v - fa[j]),
    decreases fa.len(),
{
    if j < fa.len() - 1 {
        assert(fa.update(j, v).drop_last() =~= fa.drop_last().update(j, v));
        lemma_pot_ab_update(fa.drop_last(), la, j, v);
    } else {
        assert(fa.update(j, v).drop_last() =~= fa.drop_last());
    }
}

proof fn lemma_pot_cd_update(fc: Seq<int>, l: int, v: int)
    requires
        0 <= l < fc.len(),
    ensures
        pot_cd(fc.update(l, v)) == pot_cd(fc) + (v - fc[l]),
    decreases fc.len(),
{
    if l < fc.len() - 1 {
        assert(fc.update(l, v).drop_last() =~= fc.drop_last().update(l, v));
        lemma_pot_cd_update(fc.drop_last(), l, v);
    } else {
        assert(fc.update(l, v).drop_last() =~= fc.drop_last());
    }
}

proof fn lemma_pot_ab_nonneg(fa: Seq<int>, la: int)
    requires
        forall|j: int| 0 <= j < fa.len() ==> #[trigger] fa[j] <= la,
    ensures
        pot_ab(fa, la) >= 0,
    decreases fa.len(),
{
    if fa.len() > 0 {
        lemma_pot_ab_nonneg(fa.drop_last(), la);
    }
}

proof fn lemma_pot_cd_nonneg(fc: Seq<int>)
    requires
        forall|l: int| 0 <= l < fc.len() ==> #[trigger] fc[l] >= -1,
    ensures
        pot_cd(fc) >= 0,
    decreases fc.len(),
{
    if fc.len() > 0 {
        lemma_pot_cd_nonneg(fc.drop_last());
    }
}

proof fn lemma_pot_const(n: nat, x: int, la: int)
    ensures
        pot_ab(Seq::new(n, |j: int| x), la) == n * (la - x),
        pot_cd(Seq::new(n, |j: int| x)) == n * (x + 1),
    decreases n,
{
    let s = Seq::new(n, |j: int| x);
    if n > 0 {
        lemma_pot_const((n - 1) as nat, x, la);
        assert(s.drop_last() =~= Seq::new((n - 1) as nat, |j: int| x));
        assert(s.last() == x);
        assert(n * (la - x) == (n - 1) * (la - x) + (la - x)) by (nonlinear_arith);
        assert(n * (x + 1) == (n - 1) * (x + 1) + (x + 1)) by (nonlinear_arith);
    } else {
        assert(n * (la - x) == 0) by (nonlinear_arith)
            requires
                n == 0,
        ;
        assert(n * (x + 1) == 0) by (nonlinear_arith)
            requires
                n == 0,
        ;
    }
}

/// A list of pairs with distinct masks below `bound` has at most `bound`
/// entries.
proof fn lemma_distinct_masks_bound<T>(r: Seq<(T, u64)>, bound: int)
    requires
        bound >= 0,
        forall|i: int| 0 <= i < r.len() ==> (#[trigger] r[i]).1 < bound,
        forall|i: int, j: int| 0 <= i < j < r.len() ==> r[i].1 != r[j].1,
    ensures
        r.len() <= bound,
{
    let ms = r.map_values(|x: (T, u64)| x.1 as int);
    assert(ms.no_duplicates()) by {
        assert forall|i: int, j: int| 0 <= i < ms.len() && 0 <= j < ms.len() && i != j implies ms[i] != ms[j] by {
            if i < j {
                assert(r[i].1 != r[j].1);
            } else {
                assert(r[j].1 != r[i].1);
            }
        }
    }
    ms.unique_seq_to_set();
    assert(ms.to_set().subset_of(vstd::set_lib::set_int_range(0, bound))) by {
        assert forall|x: int| ms.to_set().contains(x) implies vstd::set_lib::set_int_range(0, bound).contains(x) by {
            let i = choose|i: int| 0 <= i < ms.len() && ms[i] == x;
            assert(r[i].1 < bound);
        }
    }
    vstd::set_lib::lemma_int_range(0, bound);
    vstd::set_lib::lemma_len_subset(ms.to_set(), vstd::set_lib::set_int_range(0, bound));
}

/// The empty selection sums to zero.
pub(crate) proof fn lemma_mask_zero(e: Seq<u128>)
    ensures
        mask_sum(e, 0) == 0,
{
    crate::masks::lemma_mask_sum_nats(e, 0);
    lemma_mask_sum_le(e, 0);
    assert(crate::masks::picked(e, 0).len() == 0) by {
        lemma_picked_zero(e, e.len());
    }
    assert(nats(crate::masks::picked(e, 0)) =~= Seq::<nat>::empty());
}

proof fn lemma_picked_zero(e: Seq<u128>, k: nat)
    requires
        k <= e.len(),
    ensures
        crate::masks::mask_pick(e, 0, k).len() == 0,
    decreases k,
{
    if k > 0 {
        lemma_picked_zero(e, (k - 1) as nat);
        if k - 1 < 64 {
            let jj: u64 = (k - 1) as u64;
            assert(((0u64 >> jj) & 1u64) == 0u64) by (bit_vector);
        }
        assert(!crate::masks::bit(0, (k - 1) as nat));
    }
}

/// A complete sum list of at most 31 numbers fits the merge's indices.
proof fn lemma_sums_bound(e: Seq<u128>, t: u128, r: Seq<(u128, u64)>)
    requires
        e.len() <= 31,
        crate::sums::sums_by_value(e, t, r),
    ensures
        r.len() <= 0x8000_0000,
        r.len() > 0,
{
    let n = e.len() as u64;
    assert((1u64 << n) <= 0x8000_0000 && (1u64 << n) > 0) by (bit_vector)
        requires
            n <= 31,
    ;
    assert forall|i: int| 0 <= i < r.len() implies (#[trigger] r[i]).1 < (1u64 << n) by {
        crate::masks::lemma_fits_lt(r[i].1, n);
    }
    lemma_distinct_masks_bound(r, (1u64 << n) as int);
    crate::masks::lemma_fits_zero();
    lemma_mask_zero(e);
    crate::masks::lemma_fits_lt(0, n);
}

/// A subset of four quarters is made of one subset of each, so a
/// reachable target shows up as a hit of the four complete sum lists.
proof fn lemma_quad_from_solvable(
    sa: Seq<u128>,
    sb: Seq<u128>,
    sc: Seq<u128>,
    sd: Seq<u128>,
    t: u128,
    av: Seq<(u128, u64)>,
    bv: Seq<(u128, u64)>,
    cv: Seq<(u128, u64)>,
    dv: Seq<(u128, u64)>,
)
    requires
        sa.len() < 64 && sb.len() < 64 && sc.len() < 64 && sd.len() < 64,
        crate::sums::sums_by_value(sa, t, av),
        crate::sums::sums_by_value(sb, t, bv),
        crate::sums::sums_by_value(sc, t, cv),
        crate::sums::sums_by_value(sd, t, dv),
        crate::model::solvable(nats(sa) + nats(sb) + nats(sc) + nats(sd), t as nat),
    ensures
        exists|i: int, j: int, k: int, l: int| #[trigger] quad_hit(av, bv, cv, dv, t, i, j, k, l),
{
    let x3 = nats(sa) + nats(sb) + nats(sc);
    lemma_solvable_split(x3, nats(sd), t as nat);
    let t3 = choose|t3: nat| t3 <= t && #[trigger] reach(x3, t3) && reach(nats(sd), (t - t3) as nat);
    let td = (t - t3) as nat;
    lemma_reach_iff_solvable(x3, t3);
    lemma_reach_iff_solvable(nats(sd), td);
    let x2 = nats(sa) + nats(sb);
    lemma_solvable_split(x2, nats(sc), t3);
    let t2 = choose|t2: nat| t2 <= t3 && #[trigger] reach(x2, t2) && reach(nats(sc), (t3 - t2) as nat);
    let tc = (t3 - t2) as nat;
    lemma_reach_iff_solvable(x2, t2);
    lemma_reach_iff_solvable(nats(sc), tc);
    lemma_solvable_split(nats(sa), nats(sb), t2);
    let ta = choose|ta: nat| ta <= t2 && #[trigger] reach(nats(sa), ta) && reach(nats(sb), (t2 - ta) as nat);
    let tb = (t2 - ta) as nat;
    lemma_reach_iff_solvable(nats(sa), ta);
    lemma_reach_iff_solvable(nats(sb), tb);
    crate::masks::lemma_solvable_has_mask(sa, ta);
    crate::masks::lemma_solvable_has_mask(sb, tb);
    crate::masks::lemma_solvable_has_mask(sc, tc);
    crate::masks::lemma_solvable_has_mask(sd, td);
    let ma = choose|m: u64| fits(m, sa.len()) && #[trigger] mask_sum(sa, m) == ta;
    let mb = choose|m: u64| fits(m, sb.len()) && #[trigger] mask_sum(sb, m) == tb;
    let mc = choose|m: u64| fits(m, sc.len()) && #[trigger] mask_sum(sc, m) == tc;
    let md = choose|m: u64| fits(m, sd.len()) && #[trigger] mask_sum(sd, m) == td;
    let i = choose|i: int| 0 <= i < av.len() && #[trigger] av[i].1 == ma;
    let j = choose|j: int| 0 <= j < bv.len() && #[trigger] bv[j].1 == mb;
    let k = choose|k: int| 0 <= k < cv.len() && #[trigger] cv[k].1 == mc;
    let l = choose|l: int| 0 <= l < dv.len() && #[trigger] dv[l].1 == md;
    assert(quad_hit(av, bv, cv, dv, t, i, j, k, l));
}

/// The complete, ordered sum list of the values `e` (as `build_sums_big`
/// makes it).
pub open spec fn big_sums_ok(e: Seq<nat>, t: nat, r: Seq<(BigNat, u64)>) -> bool {
    &&& forall|i: int| 0 <= i < r.len() ==> fits(#[trigger] r[i].1, e.len()) && r[i].0@ == nat_mask_sum(e, r[i].1) && r[i].0@ <= t
    &&& forall|i: int, j: int| 0 <= i < j < r.len() ==> r[i].0@ <= r[j].0@
    &&& forall|i: int, j: int| 0 <= i < j < r.len() ==> r[i].1 != r[j].1
    &&& forall|m: u64| fits(m, e.len()) && #[trigger] nat_mask_sum(e, m) <= t ==> exists|i: int| 0 <= i < r.len() && #[trigger] r[i].1 == m
}

/// Entries `i, j, k, l` of the four big sum lists add up to `t`.
pub open spec fn quad_hit_big(
    av: Seq<(BigNat, u64)>,
    bv: Seq<(BigNat, u64)>,
    cv: Seq<(BigNat, u64)>,
    dv: Seq<(BigNat, u64)>,
    t: nat,
    i: int,
    j: int,
    k: int,
    l: int,
) -> bool {
    &&& 0 <= i < av.len() && 0 <= j < bv.len() && 0 <= k < cv.len() && 0 <= l < dv.len()
    &&& av[i].0@ + bv[j].0@ + cv[k].0@ + dv[l].0@ == t
}

pub open spec fn ab_dead_big(av: Seq<(BigNat, u64)>, bv: Seq<(BigNat, u64)>, cv: Seq<(BigNat, u64)>, dv: Seq<(BigNat, u64)>, t: nat, i: int, j: int) -> bool {
    forall|k: int, l: int| !#[trigger] quad_hit_big(av, bv, cv, dv, t, i, j, k, l)
}

pub open spec fn cd_dead_big(av: Seq<(BigNat, u64)>, bv: Seq<(BigNat, u64)>, cv: Seq<(BigNat, u64)>, dv: Seq<(BigNat, u64)>, t: nat, k: int, l: int) -> bool {
    forall|i: int, j: int| !#[trigger] quad_hit_big(av, bv, cv, dv, t, i, j, k, l)
}

proof fn lemma_nat_mask_zero(e: Seq<nat>)
    ensures
        nat_mask_sum(e, 0) == 0,
{
    assert(crate::masks::picked(e, 0).len() == 0) by {
        lemma_picked_zero_nat(e, e.len());
    }
    assert(crate::masks::picked(e, 0) =~= Seq::<nat>::empty());
}

proof fn lemma_picked_zero_nat(e: Seq<nat>, k: nat)
    requires
        k <= e.len(),
    ensures
        crate::masks::mask_pick(e, 0, k).len() == 0,
    decreases k,
{
    if k > 0 {
        lemma_picked_zero_nat(e, (k - 1) as nat);
        if k - 1 < 64 {
            let jj: u64 = (k - 1) as u64;
            assert(((0u64 >> jj) & 1u64) == 0u64) by (bit_vector);
        }
        assert(!crate::masks::bit(0, (k - 1) as nat));
    }
}

/// A complete big sum list of at most 31 numbers fits the merge's indices.
proof fn lemma_big_sums_bound(e: Seq<nat>, t: nat, r: Seq<(BigNat, u64)>)
    requires
        e.len() <= 31,
        big_sums_ok(e, t, r),
    ensures
        r.len() <= 0x8000_0000,
        r.len() > 0,
{
    let n = e.len() as u64;
    assert((1u64 << n) <= 0x8000_0000 && (1u64 << n) > 0) by (bit_vector)
        requires
            n <= 31,
    ;
    assert forall|i: int| 0 <= i < r.len() implies (#[trigger] r[i]).1 < (1u64 << n) by {
        crate::masks::lemma_fits_lt(r[i].1, n);
    }
    lemma_distinct_masks_bound(r, (1u64 << n) as int);
    lemma_nat_mask_zero(e);
    crate::masks::lemma_fits_lt(0, n);
}

proof fn lemma_quad_from_solvable_big(
    sa: Seq<nat>,
    sb: Seq<nat>,
    sc: Seq<nat>,
    sd: Seq<nat>,
    t: nat,
    av: Seq<(BigNat, u64)>,
    bv: Seq<(BigNat, u64)>,
    cv: Seq<(BigNat, u64)>,
    dv: Seq<(BigNat, u64)>,
)
    requires
        sa.len() < 64 && sb.len() < 64 && sc.len() < 64 && sd.len() < 64,
        big_sums_ok(sa, t, av),
        big_sums_ok(sb, t, bv),
        big_sums_ok(sc, t, cv),
        big_sums_ok(sd, t, dv),
        crate::model::solvable(sa + sb + sc + sd, t),
    ensures
        exists|i: int, j: int, k: int, l: int| #[trigger] quad_hit_big(av, bv, cv, dv, t, i, j, k, l),
{
    let x3 = sa + sb + sc;
    lemma_solvable_split(x3, sd, t);
    let t3 = choose|t3: nat| t3 <= t && #[trigger] reach(x3, t3) && reach(sd, (t - t3) as nat);
    let td = (t - t3) as nat;
    lemma_reach_iff_solvable(x3, t3);
    lemma_reach_iff_solvable(sd, td);
    let x2 = sa + sb;
    lemma_solvable_split(x2, sc, t3);
    let t2 = choose|t2: nat| t2 <= t3 && #[trigger] reach(x2, t2) && reach(sc, (t3 - t2) as nat);
    let tc = (t3 - t2) as nat;
    lemma_reach_iff_solvable(x2, t2);
    lemma_reach_iff_solvable(sc, tc);
    lemma_solvable_split(sa, sb, t2);
    let ta = choose|ta: nat| ta <= t2 && #[trigger] reach(sa, ta) && reach(sb, (t2 - ta) as nat);
    let tb = (t2 - ta) as nat;
    lemma_reach_iff_solvable(sa, ta);
    lemma_reach_iff_solvable(sb, tb);
    crate::masks::lemma_solvable_has_mask_nat(sa, ta);
    crate::masks::lemma_solvable_has_mask_nat(sb, tb);
    crate::masks::lemma_solvable_has_mask_nat(sc, tc);
    crate::masks::lemma_solvable_has_mask_nat(sd, td);
    let ma = choose|m: u64| fits(m, sa.len()) && #[trigger] nat_mask_sum(sa, m) == ta;
    let mb = choose|m: u64| fits(m, sb.len()) && #[trigger] nat_mask_sum(sb, m) == tb;
    let mc = choose|m: u64| fits(m, sc.len()) && #[trigger] nat_mask_sum(sc, m) == tc;
    let md = choose|m: u64| fits(m, sd.len()) && #[trigger] nat_mask_sum(sd, m) == td;
    let i = choose|i: int| 0 <= i < av.len() && #[trigger] av[i].1 == ma;
    let j = choose|j: int| 0 <= j < bv.len() && #[trigger] bv[j].1 == mb;
    let k = choose|k: int| 0 <= k < cv.len() && #[trigger] cv[k].1 == mc;
    let l = choose|l: int| 0 <= l < dv.len() && #[trigger] dv[l].1 == md;
    assert(quad_hit_big(av, bv, cv, dv, t, i, j, k, l));
}

impl SchroeppelShamirEngine {
    pub fn name(&self) -> (r: &'static str)
        ensures
            r@ == "Schroeppel-Shamir"@,
    {
        "Schroeppel-Shamir"
    }

    /// Runs the merge for 16 to 70 numbers: on `u128` sums when they fit,
    /// else on big sums.  Inside that window it ends without a subset only
    /// when no subset sums to the target.
    pub fn run(&self, p: &Profile, stop: &AtomicBool) -> (r: Search)
        requires
            p.wf(),
        ensures
            sound(p, &r),
            r is Found || r is Done || r is Stopped,
            (p.n < 16 || p.n > 70) ==> r is Done,
            r is Done && 16 <= p.n <= 70 ==> !crate::model::solvable(p.values(), p.target@),
    {
        if p.n < 16 || p.n > 70 {
            return Search::Done;
        }
        if stop_requested(stop) {
            return Search::Stopped;
        }
        if p.u128_safe() {
            self.run_u128(p, stop)
        } else {
            self.run_biguint(p, stop)
        }
    }

    /// The big-number merge: quarters of `n / 4` on the sorted numbers.
    #[verifier::rlimit(50)]
    #[verifier::spinoff_prover]
    fn run_biguint(&self, p: &Profile, stop: &AtomicBool) -> (r: Search)
        requires
            p.wf(),
            16 <= p.n <= 70,
        ensures
            sound(p, &r),
            r is Found || r is Done || r is Stopped,
            r is Done ==> !crate::model::solvable(p.values(), p.target@),
    {
        let n = p.n;
        let target = &p.target;
        let nums = crate::sort::sort_asc(&p.numbers);
        proof {
            assert(vals(nums@).len() == vals(nums@).to_multiset().len());
            assert(p.values().len() == p.values().to_multiset().len());
            assert(nums.len() == n);
        }
        let q = n / 4;
        let qa = copy_range(&nums, 0, q);
        let qb = copy_range(&nums, q, 2 * q);
        let qc = copy_range(&nums, 2 * q, 3 * q);
        let qd = copy_range(&nums, 3 * q, n);
        proof {
            assert(qd.len() <= 31);
        }
        if qd.len() > 31 {
            return Search::Done;
        }
        let ghost (sa, sb, sc, sd) = (vals(qa@), vals(qb@), vals(qc@), vals(qd@));
        proof {
            assert(vals(nums@) =~= sa + sb + sc + sd);
        }
        let a_sums = build_sums_big(qa.as_slice(), target);
        if stop_requested(stop) {
            return Search::Stopped;
        }
        let b_sums = build_sums_big(qb.as_slice(), target);
        if stop_requested(stop) {
            return Search::Stopped;
        }
        let c_sums = build_sums_big(qc.as_slice(), target);
        if stop_requested(stop) {
            return Search::Stopped;
        }
        let d_sums = build_sums_big(qd.as_slice(), target);
        if stop_requested(stop) {
            return Search::Stopped;
        }
        let ghost (av, bv, cv, dv) = (a_sums@, b_sums@, c_sums@, d_sums@);
        let ghost t = target@;
        proof {
            assert(big_sums_ok(sa, t, av));
            assert(big_sums_ok(sb, t, bv));
            assert(big_sums_ok(sc, t, cv));
            assert(big_sums_ok(sd, t, dv));
            lemma_big_sums_bound(sa, t, av);
            lemma_big_sums_bound(sb, t, bv);
            lemma_big_sums_bound(sc, t, cv);
            lemma_big_sums_bound(sd, t, dv);
        }
        if a_sums.len() == 0 || b_sums.len() == 0 || c_sums.len() == 0 || d_sums.len() == 0 {
            return Search::Done;
        }
        if a_sums.len() > 0xFFFF_FFFF || b_sums.len() > 0xFFFF_FFFF || c_sums.len() > 0xFFFF_FFFF
            || d_sums.len() > 0xFFFF_FFFF {
            return Search::Done;
        }
        let ghost la = a_sums.len() as int;
        let ghost lb = b_sums.len() as int;
        let ghost lc = c_sums.len() as int;
        let ghost ld = d_sums.len() as int;
        let ghost mut fa: Seq<int> = Seq::new(lb as nat, |j: int| 0int);
        let ghost mut fc: Seq<int> = Seq::new(ld as nat, |l: int| lc - 1);
        let mut min_heap = HeapBig::new(false);
        let mut j: usize = 0;
        while j < b_sums.len()
            invariant
                j <= b_sums.len(),
                a_sums.len() > 0,
                b_sums.len() <= 0xFFFF_FFFF,
                a_sums@ == av,
                b_sums@ == bv,
                t == target@,
                min_heap.wf(),
                !min_heap.is_max(),
                forall|y: (nat, u32, u32)| #[trigger] min_heap@.contains(y) ==> pair_ok_big(av, bv, y) && y.1 == 0 && (y.2 as int) < j,
                forall|y: (nat, u32, u32)| min_heap@.to_multiset().count(y) <= 1,
                forall|c: int|
                    0 <= c < j && av[0].0@ + bv[c].0@ <= t ==> #[trigger] min_heap@.contains((av[0].0@ + bv[c].0@, 0u32, c as u32)),
            decreases b_sums.len() - j,
        {
            let s = big_add(&a_sums[0].0, &b_sums[j].0);
            if big_le(&s, target) {
                let ghost before = min_heap@;
                let ghost sv = s@;
                min_heap.push(s, 0, j as u32);
                proof {
                    assert(!before.contains((sv, 0u32, j as u32)));
                    assert(before.to_multiset().count((sv, 0u32, j as u32)) == 0);
                    assert forall|y: (nat, u32, u32)| min_heap@.to_multiset().count(y) <= 1 by {
                        if y != (sv, 0u32, j as u32) {
                            assert(min_heap@.to_multiset().count(y) == before.to_multiset().count(y));
                        }
                    }
                    assert forall|y: (nat, u32, u32)| #[trigger] min_heap@.contains(y) implies pair_ok_big(av, bv, y) && y.1 == 0 && (y.2 as int) < j + 1 by {
                        assert(min_heap@.to_multiset().count(y) > 0);
                        if y != (sv, 0u32, j as u32) {
                            assert(before.to_multiset().count(y) > 0);
                            assert(before.contains(y));
                        }
                    }
                    assert forall|c: int|
                        0 <= c < j + 1 && av[0].0@ + bv[c].0@ <= t implies #[trigger] min_heap@.contains((av[0].0@ + bv[c].0@, 0u32, c as u32)) by {
                        let y = (av[0].0@ + bv[c].0@, 0u32, c as u32);
                        if c < j {
                            assert(before.contains(y));
                            assert(before.to_multiset().count(y) > 0);
                        }
                        assert(min_heap@.to_multiset().count(y) > 0);
                    }
                }
            }
            j += 1;
        }
        let last_c = c_sums.len() - 1;
        let mut max_heap = HeapBig::new(true);
        let mut k: usize = 0;
        while k < d_sums.len()
            invariant
                k <= d_sums.len(),
                last_c == c_sums.len() - 1,
                c_sums.len() <= 0xFFFF_FFFF,
                d_sums.len() <= 0xFFFF_FFFF,
                c_sums@ == cv,
                d_sums@ == dv,
                max_heap.wf(),
                max_heap.is_max(),
                forall|y: (nat, u32, u32)| #[trigger] max_heap@.contains(y) ==> pair_ok_big(cv, dv, y) && y.1 == last_c && (y.2 as int) < k,
                forall|y: (nat, u32, u32)| max_heap@.to_multiset().count(y) <= 1,
                forall|c: int| 0 <= c < k ==> #[trigger] max_heap@.contains((cv[last_c as int].0@ + dv[c].0@, last_c as u32, c as u32)),
            decreases d_sums.len() - k,
        {
            let s = big_add(&c_sums[last_c].0, &d_sums[k].0);
            let ghost before = max_heap@;
            let ghost sv = s@;
            max_heap.push(s, last_c as u32, k as u32);
            proof {
                assert(!before.contains((sv, last_c as u32, k as u32)));
                assert(before.to_multiset().count((sv, last_c as u32, k as u32)) == 0);
                assert forall|y: (nat, u32, u32)| max_heap@.to_multiset().count(y) <= 1 by {
                    if y != (sv, last_c as u32, k as u32) {
                        assert(max_heap@.to_multiset().count(y) == before.to_multiset().count(y));
                    }
                }
                assert forall|y: (nat, u32, u32)| #[trigger] max_heap@.contains(y) implies pair_ok_big(cv, dv, y) && y.1 == last_c && (y.2 as int) < k + 1 by {
                    assert(max_heap@.to_multiset().count(y) > 0);
                    if y != (sv, last_c as u32, k as u32) {
                        assert(before.to_multiset().count(y) > 0);
                        assert(before.contains(y));
                    }
                }
                assert forall|c: int| 0 <= c < k + 1 implies #[trigger] max_heap@.contains((cv[last_c as int].0@ + dv[c].0@, last_c as u32, c as u32)) by {
                    let y = (cv[last_c as int].0@ + dv[c].0@, last_c as u32, c as u32);
                    if c < k {
                        assert(before.contains(y));
                        assert(before.to_multiset().count(y) > 0);
                    }
                    assert(max_heap@.to_multiset().count(y) > 0);
                }
            }
            k += 1;
        }
        let la128 = a_sums.len() as u128;
        let lb128 = b_sums.len() as u128;
        let lc128 = c_sums.len() as u128;
        let ld128 = d_sums.len() as u128;
        assert(la128 * lb128 <= 0xFFFF_FFFF * 0xFFFF_FFFF) by (nonlinear_arith)
            requires la128 <= 0xFFFF_FFFF, lb128 <= 0xFFFF_FFFF;
        assert(lc128 * ld128 <= 0xFFFF_FFFF * 0xFFFF_FFFF) by (nonlinear_arith)
            requires lc128 <= 0xFFFF_FFFF, ld128 <= 0xFFFF_FFFF;
        let limit: u128 = la128 * lb128 + lc128 * ld128 + 1;
        let mut ops: u128 = 0;
        let mut found: Option<(u32, u32, u32, u32)> = None;
        proof {
            lemma_pot_const(lb as nat, 0, la);
            lemma_pot_const(ld as nat, lc - 1, la);
            assert(lb * (la - 0) == la * lb) by (nonlinear_arith);
            assert(ld * (lc - 1 + 1) == lc * ld) by (nonlinear_arith);
        }
        while !min_heap.is_empty() && !max_heap.is_empty() && ops < limit
            invariant_except_break
                ops + pot_ab(fa, la) + pot_cd(fc) == la * lb + lc * ld,
            invariant
                a_sums@ == av,
                b_sums@ == bv,
                c_sums@ == cv,
                d_sums@ == dv,
                t == target@,
                la == av.len(),
                lb == bv.len(),
                lc == cv.len(),
                ld == dv.len(),
                0 < la <= 0xFFFF_FFFF,
                0 < lb <= 0xFFFF_FFFF,
                0 < lc <= 0xFFFF_FFFF,
                0 < ld <= 0xFFFF_FFFF,
                limit == la * lb + lc * ld + 1,
                big_sums_ok(sa, t, av),
                big_sums_ok(sb, t, bv),
                big_sums_ok(sc, t, cv),
                big_sums_ok(sd, t, dv),
                min_heap.wf(),
                max_heap.wf(),
                !min_heap.is_max(),
                max_heap.is_max(),
                fa.len() == lb,
                fc.len() == ld,
                forall|c: int| 0 <= c < lb ==> 0 <= #[trigger] fa[c] <= la,
                forall|c: int| 0 <= c < ld ==> -1 <= #[trigger] fc[c] < lc,
                forall|y: (nat, u32, u32)| #[trigger] min_heap@.contains(y) ==> (y.2 as int) < lb && y.1 as int == fa[y.2 as int]
                    && fa[y.2 as int] < la && y.0 == av[fa[y.2 as int]].0@ + bv[y.2 as int].0@,
                forall|y: (nat, u32, u32)| #[trigger] max_heap@.contains(y) ==> (y.2 as int) < ld && y.1 as int == fc[y.2 as int]
                    && fc[y.2 as int] >= 0 && y.0 == cv[fc[y.2 as int]].0@ + dv[y.2 as int].0@,
                forall|y: (nat, u32, u32)| min_heap@.to_multiset().count(y) <= 1,
                forall|y: (nat, u32, u32)| max_heap@.to_multiset().count(y) <= 1,
                forall|c: int|
                    0 <= c < lb && fa[c] < la && av[fa[c]].0@ + bv[c].0@ <= t ==> #[trigger] min_heap@.contains(
                        (av[fa[c]].0@ + bv[c].0@, fa[c] as u32, c as u32),
                    ),
                forall|c: int|
                    0 <= c < ld && fc[c] >= 0 ==> #[trigger] max_heap@.contains((cv[fc[c]].0@ + dv[c].0@, fc[c] as u32, c as u32)),
                forall|i: int, c: int| 0 <= c < lb && 0 <= i < fa[c] ==> #[trigger] ab_dead_big(av, bv, cv, dv, t, i, c),
                forall|kk: int, c: int| 0 <= c < ld && fc[c] < kk < lc ==> #[trigger] cd_dead_big(av, bv, cv, dv, t, kk, c),
                pot_ab(fa, la) >= 0,
                pot_cd(fc) >= 0,
                found matches Some(f) ==> (f.0 as int) < av.len() && (f.1 as int) < bv.len() && (f.2 as int)
                    < cv.len() && (f.3 as int) < dv.len() && av[f.0 as int].0@ + bv[f.1 as int].0@ + cv[f.2 as int].0@
                    + dv[f.3 as int].0@ == target@,
            ensures
                found is Some || min_heap@.len() == 0 || max_heap@.len() == 0,
            decreases limit - ops,
        {
            ops += 1;
            if (ops & 0xFFF) == 0 && stop_requested(stop) {
                return Search::Stopped;
            }
            let (sa_slot, ai, bi) = match min_heap.peek() {
                Some(e) => e,
                None => break,
            };
            let (sc_slot, ci, di) = match max_heap.peek() {
                Some(e) => e,
                None => break,
            };
            let ab = min_heap.key(sa_slot);
            let cd = max_heap.key(sc_slot);
            let ghost x = (ab@, ai, bi);
            let ghost z = (cd@, ci, di);
            proof {
                assert(min_heap.entry((sa_slot, ai, bi)) == x);
                assert(max_heap.entry((sc_slot, ci, di)) == z);
                assert(min_heap@.contains(x));
                assert(max_heap@.contains(z));
            }
            let total = big_add(ab, cd);
            if big_eq(&total, target) {
                found = Some((ai, bi, ci, di));
                break;
            } else if big_le(&total, target) {
                proof {
                    assert forall|kk: int, c: int| !#[trigger] quad_hit_big(av, bv, cv, dv, t, ai as int, bi as int, kk, c) by {
                        if quad_hit_big(av, bv, cv, dv, t, ai as int, bi as int, kk, c) {
                            if fc[c] < kk {
                                assert(cd_dead_big(av, bv, cv, dv, t, kk, c));
                            } else {
                                let y = (cv[fc[c]].0@ + dv[c].0@, fc[c] as u32, c as u32);
                                assert(max_heap@.contains(y));
                                assert(cv[kk].0@ <= cv[fc[c]].0@);
                            }
                        }
                    }
                    assert(ab_dead_big(av, bv, cv, dv, t, ai as int, bi as int));
                }
                let ghost old_heap = min_heap@;
                let ghost old_fa = fa;
                let _ = min_heap.pop();
                proof {
                    fa = fa.update(bi as int, fa[bi as int] + 1);
                    lemma_pot_ab_update(old_fa, la, bi as int, old_fa[bi as int] + 1);
                    assert(min_heap@.to_multiset().count(x) == 0);
                    assert forall|y: (nat, u32, u32)| #[trigger] min_heap@.contains(y) implies y.2 != bi && old_heap.contains(y) by {
                        assert(min_heap@.to_multiset().count(y) > 0);
                        assert(old_heap.to_multiset().count(y) > 0);
                        if y.2 == bi {
                            assert(y == x);
                        }
                    }
                }
                let ai_us = ai as usize;
                if ai_us + 1 < a_sums.len() {
                    let new_sum = big_add(&a_sums[ai_us + 1].0, &b_sums[bi as usize].0);
                    if big_le(&new_sum, target) {
                        let ghost h1 = min_heap@;
                        let ghost nv = new_sum@;
                        min_heap.push(new_sum, (ai_us + 1) as u32, bi);
                        proof {
                            assert(min_heap@.to_multiset().count((nv, (ai_us + 1) as u32, bi)) > 0);
                            assert(min_heap@.contains((nv, (ai_us + 1) as u32, bi)));
                            assert(!h1.contains((nv, (ai_us + 1) as u32, bi)));
                            assert(h1.to_multiset().count((nv, (ai_us + 1) as u32, bi)) == 0);
                            assert forall|y: (nat, u32, u32)| min_heap@.to_multiset().count(y) <= 1 by {
                                if y != (nv, (ai_us + 1) as u32, bi) {
                                    assert(min_heap@.to_multiset().count(y) == h1.to_multiset().count(y));
                                    assert(h1.to_multiset().count(y) == old_heap.to_multiset().remove(x).count(y));
                                }
                            }
                        }
                    }
                }
                proof {
                    let h = min_heap@;
                    assert forall|c: int|
                        0 <= c < lb && fa[c] < la && av[fa[c]].0@ + bv[c].0@ <= t implies #[trigger] min_heap@.contains(
                            (av[fa[c]].0@ + bv[c].0@, fa[c] as u32, c as u32),
                        ) by {
                        if c != bi {
                            let y = (av[fa[c]].0@ + bv[c].0@, fa[c] as u32, c as u32);
                            assert(old_fa[c] == fa[c]);
                            assert(old_heap.contains(y));
                            assert(y != x);
                            assert(old_heap.to_multiset().count(y) > 0);
                            assert(h.to_multiset().count(y) > 0);
                        }
                    }
                    assert forall|i: int, c: int| 0 <= c < lb && 0 <= i < fa[c] implies #[trigger] ab_dead_big(av, bv, cv, dv, t, i, c) by {
                        if c == bi && i == ai {
                        } else {
                            assert(i < old_fa[c]);
                        }
                    }
                }
            } else {
                proof {
                    assert forall|i: int, c: int| !#[trigger] quad_hit_big(av, bv, cv, dv, t, i, c, ci as int, di as int) by {
                        if quad_hit_big(av, bv, cv, dv, t, i, c, ci as int, di as int) {
                            if i < fa[c] {
                                assert(ab_dead_big(av, bv, cv, dv, t, i, c));
                            } else if fa[c] < la && av[fa[c]].0@ + bv[c].0@ <= t {
                                let y = (av[fa[c]].0@ + bv[c].0@, fa[c] as u32, c as u32);
                                assert(min_heap@.contains(y));
                                assert(av[fa[c]].0@ <= av[i].0@);
                            } else {
                                assert(av[fa[c]].0@ <= av[i].0@);
                            }
                        }
                    }
                    assert(cd_dead_big(av, bv, cv, dv, t, ci as int, di as int));
                }
                let ghost old_heap = max_heap@;
                let ghost old_fc = fc;
                let _ = max_heap.pop();
                proof {
                    fc = fc.update(di as int, fc[di as int] - 1);
                    lemma_pot_cd_update(old_fc, di as int, old_fc[di as int] - 1);
                    assert(max_heap@.to_multiset().count(z) == 0);
                    assert forall|y: (nat, u32, u32)| #[trigger] max_heap@.contains(y) implies y.2 != di && old_heap.contains(y) by {
                        assert(max_heap@.to_multiset().count(y) > 0);
                        assert(old_heap.to_multiset().count(y) > 0);
                        if y.2 == di {
                            assert(y == z);
                        }
                    }
                }
                let ci_us = ci as usize;
                if ci_us > 0 {
                    let new_sum = big_add(&c_sums[ci_us - 1].0, &d_sums[di as usize].0);
                    let ghost h1 = max_heap@;
                    let ghost nv = new_sum@;
                    max_heap.push(new_sum, (ci_us - 1) as u32, di);
                    proof {
                        assert(max_heap@.to_multiset().count((nv, (ci_us - 1) as u32, di)) > 0);
                        assert(max_heap@.contains((nv, (ci_us - 1) as u32, di)));
                        assert(!h1.contains((nv, (ci_us - 1) as u32, di)));
                        assert(h1.to_multiset().count((nv, (ci_us - 1) as u32, di)) == 0);
                        assert forall|y: (nat, u32, u32)| max_heap@.to_multiset().count(y) <= 1 by {
                            if y != (nv, (ci_us - 1) as u32, di) {
                                assert(max_heap@.to_multiset().count(y) == h1.to_multiset().count(y));
                                assert(h1.to_multiset().count(y) == old_heap.to_multiset().remove(z).count(y));
                            }
                        }
                    }
                }
                proof {
                    let h = max_heap@;
                    assert forall|c: int| 0 <= c < ld && fc[c] >= 0 implies #[trigger] max_heap@.contains(
                        (cv[fc[c]].0@ + dv[c].0@, fc[c] as u32, c as u32),
                    ) by {
                        if c != di {
                            let y = (cv[fc[c]].0@ + dv[c].0@, fc[c] as u32, c as u32);
                            assert(old_fc[c] == fc[c]);
                            assert(old_heap.contains(y));
                            assert(y != z);
                            assert(old_heap.to_multiset().count(y) > 0);
                            assert(h.to_multiset().count(y) > 0);
                        }
                    }
                    assert forall|kk: int, c: int| 0 <= c < ld && fc[c] < kk < lc implies #[trigger] cd_dead_big(av, bv, cv, dv, t, kk, c) by {
                        if c == di && kk == ci {
                        } else {
                            assert(old_fc[c] < kk);
                        }
                    }
                }
            }
            proof {
                lemma_pot_ab_nonneg(fa, la);
                lemma_pot_cd_nonneg(fc);
            }
        }
        proof {
            if found is None {
                assert forall|i: int, c: int, kk: int, l: int| !#[trigger] quad_hit_big(av, bv, cv, dv, t, i, c, kk, l) by {
                    if quad_hit_big(av, bv, cv, dv, t, i, c, kk, l) {
                        if min_heap@.len() == 0 {
                            if i < fa[c] {
                                assert(ab_dead_big(av, bv, cv, dv, t, i, c));
                            } else {
                                if fa[c] < la && av[fa[c]].0@ + bv[c].0@ <= t {
                                    assert(min_heap@.contains((av[fa[c]].0@ + bv[c].0@, fa[c] as u32, c as u32)));
                                }
                                assert(av[fa[c]].0@ <= av[i].0@);
                            }
                        } else {
                            if fc[l] >= 0 {
                                assert(max_heap@.contains((cv[fc[l]].0@ + dv[l].0@, fc[l] as u32, l as u32)));
                            }
                            assert(cd_dead_big(av, bv, cv, dv, t, kk, l));
                        }
                    }
                }
                crate::engines::lemma_perm_solvable(vals(nums@), p.values(), t);
                if crate::model::solvable(p.values(), p.target@) {
                    lemma_quad_from_solvable_big(sa, sb, sc, sd, t, av, bv, cv, dv);
                }
            }
        }
        match found {
            Some((ai, bi, ci, di)) => {
                let ma = a_sums[ai as usize].1;
                let mb = b_sums[bi as usize].1;
                let mc = c_sums[ci as usize].1;
                let md = d_sums[di as usize].1;
                let mut sol = select_big(qa.as_slice(), ma);
                let mut xb = select_big(qb.as_slice(), mb);
                let mut xc = select_big(qc.as_slice(), mc);
                let mut xd = select_big(qd.as_slice(), md);
                let ghost (pa, pb, pc, pd) = (sol@, xb@, xc@, xd@);
                sol.append(&mut xb);
                sol.append(&mut xc);
                sol.append(&mut xd);
                proof {
                    assert(vals(sol@) =~= vals(pa) + vals(pb) + vals(pc) + vals(pd));
                    crate::model::lemma_sub_multiset_concat(vals(pa), sa, vals(pb), sb);
                    crate::model::lemma_sub_multiset_concat(vals(pa) + vals(pb), sa + sb, vals(pc), sc);
                    crate::model::lemma_sub_multiset_concat(vals(pa) + vals(pb) + vals(pc), sa + sb + sc, vals(pd), sd);
                    crate::model::lemma_sum_nat_concat(vals(pa) + vals(pb) + vals(pc), vals(pd));
                    crate::model::lemma_sum_nat_concat(vals(pa) + vals(pb), vals(pc));
                    crate::model::lemma_sum_nat_concat(vals(pa), vals(pb));
                    assert(fits(av[ai as int].1, qa@.len()));
                    super::lemma_perm_found(p, nums@, sol@);
                }
                Search::Found(sol)
            },
            None => Search::Done,
        }
    }

    /// The `u128` merge.
    #[verifier::rlimit(50)]
    #[verifier::spinoff_prover]
    fn run_u128(&self, p: &Profile, stop: &AtomicBool) -> (r: Search)
        requires
            p.wf(),
            16 <= p.n <= 70,
            p.total_sum@ <= u128::MAX,
            p.target@ <= u128::MAX,
        ensures
            sound(p, &r),
            r is Found || r is Done || r is Stopped,
            r is Done ==> !crate::model::solvable(p.values(), p.target@),
    {
        let n = p.n;
        let target = p.target_u128();
        let mut nums = p.numbers_u128();
        let ghost orig = nums@;
        super::sort_u128(&mut nums);
        proof {
            crate::model::lemma_nats_perm(nums@, orig);
            assert(nums@.len() == nums@.to_multiset().len());
            assert(orig.len() == orig.to_multiset().len());
            assert(nums.len() == n);
        }
        let (qa_sz, qb_sz, qc_sz, qd_sz) = adaptive_split(n, nums.as_slice(), target);
        if qd_sz > 31 {
            return Search::Done;
        }
        let qa = slice_to_vec(&nums, 0, qa_sz);
        let qb = slice_to_vec(&nums, qa_sz, qa_sz + qb_sz);
        let qc = slice_to_vec(&nums, qa_sz + qb_sz, qa_sz + qb_sz + qc_sz);
        let qd = slice_to_vec(&nums, qa_sz + qb_sz + qc_sz, n);
        let ghost (sa, sb, sc, sd) = (qa@, qb@, qc@, qd@);
        proof {
            assert(nums@ =~= sa + sb + sc + sd);
            crate::model::lemma_nats_concat(sa + sb + sc, sd);
            crate::model::lemma_nats_concat(sa + sb, sc);
            crate::model::lemma_nats_concat(sa, sb);
            crate::model::lemma_sum_nat_concat(nats(sa + sb + sc), nats(sd));
            crate::model::lemma_sum_nat_concat(nats(sa + sb), nats(sc));
            crate::model::lemma_sum_nat_concat(nats(sa), nats(sb));
        }
        if stop_requested(stop) {
            return Search::Stopped;
        }
        let a_sums = build_sums_u128(qa.as_slice(), target);
        if stop_requested(stop) {
            return Search::Stopped;
        }
        let b_sums = build_sums_u128(qb.as_slice(), target);
        if stop_requested(stop) {
            return Search::Stopped;
        }
        let c_sums = build_sums_u128(qc.as_slice(), target);
        if stop_requested(stop) {
            return Search::Stopped;
        }
        let d_sums = build_sums_u128(qd.as_slice(), target);
        if stop_requested(stop) {
            return Search::Stopped;
        }
        let ghost (av, bv, cv, dv) = (a_sums@, b_sums@, c_sums@, d_sums@);
        proof {
            crate::masks::lemma_fits_zero();
            crate::masks::lemma_mask_sum_nats(sa, 0);
            crate::masks::lemma_mask_sum_nats(sb, 0);
            crate::masks::lemma_mask_sum_nats(sc, 0);
            crate::masks::lemma_mask_sum_nats(sd, 0);
            lemma_mask_zero(sa);
            lemma_mask_zero(sb);
            lemma_mask_zero(sc);
            lemma_mask_zero(sd);
            lemma_sums_bound(sa, target, av);
            lemma_sums_bound(sb, target, bv);
            lemma_sums_bound(sc, target, cv);
            lemma_sums_bound(sd, target, dv);
        }
        if a_sums.len() == 0 || b_sums.len() == 0 || c_sums.len() == 0 || d_sums.len() == 0 {
            return Search::Done;
        }
        if a_sums.len() > 0xFFFF_FFFF || b_sums.len() > 0xFFFF_FFFF || c_sums.len() > 0xFFFF_FFFF
            || d_sums.len() > 0xFFFF_FFFF {
            return Search::Done;
        }
        proof {
            assert forall|x: (u128, u64), y: (u128, u64)| av.contains(x) && bv.contains(y) implies x.0 + y.0 <= u128::MAX by {
                let i = choose|i: int| 0 <= i < av.len() && av[i] == x;
                let j = choose|j: int| 0 <= j < bv.len() && bv[j] == y;
                assert(fits(av[i].1, sa.len()));
                lemma_mask_sum_le(sa, x.1);
                lemma_mask_sum_le(sb, y.1);
            }
            assert forall|x: (u128, u64), y: (u128, u64)| cv.contains(x) && dv.contains(y) implies x.0 + y.0 <= u128::MAX by {
                let i = choose|i: int| 0 <= i < cv.len() && cv[i] == x;
                let j = choose|j: int| 0 <= j < dv.len() && dv[j] == y;
                lemma_mask_sum_le(sc, x.1);
                lemma_mask_sum_le(sd, y.1);
            }
        }
        let la_us = a_sums.len();
        let lb_us = b_sums.len();
        let lc_us = c_sums.len();
        let ld_us = d_sums.len();
        let ghost la = la_us as int;
        let ghost lb = lb_us as int;
        let ghost lc = lc_us as int;
        let ghost ld = ld_us as int;
        let ghost mut fa: Seq<int> = Seq::new(lb as nat, |j: int| 0int);
        let ghost mut fc: Seq<int> = Seq::new(ld as nat, |l: int| lc - 1);
        let mut min_heap = HeapU128::new(false);
        let mut j: usize = 0;
        while j < b_sums.len()
            invariant
                j <= b_sums.len(),
                a_sums.len() > 0,
                b_sums.len() <= 0xFFFF_FFFF,
                a_sums@ == av,
                b_sums@ == bv,
                lb == bv.len(),
                fa == Seq::new(lb as nat, |j: int| 0int),
                min_heap.wf(),
                !min_heap.is_max(),
                forall|x: (u128, u64), y: (u128, u64)| av.contains(x) && bv.contains(y) ==> x.0 + y.0 <= u128::MAX,
                forall|y: (u128, u32, u32)| #[trigger] min_heap@.contains(y) ==> pair_ok(av, bv, y) && y.1 == 0 && (y.2 as int) < j,
                forall|y: (u128, u32, u32)| min_heap@.to_multiset().count(y) <= 1,
                forall|c: int|
                    0 <= c < j && av[0].0 + bv[c].0 <= target ==> #[trigger] min_heap@.contains(
                        ((av[0].0 + bv[c].0) as u128, 0u32, c as u32),
                    ),
            decreases b_sums.len() - j,
        {
            assert(av.contains(av[0]) && bv.contains(bv[j as int]));
            let s = a_sums[0].0 + b_sums[j].0;
            if s <= target {
                let ghost before = min_heap@;
                min_heap.push((s, 0, j as u32));
                proof {
                    assert(!before.contains((s, 0u32, j as u32)));
                    assert(before.to_multiset().count((s, 0u32, j as u32)) == 0);
                    assert forall|y: (u128, u32, u32)| min_heap@.to_multiset().count(y) <= 1 by {
                        if y != (s, 0u32, j as u32) {
                            assert(min_heap@.to_multiset().count(y) == before.to_multiset().count(y));
                        }
                    }
                    assert forall|c: int|
                        0 <= c < j + 1 && av[0].0 + bv[c].0 <= target implies #[trigger] min_heap@.contains(
                            ((av[0].0 + bv[c].0) as u128, 0u32, c as u32),
                        ) by {
                        let y = ((av[0].0 + bv[c].0) as u128, 0u32, c as u32);
                        if c < j {
                            assert(before.contains(y));
                            assert(before.to_multiset().count(y) > 0);
                            assert(min_heap@.to_multiset().count(y) > 0);
                        }
                    }
                }
            }
            j += 1;
        }
        let last_c = c_sums.len() - 1;
        let mut max_heap = HeapU128::new(true);
        let mut k: usize = 0;
        while k < d_sums.len()
            invariant
                k <= d_sums.len(),
                last_c == c_sums.len() - 1,
                c_sums.len() <= 0xFFFF_FFFF,
                d_sums.len() <= 0xFFFF_FFFF,
                c_sums@ == cv,
                d_sums@ == dv,
                lc == cv.len(),
                fc == Seq::new(ld as nat, |l: int| lc - 1),
                max_heap.wf(),
                max_heap.is_max(),
                forall|x: (u128, u64), y: (u128, u64)| cv.contains(x) && dv.contains(y) ==> x.0 + y.0 <= u128::MAX,
                forall|y: (u128, u32, u32)| #[trigger] max_heap@.contains(y) ==> pair_ok(cv, dv, y) && y.1 == last_c && (y.2 as int) < k,
                forall|y: (u128, u32, u32)| max_heap@.to_multiset().count(y) <= 1,
                forall|c: int|
                    0 <= c < k ==> #[trigger] max_heap@.contains(((cv[last_c as int].0 + dv[c].0) as u128, last_c as u32, c as u32)),
            decreases d_sums.len() - k,
        {
            assert(cv.contains(cv[last_c as int]) && dv.contains(dv[k as int]));
            let s = c_sums[last_c].0 + d_sums[k].0;
            let ghost before = max_heap@;
            max_heap.push((s, last_c as u32, k as u32));
            proof {
                assert(!before.contains((s, last_c as u32, k as u32)));
                assert(before.to_multiset().count((s, last_c as u32, k as u32)) == 0);
                assert forall|y: (u128, u32, u32)| max_heap@.to_multiset().count(y) <= 1 by {
                    if y != (s, last_c as u32, k as u32) {
                        assert(max_heap@.to_multiset().count(y) == before.to_multiset().count(y));
                    }
                }
                assert forall|c: int|
                    0 <= c < k + 1 implies #[trigger] max_heap@.contains(((cv[last_c as int].0 + dv[c].0) as u128, last_c as u32, c as u32)) by {
                    let y = ((cv[last_c as int].0 + dv[c].0) as u128, last_c as u32, c as u32);
                    if c < k {
                        assert(before.contains(y));
                        assert(before.to_multiset().count(y) > 0);
                        assert(max_heap@.to_multiset().count(y) > 0);
                    }
                }
            }
            k += 1;
        }
        let la128 = a_sums.len() as u128;
        let lb128 = b_sums.len() as u128;
        let lc128 = c_sums.len() as u128;
        let ld128 = d_sums.len() as u128;
        assert(la128 * lb128 <= 0xFFFF_FFFF * 0xFFFF_FFFF) by (nonlinear_arith)
            requires la128 <= 0xFFFF_FFFF, lb128 <= 0xFFFF_FFFF;
        assert(lc128 * ld128 <= 0xFFFF_FFFF * 0xFFFF_FFFF) by (nonlinear_arith)
            requires lc128 <= 0xFFFF_FFFF, ld128 <= 0xFFFF_FFFF;
        let limit: u128 = la128 * lb128 + lc128 * ld128 + 1;
        let mut ops: u128 = 0;
        let mut found: Option<(u32, u32, u32, u32)> = None;
        proof {
            lemma_pot_const(lb as nat, 0, la);
            lemma_pot_const(ld as nat, lc - 1, la);
            assert(lb * (la - 0) == la * lb) by (nonlinear_arith);
            assert(ld * (lc - 1 + 1) == lc * ld) by (nonlinear_arith);
            assert forall|y: (u128, u32, u32)| #[trigger] min_heap@.contains(y) implies (y.2 as int) < lb && y.1 as int == fa[y.2 as int]
                && fa[y.2 as int] < la && y.0 as int == av[fa[y.2 as int]].0 + bv[y.2 as int].0 by {
            }
            assert forall|y: (u128, u32, u32)| #[trigger] max_heap@.contains(y) implies (y.2 as int) < ld && y.1 as int == fc[y.2 as int]
                && fc[y.2 as int] >= 0 && y.0 as int == cv[fc[y.2 as int]].0 + dv[y.2 as int].0 by {
            }
        }
        while !min_heap.is_empty() && !max_heap.is_empty() && ops < limit
            invariant_except_break
                ops + pot_ab(fa, la) + pot_cd(fc) == la * lb + lc * ld,
            invariant
                a_sums@ == av,
                b_sums@ == bv,
                c_sums@ == cv,
                d_sums@ == dv,
                la == av.len(),
                lb == bv.len(),
                lc == cv.len(),
                ld == dv.len(),
                0 < la <= 0xFFFF_FFFF,
                0 < lb <= 0xFFFF_FFFF,
                0 < lc <= 0xFFFF_FFFF,
                0 < ld <= 0xFFFF_FFFF,
                limit == la * lb + lc * ld + 1,
                crate::sums::sums_by_value(sa, target, av),
                crate::sums::sums_by_value(sb, target, bv),
                crate::sums::sums_by_value(sc, target, cv),
                crate::sums::sums_by_value(sd, target, dv),
                forall|x: (u128, u64), y: (u128, u64)| av.contains(x) && bv.contains(y) ==> x.0 + y.0 <= u128::MAX,
                forall|x: (u128, u64), y: (u128, u64)| cv.contains(x) && dv.contains(y) ==> x.0 + y.0 <= u128::MAX,
                min_heap.wf(),
                max_heap.wf(),
                !min_heap.is_max(),
                max_heap.is_max(),
                fa.len() == lb,
                fc.len() == ld,
                forall|c: int| 0 <= c < lb ==> 0 <= #[trigger] fa[c] <= la,
                forall|c: int| 0 <= c < ld ==> -1 <= #[trigger] fc[c] < lc,
                forall|y: (u128, u32, u32)| #[trigger] min_heap@.contains(y) ==> (y.2 as int) < lb && y.1 as int == fa[y.2 as int]
                    && fa[y.2 as int] < la && y.0 as int == av[fa[y.2 as int]].0 + bv[y.2 as int].0,
                forall|y: (u128, u32, u32)| #[trigger] max_heap@.contains(y) ==> (y.2 as int) < ld && y.1 as int == fc[y.2 as int]
                    && fc[y.2 as int] >= 0 && y.0 as int == cv[fc[y.2 as int]].0 + dv[y.2 as int].0,
                forall|y: (u128, u32, u32)| min_heap@.to_multiset().count(y) <= 1,
                forall|y: (u128, u32, u32)| max_heap@.to_multiset().count(y) <= 1,
                forall|c: int|
                    0 <= c < lb && fa[c] < la && av[fa[c]].0 + bv[c].0 <= target ==> #[trigger] min_heap@.contains(
                        ((av[fa[c]].0 + bv[c].0) as u128, fa[c] as u32, c as u32),
                    ),
                forall|c: int|
                    0 <= c < ld && fc[c] >= 0 ==> #[trigger] max_heap@.contains(
                        ((cv[fc[c]].0 + dv[c].0) as u128, fc[c] as u32, c as u32),
                    ),
                forall|i: int, c: int| 0 <= c < lb && 0 <= i < fa[c] ==> #[trigger] ab_dead(av, bv, cv, dv, target, i, c),
                forall|kk: int, c: int| 0 <= c < ld && fc[c] < kk < lc ==> #[trigger] cd_dead(av, bv, cv, dv, target, kk, c),
                pot_ab(fa, la) >= 0,
                pot_cd(fc) >= 0,
                found matches Some(f) ==> (f.0 as int) < av.len() && (f.1 as int) < bv.len() && (f.2 as int)
                    < cv.len() && (f.3 as int) < dv.len() && av[f.0 as int].0 + bv[f.1 as int].0 + cv[f.2 as int].0
                    + dv[f.3 as int].0 == target,
            ensures
                found is Some || min_heap@.len() == 0 || max_heap@.len() == 0,
                found is None ==> (forall|i: int, c: int| 0 <= c < lb && 0 <= i < fa[c] ==> #[trigger] ab_dead(av, bv, cv, dv, target, i, c)),
                found is None ==> (forall|kk: int, c: int| 0 <= c < ld && fc[c] < kk < lc ==> #[trigger] cd_dead(av, bv, cv, dv, target, kk, c)),
                found is None ==> (forall|c: int|
                    0 <= c < lb && fa[c] < la && av[fa[c]].0 + bv[c].0 <= target ==> #[trigger] min_heap@.contains(
                        ((av[fa[c]].0 + bv[c].0) as u128, fa[c] as u32, c as u32),
                    )),
                found is None ==> (forall|c: int| 0 <= c < ld && fc[c] >= 0 ==> #[trigger] max_heap@.contains(
                        ((cv[fc[c]].0 + dv[c].0) as u128, fc[c] as u32, c as u32),
                    )),
                fa.len() == lb,
                fc.len() == ld,
                forall|c: int| 0 <= c < lb ==> 0 <= #[trigger] fa[c] <= la,
                forall|c: int| 0 <= c < ld ==> -1 <= #[trigger] fc[c] < lc,
                found matches Some(f) ==> (f.0 as int) < av.len() && (f.1 as int) < bv.len() && (f.2 as int)
                    < cv.len() && (f.3 as int) < dv.len() && av[f.0 as int].0 + bv[f.1 as int].0 + cv[f.2 as int].0
                    + dv[f.3 as int].0 == target,
            decreases limit - ops,
        {
            ops += 1;
            if (ops & 0x3FF) == 0 && stop_requested(stop) {
                return Search::Stopped;
            }
            let (ab, ai, bi) = match min_heap.peek() {
                Some(t) => t,
                None => break,
            };
            let (cd, ci, di) = match max_heap.peek() {
                Some(t) => t,
                None => break,
            };
            proof {
                assert(min_heap@.contains((ab, ai, bi)));
                assert(max_heap@.contains((cd, ci, di)));
            }
            let over = match ab.checked_add(cd) {
                Some(t) => t > target,
                None => true,
            };
            if !over && ab + cd == target {
                found = Some((ai, bi, ci, di));
                break;
            } else if !over {
                // every pair of the last two lists is at most `cd`, so
                // `(ai, bi)` meets none of them
                proof {
                    assert forall|kk: int, c: int| !#[trigger] quad_hit(av, bv, cv, dv, target, ai as int, bi as int, kk, c) by {
                        if quad_hit(av, bv, cv, dv, target, ai as int, bi as int, kk, c) {
                            if fc[c] < kk {
                                assert(cd_dead(av, bv, cv, dv, target, kk, c));
                            } else {
                                let y = ((cv[fc[c]].0 + dv[c].0) as u128, fc[c] as u32, c as u32);
                                assert(max_heap@.contains(y));
                                assert(cv[kk].0 <= cv[fc[c]].0);
                            }
                        }
                    }
                    assert(ab_dead(av, bv, cv, dv, target, ai as int, bi as int));
                }
                let ghost old_heap = min_heap@;
                let ghost old_fa = fa;
                let _ = min_heap.pop();
                proof {
                    fa = fa.update(bi as int, fa[bi as int] + 1);
                    lemma_pot_ab_update(old_fa, la, bi as int, old_fa[bi as int] + 1);
                    assert(min_heap@.to_multiset().count((ab, ai, bi)) == 0);
                    assert forall|y: (u128, u32, u32)| #[trigger] min_heap@.contains(y) implies y.2 != bi by {
                        assert(old_heap.contains(y));
                        if y.2 == bi {
                            assert(y == (ab, ai, bi));
                            assert(min_heap@.to_multiset().count(y) > 0);
                        }
                    }
                }
                let ai_us = ai as usize;
                if ai_us + 1 < a_sums.len() {
                    assert(av.contains(av[ai_us + 1]) && bv.contains(bv[bi as int]));
                    let new_sum = a_sums[ai_us + 1].0 + b_sums[bi as usize].0;
                    if new_sum <= target {
                        let ghost h1 = min_heap@;
                        min_heap.push((new_sum, (ai_us + 1) as u32, bi));
                        proof {
                            assert(!h1.contains((new_sum, (ai_us + 1) as u32, bi)));
                            assert(h1.to_multiset().count((new_sum, (ai_us + 1) as u32, bi)) == 0);
                            assert forall|y: (u128, u32, u32)| min_heap@.to_multiset().count(y) <= 1 by {
                                if y != (new_sum, (ai_us + 1) as u32, bi) {
                                    assert(min_heap@.to_multiset().count(y) == h1.to_multiset().count(y));
                                    assert(h1.to_multiset().count(y) == old_heap.to_multiset().remove((ab, ai, bi)).count(y));
                                }
                            }
                        }
                    }
                }
                proof {
                    let h = min_heap@;
                    assert forall|c: int|
                        0 <= c < lb && fa[c] < la && av[fa[c]].0 + bv[c].0 <= target implies #[trigger] min_heap@.contains(
                            ((av[fa[c]].0 + bv[c].0) as u128, fa[c] as u32, c as u32),
                        ) by {
                        if c != bi {
                            let y = ((av[fa[c]].0 + bv[c].0) as u128, fa[c] as u32, c as u32);
                            assert(old_fa[c] == fa[c]);
                            assert(old_heap.contains(y));
                            assert(y != (ab, ai, bi));
                            assert(old_heap.to_multiset().count(y) > 0);
                            assert(h.to_multiset().count(y) > 0);
                        }
                    }
                    assert forall|i: int, c: int| 0 <= c < lb && 0 <= i < fa[c] implies #[trigger] ab_dead(av, bv, cv, dv, target, i, c) by {
                        if c == bi && i == ai {
                        } else {
                            assert(i < old_fa[c]);
                        }
                    }
                }
            } else {
                // every pair of the first two lists is at least `ab`, so
                // `(ci, di)` meets none of them
                proof {
                    assert forall|i: int, c: int| !#[trigger] quad_hit(av, bv, cv, dv, target, i, c, ci as int, di as int) by {
                        if quad_hit(av, bv, cv, dv, target, i, c, ci as int, di as int) {
                            if i < fa[c] {
                                assert(ab_dead(av, bv, cv, dv, target, i, c));
                            } else if fa[c] < la && av[fa[c]].0 + bv[c].0 <= target {
                                let y = ((av[fa[c]].0 + bv[c].0) as u128, fa[c] as u32, c as u32);
                                assert(min_heap@.contains(y));
                                assert(av[fa[c]].0 <= av[i].0);
                            } else {
                                assert(av[fa[c]].0 <= av[i].0);
                            }
                        }
                    }
                    assert(cd_dead(av, bv, cv, dv, target, ci as int, di as int));
                }
                let ghost old_heap = max_heap@;
                let ghost old_fc = fc;
                let _ = max_heap.pop();
                proof {
                    fc = fc.update(di as int, fc[di as int] - 1);
                    lemma_pot_cd_update(old_fc, di as int, old_fc[di as int] - 1);
                    assert(max_heap@.to_multiset().count((cd, ci, di)) == 0);
                    assert forall|y: (u128, u32, u32)| #[trigger] max_heap@.contains(y) implies y.2 != di by {
                        assert(old_heap.contains(y));
                        if y.2 == di {
                            assert(y == (cd, ci, di));
                            assert(max_heap@.to_multiset().count(y) > 0);
                        }
                    }
                }
                let ci_us = ci as usize;
                if ci_us > 0 {
                    assert(cv.contains(cv[ci_us - 1]) && dv.contains(dv[di as int]));
                    let new_sum = c_sums[ci_us - 1].0 + d_sums[di as usize].0;
                    let ghost h1 = max_heap@;
                    max_heap.push((new_sum, (ci_us - 1) as u32, di));
                    proof {
                        assert(!h1.contains((new_sum, (ci_us - 1) as u32, di)));
                        assert(h1.to_multiset().count((new_sum, (ci_us - 1) as u32, di)) == 0);
                        assert forall|y: (u128, u32, u32)| max_heap@.to_multiset().count(y) <= 1 by {
                            if y != (new_sum, (ci_us - 1) as u32, di) {
                                assert(max_heap@.to_multiset().count(y) == h1.to_multiset().count(y));
                                assert(h1.to_multiset().count(y) == old_heap.to_multiset().remove((cd, ci, di)).count(y));
                            }
                        }
                    }
                }
                proof {
                    let h = max_heap@;
                    assert forall|c: int| 0 <= c < ld && fc[c] >= 0 implies #[trigger] max_heap@.contains(
                        ((cv[fc[c]].0 + dv[c].0) as u128, fc[c] as u32, c as u32),
                    ) by {
                        if c != di {
                            let y = ((cv[fc[c]].0 + dv[c].0) as u128, fc[c] as u32, c as u32);
                            assert(old_fc[c] == fc[c]);
                            assert(old_heap.contains(y));
                            assert(y != (cd, ci, di));
                            assert(old_heap.to_multiset().count(y) > 0);
                            assert(h.to_multiset().count(y) > 0);
                        }
                    }
                    assert forall|kk: int, c: int| 0 <= c < ld && fc[c] < kk < lc implies #[trigger] cd_dead(av, bv, cv, dv, target, kk, c) by {
                        if c == di && kk == ci {
                        } else {
                            assert(old_fc[c] < kk);
                        }
                    }
                }
            }
            proof {
                lemma_pot_ab_nonneg(fa, la);
                lemma_pot_cd_nonneg(fc);
            }
        }
        proof {
            if found is None {
                assert forall|i: int, c: int, kk: int, l: int| !#[trigger] quad_hit(av, bv, cv, dv, target, i, c, kk, l) by {
                    if quad_hit(av, bv, cv, dv, target, i, c, kk, l) {
                        if min_heap@.len() == 0 {
                            if i < fa[c] {
                                assert(ab_dead(av, bv, cv, dv, target, i, c));
                            } else {
                                if fa[c] < la && av[fa[c]].0 + bv[c].0 <= target {
                                    assert(min_heap@.contains(((av[fa[c]].0 + bv[c].0) as u128, fa[c] as u32, c as u32)));
                                }
                                assert(av[fa[c]].0 <= av[i].0);
                            }
                        } else {
                            if fc[l] >= 0 {
                                assert(max_heap@.contains(((cv[fc[l]].0 + dv[l].0) as u128, fc[l] as u32, l as u32)));
                            }
                            assert(cd_dead(av, bv, cv, dv, target, kk, l));
                        }
                    }
                }
                assert(crate::model::nats(orig).to_multiset() == crate::model::nats(nums@).to_multiset());
                crate::engines::lemma_perm_solvable(nats(orig), nats(nums@), target as nat);
                crate::model::lemma_nats_concat(sa + sb + sc, sd);
                crate::model::lemma_nats_concat(sa + sb, sc);
                crate::model::lemma_nats_concat(sa, sb);
                if crate::model::solvable(p.values(), p.target@) {
                    lemma_quad_from_solvable(sa, sb, sc, sd, target, av, bv, cv, dv);
                }
            }
        }
        match found {
            Some((ai, bi, ci, di)) => {
                let ma = a_sums[ai as usize].1;
                let mb = b_sums[bi as usize].1;
                let mc = c_sums[ci as usize].1;
                let md = d_sums[di as usize].1;
                let mut sol = select_u128(qa.as_slice(), ma);
                let mut xb = select_u128(qb.as_slice(), mb);
                let mut xc = select_u128(qc.as_slice(), mc);
                let mut xd = select_u128(qd.as_slice(), md);
                let ghost (pa, pb, pc, pd) = (sol@, xb@, xc@, xd@);
                sol.append(&mut xb);
                sol.append(&mut xc);
                sol.append(&mut xd);
                let big = to_big(&sol);
                proof {
                    assert(sol@ == pa + pb + pc + pd);
                    lemma_picked_sub(sa, ma);
                    lemma_picked_sub(sb, mb);
                    lemma_picked_sub(sc, mc);
                    lemma_picked_sub(sd, md);
                    crate::model::lemma_sub_multiset_concat(pa, sa, pb, sb);
                    crate::model::lemma_sub_multiset_concat(pa + pb, sa + sb, pc, sc);
                    crate::model::lemma_sub_multiset_concat(pa + pb + pc, sa + sb + sc, pd, sd);
                    crate::model::lemma_sub_multiset_trans(sol@, nums@, orig);
                    crate::model::lemma_nats_concat(pa + pb + pc, pd);
                    crate::model::lemma_nats_concat(pa + pb, pc);
                    crate::model::lemma_nats_concat(pa, pb);
                    crate::model::lemma_sum_nat_concat(nats(pa + pb + pc), nats(pd));
                    crate::model::lemma_sum_nat_concat(nats(pa + pb), nats(pc));
                    crate::model::lemma_sum_nat_concat(nats(pa), nats(pb));
                    assert(fits(av[ai as int].1, sa.len()));
                    super::lemma_u128_found(p, orig, sol@, big@);
                }
                Search::Found(big)
            },
            None => Search::Done,
        }
    }
}

/// A copy of `v[lo..hi]`.
pub fn slice_to_vec(v: &Vec<u128>, lo: usize, hi: usize) -> (r: Vec<u128>)
    requires
        lo <= hi <= v.len(),
    ensures
        r@ == v@.subrange(lo as int, hi as int),
{
    let mut r: Vec<u128> = Vec::new();
    let mut i = lo;
    while i < hi
        invariant
            lo <= i <= hi,
            hi <= v.len(),
            r@ == v@.subrange(lo as int, i as int),
        decreases hi - i,
    {
        r.push(v[i]);
        proof {
            assert(v@.subrange(lo as int, i + 1) =~= v@.subrange(lo as int, i as int).push(v@[i as int]));
        }
        i += 1;
    }
    r
}

} // verus!
