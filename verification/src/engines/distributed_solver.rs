//! The distributed engine: the plan, how the work is cut into pieces,
//! and the search each worker runs on its piece.  Spawning the workers is
//! done by the caller.
use vstd::prelude::*;
use std::sync::atomic::AtomicBool;
use crate::model::{sum_nat, sub_multiset, is_solution, solvable};
use crate::bignat::{BigNat, vals, big_add, big_le, big_eq};
use crate::profile::Profile;
use crate::stop::stop_requested;
use crate::sort::sort_desc;
use crate::masks::{select_big, lemma_picked_sub};
use super::{Dfs, copy_range, suffix_sums_big};
use super::quadrants::{quadrant_sums, quad_entries};
use super::gdep::gdep_dfs_big;
use super::greedy::appended;

verus! {

broadcast use vstd::seq_lib::group_to_multiset_ensures, vstd::multiset::group_multiset_axioms;

/// How the work is distributed.
pub enum Plan {
    /// Pairs of the first two quarters' sums are dealt out to the workers.
    SsQuadrant,
    /// The numbers, largest first, in one group per worker.
    MdMitm,
    /// Worker `w` takes the numbers at positions congruent to `w`.
    SumRange,
}

/// The plan for an instance.
pub open spec fn plan_for(n: nat, u128_safe: bool) -> Plan {
    if n >= 16 && n <= 50 && u128_safe {
        Plan::SsQuadrant
    } else if n > 70 || !u128_safe {
        Plan::MdMitm
    } else {
        Plan::SumRange
    }
}

/// The subset sums of the four quarters of the numbers.
pub struct QuadTables {
    pub lists: Vec<Vec<BigNat>>,
    pub sums: Vec<Vec<(BigNat, u64)>>,
}

/// The values of the four quarters, in order.
pub open spec fn table_values(t: &QuadTables) -> Seq<nat> {
    vals(t.lists@[0]@) + vals(t.lists@[1]@) + vals(t.lists@[2]@) + vals(t.lists@[3]@)
}

/// The tables hold four quarters and their subset sums.
pub open spec fn tables_ok(t: &QuadTables, target: nat) -> bool {
    &&& t.lists.len() == 4
    &&& t.sums.len() == 4
    &&& forall|q: int| 0 <= q < 4 ==> t.lists@[q].len() < 64 && #[trigger] quad_entries(t.lists@[q]@, target, t.sums@[q]@)
}

/// The values among the first `k` of `s` at positions congruent to `wid`
/// modulo `nw`, in order.
pub open spec fn class_values(s: Seq<nat>, wid: int, nw: int, k: int) -> Seq<nat>
    decreases k,
{
    if k <= 0 {
        Seq::empty()
    } else {
        let r = class_values(s, wid, nw, k - 1);
        if (k - 1) % nw == wid { r.push(s[k - 1]) } else { r }
    }
}

/// The values of the groups laid end to end.
pub open spec fn flat_groups(g: Seq<Vec<BigNat>>) -> Seq<nat>
    decreases g.len(),
{
    if g.len() == 0 {
        Seq::empty()
    } else {
        flat_groups(g.drop_last()) + vals(g.last()@)
    }
}

/// How a worker's share ended.
pub enum Share {
    Hit(Vec<BigNat>),
    Miss,
    Halt,
}

/// The pair positions `[start, end)` that worker `wid` of `nw` takes among
/// `total`: consecutive chunks of `ceil(total / nw)`.
pub open spec fn share_bounds(total: nat, nw: nat, wid: nat) -> (int, int) {
    let chunk = total / nw + if total % nw == 0 { 0nat } else { 1nat };
    let start = wid * chunk;
    let end: int = if start + chunk < total { (start + chunk) as int } else { total as int };
    (start as int, end)
}

/// The shares of workers `0..nw` cover every position below `total`.
pub proof fn lemma_shares_cover(total: nat, nw: nat, idx: int)
    requires
        nw > 0,
        0 <= idx < total,
    ensures
        exists|wid: nat| wid < nw && share_bounds(total, nw, wid).0 <= idx < #[trigger] share_bounds(total, nw, wid).1,
{
    let chunk = total / nw + if total % nw == 0 { 0nat } else { 1nat };
    vstd::arithmetic::div_mod::lemma_fundamental_div_mod(total as int, nw as int);
    assert(nw * chunk >= total && chunk >= 1) by (nonlinear_arith)
        requires
            nw > 0,
            total > 0,
            total == nw * (total / nw) + total % nw,
            0 <= total % nw < nw,
            chunk == total / nw + if total % nw == 0 { 0nat } else { 1nat },
    ;
    let wid = (idx / (chunk as int)) as nat;
    vstd::arithmetic::div_mod::lemma_fundamental_div_mod(idx, chunk as int);
    assert(wid * chunk <= idx < wid * chunk + chunk && wid < nw) by (nonlinear_arith)
        requires
            chunk >= 1,
            0 <= idx < total,
            nw * chunk >= total,
            idx == chunk * (idx / (chunk as int)) + idx % (chunk as int),
            0 <= idx % (chunk as int) < chunk,
            wid == idx / (chunk as int),
    {
        if wid >= nw {
            assert(wid * chunk >= nw * chunk);
        }
    }
    let sb = share_bounds(total, nw, wid);
    assert(sb.0 == wid * chunk);
    assert(sb.1 == if wid * chunk + chunk < total { (wid * chunk + chunk) as int } else { total as int });
    assert(sb.0 <= idx < sb.1);
}

/// Pair position `idx` (first-quarter entry `idx / n1`, second `idx % n1`)
/// with third-quarter entry `c` and fourth `d` makes `target`.
pub open spec fn share_pair_hit(t: &QuadTables, target: nat, idx: int, c: int, d: int) -> bool {
    let n1 = t.sums@[1].len() as int;
    &&& n1 > 0
    &&& 0 <= idx
    &&& idx / n1 < t.sums@[0].len()
    &&& 0 <= c < t.sums@[2].len()
    &&& 0 <= d < t.sums@[3].len()
    &&& t.sums@[0][idx / n1].0@ + t.sums@[1][idx % n1].0@ + t.sums@[2][c].0@ + t.sums@[3][d].0@ == target
}

/// The distributed engine.
pub struct DistributedSolver;

/// A subset found in a piece of the numbers is a solution of the whole.
pub proof fn lemma_piece_solution(values: Seq<nat>, piece: Seq<nat>, sol: Seq<nat>, target: nat)
    requires
        sub_multiset(piece, values),
        sub_multiset(sol, piece),
        sum_nat(sol) == target,
    ensures
        is_solution(values, sol, target),
{
    crate::model::lemma_sub_multiset_trans(sol, piece, values);
}

impl DistributedSolver {
    pub fn name(&self) -> (r: &'static str)
        ensures
            r@ == "DistributedSolver"@,
    {
        "DistributedSolver"
    }

    /// The engine works on at least ten numbers and a positive target.
    pub fn applies(p: &Profile) -> (r: bool)
        requires
            p.wf(),
        ensures
            r == (p.n >= 10 && p.target@ > 0),
    {
        p.n >= 10 && !big_eq(&p.target, &BigNat::zero())
    }

    /// The plan: the quarter merge for 16 to 50 numbers with `u128` sums,
    /// groups for more than 70 numbers or big sums, residue classes
    /// otherwise.
    pub fn choose_and_run(p: &Profile) -> (r: Plan)
        requires
            p.wf(),
        ensures
            r == plan_for(p.n as nat, p.total_sum@ <= u128::MAX && p.target@ <= u128::MAX),
    {
        let safe = p.u128_safe();
        if p.n >= 16 && p.n <= 50 && safe {
            Plan::SsQuadrant
        } else if p.n > 70 || !safe {
            Plan::MdMitm
        } else {
            Plan::SumRange
        }
    }

    /// The quarters and their subset sums (one subset per sum), for at
    /// least eight numbers with quarters shorter than 64.
    pub fn ss_quadrant_tables(p: &Profile) -> (r: Option<QuadTables>)
        requires
            p.wf(),
            p.n - 3 * (p.n / 4) < 64,
        ensures
            r is None <==> p.n / 4 < 2,
            r matches Some(t) ==> tables_ok(&t, p.target@) && table_values(&t) == p.values(),
    {
        let n = p.n;
        let q = n / 4;
        if q < 2 {
            return None;
        }
        let l0 = copy_range(&p.numbers, 0, q);
        let l1 = copy_range(&p.numbers, q, 2 * q);
        let l2 = copy_range(&p.numbers, 2 * q, 3 * q);
        let l3 = copy_range(&p.numbers, 3 * q, n);
        let s0 = quadrant_sums(l0.as_slice(), &p.target);
        let s1 = quadrant_sums(l1.as_slice(), &p.target);
        let s2 = quadrant_sums(l2.as_slice(), &p.target);
        let s3 = quadrant_sums(l3.as_slice(), &p.target);
        let mut lists: Vec<Vec<BigNat>> = Vec::new();
        lists.push(l0);
        lists.push(l1);
        lists.push(l2);
        lists.push(l3);
        let mut sums: Vec<Vec<(BigNat, u64)>> = Vec::new();
        sums.push(s0);
        sums.push(s1);
        sums.push(s2);
        sums.push(s3);
        let t = QuadTables { lists, sums };
        proof {
            assert(p.values() =~= vals(t.lists@[0]@) + vals(t.lists@[1]@) + vals(t.lists@[2]@) + vals(t.lists@[3]@));
            assert forall|k: int| 0 <= k < 4 implies t.lists@[k].len() < 64 && #[trigger] quad_entries(t.lists@[k]@, p.target@, t.sums@[k]@) by {
                if k == 0 {
                } else if k == 1 {
                } else if k == 2 {
                } else {
                }
            }
        }
        Some(t)
    }

    /// Worker `wid` of `nw`: its share of the pairs of first- and
    /// second-quarter sums (in order), each pair at most the target
    /// completed by every pair of third- and fourth-quarter sums.  A miss
    /// means that no pair of its share completes to the target; a stop ends
    /// the share early.
    pub fn ss_quadrant_worker(t: &QuadTables, wid: usize, nw: usize, target: &BigNat, stop: &AtomicBool) -> (r: Share)
        requires
            tables_ok(t, target@),
            wid < nw,
        ensures
            r matches Share::Hit(sol) ==> is_solution(table_values(t), vals(sol@), target@),
            r is Miss ==> forall|idx: int, c: int, d: int|
                share_bounds((t.sums@[0].len() * t.sums@[1].len()) as nat, nw as nat, wid as nat).0 <= idx < share_bounds(
                    (t.sums@[0].len() * t.sums@[1].len()) as nat,
                    nw as nat,
                    wid as nat,
                ).1 ==> !#[trigger] share_pair_hit(t, target@, idx, c, d),
    {
        let n0 = t.sums[0].len();
        let n1 = t.sums[1].len();
        if n0 == 0 || n1 == 0 {
            proof {
                assert(n0 * n1 == 0) by (nonlinear_arith)
                    requires
                        n0 == 0 || n1 == 0,
                ;
            }
            return Share::Miss;
        }
        proof {
            assert((n0 as u128) * (n1 as u128) <= 0xFFFF_FFFF_FFFF_FFFE_0000_0000_0000_0001u128) by (nonlinear_arith)
                requires
                    n0 <= 0xFFFF_FFFF_FFFF_FFFFu64,
                    n1 <= 0xFFFF_FFFF_FFFF_FFFFu64,
            ;
        }
        let total: u128 = (n0 as u128) * (n1 as u128);
        let ghost tot = (n0 * n1) as nat;
        let ghost bounds = share_bounds(tot, nw as nat, wid as nat);
        if total == 0 {
            return Share::Miss;
        }
        proof {
            assert(total / (nw as u128) <= total) by (nonlinear_arith)
                requires
                    nw > 0,
            ;
        }
        let chunk: u128 = total / (nw as u128) + if total % (nw as u128) == 0 { 0 } else { 1 };
        proof {
            assert(tot == total as nat);
            assert(chunk as nat == tot / (nw as nat) + if tot % (nw as nat) == 0 { 0nat } else { 1nat });
        }
        let start: u128 = match (wid as u128).checked_mul(chunk) {
            Some(v) => v,
            None => {
                return Share::Miss;
            },
        };
        let end: u128 = match start.checked_add(chunk) {
            Some(v) => if v < total { v } else { total },
            None => total,
        };
        proof {
            assert(bounds.0 == start as int);
            assert(bounds.1 == end as int);
        }
        let mut idx: u128 = start;
        while idx < end
            invariant
                tables_ok(t, target@),
                n0 == t.sums@[0].len(),
                n1 == t.sums@[1].len(),
                n1 > 0,
                end <= total,
                total == (n0 as u128) * (n1 as u128),
                start <= idx,
                bounds.0 == start as int,
                bounds.1 == end as int,
                forall|i2: int, c: int, d: int| start <= i2 < idx ==> !#[trigger] share_pair_hit(t, target@, i2, c, d),
            decreases end - idx,
        {
            if stop_requested(stop) {
                return Share::Halt;
            }
            let a = (idx / (n1 as u128)) as usize;
            let b = (idx % (n1 as u128)) as usize;
            proof {
                assert(idx / (n1 as u128) < n0) by (nonlinear_arith)
                    requires
                        idx < (n0 as u128) * (n1 as u128),
                        n1 > 0,
                ;
                assert(quad_entries(t.lists@[0]@, target@, t.sums@[0]@));
                assert(quad_entries(t.lists@[1]@, target@, t.sums@[1]@));
            }
            let sum01 = big_add(&t.sums[0][a].0, &t.sums[1][b].0);
            proof {
                assert(a as int == (idx as int) / (n1 as int));
                assert(b as int == (idx as int) % (n1 as int));
            }
            if big_le(&sum01, target) {
                let mut c: usize = 0;
                while c < t.sums[2].len()
                    invariant
                        tables_ok(t, target@),
                        a < t.sums@[0].len(),
                        b < t.sums@[1].len(),
                        n1 == t.sums@[1].len(),
                        n1 > 0,
                        a as int == (idx as int) / (n1 as int),
                        b as int == (idx as int) % (n1 as int),
                        sum01@ == t.sums@[0][a as int].0@ + t.sums@[1][b as int].0@,
                        forall|c2: int, d: int| c2 < c ==> !#[trigger] share_pair_hit(t, target@, idx as int, c2, d),
                    decreases t.sums[2].len() - c,
                {
                    let mut d: usize = 0;
                    while d < t.sums[3].len()
                        invariant
                            tables_ok(t, target@),
                            a < t.sums@[0].len(),
                            b < t.sums@[1].len(),
                            c < t.sums@[2].len(),
                            n1 == t.sums@[1].len(),
                            n1 > 0,
                            a as int == (idx as int) / (n1 as int),
                            b as int == (idx as int) % (n1 as int),
                            sum01@ == t.sums@[0][a as int].0@ + t.sums@[1][b as int].0@,
                            forall|c2: int, d2: int| c2 < c ==> !#[trigger] share_pair_hit(t, target@, idx as int, c2, d2),
                            forall|d2: int| d2 < d ==> !#[trigger] share_pair_hit(t, target@, idx as int, c as int, d2),
                        decreases t.sums[3].len() - d,
                    {
                        let s012 = big_add(&sum01, &t.sums[2][c].0);
                        let all = big_add(&s012, &t.sums[3][d].0);
                        if big_eq(&all, target) {
                            proof {
                                assert(quad_entries(t.lists@[0]@, target@, t.sums@[0]@));
                                assert(quad_entries(t.lists@[1]@, target@, t.sums@[1]@));
                                assert(quad_entries(t.lists@[2]@, target@, t.sums@[2]@));
                                assert(quad_entries(t.lists@[3]@, target@, t.sums@[3]@));
                                assert(crate::masks::fits(t.sums@[0][a as int].1, t.lists@[0]@.len()));
                                assert(crate::masks::fits(t.sums@[1][b as int].1, t.lists@[1]@.len()));
                                assert(crate::masks::fits(t.sums@[2][c as int].1, t.lists@[2]@.len()));
                                assert(crate::masks::fits(t.sums@[3][d as int].1, t.lists@[3]@.len()));
                            }
                            let mut sol = select_big(t.lists[0].as_slice(), t.sums[0][a].1);
                            let mut p1 = select_big(t.lists[1].as_slice(), t.sums[1][b].1);
                            let mut p2 = select_big(t.lists[2].as_slice(), t.sums[2][c].1);
                            let mut p3 = select_big(t.lists[3].as_slice(), t.sums[3][d].1);
                            let ghost (g0, g1, g2, g3) = (vals(sol@), vals(p1@), vals(p2@), vals(p3@));
                            sol.append(&mut p1);
                            sol.append(&mut p2);
                            sol.append(&mut p3);
                            proof {
                                let v0 = vals(t.lists@[0]@);
                                let v1 = vals(t.lists@[1]@);
                                let v2 = vals(t.lists@[2]@);
                                let v3 = vals(t.lists@[3]@);
                                assert(vals(sol@) =~= ((g0 + g1) + g2) + g3);
                                lemma_picked_sub(v0, t.sums@[0][a as int].1);
                                lemma_picked_sub(v1, t.sums@[1][b as int].1);
                                lemma_picked_sub(v2, t.sums@[2][c as int].1);
                                lemma_picked_sub(v3, t.sums@[3][d as int].1);
                                crate::model::lemma_sub_multiset_concat(g0, v0, g1, v1);
                                crate::model::lemma_sub_multiset_concat(g0 + g1, v0 + v1, g2, v2);
                                crate::model::lemma_sub_multiset_concat((g0 + g1) + g2, (v0 + v1) + v2, g3, v3);
                                crate::model::lemma_sum_nat_concat(g0, g1);
                                crate::model::lemma_sum_nat_concat(g0 + g1, g2);
                                crate::model::lemma_sum_nat_concat((g0 + g1) + g2, g3);
                            }
                            return Share::Hit(sol);
                        }
                        proof {
                            assert forall|d2: int| d2 < d + 1 implies !#[trigger] share_pair_hit(t, target@, idx as int, c as int, d2) by {
                                if d2 == d {
                                    assert(all@ == t.sums@[0][a as int].0@ + t.sums@[1][b as int].0@ + t.sums@[2][c as int].0@ + t.sums@[3][d as int].0@);
                                }
                            }
                        }
                        d += 1;
                    }
                    proof {
                        assert forall|c2: int, d2: int| c2 < c + 1 implies !#[trigger] share_pair_hit(t, target@, idx as int, c2, d2) by {
                            if c2 == c {
                                if share_pair_hit(t, target@, idx as int, c2, d2) {
                                    assert(d2 < t.sums@[3].len());
                                }
                            }
                        }
                    }
                    c += 1;
                }
            }
            proof {
                assert forall|i2: int, c: int, d: int| start <= i2 < idx + 1 implies !#[trigger] share_pair_hit(t, target@, i2, c, d) by {
                    if i2 == idx && share_pair_hit(t, target@, i2, c, d) {
                        if !(sum01@ <= target@) {
                            assert(sum01@ == t.sums@[0][a as int].0@ + t.sums@[1][b as int].0@);
                        }
                    }
                }
            }
            idx += 1;
        }
        Share::Miss
    }

    /// The groups of the magnitude plan: the numbers largest first, in
    /// `max(2, min(nw, n / 5 + 1))` consecutive groups of `ceil(n / groups)`
    /// (empty trailing groups dropped).
    pub fn md_mitm_groups(p: &Profile, nw: usize) -> (r: Vec<Vec<BigNat>>)
        requires
            p.wf(),
        ensures
            forall|g: int| 0 <= g < r.len() ==> sub_multiset(vals(#[trigger] r@[g]@), p.values()),
            flat_groups(r@).to_multiset() == p.values().to_multiset(),
            crate::sort::desc_sorted(flat_groups(r@)),
            forall|g: int| 0 <= g < r.len() ==> (#[trigger] r@[g]).len() > 0,
    {
        let sorted = sort_desc(&p.numbers);
        let n = sorted.len();
        let cap = n / 5 + 1;
        let ng0 = if nw < cap { nw } else { cap };
        let ng = if ng0 < 2 { 2 } else { ng0 };
        proof {
            assert(n / ng < n || n == 0) by (nonlinear_arith)
                requires
                    ng >= 2,
            ;
        }
        let cs = n / ng + if n % ng == 0 { 0 } else { 1 };
        proof {
            vstd::arithmetic::div_mod::lemma_fundamental_div_mod(n as int, ng as int);
            assert(ng * cs >= n) by (nonlinear_arith)
                requires
                    n == ng * (n / ng) + n % ng,
                    cs == n / ng + if n % ng == 0 { 0int } else { 1int },
                    n % ng < ng,
                    ng > 0,
            ;
            assert(n > 0 ==> cs > 0) by (nonlinear_arith)
                requires
                    n == ng * (n / ng) + n % ng,
                    cs == n / ng + if n % ng == 0 { 0int } else { 1int },
                    ng > 0,
                    n % ng >= 0,
            ;
        }
        let mut groups: Vec<Vec<BigNat>> = Vec::new();
        let mut s: usize = 0;
        let mut g: usize = 0;
        while g < ng && s < n
            invariant
                n == sorted.len(),
                s <= n,
                vals(sorted@).to_multiset() == p.values().to_multiset(),
                forall|k: int| 0 <= k < groups.len() ==> sub_multiset(vals(#[trigger] groups@[k]@), p.values()),
                flat_groups(groups@) == vals(sorted@).take(s as int),
                forall|k: int| 0 <= k < groups.len() ==> (#[trigger] groups@[k]).len() > 0,
                s == n || s == g * cs,
                ng * cs >= n,
                n > 0 ==> cs > 0,
                g <= ng,
            decreases ng - g,
        {
            let e = if cs < n - s { s + cs } else { n };
            let group = copy_range(&sorted, s, e);
            proof {
                crate::model::lemma_slice_sub(vals(sorted@), s as int, e as int);
                assert(vals(sorted@).subrange(s as int, e as int) =~= vals(sorted@.subrange(s as int, e as int)));
            }
            let ghost before = groups@;
            groups.push(group);
            proof {
                assert(groups@.drop_last() =~= before);
                assert(vals(sorted@).take(e as int) =~= vals(sorted@).take(s as int) + vals(sorted@.subrange(s as int, e as int)));
                if e < n {
                    assert(e == (g + 1) * cs) by (nonlinear_arith)
                        requires e == s + cs, s == g * cs;
                }
                assert forall|k: int| 0 <= k < groups.len() implies sub_multiset(vals(#[trigger] groups@[k]@), p.values()) by {
                    if k < before.len() {
                        assert(groups@[k] == before[k]);
                    }
                }
            }
            s = e;
            g += 1;
            if cs == 0 {
                s = n;
            }
        }
        proof {
            if s < n {
                assert(g * cs >= n) by (nonlinear_arith)
                    requires g == ng, ng * cs >= n;
            }
            assert(vals(sorted@).take(n as int) =~= vals(sorted@));
        }
        groups
    }

    /// The numbers at positions congruent to `wid` modulo `nw`.
    pub fn residue_class(p: &Profile, wid: usize, nw: usize) -> (r: Vec<BigNat>)
        requires
            p.wf(),
            nw > 0,
        ensures
            sub_multiset(vals(r@), p.values()),
            vals(r@) == class_values(p.values(), wid as int, nw as int, p.values().len() as int),
    {
        let mut local: Vec<BigNat> = Vec::new();
        let mut i: usize = 0;
        proof {
            crate::model::lemma_sub_multiset_empty(p.values().take(0));
            assert(vals(local@) =~= Seq::<nat>::empty());
        }
        while i < p.numbers.len()
            invariant
                i <= p.numbers.len(),
                nw > 0,
                sub_multiset(vals(local@), p.values().take(i as int)),
                vals(local@) == class_values(p.values(), wid as int, nw as int, i as int),
            decreases p.numbers.len() - i,
        {
            let ghost before = local@;
            proof {
                assert(p.values().take(i + 1) =~= p.values().take(i as int).push(p.numbers@[i as int]@));
                crate::model::lemma_sub_multiset_push(vals(before), p.values().take(i as int), p.numbers@[i as int]@);
            }
            if i % nw == wid {
                local.push(p.numbers[i].copy());
                proof {
                    assert(vals(local@) =~= vals(before).push(p.numbers@[i as int]@));
                }
            }
            i += 1;
        }
        proof {
            assert(p.values().take(p.numbers.len() as int) =~= p.values());
        }
        local
    }

    /// One worker's search on its piece: largest first, goal-driven, with
    /// the suffix sums bounding what is left.  When it finishes without a
    /// subset, the piece has none.
    pub fn piece_search(piece: &Vec<BigNat>, target: &BigNat, stop: &AtomicBool) -> (r: Share)
        ensures
            r matches Share::Hit(sol) ==> sub_multiset(vals(sol@), vals(piece@)) && sum_nat(vals(sol@)) == target@,
            piece.len() == 0 ==> r is Miss,
            piece.len() > 0 && target@ == 0 ==> (r matches Share::Hit(sol) && sol.len() == 0),
            r is Miss && piece.len() > 0 ==> !solvable(vals(piece@), target@),
    {
        if piece.len() == 0 {
            return Share::Miss;
        }
        let local = sort_desc(piece);
        let suf = suffix_sums_big(&local);
        let mut path: Vec<BigNat> = Vec::new();
        let res = gdep_dfs_big(&local, &suf, target, 0, local.len(), &mut path, stop);
        proof {
            assert(local@.subrange(0, local.len() as int) =~= local@);
            assert(appended(Seq::<BigNat>::empty(), path@) =~= path@);
        }
        proof {
            assert(vals(local@).to_multiset() == vals(piece@).to_multiset());
        }
        match res {
            Dfs::Hit => Share::Hit(path),
            Dfs::Miss => {
                proof {
                    crate::model::lemma_reach_iff_solvable(vals(local@), target@);
                    if solvable(vals(piece@), target@) {
                        let sol = choose|sol: Seq<nat>| is_solution(vals(piece@), sol, target@);
                        assert(is_solution(vals(local@), sol, target@));
                    }
                }
                Share::Miss
            },
            Dfs::Halt => Share::Halt,
        }
    }
}

} // verus!
